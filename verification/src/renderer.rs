//! The paint/raster stage: an RGBA pixel buffer filled opaque white,
//! the layout tree painted into it depth-first pre-order (parents
//! before children, document order), and the encoding of the buffer as
//! a 24-bit uncompressed bitmap image with bottom-up rows.
//!
//! Text is drawn left to right with a fixed 4-unit stride per
//! character, stopping before the right edge. The glyph pattern data
//! proper is outside this library's scope; each glyph cell is painted
//! as a filled 3-by-5 block in the text color, and out-of-bounds
//! pixel writes are ignored.
use vstd::prelude::*;

verus! {

use crate::dom::{DocModel, Document, ElemModel};
use crate::layout::{BoxModel, LayoutBox, LayoutEngine, LayoutTree, boxes_model, lemma_boxes_model, sp_layout};
use crate::text::{chars_of, str_eq};

broadcast use vstd::seq::axiom_seq_index_decreases, vstd::std_specs::vec::axiom_vec_decreases_to_view;

pub struct PageRenderer;

/// A finished rendering: the RGBA buffer (row-major, top to bottom)
/// and its dimensions.
#[derive(Debug, PartialEq)]
pub struct RenderOutput {
    pub pixels: Vec<u8>,
    pub width: u32,
    pub height: u32,
}

/// A plain RGBA image buffer.
#[derive(Debug, PartialEq)]
pub struct SimpleImage {
    pub width: u32,
    pub height: u32,
    pub pixels: Vec<u8>,
}

/// The buffer holds exactly four bytes per pixel.
pub open spec fn img_wf(width: nat, height: nat, p: Seq<u8>) -> bool {
    p.len() == width * height * 4
}

/// An all-zero buffer of the given size.
pub open spec fn sp_blank(n: nat) -> Seq<u8> {
    Seq::new(n, |i: int| 0u8)
}

/// Every complete four-byte pixel set to the given color; a trailing
/// fragment is left as it was.
pub open spec fn sp_fill(p: Seq<u8>, r: u8, g: u8, b: u8, a: u8) -> Seq<u8> {
    Seq::new(
        p.len(),
        |i: int|
            if i < 4 * (p.len() / 4) {
                if i % 4 == 0 {
                    r
                } else if i % 4 == 1 {
                    g
                } else if i % 4 == 2 {
                    b
                } else {
                    a
                }
            } else {
                p[i]
            },
    )
}

/// One pixel written, if its coordinates lie inside the image;
/// anything outside is ignored.
pub open spec fn sp_put_pixel(
    p: Seq<u8>,
    w: nat,
    h: nat,
    x: nat,
    y: nat,
    r: u8,
    g: u8,
    b: u8,
    a: u8,
) -> Seq<u8> {
    if x >= w || y >= h || p.len() != w * h * 4 {
        p
    } else {
        let idx = (y * w + x) * 4;
        p.update(idx as int, r).update(idx as int + 1, g).update(idx as int + 2, b).update(
            idx as int + 3,
            a,
        )
    }
}

/// One glyph cell: a filled 3-by-5 block at `(x, y)`. The cell's 15
/// pixels are written in row-major order, out-of-bounds ones ignored.
pub open spec fn sp_draw_cell(
    p: Seq<u8>,
    w: nat,
    h: nat,
    x: nat,
    y: nat,
    r: u8,
    g: u8,
    b: u8,
    k: nat,
) -> Seq<u8>
    decreases 15 - k,
{
    if k >= 15 {
        p
    } else {
        sp_draw_cell(
            sp_put_pixel(p, w, h, x + (k % 3), y + (k / 3), r, g, b, 255),
            w,
            h,
            x,
            y,
            r,
            g,
            b,
            k + 1,
        )
    }
}

/// A text run drawn from character `k` on: one glyph cell per
/// character, advancing four units each time, stopping as soon as the
/// next cell would cross the right edge.
pub open spec fn sp_draw_text(
    p: Seq<u8>,
    w: nat,
    h: nat,
    x: nat,
    y: nat,
    cs: Seq<char>,
    k: nat,
    r: u8,
    g: u8,
    b: u8,
) -> Seq<u8>
    decreases cs.len() - k,
{
    if k >= cs.len() {
        p
    } else if x + 4 >= w {
        p
    } else {
        sp_draw_text(sp_draw_cell(p, w, h, x, y, r, g, b, 0), w, h, x + 4, y, cs, k + 1, r, g, b)
    }
}

/// The stroke color drawn for a box, from its element's tag.
pub open spec fn sp_color(e: Option<ElemModel>) -> (u8, u8, u8) {
    match e {
        Some(em) => {
            if em.tag == "h1"@ || em.tag == "h2"@ || em.tag == "h3"@ {
                (50u8, 50u8, 200u8)
            } else if em.tag == "p"@ {
                (0u8, 0u8, 0u8)
            } else if em.tag == "div"@ {
                (200u8, 200u8, 200u8)
            } else {
                (100u8, 100u8, 100u8)
            }
        },
        None => (100u8, 100u8, 100u8),
    }
}

/// One box painted, then its children in document order (pre-order):
/// only a box with positive extent and literal text draws anything.
pub open spec fn sp_paint_box(b: BoxModel, p: Seq<u8>, w: nat, h: nat) -> Seq<u8>
    decreases b, 0nat,
{
    let c = sp_color(b.element);
    let p1 = if b.height > 0 && b.width > 0 {
        match b.text {
            Some(t) => sp_draw_text(p, w, h, b.x, b.y, t, 0, c.0, c.1, c.2),
            None => p,
        }
    } else {
        p
    };
    sp_paint_boxes(b.children, p1, w, h)
}

/// A box list painted front to back.
pub open spec fn sp_paint_boxes(s: Seq<BoxModel>, p: Seq<u8>, w: nat, h: nat) -> Seq<u8>
    decreases s, 1nat,
{
    if s.len() == 0 {
        p
    } else {
        sp_paint_boxes(s.subrange(1, s.len() as int), sp_paint_box(s[0], p, w, h), w, h)
    }
}

/// A whole rendering: white background, then the layout tree of the
/// document painted over it.
pub open spec fn sp_render(doc: DocModel, w: nat, h: nat) -> Seq<u8> {
    sp_paint_box(
        sp_layout(doc, w, h).root,
        sp_fill(sp_blank(w * h * 4), 255, 255, 255, 255),
        w,
        h,
    )
}

/// Pixel writes never change the buffer's size.
pub proof fn lemma_put_pixel_len(p: Seq<u8>, w: nat, h: nat, x: nat, y: nat, r: u8, g: u8, b: u8, a: u8)
    ensures
        sp_put_pixel(p, w, h, x, y, r, g, b, a).len() == p.len(),
{
    if !(x >= w || y >= h || p.len() != w * h * 4) {
        assert((y * w + x) * 4 + 3 < w * h * 4) by (nonlinear_arith)
            requires
                x < w,
                y < h,
        ;
    }
}

pub proof fn lemma_draw_cell_len(p: Seq<u8>, w: nat, h: nat, x: nat, y: nat, r: u8, g: u8, b: u8, k: nat)
    ensures
        sp_draw_cell(p, w, h, x, y, r, g, b, k).len() == p.len(),
    decreases 15 - k,
{
    if k < 15 {
        lemma_put_pixel_len(p, w, h, x + (k % 3), y + (k / 3), r, g, b, 255);
        lemma_draw_cell_len(sp_put_pixel(p, w, h, x + (k % 3), y + (k / 3), r, g, b, 255), w, h, x, y, r, g, b, k + 1);
    }
}

pub proof fn lemma_draw_text_len(p: Seq<u8>, w: nat, h: nat, x: nat, y: nat, cs: Seq<char>, k: nat, r: u8, g: u8, b: u8)
    ensures
        sp_draw_text(p, w, h, x, y, cs, k, r, g, b).len() == p.len(),
    decreases cs.len() - k,
{
    if k < cs.len() && x + 4 < w {
        lemma_draw_cell_len(p, w, h, x, y, r, g, b, 0);
        lemma_draw_text_len(sp_draw_cell(p, w, h, x, y, r, g, b, 0), w, h, x + 4, y, cs, k + 1, r, g, b);
    }
}

/// Painting never changes the buffer's size.
pub proof fn lemma_paint_box_len(b: BoxModel, p: Seq<u8>, w: nat, h: nat)
    ensures
        sp_paint_box(b, p, w, h).len() == p.len(),
    decreases b, 0nat,
{
    let c = sp_color(b.element);
    let p1 = if b.height > 0 && b.width > 0 {
        match b.text {
            Some(t) => sp_draw_text(p, w, h, b.x, b.y, t, 0, c.0, c.1, c.2),
            None => p,
        }
    } else {
        p
    };
    if b.height > 0 && b.width > 0 {
        match b.text {
            Some(t) => {
                lemma_draw_text_len(p, w, h, b.x, b.y, t, 0, c.0, c.1, c.2);
            },
            None => {},
        }
    }
    lemma_paint_boxes_len(b.children, p1, w, h);
}

pub proof fn lemma_paint_boxes_len(s: Seq<BoxModel>, p: Seq<u8>, w: nat, h: nat)
    ensures
        sp_paint_boxes(s, p, w, h).len() == p.len(),
    decreases s, 1nat,
{
    if s.len() > 0 {
        lemma_paint_box_len(s[0], p, w, h);
        lemma_paint_boxes_len(s.subrange(1, s.len() as int), sp_paint_box(s[0], p, w, h), w, h);
    }
}

impl SimpleImage {
    /// The buffer holds exactly four bytes per pixel.
    pub open spec fn wf(&self) -> bool {
        img_wf(self.width as nat, self.height as nat, self.pixels@)
    }

    /// A fresh all-zero image.
    pub fn new(width: u32, height: u32) -> (r: Self)
        requires
            width as nat * height as nat * 4 <= usize::MAX,
        ensures
            r.width == width,
            r.height == height,
            r.pixels@ == sp_blank(width as nat * height as nat * 4),
            r.wf(),
    {
        let n: usize = (width as usize) * (height as usize) * 4;
        let mut pixels: Vec<u8> = Vec::new();
        let mut i: usize = 0;
        while i < n
            invariant
                i <= n,
                pixels@.len() == i,
                forall|j: int| 0 <= j < i ==> pixels@[j] == 0u8,
            decreases n - i,
        {
            pixels.push(0);
            i = i + 1;
        }
        let r = SimpleImage { width, height, pixels };
        assert(r.pixels@ =~= sp_blank(width as nat * height as nat * 4));
        r
    }

    /// Set every pixel to the given color.
    pub fn fill(&mut self, r: u8, g: u8, b: u8, a: u8)
        ensures
            final(self).width == old(self).width,
            final(self).height == old(self).height,
            final(self).pixels@ == sp_fill(old(self).pixels@, r, g, b, a),
    {
        let ghost p0 = self.pixels@;
        let quads: usize = self.pixels.len() / 4;
        let mut i: usize = 0;
        while i < quads
            invariant
                i <= quads,
                quads == p0.len() / 4,
                self.width == old(self).width,
                self.height == old(self).height,
                self.pixels@.len() == p0.len(),
                forall|j: int| 4 * i <= j < p0.len() ==> self.pixels@[j] == p0[j],
                forall|j: int|
                    0 <= j < 4 * i ==> self.pixels@[j] == (if j % 4 == 0 {
                        r
                    } else if j % 4 == 1 {
                        g
                    } else if j % 4 == 2 {
                        b
                    } else {
                        a
                    }),
            decreases quads - i,
        {
            let n0 = self.pixels.len();
            assert(4 * (i + 1) <= 4 * quads && 4 * quads <= n0);
            let base: usize = i * 4;
            self.pixels.set(base, r);
            self.pixels.set(base + 1, g);
            self.pixels.set(base + 2, b);
            self.pixels.set(base + 3, a);
            i = i + 1;
        }
        assert(self.pixels@ =~= sp_fill(p0, r, g, b, a));
    }

    /// Write one pixel; coordinates outside the image are ignored.
    pub fn put_pixel(&mut self, x: u32, y: u32, r: u8, g: u8, b: u8, a: u8)
        requires
            old(self).wf(),
        ensures
            final(self).wf(),
            final(self).width == old(self).width,
            final(self).height == old(self).height,
            final(self).pixels@ == sp_put_pixel(
                old(self).pixels@,
                old(self).width as nat,
                old(self).height as nat,
                x as nat,
                y as nat,
                r,
                g,
                b,
                a,
            ),
    {
        if x >= self.width || y >= self.height {
            return ;
        }
        let n = self.pixels.len();
        proof {
            assert(((y as nat) * (self.width as nat) + (x as nat)) * 4 + 3 < (self.width as nat)
                * (self.height as nat) * 4) by (nonlinear_arith)
                requires
                    x < self.width,
                    y < self.height,
            ;
        }
        let idx: usize = ((y as usize) * (self.width as usize) + (x as usize)) * 4;
        assert(idx + 3 < n);
        self.pixels.set(idx, r);
        self.pixels.set(idx + 1, g);
        self.pixels.set(idx + 2, b);
        self.pixels.set(idx + 3, a);
    }

    /// Hand the raw RGBA bytes out.
    pub fn into_raw(self) -> (r: Vec<u8>)
        ensures
            r@ == self.pixels@,
    {
        self.pixels
    }
}

impl PageRenderer {
    /// One glyph cell: a filled 3-by-5 block.
    fn draw_glyph(img: &mut SimpleImage, x: u64, y: u64, r: u8, g: u8, b: u8)
        requires
            old(img).wf(),
        ensures
            final(img).wf(),
            final(img).width == old(img).width,
            final(img).height == old(img).height,
            final(img).pixels@ == sp_draw_cell(
                old(img).pixels@,
                old(img).width as nat,
                old(img).height as nat,
                x as nat,
                y as nat,
                r,
                g,
                b,
                0,
            ),
    {
        let ghost p0 = old(img).pixels@;
        let ghost w = old(img).width as nat;
        let ghost h = old(img).height as nat;
        let mut k: usize = 0;
        while k < 15
            invariant
                k <= 15,
                img.wf(),
                img.width as nat == w,
                img.height as nat == h,
                sp_draw_cell(p0, w, h, x as nat, y as nat, r, g, b, 0) == sp_draw_cell(
                    img.pixels@,
                    w,
                    h,
                    x as nat,
                    y as nat,
                    r,
                    g,
                    b,
                    k as nat,
                ),
            decreases 15 - k,
        {
            let dx = (k % 3) as u64;
            let dy = (k / 3) as u64;
            let ghost before = img.pixels@;
            if x <= u64::MAX - dx && y <= u64::MAX - dy {
                let xx = x + dx;
                let yy = y + dy;
                if xx < img.width as u64 && yy < img.height as u64 {
                    img.put_pixel(xx as u32, yy as u32, r, g, b, 255);
                } else {
                    assert(img.pixels@ == sp_put_pixel(
                        before,
                        w,
                        h,
                        x as nat + (k as nat % 3),
                        y as nat + (k as nat / 3),
                        r,
                        g,
                        b,
                        255,
                    ));
                }
            } else {
                assert(img.pixels@ == sp_put_pixel(
                    before,
                    w,
                    h,
                    x as nat + (k as nat % 3),
                    y as nat + (k as nat / 3),
                    r,
                    g,
                    b,
                    255,
                ));
            }
            k = k + 1;
        }
    }

    /// A text run: one glyph cell per character, a fixed 4-unit stride,
    /// stopping before the right edge of the image.
    fn draw_text(img: &mut SimpleImage, x: u64, y: u64, text: &str, r: u8, g: u8, b: u8)
        requires
            old(img).wf(),
        ensures
            final(img).wf(),
            final(img).width == old(img).width,
            final(img).height == old(img).height,
            final(img).pixels@ == sp_draw_text(
                old(img).pixels@,
                old(img).width as nat,
                old(img).height as nat,
                x as nat,
                y as nat,
                text@,
                0,
                r,
                g,
                b,
            ),
    {
        let ghost p0 = old(img).pixels@;
        let ghost w = old(img).width as nat;
        let ghost h = old(img).height as nat;
        let cs = chars_of(text);
        let mut px: u64 = x;
        let mut k: usize = 0;
        loop
            invariant_except_break
                k <= cs@.len(),
                cs@ == text@,
                img.wf(),
                img.width as nat == w,
                img.height as nat == h,
                sp_draw_text(p0, w, h, x as nat, y as nat, text@, 0, r, g, b) == sp_draw_text(
                    img.pixels@,
                    w,
                    h,
                    px as nat,
                    y as nat,
                    text@,
                    k as nat,
                    r,
                    g,
                    b,
                ),
            ensures
                img.wf(),
                img.width as nat == w,
                img.height as nat == h,
                img.pixels@ == sp_draw_text(p0, w, h, x as nat, y as nat, text@, 0, r, g, b),
            decreases cs@.len() - k,
        {
            if k >= cs.len() {
                break ;
            }
            if px > u64::MAX - 4 || px + 4 >= img.width as u64 {
                break ;
            }
            Self::draw_glyph(img, px, y, r, g, b);
            px = px + 4;
            k = k + 1;
        }
    }

    /// The stroke color for a box, from its element's tag.
    fn box_color(layout: &LayoutBox) -> (c: (u8, u8, u8))
        ensures
            c == sp_color(layout@.element),
    {
        match &layout.element {
            Some(e) => {
                let t = e.tag.as_str();
                if str_eq(t, "h1") || str_eq(t, "h2") || str_eq(t, "h3") {
                    (50, 50, 200)
                } else if str_eq(t, "p") {
                    (0, 0, 0)
                } else if str_eq(t, "div") {
                    (200, 200, 200)
                } else {
                    (100, 100, 100)
                }
            },
            None => (100, 100, 100),
        }
    }

    /// Paint one box, then its children, depth-first pre-order.
    fn paint_tree(layout: &LayoutBox, img: &mut SimpleImage)
        requires
            old(img).wf(),
        ensures
            final(img).wf(),
            final(img).width == old(img).width,
            final(img).height == old(img).height,
            final(img).pixels@ == sp_paint_box(
                layout@,
                old(img).pixels@,
                old(img).width as nat,
                old(img).height as nat,
            ),
        decreases layout,
    {
        let ghost w = old(img).width as nat;
        let ghost h = old(img).height as nat;
        let c = Self::box_color(layout);
        if layout.height > 0 && layout.width > 0 {
            match &layout.text {
                Some(text) => {
                    Self::draw_text(img, layout.x, layout.y, text.as_str(), c.0, c.1, c.2);
                },
                None => {},
            }
        }
        let ghost bm = boxes_model(layout.children@);
        proof {
            lemma_boxes_model(layout.children@);
            assert(bm.skip(0) =~= bm);
        }
        let mut i: usize = 0;
        while i < layout.children.len()
            invariant
                i <= layout.children@.len(),
                bm == boxes_model(layout.children@),
                bm.len() == layout.children@.len(),
                forall|j: int| 0 <= j < bm.len() ==> bm[j] == crate::layout::box_model(
                    #[trigger] layout.children@[j],
                ),
                img.wf(),
                img.width as nat == w,
                img.height as nat == h,
                sp_paint_box(layout@, old(img).pixels@, w, h) == sp_paint_boxes(
                    bm.skip(i as int),
                    img.pixels@,
                    w,
                    h,
                ),
            decreases layout.children@.len() - i,
        {
            proof {
                assert(bm.skip(i as int)[0] == bm[i as int]);
                assert(bm.skip(i as int).subrange(1, bm.skip(i as int).len() as int) =~= bm.skip(
                    i as int + 1,
                ));
            }
            Self::paint_tree(&layout.children[i], img);
            i = i + 1;
        }
        proof {
            assert(bm.skip(bm.len() as int) =~= Seq::<BoxModel>::empty());
        }
    }

    /// Render a document: lay it out for the given size, fill the
    /// buffer opaque white, and paint the layout tree over it. The
    /// buffer always holds exactly `width * height * 4` bytes.
    pub fn render(doc: &Document, width: u32, height: u32) -> (r: RenderOutput)
        requires
            (width as nat) * (height as nat) * 4 <= usize::MAX,
        ensures
            r.width == width,
            r.height == height,
            r.pixels@.len() == (width as nat) * (height as nat) * 4,
            r.pixels@ == sp_render(doc@, width as nat, height as nat),
    {
        let tree = LayoutEngine::layout(doc, width as u64, height as u64);
        let mut img = SimpleImage::new(width, height);
        img.fill(255, 255, 255, 255);
        Self::paint_tree(&tree.root, &mut img);
        proof {
            lemma_paint_box_len(
                tree.root@,
                sp_fill(sp_blank(width as nat * height as nat * 4), 255, 255, 255, 255),
                width as nat,
                height as nat,
            );
        }
        let pixels = img.into_raw();
        RenderOutput { pixels, width, height }
    }
}

/// The padding that brings a row of 3-byte pixels to a 4-byte boundary.
pub open spec fn sp_row_pad(w: nat) -> nat {
    (((4 - (3 * w) % 4) % 4)) as nat
}

/// The size of the pixel-data section: padded rows times height.
pub open spec fn sp_data_size(w: nat, h: nat) -> nat {
    (3 * w + sp_row_pad(w)) * h
}

/// A 32-bit value as four little-endian bytes.
pub open spec fn sp_le4(v: nat) -> Seq<u8> {
    seq![
        (v % 256) as u8,
        ((v / 256) % 256) as u8,
        ((v / 65536) % 256) as u8,
        ((v / 16777216) % 256) as u8,
    ]
}

/// The 14-byte file header and the 40-byte info header of a 24-bit
/// uncompressed bitmap: magic, file size, pixel-data offset 54, header
/// size 40, width, height, one plane, 24 bits per pixel, no
/// compression, data size, and four zeroed trailing fields.
pub open spec fn sp_bmp_header(w: nat, h: nat) -> Seq<u8> {
    seq![66u8, 77u8] + sp_le4(54 + sp_data_size(w, h)) + seq![0u8, 0u8, 0u8, 0u8, 54u8, 0u8, 0u8, 0u8]
        + seq![40u8, 0u8, 0u8, 0u8] + sp_le4(w) + sp_le4(h) + seq![1u8, 0u8, 24u8, 0u8]
        + seq![0u8, 0u8, 0u8, 0u8] + sp_le4(sp_data_size(w, h)) + seq![
        0u8, 0u8, 0u8, 0u8, 0u8, 0u8, 0u8, 0u8, 0u8, 0u8, 0u8, 0u8, 0u8, 0u8, 0u8, 0u8,
    ]
}

/// One stored row: for each column the pixel's blue, green and red
/// bytes (alpha dropped), then the padding zeros.
pub open spec fn sp_bmp_row(w: nat, p: Seq<u8>, row: nat) -> Seq<u8> {
    Seq::new(
        3 * w + sp_row_pad(w),
        |k: int|
            if k < 3 * w {
                let col = k / 3;
                let idx = (row * w + col) * 4;
                if k % 3 == 0 {
                    p[idx + 2]
                } else if k % 3 == 1 {
                    p[idx + 1]
                } else {
                    p[idx]
                }
            } else {
                0u8
            },
    )
}

/// The stored rows from row `top - 1` down to row 0 (bottom-up order).
pub open spec fn sp_bmp_rows(w: nat, p: Seq<u8>, top: nat) -> Seq<u8>
    decreases top,
{
    if top == 0 {
        Seq::empty()
    } else {
        sp_bmp_row(w, p, (top - 1) as nat) + sp_bmp_rows(w, p, (top - 1) as nat)
    }
}

/// The whole bitmap file: both headers, then the rows bottom-up.
pub open spec fn sp_bmp(w: nat, h: nat, p: Seq<u8>) -> Seq<u8> {
    sp_bmp_header(w, h) + sp_bmp_rows(w, p, h)
}

pub proof fn lemma_bmp_rows_len(w: nat, p: Seq<u8>, top: nat)
    ensures
        sp_bmp_rows(w, p, top).len() == (3 * w + sp_row_pad(w)) * top,
    decreases top,
{
    if top > 0 {
        lemma_bmp_rows_len(w, p, (top - 1) as nat);
        assert((3 * w + sp_row_pad(w)) * top == (3 * w + sp_row_pad(w)) * (top - 1) + (3 * w
            + sp_row_pad(w))) by (nonlinear_arith);
    } else {
        assert((3 * w + sp_row_pad(w)) * top == 0) by (nonlinear_arith)
            requires
                top == 0,
        ;
    }
}

/// Append a 32-bit value as four little-endian bytes.
fn push_le4(out: &mut Vec<u8>, v: u32)
    ensures
        final(out)@ == old(out)@ + sp_le4(v as nat),
{
    out.push((v % 256) as u8);
    out.push(((v / 256) % 256) as u8);
    out.push(((v / 65536) % 256) as u8);
    out.push(((v / 16777216) % 256) as u8);
    assert(out@ =~= old(out)@ + sp_le4(v as nat));
}

impl RenderOutput {
    /// Encode the buffer as a 24-bit uncompressed bitmap file: 14-byte
    /// file header, 40-byte info header with the exact width and
    /// height, rows stored bottom-up, each padded to a 4-byte boundary,
    /// alpha dropped. The two size bounds are format limits: header
    /// fields are 32-bit.
    #[verifier::rlimit(100)]
    pub fn encode_bmp(&self) -> (r: Vec<u8>)
        requires
            self.pixels@.len() == (self.width as nat) * (self.height as nat) * 4,
            3 * (self.width as nat) + 3 <= u32::MAX,
            54 + sp_data_size(self.width as nat, self.height as nat) <= u32::MAX,
        ensures
            r@ == sp_bmp(self.width as nat, self.height as nat, self.pixels@),
            r@.len() == 54 + sp_data_size(self.width as nat, self.height as nat),
    {
        let w = self.width;
        let h = self.height;
        let ghost wn = w as nat;
        let ghost hn = h as nat;
        let ghost pv = self.pixels@;
        let pad: u32 = (4 - (w * 3) % 4) % 4;
        assert(pad as nat == sp_row_pad(wn));
        proof {
            assert(((3 * wn + sp_row_pad(wn)) as int) * (hn as int) == sp_data_size(wn, hn));
        }
        let row_bytes: u32 = w * 3 + pad;
        let data_size: u32 = {
            proof {
                assert((row_bytes as nat) * hn <= u32::MAX) by (nonlinear_arith)
                    requires
                        row_bytes as nat == 3 * wn + sp_row_pad(wn),
                        54 + sp_data_size(wn, hn) <= u32::MAX,
                        sp_data_size(wn, hn) == (3 * wn + sp_row_pad(wn)) * hn,
                ;
            }
            row_bytes * h
        };
        assert(data_size as nat == sp_data_size(wn, hn));
        let file_size: u32 = 54 + data_size;
        let mut out: Vec<u8> = Vec::new();
        out.push(66);
        out.push(77);
        push_le4(&mut out, file_size);
        out.push(0);
        out.push(0);
        out.push(0);
        out.push(0);
        out.push(54);
        out.push(0);
        out.push(0);
        out.push(0);
        out.push(40);
        out.push(0);
        out.push(0);
        out.push(0);
        push_le4(&mut out, w);
        push_le4(&mut out, h);
        out.push(1);
        out.push(0);
        out.push(24);
        out.push(0);
        out.push(0);
        out.push(0);
        out.push(0);
        out.push(0);
        push_le4(&mut out, data_size);
        out.push(0);
        out.push(0);
        out.push(0);
        out.push(0);
        out.push(0);
        out.push(0);
        out.push(0);
        out.push(0);
        out.push(0);
        out.push(0);
        out.push(0);
        out.push(0);
        out.push(0);
        out.push(0);
        out.push(0);
        out.push(0);
        assert(out@ =~= sp_bmp_header(wn, hn));
        let mut rem: u32 = h;
        while rem > 0
            invariant
                rem <= h,
                w == self.width,
                h == self.height,
                wn == w as nat,
                hn == h as nat,
                pv == self.pixels@,
                pv.len() == wn * hn * 4,
                pad as nat == sp_row_pad(wn),
                out@ + sp_bmp_rows(wn, pv, rem as nat) == sp_bmp_header(wn, hn) + sp_bmp_rows(
                    wn,
                    pv,
                    hn,
                ),
            decreases rem,
        {
            let row: u32 = rem - 1;
            let ghost out0 = out@;
            proof {
                assert(out@.subrange(0, out0.len() as int) =~= out0);
            }
            let mut col: u32 = 0;
            while col < w
                invariant
                    col <= w,
                    row < h,
                    w == self.width,
                    h == self.height,
                    wn == w as nat,
                    pv == self.pixels@,
                    pv.len() == wn * (h as nat) * 4,
                    out@.len() == out0.len() + 3 * col,
                    out@.subrange(0, out0.len() as int) == out0,
                    forall|k: int| 0 <= k < 3 * col ==> out@[out0.len() + k] == sp_bmp_row(
                        wn,
                        pv,
                        row as nat,
                    )[k],
                decreases w - col,
            {
                proof {
                    assert(((row as nat) * wn + (col as nat)) * 4 + 3 < wn * (h as nat) * 4)
                        by (nonlinear_arith)
                        requires
                            col < w,
                            row < h,
                            wn == w as nat,
                    ;
                }
                let n = self.pixels.len();
                let i: usize = (((row as usize) * (w as usize)) + (col as usize)) * 4;
                assert(i + 3 < n);
                let pr = self.pixels[i];
                let pg = self.pixels[i + 1];
                let pb = self.pixels[i + 2];
                out.push(pb);
                out.push(pg);
                out.push(pr);
                proof {
                    assert(out@.subrange(0, out0.len() as int) =~= out0);
                    assert forall|k: int| 0 <= k < 3 * (col + 1) implies out@[out0.len() + k]
                        == sp_bmp_row(wn, pv, row as nat)[k] by {
                        if k >= 3 * col {
                            assert(k / 3 == col as int && (k == 3 * col ==> k % 3 == 0) && (k == 3
                                * col + 1 ==> k % 3 == 1) && (k == 3 * col + 2 ==> k % 3 == 2))
                                by (nonlinear_arith)
                                requires
                                    3 * col <= k < 3 * (col + 1),
                            ;
                        }
                    }
                }
                col = col + 1;
            }
            let mut pz: u32 = 0;
            while pz < pad
                invariant
                    pz <= pad,
                    pad as nat == sp_row_pad(wn),
                    wn == w as nat,
                    pv == self.pixels@,
                    out@.len() == out0.len() + 3 * (w as nat) + pz,
                    out@.subrange(0, out0.len() as int) == out0,
                    forall|k: int| 0 <= k < 3 * (w as nat) + pz ==> out@[out0.len() + k]
                        == sp_bmp_row(wn, pv, row as nat)[k],
                decreases pad - pz,
            {
                out.push(0);
                pz = pz + 1;
                proof {
                    assert(out@.subrange(0, out0.len() as int) =~= out0);
                }
            }
            proof {
                assert(out@ =~= out0 + sp_bmp_row(wn, pv, row as nat));
                assert(sp_bmp_rows(wn, pv, rem as nat) =~= sp_bmp_row(wn, pv, row as nat)
                    + sp_bmp_rows(wn, pv, row as nat));
                assert(out@ + sp_bmp_rows(wn, pv, row as nat) =~= (out0 + sp_bmp_rows(
                    wn,
                    pv,
                    rem as nat,
                )));
            }
            rem = rem - 1;
        }
        proof {
            assert(sp_bmp_rows(wn, pv, 0) =~= Seq::<u8>::empty());
            assert(out@ =~= out@ + Seq::<u8>::empty());
            assert(out@ =~= sp_bmp(wn, hn, pv));
            lemma_bmp_rows_len(wn, pv, hn);
        }
        out
    }
}

} // verus!
