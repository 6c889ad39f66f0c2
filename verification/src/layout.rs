//! The layout engine: a single recursive, depth-first, top-down pass
//! that mirrors the document tree into a tree of boxes. Pure vertical
//! block flow: every child is a full-width block stacked below the
//! previous sibling; an element child's height comes from a fixed
//! per-tag table, a text child's height is the fixed text height.
//! Geometry is measured in integer layout units and saturates at
//! `u64::MAX` instead of overflowing.
use vstd::prelude::*;

verus! {

use crate::dom::{DocModel, Document, ElemModel, Element, Node, NodeModel, nodes_model,
    lemma_nodes_model};
use crate::text::str_eq;

broadcast use vstd::seq::axiom_seq_index_decreases, vstd::std_specs::vec::axiom_vec_decreases_to_view;

/// The geometry-annotated mirror of a document tree.
#[derive(Debug, PartialEq)]
pub struct LayoutTree {
    pub root: LayoutBox,
}

/// One box of the layout tree. It carries text exactly when it mirrors
/// a text node, and an element exactly when it mirrors an element.
#[derive(Debug, PartialEq)]
pub struct LayoutBox {
    pub element: Option<Element>,
    pub width: u64,
    pub height: u64,
    pub x: u64,
    pub y: u64,
    pub children: Vec<LayoutBox>,
    pub text: Option<String>,
}

pub struct LayoutEngine;

/// Model of a `LayoutBox`.
#[verifier::ext_equal]
pub struct BoxModel {
    pub element: Option<ElemModel>,
    pub width: nat,
    pub height: nat,
    pub x: nat,
    pub y: nat,
    pub children: Seq<BoxModel>,
    pub text: Option<Seq<char>>,
}

/// Model of a `LayoutTree`.
#[verifier::ext_equal]
pub struct TreeModel {
    pub root: BoxModel,
}

/// Models of a sequence of boxes, in order.
pub open spec fn boxes_model(s: Seq<LayoutBox>) -> Seq<BoxModel>
    decreases s,
{
    if s.len() == 0 {
        Seq::empty()
    } else {
        boxes_model(s.subrange(0, s.len() - 1)).push(box_model(s[s.len() - 1]))
    }
}

pub open spec fn box_model(b: LayoutBox) -> BoxModel
    decreases b,
{
    BoxModel {
        element: match b.element {
            Some(e) => Some(e@),
            None => None,
        },
        width: b.width as nat,
        height: b.height as nat,
        x: b.x as nat,
        y: b.y as nat,
        children: boxes_model(b.children@),
        text: b.text.deep_view(),
    }
}

/// The model of a box sequence is the pointwise model.
pub proof fn lemma_boxes_model(s: Seq<LayoutBox>)
    ensures
        boxes_model(s).len() == s.len(),
        forall|i: int| 0 <= i < s.len() ==> boxes_model(s)[i] == box_model(#[trigger] s[i]),
    decreases s.len(),
{
    if s.len() > 0 {
        let sub = s.subrange(0, s.len() - 1);
        lemma_boxes_model(sub);
        assert forall|i: int| 0 <= i < s.len() implies boxes_model(s)[i] == box_model(
            #[trigger] s[i],
        ) by {
            if i < s.len() - 1 {
                assert(sub[i] == s[i]);
                assert(boxes_model(s)[i] == boxes_model(sub)[i]);
            }
        }
    }
}

impl View for LayoutBox {
    type V = BoxModel;

    open spec fn view(&self) -> BoxModel {
        box_model(*self)
    }
}

impl View for LayoutTree {
    type V = TreeModel;

    open spec fn view(&self) -> TreeModel {
        TreeModel { root: self.root@ }
    }
}

/// Addition in layout units: it saturates at `u64::MAX` instead of
/// overflowing.
pub open spec fn sat_add(a: nat, b: nat) -> nat {
    if a + b > u64::MAX {
        u64::MAX as nat
    } else {
        a + b
    }
}

/// The fixed per-tag height table.
pub open spec fn sp_estimate_height(tag: Seq<char>) -> nat {
    if tag == "h1"@ {
        32
    } else if tag == "h2"@ {
        28
    } else if tag == "h3"@ {
        24
    } else if tag == "p"@ || tag == "div"@ {
        20
    } else if tag == "br"@ {
        8
    } else {
        20
    }
}

/// The height of a text box.
pub open spec fn text_height() -> nat {
    20
}

/// The box of one child node placed at `(x, y)`, and the height by
/// which the vertical cursor advances: the fixed table height for an
/// element (overriding whatever its own pass computed), the fixed text
/// height for a text run.
pub open spec fn sp_build_node(n: NodeModel, x: nat, y: nat, max_width: nat) -> (BoxModel, nat)
    decreases n,
{
    match n {
        NodeModel::Element(ce) => {
            let cb = sp_build_box(ce, x, y, max_width, 0);
            let h = sp_estimate_height(ce.tag);
            (BoxModel { height: h, ..cb }, h)
        },
        NodeModel::Text(t) => {
            (
                BoxModel {
                    element: None,
                    width: max_width,
                    height: text_height(),
                    x: x,
                    y: y,
                    children: Seq::empty(),
                    text: Some(t),
                },
                text_height(),
            )
        },
    }
}

/// The boxes of a child list stacked from `y` downward, and the final
/// vertical cursor.
pub open spec fn sp_build_children(kids: Seq<NodeModel>, x: nat, y: nat, max_width: nat) -> (
    Seq<BoxModel>,
    nat,
)
    decreases kids,
{
    if kids.len() == 0 {
        (Seq::empty(), y)
    } else {
        let (prev, cy) = sp_build_children(kids.subrange(0, kids.len() - 1), x, y, max_width);
        let (bm, h) = sp_build_node(kids[kids.len() - 1], x, cy, max_width);
        (prev.push(bm), sat_add(cy, h))
    }
}

/// The box of one element: full width, children stacked below each
/// other, height the sum of the children's advance heights.
pub open spec fn sp_build_box(e: ElemModel, x: nat, y: nat, max_width: nat, max_height: nat)
    -> BoxModel
    decreases e,
{
    let r = sp_build_children(e.children, x, y, max_width);
    BoxModel {
        element: Some(e),
        width: max_width,
        height: (r.1 - y) as nat,
        x: x,
        y: y,
        children: r.0,
        text: None,
    }
}

/// The layout of a whole document: the root box at the origin with the
/// viewport's width.
pub open spec fn sp_layout(doc: DocModel, viewport_width: nat, viewport_height: nat) -> TreeModel {
    TreeModel { root: sp_build_box(doc.root, 0, 0, viewport_width, viewport_height) }
}

fn sat_add_u64(a: u64, b: u64) -> (r: u64)
    ensures
        r as nat == sat_add(a as nat, b as nat),
{
    if a > u64::MAX - b {
        u64::MAX
    } else {
        a + b
    }
}

impl LayoutEngine {
    /// Lay out a document for the given viewport. Deterministic: the
    /// result is exactly the mathematical layout of the document model.
    pub fn layout(doc: &Document, viewport_width: u64, viewport_height: u64) -> (r: LayoutTree)
        ensures
            r@ == sp_layout(doc@, viewport_width as nat, viewport_height as nat),
    {
        let root_box = Self::build_layout_box(&doc.root, 0, 0, viewport_width, viewport_height);
        LayoutTree { root: root_box }
    }

    fn build_layout_box(element: &Element, x: u64, y: u64, max_width: u64, max_height: u64) -> (r:
        LayoutBox)
        ensures
            r@ == sp_build_box(element@, x as nat, y as nat, max_width as nat, max_height as nat),
        decreases element,
    {
        let ghost kids_m = element@.children;
        let mut children: Vec<LayoutBox> = Vec::new();
        let mut current_y: u64 = y;
        let mut i: usize = 0;
        proof {
            lemma_nodes_model(element.children@);
            assert(kids_m.take(0) =~= Seq::<NodeModel>::empty());
            assert(boxes_model(children@) =~= Seq::<BoxModel>::empty());
        }
        while i < element.children.len()
            invariant
                i <= element.children@.len(),
                kids_m == nodes_model(element.children@),
                kids_m.len() == element.children@.len(),
                forall|j: int| 0 <= j < kids_m.len() ==> kids_m[j] == crate::dom::node_model(
                    #[trigger] element.children@[j],
                ),
                y <= current_y,
                (boxes_model(children@), current_y as nat) == sp_build_children(
                    kids_m.take(i as int),
                    x as nat,
                    y as nat,
                    max_width as nat,
                ),
            decreases element.children@.len() - i,
        {
            proof {
                assert(kids_m.take(i as int + 1).subrange(0, i as int) =~= kids_m.take(i as int));
                assert(kids_m.take(i as int + 1)[i as int] == kids_m[i as int]);
            }
            let ghost old_children = children@;
            let ghost cy0 = current_y as nat;
            match &element.children[i] {
                Node::Element(child) => {
                    let mut child_box = Self::build_layout_box(child, x, current_y, max_width, 0);
                    let h = Self::estimate_height(child);
                    child_box.height = h;
                    proof {
                        assert(element.children@[i as int] == Node::Element(*child));
                        assert(child_box@ =~= sp_build_node(
                            kids_m[i as int],
                            x as nat,
                            cy0,
                            max_width as nat,
                        ).0);
                    }
                    current_y = sat_add_u64(current_y, h);
                    children.push(child_box);
                },
                Node::Text(text) => {
                    let text_box = LayoutBox {
                        element: None,
                        width: max_width,
                        height: 20,
                        x: x,
                        y: current_y,
                        children: Vec::new(),
                        text: Some(text.clone()),
                    };
                    proof {
                        assert(boxes_model(text_box.children@) =~= Seq::<BoxModel>::empty());
                        assert(element.children@[i as int] == Node::Text(*text));
                        assert(text_box@ =~= sp_build_node(
                            kids_m[i as int],
                            x as nat,
                            cy0,
                            max_width as nat,
                        ).0);
                    }
                    current_y = sat_add_u64(current_y, 20);
                    children.push(text_box);
                },
            }
            proof {
                assert(children@.subrange(0, children@.len() - 1) =~= old_children);
                assert(boxes_model(children@) =~= boxes_model(old_children).push(
                    box_model(children@[children@.len() - 1]),
                ));
            }
            i = i + 1;
        }
        proof {
            assert(kids_m.take(kids_m.len() as int) =~= kids_m);
        }
        let r = LayoutBox {
            element: Some(element.clone()),
            width: max_width,
            height: current_y - y,
            x: x,
            y: y,
            children: children,
            text: None,
        };
        assert(r@ =~= sp_build_box(
            element@,
            x as nat,
            y as nat,
            max_width as nat,
            max_height as nat,
        ));
        r
    }

    /// The fixed per-tag height table.
    fn estimate_height(element: &Element) -> (r: u64)
        ensures
            r as nat == sp_estimate_height(element@.tag),
    {
        let t = element.tag.as_str();
        if str_eq(t, "h1") {
            32
        } else if str_eq(t, "h2") {
            28
        } else if str_eq(t, "h3") {
            24
        } else if str_eq(t, "p") || str_eq(t, "div") {
            20
        } else if str_eq(t, "br") {
            8
        } else {
            20
        }
    }
}

impl LayoutBox {
    /// An empty box at the origin.
    pub fn new() -> (r: Self)
        ensures
            r@ == (BoxModel {
                element: None,
                width: 0,
                height: 0,
                x: 0,
                y: 0,
                children: Seq::empty(),
                text: None,
            }),
    {
        let r = LayoutBox {
            element: None,
            width: 0,
            height: 0,
            x: 0,
            y: 0,
            children: Vec::new(),
            text: None,
        };
        assert(r@ =~= (BoxModel {
            element: None,
            width: 0,
            height: 0,
            x: 0,
            y: 0,
            children: Seq::empty(),
            text: None,
        }));
        r
    }
}

/// Layout is idempotent: two layout passes over the same document with
/// the same viewport yield identical layout trees, because each pass
/// equals the mathematical layout of the document model.
pub proof fn lemma_layout_idempotent(
    t1: LayoutTree,
    t2: LayoutTree,
    doc: Document,
    viewport_width: u64,
    viewport_height: u64,
)
    requires
        t1@ == sp_layout(doc@, viewport_width as nat, viewport_height as nat),
        t2@ == sp_layout(doc@, viewport_width as nat, viewport_height as nat),
    ensures
        t1@ == t2@,
{
}

} // verus!
