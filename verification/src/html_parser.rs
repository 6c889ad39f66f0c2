//! The markup parser: a cursor-based tokenizer over an immutable
//! character sequence, building the document tree. The whole grammar is
//! restated as recursive specification functions (`sp_element`,
//! `sp_content`, ...), and every tokenizer method is proved to compute
//! exactly what its specification says.
use vstd::prelude::*;

verus! {

use crate::dom::{
    DocModel, Document, ElemModel, Element, ErrModel, Node, NodeModel, ParseError, PropMap,
};
use crate::text::{
    chars_of, is_space, is_tag_char, is_tag_char_x, is_attr_name_char, is_attr_name_char_x,
    lemma_find_from_bounds, lemma_ws_end_bounds, lower_seq, lower_vec, next_pos, sp_find_from,
    sp_split_ws, sp_trim, sp_token_end, sp_ws_end, split_ws_chars, string_from_chars, trim_chars,
    eq_chars,
};

pub struct HtmlParser;

/// The character at position `p`, if any.
pub open spec fn sp_peek(s: Seq<char>, p: nat) -> Option<char> {
    if p < s.len() {
        Some(s[p as int])
    } else {
        None
    }
}

/// The position right after the run of tag-name characters starting at `i`.
pub open spec fn sp_name_end(s: Seq<char>, i: nat) -> nat
    decreases s.len() - i,
{
    if i < s.len() && is_tag_char(s[i as int]) {
        sp_name_end(s, i + 1)
    } else {
        i
    }
}

/// The position right after the run of attribute-name characters
/// starting at `i`.
pub open spec fn sp_attr_name_end(s: Seq<char>, i: nat) -> nat
    decreases s.len() - i,
{
    if i < s.len() && is_attr_name_char(s[i as int]) {
        sp_attr_name_end(s, i + 1)
    } else {
        i
    }
}

/// The position right after the next `>` at or after `i`, or the end of
/// the input if there is none.
pub open spec fn sp_after_gt(s: Seq<char>, i: nat) -> nat {
    let q = sp_find_from(s, i, '>');
    if q < s.len() {
        q + 1
    } else {
        s.len()
    }
}

pub proof fn lemma_after_gt_bounds(s: Seq<char>, i: nat)
    requires
        i <= s.len(),
    ensures
        i <= sp_after_gt(s, i) <= s.len(),
{
    lemma_find_from_bounds(s, i, '>');
}

/// The position right after the terminating `-->` of a comment whose
/// body starts at `p`, or the end of the input if it never terminates.
pub open spec fn sp_comment_end(s: Seq<char>, p: nat) -> nat
    decreases s.len() - p,
{
    if p < s.len() {
        if p + 3 <= s.len() && s[p as int] == '-' && s[p as int + 1] == '-' && s[p as int + 2]
            == '>' {
            p + 3
        } else {
            sp_comment_end(s, p + 1)
        }
    } else {
        p
    }
}

/// Where the cursor lands after skipping a comment (`!-- ... -->`) or a
/// bang declaration (`! ... >`) whose `!` stands at position `i`.
pub open spec fn sp_skip_comment(s: Seq<char>, i: nat) -> nat {
    if i + 3 <= s.len() && s[i as int] == '!' && s[i as int + 1] == '-' && s[i as int + 2] == '-' {
        sp_comment_end(s, i + 3)
    } else {
        sp_after_gt(s, i)
    }
}

/// The key under which an element's id attribute is stored.
pub open spec fn id_key() -> Seq<char> {
    seq!['i', 'd']
}

/// The key under which an element's class list is stored.
pub open spec fn class_key() -> Seq<char> {
    seq!['c', 'l', 'a', 's', 's']
}

/// The element model assembled at the end of a successful element
/// parse: the id and the whitespace-separated class names are drawn
/// from the attribute mapping.
pub open spec fn mk_elem(
    tag: Seq<char>,
    attrs: Map<Seq<char>, Seq<char>>,
    children: Seq<NodeModel>,
) -> ElemModel {
    ElemModel {
        tag: tag,
        id: if attrs.contains_key(id_key()) {
            Some(attrs[id_key()])
        } else {
            None
        },
        classes: if attrs.contains_key(class_key()) {
            sp_split_ws(attrs[class_key()])
        } else {
            Seq::empty()
        },
        attributes: attrs,
        children: children,
        text_content: None,
    }
}

/// The attribute scan: name/value pairs up to the closing `>` or `/`,
/// names lowercased, a later attribute of the same name overriding an
/// earlier one. Returns the mapping and the final cursor position.
pub open spec fn sp_attrs(s: Seq<char>, i: nat, acc: Map<Seq<char>, Seq<char>>) -> (
    Map<Seq<char>, Seq<char>>,
    nat,
)
    decreases s.len() - i,
{
    let p1 = next_pos(s.len(), i, sp_ws_end(s, i));
    if sp_peek(s, p1) == Some('>') || sp_peek(s, p1) == Some('/') {
        (acc, p1)
    } else {
        let ne = next_pos(s.len(), p1, sp_attr_name_end(s, p1));
        if ne <= p1 {
            (acc, p1)
        } else {
            let name = lower_seq(s.subrange(p1 as int, ne as int));
            let p2 = next_pos(s.len(), ne, sp_ws_end(s, ne));
            if sp_peek(s, p2) == Some('=') {
                let p3 = next_pos(s.len(), p2 + 1, sp_ws_end(s, p2 + 1));
                if sp_peek(s, p3) == Some('"') {
                    let q = next_pos(s.len(), p3 + 1, sp_find_from(s, p3 + 1, '"'));
                    let value = s.subrange(p3 as int + 1, q as int);
                    let p4 = if q < s.len() {
                        q + 1
                    } else {
                        q
                    };
                    sp_attrs(s, p4, acc.insert(name, value))
                } else if sp_peek(s, p3) == Some('\'') {
                    let q = next_pos(s.len(), p3 + 1, sp_find_from(s, p3 + 1, '\''));
                    let value = s.subrange(p3 as int + 1, q as int);
                    let p4 = if q < s.len() {
                        q + 1
                    } else {
                        q
                    };
                    sp_attrs(s, p4, acc.insert(name, value))
                } else {
                    let q = next_pos(s.len(), p3, sp_token_end(s, p3));
                    sp_attrs(s, q, acc.insert(name, s.subrange(p3 as int, q as int)))
                }
            } else {
                sp_attrs(s, p2, acc.insert(name, Seq::empty()))
            }
        }
    }
}

/// The closing-tag scan: nothing to do unless `</` stands at the
/// cursor; then the name must match `tag` (case-folded), and the cursor
/// moves past the closing `>`.
pub open spec fn sp_skip_closing(s: Seq<char>, i: nat, tag: Seq<char>) -> (
    Result<(), ErrModel>,
    nat,
) {
    let p1 = next_pos(s.len(), i, sp_ws_end(s, i));
    if sp_peek(s, p1) != Some('<') {
        (Ok(()), p1)
    } else if sp_peek(s, p1 + 1) != Some('/') {
        (Ok(()), p1)
    } else {
        let ns = p1 + 2;
        let ne = next_pos(s.len(), ns, sp_name_end(s, ns));
        if ne <= ns {
            (Err(ErrModel::EmptyTagName), ne)
        } else {
            let found = lower_seq(s.subrange(ns as int, ne as int));
            if found != tag {
                (Err(ErrModel::MismatchedClosingTag { expected: tag, found: found }), ne)
            } else {
                (Ok(()), sp_after_gt(s, ne))
            }
        }
    }
}

/// The element parser: skips whitespace and leading declarations, reads
/// the tag name and the attributes, then the content up to the matching
/// closing tag. Returns the parsed element (or the fatal error) and the
/// final cursor position.
pub open spec fn sp_element(s: Seq<char>, i: nat) -> (Result<ElemModel, ErrModel>, nat)
    decreases s.len() - i, 0nat,
{
    let p1 = next_pos(s.len(), i, sp_ws_end(s, i));
    if sp_peek(s, p1) != Some('<') {
        (Err(ErrModel::ExpectedTagOpen), p1)
    } else if sp_peek(s, p1 + 1) == Some('/') {
        (Err(ErrModel::UnexpectedClosingTag), p1 + 1)
    } else if sp_peek(s, p1 + 1) == Some('!') {
        sp_element(s, next_pos(s.len(), p1 + 2, sp_skip_comment(s, p1 + 1)))
    } else {
        let ne = next_pos(s.len(), p1 + 1, sp_name_end(s, p1 + 1));
        if ne <= p1 + 1 {
            (Err(ErrModel::EmptyTagName), ne)
        } else {
            let tag = lower_seq(s.subrange(p1 as int + 1, ne as int));
            let (attrs, pa) = sp_attrs(s, ne, Map::empty());
            let pg = next_pos(s.len(), ne + 1, sp_after_gt(s, pa));
            let (cres, pc) = sp_content(s, pg, Seq::empty());
            match cres {
                Err(e) => (Err(e), pc),
                Ok(children) => {
                    let (sres, ps) = sp_skip_closing(s, pc, tag);
                    match sres {
                        Err(e) => (Err(e), ps),
                        Ok(u) => (Ok(mk_elem(tag, attrs, children)), ps),
                    }
                },
            }
        }
    }
}

/// The content scan: interleaved text runs and nested elements,
/// accumulated in document order, ending at `</`, at the end of the
/// input, or with the first fatal error below.
pub open spec fn sp_content(s: Seq<char>, i: nat, acc: Seq<NodeModel>) -> (
    Result<Seq<NodeModel>, ErrModel>,
    nat,
)
    decreases s.len() - i, 1nat,
{
    let p1 = next_pos(s.len(), i, sp_ws_end(s, i));
    if sp_peek(s, p1) is None {
        (Ok(acc), p1)
    } else if sp_peek(s, p1) == Some('<') {
        if sp_peek(s, p1 + 1) == Some('/') {
            (Ok(acc), p1)
        } else if sp_peek(s, p1 + 1) == Some('!') {
            sp_content(s, next_pos(s.len(), p1 + 2, sp_skip_comment(s, p1 + 1)), acc)
        } else {
            let (r, pe) = sp_element(s, p1);
            match r {
                Err(e) => (Err(e), pe),
                Ok(em) => sp_content(
                    s,
                    next_pos(s.len(), p1 + 1, pe),
                    acc.push(NodeModel::Element(em)),
                ),
            }
        }
    } else {
        let te = next_pos(s.len(), p1 + 1, sp_find_from(s, p1, '<'));
        let txt = sp_trim(s.subrange(p1 as int, te as int));
        if txt.len() == 0 {
            sp_content(s, te, acc)
        } else {
            sp_content(s, te, acc.push(NodeModel::Text(txt)))
        }
    }
}

/// The whole document parse: the input is trimmed, exactly one
/// top-level element is read, and it becomes the root of a document
/// with no style rules.
pub open spec fn sp_parse_doc(h: Seq<char>) -> Result<DocModel, ErrModel> {
    match sp_element(sp_trim(h), 0).0 {
        Ok(em) => Ok(DocModel { root: em, styles: Seq::empty() }),
        Err(e) => Err(e),
    }
}

/// Every name in an element model is lowercase: its tag, its attribute
/// names, and the same in every nested element. Attribute values and
/// text runs are carried verbatim and are not constrained.
pub open spec fn names_lower_elem(e: ElemModel) -> bool
    decreases e,
{
    &&& crate::text::is_lower_seq(e.tag)
    &&& (forall|k: Seq<char>| #[trigger] e.attributes.contains_key(k) ==> crate::text::is_lower_seq(k))
    &&& (forall|i: int| 0 <= i < e.children.len() ==> names_lower_node(#[trigger] e.children[i]))
}

pub open spec fn names_lower_node(n: NodeModel) -> bool
    decreases n,
{
    match n {
        NodeModel::Element(e) => names_lower_elem(e),
        NodeModel::Text(t) => true,
    }
}

/// Case folding is idempotent, so a folded sequence is lowercase.
proof fn lemma_lower_seq_lower(s: Seq<char>)
    ensures
        crate::text::is_lower_seq(lower_seq(s)),
{
    assert(lower_seq(lower_seq(s)) =~= lower_seq(s));
}

/// Every key the attribute scan adds is case-folded.
proof fn lemma_attrs_lower(s: Seq<char>, i: nat, acc: Map<Seq<char>, Seq<char>>)
    requires
        forall|k: Seq<char>| #[trigger] acc.contains_key(k) ==> crate::text::is_lower_seq(k),
    ensures
        forall|k: Seq<char>| #[trigger] sp_attrs(s, i, acc).0.contains_key(k)
            ==> crate::text::is_lower_seq(k),
    decreases s.len() - i,
{

    let p1 = next_pos(s.len(), i, sp_ws_end(s, i));
    if sp_peek(s, p1) == Some('>') || sp_peek(s, p1) == Some('/') {
        assert(sp_attrs(s, i, acc).0 == acc);
    } else {
        let ne = next_pos(s.len(), p1, sp_attr_name_end(s, p1));
        if ne <= p1 {
            assert(sp_attrs(s, i, acc).0 == acc);
        } else {
            lemma_lower_seq_lower(s.subrange(p1 as int, ne as int));
            let name = lower_seq(s.subrange(p1 as int, ne as int));
            let p2 = next_pos(s.len(), ne, sp_ws_end(s, ne));
            if sp_peek(s, p2) == Some('=') {
                let p3 = next_pos(s.len(), p2 + 1, sp_ws_end(s, p2 + 1));
                if sp_peek(s, p3) == Some('"') {
                    let q = next_pos(s.len(), p3 + 1, sp_find_from(s, p3 + 1, '"'));
                    let value = s.subrange(p3 as int + 1, q as int);
                    let p4 = if q < s.len() {
                        q + 1
                    } else {
                        q
                    };
                    lemma_attrs_lower(s, p4, acc.insert(name, value));
                    assert(sp_attrs(s, i, acc) == sp_attrs(s, p4, acc.insert(name, value)));
                } else if sp_peek(s, p3) == Some('\'') {
                    let q = next_pos(s.len(), p3 + 1, sp_find_from(s, p3 + 1, '\''));
                    let value = s.subrange(p3 as int + 1, q as int);
                    let p4 = if q < s.len() {
                        q + 1
                    } else {
                        q
                    };
                    lemma_attrs_lower(s, p4, acc.insert(name, value));
                    assert(sp_attrs(s, i, acc) == sp_attrs(s, p4, acc.insert(name, value)));
                } else {
                    let q = next_pos(s.len(), p3, sp_token_end(s, p3));
                    lemma_attrs_lower(s, q, acc.insert(name, s.subrange(p3 as int, q as int)));
                    assert(sp_attrs(s, i, acc) == sp_attrs(s, q, acc.insert(name, s.subrange(p3 as int, q as int))));
                }
            } else {
                lemma_attrs_lower(s, p2, acc.insert(name, Seq::empty()));
                assert(sp_attrs(s, i, acc) == sp_attrs(s, p2, acc.insert(name, Seq::empty())));
            }
        }
    }
}

/// A successfully parsed element has every name lowercase.
proof fn lemma_element_lower(s: Seq<char>, i: nat)
    ensures
        (sp_element(s, i).0 matches Ok(em) ==> names_lower_elem(em)),
    decreases s.len() - i, 0nat,
{
    let p1 = next_pos(s.len(), i, sp_ws_end(s, i));
    if sp_peek(s, p1) != Some('<') {
    } else if sp_peek(s, p1 + 1) == Some('/') {
    } else if sp_peek(s, p1 + 1) == Some('!') {
        lemma_element_lower(s, next_pos(s.len(), p1 + 2, sp_skip_comment(s, p1 + 1)));
    } else {
        let ne = next_pos(s.len(), p1 + 1, sp_name_end(s, p1 + 1));
        if !(ne <= p1 + 1) {
            let tag = lower_seq(s.subrange(p1 as int + 1, ne as int));
            lemma_lower_seq_lower(s.subrange(p1 as int + 1, ne as int));
            let (attrs, pa) = sp_attrs(s, ne, Map::empty());
            lemma_attrs_lower(s, ne, Map::empty());
            let pg = next_pos(s.len(), ne + 1, sp_after_gt(s, pa));
            lemma_content_lower(s, pg, Seq::empty());
        }
    }
}

/// Every node the content scan accumulates keeps all names lowercase.
proof fn lemma_content_lower(s: Seq<char>, i: nat, acc: Seq<NodeModel>)
    requires
        forall|j: int| 0 <= j < acc.len() ==> names_lower_node(#[trigger] acc[j]),
    ensures
        (sp_content(s, i, acc).0 matches Ok(ns) ==> forall|j: int|
            0 <= j < ns.len() ==> names_lower_node(#[trigger] ns[j])),
    decreases s.len() - i, 1nat,
{
    let p1 = next_pos(s.len(), i, sp_ws_end(s, i));
    if sp_peek(s, p1) is None {
    } else if sp_peek(s, p1) == Some('<') {
        if sp_peek(s, p1 + 1) == Some('/') {
        } else if sp_peek(s, p1 + 1) == Some('!') {
            lemma_content_lower(s, next_pos(s.len(), p1 + 2, sp_skip_comment(s, p1 + 1)), acc);
        } else {
            let (r, pe) = sp_element(s, p1);
            match r {
                Err(e) => {},
                Ok(em) => {
                    lemma_element_lower(s, p1);
                    lemma_content_lower(
                        s,
                        next_pos(s.len(), p1 + 1, pe),
                        acc.push(NodeModel::Element(em)),
                    );
                },
            }
        }
    } else {
        let te = next_pos(s.len(), p1 + 1, sp_find_from(s, p1, '<'));
        let txt = sp_trim(s.subrange(p1 as int, te as int));
        if txt.len() == 0 {
            lemma_content_lower(s, te, acc);
        } else {
            lemma_content_lower(s, te, acc.push(NodeModel::Text(txt)));
        }
    }
}

/// Parsing case-normalizes every name: in a successfully parsed
/// document the root's tag, all attribute names, and the same in every
/// nested element are lowercase, while attribute values and text runs
/// are carried verbatim.
pub proof fn lemma_parse_lowercases_names(html: Seq<char>)
    ensures
        (sp_parse_doc(html) matches Ok(d) ==> names_lower_elem(d.root)),
{
    lemma_element_lower(sp_trim(html), 0);
}

/// The tokenizer: an immutable character sequence and one integer
/// cursor, which only ever moves forward except for the single saved
/// position used to tell a nested element from a closing tag.
struct SimpleTokenizer {
    input: Vec<char>,
    pos: usize,
}

impl SimpleTokenizer {
    /// The cursor never leaves the input (one past the last character
    /// is allowed).
    pub closed spec fn wf(&self) -> bool {
        self.pos <= self.input@.len()
    }

    pub closed spec fn sv(&self) -> Seq<char> {
        self.input@
    }

    pub closed spec fn at(&self) -> nat {
        self.pos as nat
    }

    fn new(input: Vec<char>) -> (r: Self)
        ensures
            r.wf(),
            r.sv() == input@,
            r.at() == 0,
    {
        SimpleTokenizer { input, pos: 0 }
    }

    fn peek(&self) -> (r: Option<char>)
        requires
            self.wf(),
        ensures
            r == sp_peek(self.sv(), self.at()),
    {
        if self.pos < self.input.len() {
            Some(self.input[self.pos])
        } else {
            None
        }
    }

    /// Advance the cursor one character; at the end of the input it
    /// stays put, which leaves every observation unchanged.
    fn next(&mut self)
        requires
            old(self).wf(),
        ensures
            final(self).wf(),
            final(self).sv() == old(self).sv(),
            final(self).at() == if old(self).at() < final(self).sv().len() {
                old(self).at() + 1
            } else {
                old(self).at()
            },
    {
        if self.pos < self.input.len() {
            self.pos = self.pos + 1;
        }
    }

    fn skip_whitespace(&mut self)
        requires
            old(self).wf(),
        ensures
            final(self).wf(),
            final(self).sv() == old(self).sv(),
            final(self).at() == sp_ws_end(final(self).sv(), old(self).at()),
            old(self).at() <= final(self).at(),
    {
        proof {
            lemma_ws_end_bounds(self.sv(), old(self).at());
        }
        while self.pos < self.input.len() && is_space(self.input[self.pos])
            invariant
                self.wf(),
                self.sv() == old(self).sv(),
                old(self).at() <= self.at(),
                sp_ws_end(self.sv(), old(self).at()) == sp_ws_end(self.sv(), self.at()),
            decreases self.input@.len() - self.pos,
        {
            self.pos = self.pos + 1;
        }
    }

    /// Collect characters up to (not including) the next `end`.
    fn parse_until(&mut self, end: char) -> (r: Vec<char>)
        requires
            old(self).wf(),
        ensures
            final(self).wf(),
            final(self).sv() == old(self).sv(),
            final(self).at() == sp_find_from(final(self).sv(), old(self).at(), end),
            old(self).at() <= final(self).at(),
            r@ == final(self).sv().subrange(old(self).at() as int, final(self).at() as int),
    {
        let mut out: Vec<char> = Vec::new();
        while self.pos < self.input.len() && self.input[self.pos] != end
            invariant
                self.wf(),
                self.sv() == old(self).sv(),
                old(self).at() <= self.at(),
                sp_find_from(self.sv(), old(self).at(), end) == sp_find_from(
                    self.sv(),
                    self.at(),
                    end,
                ),
                out@ == self.sv().subrange(old(self).at() as int, self.at() as int),
            decreases self.input@.len() - self.pos,
        {
            out.push(self.input[self.pos]);
            self.pos = self.pos + 1;
            assert(out@ =~= self.sv().subrange(old(self).at() as int, self.at() as int));
        }
        out
    }

    /// Collect characters up to (not including) the next whitespace.
    fn parse_until_whitespace(&mut self) -> (r: Vec<char>)
        requires
            old(self).wf(),
        ensures
            final(self).wf(),
            final(self).sv() == old(self).sv(),
            final(self).at() == sp_token_end(final(self).sv(), old(self).at()),
            old(self).at() <= final(self).at(),
            r@ == final(self).sv().subrange(old(self).at() as int, final(self).at() as int),
    {
        let mut out: Vec<char> = Vec::new();
        while self.pos < self.input.len() && !is_space(self.input[self.pos])
            invariant
                self.wf(),
                self.sv() == old(self).sv(),
                old(self).at() <= self.at(),
                sp_token_end(self.sv(), old(self).at()) == sp_token_end(self.sv(), self.at()),
                out@ == self.sv().subrange(old(self).at() as int, self.at() as int),
            decreases self.input@.len() - self.pos,
        {
            out.push(self.input[self.pos]);
            self.pos = self.pos + 1;
            assert(out@ =~= self.sv().subrange(old(self).at() as int, self.at() as int));
        }
        out
    }

    /// One text run: everything up to the next `<`, trimmed.
    fn parse_text(&mut self) -> (r: Vec<char>)
        requires
            old(self).wf(),
        ensures
            final(self).wf(),
            final(self).sv() == old(self).sv(),
            final(self).at() == sp_find_from(final(self).sv(), old(self).at(), '<'),
            old(self).at() <= final(self).at(),
            r@ == sp_trim(final(self).sv().subrange(old(self).at() as int, final(self).at() as int)),
    {
        let raw = self.parse_until('<');
        trim_chars(&raw)
    }

    /// One tag name: tag-name characters, case-folded; empty is a fatal
    /// error.
    fn parse_tag_name(&mut self) -> (r: Result<Vec<char>, ParseError>)
        requires
            old(self).wf(),
        ensures
            final(self).wf(),
            final(self).sv() == old(self).sv(),
            final(self).at() == sp_name_end(final(self).sv(), old(self).at()),
            old(self).at() <= final(self).at(),
            match r {
                Ok(name) => final(self).at() > old(self).at() && name@ == lower_seq(
                    final(self).sv().subrange(old(self).at() as int, final(self).at() as int),
                ),
                Err(e) => final(self).at() == old(self).at() && e@ == ErrModel::EmptyTagName,
            },
    {
        let mut out: Vec<char> = Vec::new();
        while self.pos < self.input.len() && is_tag_char_x(self.input[self.pos])
            invariant
                self.wf(),
                self.sv() == old(self).sv(),
                old(self).at() <= self.at(),
                sp_name_end(self.sv(), old(self).at()) == sp_name_end(self.sv(), self.at()),
                out@ == self.sv().subrange(old(self).at() as int, self.at() as int),
            decreases self.input@.len() - self.pos,
        {
            out.push(self.input[self.pos]);
            self.pos = self.pos + 1;
            assert(out@ =~= self.sv().subrange(old(self).at() as int, self.at() as int));
        }
        if out.len() == 0 {
            Err(ParseError::EmptyTagName)
        } else {
            Ok(lower_vec(&out))
        }
    }

    /// Skip a comment or a bang declaration; the `!` stands at the
    /// cursor.
    fn skip_comment(&mut self)
        requires
            old(self).wf(),
        ensures
            final(self).wf(),
            final(self).sv() == old(self).sv(),
            final(self).at() == sp_skip_comment(final(self).sv(), old(self).at()),
            old(self).at() <= final(self).at(),
            old(self).at() < final(self).sv().len() ==> final(self).at() >= old(self).at() + 1,
    {
        let n = self.input.len();
        if n - self.pos >= 3 && self.input[self.pos] == '!' && self.input[self.pos + 1] == '-'
            && self.input[self.pos + 2] == '-' {
            self.pos = self.pos + 3;
            while self.pos < n
                invariant
                    n == self.input@.len(),
                    self.wf(),
                    self.sv() == old(self).sv(),
                    old(self).at() + 3 <= self.at(),
                    sp_skip_comment(self.sv(), old(self).at()) == sp_comment_end(
                        self.sv(),
                        old(self).at() + 3,
                    ),
                    sp_comment_end(self.sv(), old(self).at() + 3) == sp_comment_end(
                        self.sv(),
                        self.at(),
                    ),
                decreases self.input@.len() - self.pos,
            {
                if n - self.pos >= 3 && self.input[self.pos] == '-' && self.input[self.pos + 1]
                    == '-' && self.input[self.pos + 2] == '>' {
                    self.pos = self.pos + 3;
                    return ;
                }
                self.pos = self.pos + 1;
            }
        } else {
            while self.pos < n && self.input[self.pos] != '>'
                invariant
                    n == self.input@.len(),
                    self.wf(),
                    self.sv() == old(self).sv(),
                    old(self).at() <= self.at(),
                    sp_skip_comment(self.sv(), old(self).at()) == sp_after_gt(
                        self.sv(),
                        old(self).at(),
                    ),
                    sp_find_from(self.sv(), old(self).at(), '>') == sp_find_from(
                        self.sv(),
                        self.at(),
                        '>',
                    ),
                decreases self.input@.len() - self.pos,
            {
                self.pos = self.pos + 1;
            }
            if self.pos < n {
                self.pos = self.pos + 1;
            }
        }
    }

    /// Move the cursor just past the next `>` (or to the end of the
    /// input if there is none): the end of an open tag.
    fn skip_past_gt(&mut self)
        requires
            old(self).wf(),
        ensures
            final(self).wf(),
            final(self).sv() == old(self).sv(),
            final(self).at() == sp_after_gt(final(self).sv(), old(self).at()),
            old(self).at() <= final(self).at(),
    {
        while self.pos < self.input.len() && self.input[self.pos] != '>'
            invariant
                self.wf(),
                self.sv() == old(self).sv(),
                old(self).at() <= self.at(),
                sp_find_from(self.sv(), old(self).at(), '>') == sp_find_from(
                    self.sv(),
                    self.at(),
                    '>',
                ),
            decreases self.input@.len() - self.pos,
        {
            self.pos = self.pos + 1;
        }
        if self.pos < self.input.len() {
            self.pos = self.pos + 1;
        }
    }

    /// The attribute list of an open tag, up to its closing `>` or `/`.
    fn parse_attributes(&mut self) -> (r: PropMap)
        requires
            old(self).wf(),
        ensures
            final(self).wf(),
            final(self).sv() == old(self).sv(),
            (r@, final(self).at()) == sp_attrs(
                final(self).sv(),
                old(self).at(),
                Map::<Seq<char>, Seq<char>>::empty(),
            ),
            old(self).at() <= final(self).at(),
    {
        let ghost s = self.input@;
        let mut attrs = PropMap::new();
        loop
            invariant_except_break
                self.wf(),
                self.sv() == s,
                s == old(self).sv(),
                old(self).at() <= self.at(),
                sp_attrs(s, old(self).at(), Map::<Seq<char>, Seq<char>>::empty()) == sp_attrs(
                    s,
                    self.at(),
                    attrs@,
                ),
            ensures
                self.wf(),
                self.sv() == s,
                s == old(self).sv(),
                old(self).at() <= self.at(),
                (attrs@, self.at()) == sp_attrs(
                    s,
                    old(self).at(),
                    Map::<Seq<char>, Seq<char>>::empty(),
                ),
            decreases s.len() - self.at(),
        {
            let ghost i0 = self.at();
            self.skip_whitespace();
            assert(self.at() == next_pos(s.len(), i0, sp_ws_end(s, i0)));
            let ghost p1 = self.at();
            let stop = match self.peek() {
                Some(ch) => ch == '>' || ch == '/',
                None => false,
            };
            if stop {
                assert(sp_attrs(s, i0, attrs@) == (attrs@, p1));
                break ;
            }
            let mut name: Vec<char> = Vec::new();
            while self.pos < self.input.len() && is_attr_name_char_x(self.input[self.pos])
                invariant
                    self.wf(),
                    self.sv() == s,
                    p1 <= self.at(),
                    sp_attr_name_end(s, p1) == sp_attr_name_end(s, self.at()),
                    name@ == s.subrange(p1 as int, self.at() as int),
                decreases s.len() - self.at(),
            {
                name.push(self.input[self.pos]);
                self.pos = self.pos + 1;
                assert(name@ =~= s.subrange(p1 as int, self.at() as int));
            }
            assert(self.at() == sp_attr_name_end(s, p1));
            assert(next_pos(s.len(), p1, sp_attr_name_end(s, p1)) == self.at());
            if name.len() == 0 {
                assert(sp_attrs(s, i0, attrs@) == (attrs@, p1));
                break ;
            }
            let ghost ne = self.at();
            self.skip_whitespace();
            assert(self.at() == next_pos(s.len(), ne, sp_ws_end(s, ne)));
            let ghost p2 = self.at();
            let has_eq = match self.peek() {
                Some(ch) => ch == '=',
                None => false,
            };
            let value: Vec<char>;
            if has_eq {
                self.next();
                self.skip_whitespace();
                assert(self.at() == next_pos(s.len(), p2 + 1, sp_ws_end(s, p2 + 1)));
                let ghost p3 = self.at();
                let quote: u8 = match self.peek() {
                    Some(ch) => if ch == '"' {
                        1
                    } else if ch == '\'' {
                        2
                    } else {
                        0
                    },
                    None => 0,
                };
                if quote == 1 {
                    self.next();
                    let val = self.parse_until('"');
                    proof {
                        lemma_find_from_bounds(s, p3 + 1, '"');
                        assert(self.at() == next_pos(
                            s.len(),
                            p3 + 1,
                            sp_find_from(s, p3 + 1, '"'),
                        ));
                    }
                    self.next();
                    value = val;
                } else if quote == 2 {
                    self.next();
                    let val = self.parse_until('\'');
                    proof {
                        lemma_find_from_bounds(s, p3 + 1, '\'');
                        assert(self.at() == next_pos(
                            s.len(),
                            p3 + 1,
                            sp_find_from(s, p3 + 1, '\''),
                        ));
                    }
                    self.next();
                    value = val;
                } else {
                    let val = self.parse_until_whitespace();
                    assert(self.at() == next_pos(s.len(), p3, sp_token_end(s, p3)));
                    value = val;
                }
            } else {
                value = Vec::new();
            }
            let lname = lower_vec(&name);
            attrs.insert(string_from_chars(&lname), string_from_chars(&value));
        }
        attrs
    }

    /// The closing tag of the element named `tag`. Missing is tolerated
    /// (implicit close); a different name is a fatal mismatch.
    fn skip_closing_tag(&mut self, tag: &Vec<char>) -> (r: Result<(), ParseError>)
        requires
            old(self).wf(),
        ensures
            final(self).wf(),
            final(self).sv() == old(self).sv(),
            match r {
                Ok(u) => sp_skip_closing(final(self).sv(), old(self).at(), tag@) == (
                    Ok::<(), ErrModel>(()),
                    final(self).at(),
                ) && old(self).at() <= final(self).at(),
                Err(e) => sp_skip_closing(final(self).sv(), old(self).at(), tag@).0 == Err::<
                    (),
                    ErrModel,
                >(e@),
            },
    {
        let ghost s = self.input@;
        let ghost i0 = self.at();
        self.skip_whitespace();
        assert(self.at() == next_pos(s.len(), i0, sp_ws_end(s, i0)));
        let ghost p1 = self.at();
        let is_lt = match self.peek() {
            Some(ch) => ch == '<',
            None => false,
        };
        if !is_lt {
            return Ok(());
        }
        self.next();
        let is_slash = match self.peek() {
            Some(ch) => ch == '/',
            None => false,
        };
        if !is_slash {
            self.pos = self.pos - 1;
            return Ok(());
        }
        self.next();
        assert(self.at() == p1 + 2);
        let end_tag = match self.parse_tag_name() {
            Ok(t) => t,
            Err(e) => {
                assert(next_pos(s.len(), p1 + 2, sp_name_end(s, p1 + 2)) == self.at());
                return Err(e);
            },
        };
        assert(next_pos(s.len(), p1 + 2, sp_name_end(s, p1 + 2)) == self.at());
        if !eq_chars(&end_tag, tag) {
            return Err(
                ParseError::MismatchedClosingTag {
                    expected: string_from_chars(tag),
                    found: string_from_chars(&end_tag),
                },
            );
        }
        self.skip_past_gt();
        Ok(())
    }

    /// One element: tag name, attributes, content, closing tag.
    fn parse_element(&mut self) -> (r: Result<Element, ParseError>)
        requires
            old(self).wf(),
        ensures
            final(self).wf(),
            final(self).sv() == old(self).sv(),
            match r {
                Ok(el) => sp_element(final(self).sv(), old(self).at()) == (
                    Ok::<ElemModel, ErrModel>(el@),
                    final(self).at(),
                ) && old(self).at() < final(self).at(),
                Err(e) => sp_element(final(self).sv(), old(self).at()).0 == Err::<
                    ElemModel,
                    ErrModel,
                >(e@),
            },
        decreases self.input@.len() - self.pos,
    {
        let ghost s = self.input@;
        let ghost p0 = self.at();
        self.skip_whitespace();
        assert(self.at() == next_pos(s.len(), p0, sp_ws_end(s, p0)));
        let ghost p1 = self.at();
        let is_lt = match self.peek() {
            Some(ch) => ch == '<',
            None => false,
        };
        if !is_lt {
            return Err(ParseError::ExpectedTagOpen);
        }
        self.next();
        let c2 = self.peek();
        let is_slash = match c2 {
            Some(ch) => ch == '/',
            None => false,
        };
        if is_slash {
            return Err(ParseError::UnexpectedClosingTag);
        }
        let is_bang = match c2 {
            Some(ch) => ch == '!',
            None => false,
        };
        if is_bang {
            self.skip_comment();
            assert(self.at() == next_pos(s.len(), p1 + 2, sp_skip_comment(s, p1 + 1)));
            let r = self.parse_element();
            return r;
        }
        let tag = match self.parse_tag_name() {
            Ok(t) => t,
            Err(e) => {
                assert(next_pos(s.len(), p1 + 1, sp_name_end(s, p1 + 1)) == self.at());
                return Err(e);
            },
        };
        assert(next_pos(s.len(), p1 + 1, sp_name_end(s, p1 + 1)) == self.at());
        let ghost ne = self.at();
        let ghost tagv = tag@;
        let tag_string = string_from_chars(&tag);
        let mut element = Element::new(tag_string.as_str());
        let attrs_pm = self.parse_attributes();
        let ghost am = attrs_pm@;
        let ghost pa = self.at();
        element.attributes = attrs_pm;
        let id_val = match element.attributes.get("id") {
            Some(v) => Some(v.clone()),
            None => None,
        };
        element.id = id_val;
        proof {
            reveal_strlit("id");
            assert("id"@ =~= id_key());
        }
        let class_val = match element.attributes.get("class") {
            Some(v) => Some(v.clone()),
            None => None,
        };
        proof {
            reveal_strlit("class");
            assert("class"@ =~= class_key());
        }
        match class_val {
            Some(v) => {
                let cv = chars_of(v.as_str());
                let toks = split_ws_chars(&cv);
                let mut classes: Vec<String> = Vec::new();
                let mut ci: usize = 0;
                while ci < toks.len()
                    invariant
                        ci <= toks@.len(),
                        classes@.len() == ci,
                        forall|j: int| 0 <= j < ci ==> #[trigger] classes@[j]@ == toks@[j]@,
                    decreases toks@.len() - ci,
                {
                    classes.push(string_from_chars(&toks[ci]));
                    ci = ci + 1;
                }
                proof {
                    assert(classes.deep_view() =~= crate::text::views_of(toks@));
                }
                element.classes = classes;
            },
            None => {},
        }
        self.skip_past_gt();
        proof {
            lemma_after_gt_bounds(s, pa);
            lemma_find_from_bounds(s, pa, '>');
            assert(self.at() == next_pos(s.len(), ne + 1, sp_after_gt(s, pa)));
        }
        let ghost pg = self.at();
        assert(element@ =~= mk_elem(tagv, am, Seq::<NodeModel>::empty()));
        let ghost base = mk_elem(tagv, am, Seq::<NodeModel>::empty());
        proof {
            let (cres, pc) = sp_content(s, pg, Seq::<NodeModel>::empty());
            assert(sp_element(s, p0) == (match cres {
                Err(e) => (Err::<ElemModel, ErrModel>(e), pc),
                Ok(children) => {
                    let (sres, ps) = sp_skip_closing(s, pc, tagv);
                    match sres {
                        Err(e) => (Err::<ElemModel, ErrModel>(e), ps),
                        Ok(u) => (Ok::<ElemModel, ErrModel>(mk_elem(tagv, am, children)), ps),
                    }
                },
            }));
        }
        loop
            invariant_except_break
                self.wf(),
                self.sv() == s,
                s == old(self).sv(),
                p0 < self.at(),
                p0 == old(self).at(),
                element@ == (ElemModel { children: element@.children, ..base }),
                sp_content(s, pg, Seq::<NodeModel>::empty()) == sp_content(
                    s,
                    self.at(),
                    element@.children,
                ),
                sp_element(s, p0) == (match sp_content(s, pg, Seq::<NodeModel>::empty()).0 {
                    Err(e) => (
                        Err::<ElemModel, ErrModel>(e),
                        sp_content(s, pg, Seq::<NodeModel>::empty()).1,
                    ),
                    Ok(children) => {
                        let (sres, ps) = sp_skip_closing(
                            s,
                            sp_content(s, pg, Seq::<NodeModel>::empty()).1,
                            tagv,
                        );
                        match sres {
                            Err(e) => (Err::<ElemModel, ErrModel>(e), ps),
                            Ok(u) => (Ok::<ElemModel, ErrModel>(mk_elem(tagv, am, children)), ps),
                        }
                    },
                }),
            ensures
                self.wf(),
                self.sv() == s,
                s == old(self).sv(),
                p0 < self.at(),
                element@ == (ElemModel { children: element@.children, ..base }),
                sp_content(s, pg, Seq::<NodeModel>::empty()) == (
                    Ok::<Seq<NodeModel>, ErrModel>(element@.children),
                    self.at(),
                ),
                sp_element(s, p0) == (match sp_content(s, pg, Seq::<NodeModel>::empty()).0 {
                    Err(e) => (
                        Err::<ElemModel, ErrModel>(e),
                        sp_content(s, pg, Seq::<NodeModel>::empty()).1,
                    ),
                    Ok(children) => {
                        let (sres, ps) = sp_skip_closing(
                            s,
                            sp_content(s, pg, Seq::<NodeModel>::empty()).1,
                            tagv,
                        );
                        match sres {
                            Err(e) => (Err::<ElemModel, ErrModel>(e), ps),
                            Ok(u) => (Ok::<ElemModel, ErrModel>(mk_elem(tagv, am, children)), ps),
                        }
                    },
                }),
            decreases s.len() - self.at(),
        {
            let ghost icur = self.at();
            let ghost chil = element@.children;
            self.skip_whitespace();
            assert(self.at() == next_pos(s.len(), icur, sp_ws_end(s, icur)));
            let ghost pt = self.at();
            let cur = self.peek();
            match cur {
                None => {
                    assert(sp_content(s, icur, chil) == (
                        Ok::<Seq<NodeModel>, ErrModel>(chil),
                        pt,
                    ));
                    break ;
                },
                Some(c) => {
                    if c == '<' {
                        let save = self.pos;
                        self.next();
                        let c2b = self.peek();
                        let slash = match c2b {
                            Some(x) => x == '/',
                            None => false,
                        };
                        let bang = match c2b {
                            Some(x) => x == '!',
                            None => false,
                        };
                        if slash {
                            self.pos = save;
                            assert(sp_content(s, icur, chil) == (
                                Ok::<Seq<NodeModel>, ErrModel>(chil),
                                pt,
                            ));
                            break ;
                        } else if bang {
                            self.skip_comment();
                            assert(self.at() == next_pos(
                                s.len(),
                                pt + 2,
                                sp_skip_comment(s, pt + 1),
                            ));
                            assert(sp_content(s, icur, chil) == sp_content(s, self.at(), chil));
                        } else {
                            self.pos = save;
                            let child = match self.parse_element() {
                                Ok(el) => el,
                                Err(e) => {
                                    assert(sp_content(s, icur, chil).0 == Err::<
                                        Seq<NodeModel>,
                                        ErrModel,
                                    >(e@));
                                    return Err(e);
                                },
                            };
                            assert(next_pos(s.len(), pt + 1, sp_element(s, pt).1) == self.at());
                            element.add_child(Node::Element(child));
                            assert(element@.children =~= chil.push(
                                NodeModel::Element(child@),
                            ));
                            assert(sp_content(s, icur, chil) == sp_content(
                                s,
                                self.at(),
                                element@.children,
                            ));
                        }
                    } else {
                        let txt = self.parse_text();
                        proof {
                            lemma_find_from_bounds(s, pt + 1, '<');
                            assert(sp_find_from(s, pt, '<') == sp_find_from(s, pt + 1, '<'));
                            assert(self.at() == next_pos(s.len(), pt + 1, sp_find_from(s, pt, '<')));
                        }
                        if txt.len() > 0 {
                            element.add_child(Node::Text(string_from_chars(&txt)));
                            assert(element@.children =~= chil.push(NodeModel::Text(txt@)));
                        }
                        assert(sp_content(s, icur, chil) == sp_content(
                            s,
                            self.at(),
                            element@.children,
                        ));
                    }
                },
            }
        }
        let res = self.skip_closing_tag(&tag);
        match res {
            Ok(u) => {
                assert(element@ =~= mk_elem(tagv, am, element@.children));
                Ok(element)
            },
            Err(e) => Err(e),
        }
    }
}

impl HtmlParser {
    /// Parse a markup string into a document: exactly one top-level
    /// element, declarations and comments before it skipped. Returns
    /// `Ok` exactly when the specification parser accepts the input,
    /// and the error the specification gives otherwise.
    pub fn parse(html: &str) -> (r: Result<Document, ParseError>)
        ensures
            match r {
                Ok(d) => sp_parse_doc(html@) == Ok::<DocModel, ErrModel>(d@),
                Err(e) => sp_parse_doc(html@) == Err::<DocModel, ErrModel>(e@),
            },
    {
        let chars = chars_of(html);
        let trimmed = trim_chars(&chars);
        let mut parser = SimpleTokenizer::new(trimmed);
        let root = match parser.parse_element() {
            Ok(el) => el,
            Err(e) => {
                return Err(e);
            },
        };
        Ok(Document::new(root))
    }
}

} // verus!
