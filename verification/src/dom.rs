//! The document model shared by the two parsers and consumed by layout:
//! a tree of elements and text runs, plus style rules. Each type has a
//! mathematical model (`ElemModel`, `NodeModel`, ...) used by contracts.
use vstd::prelude::*;

verus! {

use vstd::string::StringExecFns;

broadcast use vstd::seq::axiom_seq_index_decreases, vstd::std_specs::vec::axiom_vec_decreases_to_view;

/// A name/value mapping with last-insertion-wins semantics, used for
/// attributes and for style declarations. Its view is a `Map` from the
/// key's characters to the value's characters; insertion order is
/// irrelevant and keys are unique in the view.
#[derive(Debug, PartialEq, Eq)]
pub struct PropMap {
    entries: Vec<(String, String)>,
}

/// The mapping described by a sequence of entries, later entries
/// overriding earlier ones.
pub open spec fn map_of_entries(es: Seq<(String, String)>) -> Map<Seq<char>, Seq<char>>
    decreases es.len(),
{
    if es.len() == 0 {
        Map::empty()
    } else {
        map_of_entries(es.drop_last()).insert(es.last().0@, es.last().1@)
    }
}

impl View for PropMap {
    type V = Map<Seq<char>, Seq<char>>;

    closed spec fn view(&self) -> Map<Seq<char>, Seq<char>> {
        map_of_entries(self.entries@)
    }
}

/// Entries at positions `i` and beyond never mention key `k`, so the
/// mapping agrees with the one of the first `i` entries at `k`.
proof fn lemma_entries_agree(es: Seq<(String, String)>, i: int, k: Seq<char>)
    requires
        0 <= i <= es.len(),
        forall|j: int| i <= j < es.len() ==> #[trigger] es[j].0@ != k,
    ensures
        map_of_entries(es).contains_key(k) == map_of_entries(es.take(i)).contains_key(k),
        map_of_entries(es).contains_key(k) ==> map_of_entries(es)[k] == map_of_entries(
            es.take(i),
        )[k],
    decreases es.len(),
{
    if i == es.len() {
        assert(es.take(i) =~= es);
    } else {
        assert(es[es.len() - 1].0@ != k);
        lemma_entries_agree(es.drop_last(), i, k);
        assert(es.drop_last().take(i) =~= es.take(i));
    }
}

impl PropMap {
    /// An empty mapping.
    pub fn new() -> (r: PropMap)
        ensures
            r@ == Map::<Seq<char>, Seq<char>>::empty(),
    {
        PropMap { entries: Vec::new() }
    }

    /// Insert a name/value pair; an existing entry for the same name is
    /// overridden.
    pub fn insert(&mut self, name: String, value: String)
        ensures
            final(self)@ == old(self)@.insert(name@, value@),
    {
        let ghost es = self.entries@;
        self.entries.push((name, value));
        proof {
            assert(self.entries@.drop_last() =~= es);
        }
    }

    /// Look up a name; the most recently inserted value wins.
    pub fn get<'a>(&'a self, name: &str) -> (r: Option<&'a String>)
        ensures
            match r {
                Some(v) => self@.contains_key(name@) && v@ == self@[name@],
                None => !self@.contains_key(name@),
            },
    {
        let key = crate::text::chars_of(name);
        let mut i: usize = self.entries.len();
        while i > 0
            invariant
                i <= self.entries@.len(),
                key@ == name@,
                forall|j: int| i <= j < self.entries@.len() ==> #[trigger] self.entries@[j].0@
                    != name@,
            decreases i,
        {
            i = i - 1;
            let cand = crate::text::chars_of(self.entries[i].0.as_str());
            if crate::text::eq_chars(&cand, &key) {
                proof {
                    lemma_entries_agree(self.entries@, i + 1, name@);
                    assert(self.entries@.take(i + 1).drop_last() =~= self.entries@.take(i as int));
                    assert(self.entries@.take(i + 1).last() == self.entries@[i as int]);
                }
                return Some(&self.entries[i].1);
            }
        }
        proof {
            lemma_entries_agree(self.entries@, 0, name@);
            assert(self.entries@.take(0) =~= Seq::<(String, String)>::empty());
        }
        None
    }

    /// Whether the mapping holds no entry at all.
    pub fn is_empty(&self) -> (r: bool)
        ensures
            r == (self@ =~= Map::<Seq<char>, Seq<char>>::empty()),
    {
        if self.entries.len() == 0 {
            true
        } else {
            assert(self@.contains_key(self.entries@.last().0@));
            false
        }
    }
}

impl Clone for PropMap {
    fn clone(&self) -> (r: Self)
        ensures
            r@ == self@,
    {
        let mut es: Vec<(String, String)> = Vec::new();
        let mut i: usize = 0;
        while i < self.entries.len()
            invariant
                i <= self.entries@.len(),
                es@ == self.entries@.take(i as int),
            decreases self.entries@.len() - i,
        {
            es.push((self.entries[i].0.clone(), self.entries[i].1.clone()));
            i = i + 1;
            assert(es@ =~= self.entries@.take(i as int));
        }
        assert(es@ =~= self.entries@);
        PropMap { entries: es }
    }
}

/// One node of the document tree: a nested element or a text run.
#[derive(Debug, PartialEq, Eq)]
pub enum Node {
    Element(Element),
    Text(String),
}

/// One element of the document tree.
#[derive(Debug, PartialEq, Eq)]
pub struct Element {
    pub tag: String,
    pub id: Option<String>,
    pub classes: Vec<String>,
    pub attributes: PropMap,
    pub children: Vec<Node>,
    pub text_content: Option<String>,
}

/// A selector paired with its declarations.
#[derive(Debug, PartialEq, Eq)]
pub struct StyleRule {
    pub selector: String,
    pub properties: PropMap,
}

/// A parsed document: exactly one root element and the style rules
/// attached to it.
#[derive(Debug, PartialEq, Eq)]
pub struct Document {
    pub root: Element,
    pub styles: Vec<StyleRule>,
}

/// Model of a `Node`.
#[verifier::ext_equal]
pub enum NodeModel {
    Element(ElemModel),
    Text(Seq<char>),
}

/// Model of an `Element`.
#[verifier::ext_equal]
pub struct ElemModel {
    pub tag: Seq<char>,
    pub id: Option<Seq<char>>,
    pub classes: Seq<Seq<char>>,
    pub attributes: Map<Seq<char>, Seq<char>>,
    pub children: Seq<NodeModel>,
    pub text_content: Option<Seq<char>>,
}

/// Model of a `StyleRule`.
#[verifier::ext_equal]
pub struct RuleModel {
    pub selector: Seq<char>,
    pub properties: Map<Seq<char>, Seq<char>>,
}

/// Model of a `Document`.
#[verifier::ext_equal]
pub struct DocModel {
    pub root: ElemModel,
    pub styles: Seq<RuleModel>,
}

/// A fatal parse failure; it aborts the whole parse, no partial tree is
/// returned.
#[derive(Debug, PartialEq, Eq, Clone)]
pub enum ParseError {
    /// A `<` was expected at the current position and something else stood there.
    ExpectedTagOpen,
    /// A closing tag stood where an element had to begin.
    UnexpectedClosingTag,
    /// A `<` immediately followed by no tag-name character.
    EmptyTagName,
    /// A closing tag did not match the element it was to close; both
    /// names are carried, already lowercased.
    MismatchedClosingTag { expected: String, found: String },
}

/// Model of a `ParseError`.
#[verifier::ext_equal]
pub enum ErrModel {
    ExpectedTagOpen,
    UnexpectedClosingTag,
    EmptyTagName,
    MismatchedClosingTag { expected: Seq<char>, found: Seq<char> },
}

impl View for ParseError {
    type V = ErrModel;

    open spec fn view(&self) -> ErrModel {
        match self {
            ParseError::ExpectedTagOpen => ErrModel::ExpectedTagOpen,
            ParseError::UnexpectedClosingTag => ErrModel::UnexpectedClosingTag,
            ParseError::EmptyTagName => ErrModel::EmptyTagName,
            ParseError::MismatchedClosingTag { expected, found } => ErrModel::MismatchedClosingTag {
                expected: expected@,
                found: found@,
            },
        }
    }
}

/// Models of a sequence of style rules, in order.
pub open spec fn rules_model(rs: Seq<StyleRule>) -> Seq<RuleModel> {
    rs.map_values(|r: StyleRule| r@)
}

pub open spec fn node_model(n: Node) -> NodeModel
    decreases n,
{
    match n {
        Node::Element(e) => NodeModel::Element(elem_model(e)),
        Node::Text(s) => NodeModel::Text(s@),
    }
}

/// Models of a sequence of nodes, in order.
pub open spec fn nodes_model(s: Seq<Node>) -> Seq<NodeModel>
    decreases s,
{
    if s.len() == 0 {
        Seq::empty()
    } else {
        nodes_model(s.subrange(0, s.len() - 1)).push(node_model(s[s.len() - 1]))
    }
}

pub open spec fn elem_model(e: Element) -> ElemModel
    decreases e,
{
    ElemModel {
        tag: e.tag@,
        id: e.id.deep_view(),
        classes: e.classes.deep_view(),
        attributes: e.attributes@,
        children: nodes_model(e.children@),
        text_content: e.text_content.deep_view(),
    }
}

/// The model of a node sequence is the pointwise model.
pub proof fn lemma_nodes_model(s: Seq<Node>)
    ensures
        nodes_model(s).len() == s.len(),
        forall|i: int| 0 <= i < s.len() ==> nodes_model(s)[i] == node_model(#[trigger] s[i]),
    decreases s.len(),
{
    if s.len() > 0 {
        let sub = s.subrange(0, s.len() - 1);
        lemma_nodes_model(sub);
        assert forall|i: int| 0 <= i < s.len() implies nodes_model(s)[i] == node_model(
            #[trigger] s[i],
        ) by {
            if i < s.len() - 1 {
                assert(sub[i] == s[i]);
                assert(nodes_model(s)[i] == nodes_model(sub)[i]);
            }
        }
    }
}

impl View for Node {
    type V = NodeModel;

    open spec fn view(&self) -> NodeModel {
        node_model(*self)
    }
}

impl View for Element {
    type V = ElemModel;

    open spec fn view(&self) -> ElemModel {
        elem_model(*self)
    }
}

impl View for StyleRule {
    type V = RuleModel;

    open spec fn view(&self) -> RuleModel {
        RuleModel { selector: self.selector@, properties: self.properties@ }
    }
}

impl View for Document {
    type V = DocModel;

    open spec fn view(&self) -> DocModel {
        DocModel {
            root: self.root@,
            styles: Seq::new(self.styles@.len(), |i: int| self.styles@[i]@),
        }
    }
}

impl Element {
    /// A fresh element with the given tag and nothing else.
    pub fn new(tag: &str) -> (r: Self)
        ensures
            r@ == (ElemModel {
                tag: tag@,
                id: None,
                classes: Seq::empty(),
                attributes: Map::empty(),
                children: Seq::empty(),
                text_content: None,
            }),
    {
        let r = Element {
            tag: String::from_str(tag),
            id: None,
            classes: Vec::new(),
            attributes: PropMap::new(),
            children: Vec::new(),
            text_content: None,
        };
        assert(r@ =~= (ElemModel {
            tag: tag@,
            id: None,
            classes: Seq::empty(),
            attributes: Map::empty(),
            children: Seq::empty(),
            text_content: None,
        }));
        r
    }

    /// The same element with its id set.
    pub fn with_id(self, id: &str) -> (r: Self)
        ensures
            r@ == (ElemModel { id: Some(id@), ..self@ }),
    {
        let mut e = self;
        e.id = Some(String::from_str(id));
        assert(e@ =~= (ElemModel { id: Some(id@), ..self@ }));
        e
    }

    /// The same element with one more class name appended.
    pub fn with_class(self, class: &str) -> (r: Self)
        ensures
            r@ == (ElemModel { classes: self@.classes.push(class@), ..self@ }),
    {
        let mut e = self;
        e.classes.push(String::from_str(class));
        assert(e@.classes =~= self@.classes.push(class@));
        assert(e@ =~= (ElemModel { classes: self@.classes.push(class@), ..self@ }));
        e
    }

    /// Append one child node, keeping document order.
    pub fn add_child(&mut self, node: Node)
        ensures
            final(self)@ == (ElemModel { children: old(self)@.children.push(node@), ..old(self)@ }),
    {
        self.children.push(node);
        proof {
            assert(self.children@.subrange(0, self.children@.len() - 1) =~= old(self).children@);
            assert(self@.children =~= old(self)@.children.push(node@));
        }
        assert(self@ =~= (ElemModel { children: old(self)@.children.push(node@), ..old(self)@ }));
    }

    /// Set the element's direct text content.
    pub fn set_text(&mut self, text: &str)
        ensures
            final(self)@ == (ElemModel { text_content: Some(text@), ..old(self)@ }),
    {
        self.text_content = Some(String::from_str(text));
        assert(self@ =~= (ElemModel { text_content: Some(text@), ..old(self)@ }));
    }
}

impl Document {
    /// A document owning the given root and no style rules yet.
    pub fn new(root: Element) -> (r: Self)
        ensures
            r@ == (DocModel { root: root@, styles: Seq::empty() }),
    {
        let d = Document { root, styles: Vec::new() };
        assert(d@ =~= (DocModel { root: d.root@, styles: Seq::empty() }));
        d
    }

    /// Append one style rule, keeping source order.
    pub fn add_style_rule(&mut self, rule: StyleRule)
        ensures
            final(self)@ == (DocModel { styles: old(self)@.styles.push(rule@), ..old(self)@ }),
    {
        self.styles.push(rule);
        assert(self@.styles =~= old(self)@.styles.push(self.styles@.last()@));
        assert(self@ =~= (DocModel { styles: old(self)@.styles.push(self.styles@.last()@), ..old(
            self,
        )@ }));
    }
}

impl Clone for Node {
    fn clone(&self) -> (r: Self)
        ensures
            r@ == self@,
        decreases self,
    {
        match self {
            Node::Element(e) => Node::Element(e.clone()),
            Node::Text(s) => Node::Text(s.clone()),
        }
    }
}

impl Clone for Element {
    fn clone(&self) -> (r: Self)
        ensures
            r@ == self@,
        decreases self,
    {
        let mut kids: Vec<Node> = Vec::new();
        let mut i: usize = 0;
        while i < self.children.len()
            invariant
                i <= self.children@.len(),
                kids@.len() == i,
                forall|j: int| 0 <= j < i ==> #[trigger] kids@[j]@ == self.children@[j]@,
            decreases self.children@.len() - i,
        {
            kids.push(self.children[i].clone());
            i = i + 1;
        }
        let r = Element {
            tag: self.tag.clone(),
            id: match &self.id {
                Some(s) => Some(s.clone()),
                None => None,
            },
            classes: clone_strings(&self.classes),
            attributes: self.attributes.clone(),
            children: kids,
            text_content: match &self.text_content {
                Some(s) => Some(s.clone()),
                None => None,
            },
        };
        proof {
            lemma_nodes_model(r.children@);
            lemma_nodes_model(self.children@);
            assert forall|j: int| 0 <= j < r.children@.len() implies #[trigger] nodes_model(
                r.children@,
            )[j] == nodes_model(self.children@)[j] by {
                assert(r.children@[j]@ == self.children@[j]@);
            }
            assert(nodes_model(r.children@) =~= nodes_model(self.children@));
            assert(r@.children =~= self@.children);
        }
        assert(r@.id =~= self@.id);
        assert(r@.text_content =~= self@.text_content);
        assert(r@ =~= self@);
        r
    }
}

/// Clone a vector of strings, keeping order.
fn clone_strings(v: &Vec<String>) -> (r: Vec<String>)
    ensures
        r.deep_view() == v.deep_view(),
{
    let mut out: Vec<String> = Vec::new();
    let mut i: usize = 0;
    while i < v.len()
        invariant
            i <= v.len(),
            out@.len() == i,
            forall|j: int| 0 <= j < i ==> #[trigger] out@[j]@ == v@[j]@,
        decreases v.len() - i,
    {
        out.push(v[i].clone());
        i = i + 1;
    }
    assert(out.deep_view() =~= v.deep_view());
    out
}

impl Clone for StyleRule {
    fn clone(&self) -> (r: Self)
        ensures
            r@ == self@,
    {
        let r = StyleRule { selector: self.selector.clone(), properties: self.properties.clone() };
        assert(r@ =~= self@);
        r
    }
}

impl Clone for Document {
    fn clone(&self) -> (r: Self)
        ensures
            r@ == self@,
    {
        let mut rules: Vec<StyleRule> = Vec::new();
        let mut i: usize = 0;
        while i < self.styles.len()
            invariant
                i <= self.styles@.len(),
                rules@.len() == i,
                forall|j: int| 0 <= j < i ==> #[trigger] rules@[j]@ == self.styles@[j]@,
            decreases self.styles@.len() - i,
        {
            rules.push(self.styles[i].clone());
            i = i + 1;
        }
        let r = Document { root: self.root.clone(), styles: rules };
        assert(r@.styles =~= self@.styles);
        assert(r@ =~= self@);
        r
    }
}

} // verus!
