//! The style-sheet parser: a single forward scan that collects
//! selector/declaration-block pairs, and the specificity computation
//! over simple selectors.
use vstd::prelude::*;

verus! {

use crate::dom::{ParseError, PropMap, RuleModel, StyleRule, rules_model};
use crate::text::{
    chars_of, find_from, lower_seq, lower_vec, next_pos, sp_find_from, sp_split_ws, sp_trim,
    split_ws_chars, string_from_chars, subvec, trim_chars, lemma_split_ws_count,
};

pub struct CssParser;

/// A bare property value. Kept for callers that want a typed wrapper
/// around a declaration's value string.
#[derive(Debug, Clone, PartialEq, Eq)]
pub struct CssValue {
    pub value: String,
}

/// The declarations of one rule body: segments split on `;`, each split
/// at its first `:` into a lowercased, trimmed name and a trimmed value;
/// segments without a `:` are dropped; a later declaration for the same
/// name wins. `i` is the start of the current segment, `acc` what was
/// gathered so far.
pub open spec fn sp_props_loop(s: Seq<char>, i: nat, acc: Map<Seq<char>, Seq<char>>) -> Map<
    Seq<char>,
    Seq<char>,
>
    decreases s.len() + 1 - i,
{
    if i > s.len() {
        acc
    } else {
        let j = next_pos(s.len(), i, sp_find_from(s, i, ';'));
        let seg = sp_trim(s.subrange(i as int, j as int));
        let cp = sp_find_from(seg, 0, ':');
        let acc2 = if seg.len() == 0 || cp >= seg.len() {
            acc
        } else {
            acc.insert(
                lower_seq(sp_trim(seg.subrange(0, cp as int))),
                sp_trim(seg.subrange(cp as int + 1, seg.len() as int)),
            )
        };
        if j >= s.len() {
            acc2
        } else {
            sp_props_loop(s, j + 1, acc2)
        }
    }
}

/// The mapping described by one rule body.
pub open spec fn sp_parse_props(s: Seq<char>) -> Map<Seq<char>, Seq<char>> {
    sp_props_loop(s, 0, Map::empty())
}

/// One step of the style scan: `{` opens a body and trims the selector
/// gathered so far, `}` closes it and emits a rule, every other
/// character is appended to the selector or to the body.
pub open spec fn sp_styles_loop(
    s: Seq<char>,
    i: nat,
    in_rule: bool,
    sel: Seq<char>,
    props: Seq<char>,
    acc: Seq<RuleModel>,
) -> Seq<RuleModel>
    decreases s.len() - i,
{
    if i >= s.len() {
        acc
    } else {
        let c = s[i as int];
        if c == '{' {
            sp_styles_loop(s, i + 1, true, sp_trim(sel), props, acc)
        } else if c == '}' {
            sp_styles_loop(
                s,
                i + 1,
                false,
                Seq::empty(),
                Seq::empty(),
                acc.push(RuleModel { selector: sel, properties: sp_parse_props(props) }),
            )
        } else if in_rule {
            sp_styles_loop(s, i + 1, in_rule, sel, props.push(c), acc)
        } else {
            sp_styles_loop(s, i + 1, in_rule, sel.push(c), props, acc)
        }
    }
}

/// The rules described by a whole style sheet, in source order. A rule
/// opened but never closed contributes nothing.
pub open spec fn sp_parse_styles(s: Seq<char>) -> Seq<RuleModel> {
    sp_styles_loop(s, 0, false, Seq::empty(), Seq::empty(), Seq::empty())
}

/// The specificity counts of a token list: tokens starting with `#`
/// count as id, with `.` as class, all other non-empty tokens as
/// element names.
pub open spec fn sp_spec_counts(toks: Seq<Seq<char>>) -> (int, int, int)
    decreases toks.len(),
{
    if toks.len() == 0 {
        (0int, 0int, 0int)
    } else {
        let prev = sp_spec_counts(toks.drop_last());
        let t = toks.last();
        if t.len() > 0 && t[0] == '#' {
            (prev.0 + 1, prev.1, prev.2)
        } else if t.len() > 0 && t[0] == '.' {
            (prev.0, prev.1 + 1, prev.2)
        } else if t.len() > 0 {
            (prev.0, prev.1, prev.2 + 1)
        } else {
            prev
        }
    }
}

/// The specificity triple of a selector: its whitespace-separated
/// tokens, classified by their first character.
pub open spec fn sp_specificity(sel: Seq<char>) -> (int, int, int) {
    sp_spec_counts(sp_split_ws(sel))
}

impl CssParser {
    /// Parse a style sheet into its rules. The scan never fails; the
    /// `Result` is kept for symmetry with the markup parser.
    pub fn parse_styles(css: &str) -> (r: Result<Vec<StyleRule>, ParseError>)
        ensures
            r is Ok,
            rules_model((r->Ok_0)@) == sp_parse_styles(css@),
    {
        let s = chars_of(css);
        let mut rules: Vec<StyleRule> = Vec::new();
        let mut in_rule = false;
        let mut sel: Vec<char> = Vec::new();
        let mut props: Vec<char> = Vec::new();
        let mut i: usize = 0;
        proof {
            assert(rules_model(rules@) =~= Seq::<RuleModel>::empty());
        }
        while i < s.len()
            invariant
                i <= s@.len(),
                s@ == css@,
                sp_parse_styles(css@) == sp_styles_loop(
                    s@,
                    i as nat,
                    in_rule,
                    sel@,
                    props@,
                    rules_model(rules@),
                ),
            decreases s@.len() - i,
        {
            let c = s[i];
            if c == '{' {
                in_rule = true;
                sel = trim_chars(&sel);
            } else if c == '}' {
                in_rule = false;
                let pm = Self::parse_properties(&props);
                let rule = StyleRule { selector: string_from_chars(&sel), properties: pm };
                let ghost old_rules = rules@;
                rules.push(rule);
                proof {
                    assert(rules_model(rules@) =~= rules_model(old_rules).push(
                        RuleModel { selector: sel@, properties: sp_parse_props(props@) },
                    ));
                }
                sel = Vec::new();
                props = Vec::new();
            } else {
                if in_rule {
                    props.push(c);
                } else {
                    sel.push(c);
                }
            }
            i = i + 1;
        }
        Ok(rules)
    }

    /// Split one rule body into its declarations.
    fn parse_properties(props: &Vec<char>) -> (r: PropMap)
        ensures
            r@ == sp_parse_props(props@),
    {
        let mut pm = PropMap::new();
        let mut i: usize = 0;
        loop
            invariant_except_break
                i <= props@.len(),
                sp_parse_props(props@) == sp_props_loop(props@, i as nat, pm@),
            ensures
                pm@ == sp_parse_props(props@),
            decreases props@.len() - i,
        {
            let j = find_from(props, i, ';');
            assert(next_pos(props@.len(), i as nat, j as nat) == j as nat);
            let seg_raw = subvec(props, i, j);
            let seg = trim_chars(&seg_raw);
            if seg.len() > 0 {
                let cp = find_from(&seg, 0, ':');
                if cp < seg.len() {
                    let name_raw = subvec(&seg, 0, cp);
                    let name_trimmed = trim_chars(&name_raw);
                    let name = lower_vec(&name_trimmed);
                    let val_raw = subvec(&seg, cp + 1, seg.len());
                    let val = trim_chars(&val_raw);
                    assert(seg@.subrange(0, cp as int) == seg@.take(cp as int));
                    pm.insert(string_from_chars(&name), string_from_chars(&val));
                }
            }
            if j >= props.len() {
                break ;
            }
            i = j + 1;
        }
        pm
    }

    /// The specificity triple of a selector: ids, classes, element
    /// names, counted over whitespace-separated simple tokens.
    pub fn compute_specificity(selector: &str) -> (r: (u32, u32, u32))
        requires
            selector@.len() <= u32::MAX,
        ensures
            (r.0 as int, r.1 as int, r.2 as int) == sp_specificity(selector@),
    {
        let s = chars_of(selector);
        let toks = split_ws_chars(&s);
        proof {
            lemma_split_ws_count(s@, 0);
        }
        let ghost tv = sp_split_ws(selector@);
        let mut a: u32 = 0;
        let mut b: u32 = 0;
        let mut c: u32 = 0;
        let mut i: usize = 0;
        proof {
            assert(tv.take(0) =~= Seq::<Seq<char>>::empty());
        }
        while i < toks.len()
            invariant
                i <= toks@.len(),
                crate::text::views_of(toks@) == tv,
                tv.len() <= u32::MAX,
                a <= i && b <= i && c <= i,
                i <= tv.len(),
                (a as int, b as int, c as int) == sp_spec_counts(tv.take(i as int)),
            decreases toks@.len() - i,
        {
            proof {
                assert(tv.take(i as int + 1).drop_last() =~= tv.take(i as int));
                assert(tv.take(i as int + 1).last() == toks@[i as int]@);
            }
            let t = &toks[i];
            if t.len() > 0 && t[0] == '#' {
                a = a + 1;
            } else if t.len() > 0 && t[0] == '.' {
                b = b + 1;
            } else if t.len() > 0 {
                c = c + 1;
            }
            i = i + 1;
        }
        assert(tv.take(tv.len() as int) =~= tv);
        (a, b, c)
    }
}

} // verus!
