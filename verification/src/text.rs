//! Character classes and small text utilities shared by the markup and
//! style parsers: ASCII case folding, whitespace trimming, and splitting
//! on whitespace. All of them operate on character sequences.
use vstd::prelude::*;

verus! {

/// The whitespace characters recognized by the parsers (the ASCII ones).
pub open spec fn is_space_char(c: char) -> bool {
    c == ' ' || c == '\t' || c == '\n' || c == '\r' || c == '\u{000B}' || c == '\u{000C}'
}

pub fn is_space(c: char) -> (r: bool)
    ensures
        r == is_space_char(c),
{
    c == ' ' || c == '\t' || c == '\n' || c == '\r' || c == '\u{000B}' || c == '\u{000C}'
}

/// ASCII letters and digits.
pub open spec fn is_alnum_char(c: char) -> bool {
    (48 <= c as u32 && c as u32 <= 57) || (65 <= c as u32 && c as u32 <= 90) || (97 <= c as u32
        && c as u32 <= 122)
}

pub fn is_alnum(c: char) -> (r: bool)
    ensures
        r == is_alnum_char(c),
{
    let u = c as u32;
    (48 <= u && u <= 57) || (65 <= u && u <= 90) || (97 <= u && u <= 122)
}

/// Characters allowed in a tag name: letters, digits and hyphens.
pub open spec fn is_tag_char(c: char) -> bool {
    is_alnum_char(c) || c == '-'
}

pub fn is_tag_char_x(c: char) -> (r: bool)
    ensures
        r == is_tag_char(c),
{
    is_alnum(c) || c == '-'
}

/// Characters allowed in an attribute name: letters, digits, hyphens
/// and underscores.
pub open spec fn is_attr_name_char(c: char) -> bool {
    is_alnum_char(c) || c == '-' || c == '_'
}

pub fn is_attr_name_char_x(c: char) -> (r: bool)
    ensures
        r == is_attr_name_char(c),
{
    is_alnum(c) || c == '-' || c == '_'
}

/// ASCII case folding of one character: `A`..`Z` map to `a`..`z`,
/// everything else is unchanged.
pub open spec fn lower_char(c: char) -> char {
    if c == 'A' {
        'a'
    } else if c == 'B' {
        'b'
    } else if c == 'C' {
        'c'
    } else if c == 'D' {
        'd'
    } else if c == 'E' {
        'e'
    } else if c == 'F' {
        'f'
    } else if c == 'G' {
        'g'
    } else if c == 'H' {
        'h'
    } else if c == 'I' {
        'i'
    } else if c == 'J' {
        'j'
    } else if c == 'K' {
        'k'
    } else if c == 'L' {
        'l'
    } else if c == 'M' {
        'm'
    } else if c == 'N' {
        'n'
    } else if c == 'O' {
        'o'
    } else if c == 'P' {
        'p'
    } else if c == 'Q' {
        'q'
    } else if c == 'R' {
        'r'
    } else if c == 'S' {
        's'
    } else if c == 'T' {
        't'
    } else if c == 'U' {
        'u'
    } else if c == 'V' {
        'v'
    } else if c == 'W' {
        'w'
    } else if c == 'X' {
        'x'
    } else if c == 'Y' {
        'y'
    } else if c == 'Z' {
        'z'
    } else {
        c
    }
}

pub fn lower_char_x(c: char) -> (r: char)
    ensures
        r == lower_char(c),
{
    match c {
        'A' => 'a',
        'B' => 'b',
        'C' => 'c',
        'D' => 'd',
        'E' => 'e',
        'F' => 'f',
        'G' => 'g',
        'H' => 'h',
        'I' => 'i',
        'J' => 'j',
        'K' => 'k',
        'L' => 'l',
        'M' => 'm',
        'N' => 'n',
        'O' => 'o',
        'P' => 'p',
        'Q' => 'q',
        'R' => 'r',
        'S' => 's',
        'T' => 't',
        'U' => 'u',
        'V' => 'v',
        'W' => 'w',
        'X' => 'x',
        'Y' => 'y',
        'Z' => 'z',
        _ => c,
    }
}

/// ASCII case folding of a whole character sequence.
pub open spec fn lower_seq(s: Seq<char>) -> Seq<char> {
    s.map_values(|c: char| lower_char(c))
}

/// A character sequence is lowercase if case folding leaves it unchanged.
pub open spec fn is_lower_seq(s: Seq<char>) -> bool {
    lower_seq(s) == s
}

pub fn lower_vec(v: &Vec<char>) -> (r: Vec<char>)
    ensures
        r@ == lower_seq(v@),
{
    let mut out: Vec<char> = Vec::new();
    let mut i: usize = 0;
    while i < v.len()
        invariant
            i <= v.len(),
            out@ == lower_seq(v@.take(i as int)),
        decreases v.len() - i,
    {
        out.push(lower_char_x(v[i]));
        i = i + 1;
        assert(v@.take(i as int) =~= v@.take(i as int - 1).push(v@[i as int - 1]));
        assert(out@ =~= lower_seq(v@.take(i as int)));
    }
    assert(v@.take(v@.len() as int) =~= v@);
    out
}

/// The number of leading whitespace characters of `s` from position `i`.
pub open spec fn sp_ws_end(s: Seq<char>, i: nat) -> nat
    decreases s.len() - i,
{
    if i < s.len() && is_space_char(s[i as int]) {
        sp_ws_end(s, i + 1)
    } else {
        i
    }
}

pub proof fn lemma_ws_end_bounds(s: Seq<char>, i: nat)
    requires
        i <= s.len(),
    ensures
        i <= sp_ws_end(s, i) <= s.len(),
    decreases s.len() - i,
{
    if i < s.len() && is_space_char(s[i as int]) {
        lemma_ws_end_bounds(s, i + 1);
    }
}

/// The position right after the longest run of non-whitespace characters
/// starting at `i`.
pub open spec fn sp_token_end(s: Seq<char>, i: nat) -> nat
    decreases s.len() - i,
{
    if i < s.len() && !is_space_char(s[i as int]) {
        sp_token_end(s, i + 1)
    } else {
        i
    }
}

/// `min(len, max(lo, q))`: the next scan position, clamped so that it
/// lies between `lo` and `len`. The clamping makes the termination of
/// the recursive parsing specifications syntactically evident; at every
/// use the unclamped position already lies in range, so the clamp does
/// not change the value.
pub open spec fn next_pos(len: nat, lo: nat, q: nat) -> nat {
    if q < lo {
        if lo < len {
            lo
        } else {
            len
        }
    } else if q < len {
        q
    } else {
        len
    }
}

/// The whitespace-separated tokens of `s`, scanning from position `i`.
pub open spec fn sp_split_ws_at(s: Seq<char>, i: nat) -> Seq<Seq<char>>
    decreases s.len() - i,
{
    let j = next_pos(s.len(), i, sp_ws_end(s, i));
    if j >= s.len() {
        Seq::empty()
    } else {
        let k = next_pos(s.len(), j + 1, sp_token_end(s, j));
        seq![s.subrange(j as int, k as int)] + sp_split_ws_at(s, k)
    }
}

/// The whitespace-separated tokens of `s`, in order. Every token is
/// non-empty and free of whitespace.
pub open spec fn sp_split_ws(s: Seq<char>) -> Seq<Seq<char>> {
    sp_split_ws_at(s, 0)
}

/// `s` with leading and trailing whitespace removed: the subrange from
/// the first non-space character through the last one.
pub open spec fn sp_trim(s: Seq<char>) -> Seq<char> {
    let a = sp_ws_end(s, 0);
    if a >= s.len() {
        Seq::empty()
    } else {
        let b = sp_trim_end_from(s, s.len());
        s.subrange(a as int, b as int)
    }
}

/// The position right after the last non-space character of `s.take(i)`.
pub open spec fn sp_trim_end_from(s: Seq<char>, i: nat) -> nat
    decreases i,
{
    if i > 0 && i <= s.len() && is_space_char(s[i as int - 1]) {
        sp_trim_end_from(s, (i - 1) as nat)
    } else {
        i
    }
}

/// If position `a` holds a non-space character, the trim-end position
/// stays beyond it.
pub proof fn lemma_trim_end_above(s: Seq<char>, i: nat, a: nat)
    requires
        a < i <= s.len(),
        !is_space_char(s[a as int]),
    ensures
        sp_trim_end_from(s, i) > a,
    decreases i,
{
    if i > 0 && is_space_char(s[i as int - 1]) {
        lemma_trim_end_above(s, (i - 1) as nat, a);
    }
}

/// Remove leading and trailing whitespace from a character vector.
pub fn trim_chars(v: &Vec<char>) -> (r: Vec<char>)
    ensures
        r@ == sp_trim(v@),
{
    let mut a: usize = 0;
    while a < v.len() && is_space(v[a])
        invariant
            a <= v.len(),
            sp_ws_end(v@, 0) == sp_ws_end(v@, a as nat),
        decreases v.len() - a,
    {
        a = a + 1;
    }
    proof {
        lemma_ws_end_bounds(v@, a as nat);
    }
    assert(sp_ws_end(v@, a as nat) == a as nat);
    if a >= v.len() {
        assert(sp_trim(v@) =~= Seq::<char>::empty());
        return Vec::new();
    }
    let mut b: usize = v.len();
    while b > a && is_space(v[b - 1])
        invariant
            a < b <= v.len(),
            !is_space_char(v@[a as int]),
            sp_trim_end_from(v@, v@.len()) == sp_trim_end_from(v@, b as nat),
        decreases b,
    {
        proof {
            lemma_trim_end_above(v@, b as nat, a as nat);
        }
        b = b - 1;
    }
    assert(sp_trim_end_from(v@, b as nat) == b as nat);
    let mut out: Vec<char> = Vec::new();
    let mut i: usize = a;
    while i < b
        invariant
            a <= i <= b <= v.len(),
            out@ == v@.subrange(a as int, i as int),
        decreases b - i,
    {
        out.push(v[i]);
        i = i + 1;
        assert(out@ =~= v@.subrange(a as int, i as int));
    }
    assert(out@ == sp_trim(v@));
    out
}

/// The views of a sequence of character vectors.
pub open spec fn views_of(v: Seq<Vec<char>>) -> Seq<Seq<char>> {
    v.map_values(|t: Vec<char>| t@)
}

/// Split a character vector into its whitespace-separated tokens.
pub fn split_ws_chars(v: &Vec<char>) -> (r: Vec<Vec<char>>)
    ensures
        views_of(r@) == sp_split_ws(v@),
{
    let mut out: Vec<Vec<char>> = Vec::new();
    let mut i: usize = 0;
    while i < v.len()
        invariant
            i <= v.len(),
            sp_split_ws(v@) == views_of(out@) + sp_split_ws_at(v@, i as nat),
        decreases v.len() - i,
    {
        if is_space(v[i]) {
            proof {
                lemma_ws_end_bounds(v@, i as nat + 1);
            }
            assert(sp_split_ws_at(v@, i as nat) == sp_split_ws_at(v@, i as nat + 1));
            i = i + 1;
        } else {
            assert(sp_ws_end(v@, i as nat) == i as nat);
            let mut k: usize = i;
            let mut tok: Vec<char> = Vec::new();
            while k < v.len() && !is_space(v[k])
                invariant
                    i <= k <= v.len(),
                    sp_token_end(v@, i as nat) == sp_token_end(v@, k as nat),
                    tok@ == v@.subrange(i as int, k as int),
                decreases v.len() - k,
            {
                tok.push(v[k]);
                k = k + 1;
                assert(tok@ =~= v@.subrange(i as int, k as int));
            }
            assert(sp_token_end(v@, i as nat) == k as nat);
            assert(next_pos(v@.len(), i as nat, i as nat) == i as nat);
            assert(next_pos(v@.len(), i as nat + 1, k as nat) == k as nat);
            assert(sp_split_ws_at(v@, i as nat) == seq![tok@] + sp_split_ws_at(v@, k as nat));
            let ghost old_out = out@;
            out.push(tok);
            proof {
                assert(views_of(out@) =~= views_of(old_out).push(tok@));
                assert(views_of(old_out) + (seq![tok@] + sp_split_ws_at(v@, k as nat))
                    =~= views_of(out@) + sp_split_ws_at(v@, k as nat));
            }
            i = k;
        }
    }
    assert(sp_split_ws_at(v@, i as nat) =~= Seq::<Seq<char>>::empty());
    assert(views_of(out@) =~= views_of(out@) + Seq::<Seq<char>>::empty());
    out
}

/// There are never more whitespace-separated tokens than characters.
pub proof fn lemma_split_ws_count(s: Seq<char>, i: nat)
    requires
        i <= s.len(),
    ensures
        sp_split_ws_at(s, i).len() <= s.len() - i,
    decreases s.len() - i,
{
    let j = next_pos(s.len(), i, sp_ws_end(s, i));
    if j < s.len() {
        let k = next_pos(s.len(), j + 1, sp_token_end(s, j));
        lemma_split_ws_count(s, k);
    }
}

/// Copy the characters of `v` between positions `a` and `b`.
pub fn subvec(v: &Vec<char>, a: usize, b: usize) -> (r: Vec<char>)
    requires
        a <= b <= v@.len(),
    ensures
        r@ == v@.subrange(a as int, b as int),
{
    let mut out: Vec<char> = Vec::new();
    let mut i: usize = a;
    while i < b
        invariant
            a <= i <= b <= v@.len(),
            out@ == v@.subrange(a as int, i as int),
        decreases b - i,
    {
        out.push(v[i]);
        i = i + 1;
        assert(out@ =~= v@.subrange(a as int, i as int));
    }
    out
}

/// The position of the first occurrence of `c` at or after `i`, or the
/// length of `s` if there is none.
pub open spec fn sp_find_from(s: Seq<char>, i: nat, c: char) -> nat
    decreases s.len() - i,
{
    if i < s.len() {
        if s[i as int] == c {
            i
        } else {
            sp_find_from(s, i + 1, c)
        }
    } else {
        i
    }
}

pub proof fn lemma_find_from_bounds(s: Seq<char>, i: nat, c: char)
    requires
        i <= s.len(),
    ensures
        i <= sp_find_from(s, i, c) <= s.len(),
    decreases s.len() - i,
{
    if i < s.len() && s[i as int] != c {
        lemma_find_from_bounds(s, i + 1, c);
    }
}

/// Find the first occurrence of `c` at or after position `from`.
pub fn find_from(v: &Vec<char>, from: usize, c: char) -> (r: usize)
    requires
        from <= v@.len(),
    ensures
        r == sp_find_from(v@, from as nat, c),
        from <= r <= v@.len(),
{
    let mut i: usize = from;
    while i < v.len()
        invariant
            from <= i <= v@.len(),
            sp_find_from(v@, from as nat, c) == sp_find_from(v@, i as nat, c),
        decreases v.len() - i,
    {
        if v[i] == c {
            return i;
        }
        i = i + 1;
    }
    i
}

/// Compare two character vectors for equality.
pub fn eq_chars(a: &Vec<char>, b: &Vec<char>) -> (r: bool)
    ensures
        r == (a@ == b@),
{
    if a.len() != b.len() {
        return false;
    }
    let mut i: usize = 0;
    while i < a.len()
        invariant
            i <= a.len(),
            a@.len() == b@.len(),
            forall|j: int| 0 <= j < i ==> a@[j] == b@[j],
        decreases a.len() - i,
    {
        if a[i] != b[i] {
            return false;
        }
        i = i + 1;
    }
    proof {
        assert(a@ =~= b@);
    }
    true
}

/// Compare two string slices for equality of their characters.
pub fn str_eq(a: &str, b: &str) -> (r: bool)
    ensures
        r == (a@ == b@),
{
    let av = chars_of(a);
    let bv = chars_of(b);
    eq_chars(&av, &bv)
}

/// Collect the characters of a string slice, in order.
///
/// Relies on `str::chars`: the iterator yields exactly the characters
/// of the slice, in order, which is what the view of a `str` holds.
#[verifier::external_body]
pub fn chars_of(s: &str) -> (r: Vec<char>)
    ensures
        r@ == s@,
{
    s.chars().collect()
}

/// Build an owned string from a character vector.
///
/// Relies on `String`'s `FromIterator<char>`: collecting characters
/// yields a string holding exactly those characters in order.
#[verifier::external_body]
pub fn string_from_chars(v: &Vec<char>) -> (r: String)
    ensures
        r@ == v@,
{
    v.iter().collect()
}

} // verus!
