//! The compute half of the document fetcher: parsing a URL into host,
//! port and path, and splitting a raw response into headers and body
//! with the status check. The socket work itself lives outside the
//! library and hands these functions plain strings.
use vstd::prelude::*;

verus! {

use crate::text::{
    chars_of, eq_chars, find_from, sp_find_from, sp_trim, string_from_chars, subvec, trim_chars,
};

pub struct HttpClient;

/// A parsed `http://` URL: host, port (80 when none is given) and
/// path (`/` when none is given).
#[derive(Debug, PartialEq, Eq, Clone)]
pub struct UrlParts {
    pub host: String,
    pub port: u16,
    pub path: String,
}

/// Model of `UrlParts`.
#[verifier::ext_equal]
pub struct UrlModel {
    pub host: Seq<char>,
    pub port: u16,
    pub path: Seq<char>,
}

impl View for UrlParts {
    type V = UrlModel;

    open spec fn view(&self) -> UrlModel {
        UrlModel { host: self.host@, port: self.port, path: self.path@ }
    }
}

/// A fetch failure the compute half can detect: a URL whose scheme is
/// not `http://`, or a response whose status line reports neither 200
/// nor 204 (the status line is carried).
#[derive(Debug, PartialEq, Eq, Clone)]
pub enum HttpError {
    UnsupportedScheme,
    Status(String),
}

/// Model of an `HttpError`.
#[verifier::ext_equal]
pub enum HttpErrModel {
    UnsupportedScheme,
    Status(Seq<char>),
}

impl View for HttpError {
    type V = HttpErrModel;

    open spec fn view(&self) -> HttpErrModel {
        match self {
            HttpError::UnsupportedScheme => HttpErrModel::UnsupportedScheme,
            HttpError::Status(s) => HttpErrModel::Status(s@),
        }
    }
}

/// Whether `p` is a prefix of `s`.
pub open spec fn sp_starts_with(s: Seq<char>, p: Seq<char>) -> bool {
    s.len() >= p.len() && s.take(p.len() as int) == p
}

/// Whether `p` occurs in `s` as a contiguous run.
pub open spec fn sp_contains(s: Seq<char>, p: Seq<char>) -> bool {
    exists|i: int|
        0 <= i && i + p.len() <= s.len() && #[trigger] s.subrange(i, i + p.len() as int) == p
}

/// The position of the last occurrence of `c` in `s`, if any.
pub open spec fn sp_rfind(s: Seq<char>, c: char) -> Option<nat>
    decreases s.len(),
{
    if s.len() == 0 {
        None
    } else if s.last() == c {
        Some((s.len() - 1) as nat)
    } else {
        sp_rfind(s.drop_last(), c)
    }
}

/// ASCII decimal digits.
pub open spec fn is_digit_char(c: char) -> bool {
    48 <= c as u32 && c as u32 <= 57
}

pub open spec fn sp_all_digits(s: Seq<char>) -> bool {
    forall|i: int| 0 <= i < s.len() ==> is_digit_char(#[trigger] s[i])
}

/// The value of a run of decimal digits.
pub open spec fn sp_digits_val(s: Seq<char>) -> nat
    decreases s.len(),
{
    if s.len() == 0 {
        0
    } else {
        sp_digits_val(s.drop_last()) * 10 + (s.last() as u32 - 48) as nat
    }
}

/// A decimal port number as `u16` text gives it: an optional leading
/// `+`, then at least one digit, value at most 65535.
pub open spec fn sp_parse_u16(s: Seq<char>) -> Option<u16> {
    let body = if s.len() > 0 && s[0] == '+' {
        s.skip(1)
    } else {
        s
    };
    if body.len() == 0 || !sp_all_digits(body) {
        None
    } else if sp_digits_val(body) > 65535 {
        None
    } else {
        Some(sp_digits_val(body) as u16)
    }
}

/// The `http://` scheme prefix.
pub open spec fn http_prefix() -> Seq<char> {
    seq!['h', 't', 't', 'p', ':', '/', '/']
}

/// The URL split the fetcher performs: trim, demand the `http://`
/// scheme, split host-or-host:port from the path at the first `/`,
/// and read a port after the last `:` unless a `]` occurs in the
/// host-port part or the port text does not parse (then port 80 and
/// the whole part as host).
pub open spec fn sp_parse_url(u0: Seq<char>) -> Option<UrlModel> {
    let u = sp_trim(u0);
    if !sp_starts_with(u, http_prefix()) {
        None
    } else {
        let rest = u.skip(7);
        let slash = sp_find_from(rest, 0, '/');
        let host_port = rest.take(slash as int);
        let path = if slash < rest.len() {
            rest.skip(slash as int)
        } else {
            seq!['/']
        };
        match sp_rfind(host_port, ':') {
            None => Some(UrlModel { host: host_port, port: 80, path: path }),
            Some(ci) => {
                if sp_contains(host_port, seq![']']) {
                    Some(UrlModel { host: host_port, port: 80, path: path })
                } else {
                    match sp_parse_u16(host_port.skip(ci as int + 1)) {
                        Some(p) => Some(
                            UrlModel { host: host_port.take(ci as int), port: p, path: path },
                        ),
                        None => Some(UrlModel { host: host_port, port: 80, path: path }),
                    }
                }
            },
        }
    }
}

/// The digit value only grows as digits are appended.
proof fn lemma_digits_val_mono(s: Seq<char>, i: int)
    requires
        0 <= i <= s.len(),
    ensures
        sp_digits_val(s.take(i)) <= sp_digits_val(s),
    decreases s.len() - i,
{
    if i < s.len() {
        assert(s.take(i + 1).drop_last() =~= s.take(i));
        assert(sp_digits_val(s.take(i)) <= sp_digits_val(s.take(i + 1)));
        lemma_digits_val_mono(s, i + 1);
    } else {
        assert(s.take(i) =~= s);
    }
}

/// Parse a decimal `u16` as the standard library's `u16` parser reads
/// a plain decimal string.
fn parse_u16_chars(v: &Vec<char>) -> (r: Option<u16>)
    ensures
        r == sp_parse_u16(v@),
{
    let start: usize = if v.len() > 0 && v[0] == '+' {
        1
    } else {
        0
    };
    let ghost body = if v@.len() > 0 && v@[0] == '+' {
        v@.skip(1)
    } else {
        v@
    };
    assert(body =~= v@.subrange(start as int, v@.len() as int));
    if v.len() == start {
        return None;
    }
    let mut acc: u32 = 0;
    let mut i: usize = start;
    while i < v.len()
        invariant
            start <= i <= v@.len(),
            start <= 1,
            body == v@.subrange(start as int, v@.len() as int),
            body == (if v@.len() > 0 && v@[0] == '+' {
                v@.skip(1)
            } else {
                v@
            }),
            sp_all_digits(body.take(i - start)),
            acc as nat == sp_digits_val(body.take(i - start)),
            acc <= 65535,
        decreases v@.len() - i,
    {
        let c = v[i];
        let u = c as u32;
        if !(48 <= u && u <= 57) {
            assert(body[i - start] == v@[i as int]);
            assert(!sp_all_digits(body));
            return None;
        }
        proof {
            assert(body.take(i - start + 1).drop_last() =~= body.take(i - start));
            assert(body.take(i - start + 1).last() == v@[i as int]);
        }
        let d: u32 = u - 48;
        if acc > 6553 || (acc == 6553 && d > 5) {
            proof {
                assert(sp_digits_val(body.take(i - start + 1)) > 65535);
                lemma_digits_val_mono(body, i - start + 1);
            }
            return None;
        }
        acc = acc * 10 + d;
        i = i + 1;
    }
    assert(body.take(v@.len() - start) =~= body);
    Some(acc as u16)
}

/// The position of the first occurrence of `p` in `s` at or after `i`,
/// or the length of `s` if there is none.
pub open spec fn sp_find_sub(s: Seq<char>, p: Seq<char>, i: nat) -> nat
    decreases s.len() - i,
{
    if p.len() == 0 || i + p.len() > s.len() {
        s.len()
    } else if s.subrange(i as int, i as int + p.len() as int) == p {
        i
    } else {
        sp_find_sub(s, p, i + 1)
    }
}

proof fn lemma_find_sub_found(s: Seq<char>, p: Seq<char>, i: nat)
    requires
        p.len() > 0,
        i <= s.len(),
    ensures
        sp_find_sub(s, p, i) <= s.len(),
        sp_find_sub(s, p, i) < s.len() ==> i <= sp_find_sub(s, p, i) && sp_find_sub(s, p, i)
            + p.len() <= s.len() && s.subrange(
            sp_find_sub(s, p, i) as int,
            sp_find_sub(s, p, i) as int + p.len() as int,
        ) == p,
    decreases s.len() - i,
{
    if !(i + p.len() > s.len()) && s.subrange(i as int, i as int + p.len() as int) != p {
        lemma_find_sub_found(s, p, i + 1);
    }
}

proof fn lemma_find_sub_not_found(s: Seq<char>, p: Seq<char>, i: nat)
    requires
        p.len() > 0,
        i <= s.len(),
        sp_find_sub(s, p, i) == s.len(),
    ensures
        forall|j: int|
            i <= j && j + p.len() <= s.len() ==> #[trigger] s.subrange(j, j + p.len() as int) != p,
    decreases s.len() - i,
{
    if i + p.len() <= s.len() {
        lemma_find_sub_not_found(s, p, i + 1);
    }
}

/// Find the first occurrence of `pat` in `v`, or the length of `v`.
fn find_sub(v: &Vec<char>, pat: &Vec<char>) -> (r: usize)
    requires
        pat@.len() > 0,
    ensures
        r == sp_find_sub(v@, pat@, 0),
        r <= v@.len(),
{
    let mut i: usize = 0;
    let res: usize;
    loop
        invariant_except_break
            i <= v@.len(),
            pat@.len() > 0,
            sp_find_sub(v@, pat@, 0) == sp_find_sub(v@, pat@, i as nat),
        ensures
            res == sp_find_sub(v@, pat@, 0),
            res <= v@.len(),
        decreases v@.len() - i,
    {
        if pat.len() > v.len() - i {
            res = v.len();
            break ;
        }
        let window = subvec(v, i, i + pat.len());
        if eq_chars(&window, pat) {
            res = i;
            break ;
        }
        i = i + 1;
    }
    res
}

/// Whether `pat` occurs in `v`.
fn contains_sub(v: &Vec<char>, pat: &Vec<char>) -> (r: bool)
    requires
        pat@.len() > 0,
    ensures
        r == sp_contains(v@, pat@),
{
    let idx = find_sub(v, pat);
    proof {
        lemma_find_sub_found(v@, pat@, 0);
    }
    if idx < v.len() {
        assert(sp_contains(v@, pat@));
        true
    } else {
        proof {
            lemma_find_sub_not_found(v@, pat@, 0);
        }
        false
    }
}

/// The blank-line separator between headers and body.
pub open spec fn crlf2() -> Seq<char> {
    seq!['\r', '\n', '\r', '\n']
}

/// The status-line prefix of a proper response.
pub open spec fn http_head() -> Seq<char> {
    seq!['H', 'T', 'T', 'P', '/']
}

/// The success status markers the fetcher accepts.
pub open spec fn ok200() -> Seq<char> {
    seq![' ', '2', '0', '0', ' ']
}

pub open spec fn ok204() -> Seq<char> {
    seq![' ', '2', '0', '4', ' ']
}

/// The first header line: up to the first newline, a trailing carriage
/// return dropped.
pub open spec fn sp_first_line(h: Seq<char>) -> Seq<char> {
    let e = sp_find_from(h, 0, '\n');
    let line = h.take(e as int);
    if line.len() > 0 && line.last() == '\r' {
        line.drop_last()
    } else {
        line
    }
}

/// The response split the fetcher performs: at the first blank line
/// the text parts into headers and body; a response that starts with
/// `HTTP/` succeeds exactly when its headers carry status 200 or 204
/// (otherwise the first header line is the error); anything without a
/// blank line or the `HTTP/` prefix is handed back whole.
pub open spec fn sp_split_response(s: Seq<char>) -> Result<Seq<char>, HttpErrModel> {
    let idx = sp_find_sub(s, crlf2(), 0);
    if idx + 4 <= s.len() {
        let headers = s.take(idx as int);
        let body = s.skip(idx as int + 4);
        if sp_starts_with(headers, http_head()) {
            if sp_contains(headers, ok200()) || sp_contains(headers, ok204()) {
                Ok(body)
            } else {
                Err(HttpErrModel::Status(sp_first_line(headers)))
            }
        } else {
            Ok(s)
        }
    } else {
        Ok(s)
    }
}

impl HttpClient {
    /// Split an `http://` URL into host, port and path; any other
    /// scheme is rejected, and that is the only rejection.
    pub fn parse_url(url: &str) -> (r: Result<UrlParts, HttpError>)
        ensures
            match r {
                Ok(u) => sp_parse_url(url@) == Some(u@),
                Err(e) => sp_parse_url(url@) is None && e@ == HttpErrModel::UnsupportedScheme,
            },
    {
        let raw = chars_of(url);
        let u = trim_chars(&raw);
        let prefix = chars_of("http://");
        proof {
            reveal_strlit("http://");
            assert(prefix@ =~= http_prefix());
        }
        if u.len() < prefix.len() {
            return Err(HttpError::UnsupportedScheme);
        }
        let head = subvec(&u, 0, prefix.len());
        if !eq_chars(&head, &prefix) {
            return Err(HttpError::UnsupportedScheme);
        }
        let rest = subvec(&u, 7, u.len());
        assert(rest@ =~= u@.skip(7));
        let slash = find_from(&rest, 0, '/');
        let host_port = subvec(&rest, 0, slash);
        let path: Vec<char> = if slash < rest.len() {
            let p = subvec(&rest, slash, rest.len());
            assert(p@ =~= rest@.skip(slash as int));
            p
        } else {
            let mut p: Vec<char> = Vec::new();
            p.push('/');
            assert(p@ =~= seq!['/']);
            p
        };
        // the last ':' of the host-port part, scanning from the end
        let mut colon: Option<usize> = None;
        let mut j: usize = host_port.len();
        proof {
            assert(host_port@.take(host_port@.len() as int) =~= host_port@);
        }
        loop
            invariant_except_break
                j <= host_port@.len(),
                colon is None,
                sp_rfind(host_port@, ':') == sp_rfind(host_port@.take(j as int), ':'),
            ensures
                match colon {
                    Some(ci) => sp_rfind(host_port@, ':') == Some(ci as nat) && ci
                        < host_port@.len(),
                    None => sp_rfind(host_port@, ':') is None,
                },
            decreases j,
        {
            if j == 0 {
                assert(host_port@.take(0) =~= Seq::<char>::empty());
                break ;
            }
            proof {
                assert(host_port@.take(j as int).drop_last() =~= host_port@.take(j as int - 1));
                assert(host_port@.take(j as int).last() == host_port@[j as int - 1]);
            }
            if host_port[j - 1] == ':' {
                colon = Some(j - 1);
                break ;
            }
            j = j - 1;
        }
        let ci: usize;
        match colon {
            None => {
                return Ok(
                    UrlParts {
                        host: string_from_chars(&host_port),
                        port: 80,
                        path: string_from_chars(&path),
                    },
                );
            },
            Some(c) => {
                ci = c;
            },
        }
        // a `]` anywhere in the host-port part leaves the port alone
        let mut has_bracket = false;
        let mut b: usize = 0;
        loop
            invariant_except_break
                b <= host_port@.len(),
                !has_bracket,
                forall|k: int| 0 <= k < b ==> host_port@[k] != ']',
            ensures
                has_bracket == sp_contains(host_port@, seq![']']),
            decreases host_port@.len() - b,
        {
            if b >= host_port.len() {
                proof {
                    assert forall|i: int|
                        !(0 <= i && i + 1 <= host_port@.len() && #[trigger] host_port@.subrange(
                            i,
                            i + 1,
                        ) == seq![']']) by {
                        if 0 <= i && i + 1 <= host_port@.len() {
                            assert(host_port@.subrange(i, i + 1)[0] == host_port@[i]);
                        }
                    }
                }
                break ;
            }
            if host_port[b] == ']' {
                has_bracket = true;
                proof {
                    assert(host_port@.subrange(b as int, b as int + 1) =~= seq![']']);
                }
                break ;
            }
            b = b + 1;
        }
        if has_bracket {
            return Ok(
                UrlParts {
                    host: string_from_chars(&host_port),
                    port: 80,
                    path: string_from_chars(&path),
                },
            );
        }
        let port_text = subvec(&host_port, ci + 1, host_port.len());
        assert(port_text@ =~= host_port@.skip(ci as int + 1));
        match parse_u16_chars(&port_text) {
            Some(p) => {
                let host = subvec(&host_port, 0, ci);
                Ok(
                    UrlParts {
                        host: string_from_chars(&host),
                        port: p,
                        path: string_from_chars(&path),
                    },
                )
            },
            None => {
                Ok(
                    UrlParts {
                        host: string_from_chars(&host_port),
                        port: 80,
                        path: string_from_chars(&path),
                    },
                )
            },
        }
    }

    /// Split a raw response into headers and body at the first blank
    /// line and check the status: the body comes back for 200 and 204,
    /// the first header line comes back as the error otherwise, and a
    /// response without a blank line or without the `HTTP/` prefix is
    /// handed back whole.
    pub fn split_response(raw: &str) -> (r: Result<String, HttpError>)
        ensures
            match r {
                Ok(b) => sp_split_response(raw@) == Ok::<Seq<char>, HttpErrModel>(b@),
                Err(e) => sp_split_response(raw@) == Err::<Seq<char>, HttpErrModel>(e@),
            },
    {
        let s = chars_of(raw);
        let pat = chars_of("\r\n\r\n");
        proof {
            reveal_strlit("\r\n\r\n");
            assert(pat@ =~= crlf2());
        }
        let idx = find_sub(&s, &pat);
        proof {
            lemma_find_sub_found(s@, crlf2(), 0);
        }
        if idx < s.len() {
            let headers = subvec(&s, 0, idx);
            let body = subvec(&s, idx + 4, s.len());
            assert(body@ =~= s@.skip(idx as int + 4));
            let head5 = chars_of("HTTP/");
            proof {
                reveal_strlit("HTTP/");
                assert(head5@ =~= http_head());
            }
            let is_http: bool = if headers.len() >= 5 {
                let first5 = subvec(&headers, 0, 5);
                eq_chars(&first5, &head5)
            } else {
                false
            };
            assert(is_http == sp_starts_with(headers@, http_head()));
            if is_http {
                let p200 = chars_of(" 200 ");
                let p204 = chars_of(" 204 ");
                proof {
                    reveal_strlit(" 200 ");
                    reveal_strlit(" 204 ");
                    assert(p200@ =~= ok200());
                    assert(p204@ =~= ok204());
                }
                if contains_sub(&headers, &p200) || contains_sub(&headers, &p204) {
                    Ok(string_from_chars(&body))
                } else {
                    let e = find_from(&headers, 0, '\n');
                    let mut line = subvec(&headers, 0, e);
                    if line.len() > 0 && line[line.len() - 1] == '\r' {
                        let ghost l0 = line@;
                        line.pop();
                        assert(line@ =~= l0.drop_last());
                    }
                    assert(line@ == sp_first_line(headers@));
                    Err(HttpError::Status(string_from_chars(&line)))
                }
            } else {
                Ok(string_from_chars(&s))
            }
        } else {
            Ok(string_from_chars(&s))
        }
    }
}

} // verus!
