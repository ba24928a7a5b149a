//! What the scanner reads: lists of candidate addresses, dotted IPv4
//! addresses, and the target URL.

use crate::text::{
    chars_of, cut, first_sep, lemma_first_sep, split, text_of, trim, trim_bounds,
};
use vstd::prelude::*;

verus! {

/// The pieces that are not blank, each without the white space at its ends.
pub open spec fn tidy(pieces: Seq<Seq<char>>) -> Seq<Seq<char>>
    decreases pieces.len(),
{
    if pieces.len() == 0 {
        Seq::empty()
    } else if trim(pieces.last()).len() > 0 {
        tidy(pieces.drop_last()).push(trim(pieces.last()))
    } else {
        tidy(pieces.drop_last())
    }
}

/// The candidate addresses that a list holds: its lines, each without the
/// white space around it, blank lines left out.
pub open spec fn candidates(text: Seq<char>) -> Seq<Seq<char>> {
    tidy(split(text, '\n'))
}

/// Reads a list of candidate addresses, one to a line. White space around
/// an address is dropped, and so are blank lines; what a line holds is not
/// examined further.
pub fn parse_candidates(text: &str) -> (ips: Vec<String>)
    ensures
        ips.deep_view() == candidates(text@),
{
    let chars = chars_of(text);
    let pieces = cut(&chars, '\n');
    let ghost lines = split(chars@, '\n');
    let mut ips: Vec<String> = Vec::new();
    let mut k: usize = 0;
    while k < pieces.len()
        invariant
            k <= pieces.len(),
            lines == split(chars@, '\n'),
            pieces.len() == lines.len(),
            forall|j: int|
                0 <= j < pieces.len() ==> (#[trigger] pieces[j]).0 <= pieces[j].1 <= chars.len()
                    && lines[j] == chars@.subrange(pieces[j].0 as int, pieces[j].1 as int),
            ips.deep_view() == tidy(lines.take(k as int)),
        decreases pieces.len() - k,
    {
        let piece = pieces[k];
        let (a, b) = trim_bounds(&chars, piece.0, piece.1);
        proof {
            assert(lines.take(k + 1).drop_last() =~= lines.take(k as int));
            assert(lines.take(k + 1).last() == lines[k as int]);
        }
        if a < b {
            let ghost before = ips.deep_view();
            let ip = text_of(&chars, a, b);
            ips.push(ip);
            assert(ips.deep_view() =~= before.push(trim(lines[k as int])));
        }
        k += 1;
    }
    assert(lines.take(lines.len() as int) =~= lines);
    ips
}

/// Whether `c` is one of the ten decimal digits.
pub open spec fn is_digit(c: char) -> bool {
    0x30 <= c as u32 <= 0x39
}

/// The number that a run of decimal digits writes.
pub open spec fn digits_value(s: Seq<char>) -> nat
    decreases s.len(),
{
    if s.len() == 0 {
        0
    } else {
        (10 * digits_value(s.drop_last()) + (s.last() as u32 - 0x30)) as nat
    }
}

/// Whether `s` writes one part of a dotted address: one to three decimal
/// digits, no zero in front of another digit, and no more than 255.
pub open spec fn is_octet(s: Seq<char>) -> bool {
    &&& 1 <= s.len() <= 3
    &&& forall|i: int| 0 <= i < s.len() ==> is_digit(#[trigger] s[i])
    &&& s.len() > 1 ==> s[0] != '0'
    &&& digits_value(s) <= 255
}

/// The address that `s` writes in dotted form, four parts with a `.`
/// between them, if it writes one.
pub open spec fn ipv4(s: Seq<char>) -> Option<(u8, u8, u8, u8)> {
    let parts = split(s, '.');
    if parts.len() == 4 && is_octet(parts[0]) && is_octet(parts[1]) && is_octet(parts[2])
        && is_octet(parts[3]) {
        Some(
            (
                digits_value(parts[0]) as u8,
                digits_value(parts[1]) as u8,
                digits_value(parts[2]) as u8,
                digits_value(parts[3]) as u8,
            ),
        )
    } else {
        None
    }
}

/// Reads one part of a dotted address from `chars[from..to]`.
fn parse_octet(chars: &Vec<char>, from: usize, to: usize) -> (octet: Option<u8>)
    requires
        from <= to <= chars.len(),
    ensures
        octet is Some <==> is_octet(chars@.subrange(from as int, to as int)),
        octet is Some ==> octet->0 == digits_value(chars@.subrange(from as int, to as int)),
{
    let ghost part = chars@.subrange(from as int, to as int);
    if to - from < 1 || to - from > 3 {
        return None;
    }
    let mut value: u32 = 0;
    let mut i: usize = from;
    while i < to
        invariant
            from <= i <= to <= chars.len(),
            to - from <= 3,
            part == chars@.subrange(from as int, to as int),
            forall|j: int| 0 <= j < i - from ==> is_digit(#[trigger] part[j]),
            value == digits_value(part.take(i - from)),
            value <= 999,
        decreases to - i,
    {
        let c = chars[i];
        let u: u32 = c as u32;
        assert(part[i - from] == c);
        if u < 0x30 || u > 0x39 {
            assert(!is_digit(part[i - from]));
            return None;
        }
        proof {
            assert(part.take(i - from + 1).drop_last() =~= part.take(i - from));
            assert(part.take(i - from + 1).last() == c);
            lemma_digits_bound(part.take(i - from));
        }
        value = value * 10 + (u - 0x30);
        i += 1;
        proof {
            lemma_digits_bound(part.take(i - from));
        }
    }
    assert(part.take(part.len() as int) =~= part);
    if to - from > 1 && chars[from] == '0' {
        assert(part[0] == '0');
        return None;
    }
    assert(part.len() > 1 ==> part[0] == chars@[from as int]);
    if value > 255 {
        return None;
    }
    Some(value as u8)
}

/// A run of `n` digits writes a number below the `n`-th power of ten.
proof fn lemma_digits_bound(s: Seq<char>)
    requires
        forall|i: int| 0 <= i < s.len() ==> is_digit(#[trigger] s[i]),
    ensures
        s.len() == 0 ==> digits_value(s) == 0,
        s.len() == 1 ==> digits_value(s) <= 9,
        s.len() == 2 ==> digits_value(s) <= 99,
        s.len() == 3 ==> digits_value(s) <= 999,
    decreases s.len(),
{
    if s.len() > 0 {
        let rest = s.drop_last();
        assert forall|i: int| 0 <= i < rest.len() implies is_digit(#[trigger] rest[i]) by {
            assert(rest[i] == s[i]);
        }
        lemma_digits_bound(rest);
        assert(is_digit(s[s.len() - 1]));
    }
}

/// Reads an IPv4 address in dotted form. Gives its four parts, or nothing
/// where `text` is not such an address.
pub fn parse_ipv4(text: &str) -> (addr: Option<(u8, u8, u8, u8)>)
    ensures
        addr == ipv4(text@),
{
    let chars = chars_of(text);
    let pieces = cut(&chars, '.');
    if pieces.len() != 4 {
        return None;
    }
    let a = parse_octet(&chars, pieces[0].0, pieces[0].1);
    let b = parse_octet(&chars, pieces[1].0, pieces[1].1);
    let c = parse_octet(&chars, pieces[2].0, pieces[2].1);
    let d = parse_octet(&chars, pieces[3].0, pieces[3].1);
    match (a, b, c, d) {
        (Some(a), Some(b), Some(c), Some(d)) => Some((a, b, c, d)),
        _ => None,
    }
}

/// Whether `://` stands in `s` at place `i`.
pub open spec fn scheme_at(s: Seq<char>, i: int) -> bool {
    0 <= i && i + 3 <= s.len() && s[i] == ':' && s[i + 1] == '/' && s[i + 2] == '/'
}

/// Where the first `://` of `s` begins; `s.len()` where there is none.
pub open spec fn scheme_end(s: Seq<char>) -> int
    decreases s.len(),
{
    if s.len() < 3 {
        s.len() as int
    } else if scheme_at(s, 0) {
        0
    } else {
        1 + scheme_end(s.drop_first())
    }
}

/// The host and the path of a URL: what follows the first `://`, cut at its
/// first `/`. There is no path where no `/` follows the host, and neither
/// where the URL has no `://`.
pub open spec fn url_parts(url: Seq<char>) -> Option<(Seq<char>, Seq<char>)> {
    let n = scheme_end(url);
    if n + 3 <= url.len() {
        let rest = url.skip(n + 3);
        let h = first_sep(rest, '/');
        if h < rest.len() {
            Some((rest.take(h), rest.skip(h + 1)))
        } else {
            Some((rest, Seq::empty()))
        }
    } else {
        None
    }
}

/// `scheme_end` is the first place where `://` stands.
proof fn lemma_scheme_end(s: Seq<char>, n: int)
    requires
        0 <= n <= s.len(),
        forall|i: int| 0 <= i < n ==> !scheme_at(s, i),
        n + 3 <= s.len() ==> scheme_at(s, n),
        n + 3 > s.len() ==> n == s.len(),
    ensures
        scheme_end(s) == n,
    decreases s.len(),
{
    if s.len() >= 3 && n > 0 {
        let rest = s.drop_first();
        assert(!scheme_at(s, 0));
        assert forall|i: int| 0 <= i < n - 1 implies !scheme_at(rest, i) by {
            assert(!scheme_at(s, i + 1));
            if i + 3 <= rest.len() {
                assert(rest[i] == s[i + 1] && rest[i + 1] == s[i + 1 + 1] && rest[i + 2] == s[i
                    + 1 + 2]);
            }
        }
        if n + 3 <= s.len() {
            assert(scheme_at(s, n));
            assert(rest[n - 1] == s[n] && rest[n - 1 + 1] == s[n + 1] && rest[n - 1 + 2] == s[n
                + 2]);
        }
        lemma_scheme_end(rest, n - 1);
    }
}

/// Takes a URL apart into the host to present and the path to ask for.
/// Gives nothing where the URL names no scheme.
pub fn split_url(url: &str) -> (parts: Option<(String, String)>)
    ensures
        match parts {
            Some((host, path)) => url_parts(url@) == Some((host@, path@)),
            None => url_parts(url@) is None,
        },
{
    let chars = chars_of(url);
    let len = chars.len();
    if len < 3 {
        proof {
            lemma_scheme_end(chars@, len as int);
        }
        return None;
    }
    let mut n: usize = 0;
    while n <= len - 3 && !(chars[n] == ':' && chars[n + 1] == '/' && chars[n + 2] == '/')
        invariant
            len == chars.len(),
            3 <= len,
            n <= len - 2,
            forall|i: int| 0 <= i < n ==> !scheme_at(chars@, i),
        decreases len - n,
    {
        n += 1;
    }
    if n > len - 3 {
        proof {
            lemma_scheme_end(chars@, len as int);
        }
        return None;
    }
    proof {
        lemma_scheme_end(chars@, n as int);
    }
    let start = n + 3;
    let ghost rest = chars@.skip(start as int);
    let mut h: usize = start;
    while h < len && chars[h] != '/'
        invariant
            len == chars.len(),
            start <= h <= len,
            forall|i: int| start <= i < h ==> chars@[i] != '/',
        decreases len - h,
    {
        h += 1;
    }
    proof {
        assert forall|i: int| 0 <= i < h - start implies rest[i] != '/' by {
            assert(rest[i] == chars@[start + i]);
        }
        lemma_first_sep(rest, '/', h - start);
        assert(rest.take(h - start) =~= chars@.subrange(start as int, h as int));
    }
    let host = text_of(&chars, start, h);
    if h < len {
        let path = text_of(&chars, h + 1, len);
        assert(rest.skip(h - start + 1) =~= chars@.subrange(h + 1, len as int));
        Some((host, path))
    } else {
        assert(rest =~= chars@.subrange(start as int, len as int));
        Some((host, String::new()))
    }
}

} // verus!
