//! Text as a sequence of characters: reading a string into characters,
//! writing characters out as a string, cutting at a separator, trimming.

use vstd::prelude::*;

verus! {

/// `String::push` of std: the character is appended to the string, and
/// nothing else of it changes.
#[verifier::external_body]
fn push_char(s: &mut String, c: char)
    ensures
        final(s)@ == old(s)@.push(c),
{
    s.push(c)
}

/// The characters of `s`, in order.
pub(crate) fn chars_of(s: &str) -> (chars: Vec<char>)
    ensures
        chars@ == s@,
{
    let mut chars: Vec<char> = Vec::new();
    for c in it: s.chars()
        invariant
            it.seq() == s@,
            chars@ == s@.take(it.index()),
    {
        let ghost before = chars@;
        chars.push(c);
        assert(chars@ =~= s@.take(it.index() + 1));
    }
    assert(s@.take(s@.len() as int) =~= s@);
    chars
}

/// The string made of `chars[from..to]`.
pub(crate) fn text_of(chars: &Vec<char>, from: usize, to: usize) -> (s: String)
    requires
        from <= to <= chars.len(),
    ensures
        s@ == chars@.subrange(from as int, to as int),
{
    let mut s = String::new();
    let mut i: usize = from;
    while i < to
        invariant
            from <= i <= to <= chars.len(),
            s@ == chars@.subrange(from as int, i as int),
        decreases to - i,
    {
        push_char(&mut s, chars[i]);
        assert(s@ =~= chars@.subrange(from as int, i + 1));
        i += 1;
    }
    s
}

/// Whether `c` is white space, as Unicode defines it: the characters
/// U+0009 to U+000D, the space, U+0085, U+00A0, U+1680, U+2000 to U+200A,
/// U+2028, U+2029, U+202F, U+205F and U+3000.
pub open spec fn is_space(c: char) -> bool {
    let u = c as u32;
    ||| 0x09 <= u <= 0x0D
    ||| u == 0x20
    ||| u == 0x85
    ||| u == 0xA0
    ||| u == 0x1680
    ||| 0x2000 <= u <= 0x200A
    ||| u == 0x2028
    ||| u == 0x2029
    ||| u == 0x202F
    ||| u == 0x205F
    ||| u == 0x3000
}

/// Tells whether `c` is white space.
pub fn is_whitespace(c: char) -> (b: bool)
    ensures
        b == is_space(c),
{
    let u: u32 = c as u32;
    (0x09 <= u && u <= 0x0D) || u == 0x20 || u == 0x85 || u == 0xA0 || u == 0x1680 || (0x2000 <= u
        && u <= 0x200A) || u == 0x2028 || u == 0x2029 || u == 0x202F || u == 0x205F || u == 0x3000
}

/// How many characters of `s` stand before the first `sep`: all of them
/// where there is none.
pub open spec fn first_sep(s: Seq<char>, sep: char) -> int
    decreases s.len(),
{
    if s.len() == 0 || s[0] == sep {
        0
    } else {
        1 + first_sep(s.drop_first(), sep)
    }
}

/// The pieces of `s` between the occurrences of `sep`: one more than there
/// are occurrences, some of them empty.
pub open spec fn split(s: Seq<char>, sep: char) -> Seq<Seq<char>>
    decreases s.len(),
{
    let n = first_sep(s, sep);
    if 0 <= n < s.len() {
        seq![s.take(n)] + split(s.skip(n + 1), sep)
    } else {
        seq![s]
    }
}

/// How many white-space characters `s` begins with.
pub open spec fn lead(s: Seq<char>) -> int
    decreases s.len(),
{
    if s.len() > 0 && is_space(s[0]) {
        1 + lead(s.drop_first())
    } else {
        0
    }
}

/// How many white-space characters `s` ends with.
pub open spec fn trail(s: Seq<char>) -> int
    decreases s.len(),
{
    if s.len() > 0 && is_space(s.last()) {
        1 + trail(s.drop_last())
    } else {
        0
    }
}

/// `s` without the white space at its two ends.
pub open spec fn trim(s: Seq<char>) -> Seq<char> {
    if lead(s) >= s.len() {
        Seq::empty()
    } else {
        s.subrange(lead(s), s.len() - trail(s))
    }
}

/// `first_sep` is the place of the first `sep`: nothing before it is `sep`,
/// and it is the only such place.
pub proof fn lemma_first_sep(s: Seq<char>, sep: char, n: int)
    requires
        0 <= n <= s.len(),
        forall|i: int| 0 <= i < n ==> s[i] != sep,
        n < s.len() ==> s[n] == sep,
    ensures
        first_sep(s, sep) == n,
    decreases n,
{
    if n > 0 {
        lemma_first_sep(s.drop_first(), sep, n - 1);
    }
}

/// `lead` counts the white space that `s` begins with.
pub proof fn lemma_lead(s: Seq<char>, n: int)
    requires
        0 <= n <= s.len(),
        forall|i: int| 0 <= i < n ==> is_space(s[i]),
        n < s.len() ==> !is_space(s[n]),
    ensures
        lead(s) == n,
    decreases n,
{
    if n > 0 {
        lemma_lead(s.drop_first(), n - 1);
    }
}

/// `trail` counts the white space that `s` ends with.
pub proof fn lemma_trail(s: Seq<char>, n: int)
    requires
        0 <= n <= s.len(),
        forall|i: int| s.len() - n <= i < s.len() ==> is_space(s[i]),
        n < s.len() ==> !is_space(s[s.len() - n - 1]),
    ensures
        trail(s) == n,
    decreases n,
{
    if n > 0 {
        lemma_trail(s.drop_last(), n - 1);
    }
}

/// The pieces of `chars` between the occurrences of `sep`, each as the pair
/// of the places where it begins and ends.
pub(crate) fn cut(chars: &Vec<char>, sep: char) -> (pieces: Vec<(usize, usize)>)
    ensures
        pieces.len() == split(chars@, sep).len(),
        forall|k: int|
            0 <= k < pieces.len() ==> (#[trigger] pieces[k]).0 <= pieces[k].1 <= chars.len()
                && split(chars@, sep)[k] == chars@.subrange(pieces[k].0 as int, pieces[k].1 as int),
{
    let mut pieces: Vec<(usize, usize)> = Vec::new();
    let mut start: usize = 0;
    let mut i: usize = 0;
    let ghost mut done: Seq<Seq<char>> = Seq::empty();
    proof {
        assert(chars@.skip(0) =~= chars@);
        assert(done + split(chars@, sep) =~= split(chars@, sep));
    }
    while i < chars.len()
        invariant
            start <= i <= chars.len(),
            forall|j: int| start <= j < i ==> chars@[j] != sep,
            split(chars@, sep) == done + split(chars@.skip(start as int), sep),
            pieces.len() == done.len(),
            forall|k: int|
                0 <= k < pieces.len() ==> (#[trigger] pieces[k]).0 <= pieces[k].1 <= chars.len()
                    && done[k] == chars@.subrange(pieces[k].0 as int, pieces[k].1 as int),
        decreases chars.len() - i,
    {
        if chars[i] == sep {
            proof {
                let rest = chars@.skip(start as int);
                lemma_first_sep(rest, sep, i - start);
                assert(rest.take(i - start) =~= chars@.subrange(start as int, i as int));
                assert(rest.skip(i - start + 1) =~= chars@.skip(i + 1));
                assert(done + (seq![rest.take(i - start)] + split(chars@.skip(i + 1), sep))
                    =~= done.push(rest.take(i - start)) + split(chars@.skip(i + 1), sep));
                done = done.push(rest.take(i - start));
            }
            pieces.push((start, i));
            start = i + 1;
        }
        i += 1;
    }
    proof {
        let rest = chars@.skip(start as int);
        lemma_first_sep(rest, sep, rest.len() as int);
        assert(rest =~= chars@.subrange(start as int, chars.len() as int));
        assert(done + seq![rest] =~= done.push(rest));
        done = done.push(rest);
    }
    pieces.push((start, chars.len()));
    pieces
}

/// The places where `chars[from..to]` begins and ends once the white space
/// at its two ends is left out.
pub(crate) fn trim_bounds(chars: &Vec<char>, from: usize, to: usize) -> (bounds: (usize, usize))
    requires
        from <= to <= chars.len(),
    ensures
        from <= bounds.0 <= bounds.1 <= to,
        chars@.subrange(bounds.0 as int, bounds.1 as int) == trim(
            chars@.subrange(from as int, to as int),
        ),
{
    let ghost piece = chars@.subrange(from as int, to as int);
    let mut a: usize = from;
    while a < to && is_whitespace(chars[a])
        invariant
            from <= a <= to <= chars.len(),
            forall|i: int| from <= i < a ==> is_space(chars@[i]),
        decreases to - a,
    {
        a += 1;
    }
    proof {
        assert forall|i: int| 0 <= i < a - from implies is_space(piece[i]) by {
            assert(piece[i] == chars@[from + i]);
        }
        lemma_lead(piece, a - from);
    }
    if a == to {
        assert(chars@.subrange(a as int, a as int) =~= Seq::empty());
        return (a, a);
    }
    let mut b: usize = to;
    while b > a && is_whitespace(chars[b - 1])
        invariant
            a <= b <= to <= chars.len(),
            a < to,
            !is_space(chars@[a as int]),
            forall|i: int| b <= i < to ==> is_space(chars@[i]),
        decreases b,
    {
        b -= 1;
    }
    proof {
        assert(b > a);
        assert forall|i: int| piece.len() - (to - b) <= i < piece.len() implies is_space(
            piece[i],
        ) by {
            assert(piece[i] == chars@[from + i]);
        }
        assert(piece[piece.len() - (to - b) - 1] == chars@[b - 1]);
        lemma_trail(piece, to - b);
        assert(piece.subrange(a - from, piece.len() - (to - b)) =~= chars@.subrange(
            a as int,
            b as int,
        ));
    }
    (a, b)
}

} // verus!
