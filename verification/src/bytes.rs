//! Byte-level building blocks shared by the lexer, the fast-path matchers and the
//! percent codec: byte classes, the length of a run of bytes in a class, and the
//! `memchr` searches the matchers are built on.

use vstd::prelude::*;

verus! {

/// A predicate on single bytes, as the matchers use them.
#[derive(Clone, Copy, PartialEq, Eq, Structural, Debug)]
pub enum ByteClass {
    /// The ASCII characters of Unicode `White_Space` (what the regex `\s`
    /// matches among them): `\t`, `\n`, vertical tab, form feed, `\r`, space.
    AsciiSpace,
    /// ASCII bytes that are not such white space.
    AsciiNonSpace,
    /// `0`..=`9`.
    AsciiDigit,
    /// ASCII letters, digits and `_` (the regex class `\w` on ASCII).
    Word,
    /// Exactly this byte.
    Is(u8),
    /// One of the two bytes.
    Either(u8, u8),
    /// Neither of the two bytes.
    Neither(u8, u8),
    /// Any byte but this one.
    Other(u8),
}

pub open spec fn is_ascii_ws(b: u8) -> bool {
    b == 32 || (9 <= b && b <= 13)
}

pub open spec fn is_ascii_digit(b: u8) -> bool {
    48 <= b <= 57
}

pub open spec fn is_ascii_alpha(b: u8) -> bool {
    (65 <= b <= 90) || (97 <= b <= 122)
}

pub open spec fn is_word_byte(b: u8) -> bool {
    is_ascii_alpha(b) || is_ascii_digit(b) || b == 95
}

pub open spec fn in_class(c: ByteClass, b: u8) -> bool {
    match c {
        ByteClass::AsciiSpace => is_ascii_ws(b),
        ByteClass::AsciiNonSpace => b < 128 && !is_ascii_ws(b),
        ByteClass::AsciiDigit => is_ascii_digit(b),
        ByteClass::Word => is_word_byte(b),
        ByteClass::Is(x) => b == x,
        ByteClass::Either(x, y) => b == x || b == y,
        ByteClass::Neither(x, y) => b != x && b != y,
        ByteClass::Other(x) => b != x,
    }
}

pub fn byte_in_class(c: ByteClass, b: u8) -> (r: bool)
    ensures
        r == in_class(c, b),
{
    match c {
        ByteClass::AsciiSpace => b == 32 || (9 <= b && b <= 13),
        ByteClass::AsciiNonSpace => b < 128 && !(b == 32 || (9 <= b && b <= 13)),
        ByteClass::AsciiDigit => 48 <= b && b <= 57,
        ByteClass::Word => (65 <= b && b <= 90) || (97 <= b && b <= 122) || (48 <= b && b <= 57)
            || b == 95,
        ByteClass::Is(x) => b == x,
        ByteClass::Either(x, y) => b == x || b == y,
        ByteClass::Neither(x, y) => b != x && b != y,
        ByteClass::Other(x) => b != x,
    }
}

/// Length of the longest prefix of `s` whose bytes all lie in class `c`.
pub open spec fn run_len(s: Seq<u8>, c: ByteClass) -> nat
    decreases s.len(),
{
    if s.len() == 0 {
        0
    } else if !in_class(c, s[0]) {
        0
    } else {
        1 + run_len(s.drop_first(), c)
    }
}

/// `run_len` is characterised by the first byte outside the class.
pub proof fn lemma_run_len_is(s: Seq<u8>, c: ByteClass, i: int)
    requires
        0 <= i <= s.len(),
        forall|j: int| 0 <= j < i ==> in_class(c, #[trigger] s[j]),
        i == s.len() || !in_class(c, s[i]),
    ensures
        run_len(s, c) == i,
    decreases i,
{
    if i > 0 {
        assert(in_class(c, s[0]));
        let t = s.drop_first();
        assert forall|j: int| 0 <= j < i - 1 implies in_class(c, #[trigger] t[j]) by {
            assert(t[j] == s[j + 1]);
        }
        if i < s.len() {
            assert(t[i - 1] == s[i]);
        }
        lemma_run_len_is(t, c, i - 1);
    }
}

/// What `run_len` says of the bytes before and at its end.
pub proof fn lemma_run_len_facts(s: Seq<u8>, c: ByteClass)
    ensures
        run_len(s, c) <= s.len(),
        forall|j: int| 0 <= j < run_len(s, c) ==> in_class(c, #[trigger] s[j]),
        run_len(s, c) < s.len() ==> !in_class(c, s[run_len(s, c) as int]),
    decreases s.len(),
{
    if s.len() > 0 && in_class(c, s[0]) {
        let t = s.drop_first();
        lemma_run_len_facts(t, c);
        assert forall|j: int| 0 <= j < run_len(s, c) implies in_class(c, #[trigger] s[j]) by {
            if j > 0 {
                assert(s[j] == t[j - 1]);
            }
        }
        if run_len(s, c) < s.len() {
            assert(s[run_len(s, c) as int] == t[run_len(t, c) as int]);
        }
    }
}

/// Counts the bytes of class `c` from `start` on, up to the first byte outside it.
pub fn count_run(s: &[u8], start: usize, c: ByteClass) -> (n: usize)
    requires
        start <= s@.len(),
    ensures
        n == run_len(s@.subrange(start as int, s@.len() as int), c),
        start + n <= s@.len(),
{
    let mut i = start;
    while i < s.len() && byte_in_class(c, s[i])
        invariant
            start <= i <= s@.len(),
            forall|j: int| start <= j < i ==> in_class(c, #[trigger] s@[j]),
        decreases s@.len() - i,
    {
        i = i + 1;
    }
    proof {
        let t = s@.subrange(start as int, s@.len() as int);
        assert forall|j: int| 0 <= j < i - start implies in_class(c, #[trigger] t[j]) by {
            assert(t[j] == s@[start + j]);
        }
        if i < s@.len() {
            assert(t[i - start] == s@[i as int]);
        }
        lemma_run_len_is(t, c, i - start);
    }
    i - start
}

/// `memchr::memchr`: the index of the first occurrence of `needle` in `haystack`.
#[verifier::external_body]
pub(crate) fn memchr_first(needle: u8, haystack: &[u8]) -> (r: Option<usize>)
    ensures
        r == (if run_len(haystack@, ByteClass::Other(needle)) < haystack@.len() {
            Some(run_len(haystack@, ByteClass::Other(needle)) as usize)
        } else {
            None::<usize>
        }),
{
    memchr::memchr(needle, haystack)
}

/// `memchr::memchr2`: the index of the first byte equal to `n1` or `n2`.
#[verifier::external_body]
pub(crate) fn memchr2_first(n1: u8, n2: u8, haystack: &[u8]) -> (r: Option<usize>)
    ensures
        r == (if run_len(haystack@, ByteClass::Neither(n1, n2)) < haystack@.len() {
            Some(run_len(haystack@, ByteClass::Neither(n1, n2)) as usize)
        } else {
            None::<usize>
        }),
{
    memchr::memchr2(n1, n2, haystack)
}

} // verus!

verus! {

/// ASCII lower-case of a byte (other bytes unchanged).
pub open spec fn ascii_lower(b: u8) -> u8 {
    if 65 <= b <= 90 {
        (b + 32) as u8
    } else {
        b
    }
}

/// Whether `hay` starts with `needle`.
pub open spec fn bytes_prefix(hay: Seq<u8>, needle: Seq<u8>) -> bool {
    needle.len() <= hay.len() && hay.subrange(0, needle.len() as int) == needle
}

/// Whether `hay` starts with `needle`, ASCII letters compared without case.
pub open spec fn bytes_prefix_nocase(hay: Seq<u8>, needle: Seq<u8>) -> bool {
    needle.len() <= hay.len() && forall|i: int| 0 <= i < needle.len() ==> ascii_lower(#[trigger] hay[i]) == ascii_lower(needle[i])
}

fn lower(b: u8) -> (r: u8)
    ensures
        r == ascii_lower(b),
{
    if 65 <= b && b <= 90 {
        b + 32
    } else {
        b
    }
}

/// Whether `hay` starts with `needle`.
pub fn starts_with_bytes(hay: &[u8], needle: &[u8]) -> (r: bool)
    ensures
        r == bytes_prefix(hay@, needle@),
{
    if needle.len() > hay.len() {
        return false;
    }
    let mut i: usize = 0;
    while i < needle.len()
        invariant
            needle@.len() <= hay@.len(),
            i <= needle@.len(),
            forall|k: int| 0 <= k < i ==> hay@[k] == needle@[k],
        decreases needle@.len() - i,
    {
        if hay[i] != needle[i] {
            proof {
                assert(hay@.subrange(0, needle@.len() as int)[i as int] != needle@[i as int]);
            }
            return false;
        }
        i = i + 1;
    }
    proof {
        assert(hay@.subrange(0, needle@.len() as int) =~= needle@);
    }
    true
}

/// Whether `hay` starts with `needle`, ASCII letters compared without case.
pub fn starts_with_nocase(hay: &[u8], needle: &[u8]) -> (r: bool)
    ensures
        r == bytes_prefix_nocase(hay@, needle@),
{
    if needle.len() > hay.len() {
        return false;
    }
    let mut i: usize = 0;
    while i < needle.len()
        invariant
            needle@.len() <= hay@.len(),
            i <= needle@.len(),
            forall|k: int| 0 <= k < i ==> ascii_lower(#[trigger] hay@[k]) == ascii_lower(needle@[k]),
        decreases needle@.len() - i,
    {
        if lower(hay[i]) != lower(needle[i]) {
            return false;
        }
        i = i + 1;
    }
    true
}

} // verus!
