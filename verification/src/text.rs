//! Text helpers: the conversions between `str`, `String`, `Vec<char>` and UTF-8
//! bytes that the rest of the library works with, and decimal formatting.

use vstd::prelude::*;
use vstd::utf8::*;
use vstd::string::*;

verus! {

broadcast use vstd::utf8::encode_utf8_decode_utf8;

/// Equality of two string slices by their characters.
pub fn str_eq(a: &str, b: &str) -> (r: bool)
    ensures
        r == (a@ == b@),
{
    let x = a.as_bytes();
    let y = b.as_bytes();
    if x.len() != y.len() {
        proof {
            if a@ == b@ {
                assert(x@ == y@);
            }
        }
        return false;
    }
    let mut i: usize = 0;
    while i < x.len()
        invariant
            x@.len() == y@.len(),
            x@ == a.spec_bytes(),
            y@ == b.spec_bytes(),
            i <= x@.len(),
            forall|j: int| 0 <= j < i ==> x@[j] == y@[j],
        decreases x@.len() - i,
    {
        if x[i] != y[i] {
            proof {
                if a@ == b@ {
                    assert(x@ == y@);
                }
            }
            return false;
        }
        i = i + 1;
    }
    proof {
        assert(x@ =~= y@);
        assert(decode_utf8(encode_utf8(a@)) == a@);
        assert(decode_utf8(encode_utf8(b@)) == b@);
    }
    true
}

/// `str::chars` collected into a vector.
#[verifier::external_body]
pub(crate) fn str_to_chars(s: &str) -> (r: Vec<char>)
    ensures
        r@ == s@,
{
    s.chars().collect()
}

/// A `String` collected from characters.
#[verifier::external_body]
pub(crate) fn chars_to_string(v: &[char]) -> (r: String)
    ensures
        r@ == v@,
{
    v.iter().collect()
}

/// `std::str::from_utf8`: the text the bytes encode, if they are valid UTF-8.
#[verifier::external_body]
pub(crate) fn utf8_decode(b: &[u8]) -> (r: Option<String>)
    ensures
        r is Some <==> valid_utf8(b@),
        r matches Some(s) ==> s@ == decode_utf8(b@),
{
    std::str::from_utf8(b).ok().map(|s| s.to_string())
}

/// The UTF-8 bytes of a string, as a vector.
pub fn str_to_bytes(s: &str) -> (r: Vec<u8>)
    ensures
        r@ == s.spec_bytes(),
        r@ == encode_utf8(s@),
{
    let b = s.as_bytes();
    vstd::slice::slice_to_vec(b)
}

/// Appends all of `src` to `dst`.
pub fn push_all<T: Copy>(dst: &mut Vec<T>, src: &[T])
    ensures
        final(dst)@ == old(dst)@ + src@,
{
    let mut i: usize = 0;
    let ghost start = dst@;
    while i < src.len()
        invariant
            i <= src@.len(),
            dst@ == start + src@.subrange(0, i as int),
        decreases src@.len() - i,
    {
        dst.push(src[i]);
        i = i + 1;
        assert(dst@ =~= start + src@.subrange(0, i as int));
    }
    assert(src@.subrange(0, src@.len() as int) =~= src@);
}

/// Appends the characters of a string slice to `dst`.
pub fn push_str(dst: &mut Vec<char>, s: &str)
    ensures
        final(dst)@ == old(dst)@ + s@,
{
    let v = str_to_chars(s);
    push_all(dst, v.as_slice());
}

/// The decimal digit character for `d < 10`.
pub open spec fn digit_char(d: nat) -> char {
    ((48 + d) as u8) as char
}

/// Decimal representation of a natural number, without leading zeros ("0" for zero).
pub open spec fn decimal(n: nat) -> Seq<char>
    decreases n,
{
    if n < 10 {
        seq![digit_char(n)]
    } else {
        decimal(n / 10).push(digit_char(n % 10))
    }
}

/// Decimal representation of a signed integer, with a leading `-` when negative.
pub open spec fn decimal_int(n: int) -> Seq<char> {
    if n < 0 {
        seq!['-'] + decimal((-n) as nat)
    } else {
        decimal(n as nat)
    }
}

/// The decimal digits of `n`, as `u64::to_string` writes them.
pub fn u64_to_decimal(n: u64) -> (r: Vec<char>)
    ensures
        r@ == decimal(n as nat),
    decreases n,
{
    if n < 10 {
        let mut v: Vec<char> = Vec::new();
        v.push(((48 + n) as u8) as char);
        proof {
            assert(v@ =~= seq![digit_char(n as nat)]);
        }
        v
    } else {
        let mut v = u64_to_decimal(n / 10);
        v.push(((48 + n % 10) as u8) as char);
        v
    }
}

/// The decimal digits of `n`, as `usize::to_string` writes them.
pub fn usize_to_decimal(n: usize) -> (r: Vec<char>)
    ensures
        r@ == decimal(n as nat),
{
    u64_to_decimal(n as u64)
}

/// The decimal representation of `n`, as `i64::to_string` writes it.
pub fn i64_to_decimal(n: i64) -> (r: Vec<char>)
    ensures
        r@ == decimal_int(n as int),
{
    if n < 0 {
        let m: u64 = if n == i64::MIN {
            9223372036854775808u64
        } else {
            (-n) as u64
        };
        let digits = u64_to_decimal(m);
        let mut v: Vec<char> = Vec::new();
        v.push('-');
        push_all(&mut v, digits.as_slice());
        proof {
            assert(v@ =~= seq!['-'] + decimal((-n) as nat));
        }
        v
    } else {
        u64_to_decimal(n as u64)
    }
}

/// `i64::to_string`.
pub fn i64_to_string(n: i64) -> (r: String)
    ensures
        r@ == decimal_int(n as int),
{
    let v = i64_to_decimal(n);
    chars_to_string(v.as_slice())
}

/// `usize::to_string`.
pub fn usize_to_string(n: usize) -> (r: String)
    ensures
        r@ == decimal(n as nat),
{
    let v = usize_to_decimal(n);
    chars_to_string(v.as_slice())
}

} // verus!

verus! {

/// Unicode `White_Space` (the Unicode Character Database's PropList), which
/// `char::is_whitespace` tests: tab to carriage return, space, next line,
/// no-break space, ogham space mark, en quad to hair space, line and
/// paragraph separators, narrow no-break space, medium mathematical space,
/// ideographic space.
#[verifier::opaque]
pub open spec fn unicode_whitespace(c: char) -> bool {
    let u = c as u32;
    ||| 0x09 <= u <= 0x0D
    ||| u == 0x20
    ||| u == 0x85
    ||| u == 0xA0
    ||| u == 0x1680
    ||| 0x2000 <= u <= 0x200A
    ||| u == 0x2028
    ||| u == 0x2029
    ||| u == 0x202F
    ||| u == 0x205F
    ||| u == 0x3000
}

/// Unicode alphabetic-or-numeric, as `char::is_alphanumeric` decides it.
pub uninterp spec fn unicode_alphanumeric(c: char) -> bool;

/// The Unicode lower-case mapping of a string, as `str::to_lowercase` computes it.
pub uninterp spec fn lowercase_of(s: Seq<char>) -> Seq<char>;

/// `char::is_whitespace`.
#[verifier::external_body]
pub(crate) fn char_is_whitespace(c: char) -> (r: bool)
    ensures
        r == unicode_whitespace(c),
{
    c.is_whitespace()
}

/// `char::is_alphanumeric`.
#[verifier::external_body]
pub(crate) fn char_is_alphanumeric(c: char) -> (r: bool)
    ensures
        r == unicode_alphanumeric(c),
{
    c.is_alphanumeric()
}

/// `str::to_lowercase`.
#[verifier::external_body]
pub(crate) fn to_lowercase(s: &str) -> (r: String)
    ensures
        r@ == lowercase_of(s@),
{
    s.to_lowercase()
}

/// Number of leading characters of `s` that are Unicode whitespace.
pub open spec fn leading_ws(s: Seq<char>) -> nat
    decreases s.len(),
{
    if s.len() > 0 && unicode_whitespace(s[0]) {
        1 + leading_ws(s.drop_first())
    } else {
        0
    }
}

/// Number of trailing characters of `s` that are Unicode whitespace.
pub open spec fn trailing_ws(s: Seq<char>) -> nat
    decreases s.len(),
{
    if s.len() > 0 && unicode_whitespace(s.last()) {
        1 + trailing_ws(s.drop_last())
    } else {
        0
    }
}

/// `str::trim`: the text without leading and trailing whitespace.
pub open spec fn trim_spec(s: Seq<char>) -> Seq<char> {
    let lead = leading_ws(s) as int;
    if lead == s.len() {
        Seq::empty()
    } else {
        s.subrange(lead, s.len() - trailing_ws(s) as int)
    }
}

proof fn lemma_leading_ws_le(s: Seq<char>)
    ensures
        leading_ws(s) <= s.len(),
    decreases s.len(),
{
    if s.len() > 0 && unicode_whitespace(s[0]) {
        lemma_leading_ws_le(s.drop_first());
    }
}

proof fn lemma_trailing_ws_le(s: Seq<char>)
    ensures
        trailing_ws(s) <= s.len(),
    decreases s.len(),
{
    if s.len() > 0 && unicode_whitespace(s.last()) {
        lemma_trailing_ws_le(s.drop_last());
    }
}

/// Trailing whitespace never reaches into a non-whitespace character.
proof fn lemma_trim_bounds(s: Seq<char>)
    ensures
        leading_ws(s) <= s.len(),
        trailing_ws(s) <= s.len(),
        leading_ws(s) < s.len() ==> leading_ws(s) + trailing_ws(s) <= s.len(),
    decreases s.len(),
{
    lemma_leading_ws_le(s);
    lemma_trailing_ws_le(s);
    if leading_ws(s) < s.len() && s.len() > 0 && unicode_whitespace(s.last()) {
        let t = s.drop_last();
        if leading_ws(s) == t.len() {
            // the only non-whitespace character would be the last one
            lemma_leading_all(s, t.len() as int);
        } else {
            lemma_leading_drop_last(s);
            lemma_trim_bounds(t);
        }
    }
}

proof fn lemma_leading_all(s: Seq<char>, n: int)
    requires
        0 <= n < s.len(),
        leading_ws(s) == n,
        n == s.len() - 1,
    ensures
        !unicode_whitespace(s.last()),
    decreases s.len(),
{
    if n > 0 {
        lemma_leading_all(s.drop_first(), n - 1);
        assert(s.drop_first().last() == s.last());
    }
}

proof fn lemma_leading_drop_last(s: Seq<char>)
    requires
        s.len() > 0,
        leading_ws(s) < s.len() - 1,
    ensures
        leading_ws(s.drop_last()) == leading_ws(s),
    decreases s.len(),
{
    if unicode_whitespace(s[0]) {
        assert(s.drop_last().drop_first() =~= s.drop_first().drop_last());
        lemma_leading_drop_last(s.drop_first());
    }
}

/// Counts leading whitespace characters of `v`.
fn count_leading_ws(v: &[char]) -> (n: usize)
    ensures
        n == leading_ws(v@),
{
    let mut i: usize = 0;
    proof {
        assert(v@.subrange(0, v@.len() as int) =~= v@);
    }
    while i < v.len() && char_is_whitespace(v[i])
        invariant
            i <= v@.len(),
            forall|j: int| 0 <= j < i ==> unicode_whitespace(#[trigger] v@[j]),
            leading_ws(v@) == i + leading_ws(v@.subrange(i as int, v@.len() as int)),
        decreases v@.len() - i,
    {
        proof {
            let t = v@.subrange(i as int, v@.len() as int);
            assert(t[0] == v@[i as int]);
            assert(t.drop_first() =~= v@.subrange(i + 1, v@.len() as int));
        }
        i = i + 1;
    }
    proof {
        let t = v@.subrange(i as int, v@.len() as int);
        if i < v@.len() {
            assert(t[0] == v@[i as int]);
        }
    }
    i
}

/// Counts trailing whitespace characters of `v`.
fn count_trailing_ws(v: &[char]) -> (n: usize)
    ensures
        n == trailing_ws(v@),
{
    let mut k: usize = v.len();
    proof {
        assert(v@.subrange(0, v@.len() as int) =~= v@);
    }
    while k > 0 && char_is_whitespace(v[k - 1])
        invariant
            k <= v@.len(),
            trailing_ws(v@) == (v@.len() - k) + trailing_ws(v@.subrange(0, k as int)),
        decreases k,
    {
        proof {
            let t = v@.subrange(0, k as int);
            assert(t.last() == v@[k - 1]);
            assert(t.drop_last() =~= v@.subrange(0, k - 1));
        }
        k = k - 1;
    }
    proof {
        let t = v@.subrange(0, k as int);
        if k > 0 {
            assert(t.last() == v@[k - 1]);
        }
    }
    v.len() - k
}

/// `str::trim` on a character vector.
pub fn trim_chars(v: &[char]) -> (r: Vec<char>)
    ensures
        r@ == trim_spec(v@),
{
    let lead = count_leading_ws(v);
    proof {
        lemma_trim_bounds(v@);
    }
    if lead == v.len() {
        return Vec::new();
    }
    let trail = count_trailing_ws(v);
    let end = v.len() - trail;
    let s = vstd::slice::slice_subrange(v, lead, end);
    vstd::slice::slice_to_vec(s)
}

} // verus!

verus! {

/// What `String::from_utf8_lossy` makes of a byte sequence.
pub uninterp spec fn utf8_lossy(b: Seq<u8>) -> Seq<char>;

/// `String::from_utf8_lossy`: the text the bytes encode; a sequence that is
/// not valid UTF-8 becomes U+FFFD, and of that text only its name is stated.
#[verifier::external_body]
pub(crate) fn bytes_to_string(b: &[u8]) -> (r: String)
    ensures
        r@ == utf8_lossy(b@),
        valid_utf8(b@) ==> r@ == decode_utf8(b@),
{
    String::from_utf8_lossy(b).into_owned()
}

} // verus!

verus! {

/// Trimming that removes nothing leaves the text as it is.
pub proof fn lemma_trim_same_len(s: Seq<char>)
    ensures
        trim_spec(s).len() == s.len() ==> trim_spec(s) == s,
{
    lemma_trim_bounds(s);
    if trim_spec(s).len() == s.len() {
        if leading_ws(s) as int == s.len() {
            assert(s.len() == 0);
            assert(s =~= Seq::<char>::empty());
        } else {
            assert(s.subrange(0, s.len() as int) =~= s);
        }
    }
}

} // verus!
