//! Output tree builder: URL percent codec, path parsing, and the arena-backed
//! hierarchical tree that runtime actions build.

use vstd::prelude::*;
use vstd::utf8::{valid_utf8, decode_utf8, encode_utf8, encode_utf8_decode_utf8, encode_utf8_valid_utf8, is_ascii_chars, is_ascii_chars_encode_utf8};
use crate::text::{
    chars_to_string, str_to_bytes, str_to_chars, utf8_decode, trim_chars, trim_spec, to_lowercase,
    lowercase_of, leading_ws, trailing_ws, unicode_whitespace,
};

verus! {

broadcast use vstd::utf8::encode_utf8_decode_utf8;

// ---------------------------------------------------------------------------
// URL percent-encode / -decode
// ---------------------------------------------------------------------------

/// The value of a hexadecimal digit byte.
pub open spec fn hex_val_spec(b: u8) -> Option<u8> {
    if 48 <= b <= 57 {
        Some((b - 48) as u8)
    } else if 97 <= b <= 102 {
        Some((b - 87) as u8)
    } else if 65 <= b <= 70 {
        Some((b - 55) as u8)
    } else {
        None
    }
}

/// The value of a hexadecimal digit byte, if it is one.
pub fn hex_val(b: u8) -> (r: Option<u8>)
    ensures
        r == hex_val_spec(b),
        r matches Some(v) ==> v < 16,
{
    if b >= 48 && b <= 57 {
        Some(b - 48)
    } else if b >= 97 && b <= 102 {
        Some(b - 87)
    } else if b >= 65 && b <= 70 {
        Some(b - 55)
    } else {
        None
    }
}

/// Whether `s[0..3]` is an escape `%XX`.
pub open spec fn is_escape(s: Seq<u8>) -> bool {
    s.len() > 2 && s[0] == 37 && hex_val_spec(s[1]) is Some && hex_val_spec(s[2]) is Some
}

/// Decodes every `%XX` escape (two hex digits) into its byte; other bytes stay.
pub open spec fn pct_decode_bytes(s: Seq<u8>) -> Seq<u8>
    decreases s.len(),
{
    if s.len() == 0 {
        Seq::empty()
    } else if is_escape(s) {
        seq![(hex_val_spec(s[1])->0 * 16 + hex_val_spec(s[2])->0) as u8] + pct_decode_bytes(
            s.subrange(3, s.len() as int),
        )
    } else {
        seq![s[0]] + pct_decode_bytes(s.subrange(1, s.len() as int))
    }
}

/// URL percent-decoding of a text: the decoded bytes as text when they are valid
/// UTF-8, else the text unchanged.
pub open spec fn percent_decode_spec(s: Seq<char>) -> Seq<char> {
    let d = pct_decode_bytes(encode_utf8(s));
    if valid_utf8(d) {
        decode_utf8(d)
    } else {
        s
    }
}

fn percent_decode_bytes(input: &[u8]) -> (out: Vec<u8>)
    ensures
        out@ == pct_decode_bytes(input@),
{
    let mut out: Vec<u8> = Vec::new();
    let mut i: usize = 0;
    let len = input.len();
    proof {
        assert(input@.subrange(0, len as int) =~= input@);
    }
    while i < len
        invariant
            len == input@.len(),
            i <= len,
            pct_decode_bytes(input@) == out@ + pct_decode_bytes(input@.subrange(i as int, len as int)),
        decreases len - i,
    {
        let ghost t = input@.subrange(i as int, len as int);
        if input[i] == 37 && len - i > 2 {
            let hi = hex_val(input[i + 1]);
            let lo = hex_val(input[i + 2]);
            if let (Some(h), Some(l)) = (hi, lo) {
                proof {
                    assert(t[0] == input@[i as int] && t[1] == input@[i + 1] && t[2] == input@[i + 2]);
                    assert(t.subrange(3, t.len() as int) =~= input@.subrange(i + 3, len as int));
                }
                let ghost prev = out@;
                out.push(h * 16 + l);
                proof {
                    assert(out@ =~= prev + seq![(h * 16 + l) as u8]);
                    assert(prev + pct_decode_bytes(t) =~= out@ + pct_decode_bytes(input@.subrange(i + 3, len as int)));
                }
                i = i + 3;
                continue;
            }
        }
        proof {
            assert(t[0] == input@[i as int]);
            if t.len() > 2 {
                assert(t[1] == input@[i + 1] && t[2] == input@[i + 2]);
            }
            assert(t.subrange(1, t.len() as int) =~= input@.subrange(i + 1, len as int));
        }
        let ghost prev = out@;
        out.push(input[i]);
        proof {
            assert(prev + pct_decode_bytes(t) =~= out@ + pct_decode_bytes(input@.subrange(i + 1, len as int)));
        }
        i = i + 1;
    }
    proof {
        assert(input@.subrange(len as int, len as int) =~= Seq::<u8>::empty());
        assert(out@ + Seq::<u8>::empty() =~= out@);
    }
    out
}

} // verus!

verus! {

/// URL percent-decoding: decodes `%XX`
/// sequences; `+` stays.  When the decoded bytes are not UTF-8, the input is
/// returned unchanged.
pub fn percent_decode(input: &str) -> (r: String)
    ensures
        r@ == percent_decode_spec(input@),
{
    percent_decode_slow(input)
}

/// Percent-decode, taking ownership of the input.
pub fn percent_decode_owned(input: String) -> (r: String)
    ensures
        r@ == percent_decode_spec(input@),
{
    percent_decode_slow(input.as_str())
}

fn percent_decode_slow(input: &str) -> (r: String)
    ensures
        r@ == percent_decode_spec(input@),
{
    let bytes = str_to_bytes(input);
    let out = percent_decode_bytes(bytes.as_slice());
    match utf8_decode(out.as_slice()) {
        Some(s) => s,
        None => input.to_string(),
    }
}

/// Bytes that percent-encoding leaves as they are: ASCII letters and digits,
/// `-`, `_`, `.`, `~` and the space.
pub open spec fn is_url_safe(b: u8) -> bool {
    (65 <= b <= 90) || (97 <= b <= 122) || (48 <= b <= 57) || b == 45 || b == 95 || b == 46
        || b == 126 || b == 32
}

/// Upper-case hex digit for `d < 16`.
pub open spec fn hex_upper(d: int) -> char {
    if d < 10 {
        ((48 + d) as u8) as char
    } else {
        ((55 + d) as u8) as char
    }
}

pub open spec fn pct_encode_byte(b: u8) -> Seq<char> {
    if is_url_safe(b) {
        seq![b as char]
    } else {
        seq!['%', hex_upper(b as int / 16), hex_upper(b as int % 16)]
    }
}

/// Percent-encoding of a byte string.
pub open spec fn pct_encode_bytes(s: Seq<u8>) -> Seq<char>
    decreases s.len(),
{
    if s.len() == 0 {
        Seq::empty()
    } else {
        pct_encode_bytes(s.drop_last()) + pct_encode_byte(s.last())
    }
}

fn hex_upper_char(d: u8) -> (c: char)
    requires
        d < 16,
    ensures
        c == hex_upper(d as int),
{
    if d < 10 {
        (48 + d) as char
    } else {
        (55 + d) as char
    }
}

/// URL percent-encoding: every byte of the UTF-8 text outside [`is_url_safe`]
/// becomes `%XX` (upper-case hex).
pub fn percent_encode(input: &str) -> (r: String)
    ensures
        r@ == pct_encode_bytes(encode_utf8(input@)),
        forall|i: int| 0 <= i < r@.len() ==> {
            let c = #[trigger] r@[i];
            c != '/' && c != '?' && c != '&' && c != '=' && c != '"'
        },
        forall|i: int|
            0 <= i < r@.len() && #[trigger] r@[i] == '%' ==> i + 2 < r@.len() && upper_hex_char(r@[i + 1])
                && upper_hex_char(r@[i + 2]),
        (forall|i: int| 0 <= i < input@.len() ==> pct_plain_char(#[trigger] input@[i])) ==> r@ == input@,
{
    proof {
        lemma_pct_encode_no_delimiters(encode_utf8(input@));
        lemma_pct_encode_escapes(encode_utf8(input@));
        if forall|i: int| 0 <= i < input@.len() ==> pct_plain_char(#[trigger] input@[i]) {
            lemma_pct_encode_plain_text(input@);
        }
    }
    let bytes = str_to_bytes(input);
    let mut out: Vec<char> = Vec::new();
    let mut i: usize = 0;
    while i < bytes.len()
        invariant
            i <= bytes@.len(),
            out@ == pct_encode_bytes(bytes@.subrange(0, i as int)),
        decreases bytes@.len() - i,
    {
        let b = bytes[i];
        let ghost prev = out@;
        if (65 <= b && b <= 90) || (97 <= b && b <= 122) || (48 <= b && b <= 57) || b == 45 || b
            == 95 || b == 46 || b == 126 || b == 32 {
            out.push(b as char);
        } else {
            out.push('%');
            out.push(hex_upper_char(b / 16));
            out.push(hex_upper_char(b % 16));
        }
        proof {
            let t = bytes@.subrange(0, i + 1);
            assert(t.drop_last() =~= bytes@.subrange(0, i as int));
            assert(t.last() == b);
            assert(out@ =~= prev + pct_encode_byte(b));
        }
        i = i + 1;
    }
    proof {
        assert(bytes@.subrange(0, bytes@.len() as int) =~= bytes@);
    }
    chars_to_string(out.as_slice())
}

} // verus!

verus! {

/// Characters as the bytes of their (ASCII) code points.
pub open spec fn ascii_bytes(cs: Seq<char>) -> Seq<u8> {
    cs.map_values(|c: char| c as u8)
}

proof fn lemma_encode_front(b: Seq<u8>)
    requires
        b.len() > 0,
    ensures
        pct_encode_bytes(b) == pct_encode_byte(b[0]) + pct_encode_bytes(b.drop_first()),
    decreases b.len(),
{
    if b.len() == 1 {
        assert(b.drop_last() =~= Seq::<u8>::empty());
        assert(b.drop_first() =~= Seq::<u8>::empty());
        assert(pct_encode_bytes(b.drop_first()) =~= Seq::<char>::empty());
        assert(pct_encode_bytes(b) =~= pct_encode_byte(b[0]) + pct_encode_bytes(b.drop_first()));
    } else {
        lemma_encode_front(b.drop_last());
        assert(b.drop_last().drop_first() =~= b.drop_first().drop_last());
        assert(b.drop_last()[0] == b[0]);
        assert(b.drop_first().last() == b.last());
        assert(pct_encode_bytes(b) =~= pct_encode_byte(b[0]) + pct_encode_bytes(b.drop_first()));
    }
}

proof fn lemma_hex_upper(d: int)
    requires
        0 <= d < 16,
    ensures
        (hex_upper(d) as u8) as int == if d < 10 { 48 + d } else { 55 + d },
        hex_val_spec(hex_upper(d) as u8) == Some(d as u8),
        0 <= (hex_upper(d) as int) < 128,
{
    if d < 10 {
        let x: u8 = (48 + d) as u8;
        assert(x as char as u8 == x);
        assert((x as char) as int == x as int);
    } else {
        let x: u8 = (55 + d) as u8;
        assert(x as char as u8 == x);
        assert((x as char) as int == x as int);
    }
}

proof fn lemma_encode_byte_facts(b: u8)
    ensures
        is_url_safe(b) ==> ascii_bytes(pct_encode_byte(b)) == seq![b] && b != 37,
        !is_url_safe(b) ==> {
            let x = ascii_bytes(pct_encode_byte(b));
            &&& x.len() == 3
            &&& x[0] == 37
            &&& hex_val_spec(x[1]) == Some((b / 16) as u8)
            &&& hex_val_spec(x[2]) == Some((b % 16) as u8)
        },
        forall|i: int| 0 <= i < pct_encode_byte(b).len() ==> 0 <= (#[trigger] pct_encode_byte(b)[i] as int) < 128,
{
    if is_url_safe(b) {
        assert(b as char as u8 == b);
        assert((b as char) as int == b as int);
        assert(ascii_bytes(pct_encode_byte(b)) =~= seq![b]);
    } else {
        lemma_hex_upper(b as int / 16);
        lemma_hex_upper(b as int % 16);
        assert(('%' as u8) == 37u8);
        assert(('%' as int) == 37);
        let x = ascii_bytes(pct_encode_byte(b));
        assert(x[1] == hex_upper(b as int / 16) as u8);
        assert(x[2] == hex_upper(b as int % 16) as u8);
    }
}

proof fn lemma_encode_ascii(b: Seq<u8>)
    ensures
        forall|i: int| 0 <= i < pct_encode_bytes(b).len() ==> 0 <= (#[trigger] pct_encode_bytes(b)[i] as int) < 128,
    decreases b.len(),
{
    if b.len() > 0 {
        lemma_encode_ascii(b.drop_last());
        lemma_encode_byte_facts(b.last());
        let p = pct_encode_bytes(b.drop_last());
        let q = pct_encode_byte(b.last());
        assert forall|i: int| 0 <= i < pct_encode_bytes(b).len() implies 0 <= (#[trigger] pct_encode_bytes(b)[i] as int) < 128 by {
            if i < p.len() {
                assert(pct_encode_bytes(b)[i] == p[i]);
            } else {
                assert(pct_encode_bytes(b)[i] == q[i - p.len()]);
            }
        }
    }
}

proof fn lemma_decode_encode_bytes(b: Seq<u8>)
    ensures
        pct_decode_bytes(ascii_bytes(pct_encode_bytes(b))) == b,
    decreases b.len(),
{
    if b.len() == 0 {
        assert(ascii_bytes(pct_encode_bytes(b)) =~= Seq::<u8>::empty());
    } else {
        lemma_encode_front(b);
        lemma_encode_byte_facts(b[0]);
        lemma_decode_encode_bytes(b.drop_first());
        let u = ascii_bytes(pct_encode_byte(b[0]));
        let r = ascii_bytes(pct_encode_bytes(b.drop_first()));
        let x = ascii_bytes(pct_encode_bytes(b));
        assert(x =~= u + r);
        if is_url_safe(b[0]) {
            assert(x[0] == b[0]);
            assert(!is_escape(x));
            assert(x.subrange(1, x.len() as int) =~= r);
            assert(pct_decode_bytes(x) == seq![x[0]] + pct_decode_bytes(x.subrange(1, x.len() as int)));
            assert(pct_decode_bytes(x) =~= b);
        } else {
            assert(x[0] == 37 && x[1] == u[1] && x[2] == u[2]);
            assert(is_escape(x));
            let v = (hex_val_spec(x[1])->0 * 16 + hex_val_spec(x[2])->0) as u8;
            assert(v == b[0]) by {
                assert((b[0] / 16) * 16 + b[0] % 16 == b[0]);
            }
            assert(x.subrange(3, x.len() as int) =~= r);
            assert(pct_decode_bytes(x) =~= b);
        }
    }
}

/// Percent-decoding undoes percent-encoding: a text encoded into a path and
/// decoded back is the same text.
pub proof fn lemma_percent_roundtrip(s: Seq<char>)
    ensures
        percent_decode_spec(pct_encode_bytes(encode_utf8(s))) == s,
{
    let b = encode_utf8(s);
    let e = pct_encode_bytes(b);
    lemma_encode_ascii(b);
    assert(is_ascii_chars(e)) by {
        assert forall|i: int| 0 <= i < e.len() implies '\0' <= #[trigger] e[i] <= '\u{7f}' by {
            assert((e[i] as int) < 128);
            assert(('\u{7f}' as int) == 127);
            assert((e[i] as int) <= ('\u{7f}' as int));
            assert(e[i] <= '\u{7f}');
            assert(('\0' as int) == 0);
            assert(e[i] as int >= 0);
            assert('\0' <= e[i]);
        }
    }
    is_ascii_chars_encode_utf8(e);
    assert(encode_utf8(e) =~= ascii_bytes(e));
    lemma_decode_encode_bytes(b);
    encode_utf8_valid_utf8(s);
    encode_utf8_decode_utf8(s);
}

/// The characters percent-encoding writes: ASCII letters and digits, `-`, `_`,
/// `.`, `~`, the space and `%`.
pub open spec fn pct_output_char(c: char) -> bool {
    let u = c as int;
    ||| 65 <= u <= 90
    ||| 97 <= u <= 122
    ||| 48 <= u <= 57
    ||| u == 45 || u == 95 || u == 46 || u == 126 || u == 32 || u == 37
}

proof fn lemma_hex_upper_output(d: int)
    requires
        0 <= d < 16,
    ensures
        pct_output_char(hex_upper(d)),
{
    if d < 10 {
        let x: u8 = (48 + d) as u8;
        assert((x as char) as int == x as int);
    } else {
        let x: u8 = (55 + d) as u8;
        assert((x as char) as int == x as int);
    }
}

/// The characters percent-encoding leaves as they are: ASCII letters and
/// digits, `-`, `_`, `.`, `~` and the space.
pub open spec fn pct_plain_char(c: char) -> bool {
    let u = c as int;
    ||| 65 <= u <= 90
    ||| 97 <= u <= 122
    ||| 48 <= u <= 57
    ||| u == 45 || u == 95 || u == 46 || u == 126 || u == 32
}

/// An upper-case hexadecimal digit (`0`-`9`, `A`-`F`).
pub open spec fn upper_hex_char(c: char) -> bool {
    (48 <= c as int <= 57) || (65 <= c as int <= 70)
}

proof fn lemma_hex_upper_is_upper(d: int)
    requires
        0 <= d < 16,
    ensures
        upper_hex_char(hex_upper(d)),
{
    if d < 10 {
        let x: u8 = (48 + d) as u8;
        assert((x as char) as int == x as int);
    } else {
        let x: u8 = (55 + d) as u8;
        assert((x as char) as int == x as int);
    }
}

/// Every `%` that percent-encoding writes starts an escape: it is followed by
/// two upper-case hexadecimal digits.
pub proof fn lemma_pct_encode_escapes(b: Seq<u8>)
    ensures
        forall|i: int|
            0 <= i < pct_encode_bytes(b).len() && #[trigger] pct_encode_bytes(b)[i] == '%' ==> i + 2
                < pct_encode_bytes(b).len() && upper_hex_char(pct_encode_bytes(b)[i + 1]) && upper_hex_char(
                pct_encode_bytes(b)[i + 2],
            ),
    decreases b.len(),
{
    if b.len() > 0 {
        lemma_pct_encode_escapes(b.drop_last());
        let p = pct_encode_bytes(b.drop_last());
        let x = b.last();
        let q = pct_encode_byte(x);
        let e = pct_encode_bytes(b);
        assert(e =~= p + q);
        assert(('%' as int) == 37);
        if is_url_safe(x) {
            assert((x as char) as int == x as int);
            assert(q[0] != '%');
        } else {
            lemma_hex_upper_is_upper(x as int / 16);
            lemma_hex_upper_is_upper(x as int % 16);
            assert(q[1] != '%' && q[2] != '%');
        }
        assert forall|i: int| 0 <= i < e.len() && #[trigger] e[i] == '%' implies i + 2 < e.len() && upper_hex_char(
            e[i + 1],
        ) && upper_hex_char(e[i + 2]) by {
            if i < p.len() {
                assert(e[i] == p[i]);
                assert(p[i] == '%');
                assert(e[i + 1] == p[i + 1] && e[i + 2] == p[i + 2]);
            } else {
                assert(e[i] == q[i - p.len()]);
                assert(i == p.len());
                assert(e[i + 1] == q[1] && e[i + 2] == q[2]);
            }
        }
    }
}

/// Text made only of ASCII letters and digits, `-`, `_`, `.`, `~` and spaces
/// is percent-encoded as itself.
pub proof fn lemma_pct_encode_plain_text(s: Seq<char>)
    requires
        forall|i: int| 0 <= i < s.len() ==> pct_plain_char(#[trigger] s[i]),
    ensures
        pct_encode_bytes(encode_utf8(s)) == s,
{
    assert(is_ascii_chars(s)) by {
        assert forall|i: int| 0 <= i < s.len() implies '\0' <= #[trigger] s[i] <= '\u{7f}' by {
            assert(pct_plain_char(s[i]));
            assert(('\u{7f}' as int) == 127);
            assert(('\0' as int) == 0);
            assert((s[i] as int) <= ('\u{7f}' as int));
            assert(s[i] <= '\u{7f}');
            assert('\0' <= s[i]);
        }
    }
    is_ascii_chars_encode_utf8(s);
    lemma_pct_encode_plain_bytes(s, encode_utf8(s));
}

proof fn lemma_pct_encode_plain_bytes(s: Seq<char>, b: Seq<u8>)
    requires
        b.len() == s.len(),
        forall|i: int| 0 <= i < s.len() ==> pct_plain_char(#[trigger] s[i]),
        forall|i: int| 0 <= i < s.len() ==> #[trigger] b[i] == s[i] as u8,
    ensures
        pct_encode_bytes(b) == s,
    decreases b.len(),
{
    if b.len() > 0 {
        let n = b.len() - 1;
        lemma_pct_encode_plain_bytes(s.drop_last(), b.drop_last());
        let c = s[n];
        assert(pct_plain_char(c));
        assert(b[n] == c as u8);
        assert((b[n] as int) == (c as int));
        assert(is_url_safe(b[n]));
        assert((b[n] as char) == c);
        assert(pct_encode_bytes(b) =~= s);
    } else {
        assert(s =~= Seq::<char>::empty());
    }
}

/// Percent-encoding writes only ASCII letters and digits, `-`, `_`, `.`, `~`,
/// the space and `%`: none of the path and query delimiters `/`, `?`, `&`, `=`
/// and `"`, so an encoded text placed in a path stays one attribute value.
pub proof fn lemma_pct_encode_no_delimiters(b: Seq<u8>)
    ensures
        forall|i: int| 0 <= i < pct_encode_bytes(b).len() ==> pct_output_char(#[trigger] pct_encode_bytes(b)[i]),
        forall|i: int| 0 <= i < pct_encode_bytes(b).len() ==> {
            let c = #[trigger] pct_encode_bytes(b)[i];
            c != '/' && c != '?' && c != '&' && c != '=' && c != '"'
        },
    decreases b.len(),
{
    if b.len() > 0 {
        lemma_pct_encode_no_delimiters(b.drop_last());
        let p = pct_encode_bytes(b.drop_last());
        let x = b.last();
        let q = pct_encode_byte(x);
        if is_url_safe(x) {
            assert((x as char) as int == x as int);
            assert(pct_output_char(q[0]));
        } else {
            lemma_hex_upper_output(x as int / 16);
            lemma_hex_upper_output(x as int % 16);
            assert(('%' as int) == 37);
            assert(pct_output_char(q[0]));
            assert(pct_output_char(q[1]));
            assert(pct_output_char(q[2]));
        }
        assert forall|i: int| 0 <= i < pct_encode_bytes(b).len() implies pct_output_char(#[trigger] pct_encode_bytes(b)[i]) by {
            if i < p.len() {
                assert(pct_encode_bytes(b)[i] == p[i]);
            } else {
                assert(pct_encode_bytes(b)[i] == q[i - p.len()]);
            }
        }
    }
    assert(('/' as int) == 47 && ('?' as int) == 63 && ('&' as int) == 38 && ('=' as int) == 61 && ('"' as int) == 34);
    assert forall|i: int| 0 <= i < pct_encode_bytes(b).len() implies {
        let c = #[trigger] pct_encode_bytes(b)[i];
        c != '/' && c != '?' && c != '&' && c != '=' && c != '"'
    } by {
        assert(pct_output_char(pct_encode_bytes(b)[i]));
    }
}

} // verus!

verus! {

// ---------------------------------------------------------------------------
// PathSegment + parse_path
// ---------------------------------------------------------------------------

/// Length of the prefix of `s` that does not contain `c`.
pub open spec fn prefix_without(s: Seq<char>, c: char) -> nat
    decreases s.len(),
{
    if s.len() == 0 || s[0] == c {
        0
    } else {
        1 + prefix_without(s.drop_first(), c)
    }
}

pub proof fn lemma_prefix_without(s: Seq<char>, c: char)
    ensures
        prefix_without(s, c) <= s.len(),
        forall|j: int| 0 <= j < prefix_without(s, c) ==> #[trigger] s[j] != c,
        prefix_without(s, c) < s.len() ==> s[prefix_without(s, c) as int] == c,
    decreases s.len(),
{
    if s.len() > 0 && s[0] != c {
        let t = s.drop_first();
        lemma_prefix_without(t, c);
        assert forall|j: int| 0 <= j < prefix_without(s, c) implies #[trigger] s[j] != c by {
            if j > 0 {
                assert(s[j] == t[j - 1]);
            }
        }
        if prefix_without(s, c) < s.len() {
            assert(s[prefix_without(s, c) as int] == t[prefix_without(t, c) as int]);
        }
    }
}

pub proof fn lemma_prefix_without_is(s: Seq<char>, c: char, i: int)
    requires
        0 <= i <= s.len(),
        forall|j: int| 0 <= j < i ==> #[trigger] s[j] != c,
        i == s.len() || s[i] == c,
    ensures
        prefix_without(s, c) == i,
    decreases i,
{
    if i > 0 {
        let t = s.drop_first();
        assert forall|j: int| 0 <= j < i - 1 implies #[trigger] t[j] != c by {
            assert(t[j] == s[j + 1]);
        }
        if i < s.len() {
            assert(t[i - 1] == s[i]);
        }
        lemma_prefix_without_is(t, c, i - 1);
    }
}

/// The index of the first `c` in `v` at or after `start`, if any.
pub fn find_char(v: &[char], start: usize, c: char) -> (r: Option<usize>)
    requires
        start <= v@.len(),
    ensures
        ({
            let t = v@.subrange(start as int, v@.len() as int);
            &&& r matches Some(i) ==> i == start + prefix_without(t, c) && i < v@.len()
            &&& r is None ==> prefix_without(t, c) == t.len()
        }),
{
    let mut i = start;
    while i < v.len() && v[i] != c
        invariant
            start <= i <= v@.len(),
            forall|j: int| start <= j < i ==> #[trigger] v@[j] != c,
        decreases v@.len() - i,
    {
        i = i + 1;
    }
    proof {
        let t = v@.subrange(start as int, v@.len() as int);
        assert forall|j: int| 0 <= j < i - start implies #[trigger] t[j] != c by {
            assert(t[j] == v@[start + j]);
        }
        if i < v@.len() {
            assert(t[i - start] == v@[i as int]);
        }
        lemma_prefix_without_is(t, c, i - start);
    }
    if i < v.len() {
        Some(i)
    } else {
        None
    }
}

/// The characters `v[a..b]` as a `String`.
pub fn sub_string(v: &[char], a: usize, b: usize) -> (r: String)
    requires
        a <= b <= v@.len(),
    ensures
        r@ == v@.subrange(a as int, b as int),
{
    let s = vstd::slice::slice_subrange(v, a, b);
    chars_to_string(s)
}

/// `str::replace` of one character by another.
pub open spec fn replace_char(s: Seq<char>, from: char, to: char) -> Seq<char> {
    Seq::new(s.len(), |i: int| if s[i] == from { to } else { s[i] })
}

pub fn replace_char_vec(v: &[char], from: char, to: char) -> (r: Vec<char>)
    ensures
        r@ == replace_char(v@, from, to),
{
    let mut out: Vec<char> = Vec::new();
    let mut i: usize = 0;
    while i < v.len()
        invariant
            i <= v@.len(),
            out@.len() == i,
            forall|j: int| 0 <= j < i ==> #[trigger] out@[j] == (if v@[j] == from { to } else { v@[j] }),
        decreases v@.len() - i,
    {
        if v[i] == from {
            out.push(to);
        } else {
            out.push(v[i]);
        }
        i = i + 1;
    }
    assert(out@ =~= replace_char(v@, from, to));
    out
}

/// The parser's state after reading `k` characters of a path: the finished
/// segments, where the current one starts, and whether a `"` is open.
pub open spec fn split_state(p: Seq<char>, k: int) -> (Seq<Seq<char>>, int, bool)
    decreases k,
{
    if k <= 0 {
        (Seq::empty(), 0, false)
    } else {
        let prev = split_state(p, k - 1);
        let c = p[k - 1];
        if c == '"' {
            (prev.0, prev.1, !prev.2)
        } else if c == '/' && !prev.2 {
            (prev.0.push(p.subrange(prev.1, k - 1)), k, prev.2)
        } else {
            prev
        }
    }
}

/// The pieces of a path between the `/` that stand outside double quotes.
pub open spec fn split_path_spec(p: Seq<char>) -> Seq<Seq<char>> {
    let st = split_state(p, p.len() as int);
    st.0.push(p.subrange(st.1, p.len() as int))
}

proof fn lemma_split_state_start(p: Seq<char>, k: int)
    requires
        0 <= k <= p.len(),
    ensures
        0 <= split_state(p, k).1 <= k,
    decreases k,
{
    if k > 0 {
        lemma_split_state_start(p, k - 1);
    }
}

/// Split a path string on `/`, respecting double-quoted attribute values.
fn split_path_segments(path: &[char]) -> (parts: Vec<Vec<char>>)
    ensures
        parts@.map_values(|v: Vec<char>| v@) =~= split_path_spec(path@),
{
    let mut parts: Vec<Vec<char>> = Vec::new();
    let mut start: usize = 0;
    let mut in_quotes = false;
    let mut i: usize = 0;
    while i < path.len()
        invariant
            i <= path@.len(),
            start <= i,
            (parts@.map_values(|v: Vec<char>| v@), start as int, in_quotes) == split_state(
                path@,
                i as int,
            ),
        decreases path@.len() - i,
    {
        let c = path[i];
        if c == '"' {
            in_quotes = !in_quotes;
        } else if c == '/' && !in_quotes {
            let piece = vstd::slice::slice_to_vec(vstd::slice::slice_subrange(path, start, i));
            let ghost prev = parts@;
            parts.push(piece);
            proof {
                assert(parts@.map_values(|v: Vec<char>| v@) =~= prev.map_values(|v: Vec<char>| v@).push(
                    path@.subrange(start as int, i as int),
                ));
            }
            start = i + 1;
        }
        i = i + 1;
    }
    let last = vstd::slice::slice_to_vec(vstd::slice::slice_subrange(path, start, path.len()));
    let ghost prev = parts@;
    parts.push(last);
    proof {
        assert(parts@.map_values(|v: Vec<char>| v@) =~= prev.map_values(|v: Vec<char>| v@).push(
            path@.subrange(start as int, path@.len() as int),
        ));
    }
    parts
}

/// The pieces of `s` between occurrences of `sep` (`str::split`).
pub open spec fn split_on(s: Seq<char>, sep: char) -> Seq<Seq<char>>
    decreases s.len(),
{
    let i = prefix_without(s, sep) as int;
    if i >= s.len() {
        seq![s]
    } else {
        seq![s.subrange(0, i)] + split_on(s.subrange(i + 1, s.len() as int), sep)
    }
}

/// A path segment: tag name plus the attributes from its `?k=v&...` query.
#[derive(Debug)]
pub struct PathSegment {
    pub tag: String,
    pub attribs: Vec<(String, String)>,
}

pub open spec fn attribs_view(a: Seq<(String, String)>) -> Seq<(Seq<char>, Seq<char>)> {
    a.map_values(|p: (String, String)| (p.0@, p.1@))
}

impl View for PathSegment {
    type V = (Seq<char>, Seq<(Seq<char>, Seq<char>)>);

    open spec fn view(&self) -> Self::V {
        (self.tag@, attribs_view(self.attribs@))
    }
}

/// An attribute value without its surrounding double quotes, if it has them.
pub open spec fn unquote_spec(v: Seq<char>) -> Seq<char> {
    if v.len() >= 2 && v[0] == '"' && v[v.len() - 1] == '"' {
        v.subrange(1, v.len() - 1)
    } else {
        v
    }
}

/// The attribute a `key=value` query piece stands for (none for pieces without `=`).
pub open spec fn pair_attrib(pair: Seq<char>) -> Option<(Seq<char>, Seq<char>)> {
    let e = prefix_without(pair, '=') as int;
    if pair.len() == 0 || e >= pair.len() {
        None
    } else {
        let key = replace_char(lowercase_of(trim_spec(pair.subrange(0, e))), ' ', '-');
        let val = unquote_spec(trim_spec(pair.subrange(e + 1, pair.len() as int)));
        Some((percent_decode_spec(key), percent_decode_spec(val)))
    }
}

/// The attributes of a list of query pieces, in order.
pub open spec fn attribs_of(pairs: Seq<Seq<char>>) -> Seq<(Seq<char>, Seq<char>)>
    decreases pairs.len(),
{
    if pairs.len() == 0 {
        Seq::empty()
    } else {
        let rest = attribs_of(pairs.drop_last());
        match pair_attrib(pairs.last()) {
            Some(a) => rest.push(a),
            None => rest,
        }
    }
}

/// The segment a non-empty path piece stands for.
pub open spec fn segment_spec(part: Seq<char>) -> (Seq<char>, Seq<(Seq<char>, Seq<char>)>) {
    let q = prefix_without(part, '?') as int;
    let tag = if q >= part.len() {
        part
    } else {
        part.subrange(0, q)
    };
    let attribs = if q >= part.len() {
        Seq::empty()
    } else {
        attribs_of(split_on(part.subrange(q + 1, part.len() as int), '&'))
    };
    (lowercase_of(replace_char(trim_spec(percent_decode_spec(tag)), ' ', '-')), attribs)
}

/// The segments of the non-empty pieces, in order.
pub open spec fn segments_of(parts: Seq<Seq<char>>) -> Seq<(Seq<char>, Seq<(Seq<char>, Seq<char>)>)>
    decreases parts.len(),
{
    if parts.len() == 0 {
        Seq::empty()
    } else {
        let rest = segments_of(parts.drop_last());
        if parts.last().len() == 0 {
            rest
        } else {
            rest.push(segment_spec(parts.last()))
        }
    }
}

/// What `parse_path` returns for a path.
pub open spec fn parse_path_spec(p: Seq<char>) -> Seq<(Seq<char>, Seq<(Seq<char>, Seq<char>)>)> {
    segments_of(split_path_spec(p))
}

/// `str::split(sep)` on a character vector.
fn split_chars(v: &[char], sep: char) -> (r: Vec<Vec<char>>)
    ensures
        r@.map_values(|x: Vec<char>| x@) =~= split_on(v@, sep),
    decreases v@.len(),
{
    let n = v.len();
    match find_char(v, 0, sep) {
        None => {
            proof {
                assert(v@.subrange(0, v@.len() as int) =~= v@);
            }
            let mut r: Vec<Vec<char>> = Vec::new();
            r.push(vstd::slice::slice_to_vec(v));
            proof {
                assert(r@.map_values(|x: Vec<char>| x@) =~= seq![v@]);
            }
            r
        },
        Some(i) => {
            proof {
                assert(v@.subrange(0, v@.len() as int) =~= v@);
                assert(i < v@.len());
            }
            let head = vstd::slice::slice_to_vec(vstd::slice::slice_subrange(v, 0, i));
            let tail_slice = vstd::slice::slice_subrange(v, i + 1, v.len());
            let rest = split_chars(tail_slice, sep);
            let mut r: Vec<Vec<char>> = Vec::new();
            r.push(head);
            let mut k: usize = 0;
            while k < rest.len()
                invariant
                    k <= rest@.len(),
                    r@.map_values(|x: Vec<char>| x@) =~= seq![v@.subrange(0, i as int)] + rest@.map_values(
                        |x: Vec<char>| x@,
                    ).subrange(0, k as int),
                decreases rest@.len() - k,
            {
                let item = vstd::slice::slice_to_vec(rest[k].as_slice());
                let ghost prev = r@;
                r.push(item);
                proof {
                    assert(r@.map_values(|x: Vec<char>| x@) =~= prev.map_values(|x: Vec<char>| x@).push(rest@[k as int]@));
                }
                k = k + 1;
            }
            proof {
                assert(rest@.map_values(|x: Vec<char>| x@).subrange(0, rest@.len() as int) =~= rest@.map_values(|x: Vec<char>| x@));
            }
            r
        },
    }
}

} // verus!

verus! {

/// The attribute a `key=value` query piece stands for.
fn pair_to_attrib(pair: &[char]) -> (r: Option<(String, String)>)
    ensures
        match r {
            Some(a) => pair_attrib(pair@) == Some((a.0@, a.1@)),
            None => pair_attrib(pair@) is None,
        },
{
    if pair.len() == 0 {
        return None;
    }
    let e = match find_char(pair, 0, '=') {
        Some(e) => e,
        None => {
            proof {
                assert(pair@.subrange(0, pair@.len() as int) =~= pair@);
            }
            return None;
        },
    };
    proof {
        assert(pair@.subrange(0, pair@.len() as int) =~= pair@);
    }
    let key_raw = vstd::slice::slice_subrange(pair, 0, e);
    let key_trim = trim_chars(key_raw);
    let key_lower = to_lowercase(chars_to_string(key_trim.as_slice()).as_str());
    let key_chars = str_to_chars(key_lower.as_str());
    let key = replace_char_vec(key_chars.as_slice(), ' ', '-');
    let val_raw = vstd::slice::slice_subrange(pair, e + 1, pair.len());
    let val_trim = trim_chars(val_raw);
    let n = val_trim.len();
    let val = if n >= 2 && val_trim[0] == '"' && val_trim[n - 1] == '"' {
        vstd::slice::slice_to_vec(vstd::slice::slice_subrange(val_trim.as_slice(), 1, n - 1))
    } else {
        val_trim
    };
    let k = percent_decode(chars_to_string(key.as_slice()).as_str());
    let v = percent_decode(chars_to_string(val.as_slice()).as_str());
    Some((k, v))
}

/// The segment a non-empty path piece stands for.
fn parse_segment(part: &[char]) -> (seg: PathSegment)
    ensures
        seg@ == segment_spec(part@),
{
    let plen = part.len();
    proof {
        assert(part@.subrange(0, part@.len() as int) =~= part@);
    }
    let q = find_char(part, 0, '?');
    let (tag_chars, attribs) = match q {
        None => (vstd::slice::slice_to_vec(part), Vec::new()),
        Some(q) => {
            let query = vstd::slice::slice_subrange(part, q + 1, part.len());
            let pairs = split_chars(query, '&');
            let mut attribs: Vec<(String, String)> = Vec::new();
            let mut i: usize = 0;
            while i < pairs.len()
                invariant
                    i <= pairs@.len(),
                    attribs_view(attribs@) =~= attribs_of(
                        pairs@.map_values(|x: Vec<char>| x@).subrange(0, i as int),
                    ),
                decreases pairs@.len() - i,
            {
                let a = pair_to_attrib(pairs[i].as_slice());
                let ghost prev = attribs@;
                proof {
                    let ps = pairs@.map_values(|x: Vec<char>| x@);
                    assert(ps.subrange(0, i + 1).drop_last() =~= ps.subrange(0, i as int));
                    assert(ps.subrange(0, i + 1).last() == pairs@[i as int]@);
                }
                match a {
                    Some(p) => {
                        attribs.push(p);
                        proof {
                            assert(attribs_view(attribs@) =~= attribs_view(prev).push((p.0@, p.1@)));
                        }
                    },
                    None => {},
                }
                i = i + 1;
            }
            proof {
                let ps = pairs@.map_values(|x: Vec<char>| x@);
                assert(ps.subrange(0, pairs@.len() as int) =~= ps);
            }
            (vstd::slice::slice_to_vec(vstd::slice::slice_subrange(part, 0, q)), attribs)
        },
    };
    let decoded = percent_decode(chars_to_string(tag_chars.as_slice()).as_str());
    let dchars = str_to_chars(decoded.as_str());
    let trimmed = trim_chars(dchars.as_slice());
    let replaced = replace_char_vec(trimmed.as_slice(), ' ', '-');
    let tag = to_lowercase(chars_to_string(replaced.as_slice()).as_str());
    PathSegment { tag, attribs }
}

proof fn lemma_split_state_no_slash(p: Seq<char>, k: int)
    requires
        0 <= k <= p.len(),
        forall|i: int| 0 <= i < p.len() ==> p[i] != '/',
    ensures
        split_state(p, k).0.len() == 0,
        split_state(p, k).1 == 0,
    decreases k,
{
    if k > 0 {
        lemma_split_state_no_slash(p, k - 1);
    }
}

/// A path with no `/` is one piece, whose segment is the whole path.
proof fn lemma_parse_path_one_piece(p: Seq<char>)
    requires
        p.len() > 0,
        forall|i: int| 0 <= i < p.len() ==> p[i] != '/',
    ensures
        parse_path_spec(p) == seq![segment_spec(p)],
{
    lemma_split_state_no_slash(p, p.len() as int);
    let st = split_state(p, p.len() as int);
    assert(st.0 =~= Seq::<Seq<char>>::empty());
    assert(p.subrange(st.1, p.len() as int) =~= p);
    let parts = split_path_spec(p);
    assert(parts =~= seq![p]);
    assert(parts.drop_last() =~= Seq::<Seq<char>>::empty());
    assert(segments_of(parts.drop_last()) =~= Seq::<(Seq<char>, Seq<(Seq<char>, Seq<char>)>)>::empty());
    assert(segments_of(parts) =~= seq![segment_spec(p)]);
}

/// A value in double quotes is neither trimmed nor kept quoted: the attribute
/// of `k="v"` (`k` without `=`) is `v`, percent-decoded.
pub proof fn lemma_quoted_pair_value(k: Seq<char>, v: Seq<char>)
    requires
        forall|i: int| 0 <= i < k.len() ==> k[i] != '=',
    ensures
        pair_attrib(k + seq!['=', '"'] + v + seq!['"']) is Some,
        (pair_attrib(k + seq!['=', '"'] + v + seq!['"'])->0).1 == percent_decode_spec(v),
{
    let pair = k + seq!['=', '"'] + v + seq!['"'];
    lemma_prefix_without_is(pair, '=', k.len() as int);
    let w = pair.subrange(k.len() as int + 1, pair.len() as int);
    assert(w =~= seq!['"'] + v + seq!['"']);
    assert(!unicode_whitespace('"')) by {
        reveal(unicode_whitespace);
    }
    assert(w[0] == '"' && w.last() == '"');
    assert(leading_ws(w) == 0);
    assert(trailing_ws(w) == 0);
    assert(trim_spec(w) =~= w);
    assert(unquote_spec(w) =~= v);
}

/// A double-quoted query value is stored without its quotes: for a path
/// `t?k="v"` whose value `v` is the percent-encoding of a text (as a captured
/// value is put into a path), the path is one segment with one attribute, and
/// that attribute's value is the text itself.
pub proof fn lemma_quoted_query_value(t: Seq<char>, k: Seq<char>, text: Seq<char>)
    requires
        forall|i: int| 0 <= i < t.len() ==> t[i] != '/' && t[i] != '?',
        forall|i: int| 0 <= i < k.len() ==> k[i] != '/' && k[i] != '&' && k[i] != '=',
    ensures
        ({
            let r = parse_path_spec(t + seq!['?'] + k + seq!['=', '"'] + pct_encode_bytes(encode_utf8(text)) + seq!['"']);
            &&& r.len() == 1
            &&& r[0].1.len() == 1
            &&& r[0].1[0].1 == text
        }),
{
    let v = pct_encode_bytes(encode_utf8(text));
    lemma_pct_encode_no_delimiters(encode_utf8(text));
    lemma_percent_roundtrip(text);
    let pair = k + seq!['=', '"'] + v + seq!['"'];
    let p = t + seq!['?'] + pair;
    assert(p =~= t + seq!['?'] + k + seq!['=', '"'] + v + seq!['"']);
    assert forall|i: int| 0 <= i < p.len() implies p[i] != '/' by {
        if i < t.len() {
            assert(p[i] == t[i]);
        } else if i == t.len() {
        } else if i < t.len() + 1 + k.len() {
            assert(p[i] == k[i - t.len() - 1]);
        } else if i < t.len() + 3 + k.len() {
        } else if i < t.len() + 3 + k.len() + v.len() {
            assert(p[i] == v[i - t.len() - 3 - k.len()]);
        }
    }
    lemma_parse_path_one_piece(p);
    lemma_prefix_without_is(p, '?', t.len() as int);
    assert(p.subrange(t.len() as int + 1, p.len() as int) =~= pair);
    assert forall|i: int| 0 <= i < pair.len() implies pair[i] != '&' by {
        if i < k.len() {
            assert(pair[i] == k[i]);
        } else if i < k.len() + 2 {
        } else if i < k.len() + 2 + v.len() {
            assert(pair[i] == v[i - k.len() - 2]);
        }
    }
    lemma_prefix_without_is(pair, '&', pair.len() as int);
    assert(split_on(pair, '&') =~= seq![pair]);
    lemma_quoted_pair_value(k, v);
    let pieces = seq![pair];
    assert(pieces.drop_last() =~= Seq::<Seq<char>>::empty());
    assert(pieces.last() == pair);
    assert(attribs_of(pieces.drop_last()) =~= Seq::<(Seq<char>, Seq<char>)>::empty());
    assert(attribs_of(pieces) =~= seq![pair_attrib(pair)->0]);
}

/// `t?k="v"` with `v` made of ASCII letters and digits, `-`, `_`, `.`, `~`
/// and spaces is one segment with one attribute whose value is `v`, without
/// the quotes.
pub proof fn lemma_quoted_plain_value(t: Seq<char>, k: Seq<char>, v: Seq<char>)
    requires
        forall|i: int| 0 <= i < t.len() ==> t[i] != '/' && t[i] != '?',
        forall|i: int| 0 <= i < k.len() ==> k[i] != '/' && k[i] != '&' && k[i] != '=',
        forall|i: int| 0 <= i < v.len() ==> pct_plain_char(#[trigger] v[i]),
    ensures
        ({
            let r = parse_path_spec(t + seq!['?'] + k + seq!['=', '"'] + v + seq!['"']);
            &&& r.len() == 1
            &&& r[0].1.len() == 1
            &&& r[0].1[0].1 == v
        }),
{
    lemma_pct_encode_plain_text(v);
    lemma_quoted_query_value(t, k, v);
}

/// Parse a slash-separated path string into [`PathSegment`]s: empty pieces are
/// dropped, `?k=v&...` queries become attributes, names are normalised.
pub fn parse_path(path: &str) -> (r: Vec<PathSegment>)
    ensures
        r@.map_values(|s: PathSegment| s@) =~= parse_path_spec(path@),
{
    let chars = str_to_chars(path);
    let parts = split_path_segments(chars.as_slice());
    let mut segments: Vec<PathSegment> = Vec::new();
    let mut i: usize = 0;
    while i < parts.len()
        invariant
            i <= parts@.len(),
            parts@.map_values(|v: Vec<char>| v@) =~= split_path_spec(path@),
            segments@.map_values(|s: PathSegment| s@) =~= segments_of(
                parts@.map_values(|v: Vec<char>| v@).subrange(0, i as int),
            ),
        decreases parts@.len() - i,
    {
        let ghost ps = parts@.map_values(|v: Vec<char>| v@);
        proof {
            assert(ps.subrange(0, i + 1).drop_last() =~= ps.subrange(0, i as int));
            assert(ps.subrange(0, i + 1).last() == parts@[i as int]@);
        }
        if parts[i].len() > 0 {
            let seg = parse_segment(parts[i].as_slice());
            let ghost prev = segments@;
            segments.push(seg);
            proof {
                assert(segments@.map_values(|s: PathSegment| s@) =~= prev.map_values(|s: PathSegment| s@).push(seg@));
            }
        }
        i = i + 1;
    }
    proof {
        let ps = parts@.map_values(|v: Vec<char>| v@);
        assert(ps.subrange(0, parts@.len() as int) =~= ps);
    }
    segments
}

} // verus!

verus! {

// ---------------------------------------------------------------------------
// Node / OutputTree
// ---------------------------------------------------------------------------

/// Index into the node arena.
pub type NodeId = u32;

/// Single node in the output tree, stored in the arena.  Attributes live in the
/// tree's attribute pool at `attr_start .. attr_start + attr_len`.
#[derive(Debug)]
pub struct Node {
    pub name: String,
    pub attr_start: u32,
    pub attr_len: u32,
    pub text: Option<String>,
    pub children: Vec<NodeId>,
}

impl Node {
    /// A fresh node with no attributes, text or children.
    pub fn new(name: String) -> (r: Node)
        ensures
            r.name == name,
            r.attr_start == 0,
            r.attr_len == 0,
            r.text is None,
            r.children@.len() == 0,
    {
        Node { name, attr_start: 0, attr_len: 0, text: None, children: Vec::new() }
    }

    pub open spec fn spec_children(&self) -> Seq<NodeId> {
        self.children@
    }
}

/// Hierarchical output tree with a cursor stack.
#[derive(Debug)]
pub struct OutputTree {
    arena: Vec<Node>,
    attr_pool: Vec<(String, String)>,
    root_id: NodeId,
    stack: Vec<NodeId>,
}

/// The largest number of nodes (and of pooled attributes) a tree holds; node ids
/// and attribute offsets are 32-bit.
pub open spec fn tree_capacity() -> int {
    4294967295
}

/// Whether two attribute lists hold the same pairs, in order.
pub fn attrs_eq(a: &[(String, String)], b: &[(String, String)]) -> (r: bool)
    ensures
        r == (attribs_view(a@) == attribs_view(b@)),
{
    if a.len() != b.len() {
        proof {
            if attribs_view(a@) == attribs_view(b@) {
                assert(attribs_view(a@).len() == a@.len());
            }
        }
        return false;
    }
    let mut i: usize = 0;
    while i < a.len()
        invariant
            a@.len() == b@.len(),
            i <= a@.len(),
            forall|j: int| 0 <= j < i ==> #[trigger] attribs_view(a@)[j] == attribs_view(b@)[j],
        decreases a@.len() - i,
    {
        if a[i].0 != b[i].0 || a[i].1 != b[i].1 {
            proof {
                if attribs_view(a@) == attribs_view(b@) {
                    assert(attribs_view(a@)[i as int] == attribs_view(b@)[i as int]);
                }
            }
            return false;
        }
        i = i + 1;
    }
    assert(attribs_view(a@) =~= attribs_view(b@));
    true
}

/// What opening or entering a path does to the scope stack: one node pushed
/// when the path is not empty and the tree has room for it, else nothing.
/// The node pushed hangs under the node that the path but its last segment
/// walks to from the old cursor: it is a child there that the last segment
/// names, or that node itself for a final `.`.
pub open spec fn scope_pushed(new: OutputTree, old: OutputTree, segs: Seq<PathSegment>) -> bool {
    if segs.len() > 0 && old.room_for(segs) {
        let p = walk_spec(&new, old.spec_stack().last() as int, segs.drop_last());
        let top = new.spec_stack().last();
        &&& new.spec_stack().len() == old.spec_stack().len() + 1
        &&& new.spec_stack().drop_last() == old.spec_stack()
        &&& p is Some
        &&& segs.last().tag@ == "."@ ==> top == p->0
        &&& segs.last().tag@ != "."@ ==> new.spec_children(p->0).contains(top) && node_matches(&new, top as int, segs.last()@)
        &&& grew_by_chain(&new, &old)
    } else {
        new.spec_stack() == old.spec_stack()
    }
}

/// What leaving does to the scope stack: the innermost scope popped, the root
/// scope never.
pub open spec fn scope_left(new: OutputTree, old: OutputTree) -> bool {
    new.spec_stack() == if old.spec_stack().len() > 1 {
        old.spec_stack().drop_last()
    } else {
        old.spec_stack()
    }
}

impl OutputTree {
    /// Structural invariant: the root is node 0, the cursor stack is never empty
    /// and points into the arena, attribute ranges lie in the pool, and every
    /// child id is a node allocated after its parent.
    pub closed spec fn wf(&self) -> bool {
        &&& 1 <= self.arena@.len() <= tree_capacity()
        &&& self.attr_pool@.len() <= tree_capacity()
        &&& self.root_id == 0
        &&& self.stack@.len() >= 1
        &&& forall|i: int| 0 <= i < self.stack@.len() ==> #[trigger] self.stack@[i] < self.arena@.len()
        &&& forall|n: int|
            0 <= n < self.arena@.len() ==> #[trigger] self.arena@[n].attr_start
                + self.arena@[n].attr_len <= self.attr_pool@.len()
        &&& forall|n: int, k: int|
            0 <= n < self.arena@.len() && 0 <= k < self.arena@[n].children@.len() ==> n
                < #[trigger] self.arena@[n].children@[k] < self.arena@.len()
    }

    /// A well-formed tree always has a current scope.
    pub proof fn lemma_stack_nonempty(t: OutputTree)
        requires
            t.wf(),
        ensures
            t.spec_stack().len() >= 1,
    {
    }

    /// Leaving right after opening or entering a path the tree has room for
    /// returns to the scope that was current before.
    pub proof fn lemma_open_then_leave(before: OutputTree, opened: OutputTree, after: OutputTree, segs: Seq<PathSegment>)
        requires
            before.wf(),
            segs.len() > 0,
            before.room_for(segs),
            scope_pushed(opened, before, segs),
            scope_left(after, opened),
        ensures
            after.spec_stack() == before.spec_stack(),
    {
        assert(before.spec_stack().len() >= 1);
    }

    /// Leaving at the root scope changes nothing on the scope stack.
    pub proof fn lemma_leave_at_root(before: OutputTree, after: OutputTree)
        requires
            before.wf(),
            before.spec_stack().len() == 1,
            scope_left(after, before),
        ensures
            after.spec_stack() == before.spec_stack(),
    {
    }

    /// The node arena.
    pub closed spec fn spec_arena(&self) -> Seq<Node> {
        self.arena@
    }

    /// The attribute pool.
    pub closed spec fn spec_pool(&self) -> Seq<(String, String)> {
        self.attr_pool@
    }

    /// Number of nodes in the arena.
    pub closed spec fn spec_node_count(&self) -> nat {
        self.arena@.len()
    }

    /// The cursor stack, innermost node last.
    pub closed spec fn spec_stack(&self) -> Seq<NodeId> {
        self.stack@
    }

    /// The name of a node.
    pub closed spec fn spec_name(&self, id: int) -> Seq<char> {
        self.arena@[id].name@
    }

    /// The text of a node.
    pub closed spec fn spec_text(&self, id: int) -> Option<Seq<char>> {
        match self.arena@[id].text {
            Some(t) => Some(t@),
            None => None,
        }
    }

    /// The attributes of a node, in order.
    pub closed spec fn spec_attrs(&self, id: int) -> Seq<(Seq<char>, Seq<char>)> {
        attribs_view(
            self.attr_pool@.subrange(
                self.arena@[id].attr_start as int,
                self.arena@[id].attr_start + self.arena@[id].attr_len,
            ),
        )
    }

    /// The children of a node, in order.
    pub closed spec fn spec_children(&self, id: int) -> Seq<NodeId> {
        self.arena@[id].children@
    }

    /// A tree holding only the root node, named `.`, with the cursor on it.
    pub fn new() -> (r: OutputTree)
        ensures
            r.wf(),
            r.spec_node_count() == 1,
            r.spec_stack() == seq![0u32],
            r.spec_name(0) == "."@,
            r.spec_text(0) is None,
            r.spec_attrs(0).len() == 0,
            r.spec_children(0).len() == 0,
    {
        OutputTree::with_capacity_hint(0)
    }

    /// As [`OutputTree::new`]; the hint only sizes the initial allocation.
    pub fn with_capacity_hint(input_bytes: usize) -> (r: OutputTree)
        ensures
            r.wf(),
            r.spec_node_count() == 1,
            r.spec_stack() == seq![0u32],
            r.spec_name(0) == "."@,
            r.spec_text(0) is None,
            r.spec_attrs(0).len() == 0,
            r.spec_children(0).len() == 0,
    {
        let estimated_nodes: usize = if input_bytes > 0 {
            let e = input_bytes / 1024 * 45;
            if e > 1024 { e } else { 1024 }
        } else {
            1024
        };
        let mut arena: Vec<Node> = Vec::with_capacity(estimated_nodes);
        arena.push(Node::new(".".to_string()));
        let mut stack: Vec<NodeId> = Vec::new();
        stack.push(0);
        let r = OutputTree { arena, attr_pool: Vec::new(), root_id: 0, stack };
        proof {
            assert(r.attr_pool@.subrange(0, 0) =~= Seq::<(String, String)>::empty());
        }
        r
    }

    /// Number of nodes allocated in the arena.
    pub fn node_count(&self) -> (r: usize)
        ensures
            r == self.spec_node_count(),
    {
        self.arena.len()
    }

    /// Number of children of the root node.
    pub fn root_child_count(&self) -> (r: usize)
        requires
            self.wf(),
        ensures
            r == self.spec_children(0).len(),
    {
        self.arena[0].children.len()
    }

    /// The current cursor node.
    fn cursor(&self) -> (r: NodeId)
        requires
            self.wf(),
        ensures
            r == self.spec_stack().last(),
            r < self.spec_node_count(),
    {
        self.stack[self.stack.len() - 1]
    }

    /// Pops the cursor stack, never below the root.
    pub fn leave(&mut self)
        requires
            old(self).wf(),
        ensures
            final(self).wf(),
            final(self).spec_stack() == (if old(self).spec_stack().len() > 1 {
                old(self).spec_stack().drop_last()
            } else {
                old(self).spec_stack()
            }),
            scope_left(*final(self), *old(self)),
            final(self).spec_arena() == old(self).spec_arena(),
            final(self).spec_pool() == old(self).spec_pool(),
    {
        if self.stack.len() > 1 {
            self.stack.pop();
        }
    }

    /// Renames the root node.
    pub fn set_root_name(&mut self, name: &str)
        requires
            old(self).wf(),
        ensures
            final(self).wf(),
            final(self).spec_name(0) == name@,
            final(self).spec_node_count() == old(self).spec_node_count(),
            forall|i: int| 1 <= i < old(self).spec_node_count() ==> #[trigger] final(self).spec_arena()[i] == old(self).spec_arena()[i],
            final(self).spec_stack() == old(self).spec_stack(),
    {
        self.arena[0].name = name.to_string();
    }
}

} // verus!

verus! {

/// Whether a node is the one a path segment names: same tag, same attributes.
pub open spec fn node_matches(tree: &OutputTree, id: int, seg: (Seq<char>, Seq<(Seq<char>, Seq<char>)>)) -> bool {
    tree.spec_name(id) == seg.0 && tree.spec_attrs(id) == seg.1
}

/// The first node of `ks` that `seg` names.
pub open spec fn first_match_in(t: &OutputTree, ks: Seq<NodeId>, seg: (Seq<char>, Seq<(Seq<char>, Seq<char>)>)) -> Option<int>
    decreases ks.len(),
{
    if ks.len() == 0 {
        None
    } else if node_matches(t, ks[0] as int, seg) {
        Some(ks[0] as int)
    } else {
        first_match_in(t, ks.drop_first(), seg)
    }
}

/// The node reached by walking `segs` from node `from`: `.` stays put, any
/// other segment goes to the first child it names; `None` when some segment
/// names no child.
pub open spec fn walk_spec(t: &OutputTree, from: int, segs: Seq<PathSegment>) -> Option<int>
    decreases segs.len(),
{
    if segs.len() == 0 {
        Some(from)
    } else {
        match walk_spec(t, from, segs.drop_last()) {
            None => None,
            Some(p) => if segs.last().tag@ == "."@ {
                Some(p)
            } else {
                first_match_in(t, t.spec_children(p), segs.last()@)
            },
        }
    }
}

/// How many nodes a walk along `segs` from `from` has to create: one for
/// each segment, `.` aside, from the first one that names no child on.
pub open spec fn missing_count(t: &OutputTree, from: int, segs: Seq<PathSegment>) -> nat
    decreases segs.len(),
{
    if segs.len() == 0 {
        0
    } else {
        let c = missing_count(t, from, segs.drop_last());
        if segs.last().tag@ == "."@ {
            c
        } else if walk_spec(t, from, segs) is None {
            c + 1
        } else {
            c
        }
    }
}

/// The segments a walk along `segs` from `from` has to create nodes for, in
/// order (see [`missing_count`]).
pub open spec fn missing_segs(t: &OutputTree, from: int, segs: Seq<PathSegment>) -> Seq<PathSegment>
    decreases segs.len(),
{
    if segs.len() == 0 {
        Seq::empty()
    } else {
        let ms = missing_segs(t, from, segs.drop_last());
        if segs.last().tag@ == "."@ {
            ms
        } else if walk_spec(t, from, segs) is None {
            ms.push(segs.last())
        } else {
            ms
        }
    }
}

/// Whether the nodes of `new` after those of `old` are named, with their
/// attributes, by `ms` in order.
pub open spec fn named_by(new: &OutputTree, old: &OutputTree, ms: Seq<PathSegment>) -> bool {
    &&& new.spec_node_count() == old.spec_node_count() + ms.len()
    &&& forall|j: int| 0 <= j < ms.len() ==> node_matches(new, old.spec_node_count() + j, #[trigger] ms[j]@)
}

/// The segments a path creates nodes for when its last segment always gets
/// a new node: those its walk but the last segment lacks, then the last one
/// (none for a final `.`).
pub open spec fn created_segs(t: &OutputTree, from: int, segs: Seq<PathSegment>) -> Seq<PathSegment> {
    missing_segs(t, from, segs.drop_last()) + if segs.last().tag@ == "."@ {
        Seq::<PathSegment>::empty()
    } else {
        seq![segs.last()]
    }
}

/// Whether `new` is `old` with a chain of nodes added: old nodes keep their
/// children, but for one that gets the first new node last; each new node has
/// the next new node as its only child, the last one none.
pub open spec fn grew_by_chain(new: &OutputTree, old: &OutputTree) -> bool {
    let n = old.spec_node_count();
    &&& n <= new.spec_node_count()
    &&& forall|i: int|
        0 <= i < n ==> #[trigger] new.spec_children(i) == old.spec_children(i) || new.spec_children(i) == old.spec_children(i).push(
            n as NodeId,
        )
    &&& forall|i: int, j: int|
        0 <= i < j < n && #[trigger] new.spec_children(i) != old.spec_children(i) ==> #[trigger] new.spec_children(j) == old.spec_children(j)
    &&& forall|i: int|
        n <= i < new.spec_node_count() ==> #[trigger] new.spec_children(i) == if i + 1 < new.spec_node_count() {
            seq![(i + 1) as NodeId]
        } else {
            Seq::<NodeId>::empty()
        }
    &&& n < new.spec_node_count() ==> exists|i: int| 0 <= i < n && #[trigger] new.spec_children(i) != old.spec_children(i)
    &&& new.spec_node_count() == n ==> forall|i: int| 0 <= i < n ==> #[trigger] new.spec_children(i) == old.spec_children(i)
}

/// A chain stays a chain when the tree changes but for texts, attributes or
/// the cursor.
proof fn lemma_chain_same(new: &OutputTree, mid: &OutputTree, old: &OutputTree)
    requires
        grew_by_chain(mid, old),
        new.spec_node_count() == mid.spec_node_count(),
        forall|i: int| 0 <= i < mid.spec_node_count() ==> #[trigger] new.spec_children(i) == mid.spec_children(i),
    ensures
        grew_by_chain(new, old),
{
    let n = old.spec_node_count();
    assert forall|i: int| 0 <= i < n implies #[trigger] new.spec_children(i) == old.spec_children(i) || new.spec_children(i)
        == old.spec_children(i).push(n as NodeId) by {
        assert(new.spec_children(i) == mid.spec_children(i));
    }
    assert forall|i: int, j: int| 0 <= i < j < n && #[trigger] new.spec_children(i) != old.spec_children(i) implies #[trigger] new.spec_children(j)
        == old.spec_children(j) by {
        assert(new.spec_children(i) == mid.spec_children(i));
        assert(new.spec_children(j) == mid.spec_children(j));
    }
    assert forall|i: int| n <= i < new.spec_node_count() implies #[trigger] new.spec_children(i) == if i + 1 < new.spec_node_count() {
        seq![(i + 1) as NodeId]
    } else {
        Seq::<NodeId>::empty()
    } by {
        assert(new.spec_children(i) == mid.spec_children(i));
    }
    if n < new.spec_node_count() {
        let w = choose|w: int| 0 <= w < n && #[trigger] mid.spec_children(w) != old.spec_children(w);
        assert(new.spec_children(w) == mid.spec_children(w));
    }
    if new.spec_node_count() == n {
        assert forall|i: int| 0 <= i < n implies #[trigger] new.spec_children(i) == old.spec_children(i) by {
            assert(new.spec_children(i) == mid.spec_children(i));
        }
    }
}

/// A chain grows by one when a node is added under its last node, or under
/// an old node when the chain is empty.
proof fn lemma_chain_extend(new: &OutputTree, mid: &OutputTree, old: &OutputTree, cur: int)
    requires
        grew_by_chain(mid, old),
        mid.spec_node_count() == old.spec_node_count() ==> 0 <= cur < old.spec_node_count(),
        mid.spec_node_count() > old.spec_node_count() ==> cur == mid.spec_node_count() - 1,
        new.spec_node_count() == mid.spec_node_count() + 1,
        new.spec_children(cur) == mid.spec_children(cur).push(mid.spec_node_count() as NodeId),
        new.spec_children(mid.spec_node_count() as int).len() == 0,
        forall|i: int| 0 <= i < mid.spec_node_count() && i != cur ==> #[trigger] new.spec_children(i) == mid.spec_children(i),
    ensures
        grew_by_chain(new, old),
{
    let n = old.spec_node_count();
    let m = mid.spec_node_count();
    if m == n {
        assert forall|i: int| 0 <= i < n implies #[trigger] new.spec_children(i) == old.spec_children(i) || new.spec_children(i)
            == old.spec_children(i).push(n as NodeId) by {
            assert(mid.spec_children(i) == old.spec_children(i));
        }
        assert forall|a: int, b: int| 0 <= a < b < n && #[trigger] new.spec_children(a) != old.spec_children(a) implies #[trigger] new.spec_children(b)
            == old.spec_children(b) by {
            assert(mid.spec_children(a) == old.spec_children(a));
            assert(mid.spec_children(b) == old.spec_children(b));
        }
        assert(new.spec_children(cur) != old.spec_children(cur)) by {
            assert(new.spec_children(cur).len() == old.spec_children(cur).len() + 1);
        }
    } else {
        assert(mid.spec_children(cur).len() == 0);
        assert(new.spec_children(cur) =~= seq![m as NodeId]);
        let w = choose|w: int| 0 <= w < n && #[trigger] mid.spec_children(w) != old.spec_children(w);
        assert(new.spec_children(w) == mid.spec_children(w));
        assert forall|a: int, b: int| 0 <= a < b < n && #[trigger] new.spec_children(a) != old.spec_children(a) implies #[trigger] new.spec_children(b)
            == old.spec_children(b) by {
            assert(new.spec_children(a) == mid.spec_children(a));
            assert(new.spec_children(b) == mid.spec_children(b));
        }
        assert forall|i: int| 0 <= i < n implies #[trigger] new.spec_children(i) == old.spec_children(i) || new.spec_children(i)
            == old.spec_children(i).push(n as NodeId) by {
            assert(new.spec_children(i) == mid.spec_children(i));
        }
    }
    assert forall|i: int| n <= i < new.spec_node_count() implies #[trigger] new.spec_children(i) == if i + 1 < new.spec_node_count() {
        seq![(i + 1) as NodeId]
    } else {
        Seq::<NodeId>::empty()
    } by {
        if i == m {
            assert(new.spec_children(i) =~= Seq::<NodeId>::empty());
        } else if i == cur {
        } else {
            assert(new.spec_children(i) == mid.spec_children(i));
        }
    }
}

/// The first match is the node at `k` when it matches and none before does;
/// there is none when none matches.
proof fn lemma_first_match_at(t: &OutputTree, ks: Seq<NodeId>, seg: (Seq<char>, Seq<(Seq<char>, Seq<char>)>), k: int)
    requires
        0 <= k <= ks.len(),
        forall|j: int| 0 <= j < k ==> !node_matches(t, #[trigger] ks[j] as int, seg),
        k < ks.len() ==> node_matches(t, ks[k] as int, seg),
    ensures
        first_match_in(t, ks, seg) == if k < ks.len() { Some(ks[k] as int) } else { None::<int> },
    decreases k,
{
    if k > 0 {
        assert(!node_matches(t, ks[0] as int, seg));
        assert forall|j: int| 0 <= j < k - 1 implies !node_matches(t, #[trigger] ks.drop_first()[j] as int, seg) by {
            assert(ks.drop_first()[j] == ks[j + 1]);
        }
        if k < ks.len() {
            assert(ks.drop_first()[k - 1] == ks[k]);
        }
        lemma_first_match_at(t, ks.drop_first(), seg, k - 1);
    }
}

/// A first match among nodes of `old` stays the first match in a tree that
/// keeps their names and attributes, the list possibly extended.
proof fn lemma_first_match_stable(
    new: &OutputTree,
    old: &OutputTree,
    ks_new: Seq<NodeId>,
    ks_old: Seq<NodeId>,
    seg: (Seq<char>, Seq<(Seq<char>, Seq<char>)>),
)
    requires
        keeps_shape(new, old),
        ks_old.is_prefix_of(ks_new),
        forall|j: int| 0 <= j < ks_old.len() ==> #[trigger] ks_old[j] < old.spec_node_count(),
        first_match_in(old, ks_old, seg) is Some,
    ensures
        first_match_in(new, ks_new, seg) == first_match_in(old, ks_old, seg),
    decreases ks_old.len(),
{
    assert(ks_new[0] == ks_old[0]);
    assert(new.spec_name(ks_old[0] as int) == old.spec_name(ks_old[0] as int));
    assert(new.spec_attrs(ks_old[0] as int) == old.spec_attrs(ks_old[0] as int));
    if !node_matches(old, ks_old[0] as int, seg) {
        assert forall|j: int| 0 <= j < ks_old.drop_first().len() implies #[trigger] ks_old.drop_first()[j] < old.spec_node_count() by {
            assert(ks_old.drop_first()[j] == ks_old[j + 1]);
        }
        assert(ks_old.drop_first().is_prefix_of(ks_new.drop_first())) by {
            assert forall|j: int| 0 <= j < ks_old.drop_first().len() implies ks_old.drop_first()[j] == ks_new.drop_first()[j] by {
                assert(ks_old[j + 1] == ks_new[j + 1]);
            }
        }
        lemma_first_match_stable(new, old, ks_new.drop_first(), ks_old.drop_first(), seg);
    }
}

/// A walk through nodes of `old` reaches the same node in a tree that keeps
/// their names, attributes and children (children possibly extended).
proof fn lemma_walk_stable(new: &OutputTree, old: &OutputTree, from: int, segs: Seq<PathSegment>)
    requires
        old.wf(),
        keeps_shape(new, old),
        0 <= from < old.spec_node_count(),
        walk_spec(old, from, segs) is Some,
    ensures
        walk_spec(new, from, segs) == walk_spec(old, from, segs),
        0 <= walk_spec(old, from, segs)->0 < old.spec_node_count(),
    decreases segs.len(),
{
    if segs.len() > 0 {
        lemma_walk_stable(new, old, from, segs.drop_last());
        let p = walk_spec(old, from, segs.drop_last())->0;
        assert(0 <= p < old.spec_node_count());
        if segs.last().tag@ != "."@ {
            let ks = old.spec_children(p);
            assert(ks.is_prefix_of(new.spec_children(p)));
            assert forall|j: int| 0 <= j < ks.len() implies #[trigger] ks[j] < old.spec_node_count() by {
                assert(old.arena@[p].children@[j] == ks[j]);
            }
            lemma_first_match_stable(new, old, new.spec_children(p), ks, segs.last()@);
            lemma_first_match_in_bound(old, ks, segs.last()@);
        }
    }
}

/// A walk that reaches `p` reads only the children of nodes before `p`: it
/// reaches `p` too in a tree that agrees on those children and on every
/// node's name and attributes.
proof fn lemma_walk_below(new: &OutputTree, old: &OutputTree, from: int, segs: Seq<PathSegment>, p: int)
    requires
        old.wf(),
        0 <= from < old.spec_node_count(),
        walk_spec(old, from, segs) == Some(p),
        forall|i: int| 0 <= i < p ==> #[trigger] new.spec_children(i) == old.spec_children(i),
        forall|i: int| 0 <= i < old.spec_node_count() ==> #[trigger] new.spec_name(i) == old.spec_name(i),
        forall|i: int| 0 <= i < old.spec_node_count() ==> #[trigger] new.spec_attrs(i) == old.spec_attrs(i),
    ensures
        walk_spec(new, from, segs) == Some(p),
    decreases segs.len(),
{
    if segs.len() > 0 {
        let q = walk_spec(old, from, segs.drop_last())->0;
        lemma_walk_stable(old, old, from, segs.drop_last());
        if segs.last().tag@ == "."@ {
            lemma_walk_below(new, old, from, segs.drop_last(), p);
        } else {
            let ks = old.spec_children(q);
            lemma_first_match_in_bound(old, ks, segs.last()@);
            let j = choose|j: int| 0 <= j < ks.len() && #[trigger] ks[j] == p;
            assert(old.arena@[q].children@[j] == ks[j]);
            assert(q < p);
            lemma_walk_below(new, old, from, segs.drop_last(), q);
            assert forall|k: int| 0 <= k < ks.len() implies #[trigger] ks[k] < old.spec_node_count() by {
                assert(old.arena@[q].children@[k] == ks[k]);
            }
            lemma_first_match_same(new, old, ks, segs.last()@);
        }
    }
}

/// Nodes whose names and attributes two trees share have the same first match.
proof fn lemma_first_match_same(new: &OutputTree, old: &OutputTree, ks: Seq<NodeId>, seg: (Seq<char>, Seq<(Seq<char>, Seq<char>)>))
    requires
        forall|j: int| 0 <= j < ks.len() ==> #[trigger] ks[j] < old.spec_node_count(),
        forall|i: int| 0 <= i < old.spec_node_count() ==> #[trigger] new.spec_name(i) == old.spec_name(i),
        forall|i: int| 0 <= i < old.spec_node_count() ==> #[trigger] new.spec_attrs(i) == old.spec_attrs(i),
    ensures
        first_match_in(new, ks, seg) == first_match_in(old, ks, seg),
    decreases ks.len(),
{
    if ks.len() > 0 {
        assert(new.spec_name(ks[0] as int) == old.spec_name(ks[0] as int));
        assert(new.spec_attrs(ks[0] as int) == old.spec_attrs(ks[0] as int));
        assert forall|j: int| 0 <= j < ks.drop_first().len() implies #[trigger] ks.drop_first()[j] < old.spec_node_count() by {
            assert(ks.drop_first()[j] == ks[j + 1]);
        }
        lemma_first_match_same(new, old, ks.drop_first(), seg);
    }
}

/// A first match is one of the listed nodes.
proof fn lemma_first_match_in_bound(t: &OutputTree, ks: Seq<NodeId>, seg: (Seq<char>, Seq<(Seq<char>, Seq<char>)>))
    ensures
        first_match_in(t, ks, seg) matches Some(x) ==> exists|j: int| 0 <= j < ks.len() && #[trigger] ks[j] == x,
    decreases ks.len(),
{
    if ks.len() > 0 {
        if node_matches(t, ks[0] as int, seg) {
            assert(ks[0] == ks[0]);
        } else {
            lemma_first_match_in_bound(t, ks.drop_first(), seg);
            if first_match_in(t, ks, seg) is Some {
                let j = choose|j: int| 0 <= j < ks.drop_first().len() && #[trigger] ks.drop_first()[j] == first_match_in(t, ks, seg)->0;
                assert(ks[j + 1] == ks.drop_first()[j]);
            }
        }
    }
}

impl OutputTree {
    /// Room for one more node with `n_attrs` attributes.
    fn has_room(&self, n_attrs: usize) -> (r: bool)
        requires
            self.wf(),
        ensures
            r == (self.arena@.len() + 1 < tree_capacity() && self.attr_pool@.len() + n_attrs
                < tree_capacity()),
    {
        self.arena.len() < 4294967294 && n_attrs < 4294967295 - self.attr_pool.len()
    }

    /// Allocate a childless node named `name` with the given attributes and text
    /// under `parent`; returns its id.
    fn add_node(&mut self, parent: NodeId, name: String, raw: &[(String, String)], text: Option<String>) -> (id: NodeId)
        requires
            old(self).wf(),
            parent < old(self).spec_node_count(),
            old(self).arena@.len() + 1 < tree_capacity(),
            old(self).attr_pool@.len() + raw@.len() < tree_capacity(),
        ensures
            final(self).wf(),
            id == old(self).spec_node_count(),
            final(self).spec_node_count() == old(self).spec_node_count() + 1,
            final(self).spec_stack() == old(self).spec_stack(),
            final(self).spec_name(id as int) == name@,
            final(self).spec_attrs(id as int) == attribs_view(raw@),
            final(self).spec_text(id as int) == (match text {
                Some(t) => Some(t@),
                None => None::<Seq<char>>,
            }),
            final(self).spec_children(id as int).len() == 0,
            final(self).spec_pool().len() == old(self).spec_pool().len() + raw@.len(),
            final(self).spec_children(parent as int) == old(self).spec_children(parent as int).push(id),
            forall|i: int|
                0 <= i < old(self).spec_node_count() && i != parent ==> #[trigger] final(self).spec_arena()[i]
                    == old(self).spec_arena()[i],
            forall|i: int|
                0 <= i < old(self).spec_node_count() ==> #[trigger] final(self).spec_attrs(i) == old(
                    self,
                ).spec_attrs(i),
            final(self).spec_name(parent as int) == old(self).spec_name(parent as int),
            final(self).spec_text(parent as int) == old(self).spec_text(parent as int),
            keeps(final(self), old(self)),
    {
        let start = self.attr_pool.len();
        let ghost old_pool = self.attr_pool@;
        let mut i: usize = 0;
        while i < raw.len()
            invariant
                i <= raw@.len(),
                self.attr_pool@.len() == old_pool.len() + i,
                self.attr_pool@.subrange(0, old_pool.len() as int) == old_pool,
                self.attr_pool@.subrange(old_pool.len() as int, self.attr_pool@.len() as int)
                    =~= raw@.subrange(0, i as int),
                self.arena == old(self).arena,
                self.stack == old(self).stack,
                self.root_id == old(self).root_id,
            decreases raw@.len() - i,
        {
            let k = raw[i].0.clone();
            let v = raw[i].1.clone();
            let ghost prev = self.attr_pool@;
            self.attr_pool.push((k, v));
            proof {
                assert(self.attr_pool@.subrange(0, old_pool.len() as int) =~= prev.subrange(0, old_pool.len() as int));
                assert(self.attr_pool@.subrange(old_pool.len() as int, self.attr_pool@.len() as int)
                    =~= raw@.subrange(0, i + 1));
            }
            i = i + 1;
        }
        let id = self.arena.len() as NodeId;
        let node = Node { name, attr_start: start as u32, attr_len: raw.len() as u32, text, children: Vec::new() };
        self.arena.push(node);
        self.arena[parent as usize].children.push(id);
        proof {
            assert(raw@.subrange(0, raw@.len() as int) =~= raw@);
            assert forall|n: int|
                0 <= n < self.arena@.len() implies #[trigger] self.arena@[n].attr_start
                    + self.arena@[n].attr_len <= self.attr_pool@.len() by {
                if n < old(self).arena@.len() {
                    assert(self.arena@[n].attr_start == old(self).arena@[n].attr_start);
                }
            }
            assert forall|n: int, k: int|
                0 <= n < self.arena@.len() && 0 <= k < self.arena@[n].children@.len() implies n
                    < #[trigger] self.arena@[n].children@[k] < self.arena@.len() by {
                if n != parent && n < old(self).arena@.len() {
                    assert(self.arena@[n] == old(self).arena@[n]);
                } else if n == parent {
                    if k < old(self).arena@[n].children@.len() {
                        assert(self.arena@[n].children@[k] == old(self).arena@[n].children@[k]);
                    }
                }
            }
            assert forall|j: int|
                0 <= j < old(self).spec_node_count() implies #[trigger] self.spec_attrs(j) == old(
                    self,
                ).spec_attrs(j) by {
                let a = old(self).arena@[j];
                assert(self.arena@[j].attr_start == a.attr_start && self.arena@[j].attr_len == a.attr_len);
                assert(self.attr_pool@.subrange(a.attr_start as int, a.attr_start + a.attr_len)
                    =~= old(self).attr_pool@.subrange(a.attr_start as int, a.attr_start + a.attr_len));
            }
            assert(self.attr_pool@.subrange(start as int, start + raw@.len()) =~= raw@);
            assert forall|j: int| 0 <= j < old(self).spec_node_count() implies old(self).spec_children(j).is_prefix_of(
                #[trigger] self.spec_children(j)) by {
                if j != parent {
                    assert(self.arena@[j] == old(self).arena@[j]);
                    assert(self.spec_children(j) =~= old(self).spec_children(j).subrange(0, old(self).spec_children(j).len() as int));
                } else {
                    assert(self.spec_children(j).subrange(0, old(self).spec_children(j).len() as int)
                        =~= old(self).spec_children(j));
                }
            }
            assert forall|j: int| 0 <= j < old(self).spec_node_count() implies #[trigger] self.spec_name(j) == old(self).spec_name(j) by {
                if j != parent {
                    assert(self.arena@[j] == old(self).arena@[j]);
                }
            }
            assert forall|j: int| 0 <= j < old(self).spec_node_count() implies #[trigger] self.spec_text(j) == old(self).spec_text(j) by {
                if j != parent {
                    assert(self.arena@[j] == old(self).arena@[j]);
                }
            }
        }
        id
    }

    /// The index, among `parent`'s children, of the first child that `seg` names.
    fn find_child_idx(&self, parent: NodeId, seg: &PathSegment) -> (r: Option<usize>)
        requires
            self.wf(),
            parent < self.spec_node_count(),
        ensures
            match r {
                Some(k) => k < self.spec_children(parent as int).len() && node_matches(
                    self,
                    self.spec_children(parent as int)[k as int] as int,
                    seg@,
                ) && forall|j: int|
                    0 <= j < k ==> !node_matches(
                        self,
                        #[trigger] self.spec_children(parent as int)[j] as int,
                        seg@,
                    ),
                None => forall|j: int|
                    0 <= j < self.spec_children(parent as int).len() ==> !node_matches(
                        self,
                        #[trigger] self.spec_children(parent as int)[j] as int,
                        seg@,
                    ),
            },
    {
        let children = &self.arena[parent as usize].children;
        let mut i: usize = 0;
        while i < children.len()
            invariant
                self.wf(),
                parent < self.spec_node_count(),
                children@ == self.spec_children(parent as int),
                i <= children@.len(),
                forall|j: int| 0 <= j < i ==> !node_matches(self, #[trigger] children@[j] as int, seg@),
            decreases children@.len() - i,
        {
            let cid = children[i];
            assert(cid < self.arena@.len());
            let c = &self.arena[cid as usize];
            let start = c.attr_start as usize;
            let end = start + c.attr_len as usize;
            let c_attrs = vstd::slice::slice_subrange(self.attr_pool.as_slice(), start, end);
            if c.name == seg.tag && attrs_eq(c_attrs, seg.attribs.as_slice()) {
                return Some(i);
            }
            i = i + 1;
        }
        None
    }

    /// Id of the `idx`-th child of `parent`.
    fn child_node_id(&self, parent: NodeId, idx: usize) -> (r: NodeId)
        requires
            self.wf(),
            parent < self.spec_node_count(),
            idx < self.spec_children(parent as int).len(),
        ensures
            r == self.spec_children(parent as int)[idx as int],
            parent < r < self.spec_node_count(),
    {
        self.arena[parent as usize].children[idx]
    }

    /// Sets a node's text.
    fn set_text(&mut self, id: NodeId, text: Option<String>)
        requires
            old(self).wf(),
            id < old(self).spec_node_count(),
        ensures
            final(self).wf(),
            final(self).spec_node_count() == old(self).spec_node_count(),
            final(self).spec_stack() == old(self).spec_stack(),
            final(self).spec_text(id as int) == (match text {
                Some(t) => Some(t@),
                None => None::<Seq<char>>,
            }),
            final(self).spec_name(id as int) == old(self).spec_name(id as int),
            final(self).spec_children(id as int) == old(self).spec_children(id as int),
            forall|i: int|
                0 <= i < old(self).spec_node_count() && i != id ==> #[trigger] final(self).spec_arena()[i]
                    == old(self).spec_arena()[i],
            forall|i: int|
                0 <= i < old(self).spec_node_count() ==> #[trigger] final(self).spec_attrs(i) == old(
                    self,
                ).spec_attrs(i),
    {
        self.arena[id as usize].text = text;
        proof {
            assert forall|n: int, k: int|
                0 <= n < self.arena@.len() && 0 <= k < self.arena@[n].children@.len() implies n
                    < #[trigger] self.arena@[n].children@[k] < self.arena@.len() by {
                assert(self.arena@[n].children == old(self).arena@[n].children);
            }
        }
    }

    /// Appends to a node's text (sets it when there is none).
    fn append_text(&mut self, id: NodeId, t: &str)
        requires
            old(self).wf(),
            id < old(self).spec_node_count(),
        ensures
            final(self).wf(),
            final(self).spec_node_count() == old(self).spec_node_count(),
            final(self).spec_stack() == old(self).spec_stack(),
            final(self).spec_text(id as int) == (match old(self).spec_text(id as int) {
                Some(e) => Some(e + t@),
                None => Some(t@),
            }),
            final(self).spec_name(id as int) == old(self).spec_name(id as int),
            final(self).spec_children(id as int) == old(self).spec_children(id as int),
            forall|i: int|
                0 <= i < old(self).spec_node_count() && i != id ==> #[trigger] final(self).spec_arena()[i]
                    == old(self).spec_arena()[i],
            forall|i: int|
                0 <= i < old(self).spec_node_count() ==> #[trigger] final(self).spec_attrs(i) == old(
                    self,
                ).spec_attrs(i),
    {
        let new_text = match &self.arena[id as usize].text {
            Some(existing) => {
                let mut e = existing.clone();
                e.append(t);
                e
            },
            None => t.to_string(),
        };
        self.set_text(id, Some(new_text));
    }

    /// Pushes one attribute to a node; when its range is not at the end of the pool
    /// it is first copied there.  Does nothing when the pool is full.
    fn push_node_attr(&mut self, id: NodeId, key: String, value: String)
        requires
            old(self).wf(),
            id < old(self).spec_node_count(),
        ensures
            final(self).wf(),
            final(self).spec_node_count() == old(self).spec_node_count(),
            final(self).spec_stack() == old(self).spec_stack(),
            old(self).attr_pool@.len() + old(self).arena@[id as int].attr_len + 1 < tree_capacity()
                ==> final(self).spec_attrs(id as int) == old(self).spec_attrs(id as int).push((key@, value@)),
            final(self).spec_name(id as int) == old(self).spec_name(id as int),
            final(self).spec_text(id as int) == old(self).spec_text(id as int),
            final(self).spec_children(id as int) == old(self).spec_children(id as int),
            forall|i: int|
                0 <= i < old(self).spec_node_count() && i != id ==> #[trigger] final(self).spec_attrs(i) == old(
                    self,
                ).spec_attrs(i),
            forall|i: int|
                0 <= i < old(self).spec_node_count() && i != id ==> #[trigger] final(self).spec_arena()[i] == old(
                    self,
                ).spec_arena()[i],
    {
        let start = self.arena[id as usize].attr_start as usize;
        let len = self.arena[id as usize].attr_len as usize;
        if self.attr_pool.len() >= 4294967294 || len >= 4294967294 - self.attr_pool.len() {
            return;
        }
        let ghost old_pool = self.attr_pool@;
        let ghost own = old_pool.subrange(start as int, start + len);
        let end = start + len;
        if end != self.attr_pool.len() {
            let new_start = self.attr_pool.len();
            let mut j = start;
            while j < end
                invariant
                    start <= j <= end <= old_pool.len(),
                    self.attr_pool@.len() == old_pool.len() + (j - start),
                    self.attr_pool@.subrange(0, old_pool.len() as int) == old_pool,
                    self.attr_pool@.subrange(old_pool.len() as int, self.attr_pool@.len() as int)
                        =~= old_pool.subrange(start as int, j as int),
                    self.arena == old(self).arena,
                    self.stack == old(self).stack,
                    self.root_id == old(self).root_id,
                decreases end - j,
            {
                let entry = (self.attr_pool[j].0.clone(), self.attr_pool[j].1.clone());
                let ghost prev = self.attr_pool@;
                self.attr_pool.push(entry);
                proof {
                    assert(self.attr_pool@.subrange(0, old_pool.len() as int) =~= prev.subrange(0, old_pool.len() as int));
                    assert(self.attr_pool@.subrange(old_pool.len() as int, self.attr_pool@.len() as int)
                        =~= old_pool.subrange(start as int, j + 1));
                }
                j = j + 1;
            }
            self.arena[id as usize].attr_start = new_start as u32;
        }
        let ghost mid_pool = self.attr_pool@;
        self.attr_pool.push((key, value));
        self.arena[id as usize].attr_len = (len + 1) as u32;
        proof {
            let ns = self.arena@[id as int].attr_start as int;
            assert(mid_pool.subrange(ns, ns + len) =~= own);
            assert(self.attr_pool@.subrange(ns, ns + len + 1) =~= own.push((key, value)));
            assert(attribs_view(own.push((key, value))) =~= attribs_view(own).push((key@, value@)));
            assert forall|n: int|
                0 <= n < self.arena@.len() implies #[trigger] self.arena@[n].attr_start
                    + self.arena@[n].attr_len <= self.attr_pool@.len() by {
                if n != id {
                    assert(self.arena@[n] == old(self).arena@[n]);
                }
            }
            assert forall|n: int, k: int|
                0 <= n < self.arena@.len() && 0 <= k < self.arena@[n].children@.len() implies n
                    < #[trigger] self.arena@[n].children@[k] < self.arena@.len() by {
                assert(self.arena@[n].children == old(self).arena@[n].children);
            }
            assert forall|i: int|
                0 <= i < old(self).spec_node_count() && i != id implies #[trigger] self.spec_attrs(i) == old(
                    self,
                ).spec_attrs(i) by {
                let a = old(self).arena@[i];
                assert(self.arena@[i] == a);
                assert(self.attr_pool@.subrange(a.attr_start as int, a.attr_start + a.attr_len)
                    =~= old(self).attr_pool@.subrange(a.attr_start as int, a.attr_start + a.attr_len));
            }
        }
    }
}

} // verus!

verus! {

/// Total number of attributes the segments carry.
pub open spec fn attr_total(segs: Seq<PathSegment>) -> int
    decreases segs.len(),
{
    if segs.len() == 0 {
        0
    } else {
        attr_total(segs.drop_last()) + segs.last().attribs@.len()
    }
}

proof fn lemma_attr_total_prefix(segs: Seq<PathSegment>, j: int)
    requires
        0 <= j <= segs.len(),
    ensures
        0 <= attr_total(segs.subrange(0, j)) <= attr_total(segs),
    decreases segs.len() - j,
{
    if j < segs.len() {
        lemma_attr_total_prefix(segs, j + 1);
        assert(segs.subrange(0, j + 1).drop_last() =~= segs.subrange(0, j));
        lemma_attr_total_nonneg(segs.subrange(0, j));
    } else {
        assert(segs.subrange(0, j) =~= segs);
        lemma_attr_total_nonneg(segs);
    }
}

proof fn lemma_attr_total_nonneg(segs: Seq<PathSegment>)
    ensures
        attr_total(segs) >= 0,
    decreases segs.len(),
{
    if segs.len() > 0 {
        lemma_attr_total_nonneg(segs.drop_last());
    }
}

/// Whether `new` keeps every node of `old`: same name, attributes and text, and
/// the old children as a prefix of the new ones.
pub open spec fn keeps(new: &OutputTree, old: &OutputTree) -> bool {
    &&& keeps_shape(new, old)
    &&& forall|i: int| 0 <= i < old.spec_node_count() ==> #[trigger] new.spec_text(i) == old.spec_text(i)
}

/// Whether `new` keeps the names, attributes and children of every node of `old`
/// (texts may change), children possibly extended.
pub open spec fn keeps_shape(new: &OutputTree, old: &OutputTree) -> bool {
    &&& old.spec_node_count() <= new.spec_node_count()
    &&& forall|i: int| 0 <= i < old.spec_node_count() ==> #[trigger] new.spec_name(i) == old.spec_name(i)
    &&& forall|i: int| 0 <= i < old.spec_node_count() ==> #[trigger] new.spec_attrs(i) == old.spec_attrs(i)
    &&& forall|i: int|
        0 <= i < old.spec_node_count() ==> old.spec_children(i).is_prefix_of(
            #[trigger] new.spec_children(i),
        )
}

proof fn lemma_keeps_trans(a: &OutputTree, b: &OutputTree, c: &OutputTree)
    requires
        keeps(b, a),
        keeps(c, b),
    ensures
        keeps(c, a),
{
    lemma_shape_trans(a, b, c);
}

proof fn lemma_shape_trans(a: &OutputTree, b: &OutputTree, c: &OutputTree)
    requires
        keeps_shape(b, a),
        keeps_shape(c, b),
    ensures
        keeps_shape(c, a),
{
    assert forall|i: int| 0 <= i < a.spec_node_count() implies a.spec_children(i).is_prefix_of(
        #[trigger] c.spec_children(i),
    ) by {
        let x = a.spec_children(i);
        let y = b.spec_children(i);
        let z = c.spec_children(i);
        assert(x.is_prefix_of(y));
        assert(y.is_prefix_of(z));
        assert(x =~= z.subrange(0, x.len() as int));
    }
}

proof fn lemma_keeps_refl(a: &OutputTree)
    ensures
        keeps(a, a),
{
    assert forall|i: int| 0 <= i < a.spec_node_count() implies a.spec_children(i).is_prefix_of(
        #[trigger] a.spec_children(i),
    ) by {
        assert(a.spec_children(i) =~= a.spec_children(i).subrange(0, a.spec_children(i).len() as int));
    }
}

impl OutputTree {
    /// Room for the nodes and attributes the segments may add.
    pub closed spec fn room_for(&self, segs: Seq<PathSegment>) -> bool {
        &&& self.arena@.len() + segs.len() + 1 < tree_capacity()
        &&& self.attr_pool@.len() + attr_total(segs) < 2147483646
    }

    /// Whether the tree has room for what the segments may add.
    pub fn fits(&self, segs: &[PathSegment]) -> (r: bool)
        requires
            self.wf(),
        ensures
            r == self.room_for(segs@),
    {
        let n = segs.len();
        if n >= 4294967294 || self.arena.len() >= 4294967294 - n {
            return false;
        }
        if self.attr_pool.len() >= 2147483646 {
            proof {
                lemma_attr_total_nonneg(segs@);
            }
            return false;
        }
        let mut total: usize = 0;
        let mut i: usize = 0;
        let limit: usize = 2147483646 - self.attr_pool.len();
        while i < n
            invariant
                i <= n == segs@.len(),
                total == attr_total(segs@.subrange(0, i as int)),
                total < limit,
                limit == 2147483646 - self.attr_pool@.len(),
                self.wf(),
            decreases n - i,
        {
            proof {
                assert(segs@.subrange(0, i + 1).drop_last() =~= segs@.subrange(0, i as int));
            }
            let a = segs[i].attribs.len();
            if a >= limit - total {
                proof {
                    lemma_attr_total_prefix(segs@, i + 1);
                }
                return false;
            }
            total = total + a;
            i = i + 1;
        }
        proof {
            assert(segs@.subrange(0, n as int) =~= segs@);
        }
        true
    }

    /// Whether a segment is the `.` that stands for the current node.
    fn is_dot(seg: &PathSegment) -> (r: bool)
        ensures
            r == (seg.tag@ == "."@),
    {
        crate::text::str_eq(seg.tag.as_str(), ".")
    }

    /// Walks from the cursor along the first `upto` segments: `.` stays put; any
    /// other segment descends into the first child it names, created (without
    /// text) when there is none.  Returns the node reached.
    fn walk(&mut self, segs: &[PathSegment], upto: usize) -> (cur: NodeId)
        requires
            old(self).wf(),
            upto <= segs@.len(),
            old(self).room_for(segs@),
        ensures
            final(self).wf(),
            final(self).spec_stack() == old(self).spec_stack(),
            cur < final(self).spec_node_count(),
            keeps(final(self), old(self)),
            final(self).spec_node_count() <= old(self).spec_node_count() + upto,
            final(self).spec_pool().len() <= old(self).spec_pool().len() + attr_total(
                segs@.subrange(0, upto as int),
            ),
            (forall|k: int| 0 <= k < upto ==> (#[trigger] segs@[k]).tag@ == "."@) ==> cur
                == old(self).spec_stack().last(),
            upto > 0 && segs@[upto - 1].tag@ != "."@ ==> node_matches(
                final(self),
                cur as int,
                segs@[upto - 1]@,
            ),
            forall|i: int|
                old(self).spec_node_count() <= i < final(self).spec_node_count()
                    ==> (#[trigger] final(self).spec_text(i)) is None,
            walk_spec(final(self), old(self).spec_stack().last() as int, segs@.subrange(0, upto as int)) == Some(cur as int),
            final(self).spec_node_count() == old(self).spec_node_count() + missing_count(
                old(self),
                old(self).spec_stack().last() as int,
                segs@.subrange(0, upto as int),
            ),
            grew_by_chain(final(self), old(self)),
            final(self).spec_node_count() > old(self).spec_node_count() ==> cur == final(self).spec_node_count() - 1,
            named_by(final(self), old(self), missing_segs(old(self), old(self).spec_stack().last() as int, segs@.subrange(0, upto as int))),
    {
        let mut current = self.cursor();
        let ghost from = old(self).spec_stack().last() as int;
        proof {
            assert(segs@.subrange(0, 0) =~= Seq::<PathSegment>::empty());
        }
        let mut i: usize = 0;
        proof {
            lemma_keeps_refl(self);
            lemma_attr_total_prefix(segs@, upto as int);
        }
        while i < upto
            invariant
                i <= upto <= segs@.len(),
                self.wf(),
                old(self).wf(),
                old(self).room_for(segs@),
                self.spec_stack() == old(self).spec_stack(),
                current < self.spec_node_count(),
                keeps(self, old(self)),
                self.spec_node_count() <= old(self).spec_node_count() + i,
                self.spec_pool().len() <= old(self).spec_pool().len() + attr_total(
                    segs@.subrange(0, i as int),
                ),
                attr_total(segs@.subrange(0, upto as int)) <= attr_total(segs@),
                (forall|k: int| 0 <= k < i ==> (#[trigger] segs@[k]).tag@ == "."@) ==> current
                    == old(self).spec_stack().last(),
                i > 0 && segs@[i - 1].tag@ != "."@ ==> node_matches(self, current as int, segs@[i - 1]@),
                forall|j: int|
                    old(self).spec_node_count() <= j < self.spec_node_count()
                        ==> (#[trigger] self.spec_text(j)) is None,
                from == old(self).spec_stack().last() as int,
                0 <= from < old(self).spec_node_count(),
                walk_spec(self, from, segs@.subrange(0, i as int)) == Some(current as int),
                self.spec_node_count() == old(self).spec_node_count() + missing_count(old(self), from, segs@.subrange(0, i as int)),
                grew_by_chain(self, old(self)),
                named_by(self, old(self), missing_segs(old(self), from, segs@.subrange(0, i as int))),
                missing_segs(old(self), from, segs@.subrange(0, i as int)).len() == missing_count(old(self), from, segs@.subrange(0, i as int)),
                missing_count(old(self), from, segs@.subrange(0, i as int)) == 0 ==> walk_spec(old(self), from, segs@.subrange(0, i as int))
                    == Some(current as int),
                missing_count(old(self), from, segs@.subrange(0, i as int)) > 0 ==> walk_spec(old(self), from, segs@.subrange(0, i as int)) is None
                    && current == self.spec_node_count() - 1,
            decreases upto - i,
        {
            let seg = &segs[i];
            proof {
                assert(segs@.subrange(0, i + 1).drop_last() =~= segs@.subrange(0, i as int));
                assert(segs@.subrange(0, i + 1).last() == segs@[i as int]);
            }
            proof {
                assert(segs@.subrange(0, i + 1).drop_last() =~= segs@.subrange(0, i as int));
                lemma_attr_total_prefix(segs@, i + 1);
                lemma_attr_total_prefix(segs@, i as int);
            }
            let ghost before = *self;
            let ghost pre = segs@.subrange(0, i as int);
            let ghost post = segs@.subrange(0, i + 1);
            let ghost mc = missing_count(old(self), from, pre);
            let ghost cur0 = current;
            proof {
                assert(post.drop_last() =~= pre);
                assert(post.last() == seg);
                if mc == 0 {
                    assert(self.spec_node_count() == old(self).spec_node_count());
                    assert(cur0 < old(self).spec_node_count()) by {
                        lemma_walk_stable(old(self), old(self), from, pre);
                    }
                    let ks = old(self).spec_children(cur0 as int);
                    assert(self.spec_children(cur0 as int) == ks);
                    assert forall|j: int| 0 <= j < ks.len() implies #[trigger] ks[j] < old(self).spec_node_count() by {
                        assert(old(self).arena@[cur0 as int].children@[j] == ks[j]);
                    }
                    lemma_first_match_same(self, old(self), ks, seg@);
                } else {
                    assert(self.spec_children(cur0 as int).len() == 0);
                }
            }
            if Self::is_dot(seg) {
                proof {
                    lemma_keeps_refl(self);
                }
            } else {
                match self.find_child_idx(current, seg) {
                    Some(idx) => {
                        proof {
                            lemma_first_match_at(self, self.spec_children(current as int), seg@, idx as int);
                        }
                        current = self.child_node_id(current, idx);
                        proof {
                            lemma_keeps_refl(self);
                        }
                    },
                    None => {
                        let ghost ks0 = self.spec_children(current as int);
                        proof {
                            lemma_first_match_at(self, ks0, seg@, ks0.len() as int);
                        }
                        let nid = self.add_node(current, seg.tag.clone(), seg.attribs.as_slice(), None);
                        proof {
                            let n = old(self).spec_node_count();
                            assert forall|q: int| 0 <= q < n && q != cur0 implies #[trigger] self.spec_children(q) == before.spec_children(q) by {
                                assert(self.spec_arena()[q] == before.spec_arena()[q]);
                            }
                            if mc == 0 {
                                assert(nid == n);
                                assert forall|q: int| 0 <= q < n implies #[trigger] self.spec_children(q) == old(self).spec_children(q)
                                    || self.spec_children(q) == old(self).spec_children(q).push(n as NodeId) by {
                                    if q != cur0 {
                                        assert(before.spec_children(q) == old(self).spec_children(q));
                                    }
                                }
                                assert forall|a: int, b: int| 0 <= a < b < n && #[trigger] self.spec_children(a) != old(self).spec_children(a)
                                    implies #[trigger] self.spec_children(b) == old(self).spec_children(b) by {
                                    if a != cur0 {
                                        assert(before.spec_children(a) == old(self).spec_children(a));
                                    }
                                    assert(b != cur0);
                                    assert(before.spec_children(b) == old(self).spec_children(b));
                                }
                                assert(self.spec_children(cur0 as int) != old(self).spec_children(cur0 as int));
                            } else {
                                assert(cur0 == before.spec_node_count() - 1);
                                assert(self.spec_children(cur0 as int) =~= seq![nid]);
                                assert forall|q: int| 0 <= q < n implies #[trigger] self.spec_children(q) == before.spec_children(q) by {}
                                let w = choose|w: int| 0 <= w < n && #[trigger] before.spec_children(w) != old(self).spec_children(w);
                                assert(self.spec_children(w) != old(self).spec_children(w));
                            }
                            assert forall|q: int| n <= q < self.spec_node_count() implies #[trigger] self.spec_children(q) == if q + 1 < self.spec_node_count() {
                                seq![(q + 1) as NodeId]
                            } else {
                                Seq::<NodeId>::empty()
                            } by {
                                if q == nid {
                                } else if q == cur0 {
                                } else {
                                    assert(self.spec_arena()[q] == before.spec_arena()[q]);
                                }
                            }
                            lemma_walk_stable(self, &before, from, segs@.subrange(0, i as int));
                            let ks = self.spec_children(current as int);
                            assert forall|j: int| 0 <= j < ks0.len() implies !node_matches(self, #[trigger] ks[j] as int, seg@) by {
                                assert(ks[j] == ks0[j]);
                                assert(before.arena@[current as int].children@[j] == ks0[j]);
                                assert(ks0[j] < before.spec_node_count());
                                assert(!node_matches(&before, ks0[j] as int, seg@));
                            }
                            assert(ks[ks0.len() as int] == nid);
                            assert(node_matches(self, nid as int, seg@));
                            lemma_first_match_at(self, ks, seg@, ks0.len() as int);
                        }
                        current = nid;
                    },
                }
            }
            proof {
                lemma_keeps_trans(old(self), &before, self);
            }
            i = i + 1;
        }
        current
    }
}

} // verus!

verus! {

/// A text option's view.
pub open spec fn text_view(t: Option<String>) -> Option<Seq<char>> {
    match t {
        Some(s) => Some(s@),
        None => None,
    }
}

/// A node's text after `t` is appended to it (`None` appends nothing).
pub open spec fn appended(old: Option<Seq<char>>, t: Option<Seq<char>>) -> Option<Seq<char>> {
    match t {
        None => old,
        Some(t) => match old {
            Some(e) => Some(e + t),
            None => Some(t),
        },
    }
}

/// Whether every segment is the `.` that stands for the current node.
pub open spec fn all_dots(segs: Seq<PathSegment>) -> bool {
    forall|k: int| 0 <= k < segs.len() ==> (#[trigger] segs[k]).tag@ == "."@
}

proof fn lemma_frame_one(new: &OutputTree, old: &OutputTree, id: int)
    requires
        new.spec_node_count() == old.spec_node_count(),
        0 <= id < old.spec_node_count(),
        forall|i: int| 0 <= i < old.spec_node_count() && i != id ==> #[trigger] new.spec_arena()[i] == old.spec_arena()[i],
        forall|i: int| 0 <= i < old.spec_node_count() ==> #[trigger] new.spec_attrs(i) == old.spec_attrs(i),
        new.spec_name(id) == old.spec_name(id),
        new.spec_children(id) == old.spec_children(id),
    ensures
        keeps_shape(new, old),
        forall|i: int| 0 <= i < old.spec_node_count() && i != id ==> #[trigger] new.spec_text(i) == old.spec_text(i),
{
    assert forall|i: int| 0 <= i < old.spec_node_count() implies #[trigger] new.spec_name(i) == old.spec_name(i) by {
        if i != id {
            assert(new.spec_arena()[i] == old.spec_arena()[i]);
        }
    }
    assert forall|i: int| 0 <= i < old.spec_node_count() implies old.spec_children(i).is_prefix_of(#[trigger] new.spec_children(i)) by {
        if i != id {
            assert(new.spec_arena()[i] == old.spec_arena()[i]);
        }
        assert(new.spec_children(i) =~= old.spec_children(i).subrange(0, old.spec_children(i).len() as int));
        assert(new.spec_children(i).subrange(0, old.spec_children(i).len() as int) =~= old.spec_children(i));
    }
    assert forall|i: int| 0 <= i < old.spec_node_count() && i != id implies #[trigger] new.spec_text(i) == old.spec_text(i) by {
        assert(new.spec_arena()[i] == old.spec_arena()[i]);
    }
}

impl OutputTree {
    /// Creates the path: walks (finding or creating) every segment but the last,
    /// then always adds a new leaf for the last one, with `text`.  A final `.`
    /// sets the text of the node reached instead.  Does nothing for an empty path
    /// or when the tree is full.
    pub fn create_path(&mut self, segments: &[PathSegment], text: Option<String>)
        requires
            old(self).wf(),
        ensures
            final(self).wf(),
            path_created(final(self), old(self), segments@, text_view(text)),

    {
        if segments.len() == 0 || !self.fits(segments) {
            return;
        }
        let n = segments.len();
        let cur = self.walk(segments, n - 1);
        let ghost mid = *self;
        proof {
            assert(segments@.drop_last() =~= segments@.subrange(0, n - 1));
            assert(all_dots(segments@) ==> forall|k: int| 0 <= k < n - 1 ==> (#[trigger] segments@[k]).tag@ == "."@);
        }
        let last = &segments[n - 1];
        if Self::is_dot(last) {
            self.set_text(cur, text);
            proof {
                lemma_frame_one(self, &mid, cur as int);
                lemma_shape_trans(old(self), &mid, self);
                assert(forall|i: int| 0 <= i < old(self).spec_node_count() && i != cur ==> #[trigger] self.spec_text(i) == old(self).spec_text(i));
                lemma_walk_stable(self, &mid, old(self).spec_stack().last() as int, segments@.subrange(0, n - 1));
                assert(walk_spec(self, old(self).spec_stack().last() as int, segments@) == Some(cur as int));
                assert forall|i: int| 0 <= i < mid.spec_node_count() implies #[trigger] self.spec_children(i) == mid.spec_children(i) by {
                    if i != cur {
                        assert(self.spec_arena()[i] == mid.spec_arena()[i]);
                    }
                }
                lemma_chain_same(self, &mid, old(self));
            }
        } else {
            self.add_node(cur, last.tag.clone(), last.attribs.as_slice(), text);
            proof {
                lemma_keeps_trans(old(self), &mid, self);
                lemma_walk_stable(self, &mid, old(self).spec_stack().last() as int, segments@.subrange(0, n - 1));
                assert forall|i: int| 0 <= i < mid.spec_node_count() && i != cur implies #[trigger] self.spec_children(i) == mid.spec_children(i) by {
                    assert(self.spec_arena()[i] == mid.spec_arena()[i]);
                }
                lemma_chain_extend(self, &mid, old(self), cur as int);
            }
        }
    }
}

} // verus!

verus! {

/// The text a node had before an operation: nodes created since had none.
pub open spec fn prior_text(old: &OutputTree, id: int) -> Option<Seq<char>> {
    if id < old.spec_node_count() {
        old.spec_text(id)
    } else {
        None
    }
}

impl OutputTree {
    /// Adds to the path: walks (finding or creating) every segment; the text is
    /// appended to the node the last segment names, which is created only when
    /// no child matches it.  Does nothing for an empty path or a full tree.
    pub fn add_path(&mut self, segments: &[PathSegment], text: Option<String>)
        requires
            old(self).wf(),
        ensures
            final(self).wf(),
            path_added(final(self), old(self), segments@, text_view(text)),

    {
        if segments.len() == 0 || !self.fits(segments) {
            return;
        }
        let n = segments.len();
        proof {
            assert(segments@.subrange(0, n as int) =~= segments@);
        }
        let target = self.walk(segments, n);
        let ghost before = *self;
        proof {
            if target < old(self).spec_node_count() {
                assert(self.spec_text(target as int) == old(self).spec_text(target as int));
            }
        }
        match text {
            Some(t) => {
                self.append_text(target, t.as_str());
                proof {
                    lemma_frame_one(self, &before, target as int);
                    lemma_shape_trans(old(self), &before, self);
                }
            },
            None => {
                proof {
                    lemma_keeps_refl(self);
                }
            },
        }
        proof {
            assert(forall|i: int| 0 <= i < old(self).spec_node_count() && i != target ==> #[trigger] self.spec_text(i) == old(self).spec_text(i));
            assert(self.spec_text(target as int) == appended(prior_text(old(self), target as int), text_view(text)));
            lemma_walk_stable(self, &before, old(self).spec_stack().last() as int, segments@);
            assert(all_dots(segments@) ==> target == old(self).spec_stack().last());
            assert forall|i: int| 0 <= i < before.spec_node_count() implies #[trigger] self.spec_children(i) == before.spec_children(i) by {
                if i != target {
                    assert(self.spec_arena()[i] == before.spec_arena()[i]);
                }
            }
            lemma_chain_same(self, &before, old(self));
        }
    }

    /// Attaches `name = value` to the node the path names, walking (finding or
    /// creating) every segment.  Does nothing for an empty path or a full tree.
    pub fn add_attribute(&mut self, segments: &[PathSegment], name: &str, value: &str)
        requires
            old(self).wf(),
        ensures
            final(self).wf(),
            attribute_added(final(self), old(self), segments@, name@, value@),

    {
        if segments.len() == 0 || !self.fits(segments) {
            return;
        }
        let n = segments.len();
        proof {
            assert(segments@.subrange(0, n as int) =~= segments@);
        }
        let cur = self.walk(segments, n);
        let ghost mid = *self;
        proof {
            assert(self.arena@[cur as int].attr_start + self.arena@[cur as int].attr_len <= self.attr_pool@.len());
            assert(self.attr_pool@.len() + self.arena@[cur as int].attr_len + 1 < tree_capacity());
            if segments@.last().tag@ != "."@ {
                assert(node_matches(self, cur as int, segments@[n - 1]@));
            }
        }
        self.push_node_attr(cur, name.to_string(), value.to_string());
        proof {
            assert(self.spec_attrs(cur as int).drop_last() =~= mid.spec_attrs(cur as int));
            assert forall|i: int| 0 <= i < old(self).spec_node_count() implies #[trigger] self.spec_name(i) == old(self).spec_name(i) by {
                assert(mid.spec_name(i) == old(self).spec_name(i));
                if i != cur {
                    assert(self.spec_arena()[i] == mid.spec_arena()[i]);
                }
            }
            assert forall|i: int| 0 <= i < old(self).spec_node_count() implies #[trigger] self.spec_text(i) == old(self).spec_text(i) by {
                assert(mid.spec_text(i) == old(self).spec_text(i));
                if i != cur {
                    assert(self.spec_arena()[i] == mid.spec_arena()[i]);
                }
            }
            assert forall|i: int| 0 <= i < old(self).spec_node_count() && i != cur implies #[trigger] self.spec_attrs(i) == old(self).spec_attrs(i) by {
                assert(mid.spec_attrs(i) == old(self).spec_attrs(i));
            }
            assert(all_dots(segments@) ==> cur == old(self).spec_stack().last());
            assert(0 <= cur < self.spec_node_count() && self.spec_attrs(cur as int).len() >= 1);
            assert forall|i: int| 0 <= i < mid.spec_node_count() implies #[trigger] self.spec_name(i) == mid.spec_name(i) by {
                if i != cur {
                    assert(self.spec_arena()[i] == mid.spec_arena()[i]);
                }
            }
            assert forall|i: int| 0 <= i < mid.spec_node_count() implies #[trigger] self.spec_children(i) == mid.spec_children(i) by {
                if i != cur {
                    assert(self.spec_arena()[i] == mid.spec_arena()[i]);
                }
            }
            assert(walked_to(self, &mid, old(self), segments@, cur as int));
        }
    }

    /// Opens the path: walks every segment but the last, then always adds a new
    /// node for the last one (a final `.` adds none) and pushes the node reached
    /// onto the cursor stack.  Does nothing for an empty path or a full tree.
    pub fn open_path(&mut self, segments: &[PathSegment])
        requires
            old(self).wf(),
        ensures
            final(self).wf(),
            scope_pushed(*final(self), *old(self), segments@),
            segments@.len() == 0 || !old(self).room_for(segments@) ==> *final(self) == *old(self),
            segments@.len() > 0 && old(self).room_for(segments@) ==> {
                &&& keeps(final(self), old(self))
                &&& final(self).spec_stack().len() == old(self).spec_stack().len() + 1
                &&& final(self).spec_stack().drop_last() == old(self).spec_stack()
                &&& segments@.last().tag@ != "."@ ==> {
                    let id = final(self).spec_stack().last() as int;
                    &&& id == final(self).spec_node_count() - 1
                    &&& old(self).spec_node_count() <= id
                    &&& node_matches(final(self), id, segments@.last()@)
                    &&& final(self).spec_children(id).len() == 0
                }
                &&& all_dots(segments@) ==> final(self).spec_stack().last() == old(self).spec_stack().last()
            },
            segments@.len() > 0 && old(self).room_for(segments@) ==> final(self).spec_node_count() == old(self).spec_node_count()
                + missing_count(old(self), old(self).spec_stack().last() as int, segments@.drop_last()) + if segments@.last().tag@ == "."@ {
                0int
            } else {
                1int
            },
            segments@.len() > 0 && old(self).room_for(segments@) ==> named_by(
                final(self),
                old(self),
                created_segs(old(self), old(self).spec_stack().last() as int, segments@),
            ),
    {
        if segments.len() == 0 || !self.fits(segments) {
            proof {
                assert(self.spec_stack() == old(self).spec_stack());
            }
            return;
        }
        let n = segments.len();
        let mut cur = self.walk(segments, n - 1);
        let ghost mid = *self;
        proof {
            assert(segments@.drop_last() =~= segments@.subrange(0, n - 1));
            assert(all_dots(segments@) ==> forall|k: int| 0 <= k < n - 1 ==> (#[trigger] segments@[k]).tag@ == "."@);
        }
        let last = &segments[n - 1];
        let ghost cur0 = cur;
        if !Self::is_dot(last) {
            cur = self.add_node(cur, last.tag.clone(), last.attribs.as_slice(), None);
            proof {
                lemma_keeps_trans(old(self), &mid, self);
                assert forall|i: int| 0 <= i < mid.spec_node_count() && i != cur0 implies #[trigger] self.spec_children(i) == mid.spec_children(i) by {
                    assert(self.spec_arena()[i] == mid.spec_arena()[i]);
                }
                lemma_chain_extend(self, &mid, old(self), cur0 as int);
            }
        }
        let ghost before = *self;
        self.push_cursor(cur);
        proof {
            assert(self.spec_stack().drop_last() =~= old(self).spec_stack());
            assert(grew_by_chain(&before, old(self)));
            assert forall|i: int| 0 <= i < before.spec_node_count() implies #[trigger] self.spec_children(i) == before.spec_children(i) by {}
            lemma_chain_same(self, &before, old(self));
            lemma_walk_stable(&before, &mid, old(self).spec_stack().last() as int, segments@.subrange(0, n - 1));
            lemma_walk_stable(self, &before, old(self).spec_stack().last() as int, segments@.subrange(0, n - 1));
            let p = walk_spec(&mid, old(self).spec_stack().last() as int, segments@.subrange(0, n - 1))->0;
            if !(segments@.last().tag@ == "."@) {
                assert(self.spec_children(p).last() == cur);
                assert(self.spec_children(p)[self.spec_children(p).len() - 1] == cur);
            }
        }
    }

    /// Enters the path: walks (finding or creating) every segment and pushes the
    /// node reached onto the cursor stack.  Does nothing for an empty path or a
    /// full tree.
    pub fn enter_path(&mut self, segments: &[PathSegment])
        requires
            old(self).wf(),
        ensures
            final(self).wf(),
            scope_pushed(*final(self), *old(self), segments@),
            segments@.len() == 0 || !old(self).room_for(segments@) ==> *final(self) == *old(self),
            segments@.len() > 0 && old(self).room_for(segments@) ==> {
                &&& keeps(final(self), old(self))
                &&& final(self).spec_stack().len() == old(self).spec_stack().len() + 1
                &&& final(self).spec_stack().drop_last() == old(self).spec_stack()
                &&& segments@.last().tag@ != "."@ ==> node_matches(
                    final(self),
                    final(self).spec_stack().last() as int,
                    segments@.last()@,
                )
                &&& all_dots(segments@) ==> final(self).spec_stack().last() == old(self).spec_stack().last()
            },
            segments@.len() > 0 && old(self).room_for(segments@) ==> final(self).spec_node_count() == old(self).spec_node_count()
                + missing_count(old(self), old(self).spec_stack().last() as int, segments@),
            segments@.len() > 0 && old(self).room_for(segments@) ==> named_by(
                final(self),
                old(self),
                missing_segs(old(self), old(self).spec_stack().last() as int, segments@),
            ),
    {
        if segments.len() == 0 || !self.fits(segments) {
            proof {
                assert(self.spec_stack() == old(self).spec_stack());
            }
            return;
        }
        let n = segments.len();
        proof {
            assert(segments@.subrange(0, n as int) =~= segments@);
        }
        let cur = self.walk(segments, n);
        let ghost mid = *self;
        self.push_cursor(cur);
        proof {
            assert(self.spec_stack().drop_last() =~= old(self).spec_stack());
            assert forall|i: int| 0 <= i < mid.spec_node_count() implies #[trigger] self.spec_children(i) == mid.spec_children(i) by {}
            lemma_chain_same(self, &mid, old(self));
            lemma_walk_stable(self, &mid, old(self).spec_stack().last() as int, segments@);
            assert(segments@.drop_last() =~= segments@.subrange(0, n - 1));
            let p = walk_spec(self, old(self).spec_stack().last() as int, segments@.drop_last());
            if !(segments@.last().tag@ == "."@) {
                lemma_first_match_in_bound(self, self.spec_children(p->0), segments@.last()@);
            }
        }
    }

    /// Pushes a node onto the cursor stack.
    fn push_cursor(&mut self, id: NodeId)
        requires
            old(self).wf(),
            id < old(self).spec_node_count(),
        ensures
            final(self).wf(),
            final(self).spec_stack() == old(self).spec_stack().push(id),
            final(self).spec_arena() == old(self).spec_arena(),
            final(self).spec_pool() == old(self).spec_pool(),
            keeps(final(self), old(self)),
    {
        self.stack.push(id);
        proof {
            lemma_keeps_refl(self);
        }
    }
}

} // verus!

verus! {

impl OutputTree {
    /// Drops, from `parent`'s children, every child that `seg` names.
    fn remove_matching_children(&mut self, parent: NodeId, seg: &PathSegment)
        requires
            old(self).wf(),
            parent < old(self).spec_node_count(),
        ensures
            final(self).wf(),
            final(self).spec_stack() == old(self).spec_stack(),
            final(self).spec_node_count() == old(self).spec_node_count(),
            final(self).spec_pool() == old(self).spec_pool(),
            forall|i: int| 0 <= i < old(self).spec_node_count() && i != parent ==> #[trigger] final(self).spec_arena()[i] == old(self).spec_arena()[i],
            forall|i: int| 0 <= i < old(self).spec_node_count() ==> #[trigger] final(self).spec_attrs(i) == old(self).spec_attrs(i),
            forall|i: int| 0 <= i < old(self).spec_node_count() ==> #[trigger] final(self).spec_name(i) == old(self).spec_name(i),
            forall|i: int| 0 <= i < old(self).spec_node_count() ==> #[trigger] final(self).spec_text(i) == old(self).spec_text(i),
            forall|k: int|
                0 <= k < final(self).spec_children(parent as int).len() ==> {
                    &&& old(self).spec_children(parent as int).contains(#[trigger] final(self).spec_children(parent as int)[k])
                    &&& !node_matches(old(self), final(self).spec_children(parent as int)[k] as int, seg@)
                },
            forall|c: NodeId|
                #[trigger] old(self).spec_children(parent as int).contains(c) && !node_matches(old(self), c as int, seg@)
                    ==> final(self).spec_children(parent as int).contains(c),
    {
        let mut keep: Vec<NodeId> = Vec::new();
        let n = self.arena[parent as usize].children.len();
        let ghost kids = self.spec_children(parent as int);
        let mut i: usize = 0;
        while i < n
            invariant
                self.wf(),
                *self == *old(self),
                parent < self.spec_node_count(),
                kids == self.spec_children(parent as int),
                n == kids.len(),
                i <= n,
                forall|k: int| 0 <= k < keep@.len() ==> kids.contains(#[trigger] keep@[k]) && !node_matches(self, keep@[k] as int, seg@)
                    && parent < keep@[k] < self.spec_node_count(),
                forall|j: int| 0 <= j < i && !node_matches(self, kids[j] as int, seg@) ==> #[trigger] keep@.contains(kids[j]),
            decreases n - i,
        {
            let cid = self.child_node_id(parent, i);
            let c = &self.arena[cid as usize];
            let start = c.attr_start as usize;
            let end = start + c.attr_len as usize;
            let c_attrs = vstd::slice::slice_subrange(self.attr_pool.as_slice(), start, end);
            let matches = c.name == seg.tag && attrs_eq(c_attrs, seg.attribs.as_slice());
            let ghost prev = keep@;
            if !matches {
                keep.push(cid);
                proof {
                    assert(keep@.last() == cid);
                }
            }
            proof {
                assert(matches == node_matches(self, cid as int, seg@));
                assert forall|j: int| 0 <= j < i + 1 && !node_matches(self, kids[j] as int, seg@) implies #[trigger] keep@.contains(kids[j]) by {
                    if j < i {
                        assert(prev.contains(kids[j]));
                        let w = choose|w: int| 0 <= w < prev.len() && prev[w] == kids[j];
                        assert(keep@[w] == kids[j]);
                    } else {
                        assert(keep@[keep@.len() - 1] == kids[j]);
                    }
                }
                assert forall|k: int| 0 <= k < keep@.len() implies kids.contains(#[trigger] keep@[k]) && !node_matches(self, keep@[k] as int, seg@)
                    && parent < keep@[k] < self.spec_node_count() by {
                    if k < prev.len() {
                        assert(keep@[k] == prev[k]);
                    } else {
                        assert(keep@[k] == kids[i as int]);
                    }
                }
            }
            i = i + 1;
        }
        self.arena[parent as usize].children = keep;
        proof {
            assert forall|nn: int, k: int|
                0 <= nn < self.arena@.len() && 0 <= k < self.arena@[nn].children@.len() implies nn
                    < #[trigger] self.arena@[nn].children@[k] < self.arena@.len() by {
                if nn != parent {
                    assert(self.arena@[nn] == old(self).arena@[nn]);
                }
            }
            assert forall|nn: int|
                0 <= nn < self.arena@.len() implies #[trigger] self.arena@[nn].attr_start
                    + self.arena@[nn].attr_len <= self.attr_pool@.len() by {
                if nn != parent {
                    assert(self.arena@[nn] == old(self).arena@[nn]);
                }
            }
            assert forall|j: int| 0 <= j < old(self).spec_node_count() implies #[trigger] self.spec_attrs(j) == old(self).spec_attrs(j) by {
                if j != parent {
                    assert(self.arena@[j] == old(self).arena@[j]);
                }
            }
            assert forall|j: int| 0 <= j < old(self).spec_node_count() implies #[trigger] self.spec_name(j) == old(self).spec_name(j) by {
                if j != parent {
                    assert(self.arena@[j] == old(self).arena@[j]);
                }
            }
            assert forall|j: int| 0 <= j < old(self).spec_node_count() implies #[trigger] self.spec_text(j) == old(self).spec_text(j) by {
                if j != parent {
                    assert(self.arena@[j] == old(self).arena@[j]);
                }
            }
            assert forall|c: NodeId| #[trigger] old(self).spec_children(parent as int).contains(c) && !node_matches(old(self), c as int, seg@)
                implies self.spec_children(parent as int).contains(c) by {
                let j = choose|j: int| 0 <= j < kids.len() && kids[j] == c;
                assert(!node_matches(old(self), kids[j] as int, seg@));
            }
        }
    }

    /// Replaces at the path: walks (finding or creating) every segment but the
    /// last, removes every child the last segment names, then adds a new leaf for
    /// it with `text`.  A final `.` sets the text of the node reached instead.
    /// Does nothing for an empty path or a full tree.
    pub fn replace_path(&mut self, segments: &[PathSegment], text: Option<String>)
        requires
            old(self).wf(),
        ensures
            final(self).wf(),
            path_replaced(final(self), old(self), segments@, text_view(text)),

    {
        if segments.len() == 0 || !self.fits(segments) {
            return;
        }
        let n = segments.len();
        let cur = self.walk(segments, n - 1);
        let ghost mid = *self;
        proof {
            assert(segments@.drop_last() =~= segments@.subrange(0, n - 1));
            assert(all_dots(segments@) ==> forall|k: int| 0 <= k < n - 1 ==> (#[trigger] segments@[k]).tag@ == "."@);
        }
        let last = &segments[n - 1];
        if Self::is_dot(last) {
            self.set_text(cur, text);
            proof {
                lemma_frame_one(self, &mid, cur as int);
                lemma_shape_trans(old(self), &mid, self);
                assert(forall|i: int| 0 <= i < old(self).spec_node_count() && i != cur ==> #[trigger] self.spec_text(i) == old(self).spec_text(i));
                lemma_walk_stable(self, &mid, old(self).spec_stack().last() as int, segments@.subrange(0, n - 1));
                assert(walk_spec(self, old(self).spec_stack().last() as int, segments@) == Some(cur as int));
            }
        } else {
            self.remove_matching_children(cur, last);
            let ghost mid2 = *self;
            let id = self.add_node(cur, last.tag.clone(), last.attribs.as_slice(), text);
            proof {
                let kids = self.spec_children(cur as int);
                assert(kids.drop_last() == mid2.spec_children(cur as int));
                assert forall|k: int| 0 <= k < kids.len() - 1 implies !node_matches(self, #[trigger] kids[k] as int, last@) by {
                    let c = mid2.spec_children(cur as int)[k];
                    assert(kids[k] == c);
                    assert(!node_matches(&mid, c as int, last@));
                    assert(c < mid2.spec_node_count());
                    assert(self.spec_name(c as int) == mid2.spec_name(c as int));
                    assert(self.spec_attrs(c as int) == mid2.spec_attrs(c as int));
                }
                assert forall|i: int| 0 <= i < old(self).spec_node_count() implies #[trigger] self.spec_name(i) == old(self).spec_name(i) by {
                    assert(mid.spec_name(i) == old(self).spec_name(i));
                    assert(mid2.spec_name(i) == mid.spec_name(i));
                }
                assert forall|i: int| 0 <= i < old(self).spec_node_count() implies #[trigger] self.spec_attrs(i) == old(self).spec_attrs(i) by {
                    assert(mid.spec_attrs(i) == old(self).spec_attrs(i));
                    assert(mid2.spec_attrs(i) == mid.spec_attrs(i));
                }
                assert(0 <= cur < id);
                assert(kids.last() == id);
                assert forall|i: int| 0 <= i < cur implies #[trigger] self.spec_children(i) == mid.spec_children(i) by {
                    assert(mid2.spec_arena()[i] == mid.spec_arena()[i]);
                    assert(self.spec_arena()[i] == mid2.spec_arena()[i]);
                }
                assert forall|i: int| 0 <= i < mid.spec_node_count() implies #[trigger] self.spec_name(i) == mid.spec_name(i) by {
                    assert(mid2.spec_name(i) == mid.spec_name(i));
                }
                assert forall|i: int| 0 <= i < mid.spec_node_count() implies #[trigger] self.spec_attrs(i) == mid.spec_attrs(i) by {
                    assert(mid2.spec_attrs(i) == mid.spec_attrs(i));
                }
                lemma_walk_below(self, &mid, old(self).spec_stack().last() as int, segments@.subrange(0, n - 1), cur as int);
            }
        }
    }
}

} // verus!

verus! {

/// High-level action a grammar step can emit to manipulate the output tree.
pub enum RuntimeAction<'a> {
    OutCreate { path: &'a str, value: Option<&'a str> },
    OutAdd { path: &'a str, value: Option<&'a str> },
    OutReplace { path: &'a str, value: Option<&'a str> },
    OutAddAttribute { path: &'a str, name: &'a str, value: &'a str },
    OutSetRootName { name: &'a str },
    OutOpen { path: &'a str },
    OutEnter { path: &'a str },
    OutLeave,
}

/// Types that can execute [`RuntimeAction`]s.
pub trait ActionExecutor {
    /// Whether the executor is in a state to run actions.
    spec fn exec_ready(&self) -> bool;

    /// Apply a single runtime action (create node, add attribute, leave scope...).
    fn exec(&mut self, act: RuntimeAction)
        requires
            old(self).exec_ready(),
        ensures
            final(self).exec_ready(),
    ;
}

/// `percent_decode` of an optional value.
fn decode_value(value: Option<&str>) -> (r: Option<String>)
    ensures
        match value {
            Some(v) => r is Some && r->0@ == percent_decode_spec(v@),
            None => r is None,
        },
{
    match value {
        Some(v) => Some(percent_decode(v)),
        None => None,
    }
}

/// What creating a path does to the tree: nothing when the path is empty or
/// does not fit; else the tree keeps its shape and a new leaf named by the
/// last segment, holding the text, becomes the last child of the node that
/// the path but its last segment walks to from the cursor (for a last
/// segment `.`, the text of the node the path walks to is set).  The only
/// nodes added are those the walk lacks and the leaf, as one chain (see
/// [`grew_by_chain`], [`missing_count`]).
pub open spec fn path_created(new: &OutputTree, old: &OutputTree, segs: Seq<PathSegment>, t: Option<Seq<char>>) -> bool {
    &&& (new.spec_stack() == old.spec_stack())
    &&& (segs.len() == 0 || !old.room_for(segs) ==> *new == *old)
    &&& (segs.len() > 0 && old.room_for(segs) ==> {
        &&& keeps_shape(new, old)
        &&& segs.last().tag@ != "."@ ==> {
            let id = new.spec_node_count() - 1;
            &&& old.spec_node_count() <= id
            &&& node_matches(new, id, segs.last()@)
            &&& new.spec_text(id) == t
            &&& new.spec_children(id).len() == 0
            &&& forall|i: int| 0 <= i < old.spec_node_count() ==> #[trigger] new.spec_text(i) == old.spec_text(i)
            &&& walk_spec(new, old.spec_stack().last() as int, segs.drop_last()) is Some
            &&& new.spec_children(walk_spec(new, old.spec_stack().last() as int, segs.drop_last())->0).last() == id
            &&& id == old.spec_node_count() + missing_count(old, old.spec_stack().last() as int, segs.drop_last())
        }
        &&& grew_by_chain(new, old)
        &&& named_by(new, old, created_segs(old, old.spec_stack().last() as int, segs))
        &&& segs.last().tag@ == "."@ ==> new.spec_node_count() == old.spec_node_count() + missing_count(
            old,
            old.spec_stack().last() as int,
            segs.drop_last(),
        )
        &&& segs.last().tag@ == "."@ ==> exists|id: int| {
            &&& 0 <= id < new.spec_node_count()
            &&& #[trigger] new.spec_text(id) == t
            &&& forall|i: int| 0 <= i < old.spec_node_count() && i != id ==> #[trigger] new.spec_text(i) == old.spec_text(i)
            &&& all_dots(segs) ==> id == old.spec_stack().last()
            &&& walk_spec(new, old.spec_stack().last() as int, segs) == Some(id)
        }
    })
}

/// What adding to a path does to the tree: nothing when the path is empty or
/// does not fit; else the node the path walks to from the cursor (found or
/// created) gets the text appended, every other text stays, and the only
/// nodes added are those the walk lacks, as one chain.
pub open spec fn path_added(new: &OutputTree, old: &OutputTree, segs: Seq<PathSegment>, t: Option<Seq<char>>) -> bool {
    &&& (new.spec_stack() == old.spec_stack())
    &&& (segs.len() == 0 || !old.room_for(segs) ==> *new == *old)
    &&& (segs.len() > 0 && old.room_for(segs) ==> {
        &&& keeps_shape(new, old)
        &&& new.spec_node_count() <= old.spec_node_count() + segs.len()
        &&& exists|id: int| {
            &&& 0 <= id < new.spec_node_count()
            &&& #[trigger] new.spec_text(id) == appended(prior_text(old, id), t)
            &&& forall|i: int| 0 <= i < old.spec_node_count() && i != id ==> #[trigger] new.spec_text(i) == old.spec_text(i)
            &&& segs.last().tag@ != "."@ ==> node_matches(new, id, segs.last()@)
            &&& all_dots(segs) ==> id == old.spec_stack().last()
            &&& walk_spec(new, old.spec_stack().last() as int, segs) == Some(id)
        }
        &&& grew_by_chain(new, old)
        &&& new.spec_node_count() == old.spec_node_count() + missing_count(old, old.spec_stack().last() as int, segs)
        &&& named_by(new, old, missing_segs(old, old.spec_stack().last() as int, segs))
    })
}

/// What replacing a path does to the tree: nothing when the path is empty or
/// does not fit; else names and attributes stay, and a new node named by the
/// last segment, holding the text, becomes the last child of the node that
/// the path but its last segment walks to from the cursor, none of whose
/// earlier children matches that segment (for a last segment `.`, the text
/// of the node the path walks to is set).
pub open spec fn path_replaced(new: &OutputTree, old: &OutputTree, segs: Seq<PathSegment>, t: Option<Seq<char>>) -> bool {
    &&& (new.spec_stack() == old.spec_stack())
    &&& (segs.len() == 0 || !old.room_for(segs) ==> *new == *old)
    &&& (segs.len() > 0 && old.room_for(segs) ==> {
        &&& old.spec_node_count() <= new.spec_node_count()
        &&& forall|i: int| 0 <= i < old.spec_node_count() ==> #[trigger] new.spec_name(i) == old.spec_name(i)
        &&& forall|i: int| 0 <= i < old.spec_node_count() ==> #[trigger] new.spec_attrs(i) == old.spec_attrs(i)
        &&& segs.last().tag@ != "."@ ==> exists|p: int| {
            let id = new.spec_node_count() - 1;
            let kids = #[trigger] new.spec_children(p);
            &&& 0 <= p < id
            &&& old.spec_node_count() <= id
            &&& node_matches(new, id, segs.last()@)
            &&& new.spec_text(id) == t
            &&& kids.len() >= 1 && kids.last() == id
            &&& forall|k: int| 0 <= k < kids.len() - 1 ==> !node_matches(new, #[trigger] kids[k] as int, segs.last()@)
            &&& walk_spec(new, old.spec_stack().last() as int, segs.drop_last()) == Some(p)
        }
        &&& named_by(new, old, created_segs(old, old.spec_stack().last() as int, segs))
        &&& new.spec_node_count() == old.spec_node_count() + missing_count(old, old.spec_stack().last() as int, segs.drop_last()) + if segs.last().tag@
            == "."@ {
            0int
        } else {
            1int
        }
        &&& segs.last().tag@ == "."@ ==> exists|id: int| {
            &&& 0 <= id < new.spec_node_count()
            &&& #[trigger] new.spec_text(id) == t
            &&& forall|i: int| 0 <= i < old.spec_node_count() && i != id ==> #[trigger] new.spec_text(i) == old.spec_text(i)
            &&& all_dots(segs) ==> id == old.spec_stack().last()
            &&& walk_spec(new, old.spec_stack().last() as int, segs) == Some(id)
        }
    })
}

/// Whether `new` is `mid` with only the attributes of node `id` changed, and
/// `mid` is `old` with nodes added on a walk along `segs` from the old cursor
/// that reaches `id`.
pub open spec fn walked_to(new: &OutputTree, mid: &OutputTree, old: &OutputTree, segs: Seq<PathSegment>, id: int) -> bool {
    &&& keeps(mid, old)
    &&& walk_spec(mid, old.spec_stack().last() as int, segs) == Some(id)
    &&& grew_by_chain(mid, old)
    &&& mid.spec_node_count() == old.spec_node_count() + missing_count(old, old.spec_stack().last() as int, segs)
    &&& named_by(mid, old, missing_segs(old, old.spec_stack().last() as int, segs))
    &&& new.spec_node_count() == mid.spec_node_count()
    &&& forall|i: int| 0 <= i < mid.spec_node_count() ==> #[trigger] new.spec_name(i) == mid.spec_name(i)
    &&& forall|i: int| 0 <= i < mid.spec_node_count() ==> #[trigger] new.spec_children(i) == mid.spec_children(i)
    &&& forall|i: int| 0 <= i < mid.spec_node_count() && i != id ==> #[trigger] new.spec_attrs(i) == mid.spec_attrs(i)
}

/// What adding an attribute does to the tree: nothing when the path is empty
/// or does not fit; else the node the path walks to from the cursor (found or
/// created) gets the attribute last, all else stays.
pub open spec fn attribute_added(new: &OutputTree, old: &OutputTree, segs: Seq<PathSegment>, name: Seq<char>, value: Seq<char>) -> bool {
    &&& (new.spec_stack() == old.spec_stack())
    &&& (segs.len() == 0 || !old.room_for(segs) ==> *new == *old)
    &&& (segs.len() > 0 && old.room_for(segs) ==> exists|id: int| {
        &&& 0 <= id < new.spec_node_count()
        &&& #[trigger] new.spec_attrs(id).len() >= 1
        &&& new.spec_attrs(id).last() == (name, value)
        &&& segs.last().tag@ != "."@ ==> new.spec_name(id) == segs.last().tag@
            && new.spec_attrs(id).drop_last() == segs.last()@.1
        &&& all_dots(segs) ==> id == old.spec_stack().last()
        &&& forall|i: int| 0 <= i < old.spec_node_count() && i != id ==> #[trigger] new.spec_attrs(i) == old.spec_attrs(i)
        &&& forall|i: int| 0 <= i < old.spec_node_count() ==> #[trigger] new.spec_name(i) == old.spec_name(i)
        &&& forall|i: int| 0 <= i < old.spec_node_count() ==> #[trigger] new.spec_text(i) == old.spec_text(i)
        &&& exists|mid: OutputTree| #[trigger] walked_to(new, &mid, old, segs, id)
    })
}

/// A value as the tree takes it: percent-decoded.
pub open spec fn value_view(v: Option<&str>) -> Option<Seq<char>> {
    match v {
        Some(x) => Some(percent_decode_spec(x@)),
        None => None,
    }
}

/// The segments a path parses into, by their views.
pub open spec fn segs_of(segs: Seq<PathSegment>) -> Seq<(Seq<char>, Seq<(Seq<char>, Seq<char>)>)> {
    segs.map_values(|x: PathSegment| x@)
}

impl ActionExecutor for OutputTree {
    open spec fn exec_ready(&self) -> bool {
        self.wf()
    }

    /// Runs the action: paths are parsed with [`parse_path`], values are
    /// percent-decoded, and `create`, `add`, `replace`, `add_attribute`, `open`,
    /// `enter`, `set_root_name` and `leave` go to the tree operations of those
    /// names.
    fn exec(&mut self, act: RuntimeAction)
        ensures
            match act {
                RuntimeAction::OutSetRootName { name } => final(self).spec_name(0) == name@
                    && final(self).spec_stack() == old(self).spec_stack(),
                RuntimeAction::OutLeave => final(self).spec_stack() == (if old(self).spec_stack().len() > 1 {
                    old(self).spec_stack().drop_last()
                } else {
                    old(self).spec_stack()
                }) && final(self).spec_arena() == old(self).spec_arena(),
                RuntimeAction::OutOpen { .. } | RuntimeAction::OutEnter { .. } => (final(self).spec_stack() == old(self).spec_stack()
                    || (final(self).spec_stack().len() == old(self).spec_stack().len() + 1 && final(self).spec_stack().drop_last()
                    == old(self).spec_stack())) && keeps(final(self), old(self)),
                _ => final(self).spec_stack() == old(self).spec_stack(),
            },
            match act {
                RuntimeAction::OutCreate { path, value } => exists|segs: Seq<PathSegment>|
                    segs_of(segs) == parse_path_spec(path@) && #[trigger] path_created(final(self), old(self), segs, value_view(value)),
                RuntimeAction::OutAdd { path, value } => exists|segs: Seq<PathSegment>|
                    segs_of(segs) == parse_path_spec(path@) && #[trigger] path_added(final(self), old(self), segs, value_view(value)),
                RuntimeAction::OutReplace { path, value } => exists|segs: Seq<PathSegment>|
                    segs_of(segs) == parse_path_spec(path@) && #[trigger] path_replaced(final(self), old(self), segs, value_view(value)),
                RuntimeAction::OutAddAttribute { path, name, value } => exists|segs: Seq<PathSegment>|
                    segs_of(segs) == parse_path_spec(path@) && #[trigger] attribute_added(final(self), old(self), segs, name@, value@),
                RuntimeAction::OutOpen { path } => exists|segs: Seq<PathSegment>|
                    segs_of(segs) == parse_path_spec(path@) && #[trigger] scope_pushed(*final(self), *old(self), segs),
                RuntimeAction::OutEnter { path } => exists|segs: Seq<PathSegment>|
                    segs_of(segs) == parse_path_spec(path@) && #[trigger] scope_pushed(*final(self), *old(self), segs),
                _ => true,
            },
    {
        match act {
            RuntimeAction::OutCreate { path, value } => {
                let segs = parse_path(path);
                let dv = decode_value(value);
                proof {
                    assert(text_view(dv) == value_view(value));
                }
                self.create_path(segs.as_slice(), dv);
                proof {
                    assert(segs_of(segs@) == parse_path_spec(path@));
                    assert(path_created(self, old(self), segs@, value_view(value)));
                }
            },
            RuntimeAction::OutAdd { path, value } => {
                let segs = parse_path(path);
                let dv = decode_value(value);
                proof {
                    assert(text_view(dv) == value_view(value));
                }
                self.add_path(segs.as_slice(), dv);
                proof {
                    assert(segs_of(segs@) == parse_path_spec(path@));
                    assert(path_added(self, old(self), segs@, value_view(value)));
                }
            },
            RuntimeAction::OutReplace { path, value } => {
                let segs = parse_path(path);
                let dv = decode_value(value);
                proof {
                    assert(text_view(dv) == value_view(value));
                }
                self.replace_path(segs.as_slice(), dv);
                proof {
                    assert(segs_of(segs@) == parse_path_spec(path@));
                    assert(path_replaced(self, old(self), segs@, value_view(value)));
                }
            },
            RuntimeAction::OutAddAttribute { path, name, value } => {
                let segs = parse_path(path);
                self.add_attribute(segs.as_slice(), name, value);
                proof {
                    assert(segs_of(segs@) == parse_path_spec(path@));
                    assert(attribute_added(self, old(self), segs@, name@, value@));
                }
            },
            RuntimeAction::OutSetRootName { name } => {
                self.set_root_name(name);
            },
            RuntimeAction::OutOpen { path } => {
                let segs = parse_path(path);
                self.open_path(segs.as_slice());
                proof {
                    assert(segs_of(segs@) == parse_path_spec(path@));
                    assert(scope_pushed(*self, *old(self), segs@));
                    lemma_keeps_refl(self);
                    assert(self.spec_stack().subrange(0, old(self).spec_stack().len() as int) =~= old(self).spec_stack());
                }
            },
            RuntimeAction::OutEnter { path } => {
                let segs = parse_path(path);
                self.enter_path(segs.as_slice());
                proof {
                    assert(segs_of(segs@) == parse_path_spec(path@));
                    assert(scope_pushed(*self, *old(self), segs@));
                    lemma_keeps_refl(self);
                    assert(self.spec_stack().subrange(0, old(self).spec_stack().len() as int) =~= old(self).spec_stack());
                }
            },
            RuntimeAction::OutLeave => {
                self.leave();
            },
        }
    }
}

} // verus!

verus! {

// ---------------------------------------------------------------------------
// Compaction: children regrouped by name
// ---------------------------------------------------------------------------

/// The name of each node of an arena.
pub open spec fn name_of(arena: Seq<Node>) -> spec_fn(NodeId) -> Seq<char> {
    |c: NodeId| arena[c as int].name@
}

pub proof fn lemma_filter_excludes_first(kids: Seq<NodeId>, p: spec_fn(NodeId) -> bool)
    requires
        kids.len() > 0,
        !p(kids[0]),
    ensures
        kids.filter(p).len() < kids.len(),
{
    broadcast use vstd::seq_lib::group_filter_ensures;
    assert(kids =~= seq![kids[0]] + kids.drop_first());
    Seq::filter_distributes_over_add(seq![kids[0]], kids.drop_first(), p);
    reveal_with_fuel(Seq::filter, 2);
    assert(seq![kids[0]].drop_last() =~= Seq::<NodeId>::empty());
    assert(seq![kids[0]].filter(p) =~= Seq::<NodeId>::empty());
    kids.drop_first().lemma_filter_len(p);
}

/// Children regrouped by name: the children named like the first one, in their
/// order, then the others regrouped the same way.  Same-named children become
/// contiguous, groups come in order of first appearance, and the order within a
/// group is kept.
pub open spec fn regroup(kids: Seq<NodeId>, name: spec_fn(NodeId) -> Seq<char>) -> Seq<NodeId>
    decreases kids.len(),
{
    if kids.len() == 0 {
        kids
    } else {
        let nm = name(kids[0]);
        let rest = kids.filter(|c: NodeId| name(c) != nm);
        proof {
            lemma_filter_excludes_first(kids, |c: NodeId| name(c) != nm);
        }
        kids.filter(|c: NodeId| name(c) == nm) + regroup(rest, name)
    }
}


/// Filtering by two predicates that agree on the elements gives the same.
proof fn lemma_filter_congruent(s: Seq<NodeId>, p: spec_fn(NodeId) -> bool, q: spec_fn(NodeId) -> bool)
    requires
        forall|i: int| 0 <= i < s.len() ==> p(#[trigger] s[i]) == q(s[i]),
    ensures
        s.filter(p) == s.filter(q),
    decreases s.len(),
{
    reveal(Seq::filter);
    if s.len() > 0 {
        assert forall|i: int| 0 <= i < s.drop_last().len() implies p(#[trigger] s.drop_last()[i]) == q(s.drop_last()[i]) by {
            assert(s.drop_last()[i] == s[i]);
        }
        lemma_filter_congruent(s.drop_last(), p, q);
        assert(p(s.last()) == q(s[s.len() - 1]));
    }
}

/// What a filter keeps comes from the sequence filtered.
proof fn lemma_filter_from(s: Seq<NodeId>, p: spec_fn(NodeId) -> bool, i: int)
    requires
        0 <= i < s.filter(p).len(),
    ensures
        s.contains(s.filter(p)[i]),
    decreases s.len(),
{
    reveal(Seq::filter);
    if s.len() > 0 {
        let sub = s.drop_last().filter(p);
        if i < sub.len() {
            lemma_filter_from(s.drop_last(), p, i);
            let w = choose|w: int| 0 <= w < s.drop_last().len() && s.drop_last()[w] == sub[i];
            assert(s[w] == s.drop_last()[w]);
            if p(s.last()) {
                assert(s.filter(p)[i] == sub.push(s.last())[i]);
            }
        } else {
            assert(s[s.len() - 1] == s.last());
        }
    }
}

/// Regrouping by two naming functions that agree on the children gives the
/// same order.
proof fn lemma_regroup_congruent(kids: Seq<NodeId>, f: spec_fn(NodeId) -> Seq<char>, g: spec_fn(NodeId) -> Seq<char>)
    requires
        forall|i: int| 0 <= i < kids.len() ==> f(#[trigger] kids[i]) == g(kids[i]),
    ensures
        regroup(kids, f) == regroup(kids, g),
    decreases kids.len(),
{
    broadcast use vstd::seq_lib::group_filter_ensures;
    if kids.len() > 0 {
        let nm = f(kids[0]);
        assert(g(kids[0]) == nm);
        let pf = |c: NodeId| f(c) == nm;
        let pg = |c: NodeId| g(c) == nm;
        let nf = |c: NodeId| f(c) != nm;
        let ng = |c: NodeId| g(c) != nm;
        assert forall|i: int| 0 <= i < kids.len() implies pf(#[trigger] kids[i]) == pg(kids[i]) by {
            assert(f(kids[i]) == g(kids[i]));
        }
        assert forall|i: int| 0 <= i < kids.len() implies nf(#[trigger] kids[i]) == ng(kids[i]) by {
            assert(f(kids[i]) == g(kids[i]));
        }
        lemma_filter_congruent(kids, pf, pg);
        lemma_filter_congruent(kids, nf, ng);
        let rest = kids.filter(nf);
        assert forall|i: int| 0 <= i < rest.len() implies f(#[trigger] rest[i]) == g(rest[i]) by {
            lemma_filter_from(kids, nf, i);
            assert(kids.contains(rest[i]));
            let w = choose|w: int| 0 <= w < kids.len() && kids[w] == rest[i];
            assert(f(kids[w]) == g(kids[w]));
        }
        lemma_filter_excludes_first(kids, nf);
        lemma_regroup_congruent(rest, f, g);
        assert(regroup(kids, f) == kids.filter(pf) + regroup(rest, f));
        assert(regroup(kids, g) == kids.filter(pg) + regroup(kids.filter(ng), g));
    }
}

impl OutputTree {
    /// Regroups the children of one node by name (see [`regroup`]).
    fn regroup_children(&mut self, id: NodeId)
        requires
            old(self).wf(),
            id < old(self).spec_node_count(),
        ensures
            final(self).wf(),
            final(self).spec_stack() == old(self).spec_stack(),
            final(self).spec_pool() == old(self).spec_pool(),
            final(self).spec_node_count() == old(self).spec_node_count(),
            final(self).spec_children(id as int) == regroup(
                old(self).spec_children(id as int),
                name_of(old(self).spec_arena()),
            ),
            forall|i: int| 0 <= i < old(self).spec_node_count() && i != id ==> #[trigger] final(self).spec_arena()[i] == old(self).spec_arena()[i],
            forall|i: int| 0 <= i < old(self).spec_node_count() ==> #[trigger] final(self).spec_name(i) == old(self).spec_name(i),
            forall|i: int| 0 <= i < old(self).spec_node_count() ==> #[trigger] final(self).spec_attrs(i) == old(self).spec_attrs(i),
            forall|i: int| 0 <= i < old(self).spec_node_count() ==> #[trigger] final(self).spec_text(i) == old(self).spec_text(i),
            final(self).spec_arena()[id as int].attr_start == old(self).spec_arena()[id as int].attr_start,
            final(self).spec_arena()[id as int].attr_len == old(self).spec_arena()[id as int].attr_len,
    {
        let ghost nf = name_of(self.spec_arena());
        let ghost kids = self.spec_children(id as int);
        let mut remaining: Vec<NodeId> = self.arena[id as usize].children.clone();
        let mut result: Vec<NodeId> = Vec::new();
        proof {
            assert(remaining@ == kids);
        }
        while remaining.len() > 0
            invariant
                self.wf(),
                *self == *old(self),
                id < self.spec_node_count(),
                kids == self.spec_children(id as int),
                nf == name_of(self.spec_arena()),
                result@ + regroup(remaining@, nf) == regroup(kids, nf),
                forall|k: int| 0 <= k < remaining@.len() ==> id < #[trigger] remaining@[k] < self.spec_node_count(),
                forall|k: int| 0 <= k < result@.len() ==> id < #[trigger] result@[k] < self.spec_node_count(),
            decreases remaining@.len(),
        {
            let first = remaining[0];
            let ghost nm = nf(first);
            let ghost p_same = |c: NodeId| nf(c) == nm;
            let ghost p_rest = |c: NodeId| nf(c) != nm;
            let mut same: Vec<NodeId> = Vec::new();
            let mut rest: Vec<NodeId> = Vec::new();
            let mut k: usize = 0;
            while k < remaining.len()
                invariant
                    self.wf(),
                    *self == *old(self),
                    nf == name_of(self.spec_arena()),
                    nm == nf(first),
                    nm == self.arena@[first as int].name@,
                    first < self.spec_node_count(),
                    p_same == (|c: NodeId| nf(c) == nm),
                    p_rest == (|c: NodeId| nf(c) != nm),
                    k <= remaining@.len(),
                    forall|j: int| 0 <= j < remaining@.len() ==> id < #[trigger] remaining@[j] < self.spec_node_count(),
                    same@ == remaining@.subrange(0, k as int).filter(p_same),
                    rest@ == remaining@.subrange(0, k as int).filter(p_rest),
                    forall|j: int| 0 <= j < same@.len() ==> id < #[trigger] same@[j] < self.spec_node_count(),
                    forall|j: int| 0 <= j < rest@.len() ==> id < #[trigger] rest@[j] < self.spec_node_count(),
                decreases remaining@.len() - k,
            {
                let c = remaining[k];
                proof {
                    assert(remaining@.subrange(0, k + 1) =~= remaining@.subrange(0, k as int).push(c));
                    remaining@.subrange(0, k as int).lemma_filter_push(c, p_same);
                    remaining@.subrange(0, k as int).lemma_filter_push(c, p_rest);
                }
                if self.arena[c as usize].name == self.arena[first as usize].name {
                    same.push(c);
                } else {
                    rest.push(c);
                }
                k = k + 1;
            }
            proof {
                assert(remaining@.subrange(0, remaining@.len() as int) =~= remaining@);
                assert(regroup(remaining@, nf) == remaining@.filter(p_same) + regroup(remaining@.filter(p_rest), nf));
                assert(result@ + same@ + regroup(rest@, nf) =~= result@ + regroup(remaining@, nf));
                lemma_filter_excludes_first(remaining@, p_rest);
            }
            let mut j: usize = 0;
            let ghost r0 = result@;
            while j < same.len()
                invariant
                    j <= same@.len(),
                    result@ == r0 + same@.subrange(0, j as int),
                    forall|t: int| 0 <= t < same@.len() ==> id < #[trigger] same@[t] < self.spec_node_count(),
                    forall|t: int| 0 <= t < r0.len() ==> id < #[trigger] r0[t] < self.spec_node_count(),
                decreases same@.len() - j,
            {
                result.push(same[j]);
                j = j + 1;
                proof {
                    assert(result@ =~= r0 + same@.subrange(0, j as int));
                }
            }
            proof {
                assert(same@.subrange(0, same@.len() as int) =~= same@);
                assert forall|t: int| 0 <= t < result@.len() implies id < #[trigger] result@[t] < self.spec_node_count() by {
                    if t < r0.len() {
                        assert(result@[t] == r0[t]);
                    } else {
                        assert(result@[t] == same@[t - r0.len()]);
                    }
                }
            }
            remaining = rest;
        }
        proof {
            assert(regroup(remaining@, nf) =~= remaining@);
            assert(result@ =~= result@ + regroup(remaining@, nf));
        }
        self.arena[id as usize].children = result;
        proof {
            assert forall|nn: int, k: int|
                0 <= nn < self.arena@.len() && 0 <= k < self.arena@[nn].children@.len() implies nn
                    < #[trigger] self.arena@[nn].children@[k] < self.arena@.len() by {
                if nn != id {
                    assert(self.arena@[nn] == old(self).arena@[nn]);
                }
            }
            assert forall|nn: int|
                0 <= nn < self.arena@.len() implies #[trigger] self.arena@[nn].attr_start
                    + self.arena@[nn].attr_len <= self.attr_pool@.len() by {
                if nn != id {
                    assert(self.arena@[nn] == old(self).arena@[nn]);
                }
            }
            assert forall|j: int| 0 <= j < old(self).spec_node_count() implies #[trigger] self.spec_attrs(j) == old(self).spec_attrs(j) by {
                if j != id {
                    assert(self.arena@[j] == old(self).arena@[j]);
                }
            }
            assert forall|j: int| 0 <= j < old(self).spec_node_count() implies #[trigger] self.spec_name(j) == old(self).spec_name(j) by {
                if j != id {
                    assert(self.arena@[j] == old(self).arena@[j]);
                }
            }
            assert forall|j: int| 0 <= j < old(self).spec_node_count() implies #[trigger] self.spec_text(j) == old(self).spec_text(j) by {
                if j != id {
                    assert(self.arena@[j] == old(self).arena@[j]);
                }
            }
        }
    }
}

} // verus!

verus! {

// ---------------------------------------------------------------------------
// FlatTree: contiguous BFS-ordered tree for serialization
// ---------------------------------------------------------------------------

/// A node of the flattened tree; its children are the contiguous range
/// `children_start .. children_start + children_len` of the tree's nodes, its
/// attributes the range `attr_start .. attr_start + attr_len` of the pool.
#[derive(Debug)]
pub struct FlatNode {
    pub name: String,
    pub attr_start: u32,
    pub attr_len: u32,
    pub text: Option<String>,
    pub children_start: u32,
    pub children_len: u32,
}

/// Flattened tree: all nodes in one vector, in breadth-first order, root first.
#[derive(Debug)]
pub struct FlatTree {
    pub nodes: Vec<FlatNode>,
    pub attrs: Vec<(String, String)>,
}

/// Whether an arena is well formed: attribute ranges lie in a pool of `pool_len`
/// entries and every child id is a node allocated after its parent.
pub open spec fn arena_wf(arena: Seq<Node>, pool_len: nat) -> bool {
    &&& arena.len() <= tree_capacity()
    &&& forall|n: int| 0 <= n < arena.len() ==> #[trigger] arena[n].attr_start + arena[n].attr_len <= pool_len
    &&& forall|n: int, k: int|
        0 <= n < arena.len() && 0 <= k < arena[n].children@.len() ==> n < #[trigger] arena[n].children@[k]
            < arena.len()
}

/// Whether a flat node's attribute and children ranges lie in the given bounds.
pub open spec fn flat_node_wf(n: FlatNode, idx: int, n_nodes: int, n_attrs: int) -> bool {
    &&& n.attr_start + n.attr_len <= n_attrs
    &&& n.children_len > 0 ==> idx < n.children_start && n.children_start + n.children_len <= n_nodes
}

/// Whether a flat node carries an arena node's name, attribute range and text.
pub open spec fn flat_copies(f: FlatNode, n: Node) -> bool {
    &&& f.name@ == n.name@
    &&& f.attr_start == n.attr_start
    &&& f.attr_len == n.attr_len
    &&& text_view(f.text) == text_view(n.text)
}

/// Whether the flat nodes are the arena nodes `order` lists, each once, root
/// first, laid out breadth first: every flat node copies its arena node; the
/// children of the node at `q` come next after those of the nodes before it,
/// and are its arena children in order, less those listed already.
pub open spec fn flattened_from(nodes: Seq<FlatNode>, arena: Seq<Node>, root: int, order: Seq<NodeId>) -> bool {
    &&& order.len() == nodes.len()
    &&& order.len() >= 1 && order[0] == root
    &&& forall|q: int| 0 <= q < order.len() ==> #[trigger] order[q] < arena.len()
    &&& forall|a: int, b: int| 0 <= a < b < order.len() ==> order[a] != order[b]
    &&& forall|q: int| 0 <= q < nodes.len() ==> flat_copies(#[trigger] nodes[q], arena[order[q] as int])
    &&& forall|q: int, j: int|
        0 <= q < nodes.len() && 0 <= j < nodes[q].children_len ==> arena[order[q] as int].children@.contains(
            #[trigger] order[nodes[q].children_start + j],
        )
    &&& forall|q: int, k: int|
        0 <= q < order.len() && 0 <= k < arena[order[q] as int].children@.len() ==> order.contains(
            #[trigger] arena[order[q] as int].children@[k],
        )
    &&& order.len() == 1 + child_total(nodes, nodes.len() as int)
    &&& forall|q: int| 0 <= q < nodes.len() && #[trigger] nodes[q].children_len > 0 ==> nodes[q].children_start == 1 + child_total(nodes, q)
    &&& forall|q: int|
        0 <= q < nodes.len() ==> #[trigger] order.subrange(1 + child_total(nodes, q), 1 + child_total(nodes, q + 1)) == fresh_children(
            arena[order[q] as int].children@,
            order.subrange(0, 1 + child_total(nodes, q)),
        )
}

/// How many children the flat nodes before `q` have.
pub open spec fn child_total(nodes: Seq<FlatNode>, q: int) -> int
    decreases q,
{
    if q <= 0 {
        0
    } else {
        child_total(nodes, q - 1) + nodes[q - 1].children_len
    }
}

/// The children of a node, in order, that are not in `seen` and do not
/// repeat: those a breadth-first walk lists the first time it meets them.
pub open spec fn fresh_children(kids: Seq<NodeId>, seen: Seq<NodeId>) -> Seq<NodeId>
    decreases kids.len(),
{
    if kids.len() == 0 {
        Seq::empty()
    } else if seen.contains(kids[0]) {
        fresh_children(kids.drop_first(), seen)
    } else {
        seq![kids[0]] + fresh_children(kids.drop_first(), seen.push(kids[0]))
    }
}

/// Counting children grows with `q`.
proof fn lemma_child_total_mono(nodes: Seq<FlatNode>, p: int, q: int)
    requires
        0 <= p <= q <= nodes.len(),
    ensures
        child_total(nodes, p) <= child_total(nodes, q),
    decreases q - p,
{
    if p < q {
        lemma_child_total_mono(nodes, p, q - 1);
    }
}

/// Counting children up to `q` looks only at the nodes before `q`.
proof fn lemma_child_total_prefix(a: Seq<FlatNode>, b: Seq<FlatNode>, q: int)
    requires
        0 <= q <= a.len(),
        q <= b.len(),
        forall|p: int| 0 <= p < q ==> #[trigger] a[p] == b[p],
    ensures
        child_total(a, q) == child_total(b, q),
    decreases q,
{
    if q > 0 {
        lemma_child_total_prefix(a, b, q - 1);
    }
}

impl FlatTree {
    /// Well-formedness: a root exists, and every node's ranges lie in the tree;
    /// children come after their parent.
    pub open spec fn wf(&self) -> bool {
        &&& self.nodes@.len() >= 1
        &&& self.nodes@.len() <= tree_capacity()
        &&& forall|i: int|
            0 <= i < self.nodes@.len() ==> flat_node_wf(
                #[trigger] self.nodes@[i],
                i,
                self.nodes@.len() as int,
                self.attrs@.len() as int,
            )
    }

    /// Converts an arena into a flat tree by a breadth-first walk from `root`;
    /// the attribute pool moves over unchanged.
    pub fn from_arena(arena: Vec<Node>, attrs: Vec<(String, String)>, root: NodeId) -> (r: FlatTree)
        requires
            arena_wf(arena@, attrs@.len()),
            root < arena@.len(),
        ensures
            r.wf(),
            r.attrs@ == attrs@,
            r.nodes@.len() <= arena@.len(),
            r.nodes@[0].name@ == arena@[root as int].name@,
            r.nodes@[0].attr_start == arena@[root as int].attr_start,
            r.nodes@[0].attr_len == arena@[root as int].attr_len,
            text_view(r.nodes@[0].text) == text_view(arena@[root as int].text),
            r.nodes@[0].children_len <= arena@[root as int].children@.len(),
            exists|order: Seq<NodeId>| #[trigger] flattened_from(r.nodes@, arena@, root as int, order),
    {
        let total = arena.len();
        let mut nodes: Vec<FlatNode> = Vec::new();
        let mut queue: Vec<NodeId> = Vec::new();
        let mut visited: Vec<bool> = Vec::new();
        let mut v: usize = 0;
        while v < total
            invariant
                v <= total == arena@.len(),
                visited@.len() == v,
                forall|i: int| 0 <= i < v ==> !(#[trigger] visited@[i]),
                count_false(visited@) == v,
            decreases total - v,
        {
            let ghost prev = visited@;
            visited.push(false);
            proof {
                assert(visited@.drop_last() =~= prev);
            }
            v = v + 1;
        }
        proof {
            assert(visited@.update(root as int, true).len() == total);
            lemma_count_false_set(visited@, root as int);
        }
        let ghost v0 = visited@;
        queue.push(root);
        visited.set(root as usize, true);
        proof {
            assert forall|x: int| 0 <= x < total implies (#[trigger] visited@[x] <==> queue@.contains(x as NodeId)) by {
                assert(queue@.len() == 1 && queue@[0] == root);
                if x == root as int {
                    assert(queue@[0] == x as NodeId);
                } else {
                    assert(visited@[x] == v0[x]);
                    if queue@.contains(x as NodeId) {
                        let w = choose|w: int| 0 <= w < queue@.len() && queue@[w] == x as NodeId;
                        assert(w == 0);
                    }
                }
            }
        }
        let mut head: usize = 0;
        while head < queue.len()
            invariant
                total == arena@.len(),
                arena_wf(arena@, attrs@.len()),
                root < total,
                visited@.len() == total,
                queue@.len() + count_false(visited@) == total,
                1 <= queue@.len(),
                head <= queue@.len(),
                nodes@.len() == head,
                queue@[0] == root,
                forall|q: int| 0 <= q < queue@.len() ==> #[trigger] queue@[q] < total,
                forall|q: int|
                    0 <= q < head ==> flat_node_wf(#[trigger] nodes@[q], q, queue@.len() as int, attrs@.len() as int),
                head > 0 ==> nodes@[0].name@ == arena@[root as int].name@
                    && nodes@[0].attr_start == arena@[root as int].attr_start
                    && nodes@[0].attr_len == arena@[root as int].attr_len
                    && text_view(nodes@[0].text) == text_view(arena@[root as int].text)
                    && (nodes@[0].children_len <= arena@[root as int].children@.len()),
                forall|x: int| 0 <= x < total ==> (#[trigger] visited@[x] <==> queue@.contains(x as NodeId)),
                forall|a: int, b: int| 0 <= a < b < queue@.len() ==> queue@[a] != queue@[b],
                forall|q: int| 0 <= q < head ==> flat_copies(#[trigger] nodes@[q], arena@[queue@[q] as int]),
                queue@.len() == 1 + child_total(nodes@, head as int),
                forall|q: int| 0 <= q < head && #[trigger] nodes@[q].children_len > 0 ==> nodes@[q].children_start == 1 + child_total(nodes@, q),
                forall|q: int|
                    0 <= q < head ==> #[trigger] queue@.subrange(1 + child_total(nodes@, q), 1 + child_total(nodes@, q + 1)) == fresh_children(
                        arena@[queue@[q] as int].children@,
                        queue@.subrange(0, 1 + child_total(nodes@, q)),
                    ),
                forall|q: int, j: int|
                    0 <= q < head && 0 <= j < nodes@[q].children_len ==> arena@[queue@[q] as int].children@.contains(
                        #[trigger] queue@[nodes@[q].children_start + j],
                    ),
                forall|q: int, k: int|
                    0 <= q < head && 0 <= k < arena@[queue@[q] as int].children@.len() ==> queue@.contains(
                        #[trigger] arena@[queue@[q] as int].children@[k],
                    ),
            decreases total - head,
        {
            let nid = queue[head];
            let node = &arena[nid as usize];
            let children_start = queue.len();
            let ghost q_before = queue@;
            proof {
                assert(node.children@.subrange(0, node.children@.len() as int) =~= node.children@);
                assert(queue@.subrange(q_before.len() as int, queue@.len() as int) =~= Seq::<NodeId>::empty());
                assert(Seq::<NodeId>::empty() + fresh_children(node.children@, queue@) =~= fresh_children(node.children@, queue@));
            }
            let mut k: usize = 0;
            let mut pushed: usize = 0;
            while k < node.children.len()
                invariant
                    total == arena@.len(),
                    arena_wf(arena@, attrs@.len()),
                    nid < total,
                    *node == arena@[nid as int],
                    visited@.len() == total,
                    queue@.len() + count_false(visited@) == total,
                    head < q_before.len(),
                    k <= node.children@.len(),
                    queue@.len() == q_before.len() + pushed,
                    pushed <= k,
                    queue@.subrange(0, q_before.len() as int) == q_before,
                    forall|q: int| 0 <= q < queue@.len() ==> #[trigger] queue@[q] < total,
                    forall|x: int| 0 <= x < total ==> (#[trigger] visited@[x] <==> queue@.contains(x as NodeId)),
                    forall|a: int, b: int| 0 <= a < b < queue@.len() ==> queue@[a] != queue@[b],
                    forall|j: int| 0 <= j < pushed ==> node.children@.contains(#[trigger] queue@[q_before.len() + j]),
                    forall|kk: int| 0 <= kk < k ==> queue@.contains(#[trigger] node.children@[kk]),
                    fresh_children(node.children@, q_before) == queue@.subrange(q_before.len() as int, queue@.len() as int)
                        + fresh_children(node.children@.subrange(k as int, node.children@.len() as int), queue@),
                decreases node.children@.len() - k,
            {
                let c = node.children[k];
                assert(c < total);
                let ghost qprev = queue@;
                let ghost vprev = visited@;
                if !visited[c as usize] {
                    proof {
                        lemma_count_false_set(visited@, c as int);
                    }
                    queue.push(c);
                    visited.set(c as usize, true);
                    pushed = pushed + 1;
                    proof {
                        assert(queue@.subrange(0, q_before.len() as int) =~= q_before);
                        assert(!qprev.contains(c));
                        assert forall|x: int| 0 <= x < total implies (#[trigger] visited@[x] <==> queue@.contains(x as NodeId)) by {
                            if x == c as int {
                                assert(queue@[qprev.len() as int] == c);
                            } else {
                                assert(visited@[x] == vprev[x]);
                                if qprev.contains(x as NodeId) {
                                    let w = choose|w: int| 0 <= w < qprev.len() && qprev[w] == x as NodeId;
                                    assert(queue@[w] == qprev[w]);
                                }
                                if queue@.contains(x as NodeId) {
                                    let w = choose|w: int| 0 <= w < queue@.len() && queue@[w] == x as NodeId;
                                    assert(w < qprev.len());
                                    assert(qprev[w] == queue@[w]);
                                }
                            }
                        }
                        assert forall|a: int, b: int| 0 <= a < b < queue@.len() implies queue@[a] != queue@[b] by {
                            if b == qprev.len() {
                                assert(qprev[a] == queue@[a]);
                            } else {
                                assert(qprev[a] == queue@[a]);
                                assert(qprev[b] == queue@[b]);
                            }
                        }
                        assert(node.children@[k as int] == c);
                        assert forall|j: int| 0 <= j < pushed implies node.children@.contains(#[trigger] queue@[q_before.len() + j]) by {
                            if j < pushed - 1 {
                                assert(queue@[q_before.len() + j] == qprev[q_before.len() + j]);
                            } else {
                                assert(queue@[q_before.len() + j] == c);
                            }
                        }
                    }
                } else {
                    proof {
                        assert(visited@[c as int]);
                        assert((c as int) as NodeId == c);
                    }
                }
                proof {
                    let rest = node.children@.subrange(k as int, node.children@.len() as int);
                    assert(rest[0] == c);
                    assert(rest.drop_first() =~= node.children@.subrange(k + 1, node.children@.len() as int));
                    if queue@.len() > qprev.len() {
                        assert(!qprev.contains(c));
                        assert(queue@ =~= qprev.push(c));
                        assert(fresh_children(rest, qprev) == seq![c] + fresh_children(rest.drop_first(), qprev.push(c)));
                        assert(queue@.subrange(q_before.len() as int, queue@.len() as int) =~= qprev.subrange(q_before.len() as int, qprev.len() as int) + seq![c]);
                        assert(qprev.subrange(q_before.len() as int, qprev.len() as int) + (seq![c] + fresh_children(rest.drop_first(), queue@))
                            =~= queue@.subrange(q_before.len() as int, queue@.len() as int) + fresh_children(rest.drop_first(), queue@));
                    } else {
                        assert(queue@ == qprev);
                        assert(qprev.contains(c));
                        assert(fresh_children(rest, qprev) == fresh_children(rest.drop_first(), qprev));
                    }
                    if queue@.len() > qprev.len() {
                        assert(queue@[qprev.len() as int] == c);
                    }
                    assert(queue@.contains(c));
                    assert forall|kk: int| 0 <= kk < k + 1 implies queue@.contains(#[trigger] node.children@[kk]) by {
                        if kk < k {
                            assert(qprev.contains(node.children@[kk]));
                            let w = choose|w: int| 0 <= w < qprev.len() && qprev[w] == node.children@[kk];
                            assert(queue@[w] == qprev[w]);
                        }
                    }
                }
                k = k + 1;
            }
            let children_len = pushed;
            let text = match &node.text {
                Some(t) => Some(t.clone()),
                None => None,
            };
            let flat = FlatNode {
                name: node.name.clone(),
                attr_start: node.attr_start,
                attr_len: node.attr_len,
                text,
                children_start: if children_len > 0 { children_start as u32 } else { 0 },
                children_len: children_len as u32,
            };
            proof {
                assert(flat_node_wf(flat, head as int, queue@.len() as int, attrs@.len() as int));
                assert forall|q: int| 0 <= q < head implies flat_node_wf(#[trigger] nodes@[q], q, queue@.len() as int, attrs@.len() as int) by {
                    assert(flat_node_wf(nodes@[q], q, q_before.len() as int, attrs@.len() as int));
                }
                assert(queue@[head as int] == q_before[head as int]);
                if head == 0 {
                    assert(nid == root);
                }
            }
            let ghost nodes_before = nodes@;
            nodes.push(flat);
            proof {
                let n_kids = node.children@.len() as int;
                assert(node.children@.subrange(n_kids, n_kids) =~= Seq::<NodeId>::empty());
                assert(fresh_children(Seq::<NodeId>::empty(), queue@) == Seq::<NodeId>::empty());
                assert(queue@.subrange(q_before.len() as int, queue@.len() as int) + Seq::<NodeId>::empty()
                    =~= queue@.subrange(q_before.len() as int, queue@.len() as int));
                assert forall|q: int| 0 <= q <= head implies child_total(nodes@, q) == child_total(nodes_before, q) by {
                    assert forall|p: int| 0 <= p < q implies #[trigger] nodes@[p] == nodes_before[p] by {}
                    lemma_child_total_prefix(nodes@, nodes_before, q);
                }
                assert(child_total(nodes@, head + 1) == child_total(nodes@, head as int) + flat.children_len);
                assert(flat.children_len == pushed);
                assert(queue@.len() == 1 + child_total(nodes@, head + 1));
                assert forall|q: int| 0 <= q < head + 1 && #[trigger] nodes@[q].children_len > 0 implies nodes@[q].children_start
                    == 1 + child_total(nodes@, q) by {
                    if q < head {
                        assert(nodes@[q] == nodes_before[q]);
                    } else {
                        assert(nodes@[q] == flat);
                    }
                }
                assert forall|q: int| 0 <= q < head + 1 implies #[trigger] queue@.subrange(1 + child_total(nodes@, q), 1 + child_total(nodes@, q + 1))
                    == fresh_children(arena@[queue@[q] as int].children@, queue@.subrange(0, 1 + child_total(nodes@, q))) by {
                    assert(queue@.subrange(0, q_before.len() as int) == q_before);
                    assert forall|i: int| 0 <= i < q_before.len() implies #[trigger] queue@[i] == q_before[i] by {
                        assert(queue@.subrange(0, q_before.len() as int)[i] == queue@[i]);
                    }
                    if q < head {
                        lemma_child_total_mono(nodes_before, q + 1, head as int);
                        lemma_child_total_mono(nodes_before, q, q + 1);
                        lemma_child_total_mono(nodes_before, 0, q);
                        assert(q_before.len() == 1 + child_total(nodes_before, head as int));
                        let a = 1 + child_total(nodes_before, q);
                        let b = 1 + child_total(nodes_before, q + 1);
                        assert(queue@.subrange(a, b) =~= q_before.subrange(a, b));
                        assert(queue@.subrange(0, a) =~= q_before.subrange(0, a));
                        assert(queue@[q] == q_before[q]);
                    } else {
                        assert(queue@.subrange(0, q_before.len() as int) =~= q_before);
                        assert(queue@[q] == nid);
                    }
                }
            }
            proof {
                assert forall|y: NodeId| q_before.contains(y) implies queue@.contains(y) by {
                    let w = choose|w: int| 0 <= w < q_before.len() && q_before[w] == y;
                    assert(queue@[w] == q_before[w]);
                }
                assert forall|q: int, j: int|
                    0 <= q < head + 1 && 0 <= j < nodes@[q].children_len implies arena@[queue@[q] as int].children@.contains(
                        #[trigger] queue@[nodes@[q].children_start + j],
                    ) by {
                    if q < head {
                        assert(nodes@[q] == nodes_before[q]);
                        assert(queue@[q] == q_before[q]);
                        assert(q_before[nodes_before[q].children_start + j] == queue@[nodes@[q].children_start + j]);
                    } else {
                        assert(nodes@[q] == flat);
                        assert(queue@[q] == nid);
                    }
                }
                assert forall|q: int, k: int|
                    0 <= q < head + 1 && 0 <= k < arena@[queue@[q] as int].children@.len() implies queue@.contains(
                        #[trigger] arena@[queue@[q] as int].children@[k],
                    ) by {
                    if q < head {
                        assert(queue@[q] == q_before[q]);
                        assert(q_before.contains(arena@[q_before[q] as int].children@[k]));
                    } else {
                        assert(queue@[q] == nid);
                        assert(node.children@[k] == arena@[nid as int].children@[k]);
                    }
                }
                assert forall|q: int| 0 <= q < head + 1 implies flat_copies(#[trigger] nodes@[q], arena@[queue@[q] as int]) by {
                    if q < head {
                        assert(nodes@[q] == nodes_before[q]);
                        assert(queue@[q] == q_before[q]);
                    } else {
                        assert(queue@[q] == nid);
                    }
                }
            }
            head = head + 1;
        }
        proof {
            assert(flattened_from(nodes@, arena@, root as int, queue@));
        }
        FlatTree { nodes, attrs }
    }
}

/// Number of `false` entries.
pub open spec fn count_false(s: Seq<bool>) -> nat
    decreases s.len(),
{
    if s.len() == 0 {
        0
    } else {
        count_false(s.drop_last()) + if s.last() {
            0nat
        } else {
            1nat
        }
    }
}

proof fn lemma_count_false_set(s: Seq<bool>, i: int)
    requires
        0 <= i < s.len(),
        !s[i],
    ensures
        count_false(s.update(i, true)) + 1 == count_false(s),
    decreases s.len(),
{
    let u = s.update(i, true);
    if i == s.len() - 1 {
        assert(u.drop_last() =~= s.drop_last());
    } else {
        assert(u.drop_last() =~= s.drop_last().update(i, true));
        lemma_count_false_set(s.drop_last(), i);
    }
}

} // verus!

verus! {

impl FlatTree {
    /// The root node (always index 0).
    pub fn root(&self) -> (r: &FlatNode)
        requires
            self.wf(),
        ensures
            *r == self.nodes@[0],
    {
        &self.nodes[0]
    }

    /// The attributes of a node, as a slice of the pool.
    pub fn attrs_of(&self, node: &FlatNode) -> (r: &[(String, String)])
        requires
            node.attr_len == 0 || node.attr_start + node.attr_len <= self.attrs@.len(),
        ensures
            r@ == (if node.attr_len == 0 {
                Seq::empty()
            } else {
                self.attrs@.subrange(node.attr_start as int, node.attr_start + node.attr_len)
            }),
    {
        if node.attr_len == 0 {
            return &[];
        }
        let start = node.attr_start as usize;
        let len = node.attr_len as usize;
        let total = self.attrs.len();
        assert(start + len <= total);
        vstd::slice::slice_subrange(self.attrs.as_slice(), start, start + len)
    }

    /// The children of a node, as a slice of the node vector.
    pub fn children_of(&self, node: &FlatNode) -> (r: &[FlatNode])
        requires
            node.children_len == 0 || node.children_start + node.children_len <= self.nodes@.len(),
        ensures
            r@ == (if node.children_len == 0 {
                Seq::empty()
            } else {
                self.nodes@.subrange(node.children_start as int, node.children_start + node.children_len)
            }),
    {
        if node.children_len == 0 {
            return &[];
        }
        let start = node.children_start as usize;
        let len = node.children_len as usize;
        let total = self.nodes.len();
        assert(start + len <= total);
        vstd::slice::slice_subrange(self.nodes.as_slice(), start, start + len)
    }

    /// The runs of same-named children of a node.
    pub fn iter_child_groups<'a>(&'a self, node: &'a FlatNode) -> (r: FlatChildGroupIter<'a>)
        requires
            node.children_len == 0 || node.children_start + node.children_len <= self.nodes@.len(),
        ensures
            r.children@ == (if node.children_len == 0 {
                Seq::empty()
            } else {
                self.nodes@.subrange(node.children_start as int, node.children_start + node.children_len)
            }),
            r.pos == 0,
    {
        FlatChildGroupIter { children: self.children_of(node), pos: 0 }
    }

    /// Total number of nodes.
    pub fn len(&self) -> (r: usize)
        ensures
            r == self.nodes@.len(),
    {
        self.nodes.len()
    }

    /// Whether the tree has no nodes.
    pub fn is_empty(&self) -> (r: bool)
        ensures
            r == (self.nodes@.len() == 0),
    {
        self.nodes.len() == 0
    }
}

/// Walks the children of a node run by run: each run is a maximal slice of
/// consecutive children that share a name.
pub struct FlatChildGroupIter<'a> {
    pub children: &'a [FlatNode],
    pub pos: usize,
}

impl<'a> FlatChildGroupIter<'a> {
    /// The next run of same-named children, or `None` past the end.
    pub fn next(&mut self) -> (r: Option<&'a [FlatNode]>)
        requires
            old(self).pos <= old(self).children@.len(),
        ensures
            final(self).children == old(self).children,
            final(self).pos <= final(self).children@.len(),
            old(self).pos == old(self).children@.len() ==> r is None && final(self).pos == old(self).pos,
            old(self).pos < old(self).children@.len() ==> {
                let s = old(self).pos as int;
                let e = final(self).pos as int;
                let kids = old(self).children@;
                &&& s < e <= kids.len()
                &&& r is Some && r->0@ == kids.subrange(s, e)
                &&& forall|k: int| s <= k < e ==> (#[trigger] kids[k]).name@ == kids[s].name@
                &&& e < kids.len() ==> kids[e].name@ != kids[s].name@
            },
    {
        if self.pos >= self.children.len() {
            return None;
        }
        let start = self.pos;
        let mut p = start + 1;
        while p < self.children.len()
            invariant
                start < p <= self.children@.len(),
                forall|k: int| start <= k < p ==> (#[trigger] self.children@[k]).name@ == self.children@[start as int].name@,
            ensures
                start < p <= self.children@.len(),
                forall|k: int| start <= k < p ==> (#[trigger] self.children@[k]).name@ == self.children@[start as int].name@,
                p < self.children@.len() ==> self.children@[p as int].name@ != self.children@[start as int].name@,
            decreases self.children@.len() - p,
        {
            if !crate::text::str_eq(self.children[p].name.as_str(), self.children[start].name.as_str()) {
                break;
            }
            p = p + 1;
        }
        self.pos = p;
        Some(vstd::slice::slice_subrange(self.children, start, p))
    }
}

/// The end of the run of nodes named like node `start`, looking from `e` on
/// and stopping at `ce`.
pub open spec fn run_end(nodes: Seq<FlatNode>, start: int, e: int, ce: int) -> int
    decreases ce - e,
{
    if e < ce && nodes[e].name@ == nodes[start].name@ {
        run_end(nodes, start, e + 1, ce)
    } else {
        e
    }
}

/// The run end never passes `ce` and, looking from `e <= ce`, never comes
/// before `e`.
pub proof fn lemma_run_end_bounds(nodes: Seq<FlatNode>, start: int, e: int, ce: int)
    requires
        e <= ce,
    ensures
        e <= run_end(nodes, start, e, ce) <= ce,
    decreases ce - e,
{
    if e < ce && nodes[e].name@ == nodes[start].name@ {
        lemma_run_end_bounds(nodes, start, e + 1, ce);
    }
}

/// The index just past the run of nodes named like node `start`, among the
/// nodes `start .. ce`.
pub fn group_end(flat: &FlatTree, start: usize, ce: usize) -> (e: usize)
    requires
        start < ce <= flat.nodes@.len(),
    ensures
        e == run_end(flat.nodes@, start as int, start + 1, ce as int),
        start < e <= ce,
{
    let mut e = start + 1;
    while e < ce && crate::text::str_eq(flat.nodes[e].name.as_str(), flat.nodes[start].name.as_str())
        invariant
            start < e <= ce <= flat.nodes@.len(),
            run_end(flat.nodes@, start as int, start + 1, ce as int) == run_end(flat.nodes@, start as int, e as int, ce as int),
        decreases ce - e,
    {
        e = e + 1;
    }
    e
}

/// The text of a node, empty when it has none.
pub open spec fn node_text(n: FlatNode) -> Seq<char> {
    match n.text {
        Some(t) => t@,
        None => Seq::empty(),
    }
}

/// Whether a node has a text that is not empty.
pub open spec fn node_has_text(n: FlatNode) -> bool {
    n.text matches Some(t) && t@.len() > 0
}

/// Whether a node's optional text is present and not empty.
pub fn has_text(node: &FlatNode) -> (r: bool)
    ensures
        r == node_has_text(*node),
{
    match &node.text {
        Some(t) => t.unicode_len() > 0,
        None => false,
    }
}

/// The attributes of a node, as [`FlatTree::attrs_of`] gives them.
pub open spec fn node_attrs(t: FlatTree, n: FlatNode) -> Seq<(String, String)> {
    if n.attr_len == 0 {
        Seq::empty()
    } else {
        t.attrs@.subrange(n.attr_start as int, n.attr_start + n.attr_len)
    }
}

/// Whether `arena` holds the nodes of `t` with every node's children
/// regrouped by name (see [`regroup`]), all else kept.
pub open spec fn regrouped(arena: Seq<Node>, t: OutputTree) -> bool {
    &&& arena.len() == t.spec_node_count()
    &&& forall|j: int| 0 <= j < arena.len() ==> #[trigger] arena[j].name@ == t.spec_name(j)
    &&& forall|j: int| 0 <= j < arena.len() ==> #[trigger] text_view(arena[j].text) == t.spec_text(j)
    &&& forall|j: int| 0 <= j < arena.len() ==> #[trigger] arena[j].attr_start == t.spec_arena()[j].attr_start
    &&& forall|j: int| 0 <= j < arena.len() ==> #[trigger] arena[j].attr_len == t.spec_arena()[j].attr_len
    &&& forall|j: int| 0 <= j < arena.len() ==> #[trigger] arena[j].children@ == regroup(t.spec_children(j), name_of(t.spec_arena()))
}

impl OutputTree {
    /// Regroups every node's children by name (see [`regroup`]), then flattens
    /// the tree breadth-first from the root.
    pub fn compact_and_flatten(self) -> (r: FlatTree)
        requires
            self.wf(),
        ensures
            r.wf(),
            exists|arena: Seq<Node>, order: Seq<NodeId>|
                #[trigger] regrouped(arena, self) && #[trigger] flattened_from(r.nodes@, arena, 0, order),
            r.attrs@ == self.spec_pool(),
            r.nodes@[0].name@ == self.spec_name(0),
            text_view(r.nodes@[0].text) == self.spec_text(0),
            r.attrs@.subrange(r.nodes@[0].attr_start as int, r.nodes@[0].attr_start + r.nodes@[0].attr_len)
                == self.spec_pool().subrange(
                self.spec_arena()[0].attr_start as int,
                self.spec_arena()[0].attr_start + self.spec_arena()[0].attr_len,
            ),
    {
        let mut t = self;
        let n = t.arena.len();
        let mut i: usize = 0;
        while i < n
            invariant
                t.wf(),
                n == t.spec_node_count() == self.spec_node_count(),
                t.spec_pool() == self.spec_pool(),
                t.spec_name(0) == self.spec_name(0),
                t.spec_text(0) == self.spec_text(0),
                t.spec_arena()[0].attr_start == self.spec_arena()[0].attr_start,
                t.spec_arena()[0].attr_len == self.spec_arena()[0].attr_len,
                i <= n,
                forall|j: int| 0 <= j < n ==> #[trigger] t.spec_arena()[j].name@ == self.spec_arena()[j].name@,
                forall|j: int| 0 <= j < n ==> #[trigger] text_view(t.spec_arena()[j].text) == text_view(self.spec_arena()[j].text),
                forall|j: int| 0 <= j < n ==> #[trigger] t.spec_arena()[j].attr_start == self.spec_arena()[j].attr_start,
                forall|j: int| 0 <= j < n ==> #[trigger] t.spec_arena()[j].attr_len == self.spec_arena()[j].attr_len,
                forall|j: int| 0 <= j < i ==> #[trigger] t.spec_children(j) == regroup(self.spec_children(j), name_of(self.spec_arena())),
                forall|j: int| i <= j < n ==> #[trigger] t.spec_children(j) == self.spec_children(j),
            decreases n - i,
        {
            let ghost before = t;
            t.regroup_children(i as NodeId);
            proof {
                assert forall|j: int| 0 <= j < n implies #[trigger] t.spec_arena()[j].name@ == self.spec_arena()[j].name@ by {
                    assert(t.spec_name(j) == before.spec_name(j));
                }
                assert forall|j: int| 0 <= j < n implies #[trigger] text_view(t.spec_arena()[j].text) == text_view(self.spec_arena()[j].text) by {
                    assert(t.spec_text(j) == before.spec_text(j));
                    assert(text_view(before.spec_arena()[j].text) == text_view(self.spec_arena()[j].text));
                    assert(text_view(before.spec_arena()[j].text) == before.spec_text(j));
                    assert(text_view(t.spec_arena()[j].text) == t.spec_text(j));
                }
                let kids = before.spec_children(i as int);
                assert(kids == self.spec_children(i as int));
                assert forall|k: int| 0 <= k < kids.len() implies name_of(before.spec_arena())(#[trigger] kids[k]) == name_of(self.spec_arena())(kids[k]) by {
                    assert(before.arena@[i as int].children@[k] == kids[k]);
                    assert(kids[k] < n);
                    assert(before.spec_arena()[kids[k] as int].name@ == self.spec_arena()[kids[k] as int].name@);
                }
                lemma_regroup_congruent(kids, name_of(before.spec_arena()), name_of(self.spec_arena()));
                assert forall|j: int| 0 <= j < i + 1 implies #[trigger] t.spec_children(j) == regroup(self.spec_children(j), name_of(self.spec_arena())) by {
                    if j != i {
                        assert(t.spec_arena()[j] == before.spec_arena()[j]);
                        assert(before.spec_children(j) == regroup(self.spec_children(j), name_of(self.spec_arena())));
                    }
                }
                assert forall|j: int| i + 1 <= j < n implies #[trigger] t.spec_children(j) == self.spec_children(j) by {
                    assert(t.spec_arena()[j] == before.spec_arena()[j]);
                    assert(before.spec_children(j) == self.spec_children(j));
                }
                if i != 0 {
                    assert(t.spec_arena()[0] == before.spec_arena()[0]);
                } else {
                    assert(t.spec_name(0) == before.spec_name(0));
                    assert(t.spec_text(0) == before.spec_text(0));
                    assert(t.spec_arena()[0].attr_start == before.spec_arena()[0].attr_start);
                }
            }
            i = i + 1;
        }
        let OutputTree { arena, attr_pool, root_id, stack: _ } = t;
        let ghost a = arena@;
        let r = FlatTree::from_arena(arena, attr_pool, root_id);
        proof {
            assert forall|j: int| 0 <= j < a.len() implies #[trigger] text_view(a[j].text) == self.spec_text(j) by {
                assert(text_view(t.spec_arena()[j].text) == text_view(self.spec_arena()[j].text));
            }
            assert forall|j: int| 0 <= j < a.len() implies #[trigger] a[j].children@ == regroup(self.spec_children(j), name_of(self.spec_arena())) by {
                assert(t.spec_children(j) == regroup(self.spec_children(j), name_of(self.spec_arena())));
            }
            assert forall|j: int| 0 <= j < a.len() implies #[trigger] a[j].name@ == self.spec_name(j) by {
                assert(t.spec_arena()[j].name@ == self.spec_arena()[j].name@);
            }
            assert(regrouped(a, self));
        }
        r
    }
}

} // verus!
