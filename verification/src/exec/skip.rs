//! Byte-scanning matchers for the regular expressions that [`FastPathKind`]
//! classifies.  On UTF-8 text each scanner either gives the length of the
//! match at the start of the text that the regex it stands for gives, or
//! leaves the decision to the regex (it answers `None`); the skip statements
//! then match the regex itself.  A scanner leaves it to the regex where a
//! character outside ASCII decides (`\s`, `\S`, `\d`, `\w` and `.` are
//! Unicode classes), and wherever the pattern does not match.

use vstd::prelude::*;
use crate::bytes::{ByteClass, run_len, lemma_run_len_facts, lemma_run_len_is, in_class, count_run, memchr_first, memchr2_first};
use crate::parser::ast::{FastPathKind, classify_fast_path, classify_spec};

verus! {

/// Length of the longest run of line endings (`\n` or `\r\n`) at the start of `s`.
pub open spec fn crnl_run(s: Seq<u8>) -> nat
    decreases s.len(),
{
    if s.len() > 0 && s[0] == 10 {
        1 + crnl_run(s.subrange(1, s.len() as int))
    } else if s.len() > 1 && s[0] == 13 && s[1] == 10 {
        2 + crnl_run(s.subrange(2, s.len() as int))
    } else {
        0
    }
}

pub open spec fn is_crlf_byte(b: u8) -> bool {
    b == 13 || b == 10
}

/// Index just past the first byte of class "not `c`" in `s`, when there is one:
/// the length of a match of `[^...]*X` where the run stops at `X`.
pub open spec fn through_first(s: Seq<u8>, c: ByteClass) -> Option<int> {
    if run_len(s, c) < s.len() {
        Some((run_len(s, c) + 1) as int)
    } else {
        None
    }
}

/// `Some(n)` for a run of length `n > 0`, else `None`.
pub open spec fn nonempty(n: nat) -> Option<int> {
    if n > 0 {
        Some(n as int)
    } else {
        None
    }
}

/// The line ending (`\n` or `\r\n`) at index `k`: the index just past it.
pub open spec fn crnl_at(s: Seq<u8>, k: int) -> Option<int> {
    if 0 <= k < s.len() && s[k] == 10 {
        Some(k + 1)
    } else if 0 <= k && k + 1 < s.len() && s[k] == 13 && s[k + 1] == 10 {
        Some(k + 2)
    } else {
        None
    }
}

/// A run of ASCII bytes of a class standing for a Unicode class: its length
/// when it is not empty and no character outside ASCII follows it (that one
/// might belong to the Unicode class); else no answer.
pub open spec fn ascii_run(s: Seq<u8>, c: ByteClass) -> Option<int> {
    let k = run_len(s, c);
    if k < s.len() && s[k as int] >= 128 {
        None
    } else {
        nonempty(k)
    }
}

/// What the scanner of each kind answers at the start of `s`.  On UTF-8 text
/// a `Some(n)` is the length of the match of the regex the kind stands for
/// (`[^\n]*\n`, `\s+`, `[^\r\n]*\r?\n`, ...); `None` leaves the decision
/// to that regex.
pub open spec fn fast_skip_spec(kind: FastPathKind, s: Seq<u8>) -> Option<int> {
    let len = s.len() as int;
    let not_nl = ByteClass::Other(10);
    let not_crlf = ByteClass::Neither(13, 10);
    let crlf = ByteClass::Either(13, 10);
    if len == 0 {
        None
    } else {
        match kind {
            FastPathKind::SkipToNewline => through_first(s, not_nl),
            FastPathKind::SkipToNewlinePlus => if run_len(s, not_nl) >= 1 {
                through_first(s, not_nl)
            } else {
                None
            },
            FastPathKind::SkipToCrLf => through_first(s, not_crlf),
            FastPathKind::SkipToCrLfPlus => if run_len(s, not_crlf) >= 1 {
                through_first(s, not_crlf)
            } else {
                None
            },
            FastPathKind::CommentBangHash => if s[0] == 33 || s[0] == 35 {
                match through_first(s.drop_first(), not_crlf) {
                    Some(k) => Some(k + 1),
                    None => None,
                }
            } else {
                None
            },
            FastPathKind::CommentHashPlus => if s[0] == 35 && run_len(s.drop_first(), not_crlf) < len
                - 1 {
                let line_end = (1 + run_len(s.drop_first(), not_crlf)) as int;
                Some(line_end + run_len(s.subrange(line_end, len), crlf))
            } else {
                None
            },
            FastPathKind::DotStarNewline => through_first(s, not_nl),
            FastPathKind::Whitespace => ascii_run(s, ByteClass::AsciiSpace),
            FastPathKind::NonWhitespace => ascii_run(s, ByteClass::AsciiNonSpace),
            FastPathKind::Digits => ascii_run(s, ByteClass::AsciiDigit),
            FastPathKind::WordChars => ascii_run(s, ByteClass::Word),
            FastPathKind::HorizWhitespace => nonempty(run_len(s, ByteClass::Either(9, 32))),
            FastPathKind::CrLfPlus => nonempty(run_len(s, crlf)),
            FastPathKind::CrLf => if is_crlf_byte(s[0]) {
                Some(1)
            } else {
                None
            },
            FastPathKind::NonCrLfPlus => nonempty(run_len(s, not_crlf)),
            FastPathKind::NonCrLfStar => Some(run_len(s, not_crlf) as int),
            FastPathKind::NonCrLf => if !is_crlf_byte(s[0]) && s[0] < 128 {
                Some(1)
            } else {
                None
            },
            FastPathKind::SpacesNewlines => {
                let sp = run_len(s, ByteClass::Is(32)) as int;
                let nl = run_len(s.subrange(sp, len), crlf);
                if nl > 0 {
                    Some(sp + nl)
                } else {
                    None
                }
            },
            FastPathKind::OptCrNl => if s[0] == 10 {
                Some(1)
            } else if s[0] == 13 && len > 1 && s[1] == 10 {
                Some(2)
            } else {
                None
            },
            FastPathKind::OptCrNlPlus => nonempty(crnl_run(s)),
            FastPathKind::SkipToOptCrNl => crnl_at(s, run_len(s, not_crlf) as int),
            FastPathKind::SkipToOptCrNlPlus => if run_len(s, not_crlf) >= 1 {
                crnl_at(s, run_len(s, not_crlf) as int)
            } else {
                None
            },
            FastPathKind::CommentBangHashOpt => if s[0] == 33 || s[0] == 35 {
                crnl_at(s, (1 + run_len(s.drop_first(), not_crlf)) as int)
            } else {
                None
            },
            FastPathKind::CommentHashPlusOpt => if s[0] == 35 {
                let p = (1 + run_len(s.drop_first(), not_crlf)) as int;
                nonempty_from(p, crnl_run(s.subrange(p, len)))
            } else {
                None
            },
            FastPathKind::SpacesOptCrNlPlus => {
                let sp = run_len(s, ByteClass::Is(32)) as int;
                let p = crnl_run(s.subrange(sp, len));
                if p > 0 {
                    Some(sp + p)
                } else {
                    None
                }
            },
            FastPathKind::Newline => if s[0] == 10 {
                Some(1)
            } else {
                None
            },
            FastPathKind::Dot => if s[0] != 10 && s[0] < 128 {
                Some(1)
            } else {
                None
            },
            FastPathKind::Unclassified => None,
        }
    }
}

/// `Some(p + n)` when `n > 0`, else `None`.
pub open spec fn nonempty_from(p: int, n: nat) -> Option<int> {
    if n > 0 {
        Some(p + n)
    } else {
        None
    }
}

proof fn lemma_crnl_unfold(s: Seq<u8>, pos: int)
    requires
        0 <= pos <= s.len(),
    ensures
        ({
            let t = s.subrange(pos, s.len() as int);
            &&& pos < s.len() && s[pos] == 10 ==> crnl_run(t) == 1 + crnl_run(
                s.subrange(pos + 1, s.len() as int),
            )
            &&& !(pos < s.len() && s[pos] == 10) && pos + 1 < s.len() && s[pos] == 13 && s[pos
                + 1] == 10 ==> crnl_run(t) == 2 + crnl_run(s.subrange(pos + 2, s.len() as int))
            &&& !(pos < s.len() && s[pos] == 10) && !(pos + 1 < s.len() && s[pos] == 13 && s[pos
                + 1] == 10) ==> crnl_run(t) == 0
        }),
{
    let t = s.subrange(pos, s.len() as int);
    if t.len() > 0 {
        assert(t[0] == s[pos]);
        assert(t.subrange(1, t.len() as int) =~= s.subrange(pos + 1, s.len() as int));
    }
    if t.len() > 1 {
        assert(t[1] == s[pos + 1]);
        assert(t.subrange(2, t.len() as int) =~= s.subrange(pos + 2, s.len() as int));
    }
}

/// The length of the run of line endings (`\n` or `\r\n`) in `b` from `start` on.
pub fn count_line_endings(b: &[u8], start: usize) -> (n: usize)
    requires
        start <= b@.len(),
    ensures
        n == crnl_run(b@.subrange(start as int, b@.len() as int)),
        start + n <= b@.len(),
{
    let mut pos = start;
    loop
        invariant
            start <= pos <= b@.len(),
            crnl_run(b@.subrange(start as int, b@.len() as int)) == (pos - start) + crnl_run(
                b@.subrange(pos as int, b@.len() as int),
            ),
        ensures
            start <= pos <= b@.len(),
            crnl_run(b@.subrange(pos as int, b@.len() as int)) == 0,
            crnl_run(b@.subrange(start as int, b@.len() as int)) == pos - start,
        decreases b@.len() - pos,
    {
        proof {
            lemma_crnl_unfold(b@, pos as int);
        }
        if pos < b.len() && b[pos] == 10 {
            pos = pos + 1;
        } else if b.len() - pos >= 2 && b[pos] == 13 && b[pos + 1] == 10 {
            pos = pos + 2;
        } else {
            break;
        }
    }
    pos - start
}

proof fn lemma_drop_first_sub(s: Seq<u8>)
    requires
        s.len() > 0,
    ensures
        s.drop_first() =~= s.subrange(1, s.len() as int),
{
}

/// Attempt to match the pattern a [`FastPathKind`] stands for at the start of `rem`
/// by scanning bytes; `None` when it does not match (or for `Unclassified`).
pub fn try_fast_skip_kind(kind: FastPathKind, rem: &[u8]) -> (r: Option<usize>)
    ensures
        r matches Some(n) ==> n <= rem@.len(),
        fast_skip_spec(kind, rem@) == (match r {
            Some(n) => Some(n as int),
            None => None::<int>,
        }),
        r matches Some(n) ==> regex_match_spec(kind, rem@.subrange(0, n as int)),
        forall|k: int|
            0 <= k <= rem@.len() && rem@.len() > 0 && #[trigger] regex_match_spec(kind, rem@.subrange(0, k))
                && (unicode_class_kind(kind) ==> forall|i: int| 0 <= i < rem@.len() ==> #[trigger] rem@[i] < 128)
                ==> (r matches Some(n) && k <= n),
{
    proof {
        lemma_fast_skip_sound(kind, rem@);
        assert forall|k: int|
            0 <= k <= rem@.len() && rem@.len() > 0 && #[trigger] regex_match_spec(kind, rem@.subrange(0, k))
                && (unicode_class_kind(kind) ==> forall|i: int| 0 <= i < rem@.len() ==> #[trigger] rem@[i] < 128)
            implies fast_skip_spec(kind, rem@) matches Some(n) && k <= n by {
            lemma_fast_skip_longest(kind, rem@, k);
        }
    }
    let bytes = rem;
    let len = bytes.len();
    if len == 0 {
        return None;
    }
    let ghost s = bytes@;
    proof {
        lemma_run_len_facts(s, ByteClass::Other(10));
        lemma_run_len_facts(s, ByteClass::Neither(13, 10));
        lemma_drop_first_sub(s);
        assert(s.subrange(0, s.len() as int) =~= s);
    }
    match kind {
        FastPathKind::SkipToNewline | FastPathKind::DotStarNewline => {
            match memchr_first(10, bytes) {
                Some(pos) => Some(pos + 1),
                None => None,
            }
        },
        FastPathKind::SkipToNewlinePlus => {
            if let Some(pos) = memchr_first(10, bytes) {
                if pos >= 1 {
                    Some(pos + 1)
                } else {
                    None
                }
            } else {
                None
            }
        },
        FastPathKind::SkipToCrLf => match memchr2_first(13, 10, bytes) {
            Some(pos) => Some(pos + 1),
            None => None,
        },
        FastPathKind::SkipToCrLfPlus => {
            if let Some(pos) = memchr2_first(13, 10, bytes) {
                if pos >= 1 {
                    Some(pos + 1)
                } else {
                    None
                }
            } else {
                None
            }
        },
        FastPathKind::CommentBangHash => {
            if bytes[0] == 33 || bytes[0] == 35 {
                let tail = vstd::slice::slice_subrange(bytes, 1, len);
                if let Some(pos) = memchr2_first(13, 10, tail) {
                    return Some(1 + pos + 1);
                }
            }
            None
        },
        FastPathKind::CommentHashPlus => {
            if bytes[0] == 35 {
                let tail = vstd::slice::slice_subrange(bytes, 1, len);
                if let Some(pos) = memchr2_first(13, 10, tail) {
                    let line_end = 1 + pos;
                    let trailing = count_run(bytes, line_end, ByteClass::Either(13, 10));
                    proof {
                        lemma_run_len_facts(s.subrange(line_end as int, len as int), ByteClass::Either(13, 10));
                        let t = s.subrange(line_end as int, len as int);
                        assert(t[0] == s[line_end as int]);
                        assert(s[line_end as int] == tail@[pos as int]);
                        lemma_run_len_facts(tail@, ByteClass::Neither(13, 10));
                    }
                    if trailing > 0 {
                        return Some(line_end + trailing);
                    }
                }
            }
            None
        },
        FastPathKind::Whitespace => scan_ascii_run(bytes, ByteClass::AsciiSpace),
        FastPathKind::NonWhitespace => scan_ascii_run(bytes, ByteClass::AsciiNonSpace),
        FastPathKind::Digits => scan_ascii_run(bytes, ByteClass::AsciiDigit),
        FastPathKind::WordChars => scan_ascii_run(bytes, ByteClass::Word),
        FastPathKind::HorizWhitespace => {
            let count = count_run(bytes, 0, ByteClass::Either(9, 32));
            if count > 0 {
                Some(count)
            } else {
                None
            }
        },
        FastPathKind::CrLfPlus => {
            let count = count_run(bytes, 0, ByteClass::Either(13, 10));
            if count > 0 {
                Some(count)
            } else {
                None
            }
        },
        FastPathKind::CrLf => {
            if bytes[0] == 13 || bytes[0] == 10 {
                Some(1)
            } else {
                None
            }
        },
        FastPathKind::NonCrLfPlus => {
            if let Some(pos) = memchr2_first(13, 10, bytes) {
                if pos > 0 {
                    Some(pos)
                } else {
                    None
                }
            } else {
                Some(len)
            }
        },
        FastPathKind::NonCrLfStar => {
            if let Some(pos) = memchr2_first(13, 10, bytes) {
                Some(pos)
            } else {
                Some(len)
            }
        },
        FastPathKind::NonCrLf => {
            if bytes[0] != 13 && bytes[0] != 10 && bytes[0] < 128 {
                Some(1)
            } else {
                None
            }
        },
        FastPathKind::SpacesNewlines => {
            let spaces = count_run(bytes, 0, ByteClass::Is(32));
            let newlines = count_run(bytes, spaces, ByteClass::Either(13, 10));
            if newlines > 0 {
                Some(spaces + newlines)
            } else {
                None
            }
        },
        FastPathKind::OptCrNl => {
            if bytes[0] == 10 {
                Some(1)
            } else if bytes[0] == 13 && len > 1 && bytes[1] == 10 {
                Some(2)
            } else {
                None
            }
        },
        FastPathKind::OptCrNlPlus => {
            let n = count_line_endings(bytes, 0);
            if n > 0 {
                Some(n)
            } else {
                None
            }
        },
        FastPathKind::SkipToOptCrNl => {
            let k = count_run(bytes, 0, ByteClass::Neither(13, 10));
            line_end_at(bytes, k)
        },
        FastPathKind::SkipToOptCrNlPlus => {
            let k = count_run(bytes, 0, ByteClass::Neither(13, 10));
            if k >= 1 {
                line_end_at(bytes, k)
            } else {
                None
            }
        },
        FastPathKind::CommentBangHashOpt => {
            if bytes[0] == 33 || bytes[0] == 35 {
                let k = count_run(bytes, 1, ByteClass::Neither(13, 10));
                line_end_at(bytes, 1 + k)
            } else {
                None
            }
        },
        FastPathKind::CommentHashPlusOpt => {
            if bytes[0] == 35 {
                let k = count_run(bytes, 1, ByteClass::Neither(13, 10));
                let p = 1 + k;
                let more = count_line_endings(bytes, p);
                if more > 0 {
                    Some(p + more)
                } else {
                    None
                }
            } else {
                None
            }
        },
        FastPathKind::SpacesOptCrNlPlus => {
            let spaces = count_run(bytes, 0, ByteClass::Is(32));
            let n = count_line_endings(bytes, spaces);
            if n > 0 {
                Some(spaces + n)
            } else {
                None
            }
        },
        FastPathKind::Newline => {
            if bytes[0] == 10 {
                Some(1)
            } else {
                None
            }
        },
        FastPathKind::Dot => {
            if bytes[0] != 10 && bytes[0] < 128 {
                Some(1)
            } else {
                None
            }
        },
        FastPathKind::Unclassified => None,
    }
}

/// The line ending at index `k` of `b`: the index just past it.
fn line_end_at(b: &[u8], k: usize) -> (r: Option<usize>)
    requires
        k <= b@.len(),
    ensures
        r matches Some(n) ==> n <= b@.len(),
        crnl_at(b@, k as int) == (match r {
            Some(n) => Some(n as int),
            None => None::<int>,
        }),
{
    if k < b.len() && b[k] == 10 {
        Some(k + 1)
    } else if k < b.len() && b.len() - k >= 2 && b[k] == 13 && b[k + 1] == 10 {
        Some(k + 2)
    } else {
        None
    }
}

/// A run of ASCII bytes of a class at the start of `b`, as [`ascii_run`] says.
fn scan_ascii_run(b: &[u8], c: ByteClass) -> (r: Option<usize>)
    ensures
        r matches Some(n) ==> n <= b@.len(),
        ascii_run(b@, c) == (match r {
            Some(n) => Some(n as int),
            None => None::<int>,
        }),
{
    let count = count_run(b, 0, c);
    proof {
        assert(b@.subrange(0, b@.len() as int) =~= b@);
    }
    if count < b.len() && b[count] >= 128 {
        None
    } else if count > 0 {
        Some(count)
    } else {
        None
    }
}

/// Fast skip by pattern text: classifies the pattern, then scans.
pub fn try_fast_skip(pattern: &str, rem: &[u8]) -> (r: Option<usize>)
    ensures
        r matches Some(n) ==> n <= rem@.len(),
        fast_skip_spec(classify_spec(pattern@), rem@) == (match r {
            Some(n) => Some(n as int),
            None => None::<int>,
        }),
        r matches Some(n) ==> regex_match_spec(classify_spec(pattern@), rem@.subrange(0, n as int)),
        forall|k: int|
            0 <= k <= rem@.len() && rem@.len() > 0 && #[trigger] regex_match_spec(
                classify_spec(pattern@),
                rem@.subrange(0, k),
            ) && (unicode_class_kind(classify_spec(pattern@)) ==> forall|i: int|
                0 <= i < rem@.len() ==> #[trigger] rem@[i] < 128) ==> (r matches Some(n) && k <= n),
{
    let kind = classify_fast_path(pattern);
    try_fast_skip_kind(kind, rem)
}

} // verus!

verus! {

// ---------------------------------------------------------------------------
// The byte strings each classified pattern matches
// ---------------------------------------------------------------------------

/// No byte of `m[a..b]` is `\n`.
pub open spec fn no_nl(m: Seq<u8>, a: int, b: int) -> bool {
    forall|i: int| a <= i < b ==> m[i] != 10
}

/// No byte of `m[a..b]` is `\r` or `\n`.
pub open spec fn no_crlf(m: Seq<u8>, a: int, b: int) -> bool {
    forall|i: int| a <= i < b ==> m[i] != 10 && m[i] != 13
}

/// Every byte of `m[a..b]` is `\r` or `\n`.
pub open spec fn all_crlf(m: Seq<u8>, a: int, b: int) -> bool {
    forall|i: int| a <= i < b ==> m[i] == 10 || m[i] == 13
}

/// Every byte of `m[a..b]` is a space.
pub open spec fn all_spaces(m: Seq<u8>, a: int, b: int) -> bool {
    forall|i: int| a <= i < b ==> m[i] == 32
}

/// `m` is one line break: `\n` or `\r\n` (the regex `\r?\n`).
pub open spec fn is_line_break(m: Seq<u8>) -> bool {
    m == seq![10u8] || m == seq![13u8, 10u8]
}

/// `m` is a sequence of line breaks (the regex `(?:\r?\n)*`).
pub open spec fn line_breaks(m: Seq<u8>) -> bool
    decreases m.len(),
{
    if m.len() == 0 {
        true
    } else if m[0] == 10 {
        line_breaks(m.subrange(1, m.len() as int))
    } else if m.len() >= 2 && m[0] == 13 && m[1] == 10 {
        line_breaks(m.subrange(2, m.len() as int))
    } else {
        false
    }
}

/// Whether the bytes `m` are a whole match of the regex a kind stands for, on
/// ASCII where the regex class is a Unicode one (`\s`, `\S`, `\d`, `\w`, `.`).
pub open spec fn regex_match_spec(kind: FastPathKind, m: Seq<u8>) -> bool {
    let n = m.len() as int;
    match kind {
        FastPathKind::SkipToNewline | FastPathKind::DotStarNewline => n >= 1 && m[n - 1] == 10 && no_nl(
            m,
            0,
            n - 1,
        ),
        FastPathKind::SkipToNewlinePlus => n >= 2 && m[n - 1] == 10 && no_nl(m, 0, n - 1),
        FastPathKind::SkipToCrLf => n >= 1 && (m[n - 1] == 10 || m[n - 1] == 13) && no_crlf(m, 0, n - 1),
        FastPathKind::SkipToCrLfPlus => n >= 2 && (m[n - 1] == 10 || m[n - 1] == 13) && no_crlf(m, 0, n - 1),
        FastPathKind::CommentBangHash => n >= 2 && (m[0] == 33 || m[0] == 35) && (m[n - 1] == 10 || m[n - 1]
            == 13) && no_crlf(m, 1, n - 1),
        FastPathKind::CommentHashPlus => n >= 2 && m[0] == 35 && exists|j: int|
            1 <= j < n && #[trigger] no_crlf(m, 1, j) && all_crlf(m, j, n),
        FastPathKind::Whitespace => n >= 1 && forall|i: int| 0 <= i < n ==> (#[trigger] m[i] == 32 || (9 <= m[i] <= 13)),
        FastPathKind::NonWhitespace => n >= 1 && forall|i: int|
            0 <= i < n ==> #[trigger] m[i] < 128 && m[i] != 32 && !(9 <= m[i] <= 13),
        FastPathKind::Digits => n >= 1 && forall|i: int| 0 <= i < n ==> 48 <= #[trigger] m[i] <= 57,
        FastPathKind::WordChars => n >= 1 && forall|i: int|
            0 <= i < n ==> (65 <= #[trigger] m[i] <= 90 || 97 <= m[i] <= 122 || 48 <= m[i] <= 57 || m[i] == 95),
        FastPathKind::HorizWhitespace => n >= 1 && forall|i: int| 0 <= i < n ==> (#[trigger] m[i] == 9 || m[i] == 32),
        FastPathKind::CrLfPlus => n >= 1 && all_crlf(m, 0, n),
        FastPathKind::CrLf => n == 1 && (m[0] == 10 || m[0] == 13),
        FastPathKind::NonCrLfPlus => n >= 1 && no_crlf(m, 0, n),
        FastPathKind::NonCrLfStar => no_crlf(m, 0, n),
        FastPathKind::NonCrLf => n == 1 && m[0] < 128 && m[0] != 10 && m[0] != 13,
        FastPathKind::SpacesNewlines => exists|j: int|
            0 <= j < n && #[trigger] all_spaces(m, 0, j) && all_crlf(m, j, n),
        FastPathKind::OptCrNl => is_line_break(m),
        FastPathKind::OptCrNlPlus => n >= 1 && line_breaks(m),
        FastPathKind::SkipToOptCrNl => exists|j: int|
            0 <= j <= n && #[trigger] no_crlf(m, 0, j) && is_line_break(m.subrange(j, n)),
        FastPathKind::SkipToOptCrNlPlus => exists|j: int|
            1 <= j <= n && #[trigger] no_crlf(m, 0, j) && is_line_break(m.subrange(j, n)),
        FastPathKind::CommentBangHashOpt => n >= 1 && (m[0] == 33 || m[0] == 35) && exists|j: int|
            1 <= j <= n && #[trigger] no_crlf(m, 1, j) && is_line_break(m.subrange(j, n)),
        FastPathKind::CommentHashPlusOpt => n >= 1 && m[0] == 35 && exists|j: int|
            1 <= j < n && #[trigger] no_crlf(m, 1, j) && line_breaks(m.subrange(j, n)),
        FastPathKind::SpacesOptCrNlPlus => exists|j: int|
            0 <= j < n && #[trigger] all_spaces(m, 0, j) && line_breaks(m.subrange(j, n)),
        FastPathKind::Newline => m == seq![10u8],
        FastPathKind::Dot => n == 1 && m[0] != 10 && m[0] < 128,
        FastPathKind::Unclassified => false,
    }
}

proof fn lemma_crnl_run_breaks(s: Seq<u8>)
    ensures
        crnl_run(s) <= s.len(),
        line_breaks(s.subrange(0, crnl_run(s) as int)),
    decreases s.len(),
{
    let c = crnl_run(s) as int;
    if s.len() > 0 && s[0] == 10 {
        let t = s.subrange(1, s.len() as int);
        lemma_crnl_run_breaks(t);
        let m = s.subrange(0, c);
        assert(m[0] == 10);
        assert(m.subrange(1, m.len() as int) =~= t.subrange(0, crnl_run(t) as int));
    } else if s.len() > 1 && s[0] == 13 && s[1] == 10 {
        let t = s.subrange(2, s.len() as int);
        lemma_crnl_run_breaks(t);
        let m = s.subrange(0, c);
        assert(m[0] == 13 && m[1] == 10);
        assert(m.subrange(2, m.len() as int) =~= t.subrange(0, crnl_run(t) as int));
    } else {
        assert(s.subrange(0, c).len() == 0);
    }
}

proof fn lemma_crnl_at_break(s: Seq<u8>, k: int)
    ensures
        crnl_at(s, k) matches Some(e) ==> k < e <= s.len() && is_line_break(s.subrange(k, e)),
{
    if 0 <= k < s.len() && s[k] == 10 {
        assert(s.subrange(k, k + 1) =~= seq![10u8]);
    } else if 0 <= k && k + 1 < s.len() && s[k] == 13 && s[k + 1] == 10 {
        assert(s.subrange(k, k + 2) =~= seq![13u8, 10u8]);
    }
}

/// Every answer of a scanner is a match of the regex its kind stands for: a
/// `Some(n)` means that the first `n` bytes of `s` match the pattern as a
/// whole, so the scanner never skips what the regex would not.
pub proof fn lemma_fast_skip_sound(kind: FastPathKind, s: Seq<u8>)
    ensures
        fast_skip_spec(kind, s) matches Some(n) ==> 0 <= n <= s.len() && regex_match_spec(
            kind,
            s.subrange(0, n),
        ),
{
    let len = s.len() as int;
    if len == 0 {
        return;
    }
    let not_nl = ByteClass::Other(10);
    let not_crlf = ByteClass::Neither(13, 10);
    let crlf = ByteClass::Either(13, 10);
    lemma_run_len_facts(s, not_nl);
    lemma_run_len_facts(s, not_crlf);
    lemma_run_len_facts(s, crlf);
    let d = s.drop_first();
    lemma_run_len_facts(d, not_crlf);
    assert(d =~= s.subrange(1, len));
    match fast_skip_spec(kind, s) {
        None => {},
        Some(n) => {
            let m = s.subrange(0, n);
            match kind {
                FastPathKind::SkipToNewline | FastPathKind::DotStarNewline | FastPathKind::SkipToNewlinePlus => {
                    assert(m[n - 1] == 10);
                    assert(no_nl(m, 0, n - 1));
                },
                FastPathKind::SkipToCrLf | FastPathKind::SkipToCrLfPlus => {
                    assert(m[n - 1] == 10 || m[n - 1] == 13);
                    assert(no_crlf(m, 0, n - 1));
                },
                FastPathKind::CommentBangHash => {
                    let r = run_len(d, not_crlf) as int;
                    assert(n == r + 2);
                    assert(m[n - 1] == d[r]);
                    assert(no_crlf(m, 1, n - 1)) by {
                        assert forall|i: int| 1 <= i < n - 1 implies m[i] != 10 && m[i] != 13 by {
                            assert(m[i] == d[i - 1]);
                        }
                    }
                },
                FastPathKind::CommentHashPlus => {
                    let r = run_len(d, not_crlf) as int;
                    let j = 1 + r;
                    let t = s.subrange(j, len);
                    lemma_run_len_facts(t, crlf);
                    assert(t[0] == d[r]);
                    assert(no_crlf(m, 1, j)) by {
                        assert forall|i: int| 1 <= i < j implies m[i] != 10 && m[i] != 13 by {
                            assert(m[i] == d[i - 1]);
                        }
                    }
                    assert(all_crlf(m, j, n)) by {
                        assert forall|i: int| j <= i < n implies m[i] == 10 || m[i] == 13 by {
                            assert(m[i] == t[i - j]);
                        }
                    }
                },
                FastPathKind::Whitespace => {
                    lemma_run_len_facts(s, ByteClass::AsciiSpace);
                },
                FastPathKind::NonWhitespace => {
                    lemma_run_len_facts(s, ByteClass::AsciiNonSpace);
                },
                FastPathKind::Digits => {
                    lemma_run_len_facts(s, ByteClass::AsciiDigit);
                },
                FastPathKind::WordChars => {
                    lemma_run_len_facts(s, ByteClass::Word);
                },
                FastPathKind::HorizWhitespace => {
                    lemma_run_len_facts(s, ByteClass::Either(9, 32));
                },
                FastPathKind::CrLfPlus => {
                    assert(all_crlf(m, 0, n));
                },
                FastPathKind::NonCrLfPlus | FastPathKind::NonCrLfStar => {
                    assert(no_crlf(m, 0, n));
                },
                FastPathKind::SpacesNewlines => {
                    let sp = run_len(s, ByteClass::Is(32)) as int;
                    lemma_run_len_facts(s, ByteClass::Is(32));
                    let t = s.subrange(sp, len);
                    lemma_run_len_facts(t, crlf);
                    assert(all_spaces(m, 0, sp));
                    assert(all_crlf(m, sp, n)) by {
                        assert forall|i: int| sp <= i < n implies m[i] == 10 || m[i] == 13 by {
                            assert(m[i] == t[i - sp]);
                        }
                    }
                },
                FastPathKind::OptCrNl => {
                    if s[0] == 10 {
                        assert(m =~= seq![10u8]);
                    } else {
                        assert(m =~= seq![13u8, 10u8]);
                    }
                },
                FastPathKind::OptCrNlPlus => {
                    lemma_crnl_run_breaks(s);
                },
                FastPathKind::SkipToOptCrNl | FastPathKind::SkipToOptCrNlPlus => {
                    let r = run_len(s, not_crlf) as int;
                    lemma_crnl_at_break(s, r);
                    assert(no_crlf(m, 0, r));
                    assert(m.subrange(r, n) =~= s.subrange(r, n));
                },
                FastPathKind::CommentBangHashOpt => {
                    let j = (1 + run_len(d, not_crlf)) as int;
                    lemma_crnl_at_break(s, j);
                    assert(no_crlf(m, 1, j)) by {
                        assert forall|i: int| 1 <= i < j implies m[i] != 10 && m[i] != 13 by {
                            assert(m[i] == d[i - 1]);
                        }
                    }
                    assert(m.subrange(j, n) =~= s.subrange(j, n));
                },
                FastPathKind::CommentHashPlusOpt => {
                    let j = (1 + run_len(d, not_crlf)) as int;
                    let t = s.subrange(j, len);
                    lemma_crnl_run_breaks(t);
                    assert(no_crlf(m, 1, j)) by {
                        assert forall|i: int| 1 <= i < j implies m[i] != 10 && m[i] != 13 by {
                            assert(m[i] == d[i - 1]);
                        }
                    }
                    assert(m.subrange(j, n) =~= t.subrange(0, crnl_run(t) as int));
                },
                FastPathKind::SpacesOptCrNlPlus => {
                    let sp = run_len(s, ByteClass::Is(32)) as int;
                    lemma_run_len_facts(s, ByteClass::Is(32));
                    let t = s.subrange(sp, len);
                    lemma_crnl_run_breaks(t);
                    assert(all_spaces(m, 0, sp));
                    assert(m.subrange(sp, n) =~= t.subrange(0, crnl_run(t) as int));
                },
                FastPathKind::Newline => {
                    assert(m =~= seq![10u8]);
                },
                _ => {},
            }
        },
    }
}

} // verus!

verus! {

/// The kinds whose regex class is a Unicode one (`\s`, `\S`, `\d`, `\w`): on
/// text outside ASCII their scanners leave the decision to the regex.
pub open spec fn unicode_class_kind(kind: FastPathKind) -> bool {
    ||| kind == FastPathKind::Whitespace
    ||| kind == FastPathKind::NonWhitespace
    ||| kind == FastPathKind::Digits
    ||| kind == FastPathKind::WordChars
}

proof fn lemma_run_at_least(s: Seq<u8>, c: ByteClass, k: int)
    requires
        0 <= k <= s.len(),
        forall|i: int| 0 <= i < k ==> in_class(c, #[trigger] s[i]),
    ensures
        run_len(s, c) >= k,
{
    lemma_run_len_facts(s, c);
    if run_len(s, c) < k {
        assert(in_class(c, s[run_len(s, c) as int]));
    }
}

proof fn lemma_breaks_within_run(s: Seq<u8>, k: int)
    requires
        0 <= k <= s.len(),
        line_breaks(s.subrange(0, k)),
    ensures
        crnl_run(s) >= k,
    decreases k,
{
    let m = s.subrange(0, k);
    if k > 0 {
        if m[0] == 10 {
            let t = s.subrange(1, s.len() as int);
            assert(m.subrange(1, k) =~= t.subrange(0, k - 1));
            lemma_breaks_within_run(t, k - 1);
        } else {
            assert(m.len() >= 2 && m[0] == 13 && m[1] == 10);
            let t = s.subrange(2, s.len() as int);
            assert(m.subrange(2, k) =~= t.subrange(0, k - 2));
            lemma_breaks_within_run(t, k - 2);
        }
    }
}

/// Where the regex matches a prefix of a non-empty `s`, the scanner answers,
/// with a match at least as long (for the Unicode classes, on ASCII text); with
/// [`lemma_fast_skip_sound`], its answer is then the longest match, the one the
/// regex gives.
pub proof fn lemma_fast_skip_longest(kind: FastPathKind, s: Seq<u8>, k: int)
    requires
        s.len() > 0,
        0 <= k <= s.len(),
        regex_match_spec(kind, s.subrange(0, k)),
        unicode_class_kind(kind) ==> forall|i: int| 0 <= i < s.len() ==> #[trigger] s[i] < 128,
    ensures
        fast_skip_spec(kind, s) matches Some(n) && k <= n,
{
    let len = s.len() as int;
    let m = s.subrange(0, k);
    let not_nl = ByteClass::Other(10);
    let not_crlf = ByteClass::Neither(13, 10);
    let crlf = ByteClass::Either(13, 10);
    let d = s.drop_first();
    assert(d =~= s.subrange(1, len));
    assert forall|i: int| 0 <= i < k implies #[trigger] s[i] == m[i] by {}
    match kind {
        FastPathKind::SkipToNewline | FastPathKind::DotStarNewline | FastPathKind::SkipToNewlinePlus => {
            assert(s[k - 1] == m[k - 1]);
            assert forall|i: int| 0 <= i < k - 1 implies in_class(not_nl, #[trigger] s[i]) by {
                assert(s[i] == m[i]);
            }
            lemma_run_len_is(s, not_nl, k - 1);
        },
        FastPathKind::SkipToCrLf | FastPathKind::SkipToCrLfPlus => {
            assert(s[k - 1] == m[k - 1]);
            assert forall|i: int| 0 <= i < k - 1 implies in_class(not_crlf, #[trigger] s[i]) by {
                assert(s[i] == m[i]);
            }
            lemma_run_len_is(s, not_crlf, k - 1);
        },
        FastPathKind::CommentBangHash => {
            assert(s[0] == m[0]);
            assert(d[k - 2] == m[k - 1]);
            assert forall|i: int| 0 <= i < k - 2 implies in_class(not_crlf, #[trigger] d[i]) by {
                assert(d[i] == m[i + 1]);
            }
            lemma_run_len_is(d, not_crlf, k - 2);
        },
        FastPathKind::CommentHashPlus => {
            let j = choose|j: int| 1 <= j < k && #[trigger] no_crlf(m, 1, j) && all_crlf(m, j, k);
            assert(s[0] == m[0]);
            assert(d[j - 1] == m[j]);
            assert forall|i: int| 0 <= i < j - 1 implies in_class(not_crlf, #[trigger] d[i]) by {
                assert(d[i] == m[i + 1]);
            }
            lemma_run_len_is(d, not_crlf, j - 1);
            let t = s.subrange(j, len);
            assert forall|i: int| 0 <= i < k - j implies in_class(crlf, #[trigger] t[i]) by {
                assert(t[i] == m[i + j]);
            }
            lemma_run_at_least(t, crlf, k - j);
        },
        FastPathKind::Whitespace => {
            lemma_run_at_least(s, ByteClass::AsciiSpace, k);
            lemma_run_len_facts(s, ByteClass::AsciiSpace);
        },
        FastPathKind::NonWhitespace => {
            lemma_run_at_least(s, ByteClass::AsciiNonSpace, k);
            lemma_run_len_facts(s, ByteClass::AsciiNonSpace);
        },
        FastPathKind::Digits => {
            lemma_run_at_least(s, ByteClass::AsciiDigit, k);
            lemma_run_len_facts(s, ByteClass::AsciiDigit);
        },
        FastPathKind::WordChars => {
            lemma_run_at_least(s, ByteClass::Word, k);
            lemma_run_len_facts(s, ByteClass::Word);
        },
        FastPathKind::HorizWhitespace => {
            lemma_run_at_least(s, ByteClass::Either(9, 32), k);
        },
        FastPathKind::CrLfPlus => {
            lemma_run_at_least(s, crlf, k);
        },
        FastPathKind::NonCrLfPlus | FastPathKind::NonCrLfStar => {
            lemma_run_at_least(s, not_crlf, k);
        },
        FastPathKind::CrLf | FastPathKind::NonCrLf | FastPathKind::Dot => {
            assert(s[0] == m[0]);
        },
        FastPathKind::Newline => {
            assert(s[0] == m[0]);
        },
        FastPathKind::SpacesNewlines => {
            let j = choose|j: int| 0 <= j < k && #[trigger] all_spaces(m, 0, j) && all_crlf(m, j, k);
            assert(s[j] == m[j]);
            assert forall|i: int| 0 <= i < j implies in_class(ByteClass::Is(32), #[trigger] s[i]) by {
                assert(s[i] == m[i]);
            }
            lemma_run_len_is(s, ByteClass::Is(32), j);
            let t = s.subrange(j, len);
            assert forall|i: int| 0 <= i < k - j implies in_class(crlf, #[trigger] t[i]) by {
                assert(t[i] == m[i + j]);
            }
            lemma_run_at_least(t, crlf, k - j);
        },
        FastPathKind::OptCrNl => {
            if m =~= seq![10u8] {
                assert(s[0] == m[0]);
            } else {
                assert(s[0] == m[0] && s[1] == m[1]);
            }
        },
        FastPathKind::OptCrNlPlus => {
            lemma_breaks_within_run(s, k);
        },
        FastPathKind::SkipToOptCrNl | FastPathKind::SkipToOptCrNlPlus => {
            let j = choose|j: int| 0 <= j <= k && #[trigger] no_crlf(m, 0, j) && is_line_break(m.subrange(j, k));
            let b = m.subrange(j, k);
            assert(b.len() == 1 || b.len() == 2) by {
                if b == seq![10u8] {
                    assert(b.len() == 1);
                } else {
                    assert(b.len() == 2);
                }
            }
            assert(b[0] == m[j] && s[j] == m[j]);
            if b.len() == 2 {
                assert(b[1] == m[j + 1] && s[j + 1] == m[j + 1]);
            }
            assert forall|i: int| 0 <= i < j implies in_class(not_crlf, #[trigger] s[i]) by {
                assert(s[i] == m[i]);
            }
            lemma_run_len_is(s, not_crlf, j);
        },
        FastPathKind::CommentBangHashOpt => {
            let j = choose|j: int| 1 <= j <= k && #[trigger] no_crlf(m, 1, j) && is_line_break(m.subrange(j, k));
            let b = m.subrange(j, k);
            assert(b.len() == 1 || b.len() == 2) by {
                if b == seq![10u8] {
                    assert(b.len() == 1);
                } else {
                    assert(b.len() == 2);
                }
            }
            assert(s[0] == m[0]);
            assert(b[0] == m[j] && s[j] == m[j] && d[j - 1] == s[j]);
            if b.len() == 2 {
                assert(b[1] == m[j + 1] && s[j + 1] == m[j + 1]);
            }
            assert forall|i: int| 0 <= i < j - 1 implies in_class(not_crlf, #[trigger] d[i]) by {
                assert(d[i] == m[i + 1]);
            }
            lemma_run_len_is(d, not_crlf, j - 1);
        },
        FastPathKind::CommentHashPlusOpt => {
            let j = choose|j: int| 1 <= j < k && #[trigger] no_crlf(m, 1, j) && line_breaks(m.subrange(j, k));
            let b = m.subrange(j, k);
            assert(s[0] == m[0]);
            assert(b[0] == m[j] && d[j - 1] == m[j]);
            assert forall|i: int| 0 <= i < j - 1 implies in_class(not_crlf, #[trigger] d[i]) by {
                assert(d[i] == m[i + 1]);
            }
            lemma_run_len_is(d, not_crlf, j - 1);
            let t = s.subrange(j, len);
            assert(t.subrange(0, k - j) =~= b);
            lemma_breaks_within_run(t, k - j);
        },
        FastPathKind::SpacesOptCrNlPlus => {
            let j = choose|j: int| 0 <= j < k && #[trigger] all_spaces(m, 0, j) && line_breaks(m.subrange(j, k));
            let b = m.subrange(j, k);
            assert(b[0] == m[j] && s[j] == m[j]);
            assert forall|i: int| 0 <= i < j implies in_class(ByteClass::Is(32), #[trigger] s[i]) by {
                assert(s[i] == m[i]);
            }
            lemma_run_len_is(s, ByteClass::Is(32), j);
            let t = s.subrange(j, len);
            assert(t.subrange(0, k - j) =~= b);
            lemma_breaks_within_run(t, k - j);
        },
        FastPathKind::Unclassified => {},
    }
}

} // verus!
