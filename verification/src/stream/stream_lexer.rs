//! A lexer over input that arrives in chunks: each call tokenizes what has
//! arrived, holding back a string or regex literal that is not closed yet.

use vstd::prelude::*;
use crate::errors::{GelError, Span};
use crate::parser::lexer::{TokenKind, byte_len, char_utf8_len, lemma_byte_len_concat, next_token, next_token_spec, utf8_len};
use crate::stream::chunk_reader::ReadChunks;
use crate::text::{chars_to_string, str_to_chars, utf8_decode};
use vstd::utf8::{decode_utf8, valid_utf8};

verus! {

/// The tokens of one call, and the text consumed so far.
pub struct StreamTokenBatch<'a> {
    pub tokens: Vec<BorrowedToken>,
    /// Whether the end-of-input token was emitted.
    pub finished: bool,
    /// All the text tokenized so far.
    pub buffer: &'a str,
}

/// A token by position: its kind, its byte offset in the whole input and its
/// length in bytes.
#[derive(Debug, Clone)]
pub struct BorrowedToken {
    pub kind: TokenKind,
    pub start: usize,
    pub len: usize,
    pub position: usize,
}

/// How many refills one call waits through before it answers with an empty
/// batch.
pub const MAX_REFILLS: usize = 64;

/// Whether `s[i..]` holds the closing delimiter `d`, backslash escapes
/// skipped (`esc`: the character before escaped the one at `i`).
pub open spec fn has_closing(s: Seq<char>, i: int, d: char, esc: bool) -> bool
    decreases s.len() - i,
{
    if i < 0 || i >= s.len() {
        false
    } else if esc {
        has_closing(s, i + 1, d, false)
    } else if s[i] == '\\' {
        has_closing(s, i + 1, d, true)
    } else if s[i] == d {
        true
    } else {
        has_closing(s, i + 1, d, false)
    }
}

/// Whether a text starts a string or regex literal that is not closed.
pub open spec fn looks_fragmented_spec(s: Seq<char>) -> bool {
    s.len() > 0 && (s[0] == '/' || s[0] == '"' || s[0] == '\'') && !has_closing(s, 1, s[0], false)
}

/// Whether `v[from..]` starts a literal that is not closed (see
/// [`looks_fragmented_spec`]).
pub fn looks_fragmented(v: &[char], from: usize) -> (r: bool)
    requires
        from <= v@.len(),
    ensures
        r == looks_fragmented_spec(v@.subrange(from as int, v@.len() as int)),
{
    let ghost s = v@.subrange(from as int, v@.len() as int);
    if from >= v.len() {
        return false;
    }
    let d = v[from];
    if d != '/' && d != '"' && d != '\'' {
        return false;
    }
    let mut esc = false;
    let mut i = from + 1;
    while i < v.len()
        invariant
            from < i <= v@.len(),
            s == v@.subrange(from as int, v@.len() as int),
            d == s[0],
            has_closing(s, 1, d, false) == has_closing(s, i - from, d, esc),
        decreases v@.len() - i,
    {
        let c = v[i];
        proof {
            assert(s[i - from] == c);
        }
        if esc {
            esc = false;
        } else if c == '\\' {
            esc = true;
        } else if c == d {
            return false;
        }
        i = i + 1;
    }
    true
}

/// The length of the token the text starts with (0 when none does).
pub open spec fn lead_len(s: Seq<char>) -> nat {
    match next_token_spec(s, 0) {
        Some(t) => t.1,
        None => 0,
    }
}

/// The kind of the token the text starts with (a comment when none does).
pub open spec fn lead_kind(s: Seq<char>) -> TokenKind {
    match next_token_spec(s, 0) {
        Some(t) => t.0,
        None => TokenKind::Comment,
    }
}

/// Whether a token that starts the text, of this kind and length, is kept in
/// a batch: comments are dropped, and so is whitespace without a line break.
pub open spec fn kept_token(s: Seq<char>, k: TokenKind, l: nat) -> bool {
    k != TokenKind::Comment && (k != TokenKind::Newline || s.subrange(0, l as int).contains('\n'))
}

/// A batch token as its kind, its byte offset and its length in bytes.
pub open spec fn tok_view(t: BorrowedToken) -> (TokenKind, int, int) {
    (t.kind, t.start as int, t.len as int)
}

/// The tokens of a batch by kind, offset and length.
pub open spec fn toks_view(v: Seq<BorrowedToken>) -> Seq<(TokenKind, int, int)> {
    v.map_values(|t: BorrowedToken| tok_view(t))
}

/// The tokens that scanning `s` from character `i` yields, for the tokens
/// that start before character `end`; the token at `i` starts at byte offset
/// `off`.  A token is kept unless it is a comment or whitespace without a
/// line break; a character that starts no token is skipped, and at the end of
/// the input it is reported as an empty comment token.
pub open spec fn scan_tokens(s: Seq<char>, i: int, end: int, off: int, eof: bool) -> Seq<(TokenKind, int, int)>
    decreases (if i < end { end - i } else { 0 }),
{
    if i < 0 || i >= end || i >= s.len() {
        Seq::empty()
    } else {
        let nt = next_token_spec(s, i);
        let l: int = match nt {
            Some(t) => t.1 as int,
            None => 0,
        };
        let k = match nt {
            Some(t) => t.0,
            None => TokenKind::Comment,
        };
        if l > 0 {
            let b = byte_len(s.subrange(i, i + l)) as int;
            let keep = k != TokenKind::Comment && (k != TokenKind::Newline || s.subrange(i, i + l).contains('\n'));
            (if keep { seq![(k, off, b)] } else { Seq::empty() }) + scan_tokens(s, i + l, end, off + b, eof)
        } else {
            (if eof { seq![(TokenKind::Comment, off, 0int)] } else { Seq::empty() }) + scan_tokens(
                s,
                i + 1,
                end,
                off + byte_len(s.subrange(i, i + 1)),
                eof,
            )
        }
    }
}

/// Whether `toks` are the tokens of the tail of `text` that starts at some
/// character `t0 >= from`, scanned with a lookahead `p` that holds that tail
/// and continues into the text read after it (`read`), the first token at the
/// byte offset of `t0`.
pub open spec fn batch_of(toks: Seq<(TokenKind, int, int)>, text: Seq<char>, read: Seq<char>, from: int) -> bool {
    exists|t0: int, p: Seq<char>, eof: bool|
        #![trigger scan_tokens(p, 0, text.len() - t0, byte_len(text.subrange(0, t0)) as int, eof)]
        from <= t0 <= text.len() && text.len() - t0 <= p.len() && p.subrange(0, text.len() - t0) == text.subrange(t0, text.len() as int)
            && t0 + p.len() <= read.len() && read.subrange(t0, t0 + p.len()) == p
            && toks == scan_tokens(p, 0, text.len() - t0, byte_len(text.subrange(0, t0)) as int, eof)
}

/// A scan of the pending text `p`, made when the tokenized text was `tb`,
/// gives tokens that are a batch of the text tokenized afterwards.
pub proof fn lemma_scan_is_batch(
    toks: Seq<(TokenKind, int, int)>,
    tb: Seq<char>,
    p: Seq<char>,
    eof: bool,
    text: Seq<char>,
    pend_mid: Seq<char>,
    pend_final: Seq<char>,
    from: int,
)
    requires
        from <= tb.len(),
        tb.is_prefix_of(text),
        text + pend_mid == tb + p,
        pend_mid.is_prefix_of(pend_final),
        toks == scan_tokens(p, 0, text.len() - tb.len(), byte_len(tb) as int, eof),
    ensures
        batch_of(toks, text, text + pend_final, from),
{
    let t0 = tb.len() as int;
    let read = text + pend_final;
    assert(text.subrange(0, t0) =~= tb);
    assert((text + pend_mid).len() == t0 + p.len());
    assert(tb.len() <= text.len());
    assert(text.len() - t0 <= p.len());
    assert forall|k: int| 0 <= k < text.len() - t0 implies #[trigger] p.subrange(0, text.len() - t0)[k] == text.subrange(t0, text.len() as int)[k] by {
        assert((text + pend_mid)[t0 + k] == (tb + p)[t0 + k]);
        assert((text + pend_mid)[t0 + k] == text[t0 + k]);
        assert((tb + p)[t0 + k] == p[k]);
    }
    assert(p.subrange(0, text.len() - t0) =~= text.subrange(t0, text.len() as int));
    assert forall|k: int| 0 <= k < p.len() implies #[trigger] read.subrange(t0, t0 + p.len())[k] == p[k] by {
        assert((text + pend_mid)[t0 + k] == (tb + p)[t0 + k]);
        assert((tb + p)[t0 + k] == p[k]);
        if t0 + k >= text.len() {
            assert(pend_final[t0 + k - text.len()] == pend_mid[t0 + k - text.len()]);
            assert((text + pend_mid)[t0 + k] == pend_mid[t0 + k - text.len()]);
            assert(read[t0 + k] == pend_final[t0 + k - text.len()]);
        } else {
            assert((text + pend_mid)[t0 + k] == text[t0 + k]);
            assert(read[t0 + k] == text[t0 + k]);
        }
    }
    assert(read.subrange(t0, t0 + p.len()) =~= p);
    assert(toks == scan_tokens(p, 0, text.len() - t0, byte_len(text.subrange(0, t0)) as int, eof));
}

/// A stretch of a text takes no more bytes than the whole text.
proof fn lemma_byte_len_sub(s: Seq<char>, a: int, b: int)
    requires
        0 <= a <= b <= s.len(),
    ensures
        byte_len(s.subrange(a, b)) <= byte_len(s),
{
    lemma_byte_len_concat(s.subrange(0, a), s.subrange(a, b));
    lemma_byte_len_concat(s.subrange(0, b), s.subrange(b, s.len() as int));
    assert(s.subrange(0, a) + s.subrange(a, b) =~= s.subrange(0, b));
    assert(s.subrange(0, b) + s.subrange(b, s.len() as int) =~= s);
}

/// The number of tokens after which a batch is handed out.
pub const BATCH_LIMIT: usize = 2048;

/// Lexes a source of chunks batch by batch.
pub struct StreamingLexer<R: ReadChunks> {
    reader: R,
    /// Text read but not tokenized yet.
    pending: Vec<char>,
    /// The reader reported its end.
    eof: bool,
    /// Bytes tokenized so far.
    global_offset: usize,
    /// The end-of-input token was emitted.
    finished: bool,
    /// All the text tokenized so far.
    full_buffer: String,
    /// The bytes of the last chunk read during the current call, if one was.
    last_read: Ghost<Option<Seq<u8>>>,
}

impl<R: ReadChunks> StreamingLexer<R> {
    /// The lexer's invariant: the offset counts the bytes of the text
    /// tokenized so far.
    pub closed spec fn inv(&self) -> bool {
        self.global_offset == byte_len(self.full_buffer@)
    }

    /// Whether the end-of-input token was emitted.
    pub closed spec fn spec_finished(&self) -> bool {
        self.finished
    }

    /// The bytes tokenized so far.
    pub closed spec fn spec_offset(&self) -> nat {
        self.global_offset as nat
    }

    /// The text read and not tokenized yet.
    pub closed spec fn spec_pending(&self) -> Seq<char> {
        self.pending@
    }

    /// Whether the source reported its end.
    pub closed spec fn spec_eof(&self) -> bool {
        self.eof
    }

    /// The bytes of the last chunk read during the last call, if one was.
    pub closed spec fn spec_last_read(&self) -> Option<Seq<u8>> {
        self.last_read@
    }

    /// The text tokenized so far.
    pub closed spec fn spec_text(&self) -> Seq<char> {
        self.full_buffer@
    }

    /// A lexer over a source, before it reads anything.
    pub fn new(reader: R) -> (r: StreamingLexer<R>)
        ensures
            r.inv(),
            !r.spec_finished(),
            r.spec_offset() == 0,
            r.spec_text().len() == 0,
    {
        StreamingLexer {
            reader,
            pending: Vec::new(),
            eof: false,
            global_offset: 0,
            finished: false,
            full_buffer: String::new(),
            last_read: Ghost(None),
        }
    }

    /// Reads one chunk into the pending text, or notes the end of the source.
    /// A chunk that is not valid UTF-8 is a lexing error at the current offset.
    fn fill(&mut self) -> (r: Result<(), GelError>)
        requires
            old(self).inv(),
        ensures
            final(self).inv(),
            final(self).finished == old(self).finished,
            final(self).global_offset == old(self).global_offset,
            final(self).full_buffer@ == old(self).full_buffer@,
            old(self).eof ==> final(self).eof,
            r matches Err(e) ==> e is Io || e is Lex,
            old(self).eof ==> r is Ok && final(self).pending@ == old(self).pending@ && final(self).last_read == old(self).last_read,
            old(self).pending@.is_prefix_of(final(self).pending@),
            !old(self).eof && final(self).eof ==> final(self).pending@ == old(self).pending@,
            r matches Err(GelError::Lex { .. }) ==> final(self).last_read@ matches Some(b) && !valid_utf8(b),
            r matches Err(GelError::Lex { .. }) ==> final(self).pending@ == old(self).pending@,
    {
        if self.eof {
            return Ok(());
        }
        let chunk = self.reader.next_chunk();
        self.accept_chunk(chunk)
    }

    /// Takes what the source handed out: a chunk of UTF-8 text joins the
    /// pending text; the source's end sets the end of input; a chunk that is
    /// not valid UTF-8 is a lexing error at the current offset; a read error
    /// is passed on.  Nothing else changes.
    pub fn accept_chunk(&mut self, chunk: Result<Option<Vec<u8>>, std::io::Error>) -> (r: Result<(), GelError>)
        requires
            old(self).inv(),
        ensures
            final(self).inv(),
            final(self).spec_finished() == old(self).spec_finished(),
            final(self).spec_offset() == old(self).spec_offset(),
            final(self).spec_text() == old(self).spec_text(),
            final(self).spec_last_read() == match chunk {
                Ok(Some(b)) => Some(b@),
                _ => None::<Seq<u8>>,
            },
            match chunk {
                Err(e) => r == Err::<(), GelError>(GelError::Io(e)) && final(self).spec_pending() == old(self).spec_pending()
                    && final(self).spec_eof() == old(self).spec_eof(),
                Ok(None) => r is Ok && final(self).spec_eof() && final(self).spec_pending() == old(self).spec_pending(),
                Ok(Some(b)) => final(self).spec_eof() == old(self).spec_eof() && if valid_utf8(b@) {
                    r is Ok && final(self).spec_pending() == old(self).spec_pending() + decode_utf8(b@)
                } else {
                    r matches Err(GelError::Lex { span, .. }) && span.offset == old(self).spec_offset()
                        && final(self).spec_pending() == old(self).spec_pending()
                },
            },
    {
        match chunk {
            Err(e) => {
                self.last_read = Ghost(None);
                Err(GelError::Io(e))
            },
            Ok(None) => {
                self.last_read = Ghost(None);
                self.eof = true;
                Ok(())
            },
            Ok(Some(bytes)) => {
                self.last_read = Ghost(Some(bytes@));
                match utf8_decode(bytes.as_slice()) {
                    Some(s) => {
                        let c = str_to_chars(s.as_str());
                        let ghost p0 = self.pending@;
                        let mut i: usize = 0;
                        while i < c.len()
                            invariant
                                i <= c@.len(),
                                c@ == decode_utf8(bytes@),
                                self.pending@ == p0 + c@.subrange(0, i as int),
                                p0 == old(self).pending@,
                                self.global_offset == old(self).global_offset,
                                self.full_buffer == old(self).full_buffer,
                                self.finished == old(self).finished,
                                self.eof == old(self).eof,
                                self.last_read@ == Some(bytes@),
                            decreases c@.len() - i,
                        {
                            self.pending.push(c[i]);
                            proof {
                                assert(p0 + c@.subrange(0, i + 1) =~= (p0 + c@.subrange(0, i as int)).push(c@[i as int]));
                            }
                            i = i + 1;
                        }
                        proof {
                            assert(c@.subrange(0, c@.len() as int) =~= c@);
                        }
                        Ok(())
                    },
                    None => {
                        let msg = utf8_error_text(bytes.as_slice());
                        Err(GelError::lex(msg.as_str(), Span::new(self.global_offset, 0, 0, 0)))
                    },
                }
            },
        }
    }

    /// The end-of-input token at the current offset.
    fn eof_token(&self) -> (t: BorrowedToken)
        ensures
            t.kind == TokenKind::EOF,
            t.start == self.global_offset,
            t.len == 0,
    {
        BorrowedToken { kind: TokenKind::EOF, start: self.global_offset, len: 0, position: self.global_offset }
    }

    /// The next batch of tokens: comments and intra-line whitespace dropped, a
    /// literal not closed yet held back until more text arrives, the
    /// end-of-input token once the source is exhausted.  `None` after that
    /// token.  At the end of the source an unclosed literal is an error, and a
    /// character no rule accepts is skipped (reported as an empty comment
    /// token).
    pub fn next_batch(&mut self) -> (r: Result<Option<StreamTokenBatch<'_>>, GelError>)
        requires
            old(self).inv(),
        ensures
            final(self).inv(),
            old(self).spec_finished() ==> final(self).spec_finished(),
            (r matches Ok(None)) <==> old(self).spec_finished(),
            old(self).spec_finished() ==> final(self).spec_text() == old(self).spec_text(),
            old(self).spec_text().is_prefix_of(final(self).spec_text()),
            r matches Ok(Some(b)) ==> {
                &&& b.finished == final(self).spec_finished()
                &&& b.finished ==> final(self).spec_pending().len() == 0
                &&& b.buffer@ == final(self).spec_text()
                &&& b.finished ==> b.tokens@.len() > 0 && b.tokens@.last().kind == TokenKind::EOF
                    && b.tokens@.last().start == final(self).spec_offset()
                &&& forall|k: int|
                    0 <= k < b.tokens@.len() ==> old(self).spec_offset() <= (#[trigger] b.tokens@[k]).start
                        && b.tokens@[k].start + b.tokens@[k].len <= final(self).spec_offset()
                &&& batch_of(
                    toks_view(if b.finished { b.tokens@.drop_last() } else { b.tokens@ }),
                    final(self).spec_text(),
                    final(self).spec_text() + final(self).spec_pending(),
                    old(self).spec_text().len() as int,
                )
            },
            r matches Err(e) ==> e is Io || e is Lex,
            r matches Err(GelError::Lex { message, .. }) ==> (final(self).spec_last_read() matches Some(b) && !valid_utf8(b))
                || (message@ == "Unterminated literal at EOF"@ && final(self).spec_eof() && exists|i: int|
                0 <= i < final(self).spec_pending().len() && looks_fragmented_spec(
                    #[trigger] final(self).spec_pending().subrange(i, final(self).spec_pending().len() as int),
                )) || (message@ == "input too large"@ && usize::MAX < byte_len(final(self).spec_text()) + byte_len(
                final(self).spec_pending(),
            )),
    {
        if self.finished {
            return Ok(None);
        }
        self.last_read = Ghost(None);
        let ghost text0 = self.full_buffer@;
        let ghost off0 = self.global_offset;
        let mut refills: usize = 0;
        loop
            invariant
                self.inv(),
                !self.finished,
                !old(self).spec_finished(),
                text0 == old(self).full_buffer@,
                off0 == old(self).global_offset,
                text0.is_prefix_of(self.full_buffer@),
                off0 <= self.global_offset,
                refills <= MAX_REFILLS,
            decreases MAX_REFILLS - refills,
        {
            if self.pending.len() == 0 {
                match self.fill() {
                    Err(e) => { return Err(e); },
                    Ok(()) => {},
                }
            }
            if self.pending.len() == 0 && self.eof {
                self.finished = true;
                let mut tokens: Vec<BorrowedToken> = Vec::new();
                tokens.push(self.eof_token());
                proof {
                    let e = Seq::<char>::empty();
                    assert(self.full_buffer@ + self.pending@ =~= self.full_buffer@ + e);
                    assert(toks_view(tokens@.drop_last()) =~= Seq::<(TokenKind, int, int)>::empty());
                    assert(scan_tokens(e, 0, 0, byte_len(self.full_buffer@) as int, true) =~= Seq::<(TokenKind, int, int)>::empty());
                    assert(self.full_buffer@.is_prefix_of(self.full_buffer@));
                    assert(self.pending@.is_prefix_of(self.pending@));
                    lemma_scan_is_batch(toks_view(tokens@.drop_last()), self.full_buffer@, e, true, self.full_buffer@, self.pending@, self.pending@, text0.len() as int);
                }
                return Ok(Some(StreamTokenBatch { tokens, finished: true, buffer: self.full_buffer.as_str() }));
            }
            let mut batch: Vec<BorrowedToken> = Vec::new();
            let ghost tb = self.full_buffer@;
            let ghost pb = self.pending@;
            let ghost eb = self.eof;
            match self.scan(&mut batch) {
                Err(e) => {
                    proof {
                        match &e {
                            GelError::Lex { message, .. } => {
                                if message@ == "Unterminated literal at EOF"@ {
                                    let i = choose|i: int| 0 <= i < pb.len() && looks_fragmented_spec(#[trigger] pb.subrange(i, pb.len() as int));
                                    assert(self.spec_pending().subrange(i, self.spec_pending().len() as int) == pb.subrange(i, pb.len() as int));
                                }
                            },
                            _ => {},
                        }
                    }
                    return Err(e);
                },
                Ok(()) => {},
            }
            let ghost pm = self.pending@;
            proof {
                assert(text0.len() <= tb.len()) by {
                    assert(text0.is_prefix_of(tb));
                }
            }
            if batch.len() == 0 && !self.eof {
                match self.fill() {
                    Err(e) => { return Err(e); },
                    Ok(()) => {},
                }
                if self.pending.len() == 0 || refills + 1 >= MAX_REFILLS {
                    proof {
                        lemma_scan_is_batch(toks_view(batch@), tb, pb, eb, self.full_buffer@, pm, self.pending@, text0.len() as int);
                    }
                    return Ok(Some(StreamTokenBatch { tokens: batch, finished: false, buffer: self.full_buffer.as_str() }));
                }
                refills = refills + 1;
            } else {
                let finished = self.eof && self.pending.len() == 0;
                let ghost b0 = batch@;
                if finished {
                    self.finished = true;
                    batch.push(self.eof_token());
                    proof {
                        assert(batch@.drop_last() =~= b0);
                    }
                }
                proof {
                    assert(self.pending@.is_prefix_of(self.pending@));
                    lemma_scan_is_batch(toks_view(b0), tb, pb, eb, self.full_buffer@, pm, self.pending@, text0.len() as int);
                }
                return Ok(Some(StreamTokenBatch { tokens: batch, finished, buffer: self.full_buffer.as_str() }));
            }
        }
    }

    /// Tokenizes the pending text into `batch` as far as it can, then moves
    /// the consumed text from the pending text to the tokenized text.
    #[verifier::rlimit(40)]
    fn scan(&mut self, batch: &mut Vec<BorrowedToken>) -> (r: Result<(), GelError>)
        requires
            old(self).inv(),
            old(batch)@.len() == 0,
        ensures
            final(self).inv(),
            final(self).finished == old(self).finished,
            final(self).eof == old(self).eof,
            old(self).full_buffer@.is_prefix_of(final(self).full_buffer@),
            old(self).global_offset <= final(self).global_offset,
            r is Ok ==> forall|k: int|
                0 <= k < final(batch)@.len() ==> old(self).global_offset <= (#[trigger] final(batch)@[k]).start
                    && final(batch)@[k].start + final(batch)@[k].len <= final(self).global_offset
                    && final(batch)@[k].kind != TokenKind::EOF,
            r matches Err(e) ==> e is Lex,
            r is Ok ==> final(self).full_buffer@ + final(self).pending@ == old(self).full_buffer@ + old(self).pending@,
            r is Ok && old(self).eof ==> final(self).pending@.len() == 0 || final(batch)@.len() >= BATCH_LIMIT,
            r matches Err(GelError::Lex { message, .. }) ==> message@ == "Unterminated literal at EOF"@ || message@ == "input too large"@,
            r matches Err(GelError::Lex { message, .. }) && message@ == "input too large"@ ==> usize::MAX < byte_len(old(self).full_buffer@)
                + byte_len(old(self).pending@),
            r is Err ==> final(self).pending@ == old(self).pending@ && final(self).full_buffer@ == old(self).full_buffer@,
            r is Ok && lead_len(old(self).pending@) > 0 ==> final(self).full_buffer@.len() >= old(self).full_buffer@.len() + lead_len(old(self).pending@),
            r is Ok && lead_len(old(self).pending@) > 0 && kept_token(old(self).pending@, lead_kind(old(self).pending@), lead_len(old(self).pending@))
                ==> final(batch)@.len() > 0 && final(batch)@[0].kind == lead_kind(old(self).pending@)
                && final(batch)@[0].start == old(self).global_offset,
            r is Ok ==> toks_view(final(batch)@) == scan_tokens(
                old(self).pending@,
                0,
                final(self).full_buffer@.len() - old(self).full_buffer@.len(),
                old(self).global_offset as int,
                old(self).eof,
            ),
            (r matches Err(GelError::Lex { message, .. }) && message@ == "Unterminated literal at EOF"@) ==> old(self).eof && exists|i: int|
                0 <= i < old(self).pending@.len() && looks_fragmented_spec(#[trigger] old(self).pending@.subrange(i, old(self).pending@.len() as int)),
    {
        proof {
            reveal_strlit("input too large");
            reveal_strlit("Unterminated literal at EOF");
            assert("input too large"@.len() != "Unterminated literal at EOF"@.len());
        }
        let n = self.pending.len();
        let base = self.global_offset;
        let mut idx: usize = 0;
        let mut local: usize = 0;
        let mut stop = false;
        while idx < n && !stop
            invariant
                n == self.pending@.len(),
                self.pending == old(self).pending,
                self.full_buffer == old(self).full_buffer,
                self.finished == old(self).finished,
                self.eof == old(self).eof,
                self.inv(),
                self.global_offset == base == old(self).global_offset,
                idx <= n,
                local == byte_len(self.pending@.subrange(0, idx as int)),
                base + local <= usize::MAX,
                forall|k: int|
                    0 <= k < batch@.len() ==> base <= (#[trigger] batch@[k]).start && batch@[k].start + batch@[k].len
                        <= base + local && batch@[k].kind != TokenKind::EOF,
                idx == 0 ==> batch@.len() == 0 && (stop ==> lead_len(old(self).pending@) == 0),
                stop && self.eof ==> batch@.len() >= BATCH_LIMIT,
                lead_len(old(self).pending@) > 0 && idx > 0 ==> idx >= lead_len(old(self).pending@),
                lead_len(old(self).pending@) > 0 && idx > 0 && kept_token(old(self).pending@, lead_kind(old(self).pending@), lead_len(old(self).pending@))
                    ==> batch@.len() > 0 && batch@[0].kind == lead_kind(old(self).pending@) && batch@[0].start == base,
                "input too large"@ != "Unterminated literal at EOF"@,
                forall|e: int|
                    idx <= e ==> #[trigger] scan_tokens(self.pending@, 0, e, base as int, self.eof) == toks_view(batch@)
                        + scan_tokens(self.pending@, idx as int, e, base + local, self.eof),
            decreases n - idx, if stop { 0int } else { 1int },
        {
            let tok = match next_token(self.pending.as_slice(), idx) {
                Some((k, l)) => if l > 0 {
                    Some((k, l))
                } else {
                    None
                },
                None => None,
            };
            match tok {
                Some((kind, len)) => {
                    let mut bytes: usize = 0;
                    let mut has_nl = false;
                    let mut j: usize = 0;
                    proof {
                        assert(self.pending@.subrange(idx as int, idx as int) =~= Seq::<char>::empty());
                    }
                    while j < len
                        invariant
                            idx + len <= n == self.pending@.len(),
                            j <= len,
                            has_nl == self.pending@.subrange(idx as int, idx + j).contains('\n'),
                            bytes == byte_len(self.pending@.subrange(idx as int, idx + j)),
                            self.pending == old(self).pending,
                            self.full_buffer == old(self).full_buffer,
                            self.finished == old(self).finished,
                            self.eof == old(self).eof,
                            self.global_offset == old(self).global_offset,
                            self.inv(),
                            "input too large"@ != "Unterminated literal at EOF"@,
                        decreases len - j,
                    {
                        let c = self.pending[idx + j];
                        proof {
                            let a = self.pending@.subrange(idx as int, idx + j);
                            let b = self.pending@.subrange(idx as int, idx + j + 1);
                            assert(b =~= a.push(c));
                            if a.contains('\n') {
                                let w = choose|w: int| 0 <= w < a.len() && a[w] == '\n';
                                assert(b[w] == '\n');
                            }
                            if b.contains('\n') && c != '\n' {
                                let w = choose|w: int| 0 <= w < b.len() && b[w] == '\n';
                                assert(a[w] == '\n');
                            }
                            if c == '\n' {
                                assert(b[j as int] == '\n');
                            }
                        }
                        if c == '\n' {
                            has_nl = true;
                        }
                        proof {
                            assert(self.pending@.subrange(idx as int, idx + j + 1).drop_last() =~= self.pending@.subrange(
                                idx as int,
                                idx + j,
                            ));
                        }
                        bytes = match bytes.checked_add(char_utf8_len(c)) {
                            Some(b) => b,
                            None => {
                                proof {
                                    lemma_byte_len_sub(self.pending@, idx as int, idx + j + 1);
                                }
                                return Err(GelError::lex("input too large", Span::new(base, 0, 0, 0)));
                            },
                        };
                        j = j + 1;
                    }
                    proof {
                        lemma_byte_len_concat(
                            self.pending@.subrange(0, idx as int),
                            self.pending@.subrange(idx as int, idx + len),
                        );
                        assert(self.pending@.subrange(0, idx as int) + self.pending@.subrange(idx as int, idx + len)
                            =~= self.pending@.subrange(0, idx + len));
                    }
                    proof {
                        lemma_byte_len_sub(self.pending@, 0, idx + len);
                    }
                    let total = match local.checked_add(bytes) {
                        Some(t) => t,
                        None => { return Err(GelError::lex("input too large", Span::new(base, 0, 0, 0))); },
                    };
                    if base > usize::MAX - total {
                        return Err(GelError::lex("input too large", Span::new(base, 0, 0, 0)));
                    }
                    let keep = kind != TokenKind::Comment && (kind != TokenKind::Newline || has_nl);
                    let ghost b0 = batch@;
                    if keep {
                        let at = base + local;
                        batch.push(BorrowedToken { kind, start: at, len: bytes, position: at });
                    }
                    proof {
                        let here: Seq<(TokenKind, int, int)> = if keep { seq![(kind, (base + local) as int, bytes as int)] } else { Seq::empty() };
                        assert(toks_view(batch@) =~= toks_view(b0) + here);
                        assert forall|e: int| idx + len <= e implies #[trigger] scan_tokens(self.pending@, 0, e, base as int, self.eof)
                            == toks_view(batch@) + scan_tokens(self.pending@, idx + len, e, base + total, self.eof) by {
                            assert(scan_tokens(self.pending@, idx as int, e, base + local, self.eof) == here + scan_tokens(
                                self.pending@,
                                idx + len,
                                e,
                                base + total,
                                self.eof,
                            ));
                            assert(scan_tokens(self.pending@, 0, e, base as int, self.eof) == toks_view(b0) + scan_tokens(self.pending@, idx as int, e, base + local, self.eof));
                            assert(toks_view(b0) + (here + scan_tokens(self.pending@, idx + len, e, base + total, self.eof))
                                =~= toks_view(batch@) + scan_tokens(self.pending@, idx + len, e, base + total, self.eof));
                        }
                    }
                    idx = idx + len;
                    local = total;
                    if batch.len() >= BATCH_LIMIT {
                        stop = true;
                    }
                },
                None => {
                    let frag = looks_fragmented(self.pending.as_slice(), idx);
                    if self.eof && frag {
                        proof {
                            assert(looks_fragmented_spec(old(self).pending@.subrange(idx as int, old(self).pending@.len() as int)));
                        }
                        return Err(GelError::lex("Unterminated literal at EOF", Span::new(base + local, 0, 0, 0)));
                    }
                    if !self.eof && frag {
                        stop = true;
                    } else {
                        let c = self.pending[idx];
                        let cl = char_utf8_len(c);
                        proof {
                            assert(self.pending@.subrange(0, idx + 1).drop_last() =~= self.pending@.subrange(0, idx as int));
                        }
                        if local > usize::MAX - cl || base > usize::MAX - (local + cl) {
                            proof {
                                lemma_byte_len_sub(self.pending@, 0, idx + 1);
                            }
                            return Err(GelError::lex("input too large", Span::new(base, 0, 0, 0)));
                        }
                        let ghost b0 = batch@;
                        if self.eof {
                            let at = base + local;
                            batch.push(BorrowedToken { kind: TokenKind::Comment, start: at, len: 0, position: at });
                        }
                        proof {
                            lemma_byte_len_concat(self.pending@.subrange(0, idx as int), self.pending@.subrange(idx as int, idx + 1));
                            assert(self.pending@.subrange(0, idx as int) + self.pending@.subrange(idx as int, idx + 1) =~= self.pending@.subrange(0, idx + 1));
                            let here: Seq<(TokenKind, int, int)> = if self.eof { seq![(TokenKind::Comment, (base + local) as int, 0int)] } else { Seq::empty() };
                            assert(toks_view(batch@) =~= toks_view(b0) + here);
                            let nb = base + local + byte_len(self.pending@.subrange(idx as int, idx + 1));
                            assert forall|e: int| idx + 1 <= e implies #[trigger] scan_tokens(self.pending@, 0, e, base as int, self.eof)
                                == toks_view(batch@) + scan_tokens(self.pending@, idx + 1, e, nb, self.eof) by {
                                assert(scan_tokens(self.pending@, idx as int, e, base + local, self.eof) == here + scan_tokens(
                                    self.pending@,
                                    idx + 1,
                                    e,
                                    nb,
                                    self.eof,
                                ));
                                assert(scan_tokens(self.pending@, 0, e, base as int, self.eof) == toks_view(b0) + scan_tokens(self.pending@, idx as int, e, base + local, self.eof));
                                assert(toks_view(b0) + (here + scan_tokens(self.pending@, idx + 1, e, nb, self.eof))
                                    =~= toks_view(batch@) + scan_tokens(self.pending@, idx + 1, e, nb, self.eof));
                            }
                        }
                        idx = idx + 1;
                        local = local + cl;
                    }
                },
            }
        }
        proof {
            assert(scan_tokens(self.pending@, 0, idx as int, base as int, self.eof) == toks_view(batch@) + scan_tokens(self.pending@, idx as int, idx as int, base + local, self.eof));
            assert(toks_view(batch@) + scan_tokens(self.pending@, idx as int, idx as int, base + local, self.eof) =~= toks_view(batch@));
        }
        if idx > 0 {
            let consumed = chars_to_string(vstd::slice::slice_subrange(self.pending.as_slice(), 0, idx));
            let rest = vstd::slice::slice_to_vec(vstd::slice::slice_subrange(self.pending.as_slice(), idx, n));
            let ghost old_text = self.full_buffer@;
            self.full_buffer.append(consumed.as_str());
            self.pending = rest;
            self.global_offset = base + local;
            proof {
                lemma_byte_len_concat(old_text, self.pending@.subrange(0, 0));
                assert(self.full_buffer@ =~= old_text + old(self).pending@.subrange(0, idx as int));
                lemma_byte_len_concat(old_text, old(self).pending@.subrange(0, idx as int));
                assert(old_text.is_prefix_of(self.full_buffer@));
            }
        } else {
            proof {
                assert(self.full_buffer@.is_prefix_of(self.full_buffer@));
            }
        }
        Ok(())
    }
}

/// The text of the error `std::str::from_utf8` reports for bytes that are not
/// valid UTF-8 (nothing is stated of the text).
#[verifier::external_body]
fn utf8_error_text(b: &[u8]) -> (r: String) {
    match std::str::from_utf8(b) {
        Ok(_) => String::new(),
        Err(e) => e.to_string(),
    }
}

} // verus!
