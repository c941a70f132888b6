use rustine::parser::lexer::TokenKind;
use rustine::stream::{BorrowedToken, ReadChunks, StreamingLexer};

/// Hands out a text in chunks of a fixed size.
struct SliceChunks {
    data: Vec<u8>,
    pos: usize,
    chunk: usize,
}

impl ReadChunks for SliceChunks {
    fn next_chunk(&mut self) -> std::io::Result<Option<Vec<u8>>> {
        if self.pos >= self.data.len() {
            return Ok(None);
        }
        let end = (self.pos + self.chunk).min(self.data.len());
        let out = self.data[self.pos..end].to_vec();
        self.pos = end;
        Ok(Some(out))
    }
}

fn collect_tokens(source: &str, chunk: usize) -> Vec<BorrowedToken> {
    let reader = SliceChunks { data: source.as_bytes().to_vec(), pos: 0, chunk };
    let mut lex = StreamingLexer::new(reader);
    let mut out = Vec::new();
    while let Some(batch) = lex.next_batch().unwrap() {
        out.extend(batch.tokens);
        if batch.finished {
            break;
        }
    }
    out
}

#[test]
fn multiline_string_across_newline_and_chunks() {
    // A string that spans multiple lines and is split across chunk boundaries.
    let source = "define ws /\\s+/\nmessage \"Hello\nWorld from Gelatin\"\n";
    let toks = collect_tokens(source, 7); // small chunk size to force fragmentation
    assert!(
        toks.iter().any(|t| t.kind == TokenKind::String && t.len >= 20),
        "multiline string token missing or too small"
    );
}
