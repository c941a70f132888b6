use rustine::parser::lexer::{lex, TokenKind};
use rustine::stream::{ReadChunks, StreamingLexer};

/// Hands out a text in chunks of a fixed size.
struct MemChunks {
    data: Vec<u8>,
    pos: usize,
    chunk: usize,
}

impl ReadChunks for MemChunks {
    fn next_chunk(&mut self) -> std::io::Result<Option<Vec<u8>>> {
        if self.pos >= self.data.len() {
            return Ok(None);
        }
        let end = (self.pos + self.chunk).min(self.data.len());
        let out = self.data[self.pos..end].to_vec();
        self.pos = end;
        Ok(Some(out))
    }
}

#[test]
fn escaped_quotes_in_string() {
    let input = "define msg \"He said: \\\"Hello\\\"\""; // string with escaped quotes
    let toks = lex(input).unwrap();
    assert!(toks
        .iter()
        .any(|t| t.kind == TokenKind::String && t.slice.contains("\\\"Hello\\\"")));
}

#[test]
fn escaped_slash_in_regex() {
    let input = r"define r /foo\/bar/"; // regex containing escaped slash
    let toks = lex(input).unwrap();
    assert!(toks
        .iter()
        .any(|t| t.kind == TokenKind::Regex && t.slice == "/foo\\/bar/"));
}

#[test]
fn streaming_split_with_escape() {
    // Split right after an escape backslash to ensure we don't mis-detect termination.
    let source = "define msg \"Hello\\\"World\""; // sequence: Hello \" World
    let reader = MemChunks { data: source.as_bytes().to_vec(), pos: 0, chunk: 6 };
    let mut lex = StreamingLexer::new(reader);
    let mut found = false;
    while let Some(batch) = lex.next_batch().unwrap() {
        if batch.tokens.iter().any(|t| t.kind == TokenKind::String) {
            found = true;
        }
        if batch.finished {
            break;
        }
    }
    assert!(found, "Did not find string token in streaming split scenario");
}
