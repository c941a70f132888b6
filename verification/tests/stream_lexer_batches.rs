use rustine::parser::lexer::TokenKind;
use rustine::stream::{ReadChunks, StreamingLexer};

struct Chunks {
    parts: Vec<&'static str>,
    next: usize,
}

impl ReadChunks for Chunks {
    fn next_chunk(&mut self) -> std::io::Result<Option<Vec<u8>>> {
        if self.next >= self.parts.len() {
            return Ok(None);
        }
        let out = self.parts[self.next].as_bytes().to_vec();
        self.next += 1;
        Ok(Some(out))
    }
}

fn all_tokens(parts: Vec<&'static str>) -> Vec<(TokenKind, usize, usize)> {
    let mut lex = StreamingLexer::new(Chunks { parts, next: 0 });
    let mut out = Vec::new();
    while let Some(batch) = lex.next_batch().expect("batch") {
        for t in &batch.tokens {
            out.push((t.kind, t.start, t.len));
        }
        if batch.finished {
            break;
        }
    }
    assert!(lex.next_batch().expect("after end").is_none());
    out
}

#[test]
fn tokens_carry_byte_offsets_across_chunks() {
    let toks = all_tokens(vec!["define a", "b /x/\n"]);
    assert_eq!(
        toks,
        vec![
            (TokenKind::Define, 0, 6),
            (TokenKind::Identifier, 7, 1),
            (TokenKind::Identifier, 8, 1),
            (TokenKind::Regex, 10, 3),
            (TokenKind::Newline, 13, 1),
            (TokenKind::EOF, 14, 0),
        ]
    );
}

#[test]
fn literal_split_across_chunks_is_one_token() {
    let toks = all_tokens(vec!["define s \"ab", "cd\""]);
    assert!(toks.contains(&(TokenKind::String, 9, 6)), "{toks:?}");
    assert_eq!(toks.last(), Some(&(TokenKind::EOF, 15, 0)));
}

#[test]
fn empty_source_gives_only_eof() {
    assert_eq!(all_tokens(vec![]), vec![(TokenKind::EOF, 0, 0)]);
}

#[test]
fn unterminated_literal_at_end_is_an_error() {
    let mut lex = StreamingLexer::new(Chunks { parts: vec!["define s \"abc"], next: 0 });
    let mut failed = false;
    for _ in 0..10 {
        match lex.next_batch() {
            Err(e) => {
                assert!(e.to_string().contains("Unterminated literal at EOF"), "{}", e.to_string());
                failed = true;
                break;
            }
            Ok(Some(b)) if b.finished => break,
            Ok(None) => break,
            Ok(_) => {}
        }
    }
    assert!(failed);
}
