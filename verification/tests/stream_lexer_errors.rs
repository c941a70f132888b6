use rustine::stream::{ReadChunks, StreamingLexer};
use rustine::GelError;

struct Bytes {
    parts: Vec<Vec<u8>>,
    next: usize,
}

impl ReadChunks for Bytes {
    fn next_chunk(&mut self) -> std::io::Result<Option<Vec<u8>>> {
        if self.next >= self.parts.len() {
            return Ok(None);
        }
        let out = self.parts[self.next].clone();
        self.next += 1;
        Ok(Some(out))
    }
}

fn lexer(parts: Vec<Vec<u8>>) -> StreamingLexer<Bytes> {
    StreamingLexer::new(Bytes { parts, next: 0 })
}

#[test]
fn invalid_utf8_chunk_is_a_lex_error() {
    let mut lx = lexer(vec![vec![0xff, 0x41]]);
    assert!(matches!(lx.next_batch(), Err(GelError::Lex { .. })));
}

#[test]
fn accepted_chunk_joins_the_pending_text() {
    let mut lx = lexer(vec![]);
    assert!(lx.accept_chunk(Ok(Some(b"define".to_vec()))).is_ok());
    assert!(matches!(lx.accept_chunk(Ok(Some(vec![0xc3]))), Err(GelError::Lex { .. })));
    let err = std::io::Error::new(std::io::ErrorKind::Other, "boom");
    assert!(matches!(lx.accept_chunk(Err(err)), Err(GelError::Io(_))));
    assert!(lx.accept_chunk(Ok(None)).is_ok());
    let batch = lx.next_batch().expect("batch").expect("some");
    assert!(batch.finished);
    assert_eq!(batch.tokens.len(), 2);
}

#[test]
fn unclosed_literal_at_end_is_a_lex_error() {
    let mut lx = lexer(vec![b"define x \"abc".to_vec()]);
    let mut seen_error = false;
    for _ in 0..8 {
        match lx.next_batch() {
            Ok(Some(b)) => assert!(!b.finished),
            Ok(None) => break,
            Err(GelError::Lex { message, .. }) => {
                assert_eq!(message, "Unterminated literal at EOF");
                seen_error = true;
                break;
            }
            Err(_) => panic!("unexpected error"),
        }
    }
    assert!(seen_error);
}

#[test]
fn valid_chunks_give_batches_until_the_end() {
    let mut lx = lexer(vec![b"grammar g".to_vec(), b":\n".to_vec()]);
    let mut finished = false;
    for _ in 0..16 {
        let b = lx.next_batch().expect("no error").expect("a batch");
        if b.finished {
            finished = true;
            break;
        }
    }
    assert!(finished);
    assert!(lx.next_batch().expect("after end").is_none());
}
