//! Lexing Gel source that arrives in chunks.

pub mod chunk_reader;
pub mod stream_lexer;

pub use chunk_reader::ReadChunks;
pub use stream_lexer::{BorrowedToken, StreamTokenBatch, StreamingLexer};
