//! Whitespace-separated token input: a buffer of tokens refilled one line at
//! a time, and typed reads of its front token.
pub mod parse;
pub mod stream;
pub mod text;

pub use parse::FromBuf;
pub use parse::ParseTokenError;
pub use stream::InputStream;
