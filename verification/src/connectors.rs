//! Per-agent connectors.
//!
//! Each module turns one agent's on-disk shape into normalized
//! records. Directory enumeration and file reads happen outside the
//! library; the parsing from file text onward lives here.

pub mod chatgpt;
pub mod codebuff;
pub mod gemini;
pub mod opencode;
