//! Veloct: the front end of the Veloct spatial engine's schema and kernel
//! languages (lexers, parsers, code generators), with machine-checked contracts.

pub mod chars;
pub mod ingest;
pub mod text;
pub mod vct;
pub mod dispatch;
