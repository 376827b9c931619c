//! An interactive session for a compiled language keeps one growing program:
//! every statement the user enters is woven into the program text, the text
//! is built and run, and the session either keeps the new text or falls back
//! to the last text that built.
//!
//! * [`text`] holds the vocabulary for working with text as sequences of
//!   characters: substring search, splitting into lines, joining lines.
//! * [`command`] weaves a statement into a program and digests the
//!   diagnostics of a failed build.
//! * [`repl`] is the session itself: the current text, the last good text,
//!   and the transitions between them.
pub mod command;
pub mod repl;
pub mod text;
