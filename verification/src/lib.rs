//! Forbidden-substring scanner.
//!
//! Given a block of text and an ordered list of forbidden tokens, the scanner
//! reports whether the text is safe (contains none of the tokens as a literal
//! substring) and which tokens were found, in the order they appear in the
//! forbidden list.

pub mod laws;
pub mod scanner;
