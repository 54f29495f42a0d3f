//! Lazy splitting of a text into the segments that lie between the occurrences
//! of a delimiter, with every step of the iteration specified and proved.
//!
//! A [`SplitStr`] reads a text from the left. Each call of `next` hands out the
//! part of the text up to the next occurrence of the delimiter, as a slice of
//! the text, and keeps what lies behind that occurrence. A delimiter is a
//! literal piece of text or a single character; see [`Delimiter`].
//! [`until_char`] gives the part of a text before a character.
//!
//! The modules, from the ground up:
//! - [`occurrence`]: where a byte pattern occurs in a byte text, and a search
//!   for the first occurrence;
//! - [`segments`]: the segments of a text as a sequence, and what holds of them;
//! - [`encoding`]: why no segment of a text in UTF-8 cuts a character;
//! - [`delimiter`]: the two kinds of delimiter;
//! - [`splitter`]: the splitter itself.

pub mod delimiter;
pub mod encoding;
pub mod occurrence;
pub mod segments;
pub mod splitter;

pub use crate::delimiter::Delimiter;
pub use crate::splitter::{until_char, SplitStr};
