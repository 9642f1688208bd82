//! Streaming text utilities in the tradition of the Unix tools `cat`, `cut`,
//! `echo`, `find`, `head`, `uniq` and `wc`.
//!
//! Every processor works on lines handed to it one at a time and appends what
//! it emits to a byte buffer, so that a caller may stream a source of any
//! length through it. For a source that is already in memory each processor
//! also offers a function on the whole text, whose contract states the result
//! over the lines of that text.
//!
//! - [`lines`]: what a line is, and the reader that takes lines from a text.
//! - [`uniq`]: collapsing runs of adjacent lines with the same content.
//! - [`wc`]: counting lines, words, bytes and characters.
//! - [`head`]: emitting the first lines or bytes of a source.
//! - [`cat`]: writing lines with numbers before them.
//! - [`find`]: choosing the entries of a directory walk.
//! - [`cut`], [`echo`]: the delimiter of `cut`, the line of `echo`.
//! - [`source`], [`text`], [`format`], [`encoding`]: labels of sources, white
//!   space and words, numbers in fields, and UTF-8 across lines.
pub mod cat;
pub mod cut;
pub mod echo;
pub mod encoding;
pub mod find;
pub mod format;
pub mod head;
pub mod lines;
pub mod source;
pub mod text;
pub mod uniq;
pub mod wc;
