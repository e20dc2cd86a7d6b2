//! Counting adjacent equal elements of a string.
//!
//! The library computes, for a string, the number of positions `i` at which
//! the element at `i` equals the element at `i + 1`. Several traversal
//! idioms compute the same count; each is proved to return exactly
//! [`pairs::adjacent_pairs`] of its input, so all of them agree on every
//! input. A byte-oriented variant counts over the UTF-8 encoding instead;
//! it matches the character count exactly when the input is ASCII, and may
//! diverge on multi-byte characters, which is expected.

pub mod count;
pub mod pairs;

pub use count::count_doubles;
pub use count::count_doubles_fold;
pub use count::count_doubles_memreplace;
pub use count::count_doubles_once;
pub use count::count_doubles_once_bytes;
pub use count::count_doubles_peek;
pub use count::count_doubles_slice;
