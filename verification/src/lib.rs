//! An append/pop ordered log of text entries with bidirectional traversal.
//!
//! `log::TransactionLog` supports constant-time insertion at the tail and
//! removal at the head, and hands out independent `cursor::ListIterator`
//! values that walk the entries forward or backward. Nodes live in an arena
//! of slots linked by stable handles, so the doubly-linked chain invariants
//! (back-link symmetry, head/tail consistency, length tracking) are stated
//! and machine-checked rather than maintained by shared-pointer discipline.

pub mod cursor;
pub mod log;
