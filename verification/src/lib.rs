//! A word-frequency engine over ASCII byte buffers, together with the
//! collision census that justifies its fast equality shortcut.
//!
//! The engine folds a byte buffer to lower case in place, splits it into
//! maximal alphabetic runs ("words"), and counts occurrences of each word
//! in a table keyed by a packed (hash, length) word key.  Hash-equal words
//! of length six or more are compared byte for byte; shorter hash-equal
//! words are taken as equal, a shortcut that rests on the census in
//! `collisions`, which counts hash reuse over every short lowercase string.

pub mod collisions;
pub mod hash;
pub mod wordcount;
