//! A small DNS message library: header flags and counters, questions,
//! resource records and their wire encodings.

pub mod packet;
pub mod protocol;
