//! The jackpot chip: a state of sixteen words, one of which is rotated and
//! folded with a word on each active row.

pub mod chip;
pub mod compute;
