//! Text utilities, a prefix trie and the decision logic of a CS2 case-unboxing bot.
use vstd::prelude::*;

pub mod text;
pub mod trie;
pub mod data;
pub mod embed;
pub mod commands;
pub mod bot;

verus! {

} // verus!
