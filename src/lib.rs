//! Word ladders: the shortest chains of one-letter substitutions that lead
//! from one word to another while staying inside a fixed set of words.

pub mod codec;
pub mod extract;
pub mod graph;
pub mod ladder;
pub mod search;
pub mod text;
pub mod words;
