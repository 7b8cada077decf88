//! Finds dictionary words hidden in a letter grid, in eight directions from
//! every cell, with a resumable, prefix-pruned scan.
pub mod board;
pub mod scan;
pub mod state;
pub mod trie;
