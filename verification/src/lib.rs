//! Verified solvers for three small puzzles: a pair of array-embedded binary
//! trees whose nodes and subtrees can be exchanged, a modular score
//! calculator, and a snail clock.

pub mod position;
pub mod text;
pub mod modular;
pub mod tree;
pub mod subtree;
pub mod levels;
pub mod command;
pub mod pair;
pub mod census;
pub mod undo;
pub mod inorder;
pub mod enicode;
pub mod snail;
