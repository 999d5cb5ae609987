//! Address algebra of a packed forest of perfect binary trees: every node of
//! every tree is named by one integer, and navigation is bit arithmetic.

pub mod model;
mod bit_facts;
mod row_facts;
pub mod util;
pub mod laws;
