//! Grammar analysis and parsing algorithms (LL(1), LR(0), SLR(1), LR(1) and
//! backtracking recursive descent), with their contracts proved by Verus.

pub mod symbols;
pub mod collections;
pub mod text;
pub mod grammar;
pub mod parser;
pub mod ll1;
pub mod tree;
pub mod ll1_tree;
pub mod ll1_tree_shape;
pub mod lr;
pub mod lr0;
pub mod lr_sets;
pub mod slr1;
pub mod lr1;
pub mod recursive_descent;
pub mod names;
pub mod api;
pub mod ai;
pub mod dot;
pub mod derivation;
pub mod lr_sound;
pub mod lr_hierarchy;
pub mod ll1_complete;
pub mod lr_conflicts;
