//! A write-optimised ordered map: a high-fanout B-tree whose nodes buffer
//! insertions and push them towards the leaves only when a read passes by.
pub mod before;
pub mod boxing;
pub mod buffer;
pub mod fetch;
pub mod get;
pub mod items;
pub mod laws;
pub mod locate;
pub mod map;
pub mod meaning;
pub mod node;
pub mod order;
pub mod process;
pub mod push_down;
pub mod search;
pub mod seqs;
pub mod shape;
pub mod sorting;
pub mod stock;
pub mod value_slot;
pub mod vec_slicer;

pub use crate::map::BeeMap;
pub use crate::node::{MaybeBox, B};
pub use crate::vec_slicer::{SliceThief, VecSlicer};
