//! Decision logic of a concurrent copy tool: path normalisation, the
//! self-containment check, chunk accounting, the size prescan, the tree
//! walk and the bounded scheduler, each as plain values in and out.

pub mod copy;
pub mod error;
pub mod mirror;
pub mod path;
pub mod scheduler;
pub mod utils;
pub mod walk;
