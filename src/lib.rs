//! An unbalanced binary search tree used as an ordered set.

pub mod command;
pub mod order;
pub mod tree;
pub mod sorted_container;

pub use command::{Command, parse_command};
pub use sorted_container::SortedContainer;
pub use tree::{Link, Node};
