//! Small verified data structures: a growable vector of integers and a
//! height-balanced (AVL) search tree of integers.
pub mod avl;
pub mod my_vec;

pub use avl::{Node, Tree};
pub use my_vec::MyVec;
