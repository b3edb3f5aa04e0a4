//! An ordered binary tree with an eager in-order walk and a lazy, restartable
//! in-order iterator, together with two small value types: a complex number
//! with component-wise arithmetic, and a list with one element chosen.

pub mod complex;
pub mod iter;
pub mod order;
pub mod selector;
pub mod tree;
