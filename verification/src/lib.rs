//! An unbalanced binary search tree with two verified traversal modes: a
//! resumable sequential in-order cursor, and a splittable cursor whose halves
//! can be handed to a fork-join scheduler and drained independently.

pub mod abr;
pub mod abr_iterator;
pub mod abr_parallel_iterator;
pub mod node;
pub mod total_order;

pub use abr::ABR;
pub use abr_iterator::ABRIterator;
pub use abr_parallel_iterator::ABRParallelIterator;
pub use node::Node;
pub use total_order::TotalOrder;
