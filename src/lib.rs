//! A Fibonacci heap over `u64` keys and `u64` values, with every operation
//! proved against a map from values to keys.

pub mod heap;
pub mod laws;
pub mod model;
mod node;

pub use heap::{FibonacciHeap, HeapError};
