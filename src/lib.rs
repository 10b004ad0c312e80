//! A small cooperative task runtime: a busy-polling executor with completion
//! handles, cooperative cancellation and timers, plus an ordered binary tree.
use vstd::prelude::*;

pub mod executor;
pub mod task;
pub mod time;
pub mod tree;
pub mod visualizer;

pub use executor::{Context, Executor, JoinHandle};
pub use task::{CompletionCell, PollState, Pollable};
pub use time::{delay, DelayFuture};
pub use tree::{BinarySearchTree, InOrderIterator, Node};
pub use visualizer::{AsciiVisualizer, TreeVisualizer, VisualizerError};

verus! {

/// The error a handle reports once its task has been cancelled.
#[derive(Debug, Clone, Copy, PartialEq, Eq, Structural)]
pub struct Cancelled;

impl Cancelled {
    /// A human-readable description of the error.
    pub fn message(&self) -> (r: String)
        ensures
            r@ == "Task was cancelled"@,
    {
        let r = String::from_str("Task was cancelled");
        proof {
            reveal_strlit("Task was cancelled");
        }
        r
    }
}

} // verus!
