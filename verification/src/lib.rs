pub mod attacks;
pub mod board;
pub mod history;
pub mod laws;
pub mod movepick;
pub mod scoring;
pub mod search;
pub mod thread;
pub mod types;

pub use board::Board;
pub use movepick::{best_index, MovePicker, Stage};
pub use search::{NodeType, NonRoot, Root};
pub use thread::{Params, ThreadData};
