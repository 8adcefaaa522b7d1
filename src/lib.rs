//! A line-oriented stream concatenator: copies sources to one output in order,
//! optionally numbering lines and marking line ends.

pub mod model;
pub mod scanner;
pub mod engine;
pub mod laws;

pub use engine::{cat, cat_buffered, open_failure_message, Concatenator, InputSource};
pub use scanner::{LineState, Scanner};
