//! A small line-oriented text search: given a query and the text of a file, it
//! selects the lines that contain the query (or, inverted, those that do not),
//! optionally ignoring case, and renders them with or without line numbers.
//!
//! - [`params`]: the command-line tokens and the parameters parsed from them;
//! - [`lines`]: how a text falls into lines;
//! - [`matching`]: substring containment;
//! - [`search`]: which lines are selected, and under which numbers;
//! - [`sorting`]: sorting of line numbers;
//! - [`render`]: the selected lines as they are shown.
//!
//! Every function is verified against a contract stated over `Seq<char>` models
//! of the strings involved. One call is taken on trust: `str::to_lowercase`,
//! whose result the contracts only name.

mod encoding;
pub mod lines;
pub mod matching;
pub mod params;
pub mod render;
pub mod search;
pub mod sorting;

pub use lines::split_first_line;
pub use params::{Params, ParamsView, ParseError};
pub use render::{render, render_line, report, sorted_numbers};
pub use search::{search, selects};
