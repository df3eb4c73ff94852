//! Word-frequency ranking: split a text into words, count them without regard
//! to case, and rank the words by how often they occur.
//!
//! A text passes through four steps. `tokenize` splits it into words, the
//! maximal runs of alphabetic characters. `table` counts the words under
//! their lowercase forms; `frequency` says what the resulting table is.
//! `rank` sorts the table by falling count, and `render` writes the ranked
//! list as a table of text. `pipeline` joins the steps, `args` holds the
//! configuration of a run, and `unicode` names what is taken from the
//! standard library unproved.

pub mod args;
pub mod frequency;
pub mod pipeline;
pub mod rank;
pub mod render;
pub mod table;
pub mod tokenize;
pub mod unicode;

pub use crate::args::{CliArgs, Verbosity};
pub use crate::pipeline::{count_words, rank_and_report, report};
pub use crate::rank::rank_positions;
pub use crate::render::render_table;
pub use crate::table::{count_tokens, CountError, FrequencyTable};
pub use crate::tokenize::{tokenize_input, Tokenizer};
