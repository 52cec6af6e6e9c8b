//! An incremental JSON parser: it takes a document one character at a time
//! and keeps, at every point of the input, the value read so far.

pub mod number;
pub mod value;
pub mod text;
pub mod json_text;
pub mod state;
pub mod transition;
pub mod stack;
pub mod wellformed;
pub mod parser;
pub mod laws;
pub mod document;

pub use number::{Number, Reading, Scalar};
pub use parser::{parse_stream, parse_stream_with_limits, JsonStreamParser};
pub use state::{Frame, ParseError, State, StateKind};
pub use text::ends_with_odd_backslashes;
pub use value::Value;
