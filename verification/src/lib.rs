//! A JSON library: a `Value` tree, a parser from JSON text with
//! position-aware errors, and a writer back to JSON text.

use vstd::prelude::*;

pub mod agree;
pub mod de;
pub mod error;
pub mod formatter;
pub mod grammar;
pub mod laws;
pub mod map;
pub mod number;
pub mod parser;
pub mod ser;
pub mod text;
pub mod value;

pub use de::{from_slice, from_str, StreamDeserializer};
pub use error::Error;
pub use map::{Entry, OccupiedEntry, VacantEntry};
pub use formatter::{CharEscape, CompactFormatter, Formatter, PrettyFormatter};
pub use number::Number;
pub use ser::to_string;
pub use value::{JsonMap, Value};

verus! {

} // verus!
