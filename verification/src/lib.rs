//! Parser for ISO 8601 duration expressions in the designator format
//! (`P1DT7M7S`, `PT2M`, `P2DT1H`), returning whole seconds plus sub-second
//! nanoseconds.
//!
//! The grammar accepted is
//!
//! ```text
//! duration   = "P" [weeks] [days] [time]
//! time       = "T" [hours] [minutes] [seconds]
//! weeks      = 1*DIGIT "W"
//! days       = 1*DIGIT "D"
//! hours      = 1*DIGIT "H"
//! minutes    = 1*DIGIT "M"
//! seconds    = 1*DIGIT ["." 1*9DIGIT] "S"
//! ```
//!
//! Designators are matched case-sensitively, as in the formal ISO grammar.
//! `"P"` and `"PT"` are accepted and denote the zero duration.

pub mod duration;
pub mod laws;
pub mod model;
pub mod parser;
pub mod tokenizer;

pub use duration::Duration;
pub use duration::ParseError;
pub use parser::parse;
pub use parser::to_nanos;
pub use tokenizer::Parts;
