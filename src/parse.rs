pub mod parser;

pub use parser::{parse, Event, NodeKind, ParseDiagnostic, ParseEvents, Parser};
