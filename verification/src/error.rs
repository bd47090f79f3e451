//! Error types of the layout pipeline.
//!
//! Failures partition into structural input errors (a negative cycle in the
//! vertical constraint graph), missing-key errors in internal maps (always a
//! bug, reported as an indexing error), and solver errors (setup failure or
//! infeasibility).

use vstd::prelude::*;

verus! {

/// General bookkeeping failures of the pipeline.
#[derive(Clone, Debug, PartialEq, Eq)]
pub enum Kind {
    IndexingError,
    KeyNotFoundError { key: String },
    MissingDrawingError,
    MissingFactError { ident: String },
    UnimplementedDrawingStyleError { style: String },
    ParseError { text: String },
}

/// Failures of the ranking stage and of the optional subprocess back end.
#[derive(Clone, Debug, PartialEq, Eq)]
pub enum RankingError {
    NegativeCycleError,
    IoError { message: String },
    Utf8Error { message: String },
}

/// Failures of the numeric solving stages.
#[derive(Clone, Debug, PartialEq, Eq)]
pub enum LayoutError {
    OsqpError { error: String },
    OsqpSetupError { error: String },
}

/// Failures of name and mode resolution.
#[derive(Clone, Debug, PartialEq, Eq)]
pub enum TypeError {
    DeepNameError { name: String },
    UnknownModeError { mode: String },
}

/// The sum of every failure the pipeline can surface.
#[derive(Clone, Debug, PartialEq, Eq)]
pub enum Error {
    TypeError { source: TypeError },
    GraphDrawingError { source: Kind },
    RankingError { source: RankingError },
    LayoutError { source: LayoutError },
}

} // verus!
