//! The library's error taxonomy. Tool-execution failures carry a kind of
//! their own so that a timeout is distinguishable from bad arguments or a
//! spawn failure; data errors surface corrupt session records.

use vstd::prelude::*;

verus! {

/// Why a tool could not be run at all. Operational failure of the invoked
/// work (for example a command exiting non-zero) is never an error: it is
/// reported as data inside the returned text.
#[derive(Clone, Copy, PartialEq, Eq, Structural, Debug)]
pub enum ToolErrorKind {
    /// The arguments were missing a required field or malformed.
    BadArguments,
    /// The configured timeout elapsed before the work finished.
    Timeout,
    /// The underlying process could not be started.
    Spawn,
    /// No tool of the requested name is registered.
    Unresolved,
}

/// A tool-execution error: a kind plus a human-readable description.
#[derive(PartialEq, Eq, Debug)]
pub struct ToolError {
    pub kind: ToolErrorKind,
    pub message: String,
}

/// Mathematical image of a [`ToolError`].
pub struct ToolErrorView {
    pub kind: ToolErrorKind,
    pub message: Seq<char>,
}

impl View for ToolError {
    type V = ToolErrorView;

    open spec fn view(&self) -> ToolErrorView {
        ToolErrorView { kind: self.kind, message: self.message@ }
    }
}

impl Clone for ToolError {
    fn clone(&self) -> (r: Self)
        ensures
            r == *self,
    {
        ToolError { kind: self.kind, message: self.message.clone() }
    }
}

impl ToolError {
    /// Build an error of the given kind.
    pub fn new(kind: ToolErrorKind, message: String) -> (r: ToolError)
        ensures
            r@ == (ToolErrorView { kind, message: message@ }),
    {
        ToolError { kind, message }
    }

    /// The human-readable description.
    pub fn message_text(&self) -> (r: &String)
        ensures
            r@ == self@.message,
    {
        &self.message
    }
}

/// The library's top-level error.
#[derive(PartialEq, Eq, Debug)]
pub enum PicoError {
    /// A tool could not be run at all.
    Tool(ToolError),
    /// A durable session record could not be decoded.
    Data(String),
}

/// Mathematical image of a [`PicoError`].
pub enum PicoErrorView {
    Tool(ToolErrorView),
    Data(Seq<char>),
}

impl View for PicoError {
    type V = PicoErrorView;

    open spec fn view(&self) -> PicoErrorView {
        match self {
            PicoError::Tool(e) => PicoErrorView::Tool(e@),
            PicoError::Data(m) => PicoErrorView::Data(m@),
        }
    }
}

impl Clone for PicoError {
    fn clone(&self) -> (r: Self)
        ensures
            r == *self,
    {
        match self {
            PicoError::Tool(e) => PicoError::Tool(e.clone()),
            PicoError::Data(m) => PicoError::Data(m.clone()),
        }
    }
}

} // verus!
