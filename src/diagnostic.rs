use vstd::prelude::*;

verus! {

/// A span of source text, by offsets.
#[derive(Clone, Copy, PartialEq, Eq, Structural, Debug)]
pub struct SourceRange {
    pub start: u32,
    pub end: u32,
}

#[derive(Clone, Copy, PartialEq, Eq, Structural, Debug)]
pub enum DiagnosticKind {
    /// The input breaks a documented contract of the framework's API.
    InvalidReact,
}

/// A typed error raised by a pass.
#[derive(Debug)]
pub struct Diagnostic {
    pub kind: DiagnosticKind,
    pub message: String,
    pub location: Option<SourceRange>,
}

impl Diagnostic {
    pub fn invalid_react(message: &str, location: Option<SourceRange>) -> (r: Diagnostic)
        ensures
            r.kind == DiagnosticKind::InvalidReact,
            r.message@ == message@,
            r.location == location,
    {
        Diagnostic { kind: DiagnosticKind::InvalidReact, message: message.to_string(), location }
    }
}

} // verus!
