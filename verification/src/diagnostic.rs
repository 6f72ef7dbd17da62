use vstd::prelude::*;

verus! {

/// A zero-based row and a zero-based column counted in bytes since the start of the row.
#[derive(Debug, Clone, Copy, PartialEq, Eq, Structural)]
pub struct Position {
    pub row: usize,
    pub column: usize,
}

/// A span of source text, both as positions and as byte offsets (end exclusive).
#[derive(Debug, Clone, Copy, PartialEq, Eq, Structural)]
pub struct Range {
    pub start: Position,
    pub end: Position,
    pub start_byte: usize,
    pub end_byte: usize,
}

/// How serious a finding is.
#[derive(Debug, Clone, Copy, PartialEq, Eq, Structural)]
pub enum Severity {
    Error,
}

impl Severity {
    /// The lower-case label printed in front of a finding.
    pub fn as_str(&self) -> (label: &'static str)
        ensures
            label@ == "error"@,
    {
        match self {
            Severity::Error => "error",
        }
    }
}

/// One finding of a rule.
#[derive(Debug, Clone, PartialEq, Eq)]
pub struct Diagnostic {
    pub rule_id: &'static str,
    pub message: String,
    pub severity: Severity,
    pub range: Range,
}

/// The mathematical value of a [`Diagnostic`]: its texts as character sequences.
pub struct DiagnosticModel {
    pub rule_id: Seq<char>,
    pub message: Seq<char>,
    pub severity: Severity,
    pub range: Range,
}

impl View for Diagnostic {
    type V = DiagnosticModel;

    open spec fn view(&self) -> DiagnosticModel {
        DiagnosticModel {
            rule_id: self.rule_id@,
            message: self.message@,
            severity: self.severity,
            range: self.range,
        }
    }
}

impl DeepView for Diagnostic {
    type V = DiagnosticModel;

    open spec fn deep_view(&self) -> DiagnosticModel {
        self@
    }
}

} // verus!
