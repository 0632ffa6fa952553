//! Diagnostics: why an input was rejected, or what is to be known of it.
use vstd::prelude::*;

verus! {

/// Whether a diagnostic stands in the way of what was asked for.
#[derive(Debug, Clone, Copy, PartialEq, Eq, Structural)]
pub enum Severity {
    Error,
    Warning,
}

/// The word of a severity.
pub open spec fn severity_text(s: Severity) -> Seq<char> {
    match s {
        Severity::Error => "error"@,
        Severity::Warning => "warning"@,
    }
}

pub fn severity_name(s: Severity) -> (r: &'static str)
    ensures
        r@ == severity_text(s),
{
    match s {
        Severity::Error => "error",
        Severity::Warning => "warning",
    }
}

/// A diagnostic: its severity, a stable code, a message for people, and the piece of
/// input it is about.
#[derive(Debug)]
pub struct Diagnostic {
    pub severity: Severity,
    pub code: String,
    pub message: String,
    pub value: String,
}

/// What a diagnostic says.
#[verifier::ext_equal]
pub struct DiagnosticView {
    pub severity: Severity,
    pub code: Seq<char>,
    pub message: Seq<char>,
    pub value: Seq<char>,
}

impl View for Diagnostic {
    type V = DiagnosticView;

    open spec fn view(&self) -> DiagnosticView {
        DiagnosticView {
            severity: self.severity,
            code: self.code@,
            message: self.message@,
            value: self.value@,
        }
    }
}

/// The error with this code, message and value.
pub open spec fn diagnosed(code: Seq<char>, message: Seq<char>, value: Seq<char>) -> DiagnosticView {
    DiagnosticView { severity: Severity::Error, code, message, value }
}

/// The warning with this code, message and value.
pub open spec fn warned(code: Seq<char>, message: Seq<char>, value: Seq<char>) -> DiagnosticView {
    DiagnosticView { severity: Severity::Warning, code, message, value }
}

pub fn diag(code: &str, message: &str, value: &str) -> (d: Diagnostic)
    ensures
        d@ == diagnosed(code@, message@, value@),
{
    Diagnostic {
        severity: Severity::Error,
        code: code.to_owned(),
        message: message.to_owned(),
        value: value.to_owned(),
    }
}

pub fn warn(code: &str, message: &str, value: &str) -> (d: Diagnostic)
    ensures
        d@ == warned(code@, message@, value@),
{
    Diagnostic {
        severity: Severity::Warning,
        code: code.to_owned(),
        message: message.to_owned(),
        value: value.to_owned(),
    }
}

/// What diagnostics say.
pub open spec fn diagnostic_views(v: Seq<Diagnostic>) -> Seq<DiagnosticView> {
    v.map_values(|d: Diagnostic| d@)
}

/// What a reader of a string returned.
pub open spec fn string_result(r: Result<String, Diagnostic>) -> Result<Seq<char>, DiagnosticView> {
    match r {
        Ok(s) => Ok(s@),
        Err(d) => Err(d@),
    }
}

/// What a reader of a string slice returned.
pub open spec fn str_result(r: Result<&str, Diagnostic>) -> Result<Seq<char>, DiagnosticView> {
    match r {
        Ok(s) => Ok(s@),
        Err(d) => Err(d@),
    }
}

} // verus!
