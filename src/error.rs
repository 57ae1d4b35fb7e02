//! The diagnostic sink shared by the lexer and the compiler.
use vstd::prelude::*;
use crate::pos::{Position, Span};

verus! {

/// How serious a diagnostic is.
#[derive(Debug, Clone, Copy, PartialEq, Eq, Structural)]
pub enum Level {
    Warn,
    Error,
}

/// One message attached to a span of the source.
#[derive(Debug, Clone)]
pub struct Diagnostic {
    pub msg: String,
    pub span: Span,
    pub level: Level,
}

/// An append-only list of diagnostics, plus the span of the end of the input.
#[derive(Debug, Clone)]
pub struct Reporter {
    diagnostics: Vec<Diagnostic>,
    end: Span,
}

/// Relies on String::push: appends one character.
#[verifier::external_body]
pub(crate) fn push_char(s: &mut String, c: char)
    ensures
        final(s)@ == old(s)@.push(c),
{
    s.push(c)
}

/// The span used before the end of the input is known.
pub open spec fn empty_span() -> Span {
    Span {
        start: Position { line: 1, column: 0, absolute: 1 },
        end: Position { line: 1, column: 0, absolute: 1 },
    }
}

/// The word that names a level in rendered output.
pub open spec fn level_name(level: Level) -> Seq<char> {
    match level {
        Level::Warn => "warning"@,
        Level::Error => "error"@,
    }
}

/// `s` written `n` times in a row.
pub open spec fn repeat_seq(s: Seq<char>, n: nat) -> Seq<char>
    decreases n,
{
    if n == 0 {
        Seq::empty()
    } else {
        repeat_seq(s, (n - 1) as nat) + s
    }
}

/// `s` written `count` times in a row.
pub fn repeat_string(s: &str, count: usize) -> (r: String)
    ensures
        r@ == repeat_seq(s@, count as nat),
{
    let mut r = String::new();
    let mut i: usize = 0;
    while i < count
        invariant
            i <= count,
            r@ == repeat_seq(s@, i as nat),
        decreases count - i,
    {
        r.append(s);
        i = i + 1;
    }
    r
}

impl Level {
    /// The word that names this level: `warning` or `error`.
    pub fn name(&self) -> (r: String)
        ensures
            r@ == level_name(*self),
    {
        match self {
            Level::Warn => String::from_str("warning"),
            Level::Error => String::from_str("error"),
        }
    }
}

impl Reporter {
    /// The diagnostics recorded so far, oldest first.
    pub closed spec fn view_diagnostics(&self) -> Seq<Diagnostic> {
        self.diagnostics@
    }

    /// The recorded end-of-input span.
    pub closed spec fn end_span(&self) -> Span {
        self.end
    }

    /// A reporter with no diagnostics.
    pub fn new() -> (r: Reporter)
        ensures
            r.view_diagnostics().len() == 0,
            r.end_span() == empty_span(),
    {
        Reporter {
            diagnostics: Vec::new(),
            end: Span {
                start: Position { line: 1, column: 0, absolute: 1 },
                end: Position { line: 1, column: 0, absolute: 1 },
            },
        }
    }

    /// Whether any diagnostic has been recorded.
    pub fn has_error(&self) -> (r: bool)
        ensures
            r == (self.view_diagnostics().len() > 0),
    {
        self.diagnostics.len() > 0
    }

    /// Records the span of the end of the input.
    pub fn set_end(&mut self, span: Span)
        ensures
            final(self).end_span() == span,
            final(self).view_diagnostics() == old(self).view_diagnostics(),
    {
        self.end = span;
    }

    /// The span of the end of the input.
    pub fn end(&self) -> (r: Span)
        ensures
            r == self.end_span(),
    {
        self.end
    }

    /// Drops the most recent diagnostic, if there is one.
    pub fn remove_error(&mut self)
        ensures
            final(self).end_span() == old(self).end_span(),
            final(self).view_diagnostics() == if old(self).view_diagnostics().len() == 0 {
                old(self).view_diagnostics()
            } else {
                old(self).view_diagnostics().drop_last()
            },
    {
        let _ = self.diagnostics.pop();
    }

    /// Records an error.
    pub fn error(&mut self, msg: String, span: Span)
        ensures
            final(self).end_span() == old(self).end_span(),
            final(self).view_diagnostics() == old(self).view_diagnostics().push(
                Diagnostic { msg, span, level: Level::Error },
            ),
    {
        self.diagnostics.push(Diagnostic { msg, span, level: Level::Error });
    }

    /// Records a warning.
    pub fn warn(&mut self, msg: String, span: Span)
        ensures
            final(self).end_span() == old(self).end_span(),
            final(self).view_diagnostics() == old(self).view_diagnostics().push(
                Diagnostic { msg, span, level: Level::Warn },
            ),
    {
        self.diagnostics.push(Diagnostic { msg, span, level: Level::Warn });
    }

    /// The recorded diagnostics, oldest first.
    pub fn diagnostics(&self) -> (r: &Vec<Diagnostic>)
        ensures
            r@ == self.view_diagnostics(),
    {
        &self.diagnostics
    }

    /// The head line of each diagnostic, `<level>: <message>`, in the order
    /// they were recorded.
    pub fn emit(&self) -> (r: Vec<String>)
        ensures
            r@.len() == self.view_diagnostics().len(),
            forall|i: int|
                0 <= i < r@.len() ==> #[trigger] r@[i]@ == level_name(self.view_diagnostics()[i].level)
                    + ": "@ + self.view_diagnostics()[i].msg@,
    {
        let mut r: Vec<String> = Vec::new();
        let mut i: usize = 0;
        while i < self.diagnostics.len()
            invariant
                i <= self.diagnostics@.len(),
                r@.len() == i,
                forall|j: int|
                    0 <= j < i ==> #[trigger] r@[j]@ == level_name(self.diagnostics@[j].level) + ": "@
                        + self.diagnostics@[j].msg@,
            decreases self.diagnostics@.len() - i,
        {
            let d = &self.diagnostics[i];
            let mut line = d.level.name();
            line.append(": ");
            line.append(d.msg.as_str());
            r.push(line);
            i = i + 1;
        }
        r
    }
}

} // verus!
