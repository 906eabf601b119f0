//! What the analysis reports about a grammar, as values.

use vstd::prelude::*;
use crate::front::ast::Ident;
use crate::front::ast::Span;

verus! {

/// How serious a diagnostic is.
#[derive(Clone, Copy, PartialEq, Eq, Debug)]
pub enum Level {
    Error,
    Note,
}

/// What a diagnostic says.
#[derive(Clone, Copy, PartialEq, Eq, Debug)]
pub enum Message {
    /// The grammar declares no rule.
    EmptyGrammar,
    /// The named rule was already declared.
    DuplicateRuleName(Ident),
    /// The first declaration of a rule that is declared again.
    FirstDefinition(Ident),
    /// A call of the named rule, which is declared nowhere.
    UndeclaredRuleReference(Ident),
}

/// One report, with the place in the source that it is about, if any.
#[derive(Clone, Copy, PartialEq, Eq, Debug)]
pub struct Diagnostic {
    pub level: Level,
    pub span: Option<Span>,
    pub message: Message,
}

impl Diagnostic {
    /// An error that is about no particular place.
    pub open spec fn error(message: Message) -> Diagnostic {
        Diagnostic { level: Level::Error, span: None, message }
    }

    /// An error at `span`.
    pub open spec fn error_at(span: Span, message: Message) -> Diagnostic {
        Diagnostic { level: Level::Error, span: Some(span), message }
    }

    /// A note at `span`.
    pub open spec fn note_at(span: Span, message: Message) -> Diagnostic {
        Diagnostic { level: Level::Note, span: Some(span), message }
    }
}

/// Collects the diagnostics of an analysis in the order in which they are
/// reported.
pub struct Diagnostics {
    pub reported: Vec<Diagnostic>,
}

impl Diagnostics {
    /// A sink to which nothing has been reported.
    pub fn new() -> (sink: Diagnostics)
        ensures
            sink.reported@ == Seq::<Diagnostic>::empty(),
    {
        Diagnostics { reported: Vec::new() }
    }

    /// Reports an error that is about no particular place.
    pub fn err(&mut self, message: Message)
        ensures
            final(self).reported@ == old(self).reported@.push(Diagnostic::error(message)),
    {
        self.reported.push(Diagnostic { level: Level::Error, span: None, message });
    }

    /// Reports an error at `span`.
    pub fn span_err(&mut self, span: Span, message: Message)
        ensures
            final(self).reported@ == old(self).reported@.push(Diagnostic::error_at(span, message)),
    {
        self.reported.push(Diagnostic { level: Level::Error, span: Some(span), message });
    }

    /// Reports a note at `span`.
    pub fn span_note(&mut self, span: Span, message: Message)
        ensures
            final(self).reported@ == old(self).reported@.push(Diagnostic::note_at(span, message)),
    {
        self.reported.push(Diagnostic { level: Level::Note, span: Some(span), message });
    }
}

} // verus!
