//! Syntax tree of a grammar before any semantic check.

use vstd::prelude::*;

verus! {

/// A region of the grammar's source text, as byte offsets.
#[derive(Clone, Copy, PartialEq, Eq, Structural, Debug)]
pub struct Span {
    pub lo: u32,
    pub hi: u32,
}

/// An interned name. Two identifiers are the same name exactly when their
/// symbols are equal.
#[derive(Clone, Copy, PartialEq, Eq, Structural, Debug)]
pub struct Ident {
    pub name: u64,
}

/// An identifier together with the place where it was written.
#[derive(Clone, Copy, PartialEq, Eq, Structural, Debug)]
pub struct SpannedIdent {
    pub span: Span,
    pub node: Ident,
}

/// What an attribute asks for.
#[derive(Clone, Copy, PartialEq, Eq, Structural, Debug)]
pub enum AttributeKind {
    /// Marks the rule at which parsing starts.
    Start,
    /// The rule produces no value.
    TypeUnit,
    /// The rule produces the span of the text it matched.
    TypeSpan,
    /// The rule produces whatever its semantic action returns.
    TypeAction,
    /// Print the generated code.
    PrintCode,
    /// Print a summary of the generated interface.
    PrintApi,
    /// Emit the generated code.
    EmitCode,
    /// Emit a summary of the generated interface.
    EmitApi,
    /// An attribute that no resolver knows.
    Other(Ident),
}

/// An annotation attached to a grammar or to a rule.
#[derive(Clone, Copy, PartialEq, Eq, Structural, Debug)]
pub struct Attribute {
    pub span: Span,
    pub kind: AttributeKind,
}

/// A place in an expression where a rule is called by name.
#[derive(Clone, Copy, PartialEq, Eq, Structural, Debug)]
pub struct NonTerminal {
    pub span: Span,
    pub ident: Ident,
}

/// A parsing expression.
#[derive(PartialEq, Eq, Debug)]
pub enum Expression {
    StrLiteral(Span, String),
    AnySingleChar(Span),
    NonTerminalSymbol(Span, Ident),
    Sequence(Span, Vec<Expression>),
    Choice(Span, Vec<Expression>),
    ZeroOrMore(Span, Box<Expression>),
    OneOrMore(Span, Box<Expression>),
    Optional(Span, Box<Expression>),
    SemanticAction(Span, Box<Expression>, Ident),
}

/// The mathematical value of an `Expression`: the same tree over sequences.
pub enum ExpressionView {
    StrLiteral(Span, Seq<char>),
    AnySingleChar(Span),
    NonTerminalSymbol(Span, Ident),
    Sequence(Span, Seq<ExpressionView>),
    Choice(Span, Seq<ExpressionView>),
    ZeroOrMore(Span, Box<ExpressionView>),
    OneOrMore(Span, Box<ExpressionView>),
    Optional(Span, Box<ExpressionView>),
    SemanticAction(Span, Box<ExpressionView>, Ident),
}

/// The views of the expressions of `v`, in order.
pub open spec fn view_all(v: Vec<Expression>) -> Seq<ExpressionView>
    decreases v, 0nat,
{
    Seq::new(
        v.len() as nat,
        |i: int|
            if 0 <= i < v.len() {
                view_of(v[i])
            } else {
                ExpressionView::AnySingleChar(Span { lo: 0, hi: 0 })
            },
    )
}

/// The view of one expression.
pub open spec fn view_of(e: Expression) -> ExpressionView
    decreases e,
{
    match e {
        Expression::StrLiteral(sp, s) => ExpressionView::StrLiteral(sp, s@),
        Expression::AnySingleChar(sp) => ExpressionView::AnySingleChar(sp),
        Expression::NonTerminalSymbol(sp, id) => ExpressionView::NonTerminalSymbol(sp, id),
        Expression::Sequence(sp, v) => ExpressionView::Sequence(sp, view_all(v)),
        Expression::Choice(sp, v) => ExpressionView::Choice(sp, view_all(v)),
        Expression::ZeroOrMore(sp, e) => ExpressionView::ZeroOrMore(sp, Box::new(view_of(*e))),
        Expression::OneOrMore(sp, e) => ExpressionView::OneOrMore(sp, Box::new(view_of(*e))),
        Expression::Optional(sp, e) => ExpressionView::Optional(sp, Box::new(view_of(*e))),
        Expression::SemanticAction(sp, e, id) => ExpressionView::SemanticAction(
            sp,
            Box::new(view_of(*e)),
            id,
        ),
    }
}

impl View for Expression {
    type V = ExpressionView;

    open spec fn view(&self) -> ExpressionView {
        view_of(*self)
    }
}

impl ExpressionView {
    /// The rule calls of the expression, in the order in which they are written.
    pub open spec fn non_terminals(self) -> Seq<NonTerminal>
        decreases self,
    {
        match self {
            ExpressionView::StrLiteral(_, _) => Seq::empty(),
            ExpressionView::AnySingleChar(_) => Seq::empty(),
            ExpressionView::NonTerminalSymbol(sp, id) => seq![NonTerminal { span: sp, ident: id }],
            ExpressionView::Sequence(_, es) => non_terminals_of_first(es, es.len()),
            ExpressionView::Choice(_, es) => non_terminals_of_first(es, es.len()),
            ExpressionView::ZeroOrMore(_, e) => e.non_terminals(),
            ExpressionView::OneOrMore(_, e) => e.non_terminals(),
            ExpressionView::Optional(_, e) => e.non_terminals(),
            ExpressionView::SemanticAction(_, e, _) => e.non_terminals(),
        }
    }
}

/// The rule calls of the first `n` expressions of `es`, in order.
pub open spec fn non_terminals_of_first(es: Seq<ExpressionView>, n: nat) -> Seq<NonTerminal>
    decreases es, n,
{
    if n == 0 || n > es.len() {
        Seq::empty()
    } else {
        non_terminals_of_first(es, (n - 1) as nat) + es[n - 1].non_terminals()
    }
}

impl Expression {
    /// A copy of the whole tree.
    pub fn deep_clone(&self) -> (copy: Expression)
        ensures
            copy@ == self@,
        decreases self,
    {
        match self {
            Expression::StrLiteral(sp, s) => Expression::StrLiteral(*sp, s.clone()),
            Expression::AnySingleChar(sp) => Expression::AnySingleChar(*sp),
            Expression::NonTerminalSymbol(sp, id) => Expression::NonTerminalSymbol(*sp, *id),
            Expression::Sequence(sp, v) => Expression::Sequence(*sp, clone_all(v)),
            Expression::Choice(sp, v) => Expression::Choice(*sp, clone_all(v)),
            Expression::ZeroOrMore(sp, e) => Expression::ZeroOrMore(*sp, Box::new(e.deep_clone())),
            Expression::OneOrMore(sp, e) => Expression::OneOrMore(*sp, Box::new(e.deep_clone())),
            Expression::Optional(sp, e) => Expression::Optional(*sp, Box::new(e.deep_clone())),
            Expression::SemanticAction(sp, e, id) => Expression::SemanticAction(
                *sp,
                Box::new(e.deep_clone()),
                *id,
            ),
        }
    }
}

/// Copies of the expressions of `v`, in order.
fn clone_all(v: &Vec<Expression>) -> (copy: Vec<Expression>)
    ensures
        view_all(copy) == view_all(*v),
    decreases v, 0nat,
{
    let mut copy: Vec<Expression> = Vec::new();
    let mut i: usize = 0;
    while i < v.len()
        invariant
            i <= v.len(),
            copy.len() == i,
            forall|k: int| 0 <= k < i ==> copy[k]@ == v[k]@,
        decreases v.len() - i,
    {
        copy.push(v[i].deep_clone());
        i = i + 1;
    }
    assert(view_all(copy) =~= view_all(*v));
    copy
}

/// A rule as its author wrote it.
#[derive(PartialEq, Eq, Debug)]
pub struct Rule {
    pub name: SpannedIdent,
    pub attributes: Vec<Attribute>,
    pub def: Box<Expression>,
}

impl Rule {
    /// The rule calls in the body of the rule, in the order in which they are
    /// written.
    pub open spec fn calls(self) -> Seq<NonTerminal> {
        (*self.def)@.non_terminals()
    }
}

/// A grammar as its author wrote it.
#[derive(PartialEq, Eq, Debug)]
pub struct Grammar {
    pub name: Ident,
    pub rules: Vec<Rule>,
    pub attributes: Vec<Attribute>,
}

} // verus!
