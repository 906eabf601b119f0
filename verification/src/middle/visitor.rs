//! One walk over expressions for every pass that looks at rule calls.

use vstd::prelude::*;
use crate::front::ast::Expression;
use crate::front::ast::Ident;
use crate::front::ast::non_terminals_of_first;
use crate::front::ast::NonTerminal;
use crate::front::ast::Span;
use crate::front::ast::view_all;

verus! {

/// A pass that is shown every rule call of the expressions it is walked over,
/// in the order in which they are written.
pub trait Visitor {
    /// What the pass knows, as a mathematical value.
    type State;

    /// What must hold of the pass between two visits.
    spec fn ready(&self) -> bool;

    /// What the pass knows now.
    spec fn state(&self) -> Self::State;

    /// What a pass that knows `state` knows after it is shown `call`.
    spec fn after(state: Self::State, call: NonTerminal) -> Self::State;

    /// Shows the pass a call of the rule `id`, written at `sp`.
    fn visit_non_terminal_symbol(&mut self, sp: Span, id: Ident)
        requires
            old(self).ready(),
        ensures
            final(self).ready(),
            final(self).state() == Self::after(
                old(self).state(),
                NonTerminal { span: sp, ident: id },
            ),
    ;
}

/// What a pass that knows `state` knows after it is shown the first `n` of
/// `calls`, one after the other.
pub open spec fn after_all<V: Visitor>(state: V::State, calls: Seq<NonTerminal>, n: nat) -> V::State
    decreases n,
{
    if n == 0 || n > calls.len() {
        state
    } else {
        V::after(after_all::<V>(state, calls, (n - 1) as nat), calls[n - 1])
    }
}

/// To show a pass all of `first` and then the first `n` of `then` is to show
/// it as many of the two put together.
pub proof fn lemma_after_both<V: Visitor>(
    state: V::State,
    first: Seq<NonTerminal>,
    then: Seq<NonTerminal>,
    n: nat,
)
    requires
        n <= then.len(),
    ensures
        after_all::<V>(state, first + then, first.len() + n) == after_all::<V>(
            after_all::<V>(state, first, first.len()),
            then,
            n,
        ),
    decreases n,
{
    if n == 0 {
        lemma_after_prefix::<V>(state, first, first + then, first.len());
    } else {
        lemma_after_both::<V>(state, first, then, (n - 1) as nat);
        assert((first + then)[first.len() + n - 1] == then[n - 1]);
    }
}

/// What a pass knows after the first `n` calls depends on those calls alone.
pub proof fn lemma_after_prefix<V: Visitor>(
    state: V::State,
    calls: Seq<NonTerminal>,
    longer: Seq<NonTerminal>,
    n: nat,
)
    requires
        n <= calls.len() <= longer.len(),
        forall|k: int| 0 <= k < n ==> calls[k] == longer[k],
    ensures
        after_all::<V>(state, calls, n) == after_all::<V>(state, longer, n),
    decreases n,
{
    if n > 0 {
        lemma_after_prefix::<V>(state, calls, longer, (n - 1) as nat);
    }
}

/// Shows `visitor` every rule call of `e`, in the order in which they are
/// written.
pub fn walk_expression<V: Visitor>(visitor: &mut V, e: &Expression)
    requires
        old(visitor).ready(),
    ensures
        final(visitor).ready(),
        final(visitor).state() == after_all::<V>(
            old(visitor).state(),
            e@.non_terminals(),
            e@.non_terminals().len(),
        ),
    decreases e,
{
    match e {
        Expression::StrLiteral(_, _) => {},
        Expression::AnySingleChar(_) => {},
        Expression::NonTerminalSymbol(sp, id) => {
            visitor.visit_non_terminal_symbol(*sp, *id);
            assert(after_all::<V>(old(visitor).state(), e@.non_terminals(), 0) == old(
                visitor,
            ).state());
        },
        Expression::Sequence(_, v) => {
            walk_expressions(visitor, v);
        },
        Expression::Choice(_, v) => {
            walk_expressions(visitor, v);
        },
        Expression::ZeroOrMore(_, e) => {
            walk_expression(visitor, e);
        },
        Expression::OneOrMore(_, e) => {
            walk_expression(visitor, e);
        },
        Expression::Optional(_, e) => {
            walk_expression(visitor, e);
        },
        Expression::SemanticAction(_, e, _) => {
            walk_expression(visitor, e);
        },
    }
}

/// Shows `visitor` every rule call of every expression of `v`, in order.
fn walk_expressions<V: Visitor>(visitor: &mut V, v: &Vec<Expression>)
    requires
        old(visitor).ready(),
    ensures
        final(visitor).ready(),
        final(visitor).state() == after_all::<V>(
            old(visitor).state(),
            non_terminals_of_first(view_all(*v), v.len() as nat),
            non_terminals_of_first(view_all(*v), v.len() as nat).len(),
        ),
    decreases v, 0nat,
{
    let ghost views = view_all(*v);
    let mut i: usize = 0;
    while i < v.len()
        invariant
            i <= v.len(),
            views == view_all(*v),
            visitor.ready(),
            visitor.state() == after_all::<V>(
                old(visitor).state(),
                non_terminals_of_first(views, i as nat),
                non_terminals_of_first(views, i as nat).len(),
            ),
        decreases v.len() - i,
    {
        proof {
            lemma_after_both::<V>(
                old(visitor).state(),
                non_terminals_of_first(views, i as nat),
                views[i as int].non_terminals(),
                views[i as int].non_terminals().len(),
            );
        }
        walk_expression(visitor, &v[i]);
        i = i + 1;
    }
}

/// The pass that writes down every call it is shown.
pub struct Collector {
    pub calls: Vec<NonTerminal>,
}

impl Visitor for Collector {
    type State = Seq<NonTerminal>;

    open spec fn ready(&self) -> bool {
        true
    }

    open spec fn state(&self) -> Seq<NonTerminal> {
        self.calls@
    }

    open spec fn after(state: Seq<NonTerminal>, call: NonTerminal) -> Seq<NonTerminal> {
        state.push(call)
    }

    fn visit_non_terminal_symbol(&mut self, sp: Span, id: Ident) {
        self.calls.push(NonTerminal { span: sp, ident: id });
    }
}

/// A collector that is shown the first `n` of `calls` has them all after what
/// it had.
pub proof fn lemma_collected(had: Seq<NonTerminal>, calls: Seq<NonTerminal>, n: nat)
    requires
        n <= calls.len(),
    ensures
        after_all::<Collector>(had, calls, n) == had + calls.take(n as int),
    decreases n,
{
    if n == 0 {
        assert(had + calls.take(0) =~= had);
    } else {
        lemma_collected(had, calls, (n - 1) as nat);
        assert(had + calls.take(n as int) =~= (had + calls.take(n - 1)).push(calls[n - 1]));
    }
}

/// The rule calls of `e`, in the order in which they are written.
pub fn non_terminals(e: &Expression) -> (calls: Vec<NonTerminal>)
    ensures
        calls@ == e@.non_terminals(),
{
    let mut collector = Collector { calls: Vec::new() };
    walk_expression(&mut collector, e);
    proof {
        let all = e@.non_terminals();
        lemma_collected(Seq::empty(), all, all.len());
        assert(Seq::<NonTerminal>::empty() + all.take(all.len() as int) =~= all);
    }
    collector.calls
}

} // verus!
