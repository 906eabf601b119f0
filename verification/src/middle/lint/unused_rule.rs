//! Which rules can be reached from the start rule.

use std::collections::HashMap;
use vstd::prelude::*;
use crate::front::ast::Grammar;
use crate::front::ast::Ident;
use crate::front::ast::NonTerminal;
use crate::front::ast::Rule;
use crate::front::ast::Span;
use crate::middle::declaration::first_declaration;
use crate::middle::declaration::indexes;
use crate::middle::declaration::is_declared;
use crate::middle::declaration::is_first_declaration;
use crate::middle::declaration::lemma_first_declaration_unique;
use crate::middle::declaration::lemma_index_holds_declared;
use crate::middle::visitor::after_all;
use crate::middle::visitor::Visitor;
use crate::middle::visitor::walk_expression;

verus! {

broadcast use vstd::std_specs::hash::group_hash_axioms;

/// The body of the rule at `i` calls the rule at `j`: it holds a call of a
/// name whose first declaration is the rule at `j`.
pub open spec fn calls_rule(rules: Seq<Rule>, i: int, j: int) -> bool {
    &&& 0 <= i < rules.len()
    &&& exists|k: int|
        0 <= k < rules[i].calls().len() && is_first_declaration(
            rules,
            j,
            (#[trigger] rules[i].calls()[k]).ident,
        )
}

/// `path` is a sequence of rules each of which calls the next.
pub open spec fn is_call_path(rules: Seq<Rule>, path: Seq<int>) -> bool {
    &&& path.len() > 0
    &&& forall|k: int| 0 <= k < path.len() ==> 0 <= #[trigger] path[k] < rules.len()
    &&& forall|k: int|
        0 <= k < path.len() - 1 ==> calls_rule(rules, #[trigger] path[k], path[k + 1])
}

/// The rule at `to` is the rule at `from` or is called, directly or through
/// other rules, by it.
pub open spec fn reaches(rules: Seq<Rule>, from: int, to: int) -> bool {
    exists|path: Seq<int>| #[trigger]
        is_call_path(rules, path) && path[0] == from && path.last() == to
}

/// Every call in every rule names a declared rule.
pub open spec fn all_calls_declared(rules: Seq<Rule>) -> bool {
    forall|i: int, k: int|
        0 <= i < rules.len() && 0 <= k < rules[i].calls().len() ==> is_declared(
            rules,
            (#[trigger] rules[i].calls()[k]).ident,
        )
}

/// The number of `false` among the first `n` of `marks`.
pub open spec fn unmarked(marks: Seq<bool>, n: nat) -> nat
    decreases n,
{
    if n == 0 || n > marks.len() {
        0
    } else if marks[n - 1] {
        unmarked(marks, (n - 1) as nat)
    } else {
        unmarked(marks, (n - 1) as nat) + 1
    }
}

/// The rule at `i` waits in `pending`.
pub open spec fn waits(pending: Seq<usize>, i: int) -> bool {
    exists|w: int| 0 <= w < pending.len() && (#[trigger] pending[w]) as int == i
}

/// Every marked rule but `skip` either waits in `pending` or has all the
/// rules it calls marked.
pub open spec fn closed_but(
    rules: Seq<Rule>,
    marks: Seq<bool>,
    pending: Seq<usize>,
    skip: int,
) -> bool {
    forall|i: int, j: int|
        0 <= i < marks.len() && marks[i] && i != skip && !waits(pending, i)
            && #[trigger] calls_rule(rules, i, j) ==> 0 <= j < marks.len() && marks[j]
}

/// Every rule reaches itself.
pub proof fn lemma_reaches_itself(rules: Seq<Rule>, i: int)
    requires
        0 <= i < rules.len(),
    ensures
        reaches(rules, i, i),
{
    let path = seq![i];
    assert(is_call_path(rules, path));
}

/// What a reachable rule calls is reachable.
pub proof fn lemma_reaches_one_more(rules: Seq<Rule>, from: int, via: int, to: int)
    requires
        reaches(rules, from, via),
        calls_rule(rules, via, to),
    ensures
        reaches(rules, from, to),
{
    let path = choose|path: Seq<int>| #[trigger]
        is_call_path(rules, path) && path[0] == from && path.last() == via;
    let longer = path.push(to);
    assert forall|k: int| 0 <= k < longer.len() - 1 implies calls_rule(
        rules,
        #[trigger] longer[k],
        longer[k + 1],
    ) by {
        if k < path.len() - 1 {
            assert(longer[k] == path[k]);
            assert(longer[k + 1] == path[k + 1]);
        }
    }
    assert(is_call_path(rules, longer));
}

/// A set of marks that holds `from` and, with each rule, the rules it calls,
/// holds every rule on a call path from `from`.
pub proof fn lemma_closed_marks_hold_path(
    rules: Seq<Rule>,
    marks: Seq<bool>,
    from: int,
    path: Seq<int>,
)
    requires
        marks.len() == rules.len(),
        0 <= from < marks.len(),
        marks[from],
        closed_but(rules, marks, Seq::<usize>::empty(), -1),
        is_call_path(rules, path),
        path[0] == from,
    ensures
        marks[path.last()],
    decreases path.len(),
{
    if path.len() > 1 {
        let shorter = path.drop_last();
        assert(is_call_path(rules, shorter)) by {
            assert forall|k: int| 0 <= k < shorter.len() - 1 implies calls_rule(
                rules,
                #[trigger] shorter[k],
                shorter[k + 1],
            ) by {
                assert(shorter[k] == path[k]);
                assert(shorter[k + 1] == path[k + 1]);
            }
        }
        lemma_closed_marks_hold_path(rules, marks, from, shorter);
        let last = path.len() - 2;
        assert(shorter.last() == path[last]);
        assert(calls_rule(rules, path[last], path[last + 1]));
    }
}

/// Marking one more rule leaves one unmarked rule fewer.
pub proof fn lemma_unmarked_after_mark(marks: Seq<bool>, at: int, n: nat)
    requires
        0 <= at < marks.len(),
        !marks[at],
        n <= marks.len(),
    ensures
        unmarked(marks.update(at, true), n) + (if at < n { 1nat } else { 0nat }) == unmarked(marks, n),
    decreases n,
{
    if n > 0 {
        lemma_unmarked_after_mark(marks, at, (n - 1) as nat);
    }
}

/// What the search for reachable rules knows: the grammar, the index of its
/// names, which rules are marked, and which marked rules still wait for their
/// calls to be followed.
pub struct ReachState {
    pub grammar: Grammar,
    pub index: HashMap<u64, usize>,
    pub marks: Seq<bool>,
    pub pending: Seq<usize>,
}

/// A search from `start` is under way: the start rule is marked, only rules
/// that `start` reaches are marked, every waiting rule is marked, and every
/// marked rule but `skip` either waits or has all the rules it calls marked.
pub open spec fn exploring(start: int, state: ReachState, skip: int) -> bool {
    let rules = state.grammar.rules@;
    &&& indexes(state.index@, rules, rules.len() as int)
    &&& all_calls_declared(rules)
    &&& state.marks.len() == rules.len()
    &&& 0 <= start < rules.len()
    &&& state.marks[start]
    &&& forall|w: int|
        0 <= w < state.pending.len() ==> (#[trigger] state.pending[w]) < rules.len()
            && state.marks[state.pending[w] as int]
    &&& forall|i: int| 0 <= i < rules.len() && state.marks[i] ==> reaches(rules, start, i)
    &&& closed_but(rules, state.marks, state.pending, skip)
}

/// Twice the number of unmarked rules and the number of waiting rules: what
/// is left to do.
pub open spec fn work_left(state: ReachState) -> nat {
    2 * unmarked(state.marks, state.marks.len()) + state.pending.len()
}

/// The search `state` with its last waiting rule taken out.
pub open spec fn taken(state: ReachState) -> ReachState {
    ReachState {
        grammar: state.grammar,
        index: state.index,
        marks: state.marks,
        pending: state.pending.drop_last(),
    }
}

/// The search `state` after it has followed every call of the rule at
/// `rule_idx`.
pub open spec fn followed(state: ReachState, rule_idx: int) -> ReachState {
    let calls = state.grammar.rules[rule_idx].calls();
    after_all::<UnusedRule>(state, calls, calls.len())
}

/// Finds the rules of a grammar that its start rule reaches.
pub struct UnusedRule<'a> {
    pub grammar: &'a Grammar,
    pub ident_to_rule_idx: &'a HashMap<u64, usize>,
    /// For each rule of the grammar, whether the last analysis reached it.
    pub is_used: Vec<bool>,
    /// The marked rules whose calls are still to be followed.
    pub to_visit: Vec<usize>,
}

impl<'a> UnusedRule<'a> {
    /// The index holds the grammar's names, nothing is called that is not
    /// declared, and every rule has its mark.
    pub open spec fn well_formed(&self) -> bool {
        &&& indexes(self.ident_to_rule_idx@, self.grammar.rules@, self.grammar.rules.len() as int)
        &&& all_calls_declared(self.grammar.rules@)
        &&& self.is_used.len() == self.grammar.rules.len()
    }

    /// An analyser of `grammar` in which no rule is marked yet.
    pub fn new(grammar: &'a Grammar, ident_to_rule_idx: &'a HashMap<u64, usize>) -> (analyser:
        UnusedRule<'a>)
        requires
            indexes(ident_to_rule_idx@, grammar.rules@, grammar.rules.len() as int),
            all_calls_declared(grammar.rules@),
        ensures
            analyser.well_formed(),
            analyser.grammar == grammar,
            analyser.ident_to_rule_idx == ident_to_rule_idx,
            forall|i: int| 0 <= i < analyser.is_used.len() ==> !analyser.is_used[i],
            analyser.to_visit@.len() == 0,
    {
        let mut is_used: Vec<bool> = Vec::new();
        let mut i: usize = 0;
        while i < grammar.rules.len()
            invariant
                i <= grammar.rules.len(),
                is_used.len() == i,
                forall|k: int| 0 <= k < i ==> !is_used[k],
            decreases grammar.rules.len() - i,
        {
            is_used.push(false);
            i = i + 1;
        }
        UnusedRule { grammar, ident_to_rule_idx, is_used, to_visit: Vec::new() }
    }

    /// Marks exactly the rules that the rule at `start_rule_idx` reaches.
    pub fn analyse(&mut self, start_rule_idx: usize)
        requires
            old(self).well_formed(),
            start_rule_idx < old(self).grammar.rules.len(),
        ensures
            final(self).well_formed(),
            final(self).grammar == old(self).grammar,
            final(self).ident_to_rule_idx == old(self).ident_to_rule_idx,
            final(self).to_visit@.len() == 0,
            forall|i: int|
                0 <= i < final(self).is_used.len() ==> final(self).is_used[i] == reaches(
                    old(self).grammar.rules@,
                    start_rule_idx as int,
                    i,
                ),
    {
        let grammar = self.grammar;
        let ghost start = start_rule_idx as int;
        let n = grammar.rules.len();
        let mut i: usize = 0;
        while i < n
            invariant
                i <= n,
                self.is_used.len() == n,
                self.grammar == old(self).grammar,
                self.ident_to_rule_idx == old(self).ident_to_rule_idx,
                forall|k: int| 0 <= k < i ==> !self.is_used[k],
            decreases n - i,
        {
            self.is_used.set(i, false);
            i = i + 1;
        }
        self.to_visit.clear();
        self.is_used.set(start_rule_idx, true);
        self.to_visit.push(start_rule_idx);
        proof {
            lemma_search_begins(start, self.state());
        }
        while self.to_visit.len() > 0
            invariant
                *self.grammar == *grammar,
                *self.grammar == *old(self).grammar,
                *self.ident_to_rule_idx == *old(self).ident_to_rule_idx,
                start == start_rule_idx,
                exploring(start, self.state(), -1),
            decreases work_left(self.state()),
        {
            let ghost before = self.state();
            proof {
                lemma_search_goes_on(start, before);
            }
            let rule_idx = self.to_visit.pop().unwrap();
            assert(self.state() == taken(before)) by {
                assert(self.to_visit@ =~= before.pending.drop_last());
            }
            walk_expression(self, &grammar.rules[rule_idx].def);
        }
        proof {
            lemma_search_ends(start, self.state());
        }
    }
}

impl<'a> Visitor for UnusedRule<'a> {
    type State = ReachState;

    open spec fn ready(&self) -> bool {
        &&& indexes(self.ident_to_rule_idx@, self.grammar.rules@, self.grammar.rules.len() as int)
        &&& self.is_used.len() == self.grammar.rules.len()
    }

    open spec fn state(&self) -> ReachState {
        ReachState {
            grammar: *self.grammar,
            index: *self.ident_to_rule_idx,
            marks: self.is_used@,
            pending: self.to_visit@,
        }
    }

    /// A call of a declared rule that is not marked yet marks it and lets it
    /// wait; any other call changes nothing.
    open spec fn after(state: ReachState, call: NonTerminal) -> ReachState {
        let key = call.ident.name;
        if state.index@.contains_key(key) && state.index@[key] < state.marks.len()
            && !state.marks[state.index@[key] as int] {
            ReachState {
                grammar: state.grammar,
                index: state.index,
                marks: state.marks.update(state.index@[key] as int, true),
                pending: state.pending.push(state.index@[key]),
            }
        } else {
            state
        }
    }

    fn visit_non_terminal_symbol(&mut self, sp: Span, id: Ident) {
        match self.ident_to_rule_idx.get(&id.name) {
            Some(to) => {
                let to: usize = *to;
                if !self.is_used[to] {
                    self.is_used.set(to, true);
                    self.to_visit.push(to);
                }
            },
            None => {},
        }
    }
}

/// A search in which the start rule alone is marked and waits is under way.
pub proof fn lemma_search_begins(start: int, state: ReachState)
    requires
        indexes(state.index@, state.grammar.rules@, state.grammar.rules.len() as int),
        all_calls_declared(state.grammar.rules@),
        state.marks.len() == state.grammar.rules.len(),
        0 <= start < state.marks.len(),
        forall|i: int| 0 <= i < state.marks.len() ==> state.marks[i] == (i == start),
        state.pending == seq![start as usize],
    ensures
        exploring(start, state, -1),
{
    let rules = state.grammar.rules@;
    lemma_reaches_itself(rules, start);
    assert(state.pending[0] as int == start);
    assert(waits(state.pending, start));
}

/// Taking the last waiting rule out of a search under way and following its
/// calls leaves a search under way, with the same grammar and index and with
/// less left to do.
pub proof fn lemma_search_goes_on(start: int, state: ReachState)
    requires
        exploring(start, state, -1),
        state.pending.len() > 0,
    ensures
        ({
            let next = followed(taken(state), state.pending.last() as int);
            &&& exploring(start, next, -1)
            &&& next.grammar == state.grammar
            &&& next.index == state.index
            &&& work_left(next) < work_left(state)
        }),
{
    let rules = state.grammar.rules@;
    let rule_idx = state.pending.last() as int;
    let popped = taken(state);
    assert(state.pending[state.pending.len() - 1] == rule_idx);
    assert forall|i: int, j: int|
        0 <= i < popped.marks.len() && popped.marks[i] && i != rule_idx && !waits(
            popped.pending,
            i,
        ) && #[trigger] calls_rule(rules, i, j) implies 0 <= j < popped.marks.len()
        && popped.marks[j] by {
        if waits(state.pending, i) {
            let w = choose|w: int|
                0 <= w < state.pending.len() && (#[trigger] state.pending[w]) as int == i;
            assert(popped.pending[w] as int == i);
        }
    }
    assert(exploring(start, popped, rule_idx));
    lemma_explored_calls(start, rule_idx, popped, rules[rule_idx].calls().len());
    let next = followed(popped, rule_idx);
    assert forall|i: int, j: int|
        0 <= i < next.marks.len() && next.marks[i] && !waits(next.pending, i)
            && #[trigger] calls_rule(rules, i, j) implies 0 <= j < next.marks.len()
        && next.marks[j] by {
        if i == rule_idx {
            let k = choose|k: int|
                0 <= k < rules[i].calls().len() && is_first_declaration(
                    rules,
                    j,
                    (#[trigger] rules[i].calls()[k]).ident,
                );
            let id = rules[i].calls()[k].ident;
            lemma_first_declaration_unique(rules, j, first_declaration(rules, id), id);
        }
    }
}

/// A search under way in which no rule waits has marked exactly the rules
/// that the start rule reaches.
pub proof fn lemma_search_ends(start: int, state: ReachState)
    requires
        exploring(start, state, -1),
        state.pending.len() == 0,
    ensures
        forall|i: int|
            0 <= i < state.marks.len() ==> state.marks[i] == reaches(
                state.grammar.rules@,
                start,
                i,
            ),
{
    let rules = state.grammar.rules@;
    assert(state.pending =~= Seq::<usize>::empty());
    assert forall|i: int| 0 <= i < state.marks.len() implies state.marks[i] == reaches(
        rules,
        start,
        i,
    ) by {
        if reaches(rules, start, i) {
            let path = choose|path: Seq<int>| #[trigger]
                is_call_path(rules, path) && path[0] == start && path.last() == i;
            lemma_closed_marks_hold_path(rules, state.marks, start, path);
        }
    }
}

/// A search that follows the first `n` calls of the rule at `rule_idx` is
/// still under way, has every rule marked that one of those calls names, has
/// kept every mark, and has no more left to do than before.
pub proof fn lemma_explored_calls(start: int, rule_idx: int, state: ReachState, n: nat)
    requires
        exploring(start, state, rule_idx),
        0 <= rule_idx < state.grammar.rules.len(),
        state.marks[rule_idx],
        n <= state.grammar.rules[rule_idx].calls().len(),
    ensures
        ({
            let rules = state.grammar.rules@;
            let calls = rules[rule_idx].calls();
            let next = after_all::<UnusedRule>(state, calls, n);
            &&& exploring(start, next, rule_idx)
            &&& next.grammar == state.grammar
            &&& next.index == state.index
            &&& forall|i: int| 0 <= i < rules.len() && state.marks[i] ==> next.marks[i]
            &&& forall|k: int|
                0 <= k < n ==> {
                    let to = first_declaration(rules, (#[trigger] calls[k]).ident);
                    0 <= to < rules.len() && next.marks[to]
                }
            &&& work_left(next) <= work_left(state)
        }),
    decreases n,
{
    let rules = state.grammar.rules@;
    let calls = rules[rule_idx].calls();
    if n > 0 {
        lemma_explored_calls(start, rule_idx, state, (n - 1) as nat);
        let prev = after_all::<UnusedRule>(state, calls, (n - 1) as nat);
        let next = after_all::<UnusedRule>(state, calls, n);
        let call = calls[n - 1];
        assert(is_declared(rules, rules[rule_idx].calls()[n - 1].ident));
        lemma_index_holds_declared(prev.index@, rules, call.ident);
        let to = prev.index@[call.ident.name];
        assert(call.ident == Ident { name: call.ident.name });
        assert(is_first_declaration(rules, to as int, call.ident));
        assert(calls_rule(rules, rule_idx, to as int));
        lemma_reaches_one_more(rules, start, rule_idx, to as int);
        if !prev.marks[to as int] {
            lemma_unmarked_after_mark(prev.marks, to as int, prev.marks.len());
            assert(next.pending[next.pending.len() - 1] == to);
            assert(waits(next.pending, to as int));
            assert forall|i: int, j: int|
                0 <= i < next.marks.len() && next.marks[i] && i != rule_idx && !waits(
                    next.pending,
                    i,
                ) && #[trigger] calls_rule(rules, i, j) implies 0 <= j < next.marks.len()
                && next.marks[j] by {
                if waits(prev.pending, i) {
                    let w = choose|w: int|
                        0 <= w < prev.pending.len() && (#[trigger] prev.pending[w]) as int == i;
                    assert(next.pending[w] as int == i);
                }
                assert(prev.marks[i]);
            }
            assert forall|w: int| 0 <= w < next.pending.len() implies (#[trigger] next.pending[w])
                < rules.len() && next.marks[next.pending[w] as int] by {
                if w < prev.pending.len() {
                    assert(next.pending[w] == prev.pending[w]);
                }
            }
        }
    }
}

} // verus!
