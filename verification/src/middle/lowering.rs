//! What the analysis of a grammar is to report and to return.

use vstd::prelude::*;
use crate::front::ast::AttributeKind;
use crate::front::ast::Grammar;
use crate::front::ast::NonTerminal;
use crate::front::ast::Rule;
use crate::middle::attribute::code_generation_of;
use crate::middle::attribute::code_printer_of;
use crate::middle::attribute::has_kind;
use crate::middle::attribute::rule_type_of;
use crate::middle::clean_ast;
use crate::middle::declaration::first_declaration;
use crate::middle::declaration::has_duplicates;
use crate::middle::declaration::is_declared;
use crate::middle::declaration::is_redeclaration;
use crate::middle::diagnostic::Diagnostic;
use crate::middle::diagnostic::Message;
use crate::middle::lint::unused_rule::reaches;

verus! {

/// The index of the first rule among the first `n` that carries a start
/// marker, if there is one.
pub open spec fn first_start(rules: Seq<Rule>, n: nat) -> Option<int>
    decreases n,
{
    if n == 0 || n > rules.len() {
        None
    } else {
        match first_start(rules, (n - 1) as nat) {
            Some(i) => Some(i),
            None => if has_kind(rules[n - 1].attributes@, AttributeKind::Start) {
                Some(n - 1)
            } else {
                None
            },
        }
    }
}

/// The index of the start rule: the first rule that carries a start marker,
/// and the first rule of all where none does.
pub open spec fn start_rule_index(rules: Seq<Rule>) -> int {
    match first_start(rules, rules.len()) {
        Some(i) => i,
        None => 0,
    }
}

/// The error reported of the rule at `i` where its name was declared before:
/// it stands at the name of that rule.
pub open spec fn duplicate_error(rules: Seq<Rule>, i: int) -> Diagnostic {
    Diagnostic::error_at(rules[i].name.span, Message::DuplicateRuleName(rules[i].name.node))
}

/// The note that follows that error: it stands at the name of the first rule
/// declared under the name of the rule at `i`.
pub open spec fn first_definition_note(rules: Seq<Rule>, i: int) -> Diagnostic {
    let first = rules[first_declaration(rules, rules[i].name.node)].name;
    Diagnostic::note_at(first.span, Message::FirstDefinition(first.node))
}

/// What is reported of the first `n` rules for names declared again: for each
/// such rule, in order, the error and the note.
pub open spec fn duplicate_diagnostics(rules: Seq<Rule>, n: nat) -> Seq<Diagnostic>
    decreases n,
{
    if n == 0 || n > rules.len() {
        Seq::empty()
    } else {
        let before = duplicate_diagnostics(rules, (n - 1) as nat);
        if is_redeclaration(rules, n - 1) {
            before.push(duplicate_error(rules, n - 1)).push(first_definition_note(rules, n - 1))
        } else {
            before
        }
    }
}

/// What is reported of the first `n` of `calls`: an error at each call of a
/// name that `rules` does not declare, in order.
pub open spec fn undeclared_among(rules: Seq<Rule>, calls: Seq<NonTerminal>, n: nat) -> Seq<
    Diagnostic,
>
    decreases n,
{
    if n == 0 || n > calls.len() {
        Seq::empty()
    } else {
        let before = undeclared_among(rules, calls, (n - 1) as nat);
        let call = calls[n - 1];
        if is_declared(rules, call.ident) {
            before
        } else {
            before.push(
                Diagnostic::error_at(call.span, Message::UndeclaredRuleReference(call.ident)),
            )
        }
    }
}

/// What is reported of the first `n` rules for calls of undeclared names, rule
/// by rule.
pub open spec fn undeclared_diagnostics(rules: Seq<Rule>, n: nat) -> Seq<Diagnostic>
    decreases n,
{
    if n == 0 || n > rules.len() {
        Seq::empty()
    } else {
        undeclared_diagnostics(rules, (n - 1) as nat) + undeclared_among(
            rules,
            rules[n - 1].calls(),
            rules[n - 1].calls().len(),
        )
    }
}

/// One of the first `n` calls of `calls` names a rule that is not declared.
pub open spec fn calls_undeclared(rules: Seq<Rule>, calls: Seq<NonTerminal>, n: int) -> bool {
    exists|k: int| 0 <= k < n && k < calls.len() && !is_declared(rules, (#[trigger] calls[k]).ident)
}

/// One of the first `n` rules calls a rule that is not declared.
pub open spec fn has_undeclared_before(rules: Seq<Rule>, n: int) -> bool {
    exists|i: int|
        0 <= i < n && i < rules.len() && calls_undeclared(
            rules,
            (#[trigger] rules[i]).calls(),
            rules[i].calls().len() as int,
        )
}

/// Some rule calls a rule that is not declared.
pub open spec fn has_undeclared(rules: Seq<Rule>) -> bool {
    has_undeclared_before(rules, rules.len() as int)
}

/// The grammar passes every check: it has a rule, no name is declared twice
/// and no undeclared name is called.
pub open spec fn accepted(grammar: Grammar) -> bool {
    &&& grammar.rules.len() > 0
    &&& !has_duplicates(grammar.rules@)
    &&& !has_undeclared(grammar.rules@)
}

/// Everything that the analysis of `grammar` reports, in order. The checks
/// run one after the other, and the first that fails ends the analysis.
pub open spec fn analysis_diagnostics(grammar: Grammar) -> Seq<Diagnostic> {
    let rules = grammar.rules@;
    if rules.len() == 0 {
        seq![Diagnostic::error(Message::EmptyGrammar)]
    } else if has_duplicates(rules) {
        duplicate_diagnostics(rules, rules.len())
    } else {
        undeclared_diagnostics(rules, rules.len())
    }
}

/// The indices, in increasing order, of the rules among the first `n` that
/// the rule at `start` reaches.
pub open spec fn kept(rules: Seq<Rule>, start: int, n: nat) -> Seq<int>
    decreases n,
{
    if n == 0 || n > rules.len() {
        Seq::empty()
    } else if reaches(rules, start, n - 1) {
        kept(rules, start, (n - 1) as nat).push(n - 1)
    } else {
        kept(rules, start, (n - 1) as nat)
    }
}

/// `clean` is `raw` with its name, a copy of its body and its resolved type.
pub open spec fn lowers_rule(clean: clean_ast::Rule, raw: Rule) -> bool {
    &&& clean.name == raw.name.node
    &&& (*clean.def)@ == (*raw.def)@
    &&& clean.type_attrs == rule_type_of(raw.attributes@)
}

/// `clean` is what the analysis makes of `raw`: the rules that the start rule
/// reaches, in the order of their declaration, the index of the start rule
/// among them, and the resolved options of the grammar.
pub open spec fn lowers(clean: clean_ast::Grammar, raw: Grammar) -> bool {
    let rules = raw.rules@;
    let start = start_rule_index(rules);
    let keep = kept(rules, start, rules.len());
    &&& clean.name == raw.name
    &&& clean.rules.len() == keep.len()
    &&& forall|k: int|
        0 <= k < keep.len() ==> 0 <= (#[trigger] keep[k]) < rules.len() && lowers_rule(
            clean.rules[k],
            rules[keep[k]],
        )
    &&& clean.start_rule_idx < keep.len()
    &&& keep[clean.start_rule_idx as int] == start
    &&& clean.code_printer == code_printer_of(raw.attributes@)
    &&& clean.code_gen == code_generation_of(raw.attributes@)
}

} // verus!
