//! What holds of every analysed grammar.

use vstd::prelude::*;
use crate::front::ast::Attribute;
use crate::front::ast::AttributeKind;
use crate::front::ast::Grammar;
use crate::front::ast::NonTerminal;
use crate::front::ast::Rule;
use crate::middle::attribute::code_generation_of;
use crate::middle::attribute::code_printer_of;
use crate::middle::attribute::first_type;
use crate::middle::attribute::has_kind;
use crate::middle::attribute::rule_type_of;
use crate::middle::attribute::RuleType;
use crate::middle::attribute::type_of_kind;
use crate::middle::clean_ast;
use crate::middle::declaration::declares;
use crate::middle::declaration::first_declaration;
use crate::middle::declaration::has_duplicates;
use crate::middle::declaration::is_declared;
use crate::middle::declaration::is_first_declaration;
use crate::middle::declaration::is_redeclaration;
use crate::middle::declaration::lemma_declared_has_first;
use crate::middle::diagnostic::Diagnostic;
use crate::middle::diagnostic::Message;
use crate::middle::lint::unused_rule::all_calls_declared;
use crate::middle::lint::unused_rule::calls_rule;
use crate::middle::lint::unused_rule::is_call_path;
use crate::middle::lint::unused_rule::lemma_reaches_itself;
use crate::middle::lint::unused_rule::lemma_reaches_one_more;
use crate::middle::lint::unused_rule::reaches;
use crate::middle::lowering::accepted;
use crate::middle::lowering::analysis_diagnostics;
use crate::middle::lowering::calls_undeclared;
use crate::middle::lowering::duplicate_diagnostics;
use crate::middle::lowering::duplicate_error;
use crate::middle::lowering::first_definition_note;
use crate::middle::lowering::first_start;
use crate::middle::lowering::has_undeclared;
use crate::middle::lowering::kept;
use crate::middle::lowering::lowers;
use crate::middle::lowering::lowers_rule;
use crate::middle::lowering::start_rule_index;
use crate::middle::lowering::undeclared_among;
use crate::middle::lowering::undeclared_diagnostics;

verus! {

/// Every index kept among the first `n` rules is below `n` and reached from
/// `start`, and the indices kept are in increasing order.
pub proof fn lemma_kept_are_reached(rules: Seq<Rule>, start: int, n: nat)
    requires
        n <= rules.len(),
    ensures
        kept(rules, start, n).len() <= n,
        forall|k: int|
            0 <= k < kept(rules, start, n).len() ==> 0 <= (#[trigger] kept(rules, start, n)[k]) < n
                && reaches(rules, start, kept(rules, start, n)[k]),
        forall|k: int, l: int|
            0 <= k < l < kept(rules, start, n).len() ==> kept(rules, start, n)[k] < kept(
                rules,
                start,
                n,
            )[l],
    decreases n,
{
    if n > 0 {
        lemma_kept_are_reached(rules, start, (n - 1) as nat);
    }
}

/// Every rule among the first `n` that is reached from `start` is kept.
pub proof fn lemma_reached_are_kept(rules: Seq<Rule>, start: int, n: nat, i: int)
    requires
        n <= rules.len(),
        0 <= i < n,
        reaches(rules, start, i),
    ensures
        exists|k: int| 0 <= k < kept(rules, start, n).len() && #[trigger] kept(rules, start, n)[k] == i,
    decreases n,
{
    let keep = kept(rules, start, n);
    if i == n - 1 {
        assert(keep[keep.len() - 1] == i);
    } else {
        lemma_reached_are_kept(rules, start, (n - 1) as nat, i);
        let before = kept(rules, start, (n - 1) as nat);
        let k = choose|k: int| 0 <= k < before.len() && #[trigger] before[k] == i;
        assert(keep[k] == i);
    }
}

/// No call dangles in an analysed grammar: where no rule of `raw` calls an
/// undeclared name and `clean` is what the analysis makes of `raw`, the start
/// index of `clean` names one of its rules, and every call in every rule of
/// `clean` names a rule of `clean`.
pub proof fn lemma_lowering_is_well_formed(clean: clean_ast::Grammar, raw: Grammar)
    requires
        all_calls_declared(raw.rules@),
        lowers(clean, raw),
    ensures
        clean.well_formed(),
{
    let rules = raw.rules@;
    let start = start_rule_index(rules);
    let keep = kept(rules, start, rules.len());
    lemma_kept_are_reached(rules, start, rules.len());
    assert forall|r: int, k: int|
        0 <= r < clean.rules.len() && 0 <= k < clean.rules[r].calls().len() implies clean.has_rule(
        (#[trigger] clean.rules[r].calls()[k]).ident,
    ) by {
        let at = keep[r];
        assert(reaches(rules, start, at));
        assert(clean.rules[r].calls() == rules[at].calls());
        let id = rules[at].calls()[k].ident;
        assert(is_declared(rules, id));
        let some = choose|i: int| declares(rules, i, id);
        lemma_declared_has_first(rules, some, id);
        let to = first_declaration(rules, id);
        assert(calls_rule(rules, at, to));
        lemma_reaches_one_more(rules, start, at, to);
        lemma_reached_are_kept(rules, start, rules.len(), to);
        let pos = choose|pos: int| 0 <= pos < keep.len() && #[trigger] keep[pos] == to;
        assert(clean.rules[pos].name == id);
    }
}

/// A grammar without rules is rejected, and the one thing reported is that it
/// is empty.
pub proof fn lemma_empty_grammar_is_rejected(grammar: Grammar)
    requires
        grammar.rules.len() == 0,
    ensures
        !accepted(grammar),
        analysis_diagnostics(grammar) == seq![Diagnostic::error(Message::EmptyGrammar)],
{
}

/// What is reported of the first `n` rules for names declared again holds,
/// for each rule `i` among them whose name was declared before, the error at
/// the name of that rule followed by the note at the first declaration.
pub proof fn lemma_duplicate_diagnostics_hold(rules: Seq<Rule>, n: nat, i: int)
    requires
        0 <= i < n <= rules.len(),
        is_redeclaration(rules, i),
    ensures
        exists|at: int|
            0 <= at && at + 1 < duplicate_diagnostics(rules, n).len() && #[trigger] duplicate_diagnostics(
                rules,
                n,
            )[at] == duplicate_error(rules, i) && duplicate_diagnostics(rules, n)[at + 1]
                == first_definition_note(rules, i),
    decreases n,
{
    let now = duplicate_diagnostics(rules, n);
    let before = duplicate_diagnostics(rules, (n - 1) as nat);
    if i == n - 1 {
        let at = before.len() as int;
        assert(now[at] == duplicate_error(rules, i));
        assert(now[at + 1] == first_definition_note(rules, i));
    } else {
        lemma_duplicate_diagnostics_hold(rules, (n - 1) as nat, i);
        let at = choose|at: int|
            0 <= at && at + 1 < before.len() && #[trigger] before[at] == duplicate_error(rules, i)
                && before[at + 1] == first_definition_note(rules, i);
        assert(now[at] == before[at]);
        assert(now[at + 1] == before[at + 1]);
    }
}

/// A grammar in which the name of the rule at `i` was declared before is
/// rejected, whatever its other rules are. What is reported holds the error at
/// the name of that rule, followed by the note at the name of the first rule
/// declared under it.
pub proof fn lemma_duplicate_is_reported(grammar: Grammar, i: int)
    requires
        0 <= i < grammar.rules.len(),
        is_redeclaration(grammar.rules@, i),
    ensures
        !accepted(grammar),
        exists|at: int|
            0 <= at && at + 1 < analysis_diagnostics(grammar).len() && #[trigger] analysis_diagnostics(
                grammar,
            )[at] == duplicate_error(grammar.rules@, i) && analysis_diagnostics(grammar)[at + 1]
                == first_definition_note(grammar.rules@, i),
{
    let rules = grammar.rules@;
    assert(has_duplicates(rules));
    lemma_duplicate_diagnostics_hold(rules, rules.len(), i);
    let reported = duplicate_diagnostics(rules, rules.len());
    assert(analysis_diagnostics(grammar) == reported);
    let at = choose|at: int|
        0 <= at && at + 1 < reported.len() && #[trigger] reported[at] == duplicate_error(rules, i)
            && reported[at + 1] == first_definition_note(rules, i);
    assert(analysis_diagnostics(grammar)[at] == duplicate_error(rules, i));
}

/// What is reported of the first `n` of `calls` holds an error at each call
/// among them of a name that is not declared.
pub proof fn lemma_undeclared_among_hold(rules: Seq<Rule>, calls: Seq<NonTerminal>, n: nat, k: int)
    requires
        0 <= k < n <= calls.len(),
        !is_declared(rules, calls[k].ident),
    ensures
        undeclared_among(rules, calls, n).contains(
            Diagnostic::error_at(calls[k].span, Message::UndeclaredRuleReference(calls[k].ident)),
        ),
    decreases n,
{
    let wanted = Diagnostic::error_at(
        calls[k].span,
        Message::UndeclaredRuleReference(calls[k].ident),
    );
    let now = undeclared_among(rules, calls, n);
    let before = undeclared_among(rules, calls, (n - 1) as nat);
    if k == n - 1 {
        assert(now[before.len() as int] == wanted);
    } else {
        lemma_undeclared_among_hold(rules, calls, (n - 1) as nat, k);
        let at = choose|at: int| 0 <= at < before.len() && before[at] == wanted;
        assert(now[at] == wanted);
    }
}

/// What is reported of the first `n` rules holds an error at each call in one
/// of them of a name that is not declared.
pub proof fn lemma_undeclared_diagnostics_hold(rules: Seq<Rule>, n: nat, i: int, k: int)
    requires
        0 <= i < n <= rules.len(),
        0 <= k < rules[i].calls().len(),
        !is_declared(rules, rules[i].calls()[k].ident),
    ensures
        undeclared_diagnostics(rules, n).contains(
            Diagnostic::error_at(
                rules[i].calls()[k].span,
                Message::UndeclaredRuleReference(rules[i].calls()[k].ident),
            ),
        ),
    decreases n,
{
    let wanted = Diagnostic::error_at(
        rules[i].calls()[k].span,
        Message::UndeclaredRuleReference(rules[i].calls()[k].ident),
    );
    let now = undeclared_diagnostics(rules, n);
    let before = undeclared_diagnostics(rules, (n - 1) as nat);
    let last = undeclared_among(rules, rules[n - 1].calls(), rules[n - 1].calls().len());
    if i == n - 1 {
        lemma_undeclared_among_hold(rules, rules[i].calls(), rules[i].calls().len(), k);
        let at = choose|at: int| 0 <= at < last.len() && last[at] == wanted;
        assert(now[before.len() + at] == wanted);
    } else {
        lemma_undeclared_diagnostics_hold(rules, (n - 1) as nat, i, k);
        let at = choose|at: int| 0 <= at < before.len() && before[at] == wanted;
        assert(now[at] == wanted);
    }
}

/// A grammar without duplicates in which call `k` of the rule at `i` names an
/// undeclared rule is rejected, and an error is reported at that call.
pub proof fn lemma_undeclared_is_reported(grammar: Grammar, i: int, k: int)
    requires
        !has_duplicates(grammar.rules@),
        0 <= i < grammar.rules.len(),
        0 <= k < grammar.rules[i].calls().len(),
        !is_declared(grammar.rules@, grammar.rules[i].calls()[k].ident),
    ensures
        !accepted(grammar),
        analysis_diagnostics(grammar).contains(
            Diagnostic::error_at(
                grammar.rules[i].calls()[k].span,
                Message::UndeclaredRuleReference(grammar.rules[i].calls()[k].ident),
            ),
        ),
{
    let rules = grammar.rules@;
    assert(calls_undeclared(rules, rules[i].calls(), rules[i].calls().len() as int));
    assert(has_undeclared(rules));
    lemma_undeclared_diagnostics_hold(rules, rules.len(), i, k);
}

/// Where none of the first `n` attributes asks for a type, none is found.
pub proof fn lemma_no_type_attribute(attrs: Seq<Attribute>, n: nat)
    requires
        n <= attrs.len(),
        forall|k: int| 0 <= k < n ==> type_of_kind((#[trigger] attrs[k]).kind) is None,
    ensures
        first_type(attrs, n) is None,
    decreases n,
{
    if n > 0 {
        lemma_no_type_attribute(attrs, (n - 1) as nat);
    }
}

/// A rule without a type attribute produces the span that it matched.
pub proof fn lemma_rule_type_default(attrs: Seq<Attribute>)
    requires
        forall|k: int| 0 <= k < attrs.len() ==> type_of_kind((#[trigger] attrs[k]).kind) is None,
    ensures
        rule_type_of(attrs) == RuleType::Span,
{
    lemma_no_type_attribute(attrs, attrs.len());
}

/// Among the first `n` rules, the first that carries a start marker is found,
/// and none where none carries one.
pub proof fn lemma_first_start(rules: Seq<Rule>, n: nat)
    requires
        n <= rules.len(),
    ensures
        match first_start(rules, n) {
            Some(i) => 0 <= i < n && has_kind(rules[i].attributes@, AttributeKind::Start)
                && forall|j: int|
                0 <= j < i ==> !has_kind((#[trigger] rules[j]).attributes@, AttributeKind::Start),
            None => forall|j: int|
                0 <= j < n ==> !has_kind((#[trigger] rules[j]).attributes@, AttributeKind::Start),
        },
    decreases n,
{
    if n > 0 {
        lemma_first_start(rules, (n - 1) as nat);
    }
}

/// In a grammar without a start marker the first rule is the start rule.
pub proof fn lemma_start_rule_default(rules: Seq<Rule>)
    requires
        forall|j: int|
            0 <= j < rules.len() ==> !has_kind(
                (#[trigger] rules[j]).attributes@,
                AttributeKind::Start,
            ),
    ensures
        start_rule_index(rules) == 0,
{
    lemma_first_start(rules, rules.len());
    if first_start(rules, rules.len()) is Some {
        let i = first_start(rules, rules.len())->Some_0;
        assert(has_kind(rules[i].attributes@, AttributeKind::Start));
    }
}

/// The first rule that carries a start marker is the start rule.
pub proof fn lemma_first_marked_rule_starts(rules: Seq<Rule>, i: int)
    requires
        0 <= i < rules.len(),
        has_kind(rules[i].attributes@, AttributeKind::Start),
        forall|j: int|
            0 <= j < i ==> !has_kind((#[trigger] rules[j]).attributes@, AttributeKind::Start),
    ensures
        start_rule_index(rules) == i,
{
    lemma_first_start(rules, rules.len());
    match first_start(rules, rules.len()) {
        Some(s) => {
            if s < i {
                assert(!has_kind(rules[s].attributes@, AttributeKind::Start));
            } else if i < s {
                assert(!has_kind(rules[i].attributes@, AttributeKind::Start));
            }
        },
        None => {
            assert(!has_kind(rules[i].attributes@, AttributeKind::Start));
        },
    }
}

/// Where no rule calls an undeclared name, every call names a declared rule.
pub proof fn lemma_no_undeclared(rules: Seq<Rule>)
    ensures
        has_undeclared(rules) <==> !all_calls_declared(rules),
{
    if !has_undeclared(rules) {
        assert forall|i: int, k: int|
            0 <= i < rules.len() && 0 <= k < rules[i].calls().len() implies is_declared(
            rules,
            (#[trigger] rules[i].calls()[k]).ident,
        ) by {
            if !is_declared(rules, rules[i].calls()[k].ident) {
                assert(calls_undeclared(rules, rules[i].calls(), rules[i].calls().len() as int));
            }
        }
    }
}

/// `raw` is `clean` written as a grammar that has not been analysed: rule by
/// rule the same name, body and type, the same start rule and the same
/// options.
pub open spec fn is_raw_form(raw: Grammar, clean: clean_ast::Grammar) -> bool {
    &&& raw.name == clean.name
    &&& raw.rules.len() == clean.rules.len()
    &&& forall|k: int|
        0 <= k < clean.rules.len() ==> lowers_rule(clean.rules[k], #[trigger] raw.rules[k])
    &&& start_rule_index(raw.rules@) == clean.start_rule_idx
    &&& code_printer_of(raw.attributes@) == clean.code_printer
    &&& code_generation_of(raw.attributes@) == clean.code_gen
}

/// The two grammars have the same name, rule by rule the same name, body and
/// type, the same start index and the same options.
pub open spec fn same_grammar(a: clean_ast::Grammar, b: clean_ast::Grammar) -> bool {
    &&& a.name == b.name
    &&& a.rules.len() == b.rules.len()
    &&& forall|k: int|
        0 <= k < a.rules.len() ==> (#[trigger] a.rules[k]).name == b.rules[k].name && (
        *a.rules[k].def)@ == (*b.rules[k].def)@ && a.rules[k].type_attrs == b.rules[k].type_attrs
    &&& a.start_rule_idx == b.start_rule_idx
    &&& a.code_printer == b.code_printer
    &&& a.code_gen == b.code_gen
}

/// `chosen` holds the rules of `rules` at the indices `keep`, which increase,
/// each with its name and its calls.
pub open spec fn is_selection(rules: Seq<Rule>, chosen: Seq<Rule>, keep: Seq<int>) -> bool {
    &&& chosen.len() == keep.len()
    &&& forall|k: int| 0 <= k < keep.len() ==> 0 <= (#[trigger] keep[k]) < rules.len()
    &&& forall|k: int, l: int| 0 <= k < l < keep.len() ==> keep[k] < keep[l]
    &&& forall|k: int|
        0 <= k < keep.len() ==> (#[trigger] chosen[k]).name.node == rules[keep[k]].name.node
            && chosen[k].calls() == rules[keep[k]].calls()
}

/// A selection of rules without duplicates has no duplicates.
pub proof fn lemma_selection_has_no_duplicates(rules: Seq<Rule>, chosen: Seq<Rule>, keep: Seq<int>)
    requires
        is_selection(rules, chosen, keep),
        !has_duplicates(rules),
    ensures
        !has_duplicates(chosen),
{
    if has_duplicates(chosen) {
        let i = choose|i: int| 0 <= i < chosen.len() && is_redeclaration(chosen, i);
        let j = choose|j: int| 0 <= j < i && declares(chosen, j, chosen[i].name.node);
        assert(chosen[j].name.node == rules[keep[j]].name.node);
        assert(chosen[i].name.node == rules[keep[i]].name.node);
        assert(declares(rules, keep[j], rules[keep[i]].name.node));
        assert(is_redeclaration(rules, keep[i]));
    }
}

/// A call path among `rules` that starts at a selected rule and passes only
/// through selected rules ends at a rule that the start reaches among the
/// selected rules too.
pub proof fn lemma_path_carries_over(
    rules: Seq<Rule>,
    chosen: Seq<Rule>,
    keep: Seq<int>,
    start: int,
    path: Seq<int>,
)
    requires
        is_selection(rules, chosen, keep),
        0 <= start < keep.len(),
        is_call_path(rules, path),
        path[0] == keep[start],
        forall|i: int|
            0 <= i < rules.len() && reaches(rules, keep[start], i) ==> exists|k: int|
                0 <= k < keep.len() && #[trigger] keep[k] == i,
    ensures
        exists|k: int|
            0 <= k < keep.len() && #[trigger] keep[k] == path.last() && reaches(chosen, start, k),
    decreases path.len(),
{
    if path.len() == 1 {
        lemma_reaches_itself(chosen, start);
        assert(keep[start] == path.last());
    } else {
        let shorter = path.drop_last();
        assert(is_call_path(rules, shorter)) by {
            assert forall|k: int| 0 <= k < shorter.len() - 1 implies calls_rule(
                rules,
                #[trigger] shorter[k],
                shorter[k + 1],
            ) by {
                assert(shorter[k] == path[k]);
                assert(shorter[k + 1] == path[k + 1]);
            }
        }
        lemma_path_carries_over(rules, chosen, keep, start, shorter);
        let from = choose|k: int|
            0 <= k < keep.len() && #[trigger] keep[k] == shorter.last() && reaches(
                chosen,
                start,
                k,
            );
        let a = path[path.len() - 2];
        let b = path.last();
        assert(shorter.last() == a);
        assert(calls_rule(rules, a, b));
        assert(reaches(rules, keep[start], b));
        let to = choose|k: int| 0 <= k < keep.len() && #[trigger] keep[k] == b;
        let c = choose|c: int|
            0 <= c < rules[a].calls().len() && is_first_declaration(
                rules,
                b,
                (#[trigger] rules[a].calls()[c]).ident,
            );
        let id = rules[a].calls()[c].ident;
        assert(chosen[from].calls() == rules[a].calls());
        assert(chosen[to].name.node == rules[b].name.node);
        assert forall|j: int| 0 <= j < to implies !declares(chosen, j, id) by {
            assert(chosen[j].name.node == rules[keep[j]].name.node);
            assert(keep[j] < keep[to]);
            assert(!declares(rules, keep[j], id));
        }
        assert(is_first_declaration(chosen, to, chosen[from].calls()[c].ident));
        assert(calls_rule(chosen, from, to));
        lemma_reaches_one_more(chosen, start, from, to);
    }
}

/// Where the start rule reaches every one of the first `n` rules, all of them
/// are kept.
pub proof fn lemma_all_are_kept(rules: Seq<Rule>, start: int, n: nat)
    requires
        n <= rules.len(),
        forall|i: int| 0 <= i < n ==> reaches(rules, start, i),
    ensures
        kept(rules, start, n).len() == n,
        forall|i: int| 0 <= i < n ==> (#[trigger] kept(rules, start, n)[i]) == i,
    decreases n,
{
    if n > 0 {
        lemma_all_are_kept(rules, start, (n - 1) as nat);
    }
}

/// The analysis changes nothing in what it has made. Where `clean` is what the
/// analysis makes of an accepted grammar, and `again` is `clean` written as a
/// grammar that has not been analysed, `again` is accepted, and whatever the
/// analysis makes of it is the same as `clean`: no rule is pruned and no index
/// moves.
pub proof fn lemma_analysis_is_idempotent(
    raw: Grammar,
    clean: clean_ast::Grammar,
    again: Grammar,
    clean_again: clean_ast::Grammar,
)
    requires
        accepted(raw),
        lowers(clean, raw),
        is_raw_form(again, clean),
        lowers(clean_again, again),
    ensures
        accepted(again),
        same_grammar(clean_again, clean),
{
    let rules = raw.rules@;
    let start = start_rule_index(rules);
    let keep = kept(rules, start, rules.len());
    let chosen = again.rules@;
    let new_start = clean.start_rule_idx as int;
    lemma_kept_are_reached(rules, start, rules.len());
    lemma_no_undeclared(rules);
    lemma_lowering_is_well_formed(clean, raw);
    assert(is_selection(rules, chosen, keep)) by {
        assert forall|k: int| 0 <= k < keep.len() implies (#[trigger] chosen[k]).name.node
            == rules[keep[k]].name.node && chosen[k].calls() == rules[keep[k]].calls() by {
            assert(0 <= keep[k] < rules.len());
            assert(lowers_rule(clean.rules[k], again.rules[k]));
            assert(lowers_rule(clean.rules[k], rules[keep[k]]));
        }
    }
    lemma_selection_has_no_duplicates(rules, chosen, keep);
    assert forall|i: int, k: int|
        0 <= i < chosen.len() && 0 <= k < chosen[i].calls().len() implies is_declared(
        chosen,
        (#[trigger] chosen[i].calls()[k]).ident,
    ) by {
        assert(lowers_rule(clean.rules[i], again.rules[i]));
        assert(clean.rules[i].calls() == chosen[i].calls());
        let id = clean.rules[i].calls()[k].ident;
        assert(clean.has_rule(id));
        let j = choose|j: int| 0 <= j < clean.rules.len() && (#[trigger] clean.rules[j]).name == id;
        assert(lowers_rule(clean.rules[j], again.rules[j]));
        assert(declares(chosen, j, id));
    }
    lemma_no_undeclared(chosen);
    assert forall|i: int| 0 <= i < rules.len() && reaches(rules, keep[new_start], i) implies exists|
        k: int,
    |
        0 <= k < keep.len() && #[trigger] keep[k] == i by {
        lemma_reached_are_kept(rules, start, rules.len(), i);
    }
    assert forall|k: int| 0 <= k < chosen.len() implies reaches(chosen, new_start, k) by {
        let at = keep[k];
        assert(reaches(rules, start, at));
        let path = choose|path: Seq<int>| #[trigger]
            is_call_path(rules, path) && path[0] == start && path.last() == at;
        lemma_path_carries_over(rules, chosen, keep, new_start, path);
        let found = choose|f: int|
            0 <= f < keep.len() && #[trigger] keep[f] == path.last() && reaches(
                chosen,
                new_start,
                f,
            );
        if found < k {
            assert(keep[found] < keep[k]);
        } else if k < found {
            assert(keep[k] < keep[found]);
        }
    }
    lemma_all_are_kept(chosen, new_start, chosen.len());
    let keep_again = kept(chosen, new_start, chosen.len());
    assert forall|k: int| 0 <= k < clean_again.rules.len() implies (#[trigger] clean_again.rules[k]).name
        == clean.rules[k].name && (*clean_again.rules[k].def)@ == (*clean.rules[k].def)@
        && clean_again.rules[k].type_attrs == clean.rules[k].type_attrs by {
        assert(keep_again[k] == k);
        assert(lowers_rule(clean_again.rules[k], chosen[keep_again[k]]));
        assert(lowers_rule(clean.rules[k], again.rules[k]));
    }
    assert(keep_again[clean_again.start_rule_idx as int] == clean_again.start_rule_idx);
}

} // verus!
