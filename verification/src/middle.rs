//! The semantic analysis proper.
//!
//! `SemanticAnalyser::analyse` checks a grammar and, where every check passes,
//! returns it reduced to the rules that its start rule reaches.

use std::collections::HashMap;
use vstd::prelude::*;
use crate::front::ast::Attribute;
use crate::front::ast::AttributeKind;
use crate::front::ast::Grammar;
use crate::front::ast::Ident;
use crate::front::ast::NonTerminal;
use crate::front::ast::Rule;
use crate::front::ast::Span;
use crate::middle::attribute::code_generation_of;
use crate::middle::attribute::code_printer_of;
use crate::middle::attribute::CodeGeneration;
use crate::middle::attribute::CodeGenerationBuilder;
use crate::middle::attribute::CodePrinter;
use crate::middle::attribute::CodePrinterBuilder;
use crate::middle::attribute::first_type;
use crate::middle::attribute::has_kind;
use crate::middle::attribute::rule_type_of;
use crate::middle::attribute::RuleType;
use crate::middle::attribute::RuleTypeBuilder;
use crate::middle::attribute::StartRuleBuilder;
use crate::middle::declaration::declares;
use crate::middle::declaration::has_duplicates;
use crate::middle::declaration::indexes;
use crate::middle::declaration::is_declared;
use crate::middle::declaration::is_first_declaration;
use crate::middle::declaration::is_redeclaration;
use crate::middle::declaration::lemma_first_declaration_is;
use crate::middle::declaration::lemma_index_holds_declared;
use crate::middle::diagnostic::Diagnostic;
use crate::middle::diagnostic::Diagnostics;
use crate::middle::diagnostic::Message;
use crate::middle::laws::lemma_lowering_is_well_formed;
use crate::middle::laws::lemma_no_undeclared;
use crate::middle::lint::unused_rule::all_calls_declared;
use crate::middle::lint::unused_rule::lemma_reaches_itself;
use crate::middle::lint::unused_rule::reaches;
use crate::middle::lint::unused_rule::UnusedRule;
use crate::middle::lowering::accepted;
use crate::middle::lowering::analysis_diagnostics;
use crate::middle::lowering::calls_undeclared;
use crate::middle::lowering::duplicate_diagnostics;
use crate::middle::lowering::first_start;
use crate::middle::lowering::has_undeclared;
use crate::middle::lowering::has_undeclared_before;
use crate::middle::lowering::kept;
use crate::middle::lowering::lowers;
use crate::middle::lowering::lowers_rule;
use crate::middle::lowering::start_rule_index;
use crate::middle::lowering::undeclared_among;
use crate::middle::lowering::undeclared_diagnostics;
use crate::middle::visitor::after_all;
use crate::middle::visitor::Visitor;
use crate::middle::visitor::walk_expression;

pub mod attribute;
pub mod clean_ast;
pub mod declaration;
pub mod diagnostic;
pub mod laws;
pub mod lint;
pub mod lowering;
pub mod visitor;

verus! {

broadcast use vstd::std_specs::hash::group_hash_axioms;

/// The analysis of one grammar.
pub struct SemanticAnalyser<'a> {
    pub grammar: &'a Grammar,
}

impl<'a> SemanticAnalyser<'a> {
    /// Checks `grammar` and reports what is wrong with it to `cx`. A grammar
    /// that passes every check is returned reduced to the rules that its start
    /// rule reaches; of any other, nothing is returned and at least one error
    /// is reported.
    pub fn analyse(cx: &mut Diagnostics, grammar: &'a Grammar) -> (clean: Option<
        clean_ast::Grammar,
    >)
        ensures
            final(cx).reported@ == old(cx).reported@ + analysis_diagnostics(*grammar),
            clean is Some <==> accepted(*grammar),
            clean is Some <==> analysis_diagnostics(*grammar).len() == 0,
            clean matches Some(c) ==> lowers(c, *grammar) && c.well_formed(),
    {
        let analyser = SemanticAnalyser { grammar };
        analyser.check(cx)
    }

    fn check(&self, cx: &mut Diagnostics) -> (clean: Option<clean_ast::Grammar>)
        ensures
            final(cx).reported@ == old(cx).reported@ + analysis_diagnostics(*self.grammar),
            clean is Some <==> accepted(*self.grammar),
            clean is Some <==> analysis_diagnostics(*self.grammar).len() == 0,
            clean matches Some(c) ==> lowers(c, *self.grammar) && c.well_formed(),
    {
        let ghost reported = cx.reported@;
        if !self.at_least_one_rule_declared(cx) {
            return None;
        }
        let (rules_type_attrs, start_rule_idx) = self.resolve_rule_attributes();

        let mut ident_to_rule_idx: HashMap<u64, usize> = HashMap::new();
        if self.multiple_rule_declaration(cx, &mut ident_to_rule_idx) {
            return None;
        }
        assert(cx.reported@ =~= reported);

        if UndeclaredRule::analyse(cx, self.grammar, &ident_to_rule_idx) {
            return None;
        }
        assert(cx.reported@ =~= reported);
        assert(reported + analysis_diagnostics(*self.grammar) =~= reported);

        let mut unused_rule_analyser = UnusedRule::new(self.grammar, &ident_to_rule_idx);
        unused_rule_analyser.analyse(start_rule_idx);

        let (rules, start_rule_idx) = self.used_rules(
            &unused_rule_analyser.is_used,
            &rules_type_attrs,
            start_rule_idx,
        );
        let (code_printer, code_gen) = self.resolve_grammar_attributes();
        let clean = clean_ast::Grammar {
            name: self.grammar.name,
            rules,
            start_rule_idx,
            code_printer,
            code_gen,
        };
        proof {
            lemma_lowering_is_well_formed(clean, *self.grammar);
        }
        Some(clean)
    }

    /// Offers the attributes of every rule to the resolvers of the start rule
    /// and of the rule types.
    fn resolve_rule_attributes(&self) -> (resolved: (Vec<RuleType>, usize))
        requires
            self.grammar.rules.len() > 0,
        ensures
            resolved.0.len() == self.grammar.rules.len(),
            forall|i: int|
                0 <= i < resolved.0.len() ==> resolved.0[i] == rule_type_of(
                    self.grammar.rules[i].attributes@,
                ),
            resolved.1 == start_rule_index(self.grammar.rules@),
            resolved.1 < self.grammar.rules.len(),
    {
        let ghost rules = self.grammar.rules@;
        let mut start_rule_builder = StartRuleBuilder::new();
        let mut rules_type_attrs: Vec<RuleType> = Vec::new();
        let mut idx: usize = 0;
        while idx < self.grammar.rules.len()
            invariant
                rules == self.grammar.rules@,
                idx <= rules.len(),
                rules_type_attrs.len() == idx,
                forall|i: int|
                    0 <= i < idx ==> rules_type_attrs[i] == rule_type_of(rules[i].attributes@),
                match start_rule_builder.start_rule_idx {
                    Some(s) => first_start(rules, idx as nat) == Some(s as int) && s < idx,
                    None => first_start(rules, idx as nat) is None,
                },
            decreases rules.len() - idx,
        {
            let rule = &self.grammar.rules[idx];
            let ghost attrs = rule.attributes@;
            let ghost start_before = start_rule_builder.start_rule_idx;
            let mut rule_type_builder = RuleTypeBuilder::new();
            let mut a: usize = 0;
            while a < rule.attributes.len()
                invariant
                    rules == self.grammar.rules@,
                    idx < rules.len(),
                    attrs == rule.attributes@,
                    attrs == rules[idx as int].attributes@,
                    a <= attrs.len(),
                    rule_type_builder.rule_type == first_type(attrs, a as nat),
                    start_rule_builder.start_rule_idx == (match start_before {
                        Some(s) => Some(s),
                        None => if has_kind(attrs.take(a as int), AttributeKind::Start) {
                            Some(idx)
                        } else {
                            None
                        },
                    }),
                decreases attrs.len() - a,
            {
                let attr = &rule.attributes[a];
                let ghost seen = attrs.take(a as int);
                let ghost seen_now = attrs.take(a + 1);
                proof {
                    assert(seen_now[a as int] == attrs[a as int]);
                    if has_kind(seen, AttributeKind::Start) {
                        let k = choose|k: int|
                            0 <= k < seen.len() && (#[trigger] seen[k]).kind
                                == AttributeKind::Start;
                        assert(seen_now[k] == seen[k]);
                    }
                    if has_kind(seen_now, AttributeKind::Start) && attr.kind
                        != AttributeKind::Start {
                        let k = choose|k: int|
                            0 <= k < seen_now.len() && (#[trigger] seen_now[k]).kind
                                == AttributeKind::Start;
                        assert(seen[k] == seen_now[k]);
                    }
                }
                if !start_rule_builder.from_attr(idx, attr) {
                    rule_type_builder.from_attr(attr);
                }
                a = a + 1;
            }
            proof {
                assert(attrs.take(attrs.len() as int) =~= attrs);
            }
            rules_type_attrs.push(rule_type_builder.build());
            idx = idx + 1;
        }
        (rules_type_attrs, start_rule_builder.build())
    }

    /// Offers the attributes of the grammar to the resolvers of its options.
    fn resolve_grammar_attributes(&self) -> (resolved: (CodePrinter, CodeGeneration))
        ensures
            resolved.0 == code_printer_of(self.grammar.attributes@),
            resolved.1 == code_generation_of(self.grammar.attributes@),
    {
        let ghost attrs = self.grammar.attributes@;
        let mut code_printer_builder = CodePrinterBuilder::new();
        let mut code_gen_builder = CodeGenerationBuilder::new();
        let mut a: usize = 0;
        while a < self.grammar.attributes.len()
            invariant
                attrs == self.grammar.attributes@,
                a <= attrs.len(),
                code_printer_builder.code == has_kind(attrs.take(a as int), AttributeKind::PrintCode),
                code_printer_builder.api == has_kind(attrs.take(a as int), AttributeKind::PrintApi),
                code_gen_builder.code == has_kind(attrs.take(a as int), AttributeKind::EmitCode),
                code_gen_builder.api == has_kind(attrs.take(a as int), AttributeKind::EmitApi),
            decreases attrs.len() - a,
        {
            let attr = &self.grammar.attributes[a];
            proof {
                lemma_has_kind_one_more(attrs, a as int, AttributeKind::PrintCode);
                lemma_has_kind_one_more(attrs, a as int, AttributeKind::PrintApi);
                lemma_has_kind_one_more(attrs, a as int, AttributeKind::EmitCode);
                lemma_has_kind_one_more(attrs, a as int, AttributeKind::EmitApi);
            }
            if !code_printer_builder.from_attr(attr) {
                code_gen_builder.from_attr(attr);
            }
            a = a + 1;
        }
        proof {
            assert(attrs.take(attrs.len() as int) =~= attrs);
        }
        (code_printer_builder.build(), code_gen_builder.build())
    }

    /// Copies the marked rules, in order, and finds the place of the start
    /// rule among them.
    fn used_rules(&self, is_used: &Vec<bool>, rules_type_attrs: &Vec<RuleType>, start: usize) -> (used:
        (Vec<clean_ast::Rule>, usize))
        requires
            is_used.len() == self.grammar.rules.len(),
            rules_type_attrs.len() == self.grammar.rules.len(),
            start < self.grammar.rules.len(),
            forall|i: int|
                0 <= i < is_used.len() ==> is_used[i] == reaches(
                    self.grammar.rules@,
                    start as int,
                    i,
                ),
            forall|i: int|
                0 <= i < rules_type_attrs.len() ==> rules_type_attrs[i] == rule_type_of(
                    self.grammar.rules[i].attributes@,
                ),
        ensures
            ({
                let keep = kept(
                    self.grammar.rules@,
                    start as int,
                    self.grammar.rules.len() as nat,
                );
                &&& used.0.len() == keep.len()
                &&& forall|k: int|
                    0 <= k < keep.len() ==> 0 <= (#[trigger] keep[k]) < self.grammar.rules.len()
                        && lowers_rule(used.0[k], self.grammar.rules[keep[k]])
                &&& used.1 < keep.len()
                &&& keep[used.1 as int] == start
            }),
    {
        let ghost raw = self.grammar.rules@;
        let mut rules: Vec<clean_ast::Rule> = Vec::new();
        let mut new_start: usize = 0;
        let mut idx: usize = 0;
        proof {
            lemma_reaches_itself(raw, start as int);
        }
        while idx < self.grammar.rules.len()
            invariant
                raw == self.grammar.rules@,
                idx <= raw.len(),
                is_used.len() == raw.len(),
                rules_type_attrs.len() == raw.len(),
                start < raw.len(),
                is_used[start as int],
                forall|i: int|
                    0 <= i < is_used.len() ==> is_used[i] == reaches(raw, start as int, i),
                forall|i: int|
                    0 <= i < rules_type_attrs.len() ==> rules_type_attrs[i] == rule_type_of(
                        raw[i].attributes@,
                    ),
                rules.len() == kept(raw, start as int, idx as nat).len(),
                rules.len() <= idx,
                forall|k: int|
                    0 <= k < rules.len() ==> 0 <= (#[trigger] kept(raw, start as int, idx as nat)[k])
                        < idx && lowers_rule(rules[k], raw[kept(raw, start as int, idx as nat)[k]]),
                start < idx ==> new_start < rules.len() && kept(
                    raw,
                    start as int,
                    idx as nat,
                )[new_start as int] == start,
            decreases raw.len() - idx,
        {
            if is_used[idx] {
                let rule = &self.grammar.rules[idx];
                let ghost before = rules@;
                rules.push(
                    clean_ast::Rule {
                        name: rule.name.node,
                        def: Box::new(rule.def.deep_clone()),
                        type_attrs: rules_type_attrs[idx],
                    },
                );
                if idx == start {
                    new_start = rules.len() - 1;
                }
                proof {
                    let keep_before = kept(raw, start as int, idx as nat);
                    let keep_now = kept(raw, start as int, (idx + 1) as nat);
                    assert(keep_now == keep_before.push(idx as int));
                    assert forall|k: int| 0 <= k < rules.len() implies 0 <= (#[trigger] keep_now[k])
                        < idx + 1 && lowers_rule(rules[k], raw[keep_now[k]]) by {
                        if k < before.len() {
                            assert(rules[k] == before[k]);
                            assert(keep_now[k] == keep_before[k]);
                            assert(lowers_rule(before[k], raw[keep_before[k]]));
                        } else {
                            assert(keep_now[k] == idx);
                            assert(rules[k].name == raw[idx as int].name.node);
                            assert(rules[k].type_attrs == rule_type_of(raw[idx as int].attributes@));
                            assert((*rules[k].def)@ == (*raw[idx as int].def)@);
                        }
                    }
                }
            } else {
                assert(kept(raw, start as int, (idx + 1) as nat) == kept(raw, start as int, idx as nat));
            }
            idx = idx + 1;
        }
        (rules, new_start)
    }

    /// Reports a grammar without rules.
    fn at_least_one_rule_declared(&self, cx: &mut Diagnostics) -> (declared: bool)
        ensures
            declared == (self.grammar.rules.len() > 0),
            declared ==> final(cx).reported@ == old(cx).reported@,
            !declared ==> final(cx).reported@ == old(cx).reported@ + analysis_diagnostics(
                *self.grammar,
            ),
    {
        if self.grammar.rules.len() == 0 {
            cx.err(Message::EmptyGrammar);
            assert(cx.reported@ =~= old(cx).reported@ + seq![
                Diagnostic::error(Message::EmptyGrammar),
            ]);
            false
        } else {
            true
        }
    }

    /// Fills `ident_to_rule_idx` with the first declaration of every name and
    /// reports every rule whose name was declared before it.
    fn multiple_rule_declaration(
        &self,
        cx: &mut Diagnostics,
        ident_to_rule_idx: &mut HashMap<u64, usize>,
    ) -> (found: bool)
        requires
            old(ident_to_rule_idx)@ == Map::<u64, usize>::empty(),
        ensures
            found == has_duplicates(self.grammar.rules@),
            found == (duplicate_diagnostics(
                self.grammar.rules@,
                self.grammar.rules.len() as nat,
            ).len() > 0),
            final(cx).reported@ == old(cx).reported@ + duplicate_diagnostics(
                self.grammar.rules@,
                self.grammar.rules.len() as nat,
            ),
            indexes(
                final(ident_to_rule_idx)@,
                self.grammar.rules@,
                self.grammar.rules.len() as int,
            ),
    {
        let ghost rules = self.grammar.rules@;
        let ghost reported = cx.reported@;
        let mut multiple_decl = false;
        let mut idx: usize = 0;
        assert(cx.reported@ =~= reported + duplicate_diagnostics(rules, 0));
        while idx < self.grammar.rules.len()
            invariant
                rules == self.grammar.rules@,
                idx <= rules.len(),
                indexes(ident_to_rule_idx@, rules, idx as int),
                multiple_decl == (exists|i: int| 0 <= i < idx && is_redeclaration(rules, i)),
                multiple_decl == (duplicate_diagnostics(rules, idx as nat).len() > 0),
                cx.reported@ == reported + duplicate_diagnostics(rules, idx as nat),
            decreases rules.len() - idx,
        {
            let rule = &self.grammar.rules[idx];
            let ghost id = rule.name.node;
            let ghost index = ident_to_rule_idx@;
            assert(id == Ident { name: id.name });
            let first_rule_def = ident_to_rule_idx.get(&rule.name.node.name);
            match first_rule_def {
                Some(first_rule_idx) => {
                    let first_rule_idx: usize = *first_rule_idx;
                    proof {
                        assert(declares(rules, first_rule_idx as int, id));
                        assert(is_redeclaration(rules, idx as int));
                        lemma_first_declaration_is(rules, first_rule_idx as int, id);
                    }
                    self.span_err(cx, rule.name.span, Message::DuplicateRuleName(rule.name.node));
                    let first_rule_name = self.grammar.rules[first_rule_idx].name;
                    self.span_note(
                        cx,
                        first_rule_name.span,
                        Message::FirstDefinition(first_rule_name.node),
                    );
                    multiple_decl = true;
                    assert(cx.reported@ =~= reported + duplicate_diagnostics(
                        rules,
                        (idx + 1) as nat,
                    ));
                },
                None => {
                    proof {
                        if is_redeclaration(rules, idx as int) {
                            let j = choose|j: int| 0 <= j < idx && declares(rules, j, id);
                            assert(index.contains_key(rules[j].name.node.name));
                        }
                    }
                    ident_to_rule_idx.insert(rule.name.node.name, idx);
                    proof {
                        assert(is_first_declaration(rules, idx as int, id));
                        assert forall|k: u64| #[trigger]
                            ident_to_rule_idx@.contains_key(k) implies ident_to_rule_idx@[k] < idx
                            + 1 && is_first_declaration(
                            rules,
                            ident_to_rule_idx@[k] as int,
                            Ident { name: k },
                        ) by {
                            if k != id.name {
                                assert(index.contains_key(k));
                            }
                        }
                        assert forall|i: int| 0 <= i < idx + 1 implies ident_to_rule_idx@.contains_key(
                            (#[trigger] rules[i]).name.node.name,
                        ) by {
                            if i < idx {
                                assert(index.contains_key(rules[i].name.node.name));
                            }
                        }
                    }
                },
            }
            idx = idx + 1;
        }
        multiple_decl
    }

    fn span_err(&self, cx: &mut Diagnostics, sp: Span, m: Message)
        ensures
            final(cx).reported@ == old(cx).reported@.push(Diagnostic::error_at(sp, m)),
    {
        cx.span_err(sp, m);
    }

    fn span_note(&self, cx: &mut Diagnostics, sp: Span, m: Message)
        ensures
            final(cx).reported@ == old(cx).reported@.push(Diagnostic::note_at(sp, m)),
    {
        cx.span_note(sp, m);
    }
}

/// One more attribute is of the kind `kind` exactly when it is or one before
/// it was.
proof fn lemma_has_kind_one_more(attrs: Seq<Attribute>, a: int, kind: AttributeKind)
    requires
        0 <= a < attrs.len(),
    ensures
        has_kind(attrs.take(a + 1), kind) == (has_kind(attrs.take(a), kind) || attrs[a].kind
            == kind),
{
    let seen = attrs.take(a);
    let seen_now = attrs.take(a + 1);
    assert(seen_now[a] == attrs[a]);
    if has_kind(seen, kind) {
        let k = choose|k: int| 0 <= k < seen.len() && (#[trigger] seen[k]).kind == kind;
        assert(seen_now[k] == seen[k]);
    }
    if has_kind(seen_now, kind) && attrs[a].kind != kind {
        let k = choose|k: int| 0 <= k < seen_now.len() && (#[trigger] seen_now[k]).kind == kind;
        assert(seen[k] == seen_now[k]);
    }
}

/// What the search for undeclared rules knows: the names that are declared,
/// whether it has met a call of another, and what it has reported.
pub struct UndeclaredState {
    pub index: Map<u64, usize>,
    pub has_undeclared: bool,
    pub reported: Seq<Diagnostic>,
}

/// Looks for calls of rules that are not declared.
pub struct UndeclaredRule<'a> {
    pub cx: Diagnostics,
    pub ident_to_rule_idx: &'a HashMap<u64, usize>,
    pub has_undeclared: bool,
}

impl<'a> UndeclaredRule<'a> {
    /// Reports to `cx` every call, in every rule of `grammar`, of a name that
    /// `ident_to_rule_idx` does not hold.
    pub fn analyse(
        cx: &mut Diagnostics,
        grammar: &Grammar,
        ident_to_rule_idx: &'a HashMap<u64, usize>,
    ) -> (found: bool)
        requires
            indexes(ident_to_rule_idx@, grammar.rules@, grammar.rules.len() as int),
        ensures
            found == has_undeclared(grammar.rules@),
            found == (undeclared_diagnostics(grammar.rules@, grammar.rules.len() as nat).len()
                > 0),
            !found ==> all_calls_declared(grammar.rules@),
            final(cx).reported@ == old(cx).reported@ + undeclared_diagnostics(
                grammar.rules@,
                grammar.rules.len() as nat,
            ),
    {
        let ghost rules = grammar.rules@;
        let mut analyser = UndeclaredRule {
            cx: Diagnostics::new(),
            ident_to_rule_idx,
            has_undeclared: false,
        };
        let mut idx: usize = 0;
        while idx < grammar.rules.len()
            invariant
                rules == grammar.rules@,
                idx <= rules.len(),
                analyser.ident_to_rule_idx@ == ident_to_rule_idx@,
                indexes(ident_to_rule_idx@, rules, rules.len() as int),
                analyser.has_undeclared == has_undeclared_before(rules, idx as int),
                analyser.has_undeclared == (undeclared_diagnostics(rules, idx as nat).len() > 0),
                analyser.cx.reported@ == undeclared_diagnostics(rules, idx as nat),
            decreases rules.len() - idx,
        {
            proof {
                let calls = rules[idx as int].calls();
                lemma_undeclared_after(rules, analyser.state(), calls, calls.len());
            }
            walk_expression(&mut analyser, &grammar.rules[idx].def);
            idx = idx + 1;
        }
        proof {
            lemma_no_undeclared(rules);
        }
        cx.reported.append(&mut analyser.cx.reported);
        analyser.has_undeclared
    }
}

impl<'a> Visitor for UndeclaredRule<'a> {
    type State = UndeclaredState;

    open spec fn ready(&self) -> bool {
        true
    }

    open spec fn state(&self) -> UndeclaredState {
        UndeclaredState {
            index: self.ident_to_rule_idx@,
            has_undeclared: self.has_undeclared,
            reported: self.cx.reported@,
        }
    }

    /// A call of a declared name changes nothing; any other is reported at
    /// the place of the call.
    open spec fn after(state: UndeclaredState, call: NonTerminal) -> UndeclaredState {
        if state.index.contains_key(call.ident.name) {
            state
        } else {
            UndeclaredState {
                index: state.index,
                has_undeclared: true,
                reported: state.reported.push(
                    Diagnostic::error_at(call.span, Message::UndeclaredRuleReference(call.ident)),
                ),
            }
        }
    }

    fn visit_non_terminal_symbol(&mut self, sp: Span, id: Ident) {
        if self.ident_to_rule_idx.get(&id.name).is_none() {
            self.cx.span_err(sp, Message::UndeclaredRuleReference(id));
            self.has_undeclared = true;
        }
    }
}

/// A search that holds an index of `rules` and is shown the first `n` of
/// `calls` has reported those among them that name no rule, and only those.
pub proof fn lemma_undeclared_after(
    rules: Seq<Rule>,
    state: UndeclaredState,
    calls: Seq<NonTerminal>,
    n: nat,
)
    requires
        indexes(state.index, rules, rules.len() as int),
        n <= calls.len(),
    ensures
        after_all::<UndeclaredRule>(state, calls, n) == (UndeclaredState {
            index: state.index,
            has_undeclared: state.has_undeclared || calls_undeclared(rules, calls, n as int),
            reported: state.reported + undeclared_among(rules, calls, n),
        }),
        calls_undeclared(rules, calls, n as int) == (undeclared_among(rules, calls, n).len() > 0),
    decreases n,
{
    if n == 0 {
        assert(state.reported + undeclared_among(rules, calls, 0) =~= state.reported);
    } else {
        lemma_undeclared_after(rules, state, calls, (n - 1) as nat);
        let call = calls[n - 1];
        lemma_index_holds_declared(state.index, rules, call.ident);
        let before = undeclared_among(rules, calls, (n - 1) as nat);
        if is_declared(rules, call.ident) {
            if calls_undeclared(rules, calls, n as int) {
                let k = choose|k: int|
                    0 <= k < n && k < calls.len() && !is_declared(rules, (#[trigger] calls[k]).ident);
                assert(k < n - 1);
            }
        } else {
            assert(state.reported + undeclared_among(rules, calls, n) =~= (state.reported
                + before).push(
                Diagnostic::error_at(call.span, Message::UndeclaredRuleReference(call.ident)),
            ));
        }
    }
}

} // verus!
