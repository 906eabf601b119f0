use peg::front::ast::Attribute;
use peg::front::ast::AttributeKind;
use peg::front::ast::Expression;
use peg::front::ast::Grammar;
use peg::front::ast::Ident;
use peg::front::ast::NonTerminal;
use peg::front::ast::Rule;
use peg::front::ast::Span;
use peg::front::ast::SpannedIdent;
use peg::middle::attribute::CodeGeneration;
use peg::middle::attribute::CodePrinter;
use peg::middle::attribute::RuleType;
use peg::middle::clean_ast;
use peg::middle::diagnostic::Diagnostic;
use peg::middle::diagnostic::Diagnostics;
use peg::middle::diagnostic::Level;
use peg::middle::diagnostic::Message;
use peg::middle::visitor::non_terminals;
use peg::middle::visitor::walk_expression;
use peg::middle::visitor::Collector;
use peg::middle::SemanticAnalyser;

const START: u64 = 1;
const HELPER: u64 = 2;
const ORPHAN: u64 = 3;
const MISSING: u64 = 26;

fn sp(lo: u32, hi: u32) -> Span {
    Span { lo, hi }
}

fn id(name: u64) -> Ident {
    Ident { name }
}

fn call(lo: u32, name: u64) -> Expression {
    Expression::NonTerminalSymbol(sp(lo, lo + 1), id(name))
}

fn lit(lo: u32, text: &str) -> Expression {
    Expression::StrLiteral(sp(lo, lo + 1), text.to_string())
}

fn attr(kind: AttributeKind) -> Attribute {
    Attribute { span: sp(0, 0), kind }
}

fn rule_with(lo: u32, name: u64, attributes: Vec<Attribute>, def: Expression) -> Rule {
    Rule { name: SpannedIdent { span: sp(lo, lo + 5), node: id(name) }, attributes, def: Box::new(def) }
}

fn rule(lo: u32, name: u64, def: Expression) -> Rule {
    rule_with(lo, name, vec![], def)
}

fn grammar(rules: Vec<Rule>) -> Grammar {
    Grammar { name: id(100), rules, attributes: vec![] }
}

fn analyse(grammar: &Grammar) -> (Option<clean_ast::Grammar>, Vec<Diagnostic>) {
    let mut cx = Diagnostics::new();
    let clean = SemanticAnalyser::analyse(&mut cx, grammar);
    (clean, cx.reported)
}

fn names(clean: &clean_ast::Grammar) -> Vec<u64> {
    clean.rules.iter().map(|r| r.name.name).collect()
}

fn error_at(span: Span, message: Message) -> Diagnostic {
    Diagnostic { level: Level::Error, span: Some(span), message }
}

fn note_at(span: Span, message: Message) -> Diagnostic {
    Diagnostic { level: Level::Note, span: Some(span), message }
}

/// Every call in every rule of `clean` names a rule of `clean`.
fn no_call_dangles(clean: &clean_ast::Grammar) -> bool {
    clean.rules.iter().all(|r| {
        non_terminals(&r.def).iter().all(|c| clean.rules.iter().any(|d| d.name == c.ident))
    })
}

/// `clean` written back as a grammar that has not been analysed.
fn as_raw(clean: &clean_ast::Grammar) -> Grammar {
    let mut rules = vec![];
    for (idx, r) in clean.rules.iter().enumerate() {
        let mut attributes = vec![attr(match r.type_attrs {
            RuleType::Unit => AttributeKind::TypeUnit,
            RuleType::Span => AttributeKind::TypeSpan,
            RuleType::Action => AttributeKind::TypeAction,
        })];
        if idx == clean.start_rule_idx {
            attributes.push(attr(AttributeKind::Start));
        }
        rules.push(Rule {
            name: SpannedIdent { span: sp(0, 0), node: r.name },
            attributes,
            def: Box::new(r.def.deep_clone()),
        });
    }
    let mut attributes = vec![];
    if clean.code_printer.code {
        attributes.push(attr(AttributeKind::PrintCode));
    }
    if clean.code_printer.api {
        attributes.push(attr(AttributeKind::PrintApi));
    }
    if clean.code_gen.code {
        attributes.push(attr(AttributeKind::EmitCode));
    }
    if clean.code_gen.api {
        attributes.push(attr(AttributeKind::EmitApi));
    }
    Grammar { name: clean.name, rules, attributes }
}

#[test]
fn empty_grammar_is_rejected() {
    let (clean, reported) = analyse(&grammar(vec![]));
    assert!(clean.is_none());
    assert_eq!(
        reported,
        vec![Diagnostic { level: Level::Error, span: None, message: Message::EmptyGrammar }]
    );
}

#[test]
fn earlier_reports_are_kept() {
    let mut cx = Diagnostics::new();
    cx.span_note(sp(7, 8), Message::FirstDefinition(id(9)));
    let clean = SemanticAnalyser::analyse(&mut cx, &grammar(vec![]));
    assert!(clean.is_none());
    assert_eq!(cx.reported.len(), 2);
    assert_eq!(cx.reported[0], note_at(sp(7, 8), Message::FirstDefinition(id(9))));
    assert_eq!(cx.reported[1].message, Message::EmptyGrammar);
}

#[test]
fn single_rule_without_calls() {
    let g = grammar(vec![rule(0, START, lit(10, "a"))]);
    let (clean, reported) = analyse(&g);
    let clean = clean.unwrap();
    assert!(reported.is_empty());
    assert_eq!(clean.name, id(100));
    assert_eq!(clean.start_rule_idx, 0);
    assert_eq!(clean.rules.len(), 1);
    assert_eq!(clean.rules[0].name, id(START));
    assert_eq!(*clean.rules[0].def, lit(10, "a"));
    assert_eq!(clean.rules[0].type_attrs, RuleType::Span);
    assert_eq!(clean.code_printer, CodePrinter { code: false, api: false });
    assert_eq!(clean.code_gen, CodeGeneration { code: false, api: false });
}

#[test]
fn duplicate_rule_is_reported_with_first_definition() {
    let g = grammar(vec![
        rule(0, START, call(10, HELPER)),
        rule(20, HELPER, lit(30, "h")),
        rule(40, START, lit(50, "again")),
    ]);
    let (clean, reported) = analyse(&g);
    assert!(clean.is_none());
    assert_eq!(
        reported,
        vec![
            error_at(sp(40, 45), Message::DuplicateRuleName(id(START))),
            note_at(sp(0, 5), Message::FirstDefinition(id(START))),
        ]
    );
}

#[test]
fn every_duplicate_is_reported_against_the_first() {
    let g = grammar(vec![
        rule(0, START, lit(10, "a")),
        rule(20, START, lit(30, "b")),
        rule(40, HELPER, lit(50, "c")),
        rule(60, START, lit(70, "d")),
        rule(80, HELPER, lit(90, "e")),
    ]);
    let (clean, reported) = analyse(&g);
    assert!(clean.is_none());
    assert_eq!(
        reported,
        vec![
            error_at(sp(20, 25), Message::DuplicateRuleName(id(START))),
            note_at(sp(0, 5), Message::FirstDefinition(id(START))),
            error_at(sp(60, 65), Message::DuplicateRuleName(id(START))),
            note_at(sp(0, 5), Message::FirstDefinition(id(START))),
            error_at(sp(80, 85), Message::DuplicateRuleName(id(HELPER))),
            note_at(sp(40, 45), Message::FirstDefinition(id(HELPER))),
        ]
    );
}

#[test]
fn duplicates_end_the_analysis_before_calls_are_checked() {
    let g = grammar(vec![rule(0, START, call(10, MISSING)), rule(20, START, lit(30, "b"))]);
    let (clean, reported) = analyse(&g);
    assert!(clean.is_none());
    assert_eq!(reported.len(), 2);
    assert_eq!(reported[0].message, Message::DuplicateRuleName(id(START)));
    assert_eq!(reported[1].message, Message::FirstDefinition(id(START)));
}

#[test]
fn undeclared_rule_is_reported_at_the_call() {
    let g = grammar(vec![
        rule(0, START, Expression::Sequence(sp(10, 20), vec![call(11, HELPER), call(13, MISSING)])),
        rule(20, HELPER, lit(30, "h")),
    ]);
    let (clean, reported) = analyse(&g);
    assert!(clean.is_none());
    assert_eq!(reported, vec![error_at(sp(13, 14), Message::UndeclaredRuleReference(id(MISSING)))]);
}

#[test]
fn every_undeclared_call_is_reported_in_order() {
    let g = grammar(vec![
        rule(0, START, Expression::Choice(sp(10, 20), vec![call(11, MISSING), call(13, HELPER)])),
        rule(20, HELPER, Expression::Optional(sp(30, 40), Box::new(call(31, 27)))),
        rule(40, ORPHAN, Expression::ZeroOrMore(sp(50, 60), Box::new(call(51, MISSING)))),
    ]);
    let (clean, reported) = analyse(&g);
    assert!(clean.is_none());
    assert_eq!(
        reported,
        vec![
            error_at(sp(11, 12), Message::UndeclaredRuleReference(id(MISSING))),
            error_at(sp(31, 32), Message::UndeclaredRuleReference(id(27))),
            error_at(sp(51, 52), Message::UndeclaredRuleReference(id(MISSING))),
        ]
    );
}

#[test]
fn orphan_is_pruned() {
    let g = grammar(vec![
        rule(0, START, call(10, HELPER)),
        rule(20, HELPER, lit(30, "h")),
        rule(40, ORPHAN, lit(50, "o")),
    ]);
    let (clean, reported) = analyse(&g);
    let clean = clean.unwrap();
    assert!(reported.is_empty());
    assert_eq!(names(&clean), vec![START, HELPER]);
    assert_eq!(clean.start_rule_idx, 0);
    assert_eq!(*clean.rules[0].def, call(10, HELPER));
    assert_eq!(*clean.rules[1].def, lit(30, "h"));
    assert!(no_call_dangles(&clean));
}

#[test]
fn start_index_is_remapped_after_pruning() {
    let g = grammar(vec![
        rule(0, ORPHAN, call(10, START)),
        rule(20, HELPER, lit(30, "h")),
        rule_with(40, START, vec![attr(AttributeKind::Start)], call(50, HELPER)),
    ]);
    let (clean, reported) = analyse(&g);
    let clean = clean.unwrap();
    assert!(reported.is_empty());
    assert_eq!(names(&clean), vec![HELPER, START]);
    assert_eq!(clean.start_rule_idx, 1);
    assert!(clean.start_rule_idx < clean.rules.len());
    assert!(no_call_dangles(&clean));
}

#[test]
fn first_start_marker_wins() {
    let g = grammar(vec![
        rule(0, ORPHAN, lit(10, "o")),
        rule_with(20, HELPER, vec![attr(AttributeKind::Start)], lit(30, "h")),
        rule_with(40, START, vec![attr(AttributeKind::Start)], lit(50, "s")),
    ]);
    let clean = analyse(&g).0.unwrap();
    assert_eq!(names(&clean), vec![HELPER]);
    assert_eq!(clean.start_rule_idx, 0);
}

#[test]
fn without_start_marker_the_first_rule_starts() {
    let g = grammar(vec![
        rule(0, HELPER, lit(10, "h")),
        rule(20, START, call(30, HELPER)),
    ]);
    let clean = analyse(&g).0.unwrap();
    assert_eq!(names(&clean), vec![HELPER]);
    assert_eq!(clean.start_rule_idx, 0);
}

#[test]
fn recursive_rules_are_kept_once() {
    let g = grammar(vec![
        rule(0, START, Expression::Sequence(sp(10, 20), vec![call(11, HELPER), call(13, START)])),
        rule(20, ORPHAN, call(30, ORPHAN)),
        rule(
            40,
            HELPER,
            Expression::SemanticAction(
                sp(50, 60),
                Box::new(Expression::OneOrMore(sp(50, 55), Box::new(call(51, START)))),
                id(77),
            ),
        ),
    ]);
    let clean = analyse(&g).0.unwrap();
    assert_eq!(names(&clean), vec![START, HELPER]);
    assert_eq!(clean.start_rule_idx, 0);
    assert!(no_call_dangles(&clean));
}

#[test]
fn reachability_is_transitive() {
    let g = grammar(vec![
        rule(0, 10, call(1, 11)),
        rule(10, 14, lit(11, "unused")),
        rule(20, 11, call(21, 12)),
        rule(30, 12, call(31, 13)),
        rule(40, 13, Expression::AnySingleChar(sp(41, 42))),
        rule(50, 15, call(51, 10)),
    ]);
    let clean = analyse(&g).0.unwrap();
    assert_eq!(names(&clean), vec![10, 11, 12, 13]);
    assert!(no_call_dangles(&clean));
}

#[test]
fn rule_types_are_resolved() {
    let g = grammar(vec![
        rule_with(
            0,
            START,
            vec![attr(AttributeKind::Other(id(5))), attr(AttributeKind::TypeUnit)],
            Expression::Sequence(sp(1, 9), vec![call(2, HELPER), call(4, ORPHAN), call(6, 4)]),
        ),
        rule_with(10, HELPER, vec![attr(AttributeKind::TypeAction)], lit(11, "h")),
        rule_with(
            20,
            ORPHAN,
            vec![attr(AttributeKind::TypeSpan), attr(AttributeKind::TypeUnit)],
            lit(21, "o"),
        ),
        rule_with(30, 4, vec![attr(AttributeKind::PrintCode)], lit(31, "p")),
    ]);
    let clean = analyse(&g).0.unwrap();
    let types: Vec<RuleType> = clean.rules.iter().map(|r| r.type_attrs).collect();
    assert_eq!(types, vec![RuleType::Unit, RuleType::Action, RuleType::Span, RuleType::Span]);
}

#[test]
fn rule_type_stays_with_its_rule_after_pruning() {
    let g = grammar(vec![
        rule_with(0, ORPHAN, vec![attr(AttributeKind::TypeUnit)], lit(1, "o")),
        rule_with(
            10,
            START,
            vec![attr(AttributeKind::TypeAction), attr(AttributeKind::Start)],
            lit(11, "s"),
        ),
    ]);
    let clean = analyse(&g).0.unwrap();
    assert_eq!(names(&clean), vec![START]);
    assert_eq!(clean.rules[0].type_attrs, RuleType::Action);
    assert_eq!(clean.start_rule_idx, 0);
}

#[test]
fn grammar_options_are_resolved() {
    let mut g = grammar(vec![rule(0, START, lit(1, "s"))]);
    g.attributes = vec![attr(AttributeKind::PrintApi), attr(AttributeKind::EmitCode)];
    let clean = analyse(&g).0.unwrap();
    assert_eq!(clean.code_printer, CodePrinter { code: false, api: true });
    assert_eq!(clean.code_gen, CodeGeneration { code: true, api: false });

    g.attributes = vec![
        attr(AttributeKind::PrintCode),
        attr(AttributeKind::Other(id(8))),
        attr(AttributeKind::EmitApi),
        attr(AttributeKind::Start),
    ];
    let clean = analyse(&g).0.unwrap();
    assert_eq!(clean.code_printer, CodePrinter { code: true, api: false });
    assert_eq!(clean.code_gen, CodeGeneration { code: false, api: true });
}

#[test]
fn analysis_of_its_own_result_changes_nothing() {
    let mut g = grammar(vec![
        rule(0, ORPHAN, call(10, START)),
        rule_with(20, HELPER, vec![attr(AttributeKind::TypeUnit)], call(30, START)),
        rule_with(40, START, vec![attr(AttributeKind::Start)], call(50, HELPER)),
    ]);
    g.attributes = vec![attr(AttributeKind::PrintCode)];
    let once = analyse(&g).0.unwrap();
    let (twice, reported) = analyse(&as_raw(&once));
    assert!(reported.is_empty());
    assert_eq!(twice, Some(once));
}

#[test]
fn the_grammar_is_left_as_it_was() {
    let g = grammar(vec![rule(0, START, call(10, HELPER)), rule(20, HELPER, lit(30, "h"))]);
    let _ = analyse(&g);
    assert_eq!(g, grammar(vec![rule(0, START, call(10, HELPER)), rule(20, HELPER, lit(30, "h"))]));
}

#[test]
fn calls_are_collected_in_written_order() {
    let e = Expression::Choice(
        sp(0, 50),
        vec![
            Expression::Sequence(sp(0, 20), vec![call(1, 4), lit(3, "x"), call(5, 5)]),
            Expression::ZeroOrMore(sp(20, 30), Box::new(call(21, 6))),
            Expression::AnySingleChar(sp(30, 31)),
            Expression::SemanticAction(sp(32, 40), Box::new(call(33, 4)), id(9)),
        ],
    );
    assert_eq!(
        non_terminals(&e),
        vec![
            NonTerminal { span: sp(1, 2), ident: id(4) },
            NonTerminal { span: sp(5, 6), ident: id(5) },
            NonTerminal { span: sp(21, 22), ident: id(6) },
            NonTerminal { span: sp(33, 34), ident: id(4) },
        ]
    );
    let mut collector = Collector { calls: vec![NonTerminal { span: sp(9, 9), ident: id(1) }] };
    walk_expression(&mut collector, &call(1, 2));
    walk_expression(&mut collector, &lit(3, "x"));
    assert_eq!(
        collector.calls,
        vec![
            NonTerminal { span: sp(9, 9), ident: id(1) },
            NonTerminal { span: sp(1, 2), ident: id(2) },
        ]
    );
}

#[test]
fn deep_clone_copies_the_tree() {
    let e = Expression::Sequence(
        sp(0, 50),
        vec![
            Expression::Optional(sp(0, 9), Box::new(lit(1, "abc"))),
            Expression::Choice(sp(10, 20), vec![call(11, 4), Expression::AnySingleChar(sp(13, 14))]),
            Expression::OneOrMore(sp(20, 30), Box::new(call(21, 6))),
        ],
    );
    assert_eq!(e.deep_clone(), e);
}
