use std::collections::HashMap;

use peg::front::ast::Attribute;
use peg::front::ast::AttributeKind;
use peg::front::ast::Expression;
use peg::front::ast::Grammar;
use peg::front::ast::Ident;
use peg::front::ast::Rule;
use peg::front::ast::Span;
use peg::front::ast::SpannedIdent;
use peg::middle::attribute::CodeGeneration;
use peg::middle::attribute::CodeGenerationBuilder;
use peg::middle::attribute::CodePrinter;
use peg::middle::attribute::CodePrinterBuilder;
use peg::middle::attribute::RuleType;
use peg::middle::attribute::RuleTypeBuilder;
use peg::middle::attribute::StartRuleBuilder;
use peg::middle::diagnostic::Diagnostic;
use peg::middle::diagnostic::Diagnostics;
use peg::middle::diagnostic::Level;
use peg::middle::diagnostic::Message;
use peg::middle::lint::unused_rule::UnusedRule;
use peg::middle::visitor::Visitor;
use peg::middle::UndeclaredRule;

fn of_kind(kind: AttributeKind) -> Attribute {
    Attribute { span: Span { lo: 3, hi: 4 }, kind }
}

fn calling(name: u64, called: Vec<u64>) -> Rule {
    let calls = called
        .into_iter()
        .map(|c| Expression::NonTerminalSymbol(Span { lo: 0, hi: 1 }, Ident { name: c }))
        .collect();
    Rule {
        name: SpannedIdent { span: Span { lo: 0, hi: 1 }, node: Ident { name } },
        attributes: vec![],
        def: Box::new(Expression::Sequence(Span { lo: 0, hi: 1 }, calls)),
    }
}

#[test]
fn start_rule_defaults_to_the_first() {
    let builder = StartRuleBuilder::new();
    assert_eq!(builder.build(), 0);
}

#[test]
fn start_rule_builder_takes_only_start_markers() {
    let mut builder = StartRuleBuilder::new();
    assert!(!builder.from_attr(0, &of_kind(AttributeKind::TypeUnit)));
    assert!(!builder.from_attr(1, &of_kind(AttributeKind::Other(Ident { name: 1 }))));
    assert!(builder.from_attr(2, &of_kind(AttributeKind::Start)));
    assert!(builder.from_attr(5, &of_kind(AttributeKind::Start)));
    assert_eq!(builder.build(), 2);
}

#[test]
fn rule_type_defaults_to_the_matched_span() {
    let mut builder = RuleTypeBuilder::new();
    assert_eq!(builder.build(), RuleType::Span);
    assert!(!builder.from_attr(&of_kind(AttributeKind::Start)));
    assert!(!builder.from_attr(&of_kind(AttributeKind::PrintApi)));
    assert_eq!(builder.build(), RuleType::Span);
}

#[test]
fn rule_type_builder_keeps_the_first_type() {
    let mut builder = RuleTypeBuilder::new();
    assert!(builder.from_attr(&of_kind(AttributeKind::TypeAction)));
    assert!(builder.from_attr(&of_kind(AttributeKind::TypeUnit)));
    assert_eq!(builder.build(), RuleType::Action);

    let mut builder = RuleTypeBuilder::new();
    assert!(builder.from_attr(&of_kind(AttributeKind::TypeUnit)));
    assert_eq!(builder.build(), RuleType::Unit);

    let mut builder = RuleTypeBuilder::new();
    assert!(builder.from_attr(&of_kind(AttributeKind::TypeSpan)));
    assert!(builder.from_attr(&of_kind(AttributeKind::TypeAction)));
    assert_eq!(builder.build(), RuleType::Span);
}

#[test]
fn code_printer_is_off_by_default() {
    let mut builder = CodePrinterBuilder::new();
    assert_eq!(builder.build(), CodePrinter { code: false, api: false });
    assert!(!builder.from_attr(&of_kind(AttributeKind::EmitCode)));
    assert_eq!(builder.build(), CodePrinter { code: false, api: false });
    assert!(builder.from_attr(&of_kind(AttributeKind::PrintCode)));
    assert_eq!(builder.build(), CodePrinter { code: true, api: false });
    assert!(builder.from_attr(&of_kind(AttributeKind::PrintApi)));
    assert_eq!(builder.build(), CodePrinter { code: true, api: true });
}

#[test]
fn code_generation_is_off_by_default() {
    let mut builder = CodeGenerationBuilder::new();
    assert_eq!(builder.build(), CodeGeneration { code: false, api: false });
    assert!(!builder.from_attr(&of_kind(AttributeKind::PrintCode)));
    assert_eq!(builder.build(), CodeGeneration { code: false, api: false });
    assert!(builder.from_attr(&of_kind(AttributeKind::EmitApi)));
    assert_eq!(builder.build(), CodeGeneration { code: false, api: true });
    assert!(builder.from_attr(&of_kind(AttributeKind::EmitCode)));
    assert_eq!(builder.build(), CodeGeneration { code: true, api: true });
}

#[test]
fn diagnostics_are_kept_in_order() {
    let mut cx = Diagnostics::new();
    assert!(cx.reported.is_empty());
    cx.err(Message::EmptyGrammar);
    cx.span_err(Span { lo: 1, hi: 2 }, Message::UndeclaredRuleReference(Ident { name: 4 }));
    cx.span_note(Span { lo: 5, hi: 6 }, Message::FirstDefinition(Ident { name: 7 }));
    assert_eq!(
        cx.reported,
        vec![
            Diagnostic { level: Level::Error, span: None, message: Message::EmptyGrammar },
            Diagnostic {
                level: Level::Error,
                span: Some(Span { lo: 1, hi: 2 }),
                message: Message::UndeclaredRuleReference(Ident { name: 4 }),
            },
            Diagnostic {
                level: Level::Note,
                span: Some(Span { lo: 5, hi: 6 }),
                message: Message::FirstDefinition(Ident { name: 7 }),
            },
        ]
    );
}

#[test]
fn unused_rule_marks_what_the_start_reaches() {
    let grammar = Grammar {
        name: Ident { name: 0 },
        rules: vec![
            calling(10, vec![]),
            calling(11, vec![12, 11]),
            calling(12, vec![13]),
            calling(13, vec![11]),
            calling(14, vec![10]),
        ],
        attributes: vec![],
    };
    let mut index = HashMap::new();
    for (i, r) in grammar.rules.iter().enumerate() {
        index.insert(r.name.node.name, i);
    }
    let mut analyser = UnusedRule::new(&grammar, &index);
    assert_eq!(analyser.is_used, vec![false; 5]);
    analyser.analyse(1);
    assert_eq!(analyser.is_used, vec![false, true, true, true, false]);
    analyser.analyse(4);
    assert_eq!(analyser.is_used, vec![true, false, false, false, true]);
    analyser.analyse(0);
    assert_eq!(analyser.is_used, vec![true, false, false, false, false]);
}

#[test]
fn unused_rule_follows_a_call_once() {
    let grammar = Grammar {
        name: Ident { name: 0 },
        rules: vec![calling(10, vec![11]), calling(11, vec![])],
        attributes: vec![],
    };
    let mut index = HashMap::new();
    index.insert(10, 0);
    index.insert(11, 1);
    let mut analyser = UnusedRule::new(&grammar, &index);
    analyser.visit_non_terminal_symbol(Span { lo: 0, hi: 1 }, Ident { name: 11 });
    assert_eq!(analyser.is_used, vec![false, true]);
    assert_eq!(analyser.to_visit, vec![1]);
    analyser.visit_non_terminal_symbol(Span { lo: 4, hi: 5 }, Ident { name: 11 });
    assert_eq!(analyser.is_used, vec![false, true]);
    assert_eq!(analyser.to_visit, vec![1]);
}

#[test]
fn undeclared_rule_reports_only_unknown_names() {
    let mut index = HashMap::new();
    index.insert(10, 0);
    let mut analyser =
        UndeclaredRule { cx: Diagnostics::new(), ident_to_rule_idx: &index, has_undeclared: false };
    analyser.visit_non_terminal_symbol(Span { lo: 0, hi: 1 }, Ident { name: 10 });
    assert!(!analyser.has_undeclared);
    assert!(analyser.cx.reported.is_empty());
    analyser.visit_non_terminal_symbol(Span { lo: 2, hi: 3 }, Ident { name: 12 });
    assert!(analyser.has_undeclared);
    assert_eq!(
        analyser.cx.reported,
        vec![Diagnostic {
            level: Level::Error,
            span: Some(Span { lo: 2, hi: 3 }),
            message: Message::UndeclaredRuleReference(Ident { name: 12 }),
        }]
    );
}

#[test]
fn undeclared_rule_analyse_appends_to_the_sink() {
    let grammar = Grammar {
        name: Ident { name: 0 },
        rules: vec![calling(10, vec![11, 12]), calling(11, vec![13])],
        attributes: vec![],
    };
    let mut index = HashMap::new();
    index.insert(10, 0);
    index.insert(11, 1);
    let mut cx = Diagnostics::new();
    cx.err(Message::EmptyGrammar);
    assert!(UndeclaredRule::analyse(&mut cx, &grammar, &index));
    let messages: Vec<Message> = cx.reported.iter().map(|d| d.message).collect();
    assert_eq!(
        messages,
        vec![
            Message::EmptyGrammar,
            Message::UndeclaredRuleReference(Ident { name: 12 }),
            Message::UndeclaredRuleReference(Ident { name: 13 }),
        ]
    );
    let grammar = Grammar {
        name: Ident { name: 0 },
        rules: vec![calling(10, vec![11, 10]), calling(11, vec![10])],
        attributes: vec![],
    };
    let mut cx = Diagnostics::new();
    assert!(!UndeclaredRule::analyse(&mut cx, &grammar, &index));
    assert!(cx.reported.is_empty());
}
