//! Resolution of the attributes of a grammar and of its rules.
//!
//! Each resolver is offered the attributes one at a time and says whether it
//! took the one offered; `build` then gives what was resolved.

use vstd::prelude::*;
use crate::front::ast::Attribute;
use crate::front::ast::AttributeKind;

verus! {

/// How the value that a rule produces is represented.
#[derive(Clone, Copy, PartialEq, Eq, Structural, Debug)]
pub enum RuleType {
    /// The rule produces nothing.
    Unit,
    /// The rule produces the span of the text it matched.
    Span,
    /// The rule produces whatever its semantic action returns.
    Action,
}

/// What is printed while the parser is generated.
#[derive(Clone, Copy, PartialEq, Eq, Structural, Debug)]
pub struct CodePrinter {
    pub code: bool,
    pub api: bool,
}

/// What is emitted when the parser is generated.
#[derive(Clone, Copy, PartialEq, Eq, Structural, Debug)]
pub struct CodeGeneration {
    pub code: bool,
    pub api: bool,
}

/// Whether one of `attrs` is of the kind `kind`.
pub open spec fn has_kind(attrs: Seq<Attribute>, kind: AttributeKind) -> bool {
    exists|k: int| 0 <= k < attrs.len() && (#[trigger] attrs[k]).kind == kind
}

/// The rule type that an attribute of the kind `kind` asks for, if it asks for
/// one.
pub open spec fn type_of_kind(kind: AttributeKind) -> Option<RuleType> {
    match kind {
        AttributeKind::TypeUnit => Some(RuleType::Unit),
        AttributeKind::TypeSpan => Some(RuleType::Span),
        AttributeKind::TypeAction => Some(RuleType::Action),
        _ => None,
    }
}

/// The rule type that the first type attribute among the first `n` of `attrs`
/// asks for, if there is one.
pub open spec fn first_type(attrs: Seq<Attribute>, n: nat) -> Option<RuleType>
    decreases n,
{
    if n == 0 || n > attrs.len() {
        None
    } else {
        match first_type(attrs, (n - 1) as nat) {
            Some(ty) => Some(ty),
            None => type_of_kind(attrs[n - 1].kind),
        }
    }
}

/// The type of a rule with the attributes `attrs`: what its first type
/// attribute asks for, and the matched span where it has none.
pub open spec fn rule_type_of(attrs: Seq<Attribute>) -> RuleType {
    match first_type(attrs, attrs.len()) {
        Some(ty) => ty,
        None => RuleType::Span,
    }
}

/// The printing options of a grammar with the attributes `attrs`: each is on
/// exactly when an attribute asks for it.
pub open spec fn code_printer_of(attrs: Seq<Attribute>) -> CodePrinter {
    CodePrinter {
        code: has_kind(attrs, AttributeKind::PrintCode),
        api: has_kind(attrs, AttributeKind::PrintApi),
    }
}

/// The generation options of a grammar with the attributes `attrs`: each is on
/// exactly when an attribute asks for it.
pub open spec fn code_generation_of(attrs: Seq<Attribute>) -> CodeGeneration {
    CodeGeneration {
        code: has_kind(attrs, AttributeKind::EmitCode),
        api: has_kind(attrs, AttributeKind::EmitApi),
    }
}

/// Finds the rule at which parsing starts: the first one offered with a start
/// marker.
pub struct StartRuleBuilder {
    pub start_rule_idx: Option<usize>,
}

impl StartRuleBuilder {
    pub fn new() -> (builder: StartRuleBuilder)
        ensures
            builder.start_rule_idx is None,
    {
        StartRuleBuilder { start_rule_idx: None }
    }

    /// Offers an attribute of the rule at `rule_idx`. A start marker is taken;
    /// it decides the start rule unless an earlier one already did.
    pub fn from_attr(&mut self, rule_idx: usize, attr: &Attribute) -> (taken: bool)
        ensures
            taken == (attr.kind == AttributeKind::Start),
            final(self).start_rule_idx == (if taken && old(self).start_rule_idx is None {
                Some(rule_idx)
            } else {
                old(self).start_rule_idx
            }),
    {
        match attr.kind {
            AttributeKind::Start => {
                if self.start_rule_idx.is_none() {
                    self.start_rule_idx = Some(rule_idx);
                }
                true
            },
            _ => false,
        }
    }

    /// The index of the start rule: the first rule, where none was marked.
    pub fn build(&self) -> (idx: usize)
        ensures
            idx == (match self.start_rule_idx {
                Some(i) => i,
                None => 0,
            }),
    {
        match self.start_rule_idx {
            Some(i) => i,
            None => 0,
        }
    }
}

/// Finds the type of one rule.
pub struct RuleTypeBuilder {
    pub rule_type: Option<RuleType>,
}

impl RuleTypeBuilder {
    pub fn new() -> (builder: RuleTypeBuilder)
        ensures
            builder.rule_type is None,
    {
        RuleTypeBuilder { rule_type: None }
    }

    /// Offers an attribute. A type attribute is taken; it decides the type
    /// unless an earlier one already did.
    pub fn from_attr(&mut self, attr: &Attribute) -> (taken: bool)
        ensures
            taken == (type_of_kind(attr.kind) is Some),
            final(self).rule_type == (match old(self).rule_type {
                Some(ty) => Some(ty),
                None => type_of_kind(attr.kind),
            }),
    {
        let asked = match attr.kind {
            AttributeKind::TypeUnit => Some(RuleType::Unit),
            AttributeKind::TypeSpan => Some(RuleType::Span),
            AttributeKind::TypeAction => Some(RuleType::Action),
            _ => None,
        };
        if self.rule_type.is_none() {
            self.rule_type = asked;
        }
        asked.is_some()
    }

    /// The type found, and the matched span where no attribute asked for one.
    pub fn build(&self) -> (ty: RuleType)
        ensures
            ty == (match self.rule_type {
                Some(t) => t,
                None => RuleType::Span,
            }),
    {
        match self.rule_type {
            Some(t) => t,
            None => RuleType::Span,
        }
    }
}

/// Finds what is to be printed.
pub struct CodePrinterBuilder {
    pub code: bool,
    pub api: bool,
}

impl CodePrinterBuilder {
    pub fn new() -> (builder: CodePrinterBuilder)
        ensures
            !builder.code,
            !builder.api,
    {
        CodePrinterBuilder { code: false, api: false }
    }

    /// Offers an attribute. One that asks for printing is taken and switches
    /// its option on.
    pub fn from_attr(&mut self, attr: &Attribute) -> (taken: bool)
        ensures
            taken == (attr.kind == AttributeKind::PrintCode || attr.kind == AttributeKind::PrintApi),
            final(self).code == (old(self).code || attr.kind == AttributeKind::PrintCode),
            final(self).api == (old(self).api || attr.kind == AttributeKind::PrintApi),
    {
        match attr.kind {
            AttributeKind::PrintCode => {
                self.code = true;
                true
            },
            AttributeKind::PrintApi => {
                self.api = true;
                true
            },
            _ => false,
        }
    }

    pub fn build(&self) -> (printer: CodePrinter)
        ensures
            printer == (CodePrinter { code: self.code, api: self.api }),
    {
        CodePrinter { code: self.code, api: self.api }
    }
}

/// Finds what is to be emitted.
pub struct CodeGenerationBuilder {
    pub code: bool,
    pub api: bool,
}

impl CodeGenerationBuilder {
    pub fn new() -> (builder: CodeGenerationBuilder)
        ensures
            !builder.code,
            !builder.api,
    {
        CodeGenerationBuilder { code: false, api: false }
    }

    /// Offers an attribute. One that asks for emission is taken and switches
    /// its option on.
    pub fn from_attr(&mut self, attr: &Attribute) -> (taken: bool)
        ensures
            taken == (attr.kind == AttributeKind::EmitCode || attr.kind == AttributeKind::EmitApi),
            final(self).code == (old(self).code || attr.kind == AttributeKind::EmitCode),
            final(self).api == (old(self).api || attr.kind == AttributeKind::EmitApi),
    {
        match attr.kind {
            AttributeKind::EmitCode => {
                self.code = true;
                true
            },
            AttributeKind::EmitApi => {
                self.api = true;
                true
            },
            _ => false,
        }
    }

    pub fn build(&self) -> (generation: CodeGeneration)
        ensures
            generation == (CodeGeneration { code: self.code, api: self.api }),
    {
        CodeGeneration { code: self.code, api: self.api }
    }
}

} // verus!
