//! The grammar after analysis: only the rules that are used, every
//! attribute resolved.

use vstd::prelude::*;
use crate::front::ast::Expression;
use crate::front::ast::Ident;
use crate::front::ast::NonTerminal;
use crate::middle::attribute::CodeGeneration;
use crate::middle::attribute::CodePrinter;
use crate::middle::attribute::RuleType;

verus! {

/// A rule that the start rule reaches, with its resolved type.
#[derive(PartialEq, Eq, Debug)]
pub struct Rule {
    pub name: Ident,
    pub def: Box<Expression>,
    pub type_attrs: RuleType,
}

impl Rule {
    /// The rule calls in the body of the rule, in the order in which they are
    /// written.
    pub open spec fn calls(self) -> Seq<NonTerminal> {
        (*self.def)@.non_terminals()
    }
}

/// An analysed grammar.
#[derive(PartialEq, Eq, Debug)]
pub struct Grammar {
    pub name: Ident,
    pub rules: Vec<Rule>,
    pub start_rule_idx: usize,
    pub code_printer: CodePrinter,
    pub code_gen: CodeGeneration,
}

impl Grammar {
    /// One of the grammar's rules has the name `id`.
    pub open spec fn has_rule(self, id: Ident) -> bool {
        exists|j: int| 0 <= j < self.rules.len() && (#[trigger] self.rules[j]).name == id
    }

    /// The start index names a rule, and every call in every rule names a rule
    /// of this grammar.
    pub open spec fn well_formed(self) -> bool {
        &&& self.start_rule_idx < self.rules.len()
        &&& forall|r: int, k: int|
            0 <= r < self.rules.len() && 0 <= k < self.rules[r].calls().len() ==> self.has_rule(
                (#[trigger] self.rules[r].calls()[k]).ident,
            )
    }
}

} // verus!
