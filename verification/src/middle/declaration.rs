//! Which rule a name stands for.

use vstd::prelude::*;
use crate::front::ast::Ident;
use crate::front::ast::Rule;

verus! {

/// The rule at `i` is declared under the name `id`.
pub open spec fn declares(rules: Seq<Rule>, i: int, id: Ident) -> bool {
    0 <= i < rules.len() && rules[i].name.node == id
}

/// Some rule is declared under the name `id`.
pub open spec fn is_declared(rules: Seq<Rule>, id: Ident) -> bool {
    exists|i: int| declares(rules, i, id)
}

/// The rule at `i` is the first one declared under the name `id`.
pub open spec fn is_first_declaration(rules: Seq<Rule>, i: int, id: Ident) -> bool {
    declares(rules, i, id) && forall|j: int| 0 <= j < i ==> !declares(rules, j, id)
}

/// The index of the first rule declared under the name `id`.
pub open spec fn first_declaration(rules: Seq<Rule>, id: Ident) -> int {
    choose|i: int| is_first_declaration(rules, i, id)
}

/// The name of the rule at `i` was already declared before it.
pub open spec fn is_redeclaration(rules: Seq<Rule>, i: int) -> bool {
    exists|j: int| 0 <= j < i && declares(rules, j, rules[i].name.node)
}

/// Some name is declared more than once.
pub open spec fn has_duplicates(rules: Seq<Rule>) -> bool {
    exists|i: int| 0 <= i < rules.len() && is_redeclaration(rules, i)
}

/// `map` takes the symbol of each name declared among the first `n` rules to
/// the index of its first declaration, and holds nothing else.
pub open spec fn indexes(map: Map<u64, usize>, rules: Seq<Rule>, n: int) -> bool {
    &&& forall|k: u64| #[trigger]
        map.contains_key(k) ==> map[k] < n && is_first_declaration(
            rules,
            map[k] as int,
            Ident { name: k },
        )
    &&& forall|i: int| 0 <= i < n ==> map.contains_key((#[trigger] rules[i]).name.node.name)
}

/// A name has at most one first declaration.
pub proof fn lemma_first_declaration_unique(rules: Seq<Rule>, i: int, j: int, id: Ident)
    requires
        is_first_declaration(rules, i, id),
        is_first_declaration(rules, j, id),
    ensures
        i == j,
{
    if i < j {
        assert(declares(rules, i, id));
    } else if j < i {
        assert(declares(rules, j, id));
    }
}

/// Where a name has a first declaration at `i`, `first_declaration` gives `i`.
pub proof fn lemma_first_declaration_is(rules: Seq<Rule>, i: int, id: Ident)
    requires
        is_first_declaration(rules, i, id),
    ensures
        first_declaration(rules, id) == i,
{
    lemma_first_declaration_unique(rules, first_declaration(rules, id), i, id);
}

/// A declared name has a first declaration.
pub proof fn lemma_declared_has_first(rules: Seq<Rule>, i: int, id: Ident)
    requires
        declares(rules, i, id),
    ensures
        is_first_declaration(rules, first_declaration(rules, id), id),
        first_declaration(rules, id) <= i,
    decreases i,
{
    if exists|j: int| 0 <= j < i && declares(rules, j, id) {
        let j = choose|j: int| 0 <= j < i && declares(rules, j, id);
        lemma_declared_has_first(rules, j, id);
    } else {
        assert(is_first_declaration(rules, i, id));
        lemma_first_declaration_is(rules, i, id);
    }
}

/// An index of all the rules holds exactly the declared names.
pub proof fn lemma_index_holds_declared(map: Map<u64, usize>, rules: Seq<Rule>, id: Ident)
    requires
        indexes(map, rules, rules.len() as int),
    ensures
        map.contains_key(id.name) <==> is_declared(rules, id),
        map.contains_key(id.name) ==> map[id.name] == first_declaration(rules, id),
{
    if map.contains_key(id.name) {
        assert(id == Ident { name: id.name });
        assert(declares(rules, map[id.name] as int, id));
        lemma_first_declaration_is(rules, map[id.name] as int, id);
    }
    if is_declared(rules, id) {
        let i = choose|i: int| declares(rules, i, id);
        assert(map.contains_key(rules[i].name.node.name));
    }
}

} // verus!
