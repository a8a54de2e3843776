//! The rule expression model: the body of one grammar rule, and the
//! cardinality that schema derivation assigns to each referenced field.

use vstd::prelude::*;

verus! {

/// The body of one grammar rule: literals, references to named rules,
/// sequencing, choice, optional and repetition.
///
/// Rule names are carried as integer identities; the caller maps textual
/// rule names to identities before deriving a schema.
#[derive(Debug)]
pub enum RuleExpr {
    /// A literal match; its internal structure is never decomposed.
    Literal,
    /// A reference to the named rule.
    Reference(u64),
    /// Both parts in order.
    Sequence(Box<RuleExpr>, Box<RuleExpr>),
    /// Either part.
    Choice(Box<RuleExpr>, Box<RuleExpr>),
    /// Zero or one occurrence of the inner expression.
    Optional(Box<RuleExpr>),
    /// Zero or more occurrences of the inner expression.
    Repeated(Box<RuleExpr>),
}

/// How many times a field may legally occur in a structured rule.
#[derive(Clone, Copy, PartialEq, Eq, Structural, Debug)]
pub enum Cardinality {
    /// Exactly one occurrence.
    One,
    /// Zero or one occurrence.
    Optional,
    /// Zero or more occurrences, order preserved.
    Many,
}

/// One field of a structured rule: the referenced rule's identity and the
/// derived cardinality.
#[derive(Clone, Copy, PartialEq, Eq, Structural, Debug)]
pub struct Field {
    pub name: u64,
    pub card: Cardinality,
}

/// A named grammar rule as supplied by the grammar-definition loader.
#[derive(Debug)]
pub struct GrammarRule {
    /// The rule's identity, compared against untyped nodes' rule tags.
    pub name: u64,
    /// Marked atomic in the source grammar: the matched text is kept
    /// verbatim and never decomposed.
    pub atomic: bool,
    /// Marked silent in the source grammar: the rule produces no schema
    /// entry and references to it are skipped.
    pub silent: bool,
    /// The rule's body.
    pub expr: RuleExpr,
}

} // verus!
