use pestle::expr::{Cardinality, Field, GrammarRule, RuleExpr};
use pestle::schema::{derive_schema, RuleClassification, SchemaError};

const SEQ: u64 = 1;
const ATOM1: u64 = 2;
const ATOM2: u64 = 3;
const CHOICE: u64 = 4;
const ATOM3: u64 = 5;

fn reference(n: u64) -> RuleExpr {
    RuleExpr::Reference(n)
}

fn sequence(a: RuleExpr, b: RuleExpr) -> RuleExpr {
    RuleExpr::Sequence(Box::new(a), Box::new(b))
}

fn choice(a: RuleExpr, b: RuleExpr) -> RuleExpr {
    RuleExpr::Choice(Box::new(a), Box::new(b))
}

fn optional(e: RuleExpr) -> RuleExpr {
    RuleExpr::Optional(Box::new(e))
}

fn repeated(e: RuleExpr) -> RuleExpr {
    RuleExpr::Repeated(Box::new(e))
}

fn atomic_rule(name: u64) -> GrammarRule {
    GrammarRule { name, atomic: true, silent: false, expr: RuleExpr::Literal }
}

fn plain_rule(name: u64, expr: RuleExpr) -> GrammarRule {
    GrammarRule { name, atomic: false, silent: false, expr }
}

/// The demonstration grammar: `Sequence = atom1 atom2? choice* atom3*`
/// with `Choice = atom1 | atom2 | Sequence`.
fn demo_grammar() -> Vec<GrammarRule> {
    vec![
        plain_rule(
            SEQ,
            sequence(
                sequence(
                    sequence(reference(ATOM1), optional(reference(ATOM2))),
                    repeated(reference(CHOICE)),
                ),
                repeated(reference(ATOM3)),
            ),
        ),
        atomic_rule(ATOM1),
        atomic_rule(ATOM2),
        atomic_rule(ATOM3),
        plain_rule(
            CHOICE,
            choice(choice(reference(ATOM1), reference(ATOM2)), reference(SEQ)),
        ),
    ]
}

fn field(name: u64, card: Cardinality) -> Field {
    Field { name, card }
}

#[test]
fn demo_grammar_classifications() {
    let table = derive_schema(&demo_grammar()).unwrap();
    assert_eq!(table.entries.len(), 5);
    assert_eq!(table.entries[0].name, SEQ);
    assert_eq!(
        table.entries[0].classification,
        RuleClassification::Structure {
            fields: vec![
                field(ATOM1, Cardinality::One),
                field(ATOM2, Cardinality::Optional),
                field(CHOICE, Cardinality::Many),
                field(ATOM3, Cardinality::Many),
            ],
        }
    );
    assert_eq!(table.entries[1].classification, RuleClassification::Atomic);
    assert_eq!(table.entries[2].classification, RuleClassification::Atomic);
    assert_eq!(table.entries[3].classification, RuleClassification::Atomic);
    assert_eq!(
        table.entries[4].classification,
        RuleClassification::Enumeration { variants: vec![ATOM1, ATOM2, SEQ] }
    );
}

#[test]
fn derivation_is_deterministic() {
    let first = derive_schema(&demo_grammar()).unwrap();
    let second = derive_schema(&demo_grammar()).unwrap();
    assert_eq!(first.entries, second.entries);
}

#[test]
fn duplicate_reference_forces_many() {
    let rules = vec![
        plain_rule(SEQ, sequence(reference(ATOM1), reference(ATOM1))),
        atomic_rule(ATOM1),
    ];
    let table = derive_schema(&rules).unwrap();
    assert_eq!(
        table.entries[0].classification,
        RuleClassification::Structure { fields: vec![field(ATOM1, Cardinality::Many)] }
    );
}

#[test]
fn optional_demotes_one_to_optional() {
    let rules = vec![plain_rule(SEQ, optional(reference(ATOM1))), atomic_rule(ATOM1)];
    let table = derive_schema(&rules).unwrap();
    assert_eq!(
        table.entries[0].classification,
        RuleClassification::Structure { fields: vec![field(ATOM1, Cardinality::Optional)] }
    );
}

#[test]
fn optional_keeps_many() {
    let rules = vec![plain_rule(SEQ, optional(repeated(reference(ATOM1)))), atomic_rule(ATOM1)];
    let table = derive_schema(&rules).unwrap();
    assert_eq!(
        table.entries[0].classification,
        RuleClassification::Structure { fields: vec![field(ATOM1, Cardinality::Many)] }
    );
}

#[test]
fn silent_rule_produces_no_entry_and_is_skipped() {
    let silent = GrammarRule {
        name: ATOM2,
        atomic: false,
        silent: true,
        expr: RuleExpr::Literal,
    };
    let rules = vec![
        plain_rule(SEQ, sequence(reference(ATOM2), reference(ATOM1))),
        atomic_rule(ATOM1),
        silent,
    ];
    let table = derive_schema(&rules).unwrap();
    assert_eq!(table.entries.len(), 2);
    assert_eq!(table.entries[0].name, SEQ);
    assert_eq!(
        table.entries[0].classification,
        RuleClassification::Structure { fields: vec![field(ATOM1, Cardinality::One)] }
    );
    assert!(table.classification_of(ATOM2).is_none());
}

#[test]
fn choice_with_one_resolvable_variant_fails() {
    let silent = GrammarRule {
        name: ATOM2,
        atomic: false,
        silent: true,
        expr: RuleExpr::Literal,
    };
    let rules = vec![
        plain_rule(CHOICE, choice(reference(ATOM2), reference(ATOM1))),
        atomic_rule(ATOM1),
        silent,
    ];
    let err = derive_schema(&rules).unwrap_err();
    assert_eq!(err, SchemaError::UnsupportedGrammarConstruct { rule: CHOICE });
}

#[test]
fn nested_choice_inside_structure_fails() {
    let rules = vec![
        plain_rule(
            SEQ,
            sequence(reference(ATOM1), choice(reference(ATOM1), reference(ATOM2))),
        ),
        atomic_rule(ATOM1),
        atomic_rule(ATOM2),
    ];
    let err = derive_schema(&rules).unwrap_err();
    assert_eq!(err, SchemaError::UnsupportedGrammarConstruct { rule: SEQ });
}

#[test]
fn literal_inside_structure_body_fails() {
    let rules = vec![
        plain_rule(SEQ, sequence(RuleExpr::Literal, reference(ATOM1))),
        atomic_rule(ATOM1),
    ];
    let err = derive_schema(&rules).unwrap_err();
    assert_eq!(err, SchemaError::UnsupportedGrammarConstruct { rule: SEQ });
}

#[test]
fn choice_arm_that_is_no_reference_fails() {
    let rules = vec![
        plain_rule(
            CHOICE,
            choice(sequence(reference(ATOM1), reference(ATOM2)), reference(ATOM1)),
        ),
        atomic_rule(ATOM1),
        atomic_rule(ATOM2),
    ];
    let err = derive_schema(&rules).unwrap_err();
    assert_eq!(err, SchemaError::UnsupportedGrammarConstruct { rule: CHOICE });
}

#[test]
fn unresolved_reference_fails() {
    let rules = vec![plain_rule(SEQ, reference(99)), atomic_rule(ATOM1)];
    let err = derive_schema(&rules).unwrap_err();
    assert_eq!(err, SchemaError::UnsupportedGrammarConstruct { rule: SEQ });
}

#[test]
fn atomic_flag_overrides_body() {
    let rules = vec![GrammarRule {
        name: ATOM1,
        atomic: true,
        silent: false,
        expr: sequence(reference(ATOM2), reference(ATOM2)),
    }];
    let table = derive_schema(&rules).unwrap();
    assert_eq!(table.entries[0].classification, RuleClassification::Atomic);
}

#[test]
fn classification_lookup_finds_entries() {
    let table = derive_schema(&demo_grammar()).unwrap();
    assert_eq!(*table.classification_of(ATOM1).unwrap(), RuleClassification::Atomic);
    assert!(table.classification_of(77).is_none());
}
