use pestle::builder::build_typed_tree;
use pestle::expr::{Cardinality, GrammarRule, RuleExpr};
use pestle::schema::{derive_schema, SchemaTable};
use pestle::tree::{Arena, BuildError, FieldBinding, FieldSlot, TypedNode};
use pestle::untyped::UntypedNode;

const SEQ: u64 = 1;
const ATOM1: u64 = 2;
const ATOM2: u64 = 3;
const CHOICE: u64 = 4;
const ATOM3: u64 = 5;

fn reference(n: u64) -> RuleExpr {
    RuleExpr::Reference(n)
}

fn sequence(a: RuleExpr, b: RuleExpr) -> RuleExpr {
    RuleExpr::Sequence(Box::new(a), Box::new(b))
}

fn choice(a: RuleExpr, b: RuleExpr) -> RuleExpr {
    RuleExpr::Choice(Box::new(a), Box::new(b))
}

fn optional(e: RuleExpr) -> RuleExpr {
    RuleExpr::Optional(Box::new(e))
}

fn repeated(e: RuleExpr) -> RuleExpr {
    RuleExpr::Repeated(Box::new(e))
}

/// The demonstration grammar: `Sequence = atom1 atom2? choice* atom3*`
/// with `Choice = atom1 | atom2 | Sequence`.
fn demo_table() -> SchemaTable {
    let rules = vec![
        GrammarRule {
            name: SEQ,
            atomic: false,
            silent: false,
            expr: sequence(
                sequence(
                    sequence(reference(ATOM1), optional(reference(ATOM2))),
                    repeated(reference(CHOICE)),
                ),
                repeated(reference(ATOM3)),
            ),
        },
        GrammarRule { name: ATOM1, atomic: true, silent: false, expr: RuleExpr::Literal },
        GrammarRule { name: ATOM2, atomic: true, silent: false, expr: RuleExpr::Literal },
        GrammarRule { name: ATOM3, atomic: true, silent: false, expr: RuleExpr::Literal },
        GrammarRule {
            name: CHOICE,
            atomic: false,
            silent: false,
            expr: choice(choice(reference(ATOM1), reference(ATOM2)), reference(SEQ)),
        },
    ];
    derive_schema(&rules).unwrap()
}

fn leaf(rule: u64, start: usize, end: usize) -> UntypedNode {
    UntypedNode { rule, start, end, children: vec![] }
}

fn inner(rule: u64, start: usize, end: usize, children: Vec<UntypedNode>) -> UntypedNode {
    UntypedNode { rule, start, end, children }
}

#[test]
fn minimal_sequence_builds_expected_tree() {
    let table = demo_table();
    let mut arena = Arena::new();
    let untyped = inner(SEQ, 0, 1, vec![leaf(ATOM1, 0, 1)]);
    let h = build_typed_tree(&untyped, SEQ, &table, &mut arena).unwrap();
    assert_eq!(h, 1);
    assert_eq!(*arena.node(0), TypedNode::Atomic { rule: ATOM1, start: 0, end: 1 });
    assert_eq!(
        *arena.node(h),
        TypedNode::Structure {
            rule: SEQ,
            start: 0,
            end: 1,
            fields: vec![
                FieldBinding { name: ATOM1, slot: FieldSlot::One(0) },
                FieldBinding { name: ATOM2, slot: FieldSlot::Optional(None) },
                FieldBinding { name: CHOICE, slot: FieldSlot::Many(vec![]) },
                FieldBinding { name: ATOM3, slot: FieldSlot::Many(vec![]) },
            ],
        }
    );
}

#[test]
fn enumeration_resolves_variant_and_builds_subtree() {
    let table = demo_table();
    let mut arena = Arena::new();
    let untyped = inner(CHOICE, 0, 3, vec![inner(SEQ, 0, 3, vec![leaf(ATOM1, 0, 1)])]);
    let h = build_typed_tree(&untyped, CHOICE, &table, &mut arena).unwrap();
    match *arena.node(h) {
        TypedNode::Enumeration { rule, variant, child } => {
            assert_eq!(rule, CHOICE);
            assert_eq!(variant, SEQ);
            match arena.node(child) {
                TypedNode::Structure { rule, start, end, .. } => {
                    assert_eq!(*rule, SEQ);
                    assert_eq!(*start, 0);
                    assert_eq!(*end, 3);
                },
                other => panic!("expected a structure node, got {other:?}"),
            }
        },
        ref other => panic!("expected an enumeration node, got {other:?}"),
    }
}

#[test]
fn two_children_for_a_one_field_is_an_arity_violation() {
    let table = demo_table();
    let mut arena = Arena::new();
    let untyped = inner(SEQ, 0, 2, vec![leaf(ATOM1, 0, 1), leaf(ATOM1, 1, 2)]);
    let err = build_typed_tree(&untyped, SEQ, &table, &mut arena).unwrap_err();
    assert_eq!(
        err,
        BuildError::ArityViolation {
            rule: SEQ,
            field: ATOM1,
            declared: Cardinality::One,
            actual: 2,
        }
    );
}

#[test]
fn missing_one_field_is_an_arity_violation() {
    let table = demo_table();
    let mut arena = Arena::new();
    let untyped = inner(SEQ, 0, 1, vec![leaf(ATOM2, 0, 1)]);
    let err = build_typed_tree(&untyped, SEQ, &table, &mut arena).unwrap_err();
    assert_eq!(
        err,
        BuildError::ArityViolation {
            rule: SEQ,
            field: ATOM1,
            declared: Cardinality::One,
            actual: 0,
        }
    );
}

#[test]
fn two_children_for_an_optional_field_is_an_arity_violation() {
    let table = demo_table();
    let mut arena = Arena::new();
    let untyped = inner(
        SEQ,
        0,
        3,
        vec![leaf(ATOM1, 0, 1), leaf(ATOM2, 1, 2), leaf(ATOM2, 2, 3)],
    );
    let err = build_typed_tree(&untyped, SEQ, &table, &mut arena).unwrap_err();
    assert_eq!(
        err,
        BuildError::ArityViolation {
            rule: SEQ,
            field: ATOM2,
            declared: Cardinality::Optional,
            actual: 2,
        }
    );
}

#[test]
fn undeclared_child_rule_is_unexpected() {
    let table = demo_table();
    let mut arena = Arena::new();
    let untyped = inner(SEQ, 0, 2, vec![leaf(ATOM1, 0, 1), leaf(99, 1, 2)]);
    let err = build_typed_tree(&untyped, SEQ, &table, &mut arena).unwrap_err();
    assert_eq!(err, BuildError::UnexpectedChild { rule: SEQ, child: 99 });
}

#[test]
fn wrong_root_rule_is_a_mismatch() {
    let table = demo_table();
    let mut arena = Arena::new();
    let untyped = leaf(ATOM1, 0, 1);
    let err = build_typed_tree(&untyped, SEQ, &table, &mut arena).unwrap_err();
    assert_eq!(err, BuildError::RuleMismatch { expected: SEQ, actual: ATOM1 });
}

#[test]
fn enumeration_without_exactly_one_child_fails() {
    let table = demo_table();
    let mut arena = Arena::new();
    let none = inner(CHOICE, 0, 0, vec![]);
    let err = build_typed_tree(&none, CHOICE, &table, &mut arena).unwrap_err();
    assert_eq!(
        err,
        BuildError::ArityViolation {
            rule: CHOICE,
            field: CHOICE,
            declared: Cardinality::One,
            actual: 0,
        }
    );
    let two = inner(CHOICE, 0, 2, vec![leaf(ATOM1, 0, 1), leaf(ATOM1, 1, 2)]);
    let err = build_typed_tree(&two, CHOICE, &table, &mut arena).unwrap_err();
    assert_eq!(
        err,
        BuildError::ArityViolation {
            rule: CHOICE,
            field: CHOICE,
            declared: Cardinality::One,
            actual: 2,
        }
    );
}

#[test]
fn enumeration_child_outside_variants_is_unexpected() {
    let table = demo_table();
    let mut arena = Arena::new();
    let untyped = inner(CHOICE, 0, 1, vec![leaf(ATOM3, 0, 1)]);
    let err = build_typed_tree(&untyped, CHOICE, &table, &mut arena).unwrap_err();
    assert_eq!(err, BuildError::UnexpectedChild { rule: CHOICE, child: ATOM3 });
}

#[test]
fn repeated_fields_keep_arrival_order() {
    let table = demo_table();
    let mut arena = Arena::new();
    let untyped = inner(
        SEQ,
        0,
        5,
        vec![
            leaf(ATOM1, 0, 1),
            inner(CHOICE, 1, 2, vec![leaf(ATOM1, 1, 2)]),
            inner(CHOICE, 2, 3, vec![leaf(ATOM2, 2, 3)]),
            leaf(ATOM3, 3, 4),
            leaf(ATOM3, 4, 5),
        ],
    );
    let h = build_typed_tree(&untyped, SEQ, &table, &mut arena).unwrap();
    match arena.node(h) {
        TypedNode::Structure { fields, .. } => {
            match &fields[2].slot {
                FieldSlot::Many(hs) => {
                    assert_eq!(hs.len(), 2);
                    match arena.node(hs[0]) {
                        TypedNode::Enumeration { variant, .. } => assert_eq!(*variant, ATOM1),
                        other => panic!("expected an enumeration node, got {other:?}"),
                    }
                    match arena.node(hs[1]) {
                        TypedNode::Enumeration { variant, .. } => assert_eq!(*variant, ATOM2),
                        other => panic!("expected an enumeration node, got {other:?}"),
                    }
                },
                other => panic!("expected a many slot, got {other:?}"),
            }
            match &fields[3].slot {
                FieldSlot::Many(hs) => {
                    assert_eq!(hs.len(), 2);
                    assert_eq!(
                        *arena.node(hs[0]),
                        TypedNode::Atomic { rule: ATOM3, start: 3, end: 4 }
                    );
                    assert_eq!(
                        *arena.node(hs[1]),
                        TypedNode::Atomic { rule: ATOM3, start: 4, end: 5 }
                    );
                },
                other => panic!("expected a many slot, got {other:?}"),
            }
        },
        other => panic!("expected a structure node, got {other:?}"),
    }
}

#[test]
fn optional_field_present_is_some() {
    let table = demo_table();
    let mut arena = Arena::new();
    let untyped = inner(SEQ, 0, 2, vec![leaf(ATOM1, 0, 1), leaf(ATOM2, 1, 2)]);
    let h = build_typed_tree(&untyped, SEQ, &table, &mut arena).unwrap();
    match arena.node(h) {
        TypedNode::Structure { fields, .. } => {
            assert_eq!(fields[1].name, ATOM2);
            match fields[1].slot {
                FieldSlot::Optional(Some(c)) => {
                    assert_eq!(*arena.node(c), TypedNode::Atomic { rule: ATOM2, start: 1, end: 2 });
                },
                ref other => panic!("expected a present optional slot, got {other:?}"),
            }
        },
        other => panic!("expected a structure node, got {other:?}"),
    }
}

#[test]
fn building_twice_in_independent_arenas_is_identical() {
    let table = demo_table();
    let untyped = || {
        inner(
            SEQ,
            0,
            4,
            vec![
                leaf(ATOM1, 0, 1),
                leaf(ATOM2, 1, 2),
                inner(CHOICE, 2, 3, vec![leaf(ATOM1, 2, 3)]),
                leaf(ATOM3, 3, 4),
            ],
        )
    };
    let mut first = Arena::new();
    let mut second = Arena::new();
    let h1 = build_typed_tree(&untyped(), SEQ, &table, &mut first).unwrap();
    let h2 = build_typed_tree(&untyped(), SEQ, &table, &mut second).unwrap();
    assert_eq!(h1, h2);
    assert_eq!(first.len(), second.len());
    let mut h: usize = 0;
    while h < first.len() {
        assert_eq!(*first.node(h), *second.node(h));
        h += 1;
    }
}

#[test]
fn spans_are_kept_and_enumerations_answer_with_their_variants() {
    let table = demo_table();
    let mut arena = Arena::new();
    let untyped = inner(CHOICE, 3, 7, vec![inner(SEQ, 3, 7, vec![leaf(ATOM1, 3, 4)])]);
    let h = build_typed_tree(&untyped, CHOICE, &table, &mut arena).unwrap();
    // the enumeration node's span is its variant's own
    assert_eq!(arena.span_of(h), (3, 7));
    match *arena.node(h) {
        TypedNode::Enumeration { child, .. } => {
            assert_eq!(arena.span_of(child), (3, 7));
            match arena.node(child) {
                TypedNode::Structure { fields, .. } => match fields[0].slot {
                    FieldSlot::One(c) => assert_eq!(arena.span_of(c), (3, 4)),
                    ref other => panic!("expected a single slot, got {other:?}"),
                },
                other => panic!("expected a structure node, got {other:?}"),
            }
        },
        ref other => panic!("expected an enumeration node, got {other:?}"),
    }
}

#[test]
fn failed_build_leaves_the_arena_as_it_was() {
    let table = demo_table();
    let mut arena = Arena::new();
    let good = inner(SEQ, 0, 1, vec![leaf(ATOM1, 0, 1)]);
    build_typed_tree(&good, SEQ, &table, &mut arena).unwrap();
    let len_before = arena.len();
    let bad = inner(SEQ, 0, 2, vec![leaf(ATOM1, 0, 1), leaf(99, 1, 2)]);
    let err = build_typed_tree(&bad, SEQ, &table, &mut arena).unwrap_err();
    assert_eq!(err, BuildError::UnexpectedChild { rule: SEQ, child: 99 });
    assert_eq!(arena.len(), len_before);
}
