//! The typed-tree builder: converts one untyped parse node into one
//! arena-resident typed node, guided by the node's schema entry, with
//! cardinality-checked field extraction and variant dispatch.

use vstd::prelude::*;

use crate::expr::{Cardinality, Field};
use crate::schema::{
    entry_resolved, has_name, lookup_model, names_of, table_contains, table_resolved,
    ClassificationModel, EntryModel, RuleClassification, SchemaTable,
};
use crate::tree::{
    extract_field, extract_fields, extract_list, extract_node, slot_bounded, Arena, BuildError,
    FieldBinding, FieldModel, FieldSlot, TreeModel, TypedNode,
};
use crate::untyped::UntypedNode;

verus! {

/// How many of the children carry rule identity `n`.
pub open spec fn count_for_name(cs: Seq<UntypedNode>, n: u64) -> nat
    decreases cs.len(),
{
    if cs.len() == 0 {
        0
    } else {
        (if cs[0].rule == n {
            1nat
        } else {
            0nat
        }) + count_for_name(cs.drop_first(), n)
    }
}

/// Whether a realized occurrence count satisfies a declared cardinality.
pub open spec fn arity_ok(card: Cardinality, count: nat) -> bool {
    match card {
        Cardinality::One => count == 1,
        Cardinality::Optional => count <= 1,
        Cardinality::Many => true,
    }
}

/// The first arity violation among the declared fields, in field order,
/// if any.
pub open spec fn first_arity_error(fields: Seq<Field>, cs: Seq<UntypedNode>, encl: u64) -> Option<
    BuildError,
>
    decreases fields.len(),
{
    if fields.len() == 0 {
        None
    } else if !arity_ok(fields[0].card, count_for_name(cs, fields[0].name)) {
        Some(
            BuildError::ArityViolation {
                rule: encl,
                field: fields[0].name,
                declared: fields[0].card,
                actual: count_for_name(cs, fields[0].name) as usize,
            },
        )
    } else {
        first_arity_error(fields.drop_first(), cs, encl)
    }
}

/// The first failure among the children of a structure node, in child
/// order: an undeclared rule identity, or a failing recursive build.
pub open spec fn first_child_error(
    cs: Seq<UntypedNode>,
    encl: u64,
    fields: Seq<Field>,
    table: Seq<EntryModel>,
) -> Option<BuildError>
    decreases cs, 2int, 0int,
{
    if cs.len() == 0 {
        None
    } else if !has_name(fields, cs[0].rule) {
        Some(BuildError::UnexpectedChild { rule: encl, child: cs[0].rule })
    } else {
        match build_spec(cs[0], cs[0].rule, table) {
            Err(e) => Some(e),
            Ok(_) => first_child_error(cs.drop_first(), encl, fields, table),
        }
    }
}

/// The typed tree a successful build of `t` denotes, against its own
/// rule.
pub open spec fn build_ok(t: UntypedNode, table: Seq<EntryModel>) -> TreeModel
    decreases t, 4int, 0int,
{
    match build_spec(t, t.rule, table) {
        Ok(m) => m,
        Err(_) => arbitrary(),
    }
}

/// The built values of the children carrying rule identity `n`, in
/// arrival order.
pub open spec fn built_for_name(cs: Seq<UntypedNode>, n: u64, table: Seq<EntryModel>) -> Seq<
    TreeModel,
>
    decreases cs, 2int, 0int,
{
    if cs.len() == 0 {
        Seq::empty()
    } else {
        let rest = built_for_name(cs.drop_first(), n, table);
        if cs[0].rule == n {
            seq![build_ok(cs[0], table)] + rest
        } else {
            rest
        }
    }
}

/// The field values of a structure node: one entry per declared field,
/// in field order, each holding the children that arrived for it.
pub open spec fn fields_model(
    fields: Seq<Field>,
    cs: Seq<UntypedNode>,
    table: Seq<EntryModel>,
) -> Seq<FieldModel>
    decreases cs, 5int, fields.len(),
{
    if fields.len() == 0 {
        Seq::empty()
    } else {
        seq![
            FieldModel {
                name: fields[0].name,
                card: fields[0].card,
                values: built_for_name(cs, fields[0].name, table),
            },
        ] + fields_model(fields.drop_first(), cs, table)
    }
}

/// What building `t` against expected rule `expected` returns: the typed
/// tree, or the first failure of the depth-first traversal.
pub open spec fn build_spec(t: UntypedNode, expected: u64, table: Seq<EntryModel>) -> Result<
    TreeModel,
    BuildError,
>
    decreases t, 3int, 0int,
{
    if t.rule != expected {
        Err(BuildError::RuleMismatch { expected, actual: t.rule })
    } else {
        match lookup_model(table, expected) {
            None => arbitrary(),
            Some(c) => match c {
                ClassificationModel::Atomic => Ok(
                    TreeModel::Atomic { rule: expected, start: t.start, end: t.end },
                ),
                ClassificationModel::Enumeration { variants } => {
                    if t.children@.len() != 1 {
                        Err(
                            BuildError::ArityViolation {
                                rule: expected,
                                field: expected,
                                declared: Cardinality::One,
                                actual: t.children@.len() as usize,
                            },
                        )
                    } else {
                        let c0 = t.children@[0];
                        if variants.contains(c0.rule) {
                            match build_spec(c0, c0.rule, table) {
                                Ok(m) => Ok(
                                    TreeModel::Enumeration {
                                        rule: expected,
                                        variant: c0.rule,
                                        child: Box::new(m),
                                    },
                                ),
                                Err(e) => Err(e),
                            }
                        } else {
                            Err(BuildError::UnexpectedChild { rule: expected, child: c0.rule })
                        }
                    }
                },
                ClassificationModel::Structure { fields } => {
                    match first_child_error(t.children@, expected, fields, table) {
                        Some(e) => Err(e),
                        None => match first_arity_error(fields, t.children@, expected) {
                            Some(e) => Err(e),
                            None => Ok(
                                TreeModel::Structure {
                                    rule: expected,
                                    start: t.start,
                                    end: t.end,
                                    fields: fields_model(fields, t.children@, table),
                                },
                            ),
                        },
                    }
                },
            },
        }
    }
}

/// A successful lookup returns the classification of some entry of the
/// table.
proof fn lemma_lookup_model_entry(t: Seq<EntryModel>, n: u64)
    requires
        lookup_model(t, n) is Some,
    ensures
        exists|i: int|
            0 <= i < t.len() && #[trigger] t[i].classification == lookup_model(t, n)->Some_0,
    decreases t.len(),
{
    if t[0].name == n {
        assert(t[0].classification == lookup_model(t, n)->Some_0);
    } else {
        lemma_lookup_model_entry(t.drop_first(), n);
        let j = choose|j: int|
            0 <= j < t.drop_first().len() && #[trigger] t.drop_first()[j].classification
                == lookup_model(t.drop_first(), n)->Some_0;
        assert(t[j + 1].classification == lookup_model(t, n)->Some_0);
    }
}

/// In a resolved table, a looked-up classification is itself resolved.
pub proof fn lemma_lookup_resolved(t: Seq<EntryModel>, n: u64)
    requires
        table_resolved(t),
        lookup_model(t, n) is Some,
    ensures
        entry_resolved(t, lookup_model(t, n)->Some_0),
{
    lemma_lookup_model_entry(t, n);
}

/// A table holds a name exactly when looking it up succeeds.
pub proof fn lemma_contains_lookup(t: Seq<EntryModel>, n: u64)
    ensures
        table_contains(t, n) <==> lookup_model(t, n) is Some,
    decreases t.len(),
{
    if t.len() > 0 {
        lemma_contains_lookup(t.drop_first(), n);
        if t[0].name != n {
            assert(forall|j: int|
                0 <= j < t.drop_first().len() ==> #[trigger] t.drop_first()[j] == t[j + 1]);
            if table_contains(t, n) {
                let i = choose|i: int| 0 <= i < t.len() && #[trigger] t[i].name == n;
                assert(t.drop_first()[i - 1].name == n);
            }
            if table_contains(t.drop_first(), n) {
                let j = choose|j: int|
                    0 <= j < t.drop_first().len() && #[trigger] t.drop_first()[j].name == n;
                assert(t[j + 1].name == n);
            }
        }
    }
}

/// Appending one child extends the built values of a name by that
/// child's build, exactly when the child carries the name.
proof fn lemma_built_for_name_push(
    s: Seq<UntypedNode>,
    c: UntypedNode,
    n: u64,
    table: Seq<EntryModel>,
)
    ensures
        built_for_name(s.push(c), n, table) == built_for_name(s, n, table) + (if c.rule == n {
            seq![build_ok(c, table)]
        } else {
            Seq::<TreeModel>::empty()
        }),
    decreases s.len(),
{
    reveal_with_fuel(built_for_name, 2);
    if s.len() == 0 {
        assert(s.push(c)[0] == c);
        assert(s.push(c).drop_first() =~= Seq::<UntypedNode>::empty());
        if c.rule == n {
            assert(built_for_name(s.push(c), n, table) =~= built_for_name(s, n, table)
                + seq![build_ok(c, table)]);
        } else {
            assert(built_for_name(s.push(c), n, table) =~= built_for_name(s, n, table));
        }
    } else {
        assert(s.push(c)[0] == s[0]);
        assert(s.push(c).drop_first() =~= s.drop_first().push(c));
        lemma_built_for_name_push(s.drop_first(), c, n, table);
        if s[0].rule == n {
            if c.rule == n {
                assert(seq![build_ok(s[0], table)] + (built_for_name(s.drop_first(), n, table)
                    + seq![build_ok(c, table)]) =~= (seq![build_ok(s[0], table)] + built_for_name(
                    s.drop_first(),
                    n,
                    table,
                )) + seq![build_ok(c, table)]);
            } else {
                assert(seq![build_ok(s[0], table)] + (built_for_name(s.drop_first(), n, table)
                    + Seq::<TreeModel>::empty()) =~= (seq![build_ok(s[0], table)]
                    + built_for_name(s.drop_first(), n, table)) + Seq::<TreeModel>::empty());
            }
        } else {
            if c.rule != n {
                assert(built_for_name(s.drop_first(), n, table) + Seq::<TreeModel>::empty()
                    =~= built_for_name(s.drop_first(), n, table));
                assert(built_for_name(s, n, table) + Seq::<TreeModel>::empty() =~= built_for_name(
                    s,
                    n,
                    table,
                ));
            }
        }
    }
}

/// The built values of a name are as many as the children carrying it.
proof fn lemma_built_count(cs: Seq<UntypedNode>, n: u64, table: Seq<EntryModel>)
    ensures
        built_for_name(cs, n, table).len() == count_for_name(cs, n),
    decreases cs.len(),
{
    if cs.len() > 0 {
        lemma_built_count(cs.drop_first(), n, table);
    }
}

/// The values a handle list denotes, read off elementwise.
pub open spec fn extract_handles(nodes: Seq<TypedNode>, hs: Seq<usize>) -> Seq<TreeModel> {
    Seq::new(hs.len(), |k: int| extract_node(nodes, hs[k] as int))
}

/// With every handle below the bound, list extraction is elementwise.
proof fn lemma_extract_list_is_handles(nodes: Seq<TypedNode>, hs: Seq<usize>, h: int)
    requires
        forall|k: int| 0 <= k < hs.len() ==> hs[k] < h,
    ensures
        extract_list(nodes, hs, h) == extract_handles(nodes, hs),
    decreases hs.len(),
{
    if hs.len() > 0 {
        assert(forall|k: int| 0 <= k < hs.drop_first().len() ==> hs.drop_first()[k] == hs[k + 1]);
        lemma_extract_list_is_handles(nodes, hs.drop_first(), h);
        assert(extract_list(nodes, hs, h) =~= extract_handles(nodes, hs));
    } else {
        assert(extract_list(nodes, hs, h) =~= extract_handles(nodes, hs));
    }
}

/// Field extraction, read off elementwise.
proof fn lemma_extract_fields_elementwise(nodes: Seq<TypedNode>, fs: Seq<FieldBinding>, h: int)
    ensures
        extract_fields(nodes, fs, h) == Seq::new(
            fs.len(),
            |k: int| extract_field(nodes, fs[k], h),
        ),
    decreases fs.len(),
{
    if fs.len() > 0 {
        assert(forall|k: int| 0 <= k < fs.drop_first().len() ==> fs.drop_first()[k] == fs[k + 1]);
        lemma_extract_fields_elementwise(nodes, fs.drop_first(), h);
        assert(extract_fields(nodes, fs, h) =~= Seq::new(
            fs.len(),
            |k: int| extract_field(nodes, fs[k], h),
        ));
    } else {
        assert(extract_fields(nodes, fs, h) =~= Seq::new(
            fs.len(),
            |k: int| extract_field(nodes, fs[k], h),
        ));
    }
}

/// The fields model, read off elementwise.
proof fn lemma_fields_model_elementwise(
    fields: Seq<Field>,
    cs: Seq<UntypedNode>,
    table: Seq<EntryModel>,
)
    ensures
        fields_model(fields, cs, table) == Seq::new(
            fields.len(),
            |k: int|
                FieldModel {
                    name: fields[k].name,
                    card: fields[k].card,
                    values: built_for_name(cs, fields[k].name, table),
                },
        ),
    decreases fields.len(),
{
    if fields.len() > 0 {
        assert(forall|k: int|
            0 <= k < fields.drop_first().len() ==> fields.drop_first()[k] == fields[k + 1]);
        lemma_fields_model_elementwise(fields.drop_first(), cs, table);
    }
    assert(fields_model(fields, cs, table) =~= Seq::new(
        fields.len(),
        |k: int|
            FieldModel {
                name: fields[k].name,
                card: fields[k].card,
                values: built_for_name(cs, fields[k].name, table),
            },
    ));
}

/// Construction has no hidden state: what a successful build denotes is
/// a function of the untyped tree, the expected rule and the schema
/// alone, so two builds against independent arenas denote structurally
/// equal typed trees.
pub proof fn lemma_build_pure(
    a1: Seq<TypedNode>,
    h1: int,
    a2: Seq<TypedNode>,
    h2: int,
    t: UntypedNode,
    expected: u64,
    table: Seq<EntryModel>,
)
    requires
        build_spec(t, expected, table) == Ok::<TreeModel, BuildError>(extract_node(a1, h1)),
        build_spec(t, expected, table) == Ok::<TreeModel, BuildError>(extract_node(a2, h2)),
    ensures
        extract_node(a1, h1) == extract_node(a2, h2),
{
}

/// Converts one untyped parse tree into a typed tree resident in the
/// arena, guided by the schema entry of `expected`: verifies rule
/// identity, dispatches enumeration variants, and checks every field's
/// realized count against its declared cardinality. On success the
/// returned handle denotes exactly the tree `build_spec` assigns to the
/// input; on failure the arena is left as it was, so no caller observes
/// a partially built tree.
pub fn build_typed_tree(
    root: &UntypedNode,
    expected: u64,
    table: &SchemaTable,
    arena: &mut Arena,
) -> (r: Result<usize, BuildError>)
    requires
        old(arena).wf(),
        table_resolved(table@),
        table_contains(table@, expected),
    ensures
        final(arena).wf(),
        match r {
            Ok(h) => {
                &&& old(arena)@.len() <= h < final(arena)@.len()
                &&& final(arena)@.subrange(0, old(arena)@.len() as int) == old(arena)@
                &&& build_spec(*root, expected, table@) == Ok::<TreeModel, BuildError>(
                    extract_node(final(arena)@, h as int),
                )
            },
            Err(e) => final(arena)@ == old(arena)@ && build_spec(*root, expected, table@)
                == Err::<TreeModel, BuildError>(e),
        },
{
    let len0 = arena.len();
    match build_node(root, expected, table, arena) {
        Ok(h) => Ok(h),
        Err(e) => {
            arena.truncate(len0);
            Err(e)
        },
    }
}

/// A prefix of a prefix is a prefix.
proof fn lemma_prefix_trans(a: Seq<TypedNode>, b: Seq<TypedNode>, c: Seq<TypedNode>)
    requires
        a.len() <= b.len() <= c.len(),
        b.subrange(0, a.len() as int) == a,
        c.subrange(0, b.len() as int) == b,
    ensures
        c.subrange(0, a.len() as int) == a,
{
    assert(c.subrange(0, a.len() as int) =~= a) by {
        assert forall|k: int| 0 <= k < a.len() implies c[k] == a[k] by {
            assert(b.subrange(0, a.len() as int)[k] == b[k]);
            assert(c.subrange(0, b.len() as int)[k] == c[k]);
        }
    }
}

/// Whether `n` is among the declared variants.
fn contains_u64(vs: &Vec<u64>, n: u64) -> (r: bool)
    ensures
        r == vs@.contains(n),
{
    let mut i: usize = 0;
    while i < vs.len()
        invariant
            i <= vs@.len(),
            forall|k: int| 0 <= k < i ==> vs@[k] != n,
        decreases vs@.len() - i,
    {
        if vs[i] == n {
            assert(vs@[i as int] == n);
            return true;
        }
        i += 1;
    }
    false
}

/// The index of the first declared field named `n`, if any.
fn find_field(fields: &Vec<Field>, n: u64) -> (r: Option<usize>)
    ensures
        match r {
            Some(j) => j < fields@.len() && fields@[j as int].name == n,
            None => !has_name(fields@, n),
        },
{
    let mut i: usize = 0;
    while i < fields.len()
        invariant
            i <= fields@.len(),
            forall|k: int| 0 <= k < i ==> fields@[k].name != n,
        decreases fields@.len() - i,
    {
        if fields[i].name == n {
            return Some(i);
        }
        i += 1;
    }
    None
}

/// Converts one untyped node into one arena-resident typed node, guided
/// by the node's schema entry; children are built depth-first, and the
/// first invariant violation surfaces as the error the specification
/// assigns to it. Nodes allocated before the call are never touched.
fn build_node(node: &UntypedNode, expected: u64, table: &SchemaTable, arena: &mut Arena) -> (r:
    Result<usize, BuildError>)
    requires
        old(arena).wf(),
        table_resolved(table@),
        table_contains(table@, expected),
    ensures
        final(arena).wf(),
        old(arena)@.len() <= final(arena)@.len(),
        final(arena)@.subrange(0, old(arena)@.len() as int) == old(arena)@,
        match r {
            Ok(h) => old(arena)@.len() <= h < final(arena)@.len() && build_spec(
                *node,
                expected,
                table@,
            ) == Ok::<TreeModel, BuildError>(extract_node(final(arena)@, h as int)),
            Err(e) => build_spec(*node, expected, table@) == Err::<TreeModel, BuildError>(e),
        },
    decreases *node, 1int,
{
    proof {
        lemma_contains_lookup(table@, expected);
        assert(old(arena)@.subrange(0, old(arena)@.len() as int) =~= old(arena)@);
    }
    if node.rule != expected {
        return Err(BuildError::RuleMismatch { expected, actual: node.rule });
    }
    let copt = table.classification_of(expected);
    match copt {
        None => vstd::pervasive::unreached(),
        Some(cls) => match cls {
            RuleClassification::Atomic => {
                let h = arena.allocate(
                    TypedNode::Atomic { rule: expected, start: node.start, end: node.end },
                );
                proof {
                    assert(arena@.subrange(0, old(arena)@.len() as int) =~= old(arena)@);
                    assert(extract_node(arena@, h as int) == (TreeModel::Atomic {
                        rule: expected,
                        start: node.start,
                        end: node.end,
                    }));
                }
                Ok(h)
            },
            RuleClassification::Enumeration { variants } => {
                if node.children.len() != 1 {
                    return Err(
                        BuildError::ArityViolation {
                            rule: expected,
                            field: expected,
                            declared: Cardinality::One,
                            actual: node.children.len(),
                        },
                    );
                }
                let child = &node.children[0];
                proof {
                    assert(*child == node.children@[0]);
                }
                if !contains_u64(variants, child.rule) {
                    return Err(BuildError::UnexpectedChild { rule: expected, child: child.rule });
                }
                proof {
                    lemma_lookup_resolved(table@, expected);
                    let k = choose|k: int|
                        0 <= k < variants@.len() && #[trigger] variants@[k] == child.rule;
                    crate::schema::lemma_all_contained_index(table@, variants@, k);
                    assert(table_contains(table@, child.rule));
                }
                let ghost mid0 = arena@;
                match build_node(child, child.rule, table, arena) {
                    Err(e) => {
                        proof {
                            lemma_prefix_trans(old(arena)@, mid0, arena@);
                        }
                        Err(e)
                    },
                    Ok(ch) => {
                        let ghost mid1 = arena@;
                        let h = arena.allocate(
                            TypedNode::Enumeration {
                                rule: expected,
                                variant: child.rule,
                                child: ch,
                            },
                        );
                        proof {
                            assert(arena@.subrange(0, mid1.len() as int) =~= mid1);
                            lemma_prefix_trans(old(arena)@, mid1, arena@);
                            crate::tree::lemma_extract_node_prefix(mid1, arena@, ch as int);
                            assert(extract_node(arena@, h as int) == (TreeModel::Enumeration {
                                rule: expected,
                                variant: child.rule,
                                child: Box::new(extract_node(mid1, ch as int)),
                            }));
                        }
                        Ok(h)
                    },
                }
            },
            RuleClassification::Structure { fields } => {
                build_structure(node, expected, fields, table, arena)
            },
        },
    }
}

/// Builds a structure node: gathers the children per declared field in
/// arrival order, then finalizes each field per its cardinality.
fn build_structure(
    node: &UntypedNode,
    expected: u64,
    fields: &Vec<Field>,
    table: &SchemaTable,
    arena: &mut Arena,
) -> (r: Result<usize, BuildError>)
    requires
        old(arena).wf(),
        table_resolved(table@),
        node.rule == expected,
        lookup_model(table@, expected) == Some(
            ClassificationModel::Structure { fields: fields@ },
        ),
    ensures
        final(arena).wf(),
        old(arena)@.len() <= final(arena)@.len(),
        final(arena)@.subrange(0, old(arena)@.len() as int) == old(arena)@,
        match r {
            Ok(h) => old(arena)@.len() <= h < final(arena)@.len() && build_spec(
                *node,
                expected,
                table@,
            ) == Ok::<TreeModel, BuildError>(extract_node(final(arena)@, h as int)),
            Err(e) => build_spec(*node, expected, table@) == Err::<TreeModel, BuildError>(e),
        },
    decreases *node, 0int,
{
    let ghost tm = table@;
    let ghost cs = node.children@;
    let ghost fseq = fields@;
    proof {
        lemma_lookup_resolved(tm, expected);
        assert(old(arena)@.subrange(0, old(arena)@.len() as int) =~= old(arena)@);
    }
    let mut accs: Vec<Vec<usize>> = Vec::new();
    let mut j: usize = 0;
    while j < fields.len()
        invariant
            j <= fseq.len(),
            fseq == fields@,
            accs@.len() == j,
            forall|k: int| 0 <= k < j ==> (#[trigger] accs@[k])@ == Seq::<usize>::empty(),
        decreases fseq.len() - j,
    {
        let empty_acc: Vec<usize> = Vec::new();
        accs.push(empty_acc);
        j += 1;
    }
    proof {
        assert(cs.skip(0) =~= cs);
        assert(cs.take(0) =~= Seq::<UntypedNode>::empty());
        assert(forall|k: int|
            0 <= k < fseq.len() ==> extract_handles(arena@, (#[trigger] accs@[k])@)
                =~= built_for_name(cs.take(0), fseq[k].name, tm));
    }
    let mut i: usize = 0;
    while i < node.children.len()
        invariant
            i <= cs.len(),
            cs == node.children@,
            node.rule == expected,
            fseq == fields@,
            tm == table@,
            lookup_model(tm, expected) == Some(ClassificationModel::Structure { fields: fseq }),
            table_resolved(tm),
            entry_resolved(tm, ClassificationModel::Structure { fields: fseq }),
            arena.wf(),
            old(arena)@.len() <= arena@.len(),
            arena@.subrange(0, old(arena)@.len() as int) == old(arena)@,
            first_child_error(cs, expected, fseq, tm) == first_child_error(
                cs.skip(i as int),
                expected,
                fseq,
                tm,
            ),
            accs@.len() == fseq.len(),
            forall|k: int, x: int|
                0 <= k < fseq.len() && 0 <= x < accs@[k]@.len() ==> #[trigger] accs@[k]@[x]
                    < arena@.len(),
            forall|k: int|
                0 <= k < fseq.len() ==> extract_handles(arena@, (#[trigger] accs@[k])@)
                    == built_for_name(cs.take(i as int), fseq[k].name, tm),
        decreases cs.len() - i,
    {
        let c = &node.children[i];
        proof {
            assert(*c == cs[i as int]);
            assert(cs.skip(i as int)[0] == cs[i as int]);
            assert(cs.skip(i as int).drop_first() =~= cs.skip(i + 1));
        }
        match find_field(fields, c.rule) {
            None => {
                return Err(BuildError::UnexpectedChild { rule: expected, child: c.rule });
            },
            Some(fj) => {
                proof {
                    let ns = names_of(ClassificationModel::Structure { fields: fseq });
                    assert(ns[fj as int] == fseq[fj as int].name);
                    crate::schema::lemma_all_contained_index(tm, ns, fj as int);
                    assert(table_contains(tm, c.rule));
                    assert(has_name(fseq, cs[i as int].rule)) by {
                        assert(fseq[fj as int].name == cs[i as int].rule);
                    }
                }
                let ghost mid0 = arena@;
                match build_node(c, c.rule, table, arena) {
                    Err(e) => {
                        proof {
                            lemma_prefix_trans(old(arena)@, mid0, arena@);
                        }
                        return Err(e);
                    },
                    Ok(ch) => {
                        let ghost accs0 = accs@;
                        proof {
                            lemma_prefix_trans(old(arena)@, mid0, arena@);
                            // existing accumulated handles denote the same trees in
                            // the grown arena
                            assert forall|k: int, x: int|
                                0 <= k < fseq.len() && 0 <= x < accs0[k]@.len()
                                implies #[trigger] extract_node(arena@, accs0[k]@[x] as int)
                                == extract_node(mid0, accs0[k]@[x] as int) by {
                                crate::tree::lemma_extract_node_prefix(
                                    mid0,
                                    arena@,
                                    accs0[k]@[x] as int,
                                );
                            }
                            assert(forall|k: int|
                                0 <= k < fseq.len() ==> extract_handles(
                                    arena@,
                                    (#[trigger] accs0[k])@,
                                ) =~= extract_handles(mid0, accs0[k]@));
                        }
                        // append the child to every field that declares its rule
                        let mut m: usize = 0;
                        while m < fields.len()
                            invariant
                                m <= fseq.len(),
                                fseq == fields@,
                                accs@.len() == fseq.len(),
                                accs0.len() == fseq.len(),
                                forall|k: int|
                                    0 <= k < m ==> (#[trigger] accs@[k])@ == (if fseq[k].name
                                        == c.rule {
                                        accs0[k]@.push(ch)
                                    } else {
                                        accs0[k]@
                                    }),
                                forall|k: int| m <= k < fseq.len() ==> accs@[k] == accs0[k],
                            decreases fseq.len() - m,
                        {
                            if fields[m].name == c.rule {
                                let ghost before = accs@;
                                let mut acc = accs.remove(m);
                                acc.push(ch);
                                accs.insert(m, acc);
                                proof {
                                    assert(accs@ =~= before.update(m as int, acc));
                                }
                            }
                            m += 1;
                        }
                        proof {
                            assert(cs.take(i + 1) =~= cs.take(i as int).push(cs[i as int]));
                            assert forall|k: int| 0 <= k < fseq.len() implies extract_handles(
                                arena@,
                                (#[trigger] accs@[k])@,
                            ) == built_for_name(cs.take(i + 1), fseq[k].name, tm) by {
                                lemma_built_for_name_push(
                                    cs.take(i as int),
                                    cs[i as int],
                                    fseq[k].name,
                                    tm,
                                );
                                if fseq[k].name == cs[i as int].rule {
                                    assert(build_ok(cs[i as int], tm) == extract_node(
                                        arena@,
                                        ch as int,
                                    ));
                                    assert(extract_handles(arena@, accs@[k]@) =~= extract_handles(
                                        arena@,
                                        accs0[k]@,
                                    ).push(extract_node(arena@, ch as int)));
                                    assert(built_for_name(cs.take(i + 1), fseq[k].name, tm)
                                        =~= built_for_name(cs.take(i as int), fseq[k].name, tm)
                                        + seq![build_ok(cs[i as int], tm)]);
                                    assert(extract_handles(arena@, accs0[k]@).push(
                                        extract_node(arena@, ch as int),
                                    ) =~= extract_handles(mid0, accs0[k]@) + seq![
                                        build_ok(cs[i as int], tm),
                                    ]);
                                } else {
                                    assert(built_for_name(cs.take(i + 1), fseq[k].name, tm)
                                        =~= built_for_name(cs.take(i as int), fseq[k].name, tm));
                                }
                            }
                        }
                    },
                }
            },
        }
        i += 1;
    }
    proof {
        assert(cs.skip(cs.len() as int) =~= Seq::<UntypedNode>::empty());
        assert(first_child_error(cs, expected, fseq, tm) is None);
        assert(cs.take(cs.len() as int) =~= cs);
        assert(fseq.skip(0) =~= fseq);
    }
    let ghost arena1 = arena@;
    let mut bindings: Vec<FieldBinding> = Vec::new();
    let mut j2: usize = 0;
    while j2 < fields.len()
        invariant
            j2 <= fseq.len(),
            cs == node.children@,
            node.rule == expected,
            fseq == fields@,
            tm == table@,
            lookup_model(tm, expected) == Some(ClassificationModel::Structure { fields: fseq }),
            first_child_error(cs, expected, fseq, tm) is None,
            arena@ == arena1,
            arena.wf(),
            old(arena)@.len() <= arena1.len(),
            arena1.subrange(0, old(arena)@.len() as int) == old(arena)@,
            accs@.len() == fseq.len() - j2,
            forall|k: int, x: int|
                0 <= k < accs@.len() && 0 <= x < accs@[k]@.len() ==> #[trigger] accs@[k]@[x]
                    < arena1.len(),
            forall|k: int|
                0 <= k < accs@.len() ==> extract_handles(arena1, (#[trigger] accs@[k])@)
                    == built_for_name(cs, fseq[j2 + k].name, tm),
            first_arity_error(fseq, cs, expected) == first_arity_error(
                fseq.skip(j2 as int),
                cs,
                expected,
            ),
            bindings@.len() == j2,
            forall|k: int|
                0 <= k < j2 ==> slot_bounded((#[trigger] bindings@[k]).slot, arena1.len() as int),
            forall|k: int|
                0 <= k < j2 ==> extract_field(arena1, #[trigger] bindings@[k], arena1.len() as int)
                    == (FieldModel {
                    name: fseq[k].name,
                    card: fseq[k].card,
                    values: built_for_name(cs, fseq[k].name, tm),
                }),
        decreases fseq.len() - j2,
    {
        proof {
            assert(fseq.skip(j2 as int)[0] == fseq[j2 as int]);
            assert(fseq.skip(j2 as int).drop_first() =~= fseq.skip(j2 + 1));
        }
        let ghost accs_before = accs@;
        let acc = accs.remove(0);
        proof {
            assert(accs@ =~= accs_before.drop_first());
            assert(forall|k: int| 0 <= k < accs@.len() ==> #[trigger] accs@[k] == accs_before[k
                + 1]);
            lemma_built_count(cs, fseq[j2 as int].name, tm);
            assert(extract_handles(arena1, acc@) == built_for_name(cs, fseq[j2 as int].name, tm));
            assert(acc@.len() == extract_handles(arena1, acc@).len());
            assert(acc@.len() == count_for_name(cs, fseq[j2 as int].name));
        }
        let f = fields[j2];
        let ghost values = built_for_name(cs, fseq[j2 as int].name, tm);
        let slot = match f.card {
            Cardinality::One => {
                if acc.len() != 1 {
                    return Err(
                        BuildError::ArityViolation {
                            rule: expected,
                            field: f.name,
                            declared: f.card,
                            actual: acc.len(),
                        },
                    );
                }
                proof {
                    assert(values =~= seq![extract_node(arena1, acc@[0] as int)]);
                }
                FieldSlot::One(acc[0])
            },
            Cardinality::Optional => {
                if acc.len() > 1 {
                    return Err(
                        BuildError::ArityViolation {
                            rule: expected,
                            field: f.name,
                            declared: f.card,
                            actual: acc.len(),
                        },
                    );
                }
                if acc.len() == 0 {
                    proof {
                        assert(values =~= Seq::<TreeModel>::empty());
                    }
                    FieldSlot::Optional(None)
                } else {
                    proof {
                        assert(values =~= seq![extract_node(arena1, acc@[0] as int)]);
                    }
                    FieldSlot::Optional(Some(acc[0]))
                }
            },
            Cardinality::Many => {
                proof {
                    lemma_extract_list_is_handles(arena1, acc@, arena1.len() as int);
                }
                FieldSlot::Many(acc)
            },
        };
        bindings.push(FieldBinding { name: f.name, slot });
        j2 += 1;
    }
    proof {
        assert(fseq.skip(fseq.len() as int) =~= Seq::<Field>::empty());
        assert(first_arity_error(fseq, cs, expected) is None);
    }
    let ghost bs = bindings@;
    let h = arena.allocate(
        TypedNode::Structure {
            rule: expected,
            start: node.start,
            end: node.end,
            fields: bindings,
        },
    );
    proof {
        assert(arena@.subrange(0, arena1.len() as int) =~= arena1);
        lemma_prefix_trans(old(arena)@, arena1, arena@);
        assert(bs.len() == fseq.len());
        assert forall|k: int| 0 <= k < fseq.len() implies extract_field(arena@, bs[k], h as int)
            == (FieldModel {
            name: fseq[k].name,
            card: fseq[k].card,
            values: built_for_name(cs, fseq[k].name, tm),
        }) by {
            crate::tree::lemma_extract_field_prefix(arena1, arena@, bs[k], h as int);
        }
        lemma_extract_fields_elementwise(arena@, bs, h as int);
        lemma_fields_model_elementwise(fseq, cs, tm);
        assert(extract_fields(arena@, bs, h as int) =~= fields_model(fseq, cs, tm));
        assert(extract_node(arena@, h as int) == (TreeModel::Structure {
            rule: expected,
            start: node.start,
            end: node.end,
            fields: fields_model(fseq, cs, tm),
        }));
    }
    Ok(h)
}

} // verus!
