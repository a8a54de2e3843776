//! The typed tree: arena-resident nodes mirroring the rule
//! classifications, with arena-scoped handles in place of ownership
//! cycles, and the mathematical model of the tree a handle denotes.

use vstd::prelude::*;

use crate::expr::Cardinality;

verus! {

/// A failure of one typed-tree construction pass. All four kinds signal
/// that the untyped input and the compiled schema disagree.
#[derive(Clone, Copy, PartialEq, Eq, Structural, Debug)]
pub enum BuildError {
    /// The builder was invoked against an untyped node whose rule
    /// identity differs from the expected rule.
    RuleMismatch { expected: u64, actual: u64 },
    /// An untyped node's child carries a rule identity not declared as a
    /// field or variant of the enclosing rule; names the enclosing rule
    /// and the encountered identity.
    UnexpectedChild { rule: u64, child: u64 },
    /// A field's realized occurrence count violates its declared
    /// cardinality; names the enclosing rule, the field, the declared
    /// cardinality, and the realized count. An enumeration node that does
    /// not hold exactly one child reports the enclosing rule itself as
    /// the field.
    ArityViolation { rule: u64, field: u64, declared: Cardinality, actual: usize },
}

/// The realized value of one declared field of a structure node: a
/// single child handle, an optional child handle, or an ordered list of
/// child handles.
#[derive(Debug, PartialEq, Eq)]
pub enum FieldSlot {
    One(usize),
    Optional(Option<usize>),
    Many(Vec<usize>),
}

/// One declared field of a structure node with its realized slot.
#[derive(Debug, PartialEq, Eq)]
pub struct FieldBinding {
    pub name: u64,
    pub slot: FieldSlot,
}

/// One arena-resident typed node; children are handles into the same
/// arena.
#[derive(Debug, PartialEq, Eq)]
pub enum TypedNode {
    /// A leaf: the source span of the matched text, kept verbatim.
    Atomic { rule: u64, start: usize, end: usize },
    /// A choice rule's node: the discriminant naming which variant
    /// matched, and the one child.
    Enumeration { rule: u64, variant: u64, child: usize },
    /// A structured rule's node: its own span and one slot per declared
    /// field, in field order.
    Structure { rule: u64, start: usize, end: usize, fields: Vec<FieldBinding> },
}

/// The mathematical value of the subtree a handle denotes, with handles
/// resolved away.
pub enum TreeModel {
    Atomic { rule: u64, start: usize, end: usize },
    Enumeration { rule: u64, variant: u64, child: Box<TreeModel> },
    Structure { rule: u64, start: usize, end: usize, fields: Seq<FieldModel> },
}

/// The mathematical value of one field of a structure node: the values
/// that arrived for it, in arrival order, under its cardinality.
pub struct FieldModel {
    pub name: u64,
    pub card: Cardinality,
    pub values: Seq<TreeModel>,
}

/// Whether a slot references only handles below `bound`.
pub open spec fn slot_bounded(s: FieldSlot, bound: int) -> bool {
    match s {
        FieldSlot::One(h) => h < bound,
        FieldSlot::Optional(oh) => match oh {
            Some(h) => h < bound,
            None => true,
        },
        FieldSlot::Many(hs) => forall|k: int| 0 <= k < hs@.len() ==> hs@[k] < bound,
    }
}

/// Whether a node references only handles below `bound`.
pub open spec fn node_bounded(n: TypedNode, bound: int) -> bool {
    match n {
        TypedNode::Atomic { .. } => true,
        TypedNode::Enumeration { child, .. } => child < bound,
        TypedNode::Structure { fields, .. } => forall|k: int|
            0 <= k < fields@.len() ==> slot_bounded((#[trigger] fields@[k]).slot, bound),
    }
}

/// Whether every node of the arena references only earlier handles:
/// node ownership is acyclic and flat.
pub open spec fn arena_wf(nodes: Seq<TypedNode>) -> bool {
    forall|i: int| 0 <= i < nodes.len() ==> node_bounded(#[trigger] nodes[i], i)
}

/// The subtree that handle `h` denotes in `nodes`.
pub open spec fn extract_node(nodes: Seq<TypedNode>, h: int) -> TreeModel
    decreases h, 3int, 0int,
{
    if 0 <= h < nodes.len() {
        match nodes[h] {
            TypedNode::Atomic { rule, start, end } => TreeModel::Atomic { rule, start, end },
            TypedNode::Enumeration { rule, variant, child } => if child < h {
                TreeModel::Enumeration {
                    rule,
                    variant,
                    child: Box::new(extract_node(nodes, child as int)),
                }
            } else {
                arbitrary()
            },
            TypedNode::Structure { rule, start, end, fields } => TreeModel::Structure {
                rule,
                start,
                end,
                fields: extract_fields(nodes, fields@, h),
            },
        }
    } else {
        arbitrary()
    }
}

/// The field values that a structure node's bindings denote; `h` is the
/// node's own handle, bounding every child handle.
pub open spec fn extract_fields(nodes: Seq<TypedNode>, fs: Seq<FieldBinding>, h: int) -> Seq<
    FieldModel,
>
    decreases h, 2int, fs.len(),
{
    if fs.len() == 0 {
        Seq::empty()
    } else {
        seq![extract_field(nodes, fs[0], h)] + extract_fields(nodes, fs.drop_first(), h)
    }
}

/// The value of one field binding.
pub open spec fn extract_field(nodes: Seq<TypedNode>, f: FieldBinding, h: int) -> FieldModel
    decreases h, 1int, 0int,
{
    match f.slot {
        FieldSlot::One(c) => FieldModel {
            name: f.name,
            card: Cardinality::One,
            values: if c < h {
                seq![extract_node(nodes, c as int)]
            } else {
                arbitrary()
            },
        },
        FieldSlot::Optional(oc) => FieldModel {
            name: f.name,
            card: Cardinality::Optional,
            values: match oc {
                Some(c) => if c < h {
                    seq![extract_node(nodes, c as int)]
                } else {
                    arbitrary()
                },
                None => Seq::empty(),
            },
        },
        FieldSlot::Many(cs) => FieldModel {
            name: f.name,
            card: Cardinality::Many,
            values: extract_list(nodes, cs@, h),
        },
    }
}

/// The values that a list of child handles denotes, in order.
pub open spec fn extract_list(nodes: Seq<TypedNode>, hs: Seq<usize>, h: int) -> Seq<TreeModel>
    decreases h, 0int, hs.len(),
{
    if hs.len() == 0 {
        Seq::empty()
    } else {
        (if hs[0] < h {
            seq![extract_node(nodes, hs[0] as int)]
        } else {
            arbitrary()
        }) + extract_list(nodes, hs.drop_first(), h)
    }
}

/// Extending the arena never changes the subtree an existing handle
/// denotes.
pub proof fn lemma_extract_node_frame(nodes: Seq<TypedNode>, ext: Seq<TypedNode>, h: int)
    requires
        arena_wf(nodes),
        0 <= h < nodes.len(),
    ensures
        extract_node(nodes + ext, h) == extract_node(nodes, h),
    decreases h, 3int, 0int,
{
    assert((nodes + ext)[h] == nodes[h]);
    assert(node_bounded(nodes[h], h));
    match nodes[h] {
        TypedNode::Atomic { .. } => {},
        TypedNode::Enumeration { child, .. } => {
            lemma_extract_node_frame(nodes, ext, child as int);
        },
        TypedNode::Structure { fields, .. } => {
            lemma_extract_fields_frame(nodes, ext, fields@, h);
        },
    }
}

/// Frame property for a structure node's field bindings.
proof fn lemma_extract_fields_frame(
    nodes: Seq<TypedNode>,
    ext: Seq<TypedNode>,
    fs: Seq<FieldBinding>,
    h: int,
)
    requires
        arena_wf(nodes),
        0 <= h <= nodes.len(),
        forall|k: int| 0 <= k < fs.len() ==> slot_bounded((#[trigger] fs[k]).slot, h),
    ensures
        extract_fields(nodes + ext, fs, h) == extract_fields(nodes, fs, h),
    decreases h, 2int, fs.len(),
{
    if fs.len() > 0 {
        assert(slot_bounded(fs[0].slot, h));
        lemma_extract_field_frame(nodes, ext, fs[0], h);
        assert(forall|k: int|
            0 <= k < fs.drop_first().len() ==> slot_bounded(
                (#[trigger] fs.drop_first()[k]).slot,
                h,
            )) by {
            assert(forall|k: int|
                0 <= k < fs.drop_first().len() ==> fs.drop_first()[k] == fs[k + 1]);
        }
        lemma_extract_fields_frame(nodes, ext, fs.drop_first(), h);
    }
}

/// Frame property for one field binding.
proof fn lemma_extract_field_frame(
    nodes: Seq<TypedNode>,
    ext: Seq<TypedNode>,
    f: FieldBinding,
    h: int,
)
    requires
        arena_wf(nodes),
        0 <= h <= nodes.len(),
        slot_bounded(f.slot, h),
    ensures
        extract_field(nodes + ext, f, h) == extract_field(nodes, f, h),
    decreases h, 1int, 0int,
{
    match f.slot {
        FieldSlot::One(c) => {
            lemma_extract_node_frame(nodes, ext, c as int);
        },
        FieldSlot::Optional(oc) => {
            match oc {
                Some(c) => {
                    lemma_extract_node_frame(nodes, ext, c as int);
                },
                None => {},
            }
        },
        FieldSlot::Many(cs) => {
            lemma_extract_list_frame(nodes, ext, cs@, h);
        },
    }
}

/// Frame property for a list of child handles.
proof fn lemma_extract_list_frame(
    nodes: Seq<TypedNode>,
    ext: Seq<TypedNode>,
    hs: Seq<usize>,
    h: int,
)
    requires
        arena_wf(nodes),
        0 <= h <= nodes.len(),
        forall|k: int| 0 <= k < hs.len() ==> hs[k] < h,
    ensures
        extract_list(nodes + ext, hs, h) == extract_list(nodes, hs, h),
    decreases h, 0int, hs.len(),
{
    if hs.len() > 0 {
        lemma_extract_node_frame(nodes, ext, hs[0] as int);
        assert(forall|k: int| 0 <= k < hs.drop_first().len() ==> hs.drop_first()[k] < h) by {
            assert(forall|k: int| 0 <= k < hs.drop_first().len() ==> hs.drop_first()[k] == hs[k
                + 1]);
        }
        lemma_extract_list_frame(nodes, ext, hs.drop_first(), h);
    }
}

/// Frame property for one field binding, restated over a prefix: with
/// the bound at most the prefix's length, the binding denotes the same
/// value in the grown arena.
pub proof fn lemma_extract_field_prefix(
    small: Seq<TypedNode>,
    big: Seq<TypedNode>,
    f: FieldBinding,
    h: int,
)
    requires
        arena_wf(small),
        small.len() <= big.len(),
        big.subrange(0, small.len() as int) == small,
        0 <= h <= small.len(),
        slot_bounded(f.slot, h),
    ensures
        extract_field(big, f, h) == extract_field(small, f, h),
{
    assert(big =~= small + big.skip(small.len() as int));
    lemma_extract_field_frame(small, big.skip(small.len() as int), f, h);
}

/// Extending the arena, restated over a prefix: a handle of the prefix
/// denotes the same subtree in the grown arena.
pub proof fn lemma_extract_node_prefix(small: Seq<TypedNode>, big: Seq<TypedNode>, h: int)
    requires
        arena_wf(small),
        small.len() <= big.len(),
        big.subrange(0, small.len() as int) == small,
        0 <= h < small.len(),
    ensures
        extract_node(big, h) == extract_node(small, h),
{
    assert(big =~= small + big.skip(small.len() as int));
    lemma_extract_node_frame(small, big.skip(small.len() as int), h);
}

/// The source span a typed tree denotes: its own for atomic and
/// structure nodes, its variant's for an enumeration node.
pub open spec fn span_model(m: TreeModel) -> (usize, usize)
    decreases m,
{
    match m {
        TreeModel::Atomic { start, end, .. } => (start, end),
        TreeModel::Enumeration { child, .. } => span_model(*child),
        TreeModel::Structure { start, end, .. } => (start, end),
    }
}

/// A scoped allocation region owning every typed node built during one
/// or more construction passes; a handle is an index into it, and all
/// nodes are released together when the arena is dropped.
pub struct Arena {
    nodes: Vec<TypedNode>,
}

impl View for Arena {
    type V = Seq<TypedNode>;

    closed spec fn view(&self) -> Seq<TypedNode> {
        self.nodes@
    }
}

impl Arena {
    /// Whether every node references only earlier handles.
    pub open spec fn wf(&self) -> bool {
        arena_wf(self@)
    }

    /// An empty arena.
    pub fn new() -> (a: Arena)
        ensures
            a@ == Seq::<TypedNode>::empty(),
            a.wf(),
    {
        Arena { nodes: Vec::new() }
    }

    /// How many nodes the arena holds.
    pub fn len(&self) -> (n: usize)
        ensures
            n == self@.len(),
    {
        self.nodes.len()
    }

    /// Allocates one node and returns its handle. The node may reference
    /// only handles already allocated, which keeps ownership acyclic.
    pub fn allocate(&mut self, node: TypedNode) -> (h: usize)
        requires
            node_bounded(node, old(self)@.len() as int),
        ensures
            final(self)@ == old(self)@.push(node),
            h == old(self)@.len(),
            old(self).wf() ==> final(self).wf(),
    {
        let h = self.nodes.len();
        self.nodes.push(node);
        proof {
            if arena_wf(old(self)@) {
                assert(forall|i: int|
                    0 <= i < final(self)@.len() ==> node_bounded(#[trigger] final(self)@[i], i))
                    by {
                    assert(forall|i: int|
                        0 <= i < old(self)@.len() ==> final(self)@[i] == old(self)@[i]);
                }
            }
        }
        h
    }

    /// The node a handle denotes.
    pub fn node(&self, h: usize) -> (n: &TypedNode)
        requires
            h < self@.len(),
        ensures
            *n == self@[h as int],
    {
        &self.nodes[h]
    }

    /// The source span of the subtree a handle denotes; an enumeration
    /// node answers with its variant's span.
    pub fn span_of(&self, h: usize) -> (r: (usize, usize))
        requires
            self.wf(),
            h < self@.len(),
        ensures
            r == span_model(extract_node(self@, h as int)),
        decreases h,
    {
        proof {
            assert(node_bounded(self@[h as int], h as int));
        }
        match self.node(h) {
            TypedNode::Atomic { start, end, .. } => (*start, *end),
            TypedNode::Enumeration { child, .. } => self.span_of(*child),
            TypedNode::Structure { start, end, .. } => (*start, *end),
        }
    }

    /// Discards every node from handle `len` upward; handles below stay.
    pub fn truncate(&mut self, len: usize)
        requires
            len <= old(self)@.len(),
        ensures
            final(self)@ == old(self)@.subrange(0, len as int),
            old(self).wf() ==> final(self).wf(),
    {
        self.nodes.truncate(len);
        proof {
            if arena_wf(old(self)@) {
                assert(forall|i: int|
                    0 <= i < final(self)@.len() ==> node_bounded(#[trigger] final(self)@[i], i))
                    by {
                    assert(forall|i: int|
                        0 <= i < final(self)@.len() ==> final(self)@[i] == old(self)@[i]);
                }
            }
        }
    }
}

} // verus!
