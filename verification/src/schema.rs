//! Schema derivation: classifies each grammar rule as atomic, enumeration
//! or structure, and infers per-field cardinalities by walking the rule's
//! expression tree.

use vstd::prelude::*;

use crate::expr::{Cardinality, Field, GrammarRule, RuleExpr};

verus! {

broadcast use vstd::seq_lib::group_seq_properties;

/// The failure surfaced when a rule body uses an expression shape that
/// schema derivation does not support; it names the offending rule.
#[derive(Clone, Copy, PartialEq, Eq, Structural, Debug)]
pub enum SchemaError {
    UnsupportedGrammarConstruct { rule: u64 },
}

/// The derived classification of one rule.
#[derive(Debug, PartialEq, Eq)]
pub enum RuleClassification {
    /// The rule is a leaf; its matched span is kept verbatim.
    Atomic,
    /// A dedicated choice rule: the ordered list of variant rule names.
    Enumeration { variants: Vec<u64> },
    /// A structured rule: fields ordered by first appearance, each with
    /// its inferred cardinality.
    Structure { fields: Vec<Field> },
}

/// The mathematical value of a classification, with mathematical sequences
/// in place of vectors.
pub enum ClassificationModel {
    Atomic,
    Enumeration { variants: Seq<u64> },
    Structure { fields: Seq<Field> },
}

impl View for RuleClassification {
    type V = ClassificationModel;

    open spec fn view(&self) -> ClassificationModel {
        match self {
            RuleClassification::Atomic => ClassificationModel::Atomic,
            RuleClassification::Enumeration { variants } => ClassificationModel::Enumeration {
                variants: variants@,
            },
            RuleClassification::Structure { fields } => ClassificationModel::Structure {
                fields: fields@,
            },
        }
    }
}

/// One classified rule of the schema table.
#[derive(Debug, PartialEq, Eq)]
pub struct SchemaEntry {
    pub name: u64,
    pub classification: RuleClassification,
}

/// The mathematical value of one schema table entry.
pub struct EntryModel {
    pub name: u64,
    pub classification: ClassificationModel,
}

impl View for SchemaEntry {
    type V = EntryModel;

    open spec fn view(&self) -> EntryModel {
        EntryModel { name: self.name, classification: self.classification@ }
    }
}

/// The names of the rules that the grammar marks silent.
pub open spec fn silent_names(rules: Seq<GrammarRule>) -> Set<u64> {
    Set::new(|n: u64| exists|i: int| 0 <= i < rules.len() && rules[i].silent && rules[i].name == n)
}

/// Whether a field named `n` appears in `fs`.
pub open spec fn has_name(fs: Seq<Field>, n: u64) -> bool {
    exists|i: int| 0 <= i < fs.len() && fs[i].name == n
}

/// How one left-hand field of a sequence merge comes out: a name present
/// on both sides, or already `Many`, becomes `Many`; otherwise it keeps
/// its cardinality.
pub open spec fn merge_entry(f: Field, other: Seq<Field>) -> Field {
    if f.card is Many || has_name(other, f.name) {
        Field { name: f.name, card: Cardinality::Many }
    } else {
        f
    }
}

/// The left side of a sequence merge: each field, promoted per
/// `merge_entry` against the right side.
pub open spec fn merged_left(a: Seq<Field>, b: Seq<Field>) -> Seq<Field> {
    Seq::new(a.len(), |i: int| merge_entry(a[i], b))
}

/// The right side's fields whose names the left side does not hold, in
/// their own order and with their own cardinalities.
pub open spec fn new_right(a: Seq<Field>, b: Seq<Field>) -> Seq<Field>
    decreases b.len(),
{
    if b.len() == 0 {
        Seq::empty()
    } else if has_name(a, b[0].name) {
        new_right(a, b.drop_first())
    } else {
        seq![b[0]] + new_right(a, b.drop_first())
    }
}

/// Merges the field maps of the two sides of a sequence, keeping order of
/// first appearance: the left side's fields (promoted to `Many` where the
/// right side repeats them or they already were `Many`), then the right
/// side's new fields.
pub open spec fn merge_fields(a: Seq<Field>, b: Seq<Field>) -> Seq<Field> {
    merged_left(a, b) + new_right(a, b)
}

/// What demotion under `Optional` does to one field: `One` becomes
/// `Optional`; `Many` stays `Many`, since an empty collection already
/// represents absence.
pub open spec fn demote_entry(f: Field) -> Field {
    if f.card is One {
        Field { name: f.name, card: Cardinality::Optional }
    } else {
        f
    }
}

/// Demotes every `One` field to `Optional`.
pub open spec fn demote_optional(fs: Seq<Field>) -> Seq<Field> {
    Seq::new(fs.len(), |i: int| demote_entry(fs[i]))
}

/// Forces every field to `Many`.
pub open spec fn force_many(fs: Seq<Field>) -> Seq<Field> {
    Seq::new(fs.len(), |i: int| Field { name: fs[i].name, card: Cardinality::Many })
}

/// The field-cardinality map of a structured rule body, or `None` where
/// the body uses a shape with no defined cardinality rule (a literal, or
/// a choice nested inside a structure body).
pub open spec fn fields_of(e: RuleExpr, silent: Set<u64>) -> Option<Seq<Field>>
    decreases e,
{
    match e {
        RuleExpr::Reference(n) => if silent.contains(n) {
            Some(Seq::empty())
        } else {
            Some(seq![Field { name: n, card: Cardinality::One }])
        },
        RuleExpr::Sequence(a, b) => match (fields_of(*a, silent), fields_of(*b, silent)) {
            (Some(x), Some(y)) => Some(merge_fields(x, y)),
            _ => None,
        },
        RuleExpr::Optional(inner) => match fields_of(*inner, silent) {
            Some(fs) => Some(demote_optional(fs)),
            None => None,
        },
        RuleExpr::Repeated(inner) => match fields_of(*inner, silent) {
            Some(fs) => Some(force_many(fs)),
            None => None,
        },
        _ => None,
    }
}

/// The flattened variant list of a choice rule body, or `None` where a
/// leaf arm is anything but a reference. References to silent rules are
/// skipped.
pub open spec fn variants_of(e: RuleExpr, silent: Set<u64>) -> Option<Seq<u64>>
    decreases e,
{
    match e {
        RuleExpr::Reference(n) => if silent.contains(n) {
            Some(Seq::empty())
        } else {
            Some(seq![n])
        },
        RuleExpr::Choice(a, b) => match (variants_of(*a, silent), variants_of(*b, silent)) {
            (Some(x), Some(y)) => Some(x + y),
            _ => None,
        },
        _ => None,
    }
}

/// The classification of one non-silent rule, per the derivation
/// algorithm: atomic rules and bare literals are `Atomic`; a top-level
/// choice becomes an `Enumeration` and must keep at least two resolvable
/// variants; everything else folds into a `Structure` field map.
pub open spec fn classify_spec(r: GrammarRule, silent: Set<u64>) -> Result<
    ClassificationModel,
    SchemaError,
> {
    if r.atomic || r.expr is Literal {
        Ok(ClassificationModel::Atomic)
    } else if r.expr is Choice {
        match variants_of(r.expr, silent) {
            Some(vs) => if vs.len() >= 2 {
                Ok(ClassificationModel::Enumeration { variants: vs })
            } else {
                Err(SchemaError::UnsupportedGrammarConstruct { rule: r.name })
            },
            None => Err(SchemaError::UnsupportedGrammarConstruct { rule: r.name }),
        }
    } else {
        match fields_of(r.expr, silent) {
            Some(fs) => Ok(ClassificationModel::Structure { fields: fs }),
            None => Err(SchemaError::UnsupportedGrammarConstruct { rule: r.name }),
        }
    }
}

/// Classifies every non-silent rule in order; the first failure abandons
/// the whole derivation.
pub open spec fn classify_all(rules: Seq<GrammarRule>, silent: Set<u64>) -> Result<
    Seq<EntryModel>,
    SchemaError,
> decreases rules.len(),
{
    if rules.len() == 0 {
        Ok(Seq::empty())
    } else if rules[0].silent {
        classify_all(rules.drop_first(), silent)
    } else {
        match classify_spec(rules[0], silent) {
            Ok(c) => match classify_all(rules.drop_first(), silent) {
                Ok(t) => Ok(
                    seq![EntryModel { name: rules[0].name, classification: c }] + t,
                ),
                Err(e) => Err(e),
            },
            Err(e) => Err(e),
        }
    }
}

/// Whether the table holds an entry named `n`.
pub open spec fn table_contains(t: Seq<EntryModel>, n: u64) -> bool {
    exists|i: int| 0 <= i < t.len() && t[i].name == n
}

/// The classification of the first entry named `n`, if any.
pub open spec fn lookup_model(t: Seq<EntryModel>, n: u64) -> Option<ClassificationModel>
    decreases t.len(),
{
    if t.len() == 0 {
        None
    } else if t[0].name == n {
        Some(t[0].classification)
    } else {
        lookup_model(t.drop_first(), n)
    }
}

/// The names a classification mentions: its variants, or its fields'
/// names.
pub open spec fn names_of(c: ClassificationModel) -> Seq<u64> {
    match c {
        ClassificationModel::Atomic => Seq::empty(),
        ClassificationModel::Enumeration { variants } => variants,
        ClassificationModel::Structure { fields } => Seq::new(fields.len(), |i: int| fields[i].name),
    }
}

/// Whether the table holds an entry for each of the names.
pub open spec fn all_contained(t: Seq<EntryModel>, ns: Seq<u64>) -> bool
    decreases ns.len(),
{
    if ns.len() == 0 {
        true
    } else {
        table_contains(t, ns[0]) && all_contained(t, ns.drop_first())
    }
}

/// Whether every name a classification mentions is a key of the table.
pub open spec fn entry_resolved(t: Seq<EntryModel>, c: ClassificationModel) -> bool {
    all_contained(t, names_of(c))
}

/// Each name of a wholly contained name list is a key of the table.
pub proof fn lemma_all_contained_index(t: Seq<EntryModel>, ns: Seq<u64>, k: int)
    requires
        all_contained(t, ns),
        0 <= k < ns.len(),
    ensures
        table_contains(t, ns[k]),
    decreases ns.len(),
{
    if k > 0 {
        lemma_all_contained_index(t, ns.drop_first(), k - 1);
    }
}

/// Whether every entry of the table resolves against the table itself.
pub open spec fn table_resolved(t: Seq<EntryModel>) -> bool {
    forall|i: int| 0 <= i < t.len() ==> entry_resolved(t, #[trigger] t[i].classification)
}

/// The name of the first entry of `t` whose classification mentions a
/// name absent from `full`, if any.
pub open spec fn first_unresolved(t: Seq<EntryModel>, full: Seq<EntryModel>) -> Option<u64>
    decreases t.len(),
{
    if t.len() == 0 {
        None
    } else if !entry_resolved(full, t[0].classification) {
        Some(t[0].name)
    } else {
        first_unresolved(t.drop_first(), full)
    }
}

/// What schema derivation returns for a whole grammar: the classified
/// table where every referenced name resolves, else the first failure.
pub open spec fn derive_schema_spec(rules: Seq<GrammarRule>) -> Result<
    Seq<EntryModel>,
    SchemaError,
> {
    match classify_all(rules, silent_names(rules)) {
        Ok(t) => match first_unresolved(t, t) {
            None => Ok(t),
            Some(n) => Err(SchemaError::UnsupportedGrammarConstruct { rule: n }),
        },
        Err(e) => Err(e),
    }
}

/// Whether the grammar marks a rule named `n` silent.
fn name_is_silent(rules: &Vec<GrammarRule>, n: u64) -> (r: bool)
    ensures
        r == silent_names(rules@).contains(n),
{
    let mut i: usize = 0;
    while i < rules.len()
        invariant
            i <= rules@.len(),
            forall|k: int| 0 <= k < i ==> !(rules@[k].silent && rules@[k].name == n),
        decreases rules@.len() - i,
    {
        if rules[i].silent && rules[i].name == n {
            assert(rules@[i as int].silent && rules@[i as int].name == n);
            return true;
        }
        i += 1;
    }
    false
}

/// Whether a field named `n` appears in `fs`.
fn contains_name(fs: &Vec<Field>, n: u64) -> (r: bool)
    ensures
        r == has_name(fs@, n),
{
    let mut i: usize = 0;
    while i < fs.len()
        invariant
            i <= fs@.len(),
            forall|k: int| 0 <= k < i ==> fs@[k].name != n,
        decreases fs@.len() - i,
    {
        if fs[i].name == n {
            assert(fs@[i as int].name == n);
            return true;
        }
        i += 1;
    }
    false
}

/// Merges the field maps of the two sides of a sequence.
fn merge_field_vecs(a: &Vec<Field>, b: &Vec<Field>) -> (r: Vec<Field>)
    ensures
        r@ == merge_fields(a@, b@),
{
    let mut r: Vec<Field> = Vec::new();
    let mut i: usize = 0;
    while i < a.len()
        invariant
            i <= a@.len(),
            r@ == merged_left(a@, b@).take(i as int),
        decreases a@.len() - i,
    {
        let f = a[i];
        let promoted = matches!(f.card, Cardinality::Many) || contains_name(b, f.name);
        let g = if promoted {
            Field { name: f.name, card: Cardinality::Many }
        } else {
            f
        };
        proof {
            assert(g == merge_entry(a@[i as int], b@));
            assert(merged_left(a@, b@).take(i + 1) =~= merged_left(a@, b@).take(i as int).push(
                merge_entry(a@[i as int], b@),
            ));
        }
        r.push(g);
        i += 1;
    }
    proof {
        assert(merged_left(a@, b@).take(a@.len() as int) =~= merged_left(a@, b@));
    }
    let mut j: usize = 0;
    while j < b.len()
        invariant
            j <= b@.len(),
            r@ + new_right(a@, b@.skip(j as int)) == merge_fields(a@, b@),
        decreases b@.len() - j,
    {
        let f = b[j];
        proof {
            assert(b@.skip(j as int)[0] == b@[j as int]);
            assert(b@.skip(j as int).drop_first() =~= b@.skip(j + 1));
        }
        if !contains_name(a, f.name) {
            proof {
                assert(r@ + new_right(a@, b@.skip(j as int)) =~= r@.push(b@[j as int])
                    + new_right(a@, b@.skip(j + 1)));
            }
            r.push(f);
        }
        j += 1;
    }
    proof {
        assert(b@.skip(b@.len() as int) =~= Seq::<Field>::empty());
        assert(r@ + new_right(a@, b@.skip(b@.len() as int)) =~= r@);
    }
    r
}

/// Demotes every `One` field to `Optional`.
fn demote_field_vec(fs: &Vec<Field>) -> (r: Vec<Field>)
    ensures
        r@ == demote_optional(fs@),
{
    let mut r: Vec<Field> = Vec::new();
    let mut i: usize = 0;
    while i < fs.len()
        invariant
            i <= fs@.len(),
            r@.len() == i,
            forall|k: int| 0 <= k < i ==> r@[k] == demote_entry(fs@[k]),
        decreases fs@.len() - i,
    {
        let f = fs[i];
        let g = if matches!(f.card, Cardinality::One) {
            Field { name: f.name, card: Cardinality::Optional }
        } else {
            f
        };
        assert(g == demote_entry(fs@[i as int]));
        r.push(g);
        i += 1;
    }
    proof {
        assert(r@ =~= demote_optional(fs@));
    }
    r
}

/// Forces every field to `Many`.
fn force_field_vec(fs: &Vec<Field>) -> (r: Vec<Field>)
    ensures
        r@ == force_many(fs@),
{
    let mut r: Vec<Field> = Vec::new();
    let mut i: usize = 0;
    while i < fs.len()
        invariant
            i <= fs@.len(),
            r@.len() == i,
            forall|k: int| 0 <= k < i ==> r@[k] == (Field {
                name: fs@[k].name,
                card: Cardinality::Many,
            }),
        decreases fs@.len() - i,
    {
        let f = fs[i];
        r.push(Field { name: f.name, card: Cardinality::Many });
        i += 1;
    }
    proof {
        assert(r@ =~= force_many(fs@));
    }
    r
}

/// Folds a structured rule body into its field-cardinality map, or `None`
/// where the body uses a shape with no defined cardinality rule.
fn compute_fields(e: &RuleExpr, rules: &Vec<GrammarRule>) -> (r: Option<Vec<Field>>)
    ensures
        match r {
            Some(v) => fields_of(*e, silent_names(rules@)) == Some(v@),
            None => fields_of(*e, silent_names(rules@)) is None,
        },
    decreases *e,
{
    match e {
        RuleExpr::Literal => None,
        RuleExpr::Reference(n) => {
            if name_is_silent(rules, *n) {
                let v: Vec<Field> = Vec::new();
                assert(v@ =~= Seq::<Field>::empty());
                Some(v)
            } else {
                let mut v: Vec<Field> = Vec::new();
                v.push(Field { name: *n, card: Cardinality::One });
                assert(v@ =~= seq![Field { name: *n, card: Cardinality::One }]);
                Some(v)
            }
        },
        RuleExpr::Sequence(a, b) => {
            match compute_fields(&**a, rules) {
                Some(x) => match compute_fields(&**b, rules) {
                    Some(y) => Some(merge_field_vecs(&x, &y)),
                    None => None,
                },
                None => None,
            }
        },
        RuleExpr::Optional(inner) => {
            match compute_fields(&**inner, rules) {
                Some(fs) => Some(demote_field_vec(&fs)),
                None => None,
            }
        },
        RuleExpr::Repeated(inner) => {
            match compute_fields(&**inner, rules) {
                Some(fs) => Some(force_field_vec(&fs)),
                None => None,
            }
        },
        RuleExpr::Choice(_, _) => None,
    }
}

/// Flattens a choice rule body into its variant list, or `None` where a
/// leaf arm is anything but a reference.
fn compute_variants(e: &RuleExpr, rules: &Vec<GrammarRule>) -> (r: Option<Vec<u64>>)
    ensures
        match r {
            Some(v) => variants_of(*e, silent_names(rules@)) == Some(v@),
            None => variants_of(*e, silent_names(rules@)) is None,
        },
    decreases *e,
{
    match e {
        RuleExpr::Reference(n) => {
            if name_is_silent(rules, *n) {
                let v: Vec<u64> = Vec::new();
                assert(v@ =~= Seq::<u64>::empty());
                Some(v)
            } else {
                let mut v: Vec<u64> = Vec::new();
                v.push(*n);
                assert(v@ =~= seq![*n]);
                Some(v)
            }
        },
        RuleExpr::Choice(a, b) => {
            match compute_variants(&**a, rules) {
                Some(mut x) => match compute_variants(&**b, rules) {
                    Some(mut y) => {
                        x.append(&mut y);
                        Some(x)
                    },
                    None => None,
                },
                None => None,
            }
        },
        _ => None,
    }
}

/// Classifies one non-silent rule.
fn classify_rule(r: &GrammarRule, rules: &Vec<GrammarRule>) -> (res: Result<
    RuleClassification,
    SchemaError,
>)
    ensures
        match res {
            Ok(c) => classify_spec(*r, silent_names(rules@)) == Ok::<_, SchemaError>(c@),
            Err(e) => classify_spec(*r, silent_names(rules@)) == Err::<ClassificationModel, _>(e),
        },
{
    if r.atomic || matches!(r.expr, RuleExpr::Literal) {
        Ok(RuleClassification::Atomic)
    } else if matches!(r.expr, RuleExpr::Choice(_, _)) {
        match compute_variants(&r.expr, rules) {
            Some(vs) => {
                if vs.len() >= 2 {
                    Ok(RuleClassification::Enumeration { variants: vs })
                } else {
                    Err(SchemaError::UnsupportedGrammarConstruct { rule: r.name })
                }
            },
            None => Err(SchemaError::UnsupportedGrammarConstruct { rule: r.name }),
        }
    } else {
        match compute_fields(&r.expr, rules) {
            Some(fs) => Ok(RuleClassification::Structure { fields: fs }),
            None => Err(SchemaError::UnsupportedGrammarConstruct { rule: r.name }),
        }
    }
}

/// The mathematical value of a sequence of schema entries.
pub open spec fn table_model(s: Seq<SchemaEntry>) -> Seq<EntryModel> {
    Seq::new(s.len(), |i: int| s[i]@)
}

/// The immutable collection of all classified rules of one grammar,
/// keyed by rule name; built once by `derive_schema` and read-only
/// thereafter.
#[derive(Debug)]
pub struct SchemaTable {
    pub entries: Vec<SchemaEntry>,
}

impl View for SchemaTable {
    type V = Seq<EntryModel>;

    open spec fn view(&self) -> Seq<EntryModel> {
        table_model(self.entries@)
    }
}

/// Whether the table holds an entry named `n`.
fn table_contains_exec(entries: &Vec<SchemaEntry>, n: u64) -> (r: bool)
    ensures
        r == table_contains(table_model(entries@), n),
{
    let mut i: usize = 0;
    while i < entries.len()
        invariant
            i <= entries@.len(),
            forall|k: int| 0 <= k < i ==> table_model(entries@)[k].name != n,
        decreases entries@.len() - i,
    {
        if entries[i].name == n {
            assert(table_model(entries@)[i as int].name == n);
            return true;
        }
        i += 1;
    }
    false
}

/// Whether every name that `c` mentions is a key of the table.
fn classification_resolved(entries: &Vec<SchemaEntry>, c: &RuleClassification) -> (r: bool)
    ensures
        r == entry_resolved(table_model(entries@), c@),
{
    let ghost tm = table_model(entries@);
    let ghost ns = names_of(c@);
    match c {
        RuleClassification::Atomic => true,
        RuleClassification::Enumeration { variants } => {
            let mut i: usize = 0;
            proof {
                assert(ns.skip(0) =~= ns);
            }
            while i < variants.len()
                invariant
                    i <= variants@.len(),
                    tm == table_model(entries@),
                    ns == variants@,
                    c@ == (ClassificationModel::Enumeration { variants: variants@ }),
                    all_contained(tm, ns) == all_contained(tm, ns.skip(i as int)),
                decreases variants@.len() - i,
            {
                proof {
                    assert(ns.skip(i as int)[0] == ns[i as int]);
                    assert(ns.skip(i as int).drop_first() =~= ns.skip(i + 1));
                }
                if !table_contains_exec(entries, variants[i]) {
                    return false;
                }
                i += 1;
            }
            proof {
                assert(ns.skip(ns.len() as int) =~= Seq::<u64>::empty());
            }
            true
        },
        RuleClassification::Structure { fields } => {
            let mut i: usize = 0;
            proof {
                assert(ns.skip(0) =~= ns);
            }
            while i < fields.len()
                invariant
                    i <= fields@.len(),
                    tm == table_model(entries@),
                    ns == names_of(ClassificationModel::Structure { fields: fields@ }),
                    c@ == (ClassificationModel::Structure { fields: fields@ }),
                    all_contained(tm, ns) == all_contained(tm, ns.skip(i as int)),
                decreases fields@.len() - i,
            {
                proof {
                    assert(ns[i as int] == fields@[i as int].name);
                    assert(ns.skip(i as int)[0] == ns[i as int]);
                    assert(ns.skip(i as int).drop_first() =~= ns.skip(i + 1));
                }
                if !table_contains_exec(entries, fields[i].name) {
                    return false;
                }
                i += 1;
            }
            proof {
                assert(ns.skip(ns.len() as int) =~= Seq::<u64>::empty());
            }
            true
        },
    }
}

/// Derives the schema of a whole grammar: classifies every non-silent
/// rule in order, then checks that every name a classification mentions
/// resolves against the table. The first unsupported construct or
/// unresolved name abandons the derivation.
pub fn derive_schema(rules: &Vec<GrammarRule>) -> (r: Result<SchemaTable, SchemaError>)
    ensures
        match r {
            Ok(t) => derive_schema_spec(rules@) == Ok::<_, SchemaError>(t@) && table_resolved(t@),
            Err(e) => derive_schema_spec(rules@) == Err::<Seq<EntryModel>, _>(e),
        },
{
    let ghost silent = silent_names(rules@);
    let mut entries: Vec<SchemaEntry> = Vec::new();
    proof {
        assert(rules@.skip(0) =~= rules@);
        match classify_all(rules@, silent) {
            Ok(t) => {
                assert(table_model(entries@) + t =~= t);
            },
            Err(_) => {},
        }
    }
    let mut i: usize = 0;
    while i < rules.len()
        invariant
            i <= rules@.len(),
            silent == silent_names(rules@),
            classify_all(rules@, silent) == (match classify_all(rules@.skip(i as int), silent) {
                Ok(t) => Ok::<_, SchemaError>(table_model(entries@) + t),
                Err(e) => Err::<Seq<EntryModel>, _>(e),
            }),
        decreases rules@.len() - i,
    {
        proof {
            assert(rules@.skip(i as int)[0] == rules@[i as int]);
            assert(rules@.skip(i as int).drop_first() =~= rules@.skip(i + 1));
        }
        if !rules[i].silent {
            match classify_rule(&rules[i], rules) {
                Ok(c) => {
                    let ghost old_tm = table_model(entries@);
                    let ghost em = EntryModel { name: rules@[i as int].name, classification: c@ };
                    entries.push(SchemaEntry { name: rules[i].name, classification: c });
                    proof {
                        assert(table_model(entries@) =~= old_tm.push(em));
                        match classify_all(rules@.skip(i + 1), silent) {
                            Ok(t) => {
                                assert(old_tm + (seq![em] + t) =~= old_tm.push(em) + t);
                            },
                            Err(_) => {},
                        }
                    }
                },
                Err(e) => {
                    return Err(e);
                },
            }
        }
        i += 1;
    }
    proof {
        assert(rules@.skip(rules@.len() as int) =~= Seq::<GrammarRule>::empty());
        assert(table_model(entries@) + Seq::<EntryModel>::empty() =~= table_model(entries@));
    }
    let ghost tm = table_model(entries@);
    proof {
        assert(tm.skip(0) =~= tm);
    }
    let mut j: usize = 0;
    while j < entries.len()
        invariant
            j <= entries@.len(),
            tm == table_model(entries@),
            classify_all(rules@, silent_names(rules@)) == Ok::<_, SchemaError>(tm),
            first_unresolved(tm, tm) == first_unresolved(tm.skip(j as int), tm),
            forall|k: int| 0 <= k < j ==> entry_resolved(tm, #[trigger] tm[k].classification),
        decreases entries@.len() - j,
    {
        proof {
            assert(tm.skip(j as int)[0] == tm[j as int]);
            assert(tm.skip(j as int).drop_first() =~= tm.skip(j + 1));
        }
        if !classification_resolved(&entries, &entries[j].classification) {
            return Err(SchemaError::UnsupportedGrammarConstruct { rule: entries[j].name });
        }
        j += 1;
    }
    proof {
        assert(tm.skip(tm.len() as int) =~= Seq::<EntryModel>::empty());
    }
    Ok(SchemaTable { entries })
}

impl SchemaTable {
    /// The classification of the first entry named `name`, if any.
    pub fn classification_of(&self, name: u64) -> (r: Option<&RuleClassification>)
        ensures
            match r {
                Some(c) => lookup_model(self@, name) == Some(c@) && table_contains(self@, name),
                None => lookup_model(self@, name) is None && !table_contains(self@, name),
            },
    {
        let ghost tm = self@;
        let mut i: usize = 0;
        while i < self.entries.len()
            invariant
                i <= self.entries@.len(),
                tm == self@,
                lookup_model(tm, name) == lookup_model(tm.skip(i as int), name),
                forall|k: int| 0 <= k < i ==> tm[k].name != name,
            decreases self.entries@.len() - i,
        {
            proof {
                assert(tm.skip(i as int)[0] == tm[i as int]);
                assert(tm.skip(i as int).drop_first() =~= tm.skip(i + 1));
            }
            if self.entries[i].name == name {
                assert(tm[i as int].name == name);
                return Some(&self.entries[i].classification);
            }
            i += 1;
        }
        proof {
            assert(tm.skip(tm.len() as int) =~= Seq::<EntryModel>::empty());
        }
        None
    }
}

/// Schema derivation consults no state besides its input: the same rule
/// sequence always derives the same schema table, structurally.
pub proof fn lemma_derive_schema_deterministic(a: Seq<GrammarRule>, b: Seq<GrammarRule>)
    requires
        a == b,
    ensures
        derive_schema_spec(a) == derive_schema_spec(b),
{
}

/// A rule name referenced on both sides of one sequence comes out `Many`:
/// duplicate reference within one sequence forces repetition.
pub proof fn lemma_duplicate_reference_forces_many(e: RuleExpr, x: u64, silent: Set<u64>)
    requires
        !silent.contains(x),
        e matches RuleExpr::Sequence(a, b) && *a == RuleExpr::Reference(x) && *b
            == RuleExpr::Reference(x),
    ensures
        fields_of(e, silent) == Some(seq![Field { name: x, card: Cardinality::Many }]),
{
    reveal_with_fuel(fields_of, 3);
    reveal_with_fuel(new_right, 3);
    let single = seq![Field { name: x, card: Cardinality::One }];
    assert(has_name(single, x)) by {
        assert(single[0].name == x);
    }
    assert(merged_left(single, single) =~= seq![Field { name: x, card: Cardinality::Many }]);
    assert(single.drop_first() =~= Seq::<Field>::empty());
    assert(new_right(single, single) =~= Seq::<Field>::empty());
    assert(merge_fields(single, single) =~= seq![Field { name: x, card: Cardinality::Many }]);
}

/// Under `Optional`, a field referenced once is demoted to `Optional`.
pub proof fn lemma_optional_demotes_single(e: RuleExpr, x: u64, silent: Set<u64>)
    requires
        !silent.contains(x),
        e matches RuleExpr::Optional(inner) && *inner == RuleExpr::Reference(x),
    ensures
        fields_of(e, silent) == Some(seq![Field { name: x, card: Cardinality::Optional }]),
{
    reveal_with_fuel(fields_of, 3);
    let single = seq![Field { name: x, card: Cardinality::One }];
    assert(demote_optional(single) =~= seq![Field { name: x, card: Cardinality::Optional }]);
}

/// Under `Optional`, a `Many` field stays `Many`: an empty collection
/// already represents absence.
pub proof fn lemma_optional_keeps_many(e: RuleExpr, x: u64, silent: Set<u64>)
    requires
        !silent.contains(x),
        e matches RuleExpr::Optional(mid) && (*mid) matches RuleExpr::Repeated(inner) && *inner
            == RuleExpr::Reference(x),
    ensures
        fields_of(e, silent) == Some(seq![Field { name: x, card: Cardinality::Many }]),
{
    reveal_with_fuel(fields_of, 4);
    let single = seq![Field { name: x, card: Cardinality::One }];
    let many = seq![Field { name: x, card: Cardinality::Many }];
    assert(force_many(single) =~= many);
    assert(demote_optional(many) =~= many);
}

/// Classification failures are not per-rule recoverable.
proof fn lemma_classify_all_err(rules: Seq<GrammarRule>, silent: Set<u64>, i: int)
    requires
        0 <= i < rules.len(),
        !rules[i].silent,
        classify_spec(rules[i], silent) is Err,
    ensures
        classify_all(rules, silent) is Err,
    decreases rules.len(),
{
    if i > 0 {
        assert(rules.drop_first()[i - 1] == rules[i]);
        lemma_classify_all_err(rules.drop_first(), silent, i - 1);
    }
}

/// A non-silent rule that fails classification abandons the whole
/// derivation: the schema of a grammar holding such a rule is an error,
/// never a table with that rule left out.
pub proof fn lemma_failed_rule_abandons_derivation(rules: Seq<GrammarRule>, i: int)
    requires
        0 <= i < rules.len(),
        !rules[i].silent,
        classify_spec(rules[i], silent_names(rules)) is Err,
    ensures
        derive_schema_spec(rules) is Err,
{
    lemma_classify_all_err(rules, silent_names(rules), i);
}

/// A choice rule with fewer than two resolvable variants fails schema
/// derivation with `UnsupportedGrammarConstruct` naming the rule.
pub proof fn lemma_choice_needs_two_variants(r: GrammarRule, silent: Set<u64>)
    requires
        !r.atomic,
        r.expr is Choice,
        variants_of(r.expr, silent) matches Some(vs) && vs.len() < 2,
    ensures
        classify_spec(r, silent) == Err::<ClassificationModel, SchemaError>(
            SchemaError::UnsupportedGrammarConstruct { rule: r.name },
        ),
{
}

} // verus!
