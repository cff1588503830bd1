//! Streaming grouped aggregation: an accumulator keyed by the group-by
//! projection of each incoming tuple, with running Sum, Count, Max, Min and
//! Avg columns, and the pull-based operator around it.

use crate::errors::StorageError;
use vstd::prelude::*;

verus! {

/// A field value: an integer or a byte string.
#[derive(Debug, PartialEq, Eq, PartialOrd, Ord)]
pub enum Field {
    IntField(i64),
    StringField(Vec<u8>),
}

/// The mathematical value of a field.
pub enum FieldS {
    IntS(int),
    StrS(Seq<u8>),
}

/// View of a field.
pub open spec fn fview(f: Field) -> FieldS {
    match f {
        Field::IntField(i) => FieldS::IntS(i as int),
        Field::StringField(v) => FieldS::StrS(v@),
    }
}

/// Total order on field values: integers below byte strings, integers by
/// value, byte strings lexicographically.
pub open spec fn fs_le(a: FieldS, b: FieldS) -> bool
    decreases (match a {
        FieldS::StrS(v) => v.len(),
        _ => 0,
    }),
{
    match (a, b) {
        (FieldS::IntS(x), FieldS::IntS(y)) => x <= y,
        (FieldS::IntS(_), FieldS::StrS(_)) => true,
        (FieldS::StrS(_), FieldS::IntS(_)) => false,
        (FieldS::StrS(x), FieldS::StrS(y)) => {
            if x.len() == 0 {
                true
            } else if y.len() == 0 {
                false
            } else if x[0] < y[0] {
                true
            } else if x[0] > y[0] {
                false
            } else {
                fs_le(FieldS::StrS(x.drop_first()), FieldS::StrS(y.drop_first()))
            }
        },
    }
}

impl Field {
    /// A copy of this field.
    pub fn duplicate(&self) -> (r: Field)
        ensures
            fview(r) == fview(*self),
    {
        match self {
            Field::IntField(i) => Field::IntField(*i),
            Field::StringField(v) => {
                let r = Field::StringField(crate::codec::copy_bytes(v));
                proof {
                    match (fview(r), fview(*self)) {
                        (FieldS::StrS(x), FieldS::StrS(y)) => {
                            assert(x =~= y);
                        },
                        _ => {},
                    }
                }
                r
            },
        }
    }

    /// Whether two fields hold the same value.
    pub fn eq_field(&self, other: &Field) -> (r: bool)
        ensures
            r == (fview(*self) == fview(*other)),
    {
        match (self, other) {
            (Field::IntField(a), Field::IntField(b)) => a == b,
            (Field::StringField(a), Field::StringField(b)) => {
                proof {
                    assert(fview(*self) == FieldS::StrS(a@));
                    assert(fview(*other) == FieldS::StrS(b@));
                }
                if a.len() != b.len() {
                    proof {
                        if fview(*self) == fview(*other) {
                            assert(fview(*self)->StrS_0 == a@);
                            assert(fview(*other)->StrS_0 == b@);
                            assert(a@ == b@);
                        }
                    }
                    return false;
                }
                let mut i: usize = 0;
                while i < a.len()
                    invariant
                        fview(*self) == FieldS::StrS(a@),
                        fview(*other) == FieldS::StrS(b@),
                        a@.len() == b@.len(),
                        i <= a@.len(),
                        forall|j: int| 0 <= j < i ==> a@[j] == b@[j],
                    decreases a@.len() - i,
                {
                    if a[i] != b[i] {
                        proof {
                            if fview(*self) == fview(*other) {
                                assert(fview(*self)->StrS_0 == a@);
                                assert(fview(*other)->StrS_0 == b@);
                                assert(a@ == b@);
                            }
                        }
                        return false;
                    }
                    i = i + 1;
                }
                proof {
                    assert(a@ =~= b@);
                }
                true
            },
            (Field::IntField(_), Field::StringField(_)) => false,
            (Field::StringField(_), Field::IntField(_)) => false,
        }
    }

    /// Whether this field orders at or below the other.
    pub fn le_field(&self, other: &Field) -> (r: bool)
        ensures
            r == fs_le(fview(*self), fview(*other)),
    {
        match (self, other) {
            (Field::IntField(a), Field::IntField(b)) => a <= b,
            (Field::IntField(_), Field::StringField(_)) => true,
            (Field::StringField(_), Field::IntField(_)) => false,
            (Field::StringField(a), Field::StringField(b)) => {
                proof {
                    assert(fview(*self) == FieldS::StrS(a@));
                    assert(fview(*other) == FieldS::StrS(b@));
                    assert(a@.subrange(0, a@.len() as int) =~= a@);
                    assert(b@.subrange(0, b@.len() as int) =~= b@);
                }
                let mut i: usize = 0;
                loop
                    invariant
                        fview(*self) == FieldS::StrS(a@),
                        fview(*other) == FieldS::StrS(b@),
                        i <= a@.len(),
                        i <= b@.len(),
                        forall|j: int| 0 <= j < i ==> a@[j] == b@[j],
                        fs_le(fview(*self), fview(*other)) == fs_le(
                            FieldS::StrS(a@.subrange(i as int, a@.len() as int)),
                            FieldS::StrS(b@.subrange(i as int, b@.len() as int)),
                        ),
                    decreases a@.len() - i,
                {
                    proof {
                        let xs = a@.subrange(i as int, a@.len() as int);
                        let ys = b@.subrange(i as int, b@.len() as int);
                        if xs.len() > 0 && ys.len() > 0 && xs[0] == ys[0] {
                            assert(xs.drop_first() =~= a@.subrange(i as int + 1, a@.len() as int));
                            assert(ys.drop_first() =~= b@.subrange(i as int + 1, b@.len() as int));
                        }
                    }
                    if i >= a.len() {
                        return true;
                    }
                    if i >= b.len() {
                        return false;
                    }
                    let x = a[i];
                    let y = b[i];
                    if x < y {
                        return true;
                    }
                    if x > y {
                        return false;
                    }
                    i = i + 1;
                }
            },
        }
    }
}

/// A row of field values.
#[derive(Debug, PartialEq, Eq)]
pub struct Tuple {
    pub field_vals: Vec<Field>,
}

/// View of a tuple: its field values.
pub open spec fn tview(t: Tuple) -> Seq<FieldS> {
    t.field_vals@.map_values(|f: Field| fview(f))
}

impl Tuple {
    /// A tuple over the given fields.
    pub fn new(field_vals: Vec<Field>) -> (r: Tuple)
        ensures
            r.field_vals@ == field_vals@,
    {
        Tuple { field_vals }
    }

    /// The field at an index, absent when out of range.
    pub fn get_field(&self, i: usize) -> (r: Option<&Field>)
        ensures
            i < tview(*self).len() <==> r is Some,
            i < tview(*self).len() ==> fview(*r->Some_0) == tview(*self)[i as int],
    {
        if i < self.field_vals.len() {
            Some(&self.field_vals[i])
        } else {
            None
        }
    }

    /// A copy of this tuple.
    pub fn duplicate(&self) -> (r: Tuple)
        ensures
            tview(r) =~= tview(*self),
    {
        let mut fields: Vec<Field> = Vec::new();
        let mut i: usize = 0;
        while i < self.field_vals.len()
            invariant
                i <= self.field_vals@.len(),
                fields@.len() == i as int,
                forall|j: int| 0 <= j < i ==> fview(#[trigger] fields@[j]) == fview(
                    self.field_vals@[j],
                ),
            decreases self.field_vals@.len() - i,
        {
            let f = self.field_vals[i].duplicate();
            fields.push(f);
            i = i + 1;
        }
        Tuple { field_vals: fields }
    }
}

/// The type of a column.
#[derive(Clone, Copy, Debug, PartialEq, Eq, Structural)]
pub enum DataType {
    Int,
    String,
}

/// One named, typed column.
#[derive(Debug, PartialEq, Eq)]
pub struct Attribute {
    pub name: String,
    pub dtype: DataType,
}

impl Attribute {
    /// A column with the given name and type.
    pub fn new(name: String, dtype: DataType) -> (r: Attribute)
        ensures
            r.name == name,
            r.dtype == dtype,
    {
        Attribute { name, dtype }
    }
}

/// The columns of a relation, in order.
#[derive(Debug, PartialEq, Eq)]
pub struct TableSchema {
    pub attributes: Vec<Attribute>,
}

impl TableSchema {
    /// A schema over the given columns.
    pub fn new(attributes: Vec<Attribute>) -> (r: TableSchema)
        ensures
            r.attributes@ == attributes@,
    {
        TableSchema { attributes }
    }

    /// The column at an index, absent when out of range.
    pub fn get_attribute(&self, i: usize) -> (r: Option<&Attribute>)
        ensures
            i < self.attributes@.len() <==> r is Some,
            i < self.attributes@.len() ==> *r->Some_0 == self.attributes@[i as int],
    {
        if i < self.attributes.len() {
            Some(&self.attributes[i])
        } else {
            None
        }
    }
}

/// View of a schema: the column names and types, in order.
pub open spec fn sview(s: TableSchema) -> Seq<(Seq<char>, DataType)> {
    s.attributes@.map_values(|a: Attribute| (a.name@, a.dtype))
}

/// One aggregate column: the input field index and the operation.
#[derive(Clone, Copy, Debug, PartialEq, Eq, Structural)]
pub struct AggregateField {
    /// Index of the field being aggregated.
    pub field: usize,
    /// Operation applied to the column.
    pub op: AggOp,
}

/// The aggregate operations.
#[derive(Clone, Copy, Debug, PartialEq, Eq, Structural)]
pub enum AggOp {
    Sum,
    Count,
    Max,
    Min,
    Avg,
}

/// The group key: the tuple's values at the group-by indices.
pub open spec fn key_of(t: Seq<FieldS>, gb: Seq<usize>) -> Seq<FieldS> {
    Seq::new(gb.len(), |i: int| t[gb[i] as int])
}

/// The first group whose key columns match, scanning in creation order.
pub open spec fn find_grp(rows: Seq<Seq<FieldS>>, key: Seq<FieldS>, m: int) -> Option<int>
    decreases rows.len(),
{
    if rows.len() == 0 {
        None
    } else if rows[0].subrange(0, m) =~= key {
        Some(0)
    } else {
        match find_grp(rows.drop_first(), key, m) {
            None => None,
            Some(g) => Some(g + 1),
        }
    }
}

/// The starting value of an aggregate column for a fresh group.
pub open spec fn op_seed(op: AggOp, v: FieldS) -> FieldS {
    match op {
        AggOp::Count => FieldS::IntS(1),
        _ => v,
    }
}

/// One aggregate column folded with one incoming value.
pub open spec fn op_merge(op: AggOp, acc: FieldS, v: FieldS) -> FieldS {
    match op {
        AggOp::Sum => FieldS::IntS(acc->IntS_0 + v->IntS_0),
        AggOp::Count => FieldS::IntS(acc->IntS_0 + 1),
        AggOp::Max => if fs_le(acc, v) {
            v
        } else {
            acc
        },
        AggOp::Min => if fs_le(v, acc) {
            v
        } else {
            acc
        },
        AggOp::Avg => FieldS::IntS(acc->IntS_0 + v->IntS_0),
    }
}

/// A group's row folded with one incoming tuple.
pub open spec fn merged_row(
    row: Seq<FieldS>,
    t: Seq<FieldS>,
    m: int,
    ags: Seq<AggregateField>,
) -> Seq<FieldS> {
    Seq::new(
        row.len(),
        |j: int|
            if j < m {
                row[j]
            } else {
                op_merge(ags[j - m].op, row[j], t[ags[j - m].field as int])
            },
    )
}

/// A fresh group's row: the key, then one seeded column per aggregate.
pub open spec fn seeded_row(t: Seq<FieldS>, gb: Seq<usize>, ags: Seq<AggregateField>) -> Seq<
    FieldS,
> {
    key_of(t, gb) + Seq::new(ags.len(), |i: int| op_seed(ags[i].op, t[ags[i].field as int]))
}

/// One step of the grouped fold: merge into the first matching group, or
/// append a fresh group in first-occurrence order.
pub open spec fn merge_spec(
    rows: Seq<Seq<FieldS>>,
    counts: Seq<int>,
    t: Seq<FieldS>,
    gb: Seq<usize>,
    ags: Seq<AggregateField>,
) -> (Seq<Seq<FieldS>>, Seq<int>) {
    match find_grp(rows, key_of(t, gb), gb.len() as int) {
        Some(g) => (
            rows.update(g, merged_row(rows[g], t, gb.len() as int, ags)),
            counts.update(g, counts[g] + 1),
        ),
        None => (rows.push(seeded_row(t, gb, ags)), counts.push(1)),
    }
}

/// Whether the tuple can be folded: indices in range, and integer fields
/// where the operation computes arithmetic.
pub open spec fn tuple_compat(t: Seq<FieldS>, gb: Seq<usize>, ags: Seq<AggregateField>) -> bool {
    &&& forall|i: int| 0 <= i < gb.len() ==> (#[trigger] gb[i]) < t.len()
    &&& forall|i: int| 0 <= i < ags.len() ==> (#[trigger] ags[i]).field < t.len()
    &&& forall|i: int|
        0 <= i < ags.len() && ((#[trigger] ags[i]).op == AggOp::Sum || ags[i].op == AggOp::Avg)
            ==> t[ags[i].field as int] is IntS
}

/// Whether a field value, if an integer, lies inside `i64`.
pub open spec fn in_i64(v: FieldS) -> bool {
    v is IntS ==> i64::MIN <= v->IntS_0 <= i64::MAX
}

/// Whether folding the tuple keeps every running integer inside `i64`.
pub open spec fn merge_bounded(
    rows: Seq<Seq<FieldS>>,
    counts: Seq<int>,
    t: Seq<FieldS>,
    gb: Seq<usize>,
    ags: Seq<AggregateField>,
) -> bool {
    match find_grp(rows, key_of(t, gb), gb.len() as int) {
        Some(g) => {
            &&& counts[g] < 0xFFFF_FFFF_FFFF_FFFF
            &&& forall|i: int|
                0 <= i < ags.len() ==> in_i64(
                    op_merge((#[trigger] ags[i]).op, rows[g][gb.len() + i], t[ags[i].field as int]),
                )
        },
        None => true,
    }
}

/// Computes grouped aggregates over a stream of tuples.
pub struct Aggregator {
    agg_fields: Vec<AggregateField>,
    groupby_fields: Vec<usize>,
    schema: TableSchema,
    results: Vec<Tuple>,
    counts: Vec<u64>,
}

impl Aggregator {
    /// The partial rows, one per group, in first-occurrence order.
    pub closed spec fn rows(self) -> Seq<Seq<FieldS>> {
        self.results@.map_values(|t: Tuple| tview(t))
    }

    /// The tuples folded into each group so far.
    pub closed spec fn cnts(self) -> Seq<int> {
        self.counts@.map_values(|c: u64| c as int)
    }

    /// The group-by field indices.
    pub closed spec fn gb(self) -> Seq<usize> {
        self.groupby_fields@
    }

    /// The aggregate columns.
    pub closed spec fn ags(self) -> Seq<AggregateField> {
        self.agg_fields@
    }

    /// The output schema: column names and types.
    pub closed spec fn schema_spec(self) -> Seq<(Seq<char>, DataType)> {
        sview(self.schema)
    }

    /// Well-formedness: one count per group, every row as wide as the key
    /// plus the aggregate columns, and arithmetic columns holding integers.
    pub open spec fn wf(self) -> bool {
        &&& self.rows().len() == self.cnts().len()
        &&& forall|g: int|
            0 <= g < self.rows().len() ==> (#[trigger] self.rows()[g]).len() == self.gb().len()
                + self.ags().len()
        &&& forall|g: int| 0 <= g < self.cnts().len() ==> 1 <= #[trigger] self.cnts()[g]
        &&& forall|g: int, i: int|
            0 <= g < self.rows().len() && 0 <= i < self.ags().len() && ((#[trigger] self.ags()[i]).op
                == AggOp::Sum || self.ags()[i].op == AggOp::Count || self.ags()[i].op
                == AggOp::Avg) ==> (#[trigger] self.rows()[g])[self.gb().len() + i] is IntS
    }

    /// A fresh aggregator with no groups.
    pub fn new(
        agg_fields: Vec<AggregateField>,
        groupby_fields: Vec<usize>,
        schema: &TableSchema,
    ) -> (r: Aggregator)
        ensures
            r.wf(),
            r.rows().len() == 0,
            r.cnts().len() == 0,
            r.gb() == groupby_fields@,
            r.ags() == agg_fields@,
            r.schema_spec() =~= sview(*schema),
    {
        let mut attrs: Vec<Attribute> = Vec::new();
        let mut i: usize = 0;
        while i < schema.attributes.len()
            invariant
                i <= schema.attributes@.len(),
                attrs@.len() == i as int,
                forall|h: int|
                    0 <= h < i ==> (#[trigger] attrs@[h]).name@ == schema.attributes@[h].name@
                        && attrs@[h].dtype == schema.attributes@[h].dtype,
            decreases schema.attributes@.len() - i,
        {
            let a = &schema.attributes[i];
            attrs.push(Attribute { name: clone_string(&a.name), dtype: a.dtype });
            i = i + 1;
        }
        Aggregator {
            agg_fields,
            groupby_fields,
            schema: TableSchema { attributes: attrs },
            results: Vec::new(),
            counts: Vec::new(),
        }
    }
}

/// A copy of a string. Relies on `String::clone`, whose contract vstd gives.
pub fn clone_string(s: &String) -> (r: String)
    ensures
        r@ == s@,
{
    s.clone()
}


/// `find_grp` returns the first match.
pub proof fn lemma_find_at(rows: Seq<Seq<FieldS>>, key: Seq<FieldS>, m: int, g: int)
    requires
        0 <= g < rows.len(),
        forall|h: int| 0 <= h < g ==> (#[trigger] rows[h]).subrange(0, m) != key,
        rows[g].subrange(0, m) == key,
    ensures
        find_grp(rows, key, m) == Some(g),
    decreases rows.len(),
{
    if g == 0 {
    } else {
        assert(rows[0].subrange(0, m) != key);
        lemma_find_at(rows.drop_first(), key, m, g - 1);
        assert forall|h: int| 0 <= h < g - 1 implies (#[trigger] rows.drop_first()[h]).subrange(
            0,
            m,
        ) != key by {
            assert(rows.drop_first()[h] == rows[h + 1]);
        }
    }
}

/// With no match anywhere, `find_grp` reports none.
pub proof fn lemma_find_none(rows: Seq<Seq<FieldS>>, key: Seq<FieldS>, m: int)
    requires
        forall|h: int| 0 <= h < rows.len() ==> (#[trigger] rows[h]).subrange(0, m) != key,
    ensures
        find_grp(rows, key, m) is None,
    decreases rows.len(),
{
    if rows.len() > 0 {
        lemma_find_none(rows.drop_first(), key, m);
    }
}

/// The merged row as a tuple: group-by columns kept, aggregate columns
/// folded with the incoming tuple.
#[verifier::rlimit(100)]
#[verifier::spinoff_prover]
fn merged_tuple(row: &Tuple, t: &Tuple, m: usize, ags: &Vec<AggregateField>) -> (r: Tuple)
    requires
        tview(*row).len() == m + ags@.len(),
        forall|i: int| 0 <= i < ags@.len() ==> (#[trigger] ags@[i]).field < tview(*t).len(),
        forall|i: int|
            0 <= i < ags@.len() && ((#[trigger] ags@[i]).op == AggOp::Sum || ags@[i].op
                == AggOp::Avg) ==> tview(*t)[ags@[i].field as int] is IntS,
        forall|i: int|
            0 <= i < ags@.len() && ((#[trigger] ags@[i]).op == AggOp::Sum || ags@[i].op
                == AggOp::Count || ags@[i].op == AggOp::Avg) ==> tview(*row)[m + i] is IntS,
        forall|i: int|
            0 <= i < ags@.len() ==> in_i64(
                op_merge((#[trigger] ags@[i]).op, tview(*row)[m + i], tview(*t)[ags@[i].field as int]),
            ),
    ensures
        tview(r) =~= merged_row(tview(*row), tview(*t), m as int, ags@),
{
    let width = row.field_vals.len();
    let mut out: Vec<Field> = Vec::new();
    let mut j: usize = 0;
    while j < width
        invariant
            width == tview(*row).len(),
            width == m + ags@.len(),
            forall|i: int| 0 <= i < ags@.len() ==> (#[trigger] ags@[i]).field < tview(*t).len(),
            forall|i: int|
                0 <= i < ags@.len() && ((#[trigger] ags@[i]).op == AggOp::Sum || ags@[i].op
                    == AggOp::Avg) ==> tview(*t)[ags@[i].field as int] is IntS,
            forall|i: int|
                0 <= i < ags@.len() && ((#[trigger] ags@[i]).op == AggOp::Sum || ags@[i].op
                    == AggOp::Count || ags@[i].op == AggOp::Avg) ==> tview(*row)[m + i] is IntS,
            forall|i: int|
                0 <= i < ags@.len() ==> in_i64(
                    op_merge(
                        (#[trigger] ags@[i]).op,
                        tview(*row)[m + i],
                        tview(*t)[ags@[i].field as int],
                    ),
                ),
            j <= width,
            out@.len() == j as int,
            forall|h: int|
                0 <= h < j ==> fview(#[trigger] out@[h]) == merged_row(
                    tview(*row),
                    tview(*t),
                    m as int,
                    ags@,
                )[h],
        decreases width - j,
    {
        if j < m {
            let f = row.field_vals[j].duplicate();
            out.push(f);
        } else {
            let i = j - m;
            let af = ags[i];
            let acc = &row.field_vals[j];
            let v = &t.field_vals[af.field];
            let merged: Field = match af.op {
                AggOp::Sum | AggOp::Avg => {
                    let a = match acc {
                        Field::IntField(a) => *a,
                        Field::StringField(_) => {
                            proof {
                                assert(false);
                            }
                            0
                        },
                    };
                    let b = match v {
                        Field::IntField(b) => *b,
                        Field::StringField(_) => {
                            proof {
                                assert(false);
                            }
                            0
                        },
                    };
                    Field::IntField(a + b)
                },
                AggOp::Count => {
                    let a = match acc {
                        Field::IntField(a) => *a,
                        Field::StringField(_) => {
                            proof {
                                assert(false);
                            }
                            0
                        },
                    };
                    Field::IntField(a + 1)
                },
                AggOp::Max => {
                    if acc.le_field(v) {
                        v.duplicate()
                    } else {
                        acc.duplicate()
                    }
                },
                AggOp::Min => {
                    if v.le_field(acc) {
                        v.duplicate()
                    } else {
                        acc.duplicate()
                    }
                },
            };
            out.push(merged);
        }
        j = j + 1;
    }
    Tuple { field_vals: out }
}

/// The row of a fresh group: group-by values, then seeded aggregates.
#[verifier::rlimit(100)]
#[verifier::spinoff_prover]
fn seeded_tuple(t: &Tuple, gb: &Vec<usize>, ags: &Vec<AggregateField>) -> (r: Tuple)
    requires
        forall|i: int| 0 <= i < gb@.len() ==> (#[trigger] gb@[i]) < tview(*t).len(),
        forall|i: int| 0 <= i < ags@.len() ==> (#[trigger] ags@[i]).field < tview(*t).len(),
    ensures
        tview(r) =~= seeded_row(tview(*t), gb@, ags@),
{
    let mut out: Vec<Field> = Vec::new();
    let mut j: usize = 0;
    while j < gb.len()
        invariant
            forall|i: int| 0 <= i < gb@.len() ==> (#[trigger] gb@[i]) < tview(*t).len(),
            j <= gb@.len(),
            out@.len() == j as int,
            forall|h: int|
                0 <= h < j ==> fview(#[trigger] out@[h]) == key_of(tview(*t), gb@)[h],
        decreases gb@.len() - j,
    {
        let f = t.field_vals[gb[j]].duplicate();
        out.push(f);
        j = j + 1;
    }
    let mut i: usize = 0;
    while i < ags.len()
        invariant
            forall|i2: int| 0 <= i2 < ags@.len() ==> (#[trigger] ags@[i2]).field < tview(*t).len(),
            i <= ags@.len(),
            out@.len() == gb@.len() + i as int,
            forall|h: int|
                0 <= h < out@.len() ==> fview(#[trigger] out@[h]) == seeded_row(
                    tview(*t),
                    gb@,
                    ags@,
                )[h],
        decreases ags@.len() - i,
    {
        let af = ags[i];
        let seeded: Field = match af.op {
            AggOp::Count => Field::IntField(1),
            _ => t.field_vals[af.field].duplicate(),
        };
        out.push(seeded);
        i = i + 1;
    }
    Tuple { field_vals: out }
}

impl Aggregator {
    /// Whether the stored group `g` carries the incoming tuple's key.
    fn key_matches(&self, g: usize, tuple: &Tuple) -> (r: bool)
        requires
            self.wf(),
            g < self.rows().len(),
            forall|i: int| 0 <= i < self.gb().len() ==> (#[trigger] self.gb()[i]) < tview(
                *tuple,
            ).len(),
        ensures
            r == (self.rows()[g as int].subrange(0, self.gb().len() as int) == key_of(
                tview(*tuple),
                self.gb(),
            )),
    {
        let m = self.groupby_fields.len();
        let mut j: usize = 0;
        while j < m
            invariant
                self.wf(),
                g < self.rows().len(),
                m == self.gb().len(),
                forall|i: int| 0 <= i < self.gb().len() ==> (#[trigger] self.gb()[i]) < tview(
                    *tuple,
                ).len(),
                j <= m,
                forall|h: int|
                    0 <= h < j ==> self.rows()[g as int][h] == key_of(tview(*tuple), self.gb())[h],
            decreases m - j,
        {
            proof {
                assert(self.rows()[g as int].len() == self.gb().len() + self.ags().len());
                assert(tview(self.results@[g as int]).len() == self.results@[g as int].field_vals@.len());
                assert(self.gb()[j as int] < tview(*tuple).len());
            }
            if !self.results[g].field_vals[j].eq_field(
                &tuple.field_vals[self.groupby_fields[j]],
            ) {
                proof {
                    let rowk = self.rows()[g as int].subrange(0, m as int);
                    let key = key_of(tview(*tuple), self.gb());
                    if rowk == key {
                        assert(rowk[j as int] == key[j as int]);
                        assert(self.rows()[g as int][j as int] == key_of(
                            tview(*tuple),
                            self.gb(),
                        )[j as int]);
                    }
                }
                return false;
            }
            j = j + 1;
        }
        proof {
            assert(self.rows()[g as int].subrange(0, m as int) =~= key_of(
                tview(*tuple),
                self.gb(),
            ));
        }
        true
    }

    /// Fold one tuple into its group: into the first group carrying its
    /// key, updating every aggregate column; or, when no group does, into a
    /// fresh group appended in first-occurrence order.
    #[verifier::rlimit(100)]
    #[verifier::spinoff_prover]
    pub fn merge_tuple_into_group(&mut self, tuple: &Tuple)
        requires
            old(self).wf(),
            tuple_compat(tview(*tuple), old(self).gb(), old(self).ags()),
            merge_bounded(
                old(self).rows(),
                old(self).cnts(),
                tview(*tuple),
                old(self).gb(),
                old(self).ags(),
            ),
        ensures
            final(self).wf(),
            final(self).gb() == old(self).gb(),
            final(self).ags() == old(self).ags(),
            final(self).schema_spec() == old(self).schema_spec(),
            final(self).rows() =~= merge_spec(
                old(self).rows(),
                old(self).cnts(),
                tview(*tuple),
                old(self).gb(),
                old(self).ags(),
            ).0,
            final(self).cnts() =~= merge_spec(
                old(self).rows(),
                old(self).cnts(),
                tview(*tuple),
                old(self).gb(),
                old(self).ags(),
            ).1,
    {
        let ghost key = key_of(tview(*tuple), old(self).gb());
        let ghost m_int = old(self).gb().len() as int;
        let n = self.results.len();
        let mut g: usize = 0;
        while g < n
            invariant
                self == old(self),
                self.wf(),
                tuple_compat(tview(*tuple), self.gb(), self.ags()),
                n == self.rows().len(),
                g <= n,
                key == key_of(tview(*tuple), self.gb()),
                m_int == self.gb().len() as int,
                merge_bounded(self.rows(), self.cnts(), tview(*tuple), self.gb(), self.ags()),
                forall|h: int| 0 <= h < g ==> (#[trigger] self.rows()[h]).subrange(0, m_int) != key,
            decreases n - g,
        {
            if self.key_matches(g, tuple) {
                proof {
                    lemma_find_at(self.rows(), key, m_int, g as int);
                }
                let m = self.groupby_fields.len();
                let merged = merged_tuple(&self.results[g], tuple, m, &self.agg_fields);
                let c = self.counts[g];
                self.results.set(g, merged);
                self.counts.set(g, c + 1);
                proof {
                    assert(self.rows() =~= old(self).rows().update(
                        g as int,
                        merged_row(old(self).rows()[g as int], tview(*tuple), m_int, self.ags()),
                    ));
                    assert(self.cnts() =~= old(self).cnts().update(
                        g as int,
                        old(self).cnts()[g as int] + 1,
                    ));
                    assert(self.wf()) by {
                        lemma_merged_wf(*old(self), *self, tview(*tuple), g as int);
                    }
                }
                return ;
            }
            g = g + 1;
        }
        proof {
            lemma_find_none(self.rows(), key, m_int);
        }
        let seeded = seeded_tuple(tuple, &self.groupby_fields, &self.agg_fields);
        self.results.push(seeded);
        self.counts.push(1);
        proof {
            assert(self.rows() =~= old(self).rows().push(
                seeded_row(tview(*tuple), self.gb(), self.ags()),
            ));
            assert(self.cnts() =~= old(self).cnts().push(1));
            assert(self.wf()) by {
                lemma_seeded_wf(*old(self), *self, tview(*tuple));
            }
        }
    }
}

/// Folding a tuple into a group keeps the accumulator well formed.
proof fn lemma_merged_wf(prev: Aggregator, cur: Aggregator, t: Seq<FieldS>, g: int)
    requires
        prev.wf(),
        tuple_compat(t, prev.gb(), prev.ags()),
        0 <= g < prev.rows().len(),
        cur.gb() == prev.gb(),
        cur.ags() == prev.ags(),
        cur.rows() =~= prev.rows().update(
            g,
            merged_row(prev.rows()[g], t, prev.gb().len() as int, prev.ags()),
        ),
        cur.cnts() =~= prev.cnts().update(g, prev.cnts()[g] + 1),
    ensures
        cur.wf(),
{
    let m = prev.gb().len() as int;
    assert forall|g2: int, i: int|
        0 <= g2 < cur.rows().len() && 0 <= i < cur.ags().len() && ((#[trigger] cur.ags()[i]).op
            == AggOp::Sum || cur.ags()[i].op == AggOp::Count || cur.ags()[i].op
            == AggOp::Avg) implies (#[trigger] cur.rows()[g2])[cur.gb().len() + i] is IntS by {
        if g2 == g {
            assert(cur.rows()[g2][m + i] == op_merge(
                prev.ags()[i].op,
                prev.rows()[g][m + i],
                t[prev.ags()[i].field as int],
            ));
        }
    }
}

/// Seeding a fresh group keeps the accumulator well formed.
proof fn lemma_seeded_wf(prev: Aggregator, cur: Aggregator, t: Seq<FieldS>)
    requires
        prev.wf(),
        tuple_compat(t, prev.gb(), prev.ags()),
        cur.gb() == prev.gb(),
        cur.ags() == prev.ags(),
        cur.rows() =~= prev.rows().push(seeded_row(t, prev.gb(), prev.ags())),
        cur.cnts() =~= prev.cnts().push(1),
    ensures
        cur.wf(),
{
    let m = prev.gb().len() as int;
    assert forall|g2: int, i: int|
        0 <= g2 < cur.rows().len() && 0 <= i < cur.ags().len() && ((#[trigger] cur.ags()[i]).op
            == AggOp::Sum || cur.ags()[i].op == AggOp::Count || cur.ags()[i].op
            == AggOp::Avg) implies (#[trigger] cur.rows()[g2])[cur.gb().len() + i] is IntS by {
        if g2 == cur.rows().len() - 1 {
            assert(cur.rows()[g2][m + i] == op_seed(prev.ags()[i].op, t[prev.ags()[i].field as int]));
        }
    }
}


/// Integer division truncating toward zero.
pub open spec fn tdiv(a: int, b: int) -> int {
    if a >= 0 {
        a / b
    } else {
        -((-a) / b)
    }
}

/// Truncating division of a running sum by a group count.
fn div_trunc(a: i64, c: u64) -> (r: i64)
    requires
        c >= 1,
    ensures
        r as int == tdiv(a as int, c as int),
{
    if a >= 0 {
        ((a as u64) / c) as i64
    } else {
        let mag: u64 = ((-(a + 1)) as u64) + 1;
        proof {
            assert(mag as int == -(a as int));
        }
        let q = mag / c;
        if q == 0 {
            0
        } else {
            -((q - 1) as i64) - 1
        }
    }
}

/// A group's emitted row: Avg columns divided by the group count, the rest
/// already final.
pub open spec fn final_row(row: Seq<FieldS>, cnt: int, m: int, ags: Seq<AggregateField>) -> Seq<
    FieldS,
> {
    Seq::new(
        row.len(),
        |j: int|
            if j >= m && ags[j - m].op == AggOp::Avg {
                FieldS::IntS(tdiv(row[j]->IntS_0, cnt))
            } else {
                row[j]
            },
    )
}

/// All emitted rows, in group-creation order.
pub open spec fn finalize_rows(
    rows: Seq<Seq<FieldS>>,
    cnts: Seq<int>,
    m: int,
    ags: Seq<AggregateField>,
) -> Seq<Seq<FieldS>> {
    Seq::new(rows.len(), |g: int| final_row(rows[g], cnts[g], m, ags))
}

/// An in-memory pull operator over a fixed list of tuples.
pub struct TupleIterator {
    tuples: Vec<Tuple>,
    schema: TableSchema,
    index: usize,
    opened: bool,
}

impl TupleIterator {
    /// The tuples this operator yields, in order.
    pub closed spec fn stream(self) -> Seq<Seq<FieldS>> {
        self.tuples@.map_values(|t: Tuple| tview(t))
    }

    /// How many tuples have been yielded.
    pub closed spec fn cursor(self) -> int {
        self.index as int
    }

    /// Whether the operator is open.
    pub closed spec fn is_open(self) -> bool {
        self.opened
    }

    /// The schema of the yielded tuples: column names and types.
    pub closed spec fn schema_spec(self) -> Seq<(Seq<char>, DataType)> {
        sview(self.schema)
    }

    /// Operator well-formedness.
    pub closed spec fn inv(self) -> bool {
        self.index <= self.tuples@.len()
    }

    /// A closed operator over the given tuples.
    pub fn new(tuples: Vec<Tuple>, schema: TableSchema) -> (r: TupleIterator)
        ensures
            r.inv(),
            !r.is_open(),
            r.cursor() == 0,
            r.stream() == tuples@.map_values(|t: Tuple| tview(t)),
            r.schema_spec() == sview(schema),
    {
        TupleIterator { tuples, schema, index: 0, opened: false }
    }

    /// Open the operator at the start of its tuples.
    pub fn open(&mut self) -> (r: Result<(), StorageError>)
        requires
            old(self).inv(),
            !old(self).is_open(),
        ensures
            final(self).inv(),
            r is Ok,
            final(self).is_open(),
            final(self).cursor() == 0,
            final(self).stream() == old(self).stream(),
            final(self).schema_spec() == old(self).schema_spec(),
    {
        self.index = 0;
        self.opened = true;
        Ok(())
    }

    /// The next tuple, or end of stream.
    pub fn next(&mut self) -> (r: Result<Option<Tuple>, StorageError>)
        requires
            old(self).inv(),
            old(self).is_open(),
        ensures
            final(self).inv(),
            final(self).is_open(),
            final(self).stream() == old(self).stream(),
            final(self).schema_spec() == old(self).schema_spec(),
            r is Ok,
            old(self).cursor() < old(self).stream().len() ==> {
                &&& r->Ok_0 is Some
                &&& tview(r->Ok_0->Some_0) =~= old(self).stream()[old(self).cursor()]
                &&& final(self).cursor() == old(self).cursor() + 1
            },
            old(self).cursor() >= old(self).stream().len() ==> r->Ok_0 is None
                && final(self).cursor() == old(self).cursor(),
    {
        if self.index >= self.tuples.len() {
            return Ok(None);
        }
        let t = self.tuples[self.index].duplicate();
        self.index = self.index + 1;
        Ok(Some(t))
    }

    /// Close the operator.
    pub fn close(&mut self) -> (r: Result<(), StorageError>)
        requires
            old(self).inv(),
            old(self).is_open(),
        ensures
            final(self).inv(),
            r is Ok,
            !final(self).is_open(),
            final(self).stream() == old(self).stream(),
            final(self).schema_spec() == old(self).schema_spec(),
    {
        self.opened = false;
        Ok(())
    }

    /// Restart at the first tuple.
    pub fn rewind(&mut self) -> (r: Result<(), StorageError>)
        requires
            old(self).inv(),
            old(self).is_open(),
        ensures
            final(self).inv(),
            r is Ok,
            final(self).is_open(),
            final(self).cursor() == 0,
            final(self).stream() == old(self).stream(),
            final(self).schema_spec() == old(self).schema_spec(),
    {
        self.index = 0;
        Ok(())
    }

    /// The schema of the yielded tuples.
    pub fn get_schema(&self) -> (r: &TableSchema)
        ensures
            sview(*r) == self.schema_spec(),
    {
        &self.schema
    }
}

impl Aggregator {
    /// The emitted tuples: one per group in creation order, Avg columns
    /// finalized by truncating division.
    pub fn iterator(&self) -> (r: TupleIterator)
        requires
            self.wf(),
        ensures
            r.inv(),
            !r.is_open(),
            r.cursor() == 0,
            r.stream() =~= finalize_rows(
                self.rows(),
                self.cnts(),
                self.gb().len() as int,
                self.ags(),
            ),
            r.schema_spec() == self.schema_spec(),
    {
        let m = self.groupby_fields.len();
        let mut outs: Vec<Tuple> = Vec::new();
        let mut g: usize = 0;
        while g < self.results.len()
            invariant
                self.wf(),
                m == self.gb().len(),
                g <= self.rows().len(),
                outs@.len() == g as int,
                forall|h: int|
                    0 <= h < g ==> tview(#[trigger] outs@[h]) =~= finalize_rows(
                        self.rows(),
                        self.cnts(),
                        m as int,
                        self.ags(),
                    )[h],
            decreases self.rows().len() - g,
        {
            let row = &self.results[g];
            let cnt = self.counts[g];
            let width = row.field_vals.len();
            let mut fields: Vec<Field> = Vec::new();
            let mut j: usize = 0;
            while j < width
                invariant
                    self.wf(),
                    m == self.gb().len(),
                    g < self.rows().len(),
                    row == self.results@[g as int],
                    cnt == self.counts@[g as int],
                    width == tview(*row).len(),
                    width == m + self.ags().len(),
                    j <= width,
                    fields@.len() == j as int,
                    forall|h: int|
                        0 <= h < j ==> fview(#[trigger] fields@[h]) == final_row(
                            self.rows()[g as int],
                            self.cnts()[g as int],
                            m as int,
                            self.ags(),
                        )[h],
                decreases width - j,
            {
                let f: Field;
                let col = if j >= m {
                    j - m
                } else {
                    0
                };
                if j >= m && matches!(self.agg_fields[col].op, AggOp::Avg) {
                    let acc = match &row.field_vals[j] {
                        Field::IntField(a) => *a,
                        Field::StringField(_) => {
                            proof {
                                assert(false);
                            }
                            0
                        },
                    };
                    f = Field::IntField(div_trunc(acc, cnt));
                } else {
                    f = row.field_vals[j].duplicate();
                }
                fields.push(f);
                j = j + 1;
            }
            outs.push(Tuple { field_vals: fields });
            g = g + 1;
        }
        let mut attrs: Vec<Attribute> = Vec::new();
        let mut i: usize = 0;
        while i < self.schema.attributes.len()
            invariant
                i <= self.schema.attributes@.len(),
                attrs@.len() == i as int,
                forall|h: int|
                    0 <= h < i ==> (#[trigger] attrs@[h]).name@ == self.schema.attributes@[h].name@
                        && attrs@[h].dtype == self.schema.attributes@[h].dtype,
            decreases self.schema.attributes@.len() - i,
        {
            let a = &self.schema.attributes[i];
            attrs.push(Attribute { name: clone_string(&a.name), dtype: a.dtype });
            i = i + 1;
        }
        proof {
            assert(sview(TableSchema { attributes: attrs }) =~= sview(self.schema));
        }
        TupleIterator::new(outs, TableSchema { attributes: attrs })
    }
}

/// The grouped fold of a whole tuple stream, front to back.
pub open spec fn agg_rows(ts: Seq<Seq<FieldS>>, gb: Seq<usize>, ags: Seq<AggregateField>) -> (
    Seq<Seq<FieldS>>,
    Seq<int>,
)
    decreases ts.len(),
{
    if ts.len() == 0 {
        (Seq::empty(), Seq::empty())
    } else {
        let prev = agg_rows(ts.drop_last(), gb, ags);
        merge_spec(prev.0, prev.1, ts.last(), gb, ags)
    }
}

/// Every step of the fold stays inside the machine's integers.
pub open spec fn fold_ok(ts: Seq<Seq<FieldS>>, gb: Seq<usize>, ags: Seq<AggregateField>) -> bool
    decreases ts.len(),
{
    if ts.len() == 0 {
        true
    } else {
        let prev = agg_rows(ts.drop_last(), gb, ags);
        &&& fold_ok(ts.drop_last(), gb, ags)
        &&& tuple_compat(ts.last(), gb, ags)
        &&& merge_bounded(prev.0, prev.1, ts.last(), gb, ags)
    }
}

/// The fold over a prefix is a prefix of the fold.
pub proof fn lemma_fold_prefix(ts: Seq<Seq<FieldS>>, gb: Seq<usize>, ags: Seq<AggregateField>, k: int)
    requires
        fold_ok(ts, gb, ags),
        0 <= k <= ts.len(),
    ensures
        fold_ok(ts.subrange(0, k), gb, ags),
    decreases ts.len() - k,
{
    if k == ts.len() {
        assert(ts.subrange(0, k) =~= ts);
    } else {
        lemma_fold_prefix(ts, gb, ags, k + 1);
        assert(ts.subrange(0, k + 1).drop_last() =~= ts.subrange(0, k));
    }
}


/// The pull-based grouped-aggregation operator: its `open` drains the
/// upstream tuples into an `Aggregator`, then the finalized groups are
/// yielded one by one. The upstream is the in-memory `TupleIterator`; the
/// wider operator tree this protocol serves lies outside this crate.
pub struct Aggregate {
    groupby_fields: Vec<usize>,
    agg_fields: Vec<AggregateField>,
    agg_iter: TupleIterator,
    schema: TableSchema,
    open: bool,
    child: TupleIterator,
}

impl Aggregate {
    /// The group-by field indices.
    pub closed spec fn gb(self) -> Seq<usize> {
        self.groupby_fields@
    }

    /// The aggregate columns.
    pub closed spec fn ags(self) -> Seq<AggregateField> {
        self.agg_fields@
    }

    /// The output schema: column names and types.
    pub closed spec fn schema_spec(self) -> Seq<(Seq<char>, DataType)> {
        sview(self.schema)
    }

    /// Whether the operator is open.
    pub closed spec fn is_open(self) -> bool {
        self.open
    }

    /// The upstream tuples.
    pub closed spec fn child_stream(self) -> Seq<Seq<FieldS>> {
        self.child.stream()
    }

    /// The operator's whole output: the upstream folded into groups, each
    /// finalized, in group-creation order.
    pub open spec fn output(self) -> Seq<Seq<FieldS>> {
        finalize_rows(
            agg_rows(self.child_stream(), self.gb(), self.ags()).0,
            agg_rows(self.child_stream(), self.gb(), self.ags()).1,
            self.gb().len() as int,
            self.ags(),
        )
    }

    /// How many output tuples have been yielded.
    pub closed spec fn pos(self) -> int {
        self.agg_iter.cursor()
    }

    /// Operator well-formedness: a closed upstream, and, when open, an
    /// inner iterator positioned over exactly the output.
    pub closed spec fn inv(self) -> bool {
        &&& self.child.inv()
        &&& !self.child.is_open()
        &&& fold_ok(self.child.stream(), self.gb(), self.ags())
        &&& self.agg_iter.inv()
        &&& (self.open ==> {
            &&& self.agg_iter.is_open()
            &&& self.agg_iter.stream() == self.output()
        })
    }

    /// Build the operator: the output schema renames the group-by columns
    /// and types every aggregate column as an integer.
    pub fn new(
        groupby_indices: Vec<usize>,
        groupby_names: Vec<String>,
        agg_indices: Vec<usize>,
        agg_names: Vec<String>,
        ops: Vec<AggOp>,
        child: TupleIterator,
    ) -> (r: Aggregate)
        requires
            groupby_names@.len() == groupby_indices@.len(),
            agg_names@.len() == agg_indices@.len(),
            ops@.len() == agg_indices@.len(),
            forall|i: int|
                0 <= i < groupby_indices@.len() ==> (#[trigger] groupby_indices@[i])
                    < child.schema_spec().len(),
            child.inv(),
            !child.is_open(),
            fold_ok(
                child.stream(),
                groupby_indices@,
                Seq::new(
                    agg_indices@.len(),
                    |i: int| AggregateField { field: agg_indices@[i], op: ops@[i] },
                ),
            ),
        ensures
            r.inv(),
            !r.is_open(),
            r.gb() == groupby_indices@,
            r.ags() =~= Seq::new(
                agg_indices@.len(),
                |i: int| AggregateField { field: agg_indices@[i], op: ops@[i] },
            ),
            r.child_stream() == child.stream(),
            r.schema_spec().len() == groupby_indices@.len() + agg_indices@.len(),
            forall|i: int|
                0 <= i < groupby_indices@.len() ==> (#[trigger] r.schema_spec()[i]).0
                    == groupby_names@[i]@ && r.schema_spec()[i].1 == child.schema_spec()[groupby_indices@[i] as int].1,
            forall|i: int|
                0 <= i < agg_indices@.len() ==> (#[trigger] r.schema_spec()[groupby_indices@.len() + i]).0
                    == agg_names@[i]@ && r.schema_spec()[groupby_indices@.len() + i].1
                    == DataType::Int,
    {
        let mut attrs: Vec<Attribute> = Vec::new();
        let mut i: usize = 0;
        while i < groupby_indices.len()
            invariant
                groupby_names@.len() == groupby_indices@.len(),
                forall|j: int|
                    0 <= j < groupby_indices@.len() ==> (#[trigger] groupby_indices@[j])
                        < child.schema_spec().len(),
                i <= groupby_indices@.len(),
                attrs@.len() == i as int,
                forall|j: int|
                    0 <= j < i ==> (#[trigger] attrs@[j]).name@ == groupby_names@[j]@
                        && attrs@[j].dtype == child.schema_spec()[groupby_indices@[j] as int].1,
            decreases groupby_indices@.len() - i,
        {
            let src = match child.get_schema().get_attribute(groupby_indices[i]) {
                Some(a) => a,
                None => {
                    proof {
                        assert(false);
                    }
                    &child.get_schema().attributes[0]
                },
            };
            attrs.push(Attribute { name: clone_string(&groupby_names[i]), dtype: src.dtype });
            i = i + 1;
        }
        let mut agg_fields: Vec<AggregateField> = Vec::new();
        let mut j: usize = 0;
        while j < agg_indices.len()
            invariant
                groupby_names@.len() == groupby_indices@.len(),
                agg_names@.len() == agg_indices@.len(),
                ops@.len() == agg_indices@.len(),
                j <= agg_indices@.len(),
                attrs@.len() == groupby_indices@.len() + j as int,
                agg_fields@.len() == j as int,
                forall|h: int|
                    0 <= h < groupby_indices@.len() ==> (#[trigger] attrs@[h]).name@
                        == groupby_names@[h]@ && attrs@[h].dtype
                        == child.schema_spec()[groupby_indices@[h] as int].1,
                forall|h: int|
                    0 <= h < j ==> (#[trigger] attrs@[groupby_indices@.len() + h]).name@
                        == agg_names@[h]@ && attrs@[groupby_indices@.len() + h].dtype
                        == DataType::Int,
                forall|h: int|
                    0 <= h < j ==> #[trigger] agg_fields@[h] == (AggregateField {
                        field: agg_indices@[h],
                        op: ops@[h],
                    }),
            decreases agg_indices@.len() - j,
        {
            agg_fields.push(AggregateField { field: agg_indices[j], op: ops[j] });
            attrs.push(Attribute { name: clone_string(&agg_names[j]), dtype: DataType::Int });
            j = j + 1;
        }
        let schema = TableSchema { attributes: attrs };
        let empty_iter = TupleIterator::new(Vec::new(), TableSchema { attributes: Vec::new() });
        let r = Aggregate {
            groupby_fields: groupby_indices,
            agg_fields,
            agg_iter: empty_iter,
            schema,
            open: false,
            child,
        };
        proof {
            assert(r.ags() =~= Seq::new(
                agg_indices@.len(),
                |i2: int| AggregateField { field: agg_indices@[i2], op: ops@[i2] },
            ));
        }
        r
    }

    /// Open: drain the upstream into the accumulator, then stand at the
    /// first finalized group.
    #[verifier::rlimit(100)]
    #[verifier::spinoff_prover]
    pub fn open(&mut self) -> (r: Result<(), StorageError>)
        requires
            old(self).inv(),
            !old(self).is_open(),
        ensures
            final(self).inv(),
            r is Ok,
            final(self).is_open(),
            final(self).pos() == 0,
            final(self).gb() == old(self).gb(),
            final(self).ags() == old(self).ags(),
            final(self).schema_spec() == old(self).schema_spec(),
            final(self).child_stream() == old(self).child_stream(),
            final(self).output() == old(self).output(),
    {
        let mut attrs: Vec<Attribute> = Vec::new();
        let mut i: usize = 0;
        while i < self.schema.attributes.len()
            invariant
                i <= self.schema.attributes@.len(),
                attrs@.len() == i as int,
                forall|h: int|
                    0 <= h < i ==> (#[trigger] attrs@[h]).name@ == self.schema.attributes@[h].name@
                        && attrs@[h].dtype == self.schema.attributes@[h].dtype,
            decreases self.schema.attributes@.len() - i,
        {
            let a = &self.schema.attributes[i];
            attrs.push(Attribute { name: clone_string(&a.name), dtype: a.dtype });
            i = i + 1;
        }
        let mut fields_copy: Vec<AggregateField> = Vec::new();
        let mut j: usize = 0;
        while j < self.agg_fields.len()
            invariant
                j <= self.agg_fields@.len(),
                fields_copy@.len() == j as int,
                forall|h: int| 0 <= h < j ==> #[trigger] fields_copy@[h] == self.agg_fields@[h],
            decreases self.agg_fields@.len() - j,
        {
            fields_copy.push(self.agg_fields[j]);
            j = j + 1;
        }
        let mut gb_copy: Vec<usize> = Vec::new();
        let mut j2: usize = 0;
        while j2 < self.groupby_fields.len()
            invariant
                j2 <= self.groupby_fields@.len(),
                gb_copy@.len() == j2 as int,
                forall|h: int| 0 <= h < j2 ==> #[trigger] gb_copy@[h] == self.groupby_fields@[h],
            decreases self.groupby_fields@.len() - j2,
        {
            gb_copy.push(self.groupby_fields[j2]);
            j2 = j2 + 1;
        }
        proof {
            assert(fields_copy@ =~= self.agg_fields@);
            assert(gb_copy@ =~= self.groupby_fields@);
        }
        let mut agg = Aggregator::new(fields_copy, gb_copy, &TableSchema { attributes: attrs });
        match self.child.open() {
            Ok(()) => {},
            Err(_) => {},
        }
        loop
            invariant
                self.child.inv(),
                self.child.is_open(),
                self.child.stream() == old(self).child_stream(),
                self.gb() == old(self).gb(),
                self.ags() == old(self).ags(),
                self.schema_spec() == old(self).schema_spec(),
                self.open == old(self).open,
                self.agg_iter == old(self).agg_iter,
                fold_ok(self.child.stream(), self.gb(), self.ags()),
                0 <= self.child.cursor() <= self.child.stream().len(),
                agg.wf(),
                agg.gb() == self.gb(),
                agg.ags() == self.ags(),
                agg.rows() =~= agg_rows(
                    self.child.stream().subrange(0, self.child.cursor()),
                    self.gb(),
                    self.ags(),
                ).0,
                agg.cnts() =~= agg_rows(
                    self.child.stream().subrange(0, self.child.cursor()),
                    self.gb(),
                    self.ags(),
                ).1,
            ensures
                self.child.inv(),
                self.child.is_open(),
                self.child.stream() == old(self).child_stream(),
                self.child.cursor() == self.child.stream().len(),
                self.gb() == old(self).gb(),
                self.ags() == old(self).ags(),
                self.schema_spec() == old(self).schema_spec(),
                self.open == old(self).open,
                self.agg_iter == old(self).agg_iter,
                fold_ok(self.child.stream(), self.gb(), self.ags()),
                agg.wf(),
                agg.gb() == self.gb(),
                agg.ags() == self.ags(),
                agg.rows() =~= agg_rows(self.child.stream(), self.gb(), self.ags()).0,
                agg.cnts() =~= agg_rows(self.child.stream(), self.gb(), self.ags()).1,
            decreases self.child.stream().len() - self.child.cursor(),
        {
            let ghost cur = self.child.cursor();
            let nxt = match self.child.next() {
                Ok(x) => x,
                Err(_) => None,
            };
            match nxt {
                None => {
                    proof {
                        assert(self.child.stream().subrange(0, self.child.cursor())
                            =~= self.child.stream());
                    }
                    break ;
                },
                Some(t) => {
                    proof {
                        let ts = self.child.stream();
                        lemma_fold_prefix(ts, self.gb(), self.ags(), cur + 1);
                        assert(ts.subrange(0, cur + 1).drop_last() =~= ts.subrange(0, cur));
                        assert(ts.subrange(0, cur + 1).last() == ts[cur]);
                        assert(tview(t) =~= ts[cur]);
                        assert(tuple_compat(tview(t), agg.gb(), agg.ags()));
                        assert(merge_bounded(agg.rows(), agg.cnts(), tview(t), agg.gb(), agg.ags()));
                    }
                    agg.merge_tuple_into_group(&t);
                    proof {
                        let ts = self.child.stream();
                        assert(agg.rows() =~= agg_rows(ts.subrange(0, cur + 1), self.gb(), self.ags()).0);
                        assert(agg.cnts() =~= agg_rows(ts.subrange(0, cur + 1), self.gb(), self.ags()).1);
                    }
                },
            }
        }
        match self.child.close() {
            Ok(()) => {},
            Err(_) => {},
        }
        proof {
            assert(self.child.stream().subrange(0, self.child.stream().len() as int)
                =~= self.child.stream());
        }
        let mut it = agg.iterator();
        match it.open() {
            Ok(()) => {},
            Err(_) => {},
        }
        self.agg_iter = it;
        self.open = true;
        proof {
            assert(self.agg_iter.stream() =~= self.output());
        }
        Ok(())
    }

    /// The next finalized group, or end of stream.
    pub fn next(&mut self) -> (r: Result<Option<Tuple>, StorageError>)
        requires
            old(self).inv(),
            old(self).is_open(),
        ensures
            final(self).inv(),
            r is Ok,
            final(self).is_open(),
            final(self).output() == old(self).output(),
            final(self).schema_spec() == old(self).schema_spec(),
            old(self).pos() < old(self).output().len() ==> {
                &&& r->Ok_0 is Some
                &&& tview(r->Ok_0->Some_0) =~= old(self).output()[old(self).pos()]
                &&& final(self).pos() == old(self).pos() + 1
            },
            old(self).pos() >= old(self).output().len() ==> r->Ok_0 is None
                && final(self).pos() == old(self).pos(),
    {
        self.agg_iter.next()
    }

    /// Close the operator.
    pub fn close(&mut self) -> (r: Result<(), StorageError>)
        requires
            old(self).inv(),
            old(self).is_open(),
        ensures
            final(self).inv(),
            r is Ok,
            !final(self).is_open(),
            final(self).output() == old(self).output(),
            final(self).schema_spec() == old(self).schema_spec(),
            final(self).child_stream() == old(self).child_stream(),
    {
        self.open = false;
        Ok(())
    }

    /// Rewind: close and reopen, re-consuming the upstream. The output
    /// sequence is identical and the cursor returns to the start.
    pub fn rewind(&mut self) -> (r: Result<(), StorageError>)
        requires
            old(self).inv(),
            old(self).is_open(),
        ensures
            final(self).inv(),
            r is Ok,
            final(self).is_open(),
            final(self).pos() == 0,
            final(self).output() == old(self).output(),
            final(self).schema_spec() == old(self).schema_spec(),
    {
        match self.close() {
            Ok(()) => {},
            Err(_) => {},
        }
        self.open()
    }

    /// The output schema.
    pub fn get_schema(&self) -> (r: &TableSchema)
        ensures
            sview(*r) == self.schema_spec(),
    {
        &self.schema
    }

    /// Whether the operator is open.
    pub fn is_opened(&self) -> (r: bool)
        ensures
            r == self.is_open(),
    {
        self.open
    }
}

} // verus!
