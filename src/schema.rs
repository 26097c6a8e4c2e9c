//! Schema changes: from the schema in force and a wanted one, the
//! operations that move the database from one to the other, or why that
//! would need a destructive change.
use vstd::prelude::*;

verus! {

/// A column of a table.
pub struct Column {
    pub name: Vec<u8>,
    pub sql_type: Vec<u8>,
    pub nullable: bool,
    pub default_value: Option<Vec<u8>>,
    pub primary_key: bool,
}

pub struct ColumnModel {
    pub name: Seq<u8>,
    pub sql_type: Seq<u8>,
    pub nullable: bool,
    pub default_value: Option<Seq<u8>>,
    pub primary_key: bool,
}

impl View for Column {
    type V = ColumnModel;

    open spec fn view(&self) -> ColumnModel {
        ColumnModel {
            name: self.name@,
            sql_type: self.sql_type@,
            nullable: self.nullable,
            default_value: match self.default_value {
                Some(d) => Some(d@),
                None => None,
            },
            primary_key: self.primary_key,
        }
    }
}

/// An index, with its definition in normalized form.
pub struct Index {
    pub name: Vec<u8>,
    pub definition: Vec<u8>,
}

/// A table: its columns and indexes in declaration order.
pub struct Table {
    pub name: Vec<u8>,
    pub columns: Vec<Column>,
    pub indexes: Vec<Index>,
}

/// The tracked tables.
pub struct Schema {
    pub tables: Vec<Table>,
}

/// Equal byte strings.
pub fn bytes_eq(a: &Vec<u8>, b: &Vec<u8>) -> (r: bool)
    ensures
        r == (a@ == b@),
{
    if a.len() != b.len() {
        return false;
    }
    let mut i: usize = 0;
    while i < a.len()
        invariant
            i <= a@.len() == b@.len(),
            a@.subrange(0, i as int) == b@.subrange(0, i as int),
        decreases a@.len() - i,
    {
        if a[i] != b[i] {
            assert(a@[i as int] != b@[i as int]);
            return false;
        }
        assert(a@.subrange(0, i + 1) =~= a@.subrange(0, i as int).push(a@[i as int]));
        assert(b@.subrange(0, i + 1) =~= b@.subrange(0, i as int).push(b@[i as int]));
        i = i + 1;
    }
    assert(a@.subrange(0, i as int) =~= a@);
    assert(b@.subrange(0, i as int) =~= b@);
    true
}

fn column_eq(a: &Column, b: &Column) -> (r: bool)
    ensures
        r == (a@ == b@),
{
    if !bytes_eq(&a.name, &b.name) || !bytes_eq(&a.sql_type, &b.sql_type) || a.nullable
        != b.nullable || a.primary_key != b.primary_key {
        return false;
    }
    match (&a.default_value, &b.default_value) {
        (None, None) => true,
        (Some(x), Some(y)) => bytes_eq(x, y),
        _ => false,
    }
}

/// The first position in `names` that holds `name`.
pub open spec fn first_named(names: Seq<Seq<u8>>, name: Seq<u8>) -> Option<int>
    decreases names.len(),
{
    if names.len() == 0 {
        None
    } else if names.last() == name && first_named(names.drop_last(), name) is None {
        Some(names.len() - 1)
    } else {
        first_named(names.drop_last(), name)
    }
}

pub proof fn lemma_first_named(names: Seq<Seq<u8>>, name: Seq<u8>)
    ensures
        match first_named(names, name) {
            Some(i) => 0 <= i < names.len() && names[i] == name && forall|j: int|
                0 <= j < i ==> names[j] != name,
            None => forall|j: int| 0 <= j < names.len() ==> names[j] != name,
        },
    decreases names.len(),
{
    if names.len() > 0 {
        let p = names.drop_last();
        lemma_first_named(p, name);
        assert forall|j: int| 0 <= j < p.len() implies p[j] == names[j] by {}
        match first_named(p, name) {
            Some(i) => {
                assert(first_named(names, name) == Some(i));
            },
            None => {
                if names.last() == name {
                    assert(first_named(names, name) == Some(names.len() - 1));
                } else {
                    assert(first_named(names, name) is None);
                    assert forall|j: int| 0 <= j < names.len() implies names[j] != name by {
                        if j < p.len() {
                            assert(p[j] != name);
                        }
                    }
                }
            },
        }
    }
}

pub proof fn lemma_first_named_is(names: Seq<Seq<u8>>, name: Seq<u8>, i: int)
    requires
        0 <= i < names.len(),
        names[i] == name,
        forall|j: int| 0 <= j < i ==> names[j] != name,
    ensures
        first_named(names, name) == Some(i),
{
    lemma_first_named(names, name);
    match first_named(names, name) {
        Some(k) => {
            if k < i {
                assert(names[k] != name);
            } else if k > i {
            }
        },
        None => {
            assert(names[i] != name);
        },
    }
}

pub proof fn lemma_first_named_none(names: Seq<Seq<u8>>, name: Seq<u8>)
    requires
        forall|j: int| 0 <= j < names.len() ==> names[j] != name,
    ensures
        first_named(names, name) is None,
{
    lemma_first_named(names, name);
    if first_named(names, name) is Some {
        let k = first_named(names, name).unwrap();
        assert(names[k] != name);
    }
}

pub open spec fn column_names(cs: Seq<Column>) -> Seq<Seq<u8>> {
    cs.map_values(|c: Column| c.name@)
}

pub open spec fn index_names(xs: Seq<Index>) -> Seq<Seq<u8>> {
    xs.map_values(|x: Index| x.name@)
}

pub open spec fn table_names(ts: Seq<Table>) -> Seq<Seq<u8>> {
    ts.map_values(|t: Table| t.name@)
}

fn find_column(cs: &Vec<Column>, name: &Vec<u8>) -> (r: Option<usize>)
    ensures
        r matches Some(j) ==> j < cs@.len() && cs@[j as int].name@ == name@,
        r matches Some(j) ==> first_named(column_names(cs@), name@) == Some(j as int),
        r is None ==> first_named(column_names(cs@), name@) is None,
{
    let mut i: usize = 0;
    while i < cs.len()
        invariant
            i <= cs@.len(),
            forall|j: int| 0 <= j < i ==> column_names(cs@)[j] != name@,
        decreases cs@.len() - i,
    {
        if bytes_eq(&cs[i].name, name) {
            proof {
                lemma_first_named_is(column_names(cs@), name@, i as int);
            }
            return Some(i);
        }
        i = i + 1;
    }
    proof {
        lemma_first_named_none(column_names(cs@), name@);
    }
    None
}

fn find_index(xs: &Vec<Index>, name: &Vec<u8>) -> (r: Option<usize>)
    ensures
        r matches Some(j) ==> j < xs@.len() && xs@[j as int].name@ == name@,
        r matches Some(j) ==> first_named(index_names(xs@), name@) == Some(j as int),
        r is None ==> first_named(index_names(xs@), name@) is None,
{
    let mut i: usize = 0;
    while i < xs.len()
        invariant
            i <= xs@.len(),
            forall|j: int| 0 <= j < i ==> index_names(xs@)[j] != name@,
        decreases xs@.len() - i,
    {
        if bytes_eq(&xs[i].name, name) {
            proof {
                lemma_first_named_is(index_names(xs@), name@, i as int);
            }
            return Some(i);
        }
        i = i + 1;
    }
    proof {
        lemma_first_named_none(index_names(xs@), name@);
    }
    None
}

fn find_table(ts: &Vec<Table>, name: &Vec<u8>) -> (r: Option<usize>)
    ensures
        r matches Some(j) ==> j < ts@.len() && ts@[j as int].name@ == name@,
        r matches Some(j) ==> first_named(table_names(ts@), name@) == Some(j as int),
        r is None ==> first_named(table_names(ts@), name@) is None,
{
    let mut i: usize = 0;
    while i < ts.len()
        invariant
            i <= ts@.len(),
            forall|j: int| 0 <= j < i ==> table_names(ts@)[j] != name@,
        decreases ts@.len() - i,
    {
        if bytes_eq(&ts[i].name, name) {
            proof {
                lemma_first_named_is(table_names(ts@), name@, i as int);
            }
            return Some(i);
        }
        i = i + 1;
    }
    proof {
        lemma_first_named_none(table_names(ts@), name@);
    }
    None
}

/// The first position below `n` where `p` holds.
pub open spec fn first_where(n: int, p: spec_fn(int) -> bool) -> Option<int>
    decreases n,
{
    if n <= 0 {
        None
    } else {
        match first_where(n - 1, p) {
            Some(i) => Some(i),
            None => if p(n - 1) {
                Some(n - 1)
            } else {
                None
            },
        }
    }
}

/// `f` of each position below `m` where `p` holds, in increasing order.
pub open spec fn ops_where(m: int, p: spec_fn(int) -> bool, f: spec_fn(int) -> SchemaOp) -> Seq<
    SchemaOp,
>
    decreases m,
{
    if m <= 0 {
        Seq::empty()
    } else if p(m - 1) {
        ops_where(m - 1, p, f).push(f(m - 1))
    } else {
        ops_where(m - 1, p, f)
    }
}

/// The names at the positions below `m` where `p` holds, in order.
pub open spec fn names_where(m: int, p: spec_fn(int) -> bool, names: Seq<Seq<u8>>) -> Seq<Seq<u8>>
    decreases m,
{
    if m <= 0 {
        Seq::empty()
    } else if p(m - 1) {
        names_where(m - 1, p, names).push(names[m - 1])
    } else {
        names_where(m - 1, p, names)
    }
}

pub proof fn lemma_first_where_stable(m: int, m2: int, p: spec_fn(int) -> bool)
    requires
        first_where(m, p) is Some,
        m <= m2,
    ensures
        first_where(m2, p) == first_where(m, p),
        0 <= first_where(m, p).unwrap() < m,
    decreases m2,
{
    if m2 > m {
        lemma_first_where_stable(m, m2 - 1, p);
    } else {
        lemma_first_where_bound(m, p);
    }
}

pub proof fn lemma_first_where_bound(m: int, p: spec_fn(int) -> bool)
    ensures
        first_where(m, p) matches Some(i) ==> 0 <= i < m && p(i),
    decreases m,
{
    if m > 0 {
        lemma_first_where_bound(m - 1, p);
    }
}

/// What the database needs to take the wanted schema. Positions in
/// `CreateTable`, `CreateIndex`, `AddColumn` and `ReplaceIndex` are in the
/// wanted schema; `RebuildTable` names the wanted table and the table in
/// force; `DropIndex` is in the schema in force.
#[derive(Clone, Copy, Debug, PartialEq, Eq, Structural)]
pub enum SchemaOp {
    CreateTable { table: usize },
    CreateIndex { table: usize, index: usize },
    AddColumn { table: usize, column: usize },
    RebuildTable { table: usize, from: usize },
    DropIndex { table: usize, index: usize },
    ReplaceIndex { table: usize, index: usize },
}

/// Why the wanted schema cannot be taken without a destructive change.
/// `DropTable` and `DropColumn` point into the schema in force, the others
/// into the wanted schema.
#[derive(Clone, Copy, Debug, PartialEq, Eq, Structural)]
pub enum SchemaError {
    DropTable { table: usize },
    DropColumn { table: usize, column: usize },
    PrimaryKeyAdded { table: usize, column: usize },
    NotNullWithoutDefault { table: usize, column: usize },
    PrimaryKeysChanged { table: usize },
}

/// Column `k` of `oc` is gone from `nc`.
pub open spec fn column_dropped(oc: Seq<Column>, nc: Seq<Column>) -> spec_fn(int) -> bool {
    |k: int| first_named(column_names(nc), oc[k].name@) is None
}

/// Column `k` of `oc` stands in `nc` with another definition.
pub open spec fn column_changed(oc: Seq<Column>, nc: Seq<Column>) -> spec_fn(int) -> bool {
    |k: int|
        match first_named(column_names(nc), oc[k].name@) {
            Some(j) => nc[j]@ != oc[k]@,
            None => false,
        }
}

/// Column `j` of `nc` is new.
pub open spec fn column_added(oc: Seq<Column>, nc: Seq<Column>) -> spec_fn(int) -> bool {
    |j: int| first_named(column_names(oc), nc[j].name@) is None
}

/// Column `j` of `nc` is new and cannot be added to existing rows.
pub open spec fn column_unaddable(oc: Seq<Column>, nc: Seq<Column>) -> spec_fn(int) -> bool {
    |j: int|
        first_named(column_names(oc), nc[j].name@) is None && (nc[j].primary_key || (
        !nc[j].nullable && nc[j].default_value is None))
}

/// Column `k` of `cs` is part of the primary key.
pub open spec fn column_is_key(cs: Seq<Column>) -> spec_fn(int) -> bool {
    |k: int| cs[k].primary_key
}

/// The names of the primary-key columns, in order.
pub open spec fn primary_keys(cs: Seq<Column>) -> Seq<Seq<u8>> {
    names_where(cs.len() as int, column_is_key(cs), column_names(cs))
}

pub open spec fn index_added(oi: Seq<Index>, ni: Seq<Index>) -> spec_fn(int) -> bool {
    |j: int| first_named(index_names(oi), ni[j].name@) is None
}

pub open spec fn index_dropped(oi: Seq<Index>, ni: Seq<Index>) -> spec_fn(int) -> bool {
    |k: int| first_named(index_names(ni), oi[k].name@) is None
}

pub open spec fn index_changed(oi: Seq<Index>, ni: Seq<Index>) -> spec_fn(int) -> bool {
    |k: int|
        match first_named(index_names(ni), oi[k].name@) {
            Some(j) => ni[j].definition@ != oi[k].definition@,
            None => false,
        }
}

pub open spec fn table_gone(ot: Seq<Table>, nt: Seq<Table>) -> spec_fn(int) -> bool {
    |k: int| first_named(table_names(nt), ot[k].name@) is None
}

pub open spec fn every_position() -> spec_fn(int) -> bool {
    |j: int| true
}

pub open spec fn add_column_op(n: int) -> spec_fn(int) -> SchemaOp {
    |j: int| SchemaOp::AddColumn { table: n as usize, column: j as usize }
}

pub open spec fn create_index_op(n: int) -> spec_fn(int) -> SchemaOp {
    |j: int| SchemaOp::CreateIndex { table: n as usize, index: j as usize }
}

pub open spec fn drop_index_op(o: int) -> spec_fn(int) -> SchemaOp {
    |k: int| SchemaOp::DropIndex { table: o as usize, index: k as usize }
}

pub open spec fn replace_index_op(n: int, oi: Seq<Index>, ni: Seq<Index>) -> spec_fn(int) -> SchemaOp {
    |k: int|
        SchemaOp::ReplaceIndex {
            table: n as usize,
            index: first_named(index_names(ni), oi[k].name@).unwrap() as usize,
        }
}

/// Index operations for a table in both schemas: new indexes are created,
/// gone ones dropped, changed ones replaced by their new definition.
pub open spec fn index_ops(o: int, n: int, oi: Seq<Index>, ni: Seq<Index>) -> Seq<SchemaOp> {
    ops_where(ni.len() as int, index_added(oi, ni), create_index_op(n)) + ops_where(
        oi.len() as int,
        index_dropped(oi, ni),
        drop_index_op(o),
    ) + ops_where(oi.len() as int, index_changed(oi, ni), replace_index_op(n, oi, ni))
}

/// The column operations for a table in both schemas: with no changed
/// column the new ones are added (none may be a primary key, nor non-null
/// without a default); otherwise the table is rebuilt, keeping its
/// primary keys.
pub open spec fn column_plan(o: int, n: int, oc: Seq<Column>, nc: Seq<Column>) -> Result<
    Seq<SchemaOp>,
    SchemaError,
> {
    if first_where(oc.len() as int, column_changed(oc, nc)) is None {
        match first_where(nc.len() as int, column_unaddable(oc, nc)) {
            Some(j) => if nc[j].primary_key {
                Err(SchemaError::PrimaryKeyAdded { table: n as usize, column: j as usize })
            } else {
                Err(SchemaError::NotNullWithoutDefault { table: n as usize, column: j as usize })
            },
            None => Ok(ops_where(nc.len() as int, column_added(oc, nc), add_column_op(n))),
        }
    } else if primary_keys(oc) != primary_keys(nc) {
        Err(SchemaError::PrimaryKeysChanged { table: n as usize })
    } else {
        Ok(seq![SchemaOp::RebuildTable { table: n as usize, from: o as usize }])
    }
}

/// The operations for table `n` of the wanted schema that stands as table
/// `o` in force; a gone column is refused.
pub open spec fn common_table_plan(cur: Schema, want: Schema, o: int, n: int) -> Result<
    Seq<SchemaOp>,
    SchemaError,
> {
    let ot = cur.tables@[o];
    let nt = want.tables@[n];
    match first_where(ot.columns@.len() as int, column_dropped(ot.columns@, nt.columns@)) {
        Some(k) => Err(SchemaError::DropColumn { table: o as usize, column: k as usize }),
        None => match column_plan(o, n, ot.columns@, nt.columns@) {
            Err(e) => Err(e),
            Ok(ops) => Ok(ops + index_ops(o, n, ot.indexes@, nt.indexes@)),
        },
    }
}

/// The operations for table `n` of the wanted schema.
pub open spec fn table_plan(cur: Schema, want: Schema, n: int) -> Result<Seq<SchemaOp>, SchemaError> {
    match first_named(table_names(cur.tables@), want.tables@[n].name@) {
        Some(o) => common_table_plan(cur, want, o, n),
        None => Ok(
            seq![SchemaOp::CreateTable { table: n as usize }] + ops_where(
                want.tables@[n].indexes@.len() as int,
                every_position(),
                create_index_op(n),
            ),
        ),
    }
}

/// The operations for the first `m` tables of the wanted schema, in order;
/// the first refusal wins.
pub open spec fn plan_upto(cur: Schema, want: Schema, m: int) -> Result<Seq<SchemaOp>, SchemaError>
    decreases m,
{
    if m <= 0 {
        Ok(Seq::empty())
    } else {
        match plan_upto(cur, want, m - 1) {
            Err(e) => Err(e),
            Ok(ops) => match table_plan(cur, want, m - 1) {
                Err(e) => Err(e),
                Ok(t) => Ok(ops + t),
            },
        }
    }
}

/// The plan that takes the schema in force to the wanted one: a table gone
/// from the wanted schema is refused, then each wanted table in turn.
pub open spec fn schema_plan(cur: Schema, want: Schema) -> Result<Seq<SchemaOp>, SchemaError> {
    match first_where(cur.tables@.len() as int, table_gone(cur.tables@, want.tables@)) {
        Some(k) => Err(SchemaError::DropTable { table: k as usize }),
        None => plan_upto(cur, want, want.tables@.len() as int),
    }
}

fn first_dropped_column(oc: &Vec<Column>, nc: &Vec<Column>) -> (r: Option<usize>)
    ensures
        r matches Some(k) ==> first_where(oc@.len() as int, column_dropped(oc@, nc@)) == Some(k as int),
        r is None ==> first_where(oc@.len() as int, column_dropped(oc@, nc@)) is None,
{
    let mut i: usize = 0;
    while i < oc.len()
        invariant
            i <= oc@.len(),
            first_where(i as int, column_dropped(oc@, nc@)) is None,
        decreases oc@.len() - i,
    {
        if find_column(nc, &oc[i].name).is_none() {
            assert(first_where(i + 1, column_dropped(oc@, nc@)) == Some(i as int));
            proof {
                lemma_first_where_stable(i + 1, oc@.len() as int, column_dropped(oc@, nc@));
            }
            return Some(i);
        }
        i = i + 1;
    }
    None
}

fn has_changed_column(oc: &Vec<Column>, nc: &Vec<Column>) -> (r: bool)
    ensures
        r == (first_where(oc@.len() as int, column_changed(oc@, nc@)) is Some),
{
    let mut i: usize = 0;
    while i < oc.len()
        invariant
            i <= oc@.len(),
            first_where(i as int, column_changed(oc@, nc@)) is None,
        decreases oc@.len() - i,
    {
        proof {
            lemma_first_named(column_names(nc@), oc@[i as int].name@);
        }
        let found = find_column(nc, &oc[i].name);
        proof {
            match found {
                Some(j) => {
                    assert(first_named(column_names(nc@), oc@[i as int].name@) == Some(j as int));
                    assert(column_changed(oc@, nc@)(i as int) == (nc@[j as int]@ != oc@[i as int]@));
                },
                None => {
                    assert(column_changed(oc@, nc@)(i as int) == false);
                },
            }
        }
        match found {
            Some(j) => {
                if !column_eq(&nc[j], &oc[i]) {
                    assert(first_where(i + 1, column_changed(oc@, nc@)) == Some(i as int));
                    proof {
                        lemma_first_where_stable(i + 1, oc@.len() as int, column_changed(oc@, nc@));
                    }
                    return true;
                }
            },
            None => {},
        }
        i = i + 1;
    }
    false
}

fn first_unaddable_column(oc: &Vec<Column>, nc: &Vec<Column>) -> (r: Option<usize>)
    ensures
        r matches Some(k) ==> first_where(nc@.len() as int, column_unaddable(oc@, nc@)) == Some(k as int),
        r is None ==> first_where(nc@.len() as int, column_unaddable(oc@, nc@)) is None,
{
    let mut i: usize = 0;
    while i < nc.len()
        invariant
            i <= nc@.len(),
            first_where(i as int, column_unaddable(oc@, nc@)) is None,
        decreases nc@.len() - i,
    {
        if find_column(oc, &nc[i].name).is_none() && (nc[i].primary_key || (!nc[i].nullable
            && nc[i].default_value.is_none())) {
            assert(first_where(i + 1, column_unaddable(oc@, nc@)) == Some(i as int));
            proof {
                lemma_first_where_stable(i + 1, nc@.len() as int, column_unaddable(oc@, nc@));
            }
            return Some(i);
        }
        i = i + 1;
    }
    None
}

fn push_added_columns(ops: &mut Vec<SchemaOp>, n: usize, oc: &Vec<Column>, nc: &Vec<Column>)
    ensures
        final(ops)@ == old(ops)@ + ops_where(nc@.len() as int, column_added(oc@, nc@), add_column_op(n as int)),
{
    let ghost start = ops@;
    let mut i: usize = 0;
    while i < nc.len()
        invariant
            i <= nc@.len(),
            ops@ == start + ops_where(i as int, column_added(oc@, nc@), add_column_op(n as int)),
        decreases nc@.len() - i,
    {
        if find_column(oc, &nc[i].name).is_none() {
            ops.push(SchemaOp::AddColumn { table: n, column: i });
            assert(ops@ =~= start + ops_where(i + 1, column_added(oc@, nc@), add_column_op(n as int)));
        }
        i = i + 1;
    }
}

fn key_positions(cs: &Vec<Column>) -> (r: Vec<usize>)
    ensures
        r@.len() == primary_keys(cs@).len(),
        forall|t: int|
            0 <= t < r@.len() ==> #[trigger] r@[t] < cs@.len() && cs@[r@[t] as int].name@ == primary_keys(cs@)[t],
{
    let mut out: Vec<usize> = Vec::new();
    let mut i: usize = 0;
    while i < cs.len()
        invariant
            i <= cs@.len(),
            out@.len() == names_where(i as int, column_is_key(cs@), column_names(cs@)).len(),
            forall|t: int|
                0 <= t < out@.len() ==> #[trigger] out@[t] < cs@.len() && cs@[out@[t] as int].name@ == names_where(
                    i as int,
                    column_is_key(cs@),
                    column_names(cs@),
                )[t],
        decreases cs@.len() - i,
    {
        let ghost before = out@;
        let ghost prev = names_where(i as int, column_is_key(cs@), column_names(cs@));
        if cs[i].primary_key {
            out.push(i);
            proof {
                let next = names_where(i + 1, column_is_key(cs@), column_names(cs@));
                assert(next == prev.push(column_names(cs@)[i as int]));
                assert forall|t: int| 0 <= t < out@.len() implies #[trigger] out@[t] < cs@.len() && cs@[out@[t] as int].name@ == next[t] by {
                    if t < before.len() {
                        assert(out@[t] == before[t]);
                    }
                }
            }
        }
        i = i + 1;
    }
    out
}

fn same_primary_keys(oc: &Vec<Column>, nc: &Vec<Column>) -> (r: bool)
    ensures
        r == (primary_keys(oc@) == primary_keys(nc@)),
{
    let ok = key_positions(oc);
    let nk = key_positions(nc);
    if ok.len() != nk.len() {
        return false;
    }
    let mut t: usize = 0;
    while t < ok.len()
        invariant
            ok@.len() == nk@.len() == primary_keys(oc@).len() == primary_keys(nc@).len(),
            t <= ok@.len(),
            forall|x: int| 0 <= x < ok@.len() ==> #[trigger] ok@[x] < oc@.len() && oc@[ok@[x] as int].name@ == primary_keys(oc@)[x],
            forall|x: int| 0 <= x < nk@.len() ==> #[trigger] nk@[x] < nc@.len() && nc@[nk@[x] as int].name@ == primary_keys(nc@)[x],
            forall|x: int| 0 <= x < t ==> primary_keys(oc@)[x] == primary_keys(nc@)[x],
        decreases ok@.len() - t,
    {
        if !bytes_eq(&oc[ok[t]].name, &nc[nk[t]].name) {
            assert(primary_keys(oc@)[t as int] != primary_keys(nc@)[t as int]);
            return false;
        }
        t = t + 1;
    }
    assert(primary_keys(oc@) =~= primary_keys(nc@));
    true
}

fn push_index_ops(ops: &mut Vec<SchemaOp>, o: usize, n: usize, oi: &Vec<Index>, ni: &Vec<Index>)
    ensures
        final(ops)@ == old(ops)@ + index_ops(o as int, n as int, oi@, ni@),
{
    let ghost start = ops@;
    let mut j: usize = 0;
    while j < ni.len()
        invariant
            j <= ni@.len(),
            ops@ == start + ops_where(j as int, index_added(oi@, ni@), create_index_op(n as int)),
        decreases ni@.len() - j,
    {
        if find_index(oi, &ni[j].name).is_none() {
            ops.push(SchemaOp::CreateIndex { table: n, index: j });
            assert(ops@ =~= start + ops_where(j + 1, index_added(oi@, ni@), create_index_op(n as int)));
        }
        j = j + 1;
    }
    let ghost mid = ops@;
    let mut k: usize = 0;
    while k < oi.len()
        invariant
            k <= oi@.len(),
            ops@ == mid + ops_where(k as int, index_dropped(oi@, ni@), drop_index_op(o as int)),
        decreases oi@.len() - k,
    {
        if find_index(ni, &oi[k].name).is_none() {
            ops.push(SchemaOp::DropIndex { table: o, index: k });
            assert(ops@ =~= mid + ops_where(k + 1, index_dropped(oi@, ni@), drop_index_op(o as int)));
        }
        k = k + 1;
    }
    let ghost late = ops@;
    let mut k: usize = 0;
    while k < oi.len()
        invariant
            k <= oi@.len(),
            ops@ == late + ops_where(k as int, index_changed(oi@, ni@), replace_index_op(n as int, oi@, ni@)),
        decreases oi@.len() - k,
    {
        match find_index(ni, &oi[k].name) {
            Some(x) => {
                proof {
                    lemma_first_named(index_names(ni@), oi@[k as int].name@);
                }
                if !bytes_eq(&ni[x].definition, &oi[k].definition) {
                    ops.push(SchemaOp::ReplaceIndex { table: n, index: x });
                    assert(ops@ =~= late + ops_where(k + 1, index_changed(oi@, ni@), replace_index_op(n as int, oi@, ni@)));
                }
            },
            None => {},
        }
        k = k + 1;
    }
    assert(ops@ =~= start + index_ops(o as int, n as int, oi@, ni@));
}

fn push_table_plan(ops: &mut Vec<SchemaOp>, cur: &Schema, want: &Schema, n: usize) -> (r: Result<
    (),
    SchemaError,
>)
    requires
        n < want.tables@.len(),
    ensures
        match table_plan(*cur, *want, n as int) {
            Ok(t) => r is Ok && final(ops)@ == old(ops)@ + t,
            Err(e) => r == Err::<(), SchemaError>(e),
        },
{
    let nt = &want.tables[n];
    let ghost start = ops@;
    match find_table(&cur.tables, &nt.name) {
        None => {
            ops.push(SchemaOp::CreateTable { table: n });
            let ghost mid = ops@;
            let mut j: usize = 0;
            while j < nt.indexes.len()
                invariant
                    j <= nt.indexes@.len(),
                    ops@ == mid + ops_where(j as int, every_position(), create_index_op(n as int)),
                decreases nt.indexes@.len() - j,
            {
                ops.push(SchemaOp::CreateIndex { table: n, index: j });
                assert(ops@ =~= mid + ops_where(j + 1, every_position(), create_index_op(n as int)));
                j = j + 1;
            }
            assert(ops@ =~= start + (seq![SchemaOp::CreateTable { table: n }] + ops_where(
                nt.indexes@.len() as int,
                every_position(),
                create_index_op(n as int),
            )));
            Ok(())
        },
        Some(o) => {
            proof {
                lemma_first_named(table_names(cur.tables@), nt.name@);
            }
            let ot = &cur.tables[o];
            match first_dropped_column(&ot.columns, &nt.columns) {
                Some(k) => {
                    return Err(SchemaError::DropColumn { table: o, column: k });
                },
                None => {},
            }
            let ghost mut col_ops: Seq<SchemaOp> = Seq::empty();
            if !has_changed_column(&ot.columns, &nt.columns) {
                match first_unaddable_column(&ot.columns, &nt.columns) {
                    Some(j) => {
                        proof {
                            lemma_first_where_bound(nt.columns@.len() as int, column_unaddable(ot.columns@, nt.columns@));
                        }
                        if nt.columns[j].primary_key {
                            return Err(SchemaError::PrimaryKeyAdded { table: n, column: j });
                        } else {
                            return Err(SchemaError::NotNullWithoutDefault { table: n, column: j });
                        }
                    },
                    None => {
                        push_added_columns(ops, n, &ot.columns, &nt.columns);
                        proof {
                            col_ops = ops_where(nt.columns@.len() as int, column_added(ot.columns@, nt.columns@), add_column_op(n as int));
                        }
                    },
                }
            } else if !same_primary_keys(&ot.columns, &nt.columns) {
                return Err(SchemaError::PrimaryKeysChanged { table: n });
            } else {
                ops.push(SchemaOp::RebuildTable { table: n, from: o });
                proof {
                    col_ops = seq![SchemaOp::RebuildTable { table: n, from: o }];
                }
            }
            assert(column_plan(o as int, n as int, ot.columns@, nt.columns@) == Ok::<Seq<SchemaOp>, SchemaError>(col_ops));
            assert(ops@ =~= start + col_ops);
            push_index_ops(ops, o, n, &ot.indexes, &nt.indexes);
            assert(ops@ =~= start + (col_ops + index_ops(o as int, n as int, ot.indexes@, nt.indexes@)));
            Ok(())
        },
    }
}

proof fn lemma_plan_upto_err(cur: Schema, want: Schema, m: int, m2: int)
    requires
        plan_upto(cur, want, m) is Err,
        m <= m2,
    ensures
        plan_upto(cur, want, m2) == plan_upto(cur, want, m),
    decreases m2,
{
    if m2 > m {
        lemma_plan_upto_err(cur, want, m, m2 - 1);
    }
}

/// The operations that take the database from schema `cur` to schema
/// `want`, or the first change that would destroy data: a dropped table, a
/// dropped column, a new primary-key column, a new non-null column without
/// a default, or changed primary keys.
pub fn apply_schema(cur: &Schema, want: &Schema) -> (r: Result<Vec<SchemaOp>, SchemaError>)
    ensures
        match schema_plan(*cur, *want) {
            Ok(ops) => r matches Ok(v) && v@ == ops,
            Err(e) => r matches Err(f) && f == e,
        },
{
    let mut k: usize = 0;
    while k < cur.tables.len()
        invariant
            k <= cur.tables@.len(),
            first_where(k as int, table_gone(cur.tables@, want.tables@)) is None,
        decreases cur.tables@.len() - k,
    {
        if find_table(&want.tables, &cur.tables[k].name).is_none() {
            assert(first_where(k + 1, table_gone(cur.tables@, want.tables@)) == Some(k as int));
            proof {
                lemma_first_where_stable(k + 1, cur.tables@.len() as int, table_gone(cur.tables@, want.tables@));
            }
            return Err(SchemaError::DropTable { table: k });
        }
        k = k + 1;
    }
    let mut ops: Vec<SchemaOp> = Vec::new();
    let mut n: usize = 0;
    while n < want.tables.len()
        invariant
            n <= want.tables@.len(),
            first_where(cur.tables@.len() as int, table_gone(cur.tables@, want.tables@)) is None,
            plan_upto(*cur, *want, n as int) == Ok::<Seq<SchemaOp>, SchemaError>(ops@),
        decreases want.tables@.len() - n,
    {
        match push_table_plan(&mut ops, cur, want, n) {
            Err(e) => {
                proof {
                    assert(table_plan(*cur, *want, n as int) == Err::<Seq<SchemaOp>, SchemaError>(e));
                    assert(plan_upto(*cur, *want, n + 1) == Err::<Seq<SchemaOp>, SchemaError>(e));
                    lemma_plan_upto_err(*cur, *want, n + 1, want.tables@.len() as int);
                }
                return Err(e);
            },
            Ok(()) => {},
        }
        n = n + 1;
    }
    Ok(ops)
}

} // verus!
