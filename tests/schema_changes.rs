use corrosion::schema::{apply_schema, Column, Index, Schema, SchemaError, SchemaOp, Table};

fn col(name: &str, nullable: bool, default: Option<&str>, pk: bool) -> Column {
    Column {
        name: name.as_bytes().to_vec(),
        sql_type: b"TEXT".to_vec(),
        nullable,
        default_value: default.map(|d| d.as_bytes().to_vec()),
        primary_key: pk,
    }
}

fn idx(name: &str, def: &str) -> Index {
    Index { name: name.as_bytes().to_vec(), definition: def.as_bytes().to_vec() }
}

fn tests_table(extra: Vec<Column>, indexes: Vec<Index>) -> Table {
    let mut columns = vec![col("id", false, None, true), col("text", false, Some("''"), false)];
    columns.extend(extra);
    Table { name: b"tests".to_vec(), columns, indexes }
}

fn base() -> Schema {
    Schema { tables: vec![tests_table(vec![], vec![])] }
}

#[test]
fn same_schema_needs_nothing() {
    assert_eq!(apply_schema(&base(), &base()), Ok(vec![]));
}

#[test]
fn nullable_column_with_default_is_added() {
    let wanted = Schema { tables: vec![tests_table(vec![col("meta", true, Some("'{}'"), false)], vec![])] };
    assert_eq!(apply_schema(&base(), &wanted), Ok(vec![SchemaOp::AddColumn { table: 0, column: 2 }]));
}

#[test]
fn new_tables_are_created_with_their_indexes() {
    let t2 = Table {
        name: b"tests2".to_vec(),
        columns: vec![col("id", false, None, true)],
        indexes: vec![idx("tests2_a", "a"), idx("tests2_b", "b")],
    };
    let wanted = Schema { tables: vec![tests_table(vec![], vec![]), t2] };
    assert_eq!(
        apply_schema(&base(), &wanted),
        Ok(vec![
            SchemaOp::CreateTable { table: 1 },
            SchemaOp::CreateIndex { table: 1, index: 0 },
            SchemaOp::CreateIndex { table: 1, index: 1 },
        ])
    );
    assert_eq!(apply_schema(&Schema { tables: vec![] }, &base()), Ok(vec![SchemaOp::CreateTable { table: 0 }]));
}

#[test]
fn dropping_needs_a_destructive_change() {
    let empty = Schema { tables: vec![] };
    assert_eq!(apply_schema(&base(), &empty), Err(SchemaError::DropTable { table: 0 }));
    let fewer = Schema {
        tables: vec![Table { name: b"tests".to_vec(), columns: vec![col("id", false, None, true)], indexes: vec![] }],
    };
    assert_eq!(apply_schema(&base(), &fewer), Err(SchemaError::DropColumn { table: 0, column: 1 }));
}

#[test]
fn unaddable_columns_are_refused() {
    let pk = Schema { tables: vec![tests_table(vec![col("k", false, Some("0"), true)], vec![])] };
    assert_eq!(apply_schema(&base(), &pk), Err(SchemaError::PrimaryKeyAdded { table: 0, column: 2 }));
    let not_null = Schema { tables: vec![tests_table(vec![col("n", false, None, false)], vec![])] };
    assert_eq!(apply_schema(&base(), &not_null), Err(SchemaError::NotNullWithoutDefault { table: 0, column: 2 }));
}

#[test]
fn changed_columns_rebuild_the_table() {
    let mut changed = base();
    changed.tables[0].columns[1].nullable = true;
    assert_eq!(apply_schema(&base(), &changed), Ok(vec![SchemaOp::RebuildTable { table: 0, from: 0 }]));
    let mut keys = base();
    keys.tables[0].columns[1].primary_key = true;
    assert_eq!(apply_schema(&base(), &keys), Err(SchemaError::PrimaryKeysChanged { table: 0 }));
}

#[test]
fn index_changes() {
    let cur = Schema { tables: vec![tests_table(vec![], vec![idx("gone", "x"), idx("same", "y"), idx("moved", "z")])] };
    let want = Schema { tables: vec![tests_table(vec![], vec![idx("moved", "z2"), idx("same", "y"), idx("fresh", "w")])] };
    assert_eq!(
        apply_schema(&cur, &want),
        Ok(vec![
            SchemaOp::CreateIndex { table: 0, index: 2 },
            SchemaOp::DropIndex { table: 0, index: 0 },
            SchemaOp::ReplaceIndex { table: 0, index: 0 },
        ])
    );
}
