//! `CREATE`, `DROP` and `ALTER`.

use ahiru_core::catalog::{Catalog, Source};
use ahiru_core::ddl::{
    alter_table, create_table, create_view, drop_table, drop_view, run_query_to_rows, AlterTableAction, Cell, Query,
};
use ahiru_core::dml::{insert, InsertSource};
use ahiru_core::error::{code_of, Code, Error};
use ahiru_core::exec::{result_schema, ExecContext};
use ahiru_core::expr::{Instr, OpCode, Program};
use ahiru_core::format::{CodecHook, CodecTask, Compression, Pruner, ResolveStep, TableFormat};
use ahiru_core::plan::{MemScanSpec, Node, ScanSpec, SetOpKind, SortKey};
use ahiru_core::vector::{dup_fields, Field, Ty, Value, Vector};

// --- Plans ------------------------------------------------------------------

/// A program that returns column `col` unchanged.
fn load(col: usize, ty: Ty) -> Program {
    let mut p = Program::new();
    let r = p.alloc_reg();
    p.push(Instr::with_aux(OpCode::LoadCol, ty.phys(), r, 0, 0, col as u16));
    p.result = r;
    p.result_ty = ty;
    p
}

/// A program that returns a constant.
fn constant(ty: Ty, v: Value) -> Program {
    let mut p = Program::new();
    let r = p.alloc_reg();
    let k = p.add_const(ty, v);
    p.push(Instr::with_aux(OpCode::LoadConst, ty.phys(), r, 0, 0, k));
    p.result = r;
    p.result_ty = ty;
    p
}

/// `column = constant`.
fn equals(col: usize, ty: Ty, v: Value) -> Program {
    let mut p = Program::new();
    let a = p.alloc_reg();
    let b = p.alloc_reg();
    let r = p.alloc_reg();
    let k = p.add_const(ty, v);
    p.push(Instr::with_aux(OpCode::LoadCol, ty.phys(), a, 0, 0, col as u16));
    p.push(Instr::with_aux(OpCode::LoadConst, ty.phys(), b, 0, 0, k));
    p.push(Instr::new(OpCode::Eq, ty.phys(), r, a, b));
    p.result = r;
    p.result_ty = Ty::Boolean;
    p
}

/// A literal in a statement.
fn cell(v: Value) -> Cell {
    let ty = match &v {
        Value::Null => Ty::Null,
        Value::Bool(_) => Ty::Boolean,
        Value::I64(_) => Ty::BigInt,
        Value::Bytes(_) => Ty::Varchar,
        _ => Ty::Int,
    };
    Cell { value: constant(ty, v), cast: load(0, ty) }
}

fn integer(name: &str) -> Field {
    Field::new(name, Ty::Int, true)
}

fn text(s: &str) -> Value {
    Value::Bytes(s.as_bytes().to_vec())
}

// --- A session --------------------------------------------------------------

struct Session {
    ctx: ExecContext,
}

impl Session {
    fn new() -> Session {
        Session { ctx: ExecContext::new(Catalog::new()) }
    }

    fn create(&mut self, name: &str, columns: Vec<Field>) -> Result<Query, Error> {
        create_table(&mut self.ctx, name, false, false, columns, None)
    }

    fn insert(&mut self, name: &str, columns: &[&str], rows: Vec<Vec<Value>>) -> Result<Query, Error> {
        let columns = columns.iter().map(|c| c.to_string()).collect();
        let rows = rows.into_iter().map(|r| r.into_iter().map(cell).collect()).collect();
        insert(&mut self.ctx, name, &columns, InsertSource::Values(rows))
    }

    /// The plan of `SELECT columns FROM name`. A view is bound anew each time it is referred to:
    /// its text is `SELECT a, b FROM t`.
    fn plan(&mut self, columns: &[&str], name: &str) -> Result<Node, Error> {
        let input = if let Some(i) = self.ctx.catalog.mem_index_of(name) {
            let t = self.ctx.catalog.mem_get(i).unwrap();
            Node::MemScan(Box::new(MemScanSpec { table: i, schema: dup_fields(&t.schema) }))
        } else if let Some(i) = self.ctx.catalog.index_of(name) {
            let t = self.ctx.catalog.get_mut(i).unwrap();
            assert!(t.resolve()?.is_ok());
            let schema = dup_fields(t.schema());
            let columns = (0..schema.len()).collect();
            Node::Scan(Box::new(ScanSpec { table: i, columns, pruners: Vec::new(), schema }))
        } else if let Some(i) = self.ctx.catalog.view_index_of(name) {
            let sql = self.ctx.catalog.view_get(i).unwrap().to_string();
            let (list, from) = sql.strip_prefix("SELECT ").unwrap().split_once(" FROM ").unwrap();
            let list: Vec<&str> = list.split(", ").collect();
            self.plan(&list, from)?
        } else {
            return Err(Error::new(Code::TableNotFound));
        };
        let all = dup_fields(input.schema());
        if columns == ["*"] {
            return Ok(input);
        }
        let mut exprs = Vec::new();
        let mut schema = Vec::new();
        for c in columns {
            let i = match all.iter().position(|f| f.name == *c) {
                Some(i) => i,
                None => return Err(Error::new(Code::ColumnNotFound)),
            };
            exprs.push(load(i, all[i].ty));
            schema.push(all[i].dup());
        }
        Ok(Node::Project { input: Box::new(input), exprs, schema })
    }

    /// `SELECT columns FROM name`.
    fn select(&mut self, columns: &[&str], name: &str) -> Result<Vec<Vec<Value>>, Error> {
        let plan = self.plan(columns, name)?;
        let schema = dup_fields(plan.schema());
        run_query_to_rows(&mut self.ctx, &plan, &schema)
    }

    fn register_bytes(&mut self, name: &str, bytes: &[u8]) {
        let format = Box::new(Csv::new(bytes.len()));
        self.ctx.catalog.register(name, Source::from_bytes(bytes.to_vec()), format).unwrap();
    }

    /// `SELECT columns FROM name ORDER BY` the first column.
    fn select_sorted(&mut self, columns: &[&str], name: &str) -> Result<Vec<Vec<Value>>, Error> {
        let input = self.plan(columns, name)?;
        let schema = dup_fields(input.schema());
        let keys = vec![SortKey { expr: load(0, schema[0].ty), desc: false, nulls_first: false }];
        let plan = Node::Sort { input: Box::new(input), keys, limit: None };
        run_query_to_rows(&mut self.ctx, &plan, &schema)
    }

    fn view(&mut self, name: &str, sql: &str) -> Result<Query, Error> {
        create_view(&mut self.ctx, name, sql.to_string(), false)
    }

    fn alter(&mut self, name: &str, action: AlterTableAction) -> Result<Query, Error> {
        alter_table(&mut self.ctx, name, action)
    }

    fn add(&mut self, name: &str, field: Field, default: Option<Value>) -> Result<Query, Error> {
        self.alter(name, AlterTableAction::AddColumn { field, default: default.map(cell) })
    }

    fn rename(&mut self, name: &str, old: &str, new: &str) -> Result<Query, Error> {
        self.alter(name, AlterTableAction::RenameColumn { old: old.to_string(), new: new.to_string() })
    }

    fn table_names(&self) -> Vec<String> {
        let c = &self.ctx.catalog;
        c.names().into_iter().chain(c.mem_names()).chain(c.view_names()).map(|n| n.to_string()).collect()
    }
}

// --- A file format ----------------------------------------------------------

/// A comma-separated file: numbers are BIGINT, all else is VARCHAR.
struct Csv {
    len: usize,
    schema: Vec<Field>,
    rows: Vec<Vec<String>>,
}

impl Csv {
    fn new(len: usize) -> Csv {
        Csv { len, schema: Vec::new(), rows: Vec::new() }
    }
}

impl TableFormat for Csv {
    fn resolve(&mut self, src: &Source) -> Result<ResolveStep, Error> {
        let Some(bytes) = src.get(0, self.len) else { return Ok(Err((0, self.len as u64))) };
        let file = String::from_utf8(bytes.to_vec()).unwrap();
        let mut lines = file.lines();
        let names: Vec<&str> = lines.next().unwrap().split(',').collect();
        self.rows = lines.map(|l| l.split(',').map(|c| c.to_string()).collect()).collect();
        for (i, n) in names.iter().enumerate() {
            let number = self.rows.iter().all(|r| r[i].parse::<i64>().is_ok());
            self.schema.push(Field::new(n, if number { Ty::BigInt } else { Ty::Varchar }, true));
        }
        Ok(Ok(()))
    }
    fn is_resolved(&self) -> bool {
        !self.schema.is_empty()
    }
    fn schema(&self) -> &[Field] {
        &self.schema
    }
    fn num_splits(&self) -> usize {
        1
    }
    fn split_rows(&self, _split: usize) -> Option<u64> {
        Some(self.rows.len() as u64)
    }
    fn split_ranges(&self, _split: usize, _projection: &[usize]) -> Result<Vec<(u64, u64)>, Error> {
        Ok(vec![(0, self.len as u64)])
    }
    fn codec_tasks(&self, _src: &Source, _split: usize, _projection: &[usize]) -> Result<Vec<CodecTask>, Error> {
        Ok(Vec::new())
    }
    fn may_match(&self, _split: usize, _pruners: &[Pruner], _projection: &[usize]) -> bool {
        true
    }
    fn index_ranges(&self, _split: usize, _pruners: &[Pruner], _projection: &[usize]) -> Result<Vec<(u64, u64)>, Error> {
        Ok(Vec::new())
    }
    fn refine_with_index(&mut self, _src: &Source, _split: usize, _pruners: &[Pruner], _projection: &[usize]) -> Result<bool, Error> {
        Ok(true)
    }
    fn read_split(&self, _src: &Source, _split: usize, projection: &[usize]) -> Result<Vec<Vector>, Error> {
        let mut out = Vec::new();
        for &c in projection {
            let mut v = Vector::new(self.schema[c].ty);
            for r in &self.rows {
                v.push_value(&match self.schema[c].ty {
                    Ty::BigInt => Value::I64(r[c].parse().unwrap()),
                    _ => text(&r[c]),
                });
            }
            out.push(v);
        }
        Ok(out)
    }
}

// --- CREATE and DROP --------------------------------------------------------

#[test]
fn create_table_registers_empty_mem_table() {
    let mut s = Session::new();
    s.create("t", vec![integer("id"), Field::new("name", Ty::Varchar, true)]).unwrap();
    assert!(s.table_names().iter().any(|n| n == "t"));
    let rows = s.select(&["*"], "t").unwrap();
    assert!(rows.is_empty());
}

#[test]
fn create_table_as_select_materializes_rows() {
    let mut s = Session::new();
    s.register_bytes("u", b"x,y\n1,a\n2,b\n");
    let scan = s.plan(&["x", "y"], "u").unwrap();
    let plan = Node::Filter { input: Box::new(scan), pred: equals(0, Ty::BigInt, Value::I64(1)) };
    create_table(&mut s.ctx, "t", false, false, Vec::new(), Some(&plan)).unwrap();
    let rows = s.select(&["x", "y"], "t").unwrap();
    assert_eq!(rows.len(), 1);
    assert_eq!(rows[0][0].as_i64(), Some(1));
}

#[test]
fn drop_table_removes_it() {
    let mut s = Session::new();
    s.create("t", vec![integer("id")]).unwrap();
    drop_table(&mut s.ctx, "t", false).unwrap();
    assert!(!s.table_names().iter().any(|n| n == "t"));
    assert_eq!(code_of(s.select(&["*"], "t")), Some(Code::TableNotFound));
}

#[test]
fn drop_table_if_exists_is_noop_when_missing() {
    let mut s = Session::new();
    drop_table(&mut s.ctx, "nope", true).unwrap();
    assert_eq!(code_of(drop_table(&mut s.ctx, "nope", false)), Some(Code::TableNotFound));
}

#[test]
fn drop_if_exists_does_not_hide_a_same_name_object_of_another_kind() {
    let mut s = Session::new();
    s.create("t", vec![integer("id")]).unwrap();
    s.view("v", "SELECT id FROM t").unwrap();

    assert_eq!(code_of(drop_table(&mut s.ctx, "v", true)), Some(Code::TableNotFound));
    assert_eq!(code_of(drop_view(&mut s.ctx, "t", true)), Some(Code::TableNotFound));
    assert!(s.table_names().iter().any(|name| name == "t"));
    assert!(s.table_names().iter().any(|name| name == "v"));
}

#[test]
fn create_view_is_queryable_and_reflects_underlying_table() {
    let mut s = Session::new();
    s.create("t", vec![integer("x")]).unwrap();
    s.view("v", "SELECT x FROM t").unwrap();
    assert!(s.select(&["x"], "v").unwrap().is_empty());
    s.insert("t", &[], vec![vec![Value::I32(1)]]).unwrap();
    let rows = s.select(&["x"], "v").unwrap();
    assert_eq!(rows, vec![vec![Value::I32(1)]]);
}

#[test]
fn view_over_unresolved_file_table_is_queryable() {
    let mut s = Session::new();
    s.register_bytes("src", b"id\n1\n2\n");
    s.view("v", "SELECT id FROM src").unwrap();
    assert_eq!(
        s.select_sorted(&["id"], "v").unwrap(),
        vec![vec![Value::I64(1)], vec![Value::I64(2)]]
    );
}

#[test]
fn describe_works_on_mem_tables_and_views() {
    let mut s = Session::new();
    s.create("t", vec![integer("id"), Field::new("name", Ty::Varchar, true)]).unwrap();
    let fields = result_schema(&s.plan(&["*"], "t").unwrap());
    assert_eq!(fields.len(), 2);
    assert_eq!(fields[0].name, "id");
    s.view("v", "SELECT id FROM t").unwrap();
    let fields = result_schema(&s.plan(&["*"], "v").unwrap());
    assert_eq!(fields.len(), 1);
    assert_eq!(fields[0].name, "id");
}

#[test]
fn duplicate_create_table_is_rejected() {
    let mut s = Session::new();
    s.create("t", vec![integer("id")]).unwrap();
    assert_eq!(code_of(s.create("t", vec![integer("id")])), Some(Code::DuplicateTable));
}

// --- ALTER TABLE ------------------------------------------------------------

#[test]
fn alter_table_add_column_fills_default_then_null() {
    let mut s = Session::new();
    s.create("t", vec![integer("id")]).unwrap();
    s.insert("t", &[], vec![vec![Value::I32(1)], vec![Value::I32(2)]]).unwrap();

    s.add("t", integer("score"), Some(Value::I32(7))).unwrap();
    assert_eq!(
        s.select_sorted(&["id", "score"], "t").unwrap(),
        vec![vec![Value::I32(1), Value::I32(7)], vec![Value::I32(2), Value::I32(7)]]
    );

    // Without a DEFAULT, existing rows are filled with NULL.
    s.add("t", Field::new("note", Ty::Varchar, true), None).unwrap();
    let rows = s.select(&["note"], "t").unwrap();
    assert!(rows.iter().all(|r| r[0].is_null()));
}

#[test]
fn alter_table_add_column_default_with_aggregate_is_rejected_not_ice() {
    // A DEFAULT has no columns to refer to, so whatever reads one is refused.
    let mut s = Session::new();
    s.create("t", vec![integer("id")]).unwrap();
    let default = Some(Cell { value: load(0, Ty::BigInt), cast: load(0, Ty::Int) });
    let r = s.alter("t", AlterTableAction::AddColumn { field: integer("n"), default });
    assert!(code_of(r).is_some(), "a DEFAULT containing an aggregate should be a clear error");
}

#[test]
fn alter_table_add_column_rejects_duplicate_name() {
    let mut s = Session::new();
    s.create("t", vec![integer("id")]).unwrap();
    assert_eq!(
        code_of(s.add("t", Field::new("id", Ty::Varchar, true), None)),
        Some(Code::DuplicateColumn)
    );
}

#[test]
fn alter_table_add_not_null_column_without_default_needs_empty_table() {
    let mut s = Session::new();
    s.create("t", vec![integer("id")]).unwrap();
    // With no rows, adding a NOT NULL column is fine (no row receives NULL).
    s.add("t", Field::new("score", Ty::Int, false), None).unwrap();

    s.insert("t", &[], vec![vec![Value::I32(1), Value::I32(10)]]).unwrap();
    // With rows present, NOT NULL without a DEFAULT is rejected, since existing rows would become NULL.
    assert_eq!(
        code_of(s.add("t", Field::new("note", Ty::Varchar, false), None)),
        Some(Code::TypeMismatch)
    );
}

#[test]
fn alter_table_drop_column_removes_slot_from_every_row() {
    let mut s = Session::new();
    s.create("t", vec![integer("a"), integer("b")]).unwrap();
    s.insert("t", &[], vec![vec![Value::I32(1), Value::I32(10)], vec![Value::I32(2), Value::I32(20)]]).unwrap();

    s.alter("t", AlterTableAction::DropColumn { name: "a".to_string() }).unwrap();
    assert_eq!(
        s.select_sorted(&["b"], "t").unwrap(),
        vec![vec![Value::I32(10)], vec![Value::I32(20)]]
    );
    assert_eq!(code_of(s.select(&["a"], "t")), Some(Code::ColumnNotFound));
}

#[test]
fn view_referencing_a_dropped_or_renamed_column_fails_cleanly_not_a_panic() {
    let mut s = Session::new();
    s.create("t", vec![integer("a"), integer("b")]).unwrap();
    s.insert("t", &[], vec![vec![Value::I32(1), Value::I32(10)]]).unwrap();
    s.view("v", "SELECT a, b FROM t").unwrap();
    assert_eq!(
        s.select(&["a", "b"], "v").unwrap(),
        vec![vec![Value::I32(1), Value::I32(10)]]
    );

    s.alter("t", AlterTableAction::DropColumn { name: "b".to_string() }).unwrap();
    assert_eq!(code_of(s.select(&["a", "b"], "v")), Some(Code::ColumnNotFound));

    s.rename("t", "a", "a2").unwrap();
    assert_eq!(
        code_of(s.select(&["a2"], "v")),
        Some(Code::ColumnNotFound),
        "the view body still refers to the old column name `a`, so it cannot be queried through the new name `a2`"
    );
}

#[test]
fn alter_table_drop_missing_column_is_column_not_found() {
    let mut s = Session::new();
    s.create("t", vec![integer("id")]).unwrap();
    assert_eq!(
        code_of(s.alter("t", AlterTableAction::DropColumn { name: "nope".to_string() })),
        Some(Code::ColumnNotFound)
    );
}

#[test]
fn alter_table_rename_column_keeps_data_and_type() {
    let mut s = Session::new();
    s.create("t", vec![integer("a")]).unwrap();
    s.insert("t", &[], vec![vec![Value::I32(5)]]).unwrap();

    s.rename("t", "a", "b").unwrap();
    assert_eq!(s.select(&["b"], "t").unwrap(), vec![vec![Value::I32(5)]]);
    assert_eq!(code_of(s.select(&["a"], "t")), Some(Code::ColumnNotFound));
}

#[test]
fn alter_table_rename_column_to_existing_name_is_rejected() {
    let mut s = Session::new();
    s.create("t", vec![integer("a"), integer("b")]).unwrap();
    assert_eq!(code_of(s.rename("t", "a", "b")), Some(Code::DuplicateColumn));
}

#[test]
fn alter_table_rename_to_renames_without_moving_data() {
    let mut s = Session::new();
    s.create("t", vec![integer("id")]).unwrap();
    s.alter("t", AlterTableAction::RenameTable { new_name: "u".to_string() }).unwrap();
    assert!(!s.table_names().iter().any(|n| n == "t"));
    assert!(s.table_names().iter().any(|n| n == "u"));
    assert!(s.select(&["*"], "u").unwrap().is_empty());
}

#[test]
fn alter_table_rename_to_existing_table_is_rejected() {
    let mut s = Session::new();
    s.create("t", vec![integer("id")]).unwrap();
    s.create("u", vec![integer("id")]).unwrap();
    assert_eq!(
        code_of(s.alter("t", AlterTableAction::RenameTable { new_name: "u".to_string() })),
        Some(Code::DuplicateTable)
    );
}

#[test]
fn alter_table_on_file_backed_table_is_read_only() {
    let mut s = Session::new();
    s.register_bytes("t", b"id\n1\n");
    assert_eq!(code_of(s.add("t", integer("x"), None)), Some(Code::ReadOnlyTable));
    assert_eq!(
        code_of(s.alter("t", AlterTableAction::RenameTable { new_name: "u".to_string() })),
        Some(Code::ReadOnlyTable)
    );
}

// --- More of the rules ------------------------------------------------------

#[test]
fn a_statement_reports_how_many_rows_it_touched() {
    let mut s = Session::new();
    let q = s.create("t", vec![integer("id")]).unwrap();
    assert_eq!(q.schema[0].name, "count");
    assert_eq!(q.batch.cols[0].value_at(0), Value::I64(0));
    let q = s.insert("t", &[], vec![vec![Value::I32(1)], vec![Value::I32(2)]]).unwrap();
    assert_eq!(q.batch.cols[0].value_at(0), Value::I64(2));
}

#[test]
fn if_not_exists_leaves_the_table_and_or_replace_empties_it() {
    let mut s = Session::new();
    s.create("t", vec![integer("id")]).unwrap();
    s.insert("t", &[], vec![vec![Value::I32(1)]]).unwrap();
    create_table(&mut s.ctx, "t", false, true, vec![integer("other")], None).unwrap();
    assert_eq!(s.select(&["id"], "t").unwrap().len(), 1);
    create_table(&mut s.ctx, "t", true, false, vec![integer("other")], None).unwrap();
    assert!(s.select(&["other"], "t").unwrap().is_empty());
}

#[test]
fn a_failed_create_table_as_leaves_the_catalog_alone() {
    let mut s = Session::new();
    s.create("t", vec![integer("id")]).unwrap();
    let plan = s.plan(&["*"], "t").unwrap();
    let r = create_table(&mut s.ctx, "t", false, false, Vec::new(), Some(&plan));
    assert_eq!(code_of(r), Some(Code::DuplicateTable));
    assert_eq!(s.table_names(), vec!["t".to_string()]);
}

#[test]
fn a_query_that_would_have_to_wait_for_bytes_fails_and_leaves_the_requests() {
    let mut s = Session::new();
    let format = Csv { len: 100, schema: vec![integer("id")], rows: Vec::new() };
    s.ctx.catalog.register("u", Source::remote(100), Box::new(format)).unwrap();
    let schema = vec![integer("id")];
    let spec = ScanSpec { table: 0, columns: vec![0], pruners: Vec::new(), schema: dup_fields(&schema) };
    let r = run_query_to_rows(&mut s.ctx, &Node::Scan(Box::new(spec)), &schema);
    assert_eq!(code_of(r), Some(Code::IoFailed));
    assert_eq!(s.ctx.io.len(), 1);
    assert_eq!((s.ctx.io[0].offset, s.ctx.io[0].len), (0, 100));
}

#[test]
fn a_statement_can_be_undone_by_its_opposite() {
    let mut s = Session::new();
    s.create("t", vec![integer("a"), integer("b")]).unwrap();
    s.insert("t", &[], vec![vec![Value::I32(1), Value::I32(2)]]).unwrap();
    let rows = vec![vec![Value::I32(1), Value::I32(2)]];

    s.create("u", vec![integer("a")]).unwrap();
    drop_table(&mut s.ctx, "u", false).unwrap();
    s.view("v", "SELECT a FROM t").unwrap();
    drop_view(&mut s.ctx, "v", false).unwrap();
    assert_eq!(s.table_names(), vec!["t".to_string()]);

    s.add("t", integer("c"), Some(Value::I32(9))).unwrap();
    s.alter("t", AlterTableAction::DropColumn { name: "c".to_string() }).unwrap();
    assert_eq!(s.select(&["*"], "t").unwrap(), rows);

    s.rename("t", "a", "z").unwrap();
    s.rename("t", "z", "a").unwrap();
    s.alter("t", AlterTableAction::RenameTable { new_name: "w".to_string() }).unwrap();
    s.alter("w", AlterTableAction::RenameTable { new_name: "t".to_string() }).unwrap();
    assert_eq!(s.select(&["a", "b"], "t").unwrap(), rows);
}

/// A file of one block, which holds a byte per row once it is decompressed.
struct Packed {
    schema: Vec<Field>,
}

impl TableFormat for Packed {
    fn resolve(&mut self, _src: &Source) -> Result<ResolveStep, Error> {
        Ok(Ok(()))
    }
    fn is_resolved(&self) -> bool {
        true
    }
    fn schema(&self) -> &[Field] {
        &self.schema
    }
    fn num_splits(&self) -> usize {
        1
    }
    fn split_rows(&self, _split: usize) -> Option<u64> {
        Some(3)
    }
    fn split_ranges(&self, _split: usize, _projection: &[usize]) -> Result<Vec<(u64, u64)>, Error> {
        Ok(vec![(0, 2)])
    }
    fn codec_tasks(&self, _src: &Source, _split: usize, _projection: &[usize]) -> Result<Vec<CodecTask>, Error> {
        Ok(vec![CodecTask { codec: Compression::Gzip, offset: 0, len: 2, out_len: 3 }])
    }
    fn may_match(&self, _split: usize, _pruners: &[Pruner], _projection: &[usize]) -> bool {
        true
    }
    fn index_ranges(&self, _split: usize, _pruners: &[Pruner], _projection: &[usize]) -> Result<Vec<(u64, u64)>, Error> {
        Ok(Vec::new())
    }
    fn refine_with_index(&mut self, _src: &Source, _split: usize, _pruners: &[Pruner], _projection: &[usize]) -> Result<bool, Error> {
        Ok(true)
    }
    fn read_split(&self, src: &Source, _split: usize, _projection: &[usize]) -> Result<Vec<Vector>, Error> {
        let mut v = Vector::new(Ty::Int);
        for b in src.decoded_page(0, 2).unwrap() {
            v.push_value(&Value::I32(*b as i32));
        }
        Ok(vec![v])
    }
}

/// A block is a byte and how often it comes.
struct Repeat;

impl CodecHook for Repeat {
    fn decompress(&self, _codec: Compression, block: &[u8], _out_len: u32) -> Result<Vec<u8>, Error> {
        Ok(vec![block[0]; block[1] as usize])
    }
}

#[test]
fn a_query_that_cannot_wait_has_its_blocks_decompressed_by_the_hook() {
    let schema = vec![integer("n")];
    let run = |bytes: &[u8], hook: Option<Box<dyn CodecHook>>| {
        let mut s = Session::new();
        let format = Box::new(Packed { schema: dup_fields(&schema) });
        s.ctx.catalog.register("u", Source::from_bytes(bytes.to_vec()), format).unwrap();
        s.ctx.hook = hook;
        let spec = ScanSpec { table: 0, columns: vec![0], pruners: Vec::new(), schema: dup_fields(&schema) };
        run_query_to_rows(&mut s.ctx, &Node::Scan(Box::new(spec)), &schema)
    };
    assert_eq!(code_of(run(&[7, 3], None)), Some(Code::UnsupportedCodec));
    assert_eq!(run(&[7, 3], Some(Box::new(Repeat))).unwrap(), vec![vec![Value::I32(7)], vec![Value::I32(7)], vec![Value::I32(7)]]);
    assert_eq!(code_of(run(&[7, 4], Some(Box::new(Repeat)))), Some(Code::BadCompressedData));
}

#[test]
fn a_query_over_two_files_gives_the_rows_of_both() {
    let mut s = Session::new();
    s.register_bytes("u", b"x\n1\n2\n");
    s.register_bytes("w", b"x\n3\n");
    let left = s.plan(&["x"], "u").unwrap();
    let right = s.plan(&["x"], "w").unwrap();
    let schema = dup_fields(left.schema());
    let plan = Node::SetOp {
        left: Box::new(left),
        right: Box::new(right),
        op: SetOpKind::Union,
        all: true,
        schema: dup_fields(&schema),
    };
    let want = vec![vec![Value::I64(1)], vec![Value::I64(2)], vec![Value::I64(3)]];
    assert_eq!(run_query_to_rows(&mut s.ctx, &plan, &schema).unwrap(), want);
    assert_eq!(run_query_to_rows(&mut s.ctx, &plan, &schema).unwrap(), want);
}

#[test]
fn a_query_on_a_file_that_is_not_registered_fails() {
    let mut s = Session::new();
    s.register_bytes("u", b"x\n1\n");
    let schema = vec![Field::new("x", Ty::BigInt, true)];
    let spec = ScanSpec { table: 1, columns: vec![0], pruners: Vec::new(), schema: dup_fields(&schema) };
    let r = run_query_to_rows(&mut s.ctx, &Node::Scan(Box::new(spec)), &schema);
    assert_eq!(code_of(r), Some(Code::TableNotFound));
}
