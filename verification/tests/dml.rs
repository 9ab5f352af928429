//! `INSERT`, `UPDATE` and `DELETE`.

use ahiru_core::catalog::{Catalog, Source};
use ahiru_core::ddl::{create_table, run_query_to_rows, Cell, Query};
use ahiru_core::dml::{delete, insert, update, Assignment, InsertSource};
use ahiru_core::error::{code_of, Code, Error};
use ahiru_core::exec::ExecContext;
use ahiru_core::expr::{Instr, OpCode, Program};
use ahiru_core::format::{CodecTask, Pruner, ResolveStep, TableFormat};
use ahiru_core::plan::{MemScanSpec, Node, ScanSpec};
use ahiru_core::vector::{dup_fields, Field, Ty, Value, Vector, BATCH_SIZE};

// --- Plans ------------------------------------------------------------------

/// A program that returns column `col` unchanged.
fn load(col: usize, ty: Ty) -> Program {
    let mut p = Program::new();
    let r = p.alloc_reg();
    p.push(Instr::with_aux(OpCode::LoadCol, ty.phys(), r, 0, 0, col as u16));
    p.result = r;
    p.result_ty = ty;
    p
}

/// A program that returns a constant.
fn constant(ty: Ty, v: Value) -> Program {
    let mut p = Program::new();
    let r = p.alloc_reg();
    let k = p.add_const(ty, v);
    p.push(Instr::with_aux(OpCode::LoadConst, ty.phys(), r, 0, 0, k));
    p.result = r;
    p.result_ty = ty;
    p
}

/// `column = constant`.
fn equals(col: usize, ty: Ty, v: Value) -> Program {
    let mut p = Program::new();
    let a = p.alloc_reg();
    let b = p.alloc_reg();
    let r = p.alloc_reg();
    let k = p.add_const(ty, v);
    p.push(Instr::with_aux(OpCode::LoadCol, ty.phys(), a, 0, 0, col as u16));
    p.push(Instr::with_aux(OpCode::LoadConst, ty.phys(), b, 0, 0, k));
    p.push(Instr::new(OpCode::Eq, ty.phys(), r, a, b));
    p.result = r;
    p.result_ty = Ty::Boolean;
    p
}

/// A literal in a statement.
fn cell(v: Value) -> Cell {
    let ty = match &v {
        Value::Null => Ty::Null,
        Value::Bool(_) => Ty::Boolean,
        Value::I64(_) => Ty::BigInt,
        Value::Bytes(_) => Ty::Varchar,
        _ => Ty::Int,
    };
    Cell { value: constant(ty, v), cast: load(0, ty) }
}

fn integer(name: &str) -> Field {
    Field::new(name, Ty::Int, true)
}

fn text(s: &str) -> Value {
    Value::Bytes(s.as_bytes().to_vec())
}

// --- A session --------------------------------------------------------------

struct Session {
    ctx: ExecContext,
}

impl Session {
    fn new() -> Session {
        Session { ctx: ExecContext::new(Catalog::new()) }
    }

    fn create(&mut self, name: &str, columns: Vec<Field>) -> Result<Query, Error> {
        create_table(&mut self.ctx, name, false, false, columns, None)
    }

    fn insert(&mut self, name: &str, columns: &[&str], rows: Vec<Vec<Value>>) -> Result<Query, Error> {
        let columns = columns.iter().map(|c| c.to_string()).collect();
        let rows = rows.into_iter().map(|r| r.into_iter().map(cell).collect()).collect();
        insert(&mut self.ctx, name, &columns, InsertSource::Values(rows))
    }

    /// The plan of `SELECT columns FROM name`. A view is bound anew each time it is referred to:
    /// its text is `SELECT a, b FROM t`.
    fn plan(&mut self, columns: &[&str], name: &str) -> Result<Node, Error> {
        let input = if let Some(i) = self.ctx.catalog.mem_index_of(name) {
            let t = self.ctx.catalog.mem_get(i).unwrap();
            Node::MemScan(Box::new(MemScanSpec { table: i, schema: dup_fields(&t.schema) }))
        } else if let Some(i) = self.ctx.catalog.index_of(name) {
            let t = self.ctx.catalog.get_mut(i).unwrap();
            assert!(t.resolve()?.is_ok());
            let schema = dup_fields(t.schema());
            let columns = (0..schema.len()).collect();
            Node::Scan(Box::new(ScanSpec { table: i, columns, pruners: Vec::new(), schema }))
        } else if let Some(i) = self.ctx.catalog.view_index_of(name) {
            let sql = self.ctx.catalog.view_get(i).unwrap().to_string();
            let (list, from) = sql.strip_prefix("SELECT ").unwrap().split_once(" FROM ").unwrap();
            let list: Vec<&str> = list.split(", ").collect();
            self.plan(&list, from)?
        } else {
            return Err(Error::new(Code::TableNotFound));
        };
        let all = dup_fields(input.schema());
        if columns == ["*"] {
            return Ok(input);
        }
        let mut exprs = Vec::new();
        let mut schema = Vec::new();
        for c in columns {
            let i = match all.iter().position(|f| f.name == *c) {
                Some(i) => i,
                None => return Err(Error::new(Code::ColumnNotFound)),
            };
            exprs.push(load(i, all[i].ty));
            schema.push(all[i].dup());
        }
        Ok(Node::Project { input: Box::new(input), exprs, schema })
    }

    /// `SELECT columns FROM name`.
    fn select(&mut self, columns: &[&str], name: &str) -> Result<Vec<Vec<Value>>, Error> {
        let plan = self.plan(columns, name)?;
        let schema = dup_fields(plan.schema());
        run_query_to_rows(&mut self.ctx, &plan, &schema)
    }

    fn register_bytes(&mut self, name: &str, bytes: &[u8]) {
        let format = Box::new(Csv::new(bytes.len()));
        self.ctx.catalog.register(name, Source::from_bytes(bytes.to_vec()), format).unwrap();
    }
}

// --- A file format ----------------------------------------------------------

/// A comma-separated file: numbers are BIGINT, all else is VARCHAR.
struct Csv {
    len: usize,
    schema: Vec<Field>,
    rows: Vec<Vec<String>>,
}

impl Csv {
    fn new(len: usize) -> Csv {
        Csv { len, schema: Vec::new(), rows: Vec::new() }
    }
}

impl TableFormat for Csv {
    fn resolve(&mut self, src: &Source) -> Result<ResolveStep, Error> {
        let Some(bytes) = src.get(0, self.len) else { return Ok(Err((0, self.len as u64))) };
        let file = String::from_utf8(bytes.to_vec()).unwrap();
        let mut lines = file.lines();
        let names: Vec<&str> = lines.next().unwrap().split(',').collect();
        self.rows = lines.map(|l| l.split(',').map(|c| c.to_string()).collect()).collect();
        for (i, n) in names.iter().enumerate() {
            let number = self.rows.iter().all(|r| r[i].parse::<i64>().is_ok());
            self.schema.push(Field::new(n, if number { Ty::BigInt } else { Ty::Varchar }, true));
        }
        Ok(Ok(()))
    }
    fn is_resolved(&self) -> bool {
        !self.schema.is_empty()
    }
    fn schema(&self) -> &[Field] {
        &self.schema
    }
    fn num_splits(&self) -> usize {
        1
    }
    fn split_rows(&self, _split: usize) -> Option<u64> {
        Some(self.rows.len() as u64)
    }
    fn split_ranges(&self, _split: usize, _projection: &[usize]) -> Result<Vec<(u64, u64)>, Error> {
        Ok(vec![(0, self.len as u64)])
    }
    fn codec_tasks(&self, _src: &Source, _split: usize, _projection: &[usize]) -> Result<Vec<CodecTask>, Error> {
        Ok(Vec::new())
    }
    fn may_match(&self, _split: usize, _pruners: &[Pruner], _projection: &[usize]) -> bool {
        true
    }
    fn index_ranges(&self, _split: usize, _pruners: &[Pruner], _projection: &[usize]) -> Result<Vec<(u64, u64)>, Error> {
        Ok(Vec::new())
    }
    fn refine_with_index(&mut self, _src: &Source, _split: usize, _pruners: &[Pruner], _projection: &[usize]) -> Result<bool, Error> {
        Ok(true)
    }
    fn read_split(&self, _src: &Source, _split: usize, projection: &[usize]) -> Result<Vec<Vector>, Error> {
        let mut out = Vec::new();
        for &c in projection {
            let mut v = Vector::new(self.schema[c].ty);
            for r in &self.rows {
                v.push_value(&match self.schema[c].ty {
                    Ty::BigInt => Value::I64(r[c].parse().unwrap()),
                    _ => text(&r[c]),
                });
            }
            out.push(v);
        }
        Ok(out)
    }
}

fn set(column: &str, value: Program) -> Assignment {
    let ty = value.result_ty;
    Assignment { column: column.to_string(), value, cast: load(0, ty) }
}

#[test]
fn insert_values_then_select() {
    let mut s = Session::new();
    s.create("t", vec![integer("id"), Field::new("name", Ty::Varchar, true)]).unwrap();
    s.insert("t", &[], vec![vec![Value::I32(1), text("a")], vec![Value::I32(2), text("b")]]).unwrap();
    let rows = s.select(&["id", "name"], "t").unwrap();
    assert_eq!(rows.len(), 2);
    assert_eq!(rows[0][0], Value::I32(1));
}

#[test]
fn insert_rejects_wrong_column_count() {
    let mut s = Session::new();
    s.create("t", vec![integer("id"), Field::new("name", Ty::Varchar, true)]).unwrap();
    let r = s.insert("t", &[], vec![vec![Value::I32(1)]]);
    assert_eq!(code_of(r), Some(Code::ColumnCountMismatch));
}

#[test]
fn insert_into_file_table_is_read_only() {
    let mut s = Session::new();
    s.register_bytes("t", b"id\n1\n");
    let r = s.insert("t", &[], vec![vec![Value::I32(1)]]);
    assert_eq!(code_of(r), Some(Code::ReadOnlyTable));
}

#[test]
fn insert_with_partial_column_list_enforces_not_null_on_omitted_columns() {
    let mut s = Session::new();
    s.create("t", vec![integer("a"), Field::new("b", Ty::Int, false)]).unwrap();
    let r = s.insert("t", &["a"], vec![vec![Value::I32(1)]]);
    assert_eq!(code_of(r), Some(Code::TypeMismatch));
}

#[test]
fn insert_with_partial_column_list_allows_omitting_nullable_columns() {
    let mut s = Session::new();
    s.create("t", vec![Field::new("a", Ty::Int, false), integer("b")]).unwrap();
    s.insert("t", &["a"], vec![vec![Value::I32(1)]]).unwrap();
    let rows = s.select(&["a", "b"], "t").unwrap();
    assert_eq!(rows, vec![vec![Value::I32(1), Value::Null]]);
}

#[test]
fn insert_select_with_partial_column_list_enforces_not_null_on_omitted_columns() {
    let mut s = Session::new();
    s.create("src", vec![integer("x")]).unwrap();
    s.insert("src", &[], vec![vec![Value::I32(1)]]).unwrap();
    s.create("t", vec![integer("a"), Field::new("b", Ty::Int, false)]).unwrap();
    let plan = s.plan(&["x"], "src").unwrap();
    let source = InsertSource::Query(plan, vec![load(0, Ty::Int)]);
    let r = insert(&mut s.ctx, "t", &vec!["a".to_string()], source);
    assert_eq!(code_of(r), Some(Code::TypeMismatch));
}

#[test]
fn update_same_batch_sees_pre_update_values_for_all_set_expressions() {
    // UPDATE assigns simultaneously. A later SET must not see an earlier SET's updated value.
    let mut s = Session::new();
    s.create("t", vec![integer("a"), integer("b")]).unwrap();
    s.insert("t", &[], vec![vec![Value::I32(1), Value::I32(2)]]).unwrap();
    update(&mut s.ctx, "t", &vec![set("a", load(1, Ty::Int)), set("b", load(0, Ty::Int))], None).unwrap();
    let rows = s.select(&["a", "b"], "t").unwrap();
    assert_eq!(rows, vec![vec![Value::I32(2), Value::I32(1)]]);
}

#[test]
fn update_rejects_setting_not_null_column_to_null() {
    let mut s = Session::new();
    s.create("t", vec![Field::new("a", Ty::Int, false)]).unwrap();
    s.insert("t", &[], vec![vec![Value::I32(1)]]).unwrap();
    let r = update(&mut s.ctx, "t", &vec![set("a", constant(Ty::Null, Value::Null))], None);
    assert_eq!(code_of(r), Some(Code::TypeMismatch));
}

#[test]
fn delete_with_null_filter_result_deletes_nothing() {
    // Three-valued logic: rows where WHERE is UNKNOWN (NULL) are not deleted.
    let mut s = Session::new();
    s.create("t", vec![integer("a")]).unwrap();
    s.insert("t", &[], vec![vec![Value::I32(1)], vec![Value::Null]]).unwrap();
    let q = delete(&mut s.ctx, "t", Some(equals(0, Ty::Int, Value::Null))).unwrap();
    assert_eq!(q.schema.len(), 1);
    assert_eq!(s.select(&["a"], "t").unwrap().len(), 2);
}

#[test]
fn delete_spanning_multiple_batches_keeps_correct_rows() {
    // A delete spanning BATCH_SIZE does not corrupt the order or contents of the rows to keep.
    let mut s = Session::new();
    s.create("t", vec![integer("a"), integer("remainder")]).unwrap();
    let n = BATCH_SIZE * 2 + 5;
    let rows = (0..n as i32).map(|i| vec![Value::I32(i), Value::I32(i % 2)]).collect();
    s.insert("t", &[], rows).unwrap();
    delete(&mut s.ctx, "t", Some(equals(1, Ty::Int, Value::I32(0)))).unwrap();
    let rows = s.select(&["a"], "t").unwrap();
    let expected: Vec<Vec<Value>> = (0..n as i32).filter(|i| i % 2 != 0).map(|i| vec![Value::I32(i)]).collect();
    assert_eq!(rows.len(), (0..n).filter(|i| i % 2 != 0).count());
    assert_eq!(rows, expected);
}

// --- More of the rules ------------------------------------------------------

#[test]
fn a_value_that_cannot_be_converted_is_refused_and_nothing_is_inserted() {
    let mut s = Session::new();
    s.create("t", vec![integer("a")]).unwrap();
    // What converts the value turns it into NULL.
    let bad = Cell { value: constant(Ty::BigInt, Value::I64(1 << 40)), cast: constant(Ty::Int, Value::Null) };
    let good = cell(Value::I32(1));
    let r = insert(&mut s.ctx, "t", &Vec::new(), InsertSource::Values(vec![vec![good], vec![bad]]));
    assert_eq!(code_of(r), Some(Code::ValueOutOfRange));
    assert!(s.select(&["a"], "t").unwrap().is_empty());
}

#[test]
fn columns_have_to_exist_and_the_last_value_of_one_counts() {
    let mut s = Session::new();
    s.create("t", vec![integer("a"), integer("b")]).unwrap();
    let one = || vec![vec![Value::I32(1), Value::I32(2)]];
    s.insert("t", &["a", "a"], one()).unwrap();
    assert_eq!(s.select(&["a", "b"], "t").unwrap(), vec![vec![Value::I32(2), Value::Null]]);
    assert_eq!(code_of(s.insert("t", &["a", "c"], one())), Some(Code::ColumnNotFound));
    assert_eq!(code_of(s.insert("none", &[], one())), Some(Code::TableNotFound));
    let sets = vec![set("b", load(1, Ty::Int)), set("b", load(0, Ty::Int))];
    update(&mut s.ctx, "t", &sets, None).unwrap();
    assert_eq!(s.select(&["a", "b"], "t").unwrap(), vec![vec![Value::I32(2), Value::I32(2)]]);
    let sets = vec![set("c", load(1, Ty::Int))];
    assert_eq!(code_of(update(&mut s.ctx, "t", &sets, None)), Some(Code::ColumnNotFound));
    assert_eq!(code_of(delete(&mut s.ctx, "none", None)), Some(Code::TableNotFound));
}

#[test]
fn a_refused_update_changes_no_row() {
    let mut s = Session::new();
    s.create("t", vec![Field::new("a", Ty::Int, false), integer("b")]).unwrap();
    s.insert("t", &[], vec![vec![Value::I32(1), Value::I32(5)], vec![Value::I32(2), Value::Null]]).unwrap();
    let r = update(&mut s.ctx, "t", &vec![set("a", load(1, Ty::Int))], None);
    assert_eq!(code_of(r), Some(Code::TypeMismatch));
    assert_eq!(
        s.select(&["a", "b"], "t").unwrap(),
        vec![vec![Value::I32(1), Value::I32(5)], vec![Value::I32(2), Value::Null]]
    );
}

#[test]
fn an_update_touches_the_rows_that_the_filter_picks() {
    let mut s = Session::new();
    s.create("t", vec![integer("a"), integer("b")]).unwrap();
    s.insert("t", &[], vec![vec![Value::I32(1), Value::I32(5)], vec![Value::I32(2), Value::I32(6)]]).unwrap();
    let q = update(
        &mut s.ctx,
        "t",
        &vec![set("b", constant(Ty::Int, Value::I32(9)))],
        Some(equals(0, Ty::Int, Value::I32(2))),
    )
    .unwrap();
    assert_eq!(q.batch.cols[0].value_at(0), Value::I64(1));
    assert_eq!(
        s.select(&["a", "b"], "t").unwrap(),
        vec![vec![Value::I32(1), Value::I32(5)], vec![Value::I32(2), Value::I32(9)]]
    );
}

#[test]
fn deleting_twice_deletes_nothing_more() {
    let mut s = Session::new();
    s.create("t", vec![integer("a")]).unwrap();
    s.insert("t", &[], vec![vec![Value::I32(1)], vec![Value::I32(2)], vec![Value::I32(1)]]).unwrap();
    let q = delete(&mut s.ctx, "t", Some(equals(0, Ty::Int, Value::I32(1)))).unwrap();
    assert_eq!(q.batch.cols[0].value_at(0), Value::I64(2));
    let q = delete(&mut s.ctx, "t", Some(equals(0, Ty::Int, Value::I32(1)))).unwrap();
    assert_eq!(q.batch.cols[0].value_at(0), Value::I64(0));
    assert_eq!(s.select(&["a"], "t").unwrap(), vec![vec![Value::I32(2)]]);
    let q = delete(&mut s.ctx, "t", None).unwrap();
    assert_eq!(q.batch.cols[0].value_at(0), Value::I64(1));
    assert!(s.select(&["a"], "t").unwrap().is_empty());
}

#[test]
fn the_rows_of_a_query_are_inserted_as_they_come() {
    let mut s = Session::new();
    s.register_bytes("src", b"x,y\n1,a\n2,b\n");
    s.create("t", vec![Field::new("n", Ty::BigInt, true), Field::new("s", Ty::Varchar, true)]).unwrap();
    let plan = s.plan(&["x", "y"], "src").unwrap();
    let casts = vec![load(0, Ty::BigInt), load(0, Ty::Varchar)];
    insert(&mut s.ctx, "t", &Vec::new(), InsertSource::Query(plan, casts)).unwrap();
    assert_eq!(
        s.select(&["n", "s"], "t").unwrap(),
        vec![vec![Value::I64(1), text("a")], vec![Value::I64(2), text("b")]]
    );
}
