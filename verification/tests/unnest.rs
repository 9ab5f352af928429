//! The expansion of arrays.

use ahiru_core::catalog::Catalog;
use ahiru_core::error::{code_of, Error};
use ahiru_core::exec::unnest::Unnest;
use ahiru_core::exec::{child, ExecContext, Operator, Step};
use ahiru_core::expr::{Instr, OpCode, Program};
use ahiru_core::vector::{Batch, Ty, Value, Vector, BATCH_SIZE};

fn json_col(vals: &[Option<&str>]) -> Vector {
    let mut v = Vector::new(Ty::Json);
    for x in vals {
        match x {
            Some(s) => v.push_value(&Value::Bytes(s.as_bytes().to_vec())),
            None => v.push_null(),
        }
    }
    v
}

fn ints(vals: &[i32]) -> Vector {
    let mut v = Vector::new(Ty::Int);
    for &x in vals {
        v.push_value(&Value::I32(x));
    }
    v
}

/// A program that returns column `idx` unchanged. `col0`'s type is supplied by the caller.
fn load(idx: u16, ty: Ty) -> Program {
    let mut p = Program::new();
    let r = p.alloc_reg();
    p.push(Instr::with_aux(OpCode::LoadCol, ty.phys(), r, 0, 0, idx));
    p.result = r;
    p.result_ty = ty;
    p
}

enum Script {
    Rows(Vec<Vector>),
    NeedIo,
}

struct Mock {
    steps: Vec<Script>,
    pos: usize,
}

impl Operator for Mock {
    fn next(&mut self, _ctx: &mut ExecContext) -> Result<Step, Error> {
        if self.pos >= self.steps.len() {
            return Ok(Step::Done);
        }
        let i = self.pos;
        self.pos += 1;
        Ok(match &self.steps[i] {
            Script::NeedIo => Step::NeedIo,
            Script::Rows(cols) => Step::Ready(Batch::new(cols.iter().map(|c| c.dup()).collect())),
        })
    }
}

/// Drives `Unnest` to completion and returns the sequence of `(id, expanded value)` pairs.
/// `id` is the input's column 0 (a duplicated column) and the expanded value is the last column.
fn drive(steps: Vec<Script>, elem_ty: Ty) -> Vec<(i32, Value)> {
    let expr = load(1, Ty::Json); // expands column 1 (the array)
    let mut op = Unnest::new(child(Box::new(Mock { steps, pos: 0 })), expr, elem_ty);
    let mut rows = Vec::new();
    for guard in 0..10_000 {
        assert!(guard < 9_999, "does not terminate");
        let mut ctx =
            ExecContext::new(Catalog::new());
        match op.next(&mut ctx).unwrap() {
            Step::Ready(mut b) => {
                b.materialize();
                for r in 0..b.num_rows() {
                    let Value::I32(id) = b.cols[0].value_at(r) else { panic!("expected I32") };
                    // The output columns are "every input column (id, the original array
                    // column) ++ the expanded element", so the expanded value is always last.
                    let last = b.cols.len() - 1;
                    rows.push((id, b.cols[last].value_at(r)));
                }
            }
            Step::NeedIo | Step::NeedCodec => {}
            Step::Done => break,
        }
    }
    rows
}

fn s(v: &str) -> Value {
    Value::Bytes(v.as_bytes().to_vec())
}

#[test]
fn expands_each_row_by_its_array_length() {
    let steps = vec![Script::Rows(vec![
        ints(&[1, 2]),
        json_col(&[Some("[10,20,30]"), Some("[40,50]")]),
    ])];
    let rows = drive(steps, Ty::BigInt);
    assert_eq!(
        rows,
        vec![
            (1, Value::I64(10)),
            (1, Value::I64(20)),
            (1, Value::I64(30)),
            (2, Value::I64(40)),
            (2, Value::I64(50)),
        ]
    );
}

#[test]
fn null_and_empty_arrays_produce_zero_rows() {
    // duckdb: UNNEST(NULL::INT[]) and UNNEST([]) both give 0 rows.
    let steps =
        vec![Script::Rows(vec![ints(&[1, 2, 3]), json_col(&[None, Some("[]"), Some("[7]")])])];
    let rows = drive(steps, Ty::BigInt);
    assert_eq!(rows, vec![(3, Value::I64(7))]);
}

#[test]
fn json_null_element_becomes_sql_null() {
    let steps = vec![Script::Rows(vec![ints(&[1]), json_col(&[Some("[1,null,3]")])])];
    let rows = drive(steps, Ty::BigInt);
    assert_eq!(rows, vec![(1, Value::I64(1)), (1, Value::Null), (1, Value::I64(3))]);
}

#[test]
fn varchar_and_boolean_narrowing_decode_correctly() {
    let steps = vec![Script::Rows(vec![ints(&[1]), json_col(&[Some(r#"["a","b\"c"]"#)])])];
    let rows = drive(steps, Ty::Varchar);
    assert_eq!(rows, vec![(1, s("a")), (1, s("b\"c"))]);

    let steps = vec![Script::Rows(vec![ints(&[1]), json_col(&[Some("[true,false]")])])];
    let rows = drive(steps, Ty::Boolean);
    assert_eq!(rows, vec![(1, Value::Bool(true)), (1, Value::Bool(false))]);
}

#[test]
fn spans_multiple_output_batches_when_a_single_row_exceeds_batch_size() {
    // Gives one row more elements than BATCH_SIZE, exercising "resume mid-row" across several
    // `next()` calls (= output batch boundaries).
    let n = BATCH_SIZE + 500;
    let mut arr = String::from("[");
    for i in 0..n {
        if i > 0 {
            arr.push(',');
        }
        arr.push_str(&i.to_string());
    }
    arr.push(']');
    let steps = vec![Script::Rows(vec![ints(&[9]), json_col(&[Some(&arr)])])];
    let rows = drive(steps, Ty::BigInt);
    assert_eq!(rows.len(), n);
    for (i, (id, v)) in rows.iter().enumerate() {
        assert_eq!(*id, 9);
        assert_eq!(*v, Value::I64(i as i64));
    }
}

#[test]
fn need_io_between_input_batches_does_not_change_the_result() {
    // What `Unnest` itself advances through is the input operator, and `NeedIo` comes from the
    // input side. This confirms that across one, "the row/index being expanded" (`Cur`) is
    // preserved and the result does not change.
    let make = |interrupt: bool| {
        let mut steps = Vec::new();
        steps.push(Script::Rows(vec![ints(&[1, 2]), json_col(&[Some("[1,2]"), Some("[3]")])]));
        if interrupt {
            steps.push(Script::NeedIo);
        }
        steps.push(Script::Rows(vec![ints(&[3]), json_col(&[Some("[4,5,6]")])]));
        steps
    };
    let plain = drive(make(false), Ty::BigInt);
    let interrupted = drive(make(true), Ty::BigInt);
    assert_eq!(plain, interrupted, "the result must not change across a NeedIo");
    assert_eq!(plain.len(), 6);
}

#[test]
fn need_io_mid_row_does_not_change_the_result() {
    // While a huge single row is being emitted across several batches (with `elem_pos` partway
    // through), an upstream `NeedIo` before the next `next()` call cannot matter (this `next()`
    // does not call input at all). Since a `NeedIo` cannot be interposed directly, that is
    // verified instead by cross-checking "the same input split across 2 batches" against "the
    // same input in 1 batch".
    let n = BATCH_SIZE + 200;
    let mut arr = String::from("[");
    for i in 0..n {
        if i > 0 {
            arr.push(',');
        }
        arr.push_str(&i.to_string());
    }
    arr.push(']');
    let one_batch = vec![Script::Rows(vec![ints(&[1]), json_col(&[Some(&arr)])])];
    let rows_one = drive(one_batch, Ty::BigInt);
    assert_eq!(rows_one.len(), n);
    assert_eq!(rows_one[0], (1, Value::I64(0)));
    assert_eq!(rows_one[n - 1], (1, Value::I64((n - 1) as i64)));
}

#[test]
fn falls_back_to_json_when_declared_type_mismatches_the_actual_element() {
    // Confirms the defensive fallback (NULL rather than a panic) for the case where `elem_ty`'s
    // narrowing wrongly landed on the narrow side.
    let steps = vec![Script::Rows(vec![ints(&[1]), json_col(&[Some(r#"["not a number"]"#)])])];
    let rows = drive(steps, Ty::BigInt);
    assert_eq!(rows, vec![(1, Value::Null)]);
}

/// An element that cannot be read is the next one to be read: every later pull fails on it.
#[test]
fn an_array_that_cannot_be_read_fails_again() {
    let steps = vec![
        Script::Rows(vec![ints(&[1, 2, 3]), json_col(&[Some("[1]"), Some("[1,"), Some("[2]")])]),
        Script::Rows(vec![ints(&[4]), json_col(&[Some("[3]")])]),
    ];
    let mut op = Unnest::new(child(Box::new(Mock { steps, pos: 0 })), load(1, Ty::Json), Ty::BigInt);
    let mut ctx = ExecContext::new(Catalog::new());
    let first = code_of(op.next(&mut ctx));
    assert!(first.is_some());
    assert_eq!(op.cur.as_ref().map(|c| (c.row, c.elem_pos)), Some((1, 0)));
    assert_eq!(code_of(op.next(&mut ctx)), first);
    assert_eq!(op.cur.as_ref().map(|c| (c.row, c.elem_pos)), Some((1, 0)));
}
