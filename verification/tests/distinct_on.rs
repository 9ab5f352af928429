//! The first row per key.

use ahiru_core::catalog::Catalog;
use ahiru_core::error::{Code, Error};
use ahiru_core::exec::{child, AssertMaxOneRow, DistinctOn, ExecContext, Operator, Step};
use ahiru_core::expr::{Instr, OpCode, Program};
use ahiru_core::vector::{Batch, PhysType, Ty, Value, Vector};

fn ints(vals: &[Option<i32>]) -> Vector {
    let mut v = Vector::new(Ty::Int);
    for x in vals {
        match x {
            Some(x) => v.push_value(&Value::I32(*x)),
            None => v.push_null(),
        }
    }
    v
}

/// A program that just returns column `idx`.
fn load(idx: u16) -> Program {
    let mut p = Program::new();
    let r = p.alloc_reg();
    p.push(Instr::with_aux(OpCode::LoadCol, PhysType::I32, r, 0, 0, idx));
    p.result = r;
    p.result_ty = Ty::Int;
    p
}

enum Script {
    Rows(Vec<Vector>),
    NeedIo,
}

struct Mock {
    steps: Vec<Script>,
    pos: usize,
}

impl Operator for Mock {
    fn next(&mut self, _ctx: &mut ExecContext) -> Result<Step, Error> {
        if self.pos >= self.steps.len() {
            return Ok(Step::Done);
        }
        let i = self.pos;
        self.pos += 1;
        Ok(match &self.steps[i] {
            Script::NeedIo => Step::NeedIo,
            Script::Rows(cols) => Step::Ready(Batch::new(cols.clone())),
        })
    }
}

fn drive(steps: Vec<Script>, keys: Vec<Program>) -> Vec<Vec<Value>> {
    let mut op = DistinctOn::new(child(Box::new(Mock { steps, pos: 0 })), keys);
    let mut rows = Vec::new();
    for guard in 0..10_000 {
        assert!(guard < 9_999, "does not terminate");
        let mut ctx =
            ExecContext::new(Catalog::new());
        match op.next(&mut ctx).unwrap() {
            Step::Ready(b) => {
                for i in 0..b.card() {
                    let r = match &b.sel {
                        Some(s) => s[i] as usize,
                        None => i,
                    };
                    rows.push(b.cols.iter().map(|c| c.value_at(r)).collect::<Vec<_>>());
                }
            }
            Step::NeedIo | Step::NeedCodec => {}
            Step::Done => break,
        }
    }
    rows
}

#[test]
fn keeps_only_the_first_row_per_key_in_arrival_order() {
    // Three rows with key=1 and two with key=2 arrive. Only the first row of each key survives.
    let steps = vec![Script::Rows(vec![
        ints(&[Some(1), Some(2), Some(1), Some(2), Some(1)]),
        ints(&[Some(10), Some(20), Some(11), Some(21), Some(12)]),
    ])];
    let rows = drive(steps, vec![load(0)]);
    assert_eq!(rows.len(), 2);
    assert_eq!(rows[0], vec![Value::I32(1), Value::I32(10)]);
    assert_eq!(rows[1], vec![Value::I32(2), Value::I32(20)]);
}

#[test]
fn mod_null_keys_form_their_own_group() {
    let steps = vec![Script::Rows(vec![
        ints(&[None, Some(1), None]),
        ints(&[Some(9), Some(8), Some(7)]),
    ])];
    let rows = drive(steps, vec![load(0)]);
    assert_eq!(rows.len(), 2);
    assert_eq!(rows[0], vec![Value::Null, Value::I32(9)]);
    assert_eq!(rows[1], vec![Value::I32(1), Value::I32(8)]);
}

#[test]
fn multi_column_keys_are_compared_as_a_whole() {
    let steps = vec![Script::Rows(vec![
        ints(&[Some(1), Some(1), Some(1)]),
        ints(&[Some(1), Some(2), Some(1)]),
        ints(&[Some(100), Some(200), Some(300)]),
    ])];
    let rows = drive(steps, vec![load(0), load(1)]);
    // (1,1) and (1,2) are different keys; the second (1,1) is a duplicate and is dropped.
    assert_eq!(rows.len(), 2);
    assert_eq!(rows[0][2], Value::I32(100));
    assert_eq!(rows[1][2], Value::I32(200));
}

#[test]
fn need_io_mid_input_does_not_change_the_result() {
    let make = |interrupt: bool| {
        let mut steps = Vec::new();
        steps.push(Script::Rows(vec![ints(&[Some(1), Some(2)]), ints(&[Some(10), Some(20)])]));
        if interrupt {
            steps.push(Script::NeedIo);
        }
        steps.push(Script::Rows(vec![ints(&[Some(1), Some(3)]), ints(&[Some(11), Some(30)])]));
        steps
    };
    let plain = drive(make(false), vec![load(0)]);
    let interrupted = drive(make(true), vec![load(0)]);
    assert_eq!(plain, interrupted, "the result must not change across a NeedIo");
    assert_eq!(plain.len(), 3);
}

#[test]
fn all_duplicates_in_a_batch_yield_no_output_batch() {
    // If a whole batch is nothing but duplicates, that batch is not returned to the caller
    // and the next input is pulled (the same "empty means next" discipline as `Filter`).
    let steps = vec![
        Script::Rows(vec![ints(&[Some(1)]), ints(&[Some(10)])]),
        Script::Rows(vec![ints(&[Some(1), Some(1)]), ints(&[Some(99), Some(98)])]),
        Script::Rows(vec![ints(&[Some(2)]), ints(&[Some(20)])]),
    ];
    let rows = drive(steps, vec![load(0)]);
    assert_eq!(rows.len(), 2);
    assert_eq!(rows[0], vec![Value::I32(1), Value::I32(10)]);
    assert_eq!(rows[1], vec![Value::I32(2), Value::I32(20)]);
}

#[test]
fn the_first_row_of_each_key_comes_through_in_arrival_order() {
    let steps = vec![
        Script::Rows(vec![ints(&[Some(2), Some(1)]), ints(&[Some(10), Some(20)])]),
        Script::Rows(vec![ints(&[Some(3), Some(2), None]), ints(&[Some(30), Some(40), Some(50)])]),
    ];
    let rows = drive(steps, vec![load(0)]);
    let firsts: Vec<Value> = rows.into_iter().map(|r| r[1].clone()).collect();
    assert_eq!(firsts, vec![Value::I32(10), Value::I32(20), Value::I32(30), Value::I32(50)]);
}

/// The batches that come through, and what ends them.
fn at_most_one(steps: Vec<Script>, keys: Vec<Program>) -> (usize, Option<Code>) {
    let mut op = AssertMaxOneRow::new(child(Box::new(Mock { steps, pos: 0 })), keys);
    let mut ctx = ExecContext::new(Catalog::new());
    let mut n = 0;
    loop {
        match op.next(&mut ctx) {
            Ok(Step::Ready(b)) => n += b.num_rows(),
            Ok(Step::Done) => return (n, None),
            Ok(_) => {}
            Err(e) => return (n, Some(e.code)),
        }
    }
}

#[test]
fn a_second_row_of_a_key_is_refused() {
    let rows = |v: &[Option<i32>]| Script::Rows(vec![ints(v)]);
    let by_key = || vec![load(0)];
    assert_eq!(at_most_one(vec![rows(&[Some(1), Some(2)]), Script::NeedIo, rows(&[None])], by_key()), (3, None));
    assert_eq!(
        at_most_one(vec![rows(&[Some(1)]), rows(&[Some(2), Some(1)])], by_key()),
        (1, Some(Code::MultipleRowsSubquery))
    );
    // Without keys, one row is all there may be.
    assert_eq!(at_most_one(vec![rows(&[Some(1)])], Vec::new()), (1, None));
    assert_eq!(
        at_most_one(vec![rows(&[Some(1), Some(2)])], Vec::new()),
        (0, Some(Code::MultipleRowsSubquery))
    );
}
