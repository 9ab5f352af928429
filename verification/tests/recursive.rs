//! Recursive queries.

use ahiru_core::catalog::Catalog;
use ahiru_core::error::{code_of, Code};
use ahiru_core::exec::recursive::{RecursiveCte, MAX_WORKING_BYTES};
use ahiru_core::exec::{child, ExecContext, Operator, Step, Values};
use ahiru_core::plan::Node;
use ahiru_core::vector::{Batch, Field, Ty, Value, Vector};
use std::rc::Rc;

#[test]
fn process_preserves_rows_only_batches() {
    let mut op = RecursiveCte::new(
        child(Box::new(Values::new(Batch::rows_only(3)))),
        Rc::new(Node::WorkingTable { schema: Vec::new() }),
        true,
    );
    let out = op.process(Batch::rows_only(3)).unwrap().unwrap();
    assert!(out.cols.is_empty());
    assert_eq!(out.num_rows(), 3);
    assert_eq!(op.next_working[0].num_rows(), 3);
}

/// A query whose every round returns what the round before returned: how many rows come, and what
/// ends it.
fn repeat_itself(all: bool) -> (usize, Option<Code>) {
    let mut v = Vector::new(Ty::Int);
    v.push_value(&Value::I32(7));
    let mut op = RecursiveCte::new(
        child(Box::new(Values::new(Batch::new(vec![v])))),
        Rc::new(Node::WorkingTable { schema: vec![Field::new("n", Ty::Int, true)] }),
        all,
    );
    let mut ctx = ExecContext::new(Catalog::new());
    let mut rows = 0;
    loop {
        match op.next(&mut ctx) {
            Ok(Step::Ready(b)) => rows += b.num_rows(),
            Ok(Step::Done) => return (rows, None),
            Ok(_) => panic!("nothing to wait for"),
            Err(e) => return (rows, Some(e.code)),
        }
    }
}

#[test]
fn endless_recursion_is_ended_by_the_limit() {
    let (rows, code) = repeat_itself(true);
    assert_eq!(code, Some(Code::RecursionLimitExceeded));
    assert_eq!(rows, 100_001);
    // UNION drops the repeated row, so there is nothing to go on with.
    assert_eq!(repeat_itself(false), (1, None));
}

/// A working table that is too large stays counted, so that more rows are refused as well.
#[test]
fn a_full_working_table_stays_full() {
    let one = || {
        let mut v = Vector::new(Ty::Int);
        v.push_value(&Value::I32(7));
        Batch::new(vec![v])
    };
    let mut op = RecursiveCte::new(
        child(Box::new(Values::new(one()))),
        Rc::new(Node::WorkingTable { schema: vec![Field::new("n", Ty::Int, true)] }),
        true,
    );
    op.next_working_bytes = MAX_WORKING_BYTES;
    assert_eq!(code_of(op.process(one())), Some(Code::Oom));
    assert!(op.next_working_bytes > MAX_WORKING_BYTES);
    assert!(op.next_working.is_empty());
    assert_eq!(code_of(op.process(one())), Some(Code::Oom));
}
