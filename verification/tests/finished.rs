//! What operators have returned once they are done, and in which batches.

use ahiru_core::catalog::Catalog;
use ahiru_core::error::Error;
use ahiru_core::exec::agg::HashAggregate;
use ahiru_core::exec::join::HashJoin;
use ahiru_core::exec::sample::RowSample;
use ahiru_core::exec::setop::SetOp;
use ahiru_core::exec::sort::Sort;
use ahiru_core::exec::unnest::Unnest;
use ahiru_core::exec::window::Window;
use ahiru_core::exec::{child, Child, DistinctOn, ExecContext, Limit, Operator, Step};
use ahiru_core::expr::{Instr, OpCode, Program};
use ahiru_core::plan::{
    Agg, AggKind, JoinKind, SampleSpec, SetOpKind, SortKey, WindowFrame, WindowKind, WindowSpec,
};
use ahiru_core::vector::{Batch, Ty, Value, Vector, BATCH_SIZE};
use std::cell::Cell;
use std::rc::Rc;

fn load(col: u16, ty: Ty) -> Program {
    let mut p = Program::new();
    let r = p.alloc_reg();
    p.push(Instr::with_aux(OpCode::LoadCol, ty.phys(), r, 0, 0, col));
    p.result = r;
    p.result_ty = ty;
    p
}

/// Batches given beforehand; it counts how often it is pulled.
struct Script {
    batches: Vec<Vec<Vector>>,
    pos: usize,
    pulls: Rc<Cell<usize>>,
}

impl Operator for Script {
    fn next(&mut self, _ctx: &mut ExecContext) -> Result<Step, Error> {
        self.pulls.set(self.pulls.get() + 1);
        if self.pos >= self.batches.len() {
            return Ok(Step::Done);
        }
        let mut cols = Vec::new();
        std::mem::swap(&mut cols, &mut self.batches[self.pos]);
        self.pos += 1;
        Ok(Step::Ready(Batch::new(cols)))
    }
}

fn counted(batches: Vec<Vec<Vector>>) -> (Child, Rc<Cell<usize>>) {
    let pulls = Rc::new(Cell::new(0));
    (child(Box::new(Script { batches, pos: 0, pulls: pulls.clone() })), pulls)
}

fn input(batches: Vec<Vec<Vector>>) -> Child {
    counted(batches).0
}

fn ints(vals: impl IntoIterator<Item = i32>) -> Vector {
    let mut v = Vector::new(Ty::Int);
    for x in vals {
        v.push_value(&Value::I32(x));
    }
    v
}

/// More rows than a batch holds, after a batch without rows.
fn many() -> Child {
    let n = BATCH_SIZE as i32 + 5;
    input(vec![vec![ints([])], vec![ints(0..n)], vec![ints([])], vec![ints(0..3)]])
}

struct Got {
    sizes: Vec<usize>,
    types: Vec<Vec<Ty>>,
    rows: Vec<Vec<Value>>,
}

fn drain(mut op: impl Operator) -> Got {
    let mut got = Got { sizes: Vec::new(), types: Vec::new(), rows: Vec::new() };
    let mut ctx = ExecContext::new(Catalog::new());
    loop {
        match op.next(&mut ctx).unwrap() {
            Step::Ready(mut b) => {
                b.materialize();
                got.sizes.push(b.num_rows());
                got.types.push(b.cols.iter().map(|c| c.ty()).collect());
                for r in 0..b.num_rows() {
                    got.rows.push(b.cols.iter().map(|c| c.value_at(r)).collect());
                }
            }
            Step::Done => return got,
            _ => panic!("nothing to wait for"),
        }
    }
}

/// Every batch has rows, at most a batch of them, in columns of these types.
fn in_portions(got: &Got, types: &[Ty], rows: usize) {
    assert!(got.sizes.iter().all(|n| 0 < *n && *n <= BATCH_SIZE), "{:?}", got.sizes);
    assert!(got.types.iter().all(|t| t[..] == *types), "{:?}", got.types);
    assert_eq!(got.rows.len(), rows);
}

const ALL: usize = BATCH_SIZE + 8;

fn by_first() -> Vec<SortKey> {
    vec![SortKey { expr: load(0, Ty::Int), desc: false, nulls_first: false }]
}

#[test]
fn a_sort_hands_its_rows_out_in_portions() {
    in_portions(&drain(Sort::new(many(), by_first(), None).unwrap()), &[Ty::Int], ALL);
}

#[test]
fn a_window_hands_its_rows_out_in_portions() {
    let w = WindowSpec {
        kind: WindowKind::RowNumber,
        args: Vec::new(),
        partition_by: Vec::new(),
        order_by: by_first(),
        frame: WindowFrame::WholePartition,
        result_ty: Ty::BigInt,
        name: String::from("n"),
    };
    in_portions(&drain(Window::new(many(), vec![w]).unwrap()), &[Ty::Int, Ty::BigInt], ALL);
}

#[test]
fn an_aggregation_hands_its_groups_out_in_portions() {
    let count = Agg {
        kind: AggKind::CountStar,
        arg: None,
        distinct: false,
        name: String::from("n"),
        separator: Vec::new(),
        filter: None,
    };
    let got = drain(HashAggregate::new(many(), vec![load(0, Ty::Int)], vec![count], None).unwrap());
    in_portions(&got, &[Ty::Int, Ty::BigInt], BATCH_SIZE + 5);
    assert_eq!(got.rows[0], vec![Value::I32(0), Value::I64(2)]);
    assert_eq!(got.rows[3], vec![Value::I32(3), Value::I64(1)]);
}

#[test]
fn a_sample_hands_its_rows_out_in_portions() {
    let spec = SampleSpec { is_rows: true, amount: ((BATCH_SIZE + 2) as f64).to_bits(), seed: 1 };
    in_portions(&drain(RowSample::new(many(), &spec)), &[Ty::Int], BATCH_SIZE + 2);
}

fn join(left: Child, right: Child, kind: JoinKind) -> HashJoin {
    let key = || vec![load(0, Ty::Int)];
    HashJoin::new(left, right, kind, key(), key(), None, vec![Ty::Int], vec![Ty::Int]).unwrap()
}

#[test]
fn a_join_hands_its_rows_out_in_portions() {
    let both = [Ty::Int, Ty::Int];
    in_portions(&drain(join(many(), input(vec![vec![ints([1, 1])]]), JoinKind::Left)), &both, ALL + 2);
    in_portions(&drain(join(input(vec![vec![ints([1])]]), many(), JoinKind::Full)), &both, ALL);
    in_portions(&drain(join(many(), input(vec![vec![ints([-1])]]), JoinKind::Anti)), &[Ty::Int], ALL);
    // A left batch of which nothing matches gives no batch.
    assert!(drain(join(many(), input(vec![vec![ints([-1])]]), JoinKind::Inner)).sizes.is_empty());
}

#[test]
fn unnesting_hands_its_rows_out_in_portions() {
    let mut v = Vector::new(Ty::Json);
    v.push_null();
    v.push_value(&Value::Bytes(b"[]".to_vec()));
    let text = format!("{:?}", (0..BATCH_SIZE + 3).collect::<Vec<_>>());
    v.push_value(&Value::Bytes(text.into_bytes()));
    let got = drain(Unnest::new(input(vec![vec![v]]), load(0, Ty::Json), Ty::BigInt));
    in_portions(&got, &[Ty::Json, Ty::BigInt], BATCH_SIZE + 3);
    assert_eq!(got.rows[7][1], Value::I64(7));
}

#[test]
fn a_limit_stops_pulling_once_it_has_its_rows() {
    let (c, pulls) = counted(vec![vec![ints(0..4)], vec![ints(4..8)], vec![ints(8..12)]]);
    let got = drain(Limit::new(c, Some(3), 2));
    assert_eq!(got.rows, vec![vec![Value::I32(2)], vec![Value::I32(3)], vec![Value::I32(4)]]);
    assert_eq!(pulls.get(), 2);
    let (c, pulls) = counted(vec![vec![ints(0..4)]]);
    assert!(drain(Limit::new(c, Some(0), 0)).rows.is_empty());
    assert_eq!(pulls.get(), 0);
}

#[test]
fn a_sort_of_no_rows_does_not_pull() {
    let (c, pulls) = counted(vec![vec![ints(0..4)]]);
    assert!(drain(Sort::new(c, by_first(), Some(0)).unwrap()).rows.is_empty());
    assert_eq!(pulls.get(), 0);
}

#[test]
fn a_sort_is_a_stable_permutation() {
    let batches = vec![vec![ints([2, 1, 2]), ints([0, 1, 2])], vec![ints([1, 3, 2]), ints([3, 4, 5])]];
    let got = drain(Sort::new(input(batches), by_first(), Some(5)).unwrap());
    let order: Vec<Value> = got.rows.iter().map(|r| r[1].clone()).collect();
    assert_eq!(order, [1, 3, 0, 2, 5].map(Value::I32).to_vec());
}

#[test]
fn the_first_row_of_each_key_is_found_across_batches() {
    let batches = vec![vec![ints([1, 1, 2]), ints([10, 11, 12])], vec![ints([2, 3]), ints([13, 14])]];
    let got = drain(DistinctOn::new(input(batches), vec![load(0, Ty::Int)]));
    let kept: Vec<Value> = got.rows.iter().map(|r| r[1].clone()).collect();
    assert_eq!(kept, [10, 12, 14].map(Value::I32).to_vec());
}

#[test]
fn set_operations_count_the_rows_of_both_sides() {
    // A row of 1 comes three times on the left and once on the right, one of 2 once and twice, one of
    // 3 only on the left, one of 4 only on the right.
    let expected = [
        (SetOpKind::Union, true, [4, 3, 1, 1]),
        (SetOpKind::Union, false, [1, 1, 1, 1]),
        (SetOpKind::Intersect, true, [1, 1, 0, 0]),
        (SetOpKind::Intersect, false, [1, 1, 0, 0]),
        (SetOpKind::Except, true, [2, 0, 1, 0]),
        (SetOpKind::Except, false, [0, 0, 1, 0]),
    ];
    for (op, all, counts) in expected {
        let left = input(vec![vec![ints([1, 2, 1])], vec![ints([])], vec![ints([3, 1])]]);
        let right = input(vec![vec![ints([2, 4])], vec![ints([2, 1])]]);
        let got = drain(SetOp::new(left, right, op, all).unwrap());
        assert!(got.sizes.iter().all(|n| *n > 0));
        for (i, n) in counts.iter().enumerate() {
            let row = vec![Value::I32(i as i32 + 1)];
            assert_eq!(got.rows.iter().filter(|r| **r == row).count(), *n as usize, "{op:?} {all} {row:?}");
        }
    }
}
