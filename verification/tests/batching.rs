//! How rows are cut into batches makes no difference.

use ahiru_core::catalog::Catalog;
use ahiru_core::ddl::{create_filled, run_query_to_rows};
use ahiru_core::error::Error;
use ahiru_core::exec::join::HashJoin;
use ahiru_core::exec::sample::Bernoulli;
use ahiru_core::exec::setop::SetOp;
use ahiru_core::exec::sort::Sort;
use ahiru_core::exec::unnest::Unnest;
use ahiru_core::exec::{child, Child, DistinctOn, ExecContext, Filter, Limit, Operator, Project, Step};
use ahiru_core::expr::{Instr, OpCode, Program};
use ahiru_core::plan::{JoinKind, MemScanSpec, Node, SampleSpec, SetOpKind, SortKey};
use ahiru_core::vector::{Batch, Field, Ty, Value, Vector};

fn load(col: u16, ty: Ty) -> Program {
    let mut p = Program::new();
    let r = p.alloc_reg();
    p.push(Instr::with_aux(OpCode::LoadCol, ty.phys(), r, 0, 0, col));
    p.result = r;
    p.result_ty = ty;
    p
}

/// `column < constant`.
fn below(col: u16, n: i32) -> Program {
    let mut p = Program::new();
    let a = p.alloc_reg();
    let b = p.alloc_reg();
    let r = p.alloc_reg();
    let k = p.add_const(Ty::Int, Value::I32(n));
    p.push(Instr::with_aux(OpCode::LoadCol, Ty::Int.phys(), a, 0, 0, col));
    p.push(Instr::with_aux(OpCode::LoadConst, Ty::Int.phys(), b, 0, 0, k));
    p.push(Instr::new(OpCode::Lt, Ty::Int.phys(), r, a, b));
    p.result = r;
    p.result_ty = Ty::Boolean;
    p
}

/// Rows of two columns, in batches of a given size, with interruptions.
struct Rows {
    rows: Vec<(Option<i32>, i32)>,
    pos: usize,
    size: usize,
    waited: bool,
}

impl Operator for Rows {
    fn next(&mut self, _ctx: &mut ExecContext) -> Result<Step, Error> {
        if self.pos >= self.rows.len() {
            return Ok(Step::Done);
        }
        self.waited = !self.waited;
        if self.waited {
            return Ok(Step::NeedIo);
        }
        let mut a = Vector::new(Ty::Int);
        let mut b = Vector::new(Ty::Int);
        let end = self.rows.len().min(self.pos + self.size);
        for (x, y) in &self.rows[self.pos..end] {
            match x {
                Some(x) => a.push_value(&Value::I32(*x)),
                None => a.push_null(),
            }
            b.push_value(&Value::I32(*y));
        }
        self.pos = end;
        Ok(Step::Ready(Batch::new(vec![a, b])))
    }
}

fn rows(n: i32, size: usize) -> Child {
    let rows = (0..n).map(|i| (if i % 7 == 3 { None } else { Some(i * 5 % 11) }, i)).collect();
    child(Box::new(Rows { rows, pos: 0, size, waited: false }))
}

fn drain(mut op: Box<dyn Operator>) -> Vec<Vec<Value>> {
    let mut out = Vec::new();
    let mut ctx = ExecContext::new(Catalog::new());
    for guard in 0..100_000 {
        assert!(guard < 99_999, "does not terminate");
        match op.next(&mut ctx).unwrap() {
            Step::Ready(mut b) => {
                b.materialize();
                for r in 0..b.num_rows() {
                    out.push(b.cols.iter().map(|c| c.value_at(r)).collect());
                }
            }
            Step::NeedIo | Step::NeedCodec => {}
            Step::Done => break,
        }
    }
    out
}

/// The rows that an operator returns, for inputs in batches of several sizes.
fn the_same(make: impl Fn(usize) -> Box<dyn Operator>) -> Vec<Vec<Value>> {
    let whole = drain(make(1000));
    for size in [1, 2, 3, 7, 50] {
        assert_eq!(drain(make(size)), whole, "batches of {size}");
    }
    whole
}

#[test]
fn filters_do_not_depend_on_batching() {
    let got = the_same(|size| Box::new(Filter::new(rows(100, size), below(0, 4))));
    let expected: Vec<Vec<Value>> = (0..100)
        .filter(|i| i % 7 != 3 && i * 5 % 11 < 4)
        .map(|i| vec![Value::I32(i * 5 % 11), Value::I32(i)])
        .collect();
    assert_eq!(got, expected);
}

#[test]
fn projections_do_not_depend_on_batching() {
    let got = the_same(|size| Box::new(Project::new(rows(20, size), vec![load(1, Ty::Int), below(1, 5)])));
    let expected: Vec<Vec<Value>> = (0..20).map(|i| vec![Value::I32(i), Value::Bool(i < 5)]).collect();
    assert_eq!(got, expected);
}

#[test]
fn limits_do_not_depend_on_batching() {
    let got = the_same(|size| Box::new(Limit::new(rows(100, size), Some(10), 25)));
    assert_eq!(got.iter().map(|r| r[1].as_i64().unwrap()).collect::<Vec<_>>(), (25..35).collect::<Vec<_>>());
    assert!(the_same(|size| Box::new(Limit::new(rows(10, size), None, 10))).is_empty());
}

#[test]
fn distinct_rows_do_not_depend_on_batching() {
    let got = the_same(|size| Box::new(DistinctOn::new(rows(100, size), vec![load(0, Ty::Int)])));
    // Eleven values and NULL.
    assert_eq!(got.len(), 12);
}

#[test]
fn samples_do_not_depend_on_batching() {
    let spec = SampleSpec { is_rows: false, amount: 40f64.to_bits(), seed: 3 };
    let got = the_same(|size| Box::new(Bernoulli::new(rows(100, size), &spec)));
    assert!(!got.is_empty() && got.len() < 100);
}

#[test]
fn sorting_does_not_depend_on_batching() {
    let key = || vec![SortKey { expr: load(0, Ty::Int), desc: true, nulls_first: true }];
    let all = the_same(|size| Box::new(Sort::new(rows(100, size), key(), None).unwrap()));
    assert_eq!(all.len(), 100);
    // Equal keys stay in their order.
    for w in all.windows(2) {
        if w[0][0] == w[1][0] {
            assert!(w[0][1].as_i64() < w[1][1].as_i64());
        }
    }
    let top = the_same(|size| Box::new(Sort::new(rows(100, size), key(), Some(13)).unwrap()));
    assert_eq!(top, all[..13]);
}

#[test]
fn set_operations_do_not_depend_on_batching() {
    for op in [SetOpKind::Union, SetOpKind::Intersect, SetOpKind::Except] {
        for all in [false, true] {
            the_same(|size| Box::new(SetOp::new(rows(60, size), rows(40, 9), op, all).unwrap()));
        }
    }
    let both = the_same(|size| Box::new(SetOp::new(rows(60, size), rows(40, 9), SetOpKind::Intersect, true).unwrap()));
    assert_eq!(both.len(), 40);
}

/// Ten arrays, in batches of a given size.
struct Docs(usize, usize);
impl Operator for Docs {
    fn next(&mut self, _ctx: &mut ExecContext) -> Result<Step, Error> {
        if self.0 >= 10 {
            return Ok(Step::Done);
        }
        let mut v = Vector::new(Ty::Json);
        let end = (self.0 + self.1).min(10);
        for i in self.0..end {
            let text = format!("{:?}", (0..i % 4).collect::<Vec<_>>());
            v.push_value(&Value::Bytes(text.into_bytes()));
        }
        self.0 = end;
        Ok(Step::Ready(Batch::new(vec![v])))
    }
}

#[test]
fn unnesting_does_not_depend_on_batching() {
    let make = |size: usize| -> Box<dyn Operator> {
        Box::new(Unnest::new(child(Box::new(Docs(0, size))), load(0, Ty::Json), Ty::BigInt))
    };
    let got = the_same(make);
    assert_eq!(got.len(), (0..10).map(|i| i % 4).sum::<usize>());
}

#[test]
fn joins_do_not_depend_on_batching_but_for_the_order() {
    for kind in [
        JoinKind::Inner,
        JoinKind::Left,
        JoinKind::Right,
        JoinKind::Full,
        JoinKind::Semi,
        JoinKind::Anti,
        JoinKind::AntiNullAware,
    ] {
        let make = |left: usize, right: usize| {
            let op = HashJoin::new(
                rows(30, left),
                rows(20, right),
                kind,
                vec![load(0, Ty::Int)],
                vec![load(0, Ty::Int)],
                None,
                vec![Ty::Int, Ty::Int],
                vec![Ty::Int, Ty::Int],
            )
            .unwrap();
            let mut out: Vec<String> =
                drain(Box::new(op)).iter().map(|r| format!("{r:?}")).collect();
            out.sort();
            out
        };
        let whole = make(1000, 1000);
        for size in [1, 2, 3, 7] {
            assert_eq!(make(size, 1000), whole);
            assert_eq!(make(1000, size), whole);
        }
    }
}

#[test]
fn a_query_on_a_table_gives_one_answer() {
    let fields = || vec![Field::new("a", Ty::Int, false), Field::new("b", Ty::Int, false)];
    let table: Vec<Vec<Value>> = (0..5000).map(|i| vec![Value::I32(i * 5 % 11), Value::I32(i)]).collect();
    let mut ctx = ExecContext::new(Catalog::new());
    let t = create_filled(&mut ctx.catalog, "t", fields(), table, false).unwrap();
    let scan = || Node::MemScan(Box::new(MemScanSpec { table: t, schema: fields() }));
    let few = |limit, offset| Node::Limit {
        input: Box::new(Node::Project {
            input: Box::new(Node::Filter { input: Box::new(scan()), pred: below(0, 4) }),
            exprs: vec![load(1, Ty::Int)],
            schema: vec![Field::new("b", Ty::Int, false)],
        }),
        limit,
        offset,
    };
    let matching: Vec<Vec<Value>> = (0..5000).filter(|i| i * 5 % 11 < 4).map(|i| vec![Value::I32(i)]).collect();
    let one = vec![Field::new("b", Ty::Int, false)];
    assert_eq!(run_query_to_rows(&mut ctx, &few(None, 0), &one).unwrap(), matching);
    assert_eq!(run_query_to_rows(&mut ctx, &few(Some(1000), 500), &one).unwrap(), matching[500..1500].to_vec());
    assert_eq!(run_query_to_rows(&mut ctx, &few(Some(5), 5000), &one).unwrap(), Vec::<Vec<Value>>::new());
    // What is read is what the table holds, in its order.
    let all = run_query_to_rows(&mut ctx, &scan(), &fields()).unwrap();
    assert_eq!(all.len(), 5000);
    assert_eq!(all[4321], vec![Value::I32(4321 * 5 % 11), Value::I32(4321)]);
}
