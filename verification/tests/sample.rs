//! Random samples.

use ahiru_core::catalog::Catalog;
use ahiru_core::error::{code_of, Code, Error};
use ahiru_core::exec::sample::{Bernoulli, RowSample, MAX_BUFFER_BYTES};
use ahiru_core::exec::{child, Child, ExecContext, Operator, Step};
use ahiru_core::plan::SampleSpec;
use ahiru_core::vector::{Batch, Ty, Value, Vector, BATCH_SIZE};

fn ints(vals: &[i32]) -> Vector {
    let mut v = Vector::new(Ty::Int);
    for &x in vals {
        v.push_value(&Value::I32(x));
    }
    v
}

enum Script {
    Rows(Vec<Vector>),
    NeedIo,
}

struct Mock {
    steps: Vec<Script>,
    pos: usize,
}

impl Operator for Mock {
    fn next(&mut self, _ctx: &mut ExecContext) -> Result<Step, Error> {
        if self.pos >= self.steps.len() {
            return Ok(Step::Done);
        }
        let i = self.pos;
        self.pos += 1;
        Ok(match &self.steps[i] {
            Script::NeedIo => Step::NeedIo,
            Script::Rows(cols) => Step::Ready(Batch::new(cols.iter().map(|c| c.dup()).collect())),
        })
    }
}

/// A scripted input.
fn mock(m: Mock) -> Child {
    child(Box::new(m))
}

fn drive(mut op: Box<dyn Operator>) -> Vec<i32> {
    let mut out = Vec::new();
    for guard in 0..10_000 {
        assert!(guard < 9_999, "does not terminate");
        let mut ctx =
            ExecContext::new(Catalog::new());
        match op.next(&mut ctx).unwrap() {
            Step::Ready(mut b) => {
                b.materialize();
                for r in 0..b.num_rows() {
                    let Value::I32(v) = b.cols[0].value_at(r) else { panic!("expected I32") };
                    out.push(v);
                }
            }
            Step::NeedIo | Step::NeedCodec => {}
            Step::Done => break,
        }
    }
    out
}

fn spec(is_rows: bool, amount: f64, seed: u64) -> SampleSpec {
    SampleSpec { is_rows, amount: amount.to_bits(), seed }
}

// --- The Bernoulli method (percentage) ----------------------------------

#[test]
fn zero_percent_keeps_nothing() {
    let steps = vec![Script::Rows(vec![ints(&(0..1000).collect::<Vec<_>>())])];
    let op = Box::new(Bernoulli::new(mock(Mock { steps, pos: 0 }), &spec(false, 0.0, 1)));
    assert!(drive(op).is_empty());
}

#[test]
fn hundred_percent_keeps_everything() {
    let vals: Vec<i32> = (0..1000).collect();
    let steps = vec![Script::Rows(vec![ints(&vals)])];
    let op = Box::new(Bernoulli::new(mock(Mock { steps, pos: 0 }), &spec(false, 100.0, 1)));
    assert_eq!(drive(op), vals);
}

#[test]
fn roughly_the_requested_fraction_survives() {
    let vals: Vec<i32> = (0..100_000).collect();
    let steps = vec![Script::Rows(vec![ints(&vals)])];
    let op = Box::new(Bernoulli::new(mock(Mock { steps, pos: 0 }), &spec(false, 10.0, 7)));
    let got = drive(op);
    let frac = got.len() as f64 / vals.len() as f64;
    assert!((0.08..0.12).contains(&frac), "got fraction {frac}");
    // The selected rows keep the input's relative order.
    let mut sorted = got.clone();
    sorted.sort_unstable();
    assert_eq!(got, sorted);
}

#[test]
fn same_seed_reproduces_the_same_rows() {
    let vals: Vec<i32> = (0..500).collect();
    let mk = || {
        Box::new(Bernoulli::new(
            mock(Mock { steps: vec![Script::Rows(vec![ints(&vals)])], pos: 0 }),
            &spec(false, 30.0, 42),
        )) as Box<dyn Operator>
    };
    assert_eq!(drive(mk()), drive(mk()));
}

#[test]
fn different_seed_gives_a_different_sample() {
    let vals: Vec<i32> = (0..500).collect();
    let mk = |seed: u64| {
        Box::new(Bernoulli::new(
            mock(Mock { steps: vec![Script::Rows(vec![ints(&vals)])], pos: 0 }),
            &spec(false, 30.0, seed),
        )) as Box<dyn Operator>
    };
    assert_ne!(drive(mk(1)), drive(mk(2)));
}

#[test]
fn need_io_between_batches_does_not_change_the_result() {
    let make = |interrupt: bool| {
        let mut steps = vec![Script::Rows(vec![ints(&(0..500).collect::<Vec<_>>())])];
        if interrupt {
            steps.push(Script::NeedIo);
        }
        steps.push(Script::Rows(vec![ints(&(500..1000).collect::<Vec<_>>())]));
        steps
    };
    let mk = |interrupt: bool| {
        Box::new(Bernoulli::new(
            mock(Mock { steps: make(interrupt), pos: 0 }),
            &spec(false, 25.0, 99),
        )) as Box<dyn Operator>
    };
    assert_eq!(drive(mk(false)), drive(mk(true)), "the result must not change across a NeedIo");
}

// --- Row count (N rows uniformly at random) -----------------------------

#[test]
fn selects_exactly_the_requested_row_count() {
    let vals: Vec<i32> = (0..1000).collect();
    let steps = vec![Script::Rows(vec![ints(&vals)])];
    let op = Box::new(RowSample::new(mock(Mock { steps, pos: 0 }), &spec(true, 100.0, 7)));
    let got = drive(op);
    assert_eq!(got.len(), 100);
    // No duplicates, only values present in the input, and in input order.
    let mut sorted = got.clone();
    sorted.dedup();
    assert_eq!(got, sorted, "there must be no duplicates");
    assert!(got.iter().all(|v| vals.contains(v)));
    let mut asc = got.clone();
    asc.sort_unstable();
    assert_eq!(got, asc, "the selected rows keep the input's relative order");
}

#[test]
fn requesting_more_rows_than_available_returns_everything() {
    let vals: Vec<i32> = (0..10).collect();
    let steps = vec![Script::Rows(vec![ints(&vals)])];
    let op = Box::new(RowSample::new(mock(Mock { steps, pos: 0 }), &spec(true, 1000.0, 1)));
    assert_eq!(drive(op), vals);
}

#[test]
fn zero_rows_requested_yields_nothing() {
    let vals: Vec<i32> = (0..10).collect();
    let steps = vec![Script::Rows(vec![ints(&vals)])];
    let op = Box::new(RowSample::new(mock(Mock { steps, pos: 0 }), &spec(true, 0.0, 1)));
    assert!(drive(op).is_empty());
}

#[test]
fn empty_input_yields_nothing() {
    let op = Box::new(RowSample::new(
        mock(Mock { steps: Vec::new(), pos: 0 }),
        &spec(true, 5.0, 1),
    ));
    assert!(drive(op).is_empty());
}

#[test]
fn same_seed_reproduces_the_same_rows_across_batches() {
    let mk = |interrupt: bool| {
        let mut steps = vec![Script::Rows(vec![ints(&(0..500).collect::<Vec<_>>())])];
        if interrupt {
            steps.push(Script::NeedIo);
        }
        steps.push(Script::Rows(vec![ints(&(500..1000).collect::<Vec<_>>())]));
        Box::new(RowSample::new(mock(Mock { steps, pos: 0 }), &spec(true, 50.0, 123)))
            as Box<dyn Operator>
    };
    assert_eq!(drive(mk(false)), drive(mk(true)), "the result must not change across a NeedIo");
}

#[test]
fn spans_multiple_output_batches() {
    let n = BATCH_SIZE * 2 + 300;
    let vals: Vec<i32> = (0..n as i32).collect();
    let steps = vec![Script::Rows(vec![ints(&vals)])];
    let target = (n / 2) as f64;
    let op = Box::new(RowSample::new(mock(Mock { steps, pos: 0 }), &spec(true, target, 5)));
    let got = drive(op);
    assert_eq!(got.len(), n / 2);
}

/// A batch that is too large stays counted, so that the next one is refused as well.
#[test]
fn a_full_buffer_stays_full() {
    let mut op = RowSample::new(mock(Mock { steps: Vec::new(), pos: 0 }), &spec(true, 5.0, 1));
    op.bytes = MAX_BUFFER_BYTES;
    assert_eq!(code_of(op.absorb(Batch::new(vec![ints(&[1, 2, 3])]))), Some(Code::Oom));
    let counted = op.bytes;
    assert!(counted > MAX_BUFFER_BYTES);
    assert_eq!(op.rows, 0);
    assert_eq!(code_of(op.absorb(Batch::new(vec![ints(&[4])]))), Some(Code::Oom));
    assert!(op.bytes > counted);
}
