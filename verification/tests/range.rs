//! Generated series.

use ahiru_core::catalog::Catalog;
use ahiru_core::exec::range::GenerateSeries;
use ahiru_core::exec::{ExecContext, Operator, Step};
use ahiru_core::vector::{Value, BATCH_SIZE};

fn drive(mut op: GenerateSeries) -> Vec<i64> {
    let mut out = Vec::new();
    for guard in 0..10_000 {
        assert!(guard < 9_999, "does not terminate");
        let mut ctx =
            ExecContext::new(Catalog::new());
        match op.next(&mut ctx).unwrap() {
            Step::Ready(mut b) => {
                b.materialize();
                for r in 0..b.num_rows() {
                    let Value::I64(v) = b.cols[0].value_at(r) else { panic!("expected I64") };
                    out.push(v);
                }
            }
            Step::NeedIo | Step::NeedCodec => panic!("impossible for a compute-only source"),
            Step::Done => break,
        }
    }
    out
}

#[test]
fn range_excludes_the_stop_value() {
    assert_eq!(drive(GenerateSeries::new(0, 5, 1, false)), vec![0, 1, 2, 3, 4]);
}

#[test]
fn generate_series_includes_the_stop_value() {
    assert_eq!(drive(GenerateSeries::new(0, 5, 1, true)), vec![0, 1, 2, 3, 4, 5]);
}

#[test]
fn step_and_negative_step_are_honored() {
    assert_eq!(drive(GenerateSeries::new(0, 10, 2, false)), vec![0, 2, 4, 6, 8]);
    assert_eq!(drive(GenerateSeries::new(10, 0, -2, false)), vec![10, 8, 6, 4, 2]);
}

#[test]
fn mismatched_direction_yields_zero_rows() {
    assert_eq!(drive(GenerateSeries::new(10, 0, 1, false)), Vec::<i64>::new());
    assert_eq!(drive(GenerateSeries::new(0, 10, -1, false)), Vec::<i64>::new());
}

#[test]
fn spans_multiple_batches_without_materializing_everything_up_front() {
    let n = BATCH_SIZE * 2 + 137;
    let got = drive(GenerateSeries::new(0, n as i64, 1, false));
    assert_eq!(got.len(), n);
    assert_eq!(got[0], 0);
    assert_eq!(got[n - 1], (n - 1) as i64);
}

#[test]
fn overflow_at_the_boundary_stops_instead_of_looping_forever() {
    // When adding `step` would exceed `i64::MAX`, it stops without producing the next value.
    let got = drive(GenerateSeries::new(i64::MAX - 2, i64::MAX, 1, true));
    assert_eq!(got, vec![i64::MAX - 2, i64::MAX - 1, i64::MAX]);
}
