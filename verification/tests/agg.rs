//! Grouped aggregates.

use ahiru_core::catalog::Catalog;
use ahiru_core::error::{code_of, Code, Error};
use ahiru_core::exec::agg::HashAggregate;
use ahiru_core::exec::{child, Child, ExecContext, Operator, Step};
use ahiru_core::expr::{Instr, OpCode, Program};
use ahiru_core::plan::{Agg, AggKind};
use ahiru_core::vector::{Batch, Ty, Value, Vector, BATCH_SIZE};

/// A double as the value that holds its bits.
fn f64v(x: f64) -> Value {
    Value::F64(x.to_bits())
}

// --- Construction helpers -----------------------------------------------

fn col(ty: Ty, vals: &[Option<Value>]) -> Vector {
    let mut v = Vector::new(ty);
    for x in vals {
        match x {
            Some(x) => v.push_value(x),
            None => v.push_null(),
        }
    }
    v
}

fn i32s(vals: &[Option<i32>]) -> Vector {
    col(Ty::Int, &vals.iter().map(|v| v.map(Value::I32)).collect::<Vec<_>>())
}

fn i64s(vals: &[Option<i64>]) -> Vector {
    col(Ty::BigInt, &vals.iter().map(|v| v.map(Value::I64)).collect::<Vec<_>>())
}

fn f64s(vals: &[Option<f64>]) -> Vector {
    col(Ty::Double, &vals.iter().map(|v| v.map(f64v)).collect::<Vec<_>>())
}

fn strs(vals: &[Option<&str>]) -> Vector {
    col(
        Ty::Varchar,
        &vals
            .iter()
            .map(|v| v.map(|s| Value::Bytes(s.as_bytes().to_vec())))
            .collect::<Vec<_>>(),
    )
}

/// A program that returns column `idx` of the input batch unchanged.
fn load(ty: Ty, idx: u16) -> Program {
    let mut p = Program::new();
    let r = p.alloc_reg();
    p.push(Instr::with_aux(OpCode::LoadCol, ty.phys(), r, 0, 0, idx));
    p.result = r;
    p.result_ty = ty;
    p
}

/// The predicate `col[idx] <op> const`. For HAVING.
fn cmp_const(op: OpCode, ty: Ty, idx: u16, v: Value) -> Program {
    let mut p = Program::new();
    let r0 = p.alloc_reg();
    let r1 = p.alloc_reg();
    let r2 = p.alloc_reg();
    p.push(Instr::with_aux(OpCode::LoadCol, ty.phys(), r0, 0, 0, idx));
    let c = p.add_const(ty, v);
    p.push(Instr::with_aux(OpCode::LoadConst, ty.phys(), r1, 0, 0, c));
    p.push(Instr::new(op, ty.phys(), r2, r0, r1));
    p.result = r2;
    p.result_ty = Ty::Boolean;
    p
}

fn agg(kind: AggKind, arg: Option<Program>) -> Agg {
    Agg {
        kind,
        arg,
        distinct: false,
        name: String::from("a"),
        separator: Vec::new(),
        filter: None,
    }
}

fn agg_distinct(kind: AggKind, arg: Program) -> Agg {
    Agg {
        kind,
        arg: Some(arg),
        distinct: true,
        name: String::from("a"),
        separator: Vec::new(),
        filter: None,
    }
}

/// StringAgg with a separator.
fn agg_sep(kind: AggKind, arg: Program, sep: &[u8]) -> Agg {
    Agg {
        kind,
        arg: Some(arg),
        distinct: false,
        name: String::from("a"),
        separator: sep.to_vec(),
        filter: None,
    }
}

/// An aggregate with `FILTER (WHERE cond)`.
fn agg_filter(kind: AggKind, arg: Option<Program>, filter: Program) -> Agg {
    Agg {
        kind,
        arg,
        distinct: false,
        name: String::from("a"),
        separator: Vec::new(),
        filter: Some(filter),
    }
}

/// Floating-point comparison with a tolerance. Welford produces some rounding error.
fn close(a: f64, b: f64) -> bool {
    (a - b).abs() < 1e-9
}

// --- Mock operators -----------------------------------------------------

enum MockStep {
    Rows(Batch),
    /// Reproduces waiting on I/O in the middle of the input.
    NeedIo,
    /// Waiting on the host to decompress a codec.
    NeedCodec,
}

struct Mock {
    steps: Vec<MockStep>,
    pos: usize,
    /// How many times it was called after returning Done. For detecting double consumption.
    after_done: usize,
}

impl Mock {
    fn new(steps: Vec<MockStep>) -> Child {
        child(Box::new(Mock { steps, pos: 0, after_done: 0 }))
    }
}

impl Operator for Mock {
    fn next(&mut self, _ctx: &mut ExecContext) -> Result<Step, Error> {
        if self.pos >= self.steps.len() {
            self.after_done += 1;
            return Ok(Step::Done);
        }
        let i = self.pos;
        self.pos += 1;
        Ok(match &mut self.steps[i] {
            MockStep::NeedIo => Step::NeedIo,
            MockStep::NeedCodec => Step::NeedCodec,
            MockStep::Rows(b) => Step::Ready(core::mem::replace(b, Batch::rows_only(0))),
        })
    }
}

fn batches(cols: Vec<Vec<Vector>>) -> Vec<MockStep> {
    cols.into_iter().map(|c| MockStep::Rows(Batch::new(c))).collect()
}

// --- Execution helpers --------------------------------------------------

/// Flattens the output into a sequence of rows. `NeedIo` simply resumes, as if the host had filled it.
fn run(mut op: HashAggregate) -> Result<Vec<Vec<Value>>, Error> {
    let mut rows = Vec::new();
    let mut guard = 0;
    loop {
        guard += 1;
        assert!(guard < 100_000, "does not terminate");
        let mut ctx = ExecContext::new(Catalog::new());
        match op.next(&mut ctx)? {
            Step::Ready(b) => {
                let n = b.card();
                for i in 0..n {
                    let r = match &b.sel {
                        Some(s) => s[i] as usize,
                        None => i,
                    };
                    rows.push(b.cols.iter().map(|c| c.value_at(r)).collect::<Vec<_>>());
                }
            }
            Step::NeedIo | Step::NeedCodec => {}
            Step::Done => break,
        }
    }
    Ok(rows)
}

fn build(
    steps: Vec<MockStep>,
    groups: Vec<Program>,
    aggs: Vec<Agg>,
    having: Option<Program>,
) -> HashAggregate {
    HashAggregate::new(Mock::new(steps), groups, aggs, having).unwrap()
}

/// Sorts output rows by the string representation of the key column, for easier comparison.
fn sorted(mut rows: Vec<Vec<Value>>) -> Vec<Vec<Value>> {
    rows.sort_by_key(|r| fmt_row(r));
    rows
}

fn fmt_row(r: &[Value]) -> String {
    let mut s = String::new();
    for v in r {
        s.push_str(&format!("{v:?}|"));
    }
    s
}

// --- Types and basic shapes ---------------------------------------------

#[test]
fn result_types_come_from_agg_result_ty() {
    // SUM(INT) is HUGEINT, AVG is DOUBLE, COUNT is BIGINT.
    let a = HashAggregate::new(
        Mock::new(vec![]),
        vec![],
        vec![
            agg(AggKind::CountStar, None),
            agg(AggKind::Sum, Some(load(Ty::Int, 0))),
            agg(AggKind::Avg, Some(load(Ty::Int, 0))),
            agg(AggKind::Min, Some(load(Ty::Varchar, 0))),
        ],
        None,
    )
    .unwrap();
    assert_eq!(a.out_tys, vec![Ty::BigInt, Ty::HugeInt, Ty::Double, Ty::Varchar]);
}

#[test]
fn invalid_input_type_is_rejected_at_construction() {
    let r = HashAggregate::new(
        Mock::new(vec![]),
        vec![],
        vec![agg(AggKind::Sum, Some(load(Ty::Varchar, 0)))],
        None,
    );
    assert_eq!(code_of(r.map(|_| ())), Some(Code::TypeMismatch));
}

#[test]
fn ungrouped_count_sum_min_max_avg() {
    let steps = batches(vec![
        vec![i32s(&[Some(1), Some(2), None]), strs(&[Some("b"), Some("a"), Some("c")])],
        vec![i32s(&[Some(4)]), strs(&[Some("z")])],
    ]);
    let op = build(
        steps,
        vec![],
        vec![
            agg(AggKind::CountStar, None),
            agg(AggKind::Count, Some(load(Ty::Int, 0))),
            agg(AggKind::Sum, Some(load(Ty::Int, 0))),
            agg(AggKind::Min, Some(load(Ty::Int, 0))),
            agg(AggKind::Max, Some(load(Ty::Int, 0))),
            agg(AggKind::Avg, Some(load(Ty::Int, 0))),
            agg(AggKind::Min, Some(load(Ty::Varchar, 1))),
            agg(AggKind::Max, Some(load(Ty::Varchar, 1))),
        ],
        None,
    );
    let rows = run(op).unwrap();
    assert_eq!(rows.len(), 1);
    assert_eq!(rows[0][0], Value::I64(4), "COUNT(*) counts NULL rows too");
    assert_eq!(rows[0][1], Value::I64(3), "COUNT(x) does not count NULLs");
    assert_eq!(rows[0][2], Value::I128(7));
    assert_eq!(rows[0][3], Value::I32(1));
    assert_eq!(rows[0][4], Value::I32(4));
    assert_eq!(rows[0][5], f64v(7.0 / 3.0));
    assert_eq!(rows[0][6], Value::Bytes(b"a".to_vec()));
    assert_eq!(rows[0][7], Value::Bytes(b"z".to_vec()));
}

#[test]
fn grouped_aggregates() {
    let steps = batches(vec![vec![
        strs(&[Some("a"), Some("b"), Some("a"), Some("b"), Some("a")]),
        i32s(&[Some(1), Some(10), Some(2), None, Some(3)]),
    ]]);
    let op = build(
        steps,
        vec![load(Ty::Varchar, 0)],
        vec![
            agg(AggKind::CountStar, None),
            agg(AggKind::Count, Some(load(Ty::Int, 1))),
            agg(AggKind::Sum, Some(load(Ty::Int, 1))),
            agg(AggKind::Min, Some(load(Ty::Int, 1))),
            agg(AggKind::Max, Some(load(Ty::Int, 1))),
            agg(AggKind::Avg, Some(load(Ty::Int, 1))),
        ],
        None,
    );
    let rows = sorted(run(op).unwrap());
    assert_eq!(rows.len(), 2);
    // Group columns first, aggregate columns after.
    assert_eq!(rows[0][0], Value::Bytes(b"a".to_vec()));
    assert_eq!(rows[0][1], Value::I64(3));
    assert_eq!(rows[0][2], Value::I64(3));
    assert_eq!(rows[0][3], Value::I128(6));
    assert_eq!(rows[0][4], Value::I32(1));
    assert_eq!(rows[0][5], Value::I32(3));
    assert_eq!(rows[0][6], f64v(2.0));
    assert_eq!(rows[1][0], Value::Bytes(b"b".to_vec()));
    assert_eq!(rows[1][1], Value::I64(2));
    assert_eq!(rows[1][2], Value::I64(1));
    assert_eq!(rows[1][3], Value::I128(10));
}

// --- FILTER (WHERE cond) -------------------------------------------------

#[test]
fn filter_restricts_which_rows_feed_the_aggregate() {
    // col0 = value, col1 = the condition column. Emulates FILTER (WHERE col1 > 5).
    let steps = batches(vec![vec![
        i32s(&[Some(1), Some(2), Some(3), Some(4)]),
        i32s(&[Some(10), Some(1), Some(10), Some(1)]),
    ]]);
    let op = build(
        steps,
        vec![],
        vec![
            // Without FILTER: counts/sums every row.
            agg(AggKind::CountStar, None),
            agg(AggKind::Sum, Some(load(Ty::Int, 0))),
            // With FILTER: counts/sums only the rows where col1 > 5 (the 1st and 3rd).
            agg_filter(
                AggKind::CountStar,
                None,
                cmp_const(OpCode::Gt, Ty::Int, 1, Value::I32(5)),
            ),
            agg_filter(
                AggKind::Sum,
                Some(load(Ty::Int, 0)),
                cmp_const(OpCode::Gt, Ty::Int, 1, Value::I32(5)),
            ),
        ],
        None,
    );
    let rows = run(op).unwrap();
    assert_eq!(rows.len(), 1);
    assert_eq!(rows[0][0], Value::I64(4), "COUNT(*) without FILTER covers every row");
    assert_eq!(rows[0][1], Value::I128(10), "SUM without FILTER covers every row (1+2+3+4)");
    assert_eq!(
        rows[0][2],
        Value::I64(2),
        "COUNT(*) with FILTER covers only the qualifying rows"
    );
    assert_eq!(rows[0][3], Value::I128(4), "SUM with FILTER covers the 1st and 3rd (1+3)");
}

#[test]
fn filter_is_independent_per_aggregate_and_group() {
    let steps = batches(vec![vec![
        strs(&[Some("a"), Some("a"), Some("b"), Some("b")]),
        i32s(&[Some(1), Some(2), Some(3), Some(4)]),
        // The condition column: only row 1 is true for group a, only row 2 for group b.
        i32s(&[Some(1), Some(0), Some(0), Some(1)]),
    ]]);
    let cond = cmp_const(OpCode::Eq, Ty::Int, 2, Value::I32(1));
    let op = build(
        steps,
        vec![load(Ty::Varchar, 0)],
        vec![agg_filter(AggKind::Sum, Some(load(Ty::Int, 1)), cond)],
        None,
    );
    let rows = sorted(run(op).unwrap());
    assert_eq!(rows.len(), 2);
    assert_eq!(rows[0][0], Value::Bytes(b"a".to_vec()));
    assert_eq!(rows[0][1], Value::I128(1), "only row 1 qualifies in group a");
    assert_eq!(rows[1][0], Value::Bytes(b"b".to_vec()));
    assert_eq!(rows[1][1], Value::I128(4), "only row 2 qualifies in group b");
}

#[test]
fn filter_that_matches_nothing_yields_count_zero_and_sum_null() {
    let steps = batches(vec![vec![i32s(&[Some(1), Some(2)])]]);
    let op = build(
        steps,
        vec![],
        vec![
            agg_filter(
                AggKind::CountStar,
                None,
                cmp_const(OpCode::Gt, Ty::Int, 0, Value::I32(100)),
            ),
            agg_filter(
                AggKind::Sum,
                Some(load(Ty::Int, 0)),
                cmp_const(OpCode::Gt, Ty::Int, 0, Value::I32(100)),
            ),
        ],
        None,
    );
    let rows = run(op).unwrap();
    assert_eq!(rows.len(), 1);
    assert_eq!(rows[0][0], Value::I64(0), "COUNT(*) FILTER is 0 when nothing qualifies");
    assert!(rows[0][1].is_null(), "SUM FILTER is NULL when nothing qualifies");
}

#[test]
fn filter_applies_to_statistical_aggregates() {
    // Of all 8 values (2,4,4,4,5,5,7,9), FILTER (WHERE col1 > 5) selects the 3rd, 6th, and
    // 8th, where col1 is 10 (values 4, 5, 9).
    // StdDev/Median without FILTER see all 8 values; with FILTER, only the narrowed 3.
    let steps = batches(vec![vec![
        i32s(&[Some(2), Some(4), Some(4), Some(4), Some(5), Some(5), Some(7), Some(9)]),
        i32s(&[Some(1), Some(1), Some(10), Some(1), Some(1), Some(10), Some(1), Some(10)]),
        // StringAgg accepts only VARCHAR, so the same values as col0 are carried in parallel as text.
        strs(&[
            Some("2"),
            Some("4"),
            Some("4"),
            Some("4"),
            Some("5"),
            Some("5"),
            Some("7"),
            Some("9"),
        ]),
    ]]);
    let cond = cmp_const(OpCode::Gt, Ty::Int, 1, Value::I32(5));
    let op = build(
        steps,
        vec![],
        vec![
            agg(AggKind::Median, Some(load(Ty::Int, 0))),
            agg_filter(AggKind::Median, Some(load(Ty::Int, 0)), cond.dup()),
            agg(AggKind::StringAgg, Some(load(Ty::Varchar, 2))),
            agg_filter(AggKind::StringAgg, Some(load(Ty::Varchar, 2)), cond),
        ],
        None,
    );
    let rows = run(op).unwrap();
    assert_eq!(
        rows[0][0],
        f64v(4.5),
        "the median without FILTER comes from all 8 values"
    );
    assert_eq!(
        rows[0][1],
        f64v(5.0),
        "the median with FILTER comes from the 3 values 4,5,9 (the middle one)"
    );
    // The separator is agg()'s default (the empty string). The separator itself is tested separately.
    assert_eq!(rows[0][2], Value::Bytes(b"24445579".to_vec()));
    assert_eq!(rows[0][3], Value::Bytes(b"459".to_vec()), "StringAgg with FILTER");
}

// --- State separation across several groups ---------------------------------

#[test]
fn statistical_aggregates_keep_separate_state_per_group_across_interleaved_batches() {
    // Rows of groups a and b are fed alternately across several batches, confirming that
    // Welford's mean/m2, the median buffer, Mode's frequency table, and StringAgg/ArrayAgg's
    // accumulation buffers do not get crossed between groups.
    let steps = batches(vec![
        vec![
            strs(&[Some("a"), Some("b"), Some("a")]),
            i32s(&[Some(1), Some(10), Some(2)]),
            strs(&[Some("1"), Some("10"), Some("2")]),
        ],
        vec![
            strs(&[Some("b"), Some("a"), Some("b")]),
            i32s(&[Some(20), Some(3), Some(10)]),
            strs(&[Some("20"), Some("3"), Some("10")]),
        ],
    ]);
    let op = build(
        steps,
        vec![load(Ty::Varchar, 0)],
        vec![
            agg(AggKind::StdDev, Some(load(Ty::Int, 1))),
            agg(AggKind::Median, Some(load(Ty::Int, 1))),
            agg(AggKind::Mode, Some(load(Ty::Int, 1))),
            agg(AggKind::StringAgg, Some(load(Ty::Varchar, 2))),
        ],
        None,
    );
    let rows = sorted(run(op).unwrap());
    assert_eq!(rows.len(), 2);
    // Group a: 1, 2, 3.
    assert_eq!(rows[0][0], Value::Bytes(b"a".to_vec()));
    assert!(close(rows[0][1].as_f64_bits().map(f64::from_bits).unwrap(), 1.0), "a's stddev = {:?}", rows[0][1]);
    assert_eq!(rows[0][2], f64v(2.0), "a's median");
    assert_eq!(rows[0][3], Value::I32(1), "a's mode (all appear once, so the first, 1)");
    // The separator is agg()'s default (the empty string). The separator itself is tested separately.
    assert_eq!(rows[0][4], Value::Bytes(b"123".to_vec()), "a's StringAgg (arrival order)");
    // Group b: 10, 20, 10.
    assert_eq!(rows[1][0], Value::Bytes(b"b".to_vec()));
    assert!(
        close(rows[1][1].as_f64_bits().map(f64::from_bits).unwrap(), 5.773502691896258),
        "b's stddev = {:?}",
        rows[1][1]
    );
    assert_eq!(rows[1][2], f64v(10.0), "b's median");
    assert_eq!(rows[1][3], Value::I32(10), "b's mode (10 appears twice, the most)");
    assert_eq!(rows[1][4], Value::Bytes(b"102010".to_vec()), "b's StringAgg (arrival order)");
}

// --- Resumption (the main event) ----------------------------------------

#[test]
fn need_io_in_the_middle_resumes_with_identical_result() {
    let data: Vec<Vec<Option<i32>>> =
        vec![vec![Some(1), Some(2), None], vec![Some(3), Some(1)], vec![Some(2), Some(9)]];
    let keys: Vec<Vec<Option<i32>>> =
        vec![vec![Some(0), Some(1), Some(0)], vec![Some(1), Some(0)], vec![Some(1), Some(0)]];

    let make = |interrupt: bool| {
        let mut steps = Vec::new();
        for (i, (k, v)) in keys.iter().zip(data.iter()).enumerate() {
            if interrupt && i == 1 {
                // Waits on I/O between batches, in the middle of the input.
                steps.push(MockStep::NeedIo);
            }
            steps.push(MockStep::Rows(Batch::new(vec![i32s(k), i32s(v)])));
            if interrupt && i == 1 {
                steps.push(MockStep::NeedIo);
            }
        }
        build(
            steps,
            vec![load(Ty::Int, 0)],
            vec![
                agg(AggKind::CountStar, None),
                agg(AggKind::Count, Some(load(Ty::Int, 1))),
                agg(AggKind::Sum, Some(load(Ty::Int, 1))),
                agg(AggKind::Max, Some(load(Ty::Int, 1))),
            ],
            None,
        )
    };
    let plain = sorted(run(make(false)).unwrap());
    let interrupted = sorted(run(make(true)).unwrap());
    assert_eq!(plain.len(), 2);
    assert_eq!(plain, interrupted, "the result must not change across a NeedIo");
    // The contents are checked directly too (so a lost or extra row is noticed).
    // key=0's values are 1, NULL, 1, 9; key=1's are 2, 3, 2.
    assert_eq!(plain[0][1], Value::I64(4)); // COUNT(*)
    assert_eq!(plain[0][2], Value::I64(3)); // COUNT(x) excludes NULL
    assert_eq!(plain[0][3], Value::I128(1 + 1 + 9));
    assert_eq!(plain[0][4], Value::I32(9));
    assert_eq!(plain[1][1], Value::I64(3));
    assert_eq!(plain[1][3], Value::I128(2 + 3 + 2));
    assert_eq!(plain[1][4], Value::I32(3));
}

#[test]
fn need_codec_is_passed_through_and_resumes() {
    // An interruption asking the host to decompress a codec is treated like NeedIo.
    let mut steps = vec![MockStep::Rows(Batch::new(vec![i32s(&[Some(1), Some(2)])]))];
    steps.push(MockStep::NeedCodec);
    steps.push(MockStep::Rows(Batch::new(vec![i32s(&[Some(3)])])));
    let op = build(
        steps,
        vec![],
        vec![agg(AggKind::CountStar, None), agg(AggKind::Sum, Some(load(Ty::Int, 0)))],
        None,
    );
    let rows = run(op).unwrap();
    assert_eq!(rows.len(), 1);
    assert_eq!(rows[0][0], Value::I64(3));
    assert_eq!(rows[0][1], Value::I128(6));
}

#[test]
fn agg_need_io_before_any_input() {
    let mut steps = vec![MockStep::NeedIo, MockStep::NeedIo];
    steps.extend(batches(vec![vec![i32s(&[Some(5), Some(6)])]]));
    let op = build(steps, vec![], vec![agg(AggKind::Sum, Some(load(Ty::Int, 0)))], None);
    let rows = run(op).unwrap();
    assert_eq!(rows.len(), 1);
    assert_eq!(rows[0][0], Value::I128(11));
}

#[test]
fn done_is_sticky_and_input_is_not_reconsumed() {
    let steps = batches(vec![vec![i32s(&[Some(1), Some(2)])]]);
    let mut op = build(steps, vec![], vec![agg(AggKind::CountStar, None)], None);
    let mut first = None;
    for _ in 0..5 {
        let mut ctx = ExecContext::new(Catalog::new());
        match op.next(&mut ctx).unwrap() {
            Step::Ready(b) => {
                assert!(first.is_none(), "there should be exactly one output batch");
                first = Some(b.cols[0].value_at(0));
            }
            Step::NeedIo | Step::NeedCodec => panic!("no interruption should occur"),
            Step::Done => {}
        }
    }
    assert_eq!(first, Some(Value::I64(2)));
}

// --- Empty input and all-NULL -------------------------------------------

#[test]
fn empty_input_ungrouped_emits_one_row() {
    let op = build(
        vec![],
        vec![],
        vec![
            agg(AggKind::CountStar, None),
            agg(AggKind::Count, Some(load(Ty::Int, 0))),
            agg(AggKind::Sum, Some(load(Ty::Int, 0))),
            agg(AggKind::Min, Some(load(Ty::Int, 0))),
            agg(AggKind::Max, Some(load(Ty::Int, 0))),
            agg(AggKind::Avg, Some(load(Ty::Int, 0))),
        ],
        None,
    );
    let rows = run(op).unwrap();
    assert_eq!(rows.len(), 1);
    assert_eq!(rows[0][0], Value::I64(0));
    assert_eq!(rows[0][1], Value::I64(0));
    for v in &rows[0][2..] {
        assert_eq!(*v, Value::Null);
    }
}

#[test]
fn empty_input_grouped_emits_nothing() {
    let op = build(vec![], vec![load(Ty::Int, 0)], vec![agg(AggKind::CountStar, None)], None);
    assert!(run(op).unwrap().is_empty());
}

#[test]
fn empty_batches_are_ignored() {
    // A batch with card()==0 mixed in does not change the one-row result.
    let steps = vec![
        MockStep::Rows(Batch::new(vec![i32s(&[])])),
        MockStep::Rows(Batch::new(vec![i32s(&[Some(4)])])),
    ];
    let op = build(steps, vec![], vec![agg(AggKind::CountStar, None)], None);
    let rows = run(op).unwrap();
    assert_eq!(rows[0][0], Value::I64(1));
}

#[test]
fn all_null_group_counts_zero_and_sums_null() {
    let steps = batches(vec![vec![
        strs(&[Some("a"), Some("a"), Some("b")]),
        i32s(&[None, None, Some(7)]),
    ]]);
    let op = build(
        steps,
        vec![load(Ty::Varchar, 0)],
        vec![
            agg(AggKind::CountStar, None),
            agg(AggKind::Count, Some(load(Ty::Int, 1))),
            agg(AggKind::Sum, Some(load(Ty::Int, 1))),
            agg(AggKind::Avg, Some(load(Ty::Int, 1))),
            agg(AggKind::Min, Some(load(Ty::Int, 1))),
        ],
        None,
    );
    let rows = sorted(run(op).unwrap());
    assert_eq!(rows[0][1], Value::I64(2), "COUNT(*) is 2");
    assert_eq!(rows[0][2], Value::I64(0), "COUNT(x) is 0");
    assert_eq!(rows[0][3], Value::Null);
    assert_eq!(rows[0][4], Value::Null);
    assert_eq!(rows[0][5], Value::Null);
}

// --- Group keys ---------------------------------------------------------

#[test]
fn agg_null_keys_form_their_own_group() {
    let steps = batches(vec![vec![
        i32s(&[None, Some(1), None, Some(1)]),
        i32s(&[Some(1), Some(2), Some(3), Some(4)]),
    ]]);
    let op = build(
        steps,
        vec![load(Ty::Int, 0)],
        vec![agg(AggKind::CountStar, None), agg(AggKind::Sum, Some(load(Ty::Int, 1)))],
        None,
    );
    let rows = sorted(run(op).unwrap());
    assert_eq!(rows.len(), 2);
    // Two rows each for the NULL group and the 1 group.
    let null_row = rows.iter().find(|r| r[0] == Value::Null).unwrap();
    assert_eq!(null_row[1], Value::I64(2));
    assert_eq!(null_row[2], Value::I128(4));
}

#[test]
fn multiple_group_columns() {
    let steps = batches(vec![vec![
        strs(&[Some("a"), Some("a"), Some("b"), Some("a")]),
        i32s(&[Some(1), Some(2), Some(1), Some(1)]),
    ]]);
    let op = build(
        steps,
        vec![load(Ty::Varchar, 0), load(Ty::Int, 1)],
        vec![agg(AggKind::CountStar, None)],
        None,
    );
    let rows = sorted(run(op).unwrap());
    assert_eq!(rows.len(), 3);
    assert_eq!(rows[0][0], Value::Bytes(b"a".to_vec()));
    assert_eq!(rows[0][1], Value::I32(1));
    assert_eq!(rows[0][2], Value::I64(2));
}

#[test]
fn float_group_key_merges_zeros_and_nans() {
    let steps = batches(vec![vec![
        f64s(&[Some(0.0), Some(-0.0), Some(f64::NAN), Some(-f64::NAN), Some(1.5)]),
        i32s(&[Some(1), Some(1), Some(1), Some(1), Some(1)]),
    ]]);
    let op = build(steps, vec![load(Ty::Double, 0)], vec![agg(AggKind::CountStar, None)], None);
    let rows = run(op).unwrap();
    assert_eq!(rows.len(), 3, "0.0/-0.0 and NaN/-NaN each form one group");
    for r in &rows {
        let n = r[1].as_i64().unwrap();
        assert!(n == 2 || n == 1);
    }
    let total: i64 = rows.iter().map(|r| r[1].as_i64().unwrap()).sum();
    assert_eq!(total, 5);
}

#[test]
fn min_max_treat_nan_as_largest() {
    let steps = batches(vec![vec![
        i32s(&[Some(0), Some(0), Some(0), Some(1)]),
        f64s(&[Some(1.0), Some(f64::NAN), Some(-2.0), Some(f64::NAN)]),
    ]]);
    let op = build(
        steps,
        vec![load(Ty::Int, 0)],
        vec![
            agg(AggKind::Min, Some(load(Ty::Double, 1))),
            agg(AggKind::Max, Some(load(Ty::Double, 1))),
        ],
        None,
    );
    let rows = sorted(run(op).unwrap());
    assert_eq!(rows[0][1], f64v(-2.0));
    assert!(rows[0][2].as_f64_bits().map(f64::from_bits).unwrap().is_nan(), "MAX is NaN");
    // In an all-NaN group MIN is NaN too.
    assert!(rows[1][1].as_f64_bits().map(f64::from_bits).unwrap().is_nan());
}

#[test]
fn min_max_over_bools() {
    let steps = batches(vec![vec![col(
        Ty::Boolean,
        &[Some(Value::Bool(true)), Some(Value::Bool(false)), None],
    )]]);
    let op = build(
        steps,
        vec![],
        vec![
            agg(AggKind::Min, Some(load(Ty::Boolean, 0))),
            agg(AggKind::Max, Some(load(Ty::Boolean, 0))),
        ],
        None,
    );
    let rows = run(op).unwrap();
    assert_eq!(rows[0][0], Value::Bool(false));
    assert_eq!(rows[0][1], Value::Bool(true));
}

// --- Overflow -----------------------------------------------------------

#[test]
fn sum_of_i64_accumulates_in_i128() {
    let big = i64::MAX;
    let steps = batches(vec![vec![i64s(&[Some(big), Some(big), Some(big)])]]);
    let op = build(steps, vec![], vec![agg(AggKind::Sum, Some(load(Ty::BigInt, 0)))], None);
    let rows = run(op).unwrap();
    assert_eq!(rows[0][0], Value::I128(big as i128 * 3), "a sum that overflows i64");
}

#[test]
fn agg_sum_overflowing_i128_errors() {
    let huge = col(Ty::HugeInt, &[Some(Value::I128(i128::MAX)), Some(Value::I128(i128::MAX))]);
    let steps = vec![MockStep::Rows(Batch::new(vec![huge]))];
    let op = build(steps, vec![], vec![agg(AggKind::Sum, Some(load(Ty::HugeInt, 0)))], None);
    assert_eq!(code_of(run(op)), Some(Code::ValueOutOfRange));
}

// --- DISTINCT -----------------------------------------------------------

#[test]
fn distinct_aggregates() {
    let steps = batches(vec![
        vec![
            strs(&[Some("a"), Some("a"), Some("a"), Some("b")]),
            i32s(&[Some(1), Some(1), Some(2), Some(5)]),
        ],
        vec![strs(&[Some("a"), Some("b")]), i32s(&[Some(2), Some(5)])],
    ]);
    let op = build(
        steps,
        vec![load(Ty::Varchar, 0)],
        vec![
            agg_distinct(AggKind::Count, load(Ty::Int, 1)),
            agg_distinct(AggKind::Sum, load(Ty::Int, 1)),
            agg(AggKind::Count, Some(load(Ty::Int, 1))),
            agg(AggKind::Sum, Some(load(Ty::Int, 1))),
            agg_distinct(AggKind::Avg, load(Ty::Int, 1)),
        ],
        None,
    );
    let rows = sorted(run(op).unwrap());
    // a: values are 1,1,2,2 -> distinct is {1,2}
    assert_eq!(rows[0][1], Value::I64(2));
    assert_eq!(rows[0][2], Value::I128(3));
    assert_eq!(rows[0][3], Value::I64(4), "non-DISTINCT counts duplicates");
    assert_eq!(rows[0][4], Value::I128(6));
    assert_eq!(rows[0][5], f64v(1.5));
    // b: values are 5,5 -> distinct is {5}
    assert_eq!(rows[1][1], Value::I64(1));
    assert_eq!(rows[1][2], Value::I128(5));
}

#[test]
fn distinct_dedup_is_per_group() {
    let steps = batches(vec![vec![
        i32s(&[Some(0), Some(1), Some(0), Some(1)]),
        i32s(&[Some(7), Some(7), Some(7), Some(7)]),
    ]]);
    let op = build(
        steps,
        vec![load(Ty::Int, 0)],
        vec![agg_distinct(AggKind::Count, load(Ty::Int, 1))],
        None,
    );
    let rows = sorted(run(op).unwrap());
    assert_eq!(rows.len(), 2);
    // The same value 7 is counted separately when the groups differ.
    assert_eq!(rows[0][1], Value::I64(1));
    assert_eq!(rows[1][1], Value::I64(1));
}

#[test]
fn distinct_ignores_nulls() {
    let steps = batches(vec![vec![i32s(&[None, None, Some(3), Some(3)])]]);
    let op = build(steps, vec![], vec![agg_distinct(AggKind::Count, load(Ty::Int, 0))], None);
    let rows = run(op).unwrap();
    assert_eq!(rows[0][0], Value::I64(1));
}

// --- HAVING -------------------------------------------------------------

#[test]
fn having_filters_groups() {
    let steps =
        batches(vec![vec![i32s(&[Some(1), Some(1), Some(2), Some(3), Some(3), Some(3)])]]);
    // HAVING COUNT(*) > 1. The output schema is [key, count].
    let op = build(
        steps,
        vec![load(Ty::Int, 0)],
        vec![agg(AggKind::CountStar, None)],
        Some(cmp_const(OpCode::Gt, Ty::BigInt, 1, Value::I64(1))),
    );
    let rows = sorted(run(op).unwrap());
    assert_eq!(rows.len(), 2);
    assert_eq!(rows[0][0], Value::I32(1));
    assert_eq!(rows[1][0], Value::I32(3));
}

#[test]
fn having_can_remove_everything() {
    let steps = batches(vec![vec![i32s(&[Some(1), Some(2), Some(3)])]]);
    let op = build(
        steps,
        vec![load(Ty::Int, 0)],
        vec![agg(AggKind::CountStar, None)],
        Some(cmp_const(OpCode::Gt, Ty::BigInt, 1, Value::I64(100))),
    );
    assert!(run(op).unwrap().is_empty());
}

#[test]
fn having_on_ungrouped_row() {
    let steps = batches(vec![vec![i32s(&[Some(1), Some(2)])]]);
    let op = build(
        steps,
        vec![],
        vec![agg(AggKind::CountStar, None)],
        Some(cmp_const(OpCode::Gt, Ty::BigInt, 0, Value::I64(5))),
    );
    assert!(run(op).unwrap().is_empty());
}

// --- Size ---------------------------------------------------------------

#[test]
fn more_groups_than_batch_size_emits_multiple_batches() {
    // More groups than BATCH_SIZE. The hash table rehashes several times too.
    let n = BATCH_SIZE * 2 + 37;
    let mut steps = Vec::new();
    let mut i = 0usize;
    while i < n {
        let end = (i + 500).min(n);
        let keys: Vec<Option<i32>> = (i..end).map(|k| Some(k as i32)).collect();
        let vals: Vec<Option<i32>> = (i..end).map(|_| Some(2)).collect();
        steps.push(MockStep::Rows(Batch::new(vec![i32s(&keys), i32s(&vals)])));
        // Even with an I/O wait interposed every time, the groups must not change in number.
        steps.push(MockStep::NeedIo);
        i = end;
    }
    // The same keys are fed once more, so each group ends up with two rows.
    let keys: Vec<Option<i32>> = (0..n).map(|k| Some(k as i32)).collect();
    let vals: Vec<Option<i32>> = (0..n).map(|_| Some(3)).collect();
    steps.push(MockStep::Rows(Batch::new(vec![i32s(&keys), i32s(&vals)])));

    let op = build(
        steps,
        vec![load(Ty::Int, 0)],
        vec![agg(AggKind::CountStar, None), agg(AggKind::Sum, Some(load(Ty::Int, 1)))],
        None,
    );
    let rows = run(op).unwrap();
    assert_eq!(rows.len(), n, "the group count is unchanged");
    let mut seen = vec![false; n];
    for r in &rows {
        let k = r[0].as_i64().unwrap() as usize;
        assert!(!seen[k], "group {k} is duplicated");
        seen[k] = true;
        assert_eq!(r[1], Value::I64(2));
        assert_eq!(r[2], Value::I128(5));
    }
    assert!(seen.iter().all(|s| *s));
}

#[test]
fn agg_output_is_chunked_to_batch_size() {
    let n = BATCH_SIZE + 10;
    let keys: Vec<Option<i32>> = (0..n).map(|k| Some(k as i32)).collect();
    let steps = vec![MockStep::Rows(Batch::new(vec![i32s(&keys)]))];
    let mut op =
        build(steps, vec![load(Ty::Int, 0)], vec![agg(AggKind::CountStar, None)], None);
    let mut sizes = Vec::new();
    loop {
        let mut ctx = ExecContext::new(Catalog::new());
        match op.next(&mut ctx).unwrap() {
            Step::Ready(b) => sizes.push(b.card()),
            Step::NeedIo | Step::NeedCodec => {}
            Step::Done => break,
        }
    }
    assert_eq!(sizes, vec![BATCH_SIZE, 10]);
}

#[test]
fn memory_limit_is_enforced() {
    // Long keys are fed in bulk to hit the cap. There is no spilling, so it returns Oom.
    let mut steps = Vec::new();
    let mut i = 0u32;
    // Just over 1 KiB of key per group -> enough rows to reach 64 MiB.
    let filler = "x".repeat(1024);
    for _ in 0..80 {
        let keys: Vec<Option<String>> = (0..1000)
            .map(|k| {
                i += 1;
                Some(format!("{filler}{k}-{i}"))
            })
            .collect();
        let refs: Vec<Option<&str>> = keys.iter().map(|s| s.as_deref()).collect();
        steps.push(MockStep::Rows(Batch::new(vec![strs(&refs)])));
    }
    let op =
        build(steps, vec![load(Ty::Varchar, 0)], vec![agg(AggKind::CountStar, None)], None);
    assert_eq!(code_of(run(op)), Some(Code::Oom));
}

#[test]
fn phys_type_mismatch_between_program_and_data_is_detected() {
    // Declared INT but the real data is VARCHAR. Internal, as a contract violation.
    let steps = vec![MockStep::Rows(Batch::new(vec![strs(&[Some("a")])]))];
    let op = build(steps, vec![load(Ty::Int, 0)], vec![agg(AggKind::CountStar, None)], None);
    assert_eq!(code_of(run(op)), Some(Code::Internal));
}

// --- StdDev / Variance ---------------------------------------------------

#[test]
fn stddev_and_variance_match_hand_verified_welford_result() {
    // 2,4,4,4,5,5,7,9 -> variance 32/7 = 4.571428571428571,
    // standard deviation = 2.138089935299395 (cross-checked with duckdb's stddev_samp/var_samp).
    let steps = batches(vec![vec![i32s(&[
        Some(2),
        Some(4),
        Some(4),
        Some(4),
        Some(5),
        Some(5),
        Some(7),
        Some(9),
    ])]]);
    let op = build(
        steps,
        vec![],
        vec![
            agg(AggKind::Variance, Some(load(Ty::Int, 0))),
            agg(AggKind::StdDev, Some(load(Ty::Int, 0))),
        ],
        None,
    );
    let rows = run(op).unwrap();
    let var = rows[0][0].as_f64_bits().map(f64::from_bits).unwrap();
    let sd = rows[0][1].as_f64_bits().map(f64::from_bits).unwrap();
    assert!(close(var, 32.0 / 7.0), "variance = {var}");
    assert!(close(sd, 2.138089935299395), "stddev = {sd}");
}

#[test]
fn stddev_variance_below_two_values_is_null() {
    // n == 0 (empty input).
    let op = build(vec![], vec![], vec![agg(AggKind::StdDev, Some(load(Ty::Int, 0)))], None);
    assert_eq!(run(op).unwrap()[0][0], Value::Null);

    // n == 1. Sample variance and sample standard deviation are undefined (NULL in duckdb too).
    let steps = batches(vec![vec![i32s(&[Some(5)])]]);
    let op = build(steps, vec![], vec![agg(AggKind::Variance, Some(load(Ty::Int, 0)))], None);
    assert_eq!(run(op).unwrap()[0][0], Value::Null);
}

#[test]
fn variance_of_constant_values_is_exactly_zero() {
    // Confirms that an M2 made slightly negative by rounding is clamped to 0.
    let steps = batches(vec![vec![f64s(&[Some(5.0), Some(5.0), Some(5.0)])]]);
    let op = build(
        steps,
        vec![],
        vec![
            agg(AggKind::Variance, Some(load(Ty::Double, 0))),
            agg(AggKind::StdDev, Some(load(Ty::Double, 0))),
        ],
        None,
    );
    let rows = run(op).unwrap();
    assert_eq!(rows[0][0], f64v(0.0));
    assert_eq!(rows[0][1], f64v(0.0));
}

// --- Median ----------------------------------------------------------------

#[test]
fn median_even_and_odd_counts() {
    let steps = batches(vec![vec![i32s(&[Some(1), Some(2), Some(3), Some(4)])]]);
    let op = build(steps, vec![], vec![agg(AggKind::Median, Some(load(Ty::Int, 0)))], None);
    assert_eq!(
        run(op).unwrap()[0][0],
        f64v(2.5),
        "an even count interpolates between the middle two"
    );

    let steps = batches(vec![vec![i32s(&[Some(1), Some(2), Some(3), Some(4), Some(5)])]]);
    let op = build(steps, vec![], vec![agg(AggKind::Median, Some(load(Ty::Int, 0)))], None);
    assert_eq!(
        run(op).unwrap()[0][0],
        f64v(3.0),
        "an odd count gives exactly the middle value"
    );
}

#[test]
fn median_of_decimal_matches_duckdb_quantile_cont() {
    // DECIMAL(10,2) 1.00,2.00,3.00,4.00 -> duckdb gives median = 2.50 (staying DECIMAL).
    // This engine always fixes Median's output type to DOUBLE (`AggKind::result_ty`), so the
    // value is 2.5 (DOUBLE).
    let ty = Ty::Decimal { precision: 10, scale: 2 };
    let steps = batches(vec![vec![col(
        ty,
        &[
            Some(Value::I64(100)),
            Some(Value::I64(200)),
            Some(Value::I64(300)),
            Some(Value::I64(400)),
        ],
    )]]);
    let op = build(steps, vec![], vec![agg(AggKind::Median, Some(load(ty, 0)))], None);
    assert_eq!(run(op).unwrap()[0][0], f64v(2.5));
}

#[test]
fn median_empty_group_is_null() {
    let op = build(vec![], vec![], vec![agg(AggKind::Median, Some(load(Ty::Int, 0)))], None);
    assert_eq!(run(op).unwrap()[0][0], Value::Null);
}

// --- Mode --------------------------------------------------------------

#[test]
fn mode_has_a_clear_winner() {
    let steps = batches(vec![vec![i32s(&[Some(1), Some(2), Some(2), Some(2), Some(3)])]]);
    let op = build(steps, vec![], vec![agg(AggKind::Mode, Some(load(Ty::Int, 0)))], None);
    assert_eq!(run(op).unwrap()[0][0], Value::I32(2));
}

#[test]
fn mode_tie_breaks_to_first_encountered_value() {
    // The behavior observed in duckdb: on a tie the value appearing first wins.
    // (SELECT mode(x) FROM (SELECT unnest([3,2,2,1,1]) AS x) -> 2)
    let steps = batches(vec![vec![i32s(&[Some(3), Some(2), Some(2), Some(1), Some(1)])]]);
    let op = build(steps, vec![], vec![agg(AggKind::Mode, Some(load(Ty::Int, 0)))], None);
    assert_eq!(run(op).unwrap()[0][0], Value::I32(2), "2 appears before 1");
}

#[test]
fn mode_tie_goes_to_the_value_that_appears_first() {
    // 1 and 2 appear twice each; 2 gets there earlier, but 1 appears first.
    let steps = batches(vec![vec![i32s(&[Some(1), Some(2), Some(2), Some(1)])]]);
    let op = build(steps, vec![], vec![agg(AggKind::Mode, Some(load(Ty::Int, 0)))], None);
    assert_eq!(run(op).unwrap()[0][0], Value::I32(1));
}

#[test]
fn mode_empty_group_is_null() {
    let op = build(vec![], vec![], vec![agg(AggKind::Mode, Some(load(Ty::Int, 0)))], None);
    assert_eq!(run(op).unwrap()[0][0], Value::Null);
}

#[test]
fn mode_distinct_dedups_before_counting() {
    // With DISTINCT, deduplication takes effect before Mode's frequency table, so every value
    // looks like it appears "exactly once". As in the behavior observed in duckdb, the first
    // distinct value to appear wins (SELECT mode(DISTINCT x) FROM
    // (SELECT unnest([1,1,2,3]) AS x) -> 1).
    let steps = batches(vec![vec![i32s(&[Some(1), Some(1), Some(2), Some(3)])]]);
    let op = build(steps, vec![], vec![agg_distinct(AggKind::Mode, load(Ty::Int, 0))], None);
    assert_eq!(run(op).unwrap()[0][0], Value::I32(1));
}

// --- Resumption for Median / Mode ---------------------------------------

#[test]
fn need_io_mid_input_does_not_change_median_or_mode_result() {
    let data: Vec<Vec<Option<i32>>> = vec![
        vec![Some(5), Some(1), Some(9)],
        vec![Some(3), Some(7)],
        vec![Some(1), Some(1), Some(8)],
    ];
    let make = |interrupt: bool| {
        let mut steps = Vec::new();
        for (i, v) in data.iter().enumerate() {
            if interrupt && i == 1 {
                steps.push(MockStep::NeedIo);
            }
            steps.push(MockStep::Rows(Batch::new(vec![i32s(v)])));
            if interrupt && i == 1 {
                steps.push(MockStep::NeedCodec);
            }
        }
        build(
            steps,
            vec![],
            vec![
                agg(AggKind::Median, Some(load(Ty::Int, 0))),
                agg(AggKind::Mode, Some(load(Ty::Int, 0))),
            ],
            None,
        )
    };
    let plain = run(make(false)).unwrap();
    let interrupted = run(make(true)).unwrap();
    assert_eq!(plain, interrupted, "the result must not change across a NeedIo/NeedCodec");
    // The values themselves too: 1,1,1,3,5,7,8,9 -> median = (3+5)/2 = 4.0, mode = 1.
    assert_eq!(plain[0][0], f64v(4.0));
    assert_eq!(plain[0][1], Value::I32(1));
}

// --- ApproxCountDistinct -------------------------------------------------

#[test]
fn approx_count_distinct_matches_count_distinct_exactly() {
    // v1 is an exact count. It should give the same result as COUNT(DISTINCT x).
    let steps = batches(vec![vec![i32s(&[Some(1), Some(1), Some(2), Some(3), None, Some(3)])]]);
    let op = build(
        steps,
        vec![],
        vec![
            agg(AggKind::ApproxCountDistinct, Some(load(Ty::Int, 0))),
            agg_distinct(AggKind::Count, load(Ty::Int, 0)),
        ],
        None,
    );
    let rows = run(op).unwrap();
    assert_eq!(rows[0][0], rows[0][1]);
    assert_eq!(rows[0][0], Value::I64(3));
}

#[test]
fn approx_count_distinct_of_empty_input_is_zero() {
    let op = build(
        vec![],
        vec![],
        vec![agg(AggKind::ApproxCountDistinct, Some(load(Ty::Int, 0)))],
        None,
    );
    assert_eq!(run(op).unwrap()[0][0], Value::I64(0));
}

// --- StringAgg -----------------------------------------------------------

#[test]
fn string_agg_default_separator_is_empty_and_explicit_separator_is_used() {
    // This file merely reads `a.separator` as given. What fills it in when omitted is the
    // binder's contract (`AggKind::optional_arg_default`), currently the empty string.
    // duckdb's default is a comma, so the value differs, but that is the binder's decision
    // and outside this file's remit.
    let steps = batches(vec![vec![strs(&[Some("a"), Some("b"), Some("c")])]]);
    let op =
        build(steps, vec![], vec![agg(AggKind::StringAgg, Some(load(Ty::Varchar, 0)))], None);
    assert_eq!(run(op).unwrap()[0][0], Value::Bytes(b"abc".to_vec()));

    let steps = batches(vec![vec![strs(&[Some("a"), Some("b"), Some("c")])]]);
    let op = build(
        steps,
        vec![],
        vec![agg_sep(AggKind::StringAgg, load(Ty::Varchar, 0), b",")],
        None,
    );
    assert_eq!(run(op).unwrap()[0][0], Value::Bytes(b"a,b,c".to_vec()));
}

#[test]
fn string_agg_skips_nulls_and_all_null_group_is_null() {
    let steps = batches(vec![vec![strs(&[Some("a"), None, Some("b")])]]);
    let op = build(
        steps,
        vec![],
        vec![agg_sep(AggKind::StringAgg, load(Ty::Varchar, 0), b",")],
        None,
    );
    assert_eq!(run(op).unwrap()[0][0], Value::Bytes(b"a,b".to_vec()));

    let steps = batches(vec![vec![strs(&[None, None])]]);
    let op = build(
        steps,
        vec![],
        vec![agg_sep(AggKind::StringAgg, load(Ty::Varchar, 0), b",")],
        None,
    );
    assert_eq!(run(op).unwrap()[0][0], Value::Null, "NULL when there is not a single non-NULL");
}

#[test]
fn string_agg_distinct_dedups_values() {
    let steps = batches(vec![vec![strs(&[Some("a"), Some("a"), Some("b")])]]);
    let op = build(
        steps,
        vec![],
        vec![Agg {
            kind: AggKind::StringAgg,
            arg: Some(load(Ty::Varchar, 0)),
            distinct: true,
            name: String::from("a"),
            separator: b",".to_vec(),
            filter: None,
        }],
        None,
    );
    let rows = run(op).unwrap();
    let s = match &rows[0][0] {
        Value::Bytes(b) => b.clone(),
        other => panic!("expected bytes but got {other:?}"),
    };
    // DISTINCT's arrival order depends on the hash table's implementation and is not strictly
    // promised, so only membership of {a, b} is checked.
    let mut parts: Vec<&[u8]> = s.split(|&c| c == b',').collect();
    parts.sort();
    assert_eq!(parts, vec![b"a".as_slice(), b"b".as_slice()]);
}

// --- ArrayAgg --------------------------------------------------------------

#[test]
fn array_agg_integers_and_varchars() {
    let steps = batches(vec![vec![i32s(&[Some(1), Some(2), Some(3)])]]);
    let op = build(steps, vec![], vec![agg(AggKind::ArrayAgg, Some(load(Ty::Int, 0)))], None);
    assert_eq!(run(op).unwrap()[0][0], Value::Bytes(b"[1, 2, 3]".to_vec()));

    let steps = batches(vec![vec![strs(&[Some("a"), Some("b")])]]);
    let op =
        build(steps, vec![], vec![agg(AggKind::ArrayAgg, Some(load(Ty::Varchar, 0)))], None);
    assert_eq!(run(op).unwrap()[0][0], Value::Bytes(b"[\"a\", \"b\"]".to_vec()));
}

#[test]
fn array_agg_includes_null_elements_as_literal_null() {
    // Unlike other aggregates, ArrayAgg counts NULL as an element
    // (duckdb's array_agg/list do the same: [1, NULL, 3]).
    let steps = batches(vec![vec![i32s(&[Some(1), None, Some(3)])]]);
    let op = build(steps, vec![], vec![agg(AggKind::ArrayAgg, Some(load(Ty::Int, 0)))], None);
    assert_eq!(run(op).unwrap()[0][0], Value::Bytes(b"[1, null, 3]".to_vec()));
}

#[test]
fn array_agg_of_f64_uses_shortest_decimal_or_exponential_form() {
    // push_f64_text is never exercised by the INT/VARCHAR array_agg tests. The normal range,
    // the boundary where it switches to exponential notation (p outside 1..=17), and
    // NaN/Infinity are all checked together here. The format matches duckdb's to_json(x).
    let steps = batches(vec![vec![f64s(&[
        Some(1.5),
        Some(1e20),  // p = 21 > 17 -> exponential notation
        Some(1e-10), // p = -9 < 1 -> exponential notation
        Some(f64::NAN),
        Some(f64::INFINITY),
    ])]]);
    let op =
        build(steps, vec![], vec![agg(AggKind::ArrayAgg, Some(load(Ty::Double, 0)))], None);
    let s = match &run(op).unwrap()[0][0] {
        Value::Bytes(b) => b.clone(),
        other => panic!("expected bytes but got {other:?}"),
    };
    assert_eq!(s, b"[1.5, 1e20, 1e-10, NaN, Infinity]".to_vec());
}

#[test]
fn array_agg_of_decimals_writes_their_point() {
    let ty = Ty::Decimal { precision: 10, scale: 2 };
    let mut v = Vector::new(ty);
    for x in [1250i64, -5, 300] {
        v.push_value(&Value::I64(x));
    }
    let op = build(batches(vec![vec![v]]), vec![], vec![agg(AggKind::ArrayAgg, Some(load(ty, 0)))], None);
    assert_eq!(run(op).unwrap()[0][0], Value::Bytes(b"[12.50, -0.05, 3.00]".to_vec()));
}

#[test]
fn array_agg_of_zero_rows_is_null_not_empty_array() {
    // In duckdb too, array_agg(x) over "0 rows" is NULL (not `[]`).
    // That differs from having rows that are all NULL (which gives `[NULL]`; see
    // `array_agg_includes_null_elements_as_literal_null` above).
    let op = build(vec![], vec![], vec![agg(AggKind::ArrayAgg, Some(load(Ty::Int, 0)))], None);
    assert_eq!(run(op).unwrap()[0][0], Value::Null);
}

#[test]
fn array_agg_distinct_dedups_nulls_too() {
    let steps = batches(vec![vec![i32s(&[Some(1), None, Some(1), None, Some(2)])]]);
    let op =
        build(steps, vec![], vec![agg_distinct(AggKind::ArrayAgg, load(Ty::Int, 0))], None);
    let s = match &run(op).unwrap()[0][0] {
        Value::Bytes(b) => b.clone(),
        other => panic!("expected bytes but got {other:?}"),
    };
    // The order is not promised, so only the set of elements is checked.
    let inner = core::str::from_utf8(&s[1..s.len() - 1]).unwrap();
    let mut parts: Vec<&str> = inner.split(", ").collect();
    parts.sort();
    assert_eq!(parts, vec!["1", "2", "null"]);
}

// --- Memory cap (the new operations) ------------------------------------

#[test]
fn memory_limit_is_enforced_for_array_agg() {
    // The same idea as MIN/MAX: pile up large byte sequences to hit the cap.
    // This is a single group, so the accumulated JSON-like text itself keeps growing until it
    // exceeds the cap.
    let filler = "x".repeat(1024);
    let mut steps = Vec::new();
    for _ in 0..80 {
        let vals: Vec<Option<String>> = (0..1000).map(|_| Some(filler.clone())).collect();
        let refs: Vec<Option<&str>> = vals.iter().map(|s| s.as_deref()).collect();
        steps.push(MockStep::Rows(Batch::new(vec![strs(&refs)])));
    }
    let op =
        build(steps, vec![], vec![agg(AggKind::ArrayAgg, Some(load(Ty::Varchar, 0)))], None);
    assert_eq!(code_of(run(op)), Some(Code::Oom));
}

#[test]
fn memory_limit_is_enforced_for_median() {
    // median_vals counts 8 bytes per value. Exceeding 64 MiB takes just over 8.38 million
    // values, so 9 million rows are fed in with room to spare.
    let mut steps = Vec::new();
    for _ in 0..90 {
        let vals: Vec<Option<i32>> = (0..100_000).map(Some).collect();
        steps.push(MockStep::Rows(Batch::new(vec![i32s(&vals)])));
    }
    let op = build(steps, vec![], vec![agg(AggKind::Median, Some(load(Ty::Int, 0)))], None);
    assert_eq!(code_of(run(op)), Some(Code::Oom));
}

/// `mode(DISTINCT ..)` tells values apart twice, and is charged for both times.
#[test]
fn distinct_modes_take_twice_the_memory() {
    let filler = "x".repeat(1 << 20);
    let feed = || {
        (0..40)
            .map(|i| {
                let s = format!("{i}-{filler}");
                MockStep::Rows(Batch::new(vec![strs(&[Some(s.as_str())])]))
            })
            .collect::<Vec<MockStep>>()
    };
    let once = build(feed(), vec![], vec![agg(AggKind::Mode, Some(load(Ty::Varchar, 0)))], None);
    assert_eq!(code_of(run(once)), None);
    let twice = build(feed(), vec![], vec![agg_distinct(AggKind::Mode, load(Ty::Varchar, 0))], None);
    assert_eq!(code_of(run(twice)), Some(Code::Oom));
}
