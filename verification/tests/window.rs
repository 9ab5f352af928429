//! Window functions.

use ahiru_core::catalog::Catalog;
use ahiru_core::error::{code_of, Code, Error};
use ahiru_core::exec::window::Window;
use ahiru_core::exec::{child, Child, ExecContext, Operator, Step};
use ahiru_core::expr::{Instr, OpCode, Program};
use ahiru_core::plan::{AggKind, SortKey, WindowFrame, WindowKind, WindowSpec};
use ahiru_core::vector::{Batch, Ty, Value, Vector, BATCH_SIZE};

/// A double as the value that holds its bits.
fn f64v(x: f64) -> Value {
    Value::F64(x.to_bits())
}

// --- Construction helpers -----------------------------------------------

fn col(ty: Ty, vals: &[Option<Value>]) -> Vector {
    let mut v = Vector::new(ty);
    for x in vals {
        match x {
            Some(x) => v.push_value(x),
            None => v.push_null(),
        }
    }
    v
}

fn ints(vals: &[Option<i32>]) -> Vector {
    col(Ty::Int, &vals.iter().map(|v| v.map(Value::I32)).collect::<Vec<_>>())
}

fn strs(vals: &[Option<&str>]) -> Vector {
    col(
        Ty::Varchar,
        &vals
            .iter()
            .map(|v| v.map(|s| Value::Bytes(s.as_bytes().to_vec())))
            .collect::<Vec<_>>(),
    )
}

/// A program that returns column `idx` unchanged.
fn load(ty: Ty, idx: u16) -> Program {
    let mut p = Program::new();
    let r = p.alloc_reg();
    p.push(Instr::with_aux(OpCode::LoadCol, ty.phys(), r, 0, 0, idx));
    p.result = r;
    p.result_ty = ty;
    p
}

/// A program returning a constant (for lag/lead's offset and default value).
fn konst(ty: Ty, v: Value) -> Program {
    let mut p = Program::new();
    let r = p.alloc_reg();
    let c = p.add_const(ty, v);
    p.push(Instr::with_aux(OpCode::LoadConst, ty.phys(), r, 0, 0, c));
    p.result = r;
    p.result_ty = ty;
    p
}

fn skey(idx: u16, ty: Ty) -> SortKey {
    // The SQL default, ASC / NULLS LAST. Aligned with DuckDB's default.
    SortKey { expr: load(ty, idx), desc: false, nulls_first: false }
}

struct SpecBuilder {
    kind: WindowKind,
    args: Vec<Program>,
    partition_by: Vec<Program>,
    order_by: Vec<SortKey>,
    result_ty: Ty,
}

fn spec(kind: WindowKind, result_ty: Ty) -> SpecBuilder {
    SpecBuilder {
        kind,
        args: Vec::new(),
        partition_by: Vec::new(),
        order_by: Vec::new(),
        result_ty,
    }
}

impl SpecBuilder {
    fn args(mut self, a: Vec<Program>) -> Self {
        self.args = a;
        self
    }
    fn part(mut self, p: Vec<Program>) -> Self {
        self.partition_by = p;
        self
    }
    fn order(mut self, o: Vec<SortKey>) -> Self {
        self.order_by = o;
        self
    }
    fn build(self) -> WindowSpec {
        // The frame is decided the same way as the binder's default: RANGE with ORDER BY,
        // the whole partition without.
        let frame = if self.order_by.is_empty() {
            WindowFrame::WholePartition
        } else {
            WindowFrame::RangeUnboundedPreceding
        };
        WindowSpec {
            kind: self.kind,
            args: self.args,
            partition_by: self.partition_by,
            order_by: self.order_by,
            frame,
            result_ty: self.result_ty,
            name: String::from("w"),
        }
    }
    /// The combination of having ORDER BY but a whole-partition frame.
    fn build_whole(self) -> WindowSpec {
        let mut s = self.build();
        s.frame = WindowFrame::WholePartition;
        s
    }
}

// --- Mock inputs --------------------------------------------------------

enum Script {
    Rows(Vec<Vector>),
    NeedIo,
    NeedCodec,
}

struct Mock {
    steps: Vec<Script>,
    pos: usize,
}

impl Mock {
        fn new(steps: Vec<Script>) -> Child {
        child(Box::new(Mock { steps, pos: 0 }))
    }
}

impl Operator for Mock {
    fn next(&mut self, _ctx: &mut ExecContext) -> Result<Step, Error> {
        if self.pos >= self.steps.len() {
            return Ok(Step::Done);
        }
        let i = self.pos;
        self.pos += 1;
        // An interruption is consumed as though "the host's response was awaited".
        Ok(match &self.steps[i] {
            Script::NeedIo => Step::NeedIo,
            Script::NeedCodec => Step::NeedCodec,
            Script::Rows(cols) => Step::Ready(Batch::new(cols.clone())),
        })
    }
}

// --- Execution helpers --------------------------------------------------

fn drive(steps: Vec<Script>, windows: Vec<WindowSpec>) -> Result<Vec<Vec<Value>>, Error> {
    let mut op = Window::new(Mock::new(steps), windows)?;
    let mut rows = Vec::new();
    for guard in 0..100_000 {
        assert!(guard < 99_999, "does not terminate");
        let mut ctx =
            ExecContext::new(Catalog::new());
        match op.next(&mut ctx)? {
            Step::Ready(b) => {
                assert!(b.card() <= BATCH_SIZE);
                for i in 0..b.card() {
                    let r = match &b.sel {
                        Some(s) => s[i] as usize,
                        None => i,
                    };
                    rows.push(b.cols.iter().map(|c| c.value_at(r)).collect::<Vec<_>>());
                }
            }
            Step::NeedIo | Step::NeedCodec => {}
            Step::Done => break,
        }
    }
    Ok(rows)
}

fn run(steps: Vec<Script>, windows: Vec<WindowSpec>) -> Vec<Vec<Value>> {
    drive(steps, windows).unwrap()
}

/// Extracts column `c` of the output as i64.
fn ints_at(rows: &[Vec<Value>], c: usize) -> Vec<Option<i64>> {
    rows.iter().map(|r| r[c].as_i64()).collect()
}

fn dbls_at(rows: &[Vec<Value>], c: usize) -> Vec<Option<f64>> {
    rows.iter().map(|r| r[c].as_f64_bits().map(f64::from_bits)).collect()
}

/// A one-batch, two-column (g, x) input.
fn gx(g: &[Option<i32>], x: &[Option<i32>]) -> Vec<Script> {
    vec![Script::Rows(vec![ints(g), ints(x)])]
}

// --- Interruption and resumption (the most important) -------------------

#[test]
fn need_io_and_need_codec_mid_input_match_uninterrupted_run() {
    let chunk = |g: &[Option<i32>], x: &[Option<i32>]| Script::Rows(vec![ints(g), ints(x)]);
    let mk = |interrupted: bool| {
        let a = chunk(&[Some(1), Some(1)], &[Some(10), Some(20)]);
        let b = chunk(&[Some(1), Some(2)], &[Some(30), Some(1)]);
        let c = chunk(&[Some(2), Some(1)], &[Some(2), Some(20)]);
        if interrupted {
            // Both kinds of interruption are interposed mid-input (neither at the start nor at the end).
            vec![a, Script::NeedIo, b, Script::NeedCodec, c, Script::NeedIo]
        } else {
            vec![a, b, c]
        }
    };
    let ws = || {
        vec![
            spec(WindowKind::RowNumber, Ty::BigInt)
                .part(vec![load(Ty::Int, 0)])
                .order(vec![skey(1, Ty::Int)])
                .build(),
            spec(WindowKind::Agg(AggKind::Sum), Ty::HugeInt)
                .args(vec![load(Ty::Int, 1)])
                .part(vec![load(Ty::Int, 0)])
                .order(vec![skey(1, Ty::Int)])
                .build(),
        ]
    };
    let plain = run(mk(false), ws());
    let broken = run(mk(true), ws());
    assert_eq!(plain.len(), 6);
    for c in 0..4 {
        assert_eq!(ints_at(&broken, c), ints_at(&plain, c), "column {c}");
    }
}

#[test]
fn window_need_io_before_any_input_is_passed_through() {
    let steps = vec![
        Script::NeedIo,
        Script::NeedCodec,
        Script::Rows(vec![ints(&[Some(1), Some(1)]), ints(&[Some(5), Some(6)])]),
    ];
    let mut op = Window::new(
        Mock::new(steps),
        vec![spec(WindowKind::RowNumber, Ty::BigInt).order(vec![skey(1, Ty::Int)]).build()],
    )
    .unwrap();
    let mut ctx =
        ExecContext::new(Catalog::new());
    assert!(matches!(op.next(&mut ctx).unwrap(), Step::NeedIo));
    assert!(matches!(op.next(&mut ctx).unwrap(), Step::NeedCodec));
    let b = match op.next(&mut ctx).unwrap() {
        Step::Ready(b) => b,
        _ => panic!("rows should arrive"),
    };
    assert_eq!(b.card(), 2);
    assert_eq!(b.cols[2].value_at(1), Value::I64(2));
}

// --- The ranking family (cross-checked with DuckDB) ---------------------

/// row_number / rank / dense_rank against y = 1,1,2,2,3.
#[test]
fn row_number_rank_dense_rank_with_ties() {
    let steps = gx(&[Some(1); 5], &[Some(1), Some(1), Some(2), Some(2), Some(3)]);
    let ws = vec![
        spec(WindowKind::RowNumber, Ty::BigInt).order(vec![skey(1, Ty::Int)]).build(),
        spec(WindowKind::Rank, Ty::BigInt).order(vec![skey(1, Ty::Int)]).build(),
        spec(WindowKind::DenseRank, Ty::BigInt).order(vec![skey(1, Ty::Int)]).build(),
    ];
    let rows = run(steps, ws);
    assert_eq!(ints_at(&rows, 2), vec![Some(1), Some(2), Some(3), Some(4), Some(5)]);
    assert_eq!(ints_at(&rows, 3), vec![Some(1), Some(1), Some(3), Some(3), Some(5)]);
    assert_eq!(ints_at(&rows, 4), vec![Some(1), Some(1), Some(2), Some(2), Some(3)]);
}

/// Combines a multi-column PARTITION BY with a DESC NULLS FIRST ORDER BY.
/// The row_number/rank tests so far only exercised a single-column PARTITION BY with the
/// default (ASC NULLS LAST) ORDER BY; this covers the paths `cmp_keys`'s multi-key loop,
/// DESC inversion, and NULL-placement inversion.
/// Cross-checked with DuckDB:
///   PARTITION BY (1,1): x=10,20 -> DESC gives 20,10 -> row_number 2,1
///   PARTITION BY (1,2): x=30,40 -> DESC gives 40,30 -> row_number 2,1
///   PARTITION BY (2,1): x=NULL,5 -> DESC NULLS FIRST gives NULL,5 -> row_number 1,2
#[test]
fn multi_column_partition_by_with_desc_nulls_first_order_by() {
    let steps = vec![Script::Rows(vec![
        ints(&[Some(1), Some(1), Some(1), Some(1), Some(2), Some(2)]), // p1
        ints(&[Some(1), Some(1), Some(2), Some(2), Some(1), Some(1)]), // p2
        ints(&[Some(10), Some(20), Some(30), Some(40), None, Some(5)]), // x
    ])];
    let ws = vec![spec(WindowKind::RowNumber, Ty::BigInt)
        .part(vec![load(Ty::Int, 0), load(Ty::Int, 1)])
        .order(vec![SortKey { expr: load(Ty::Int, 2), desc: true, nulls_first: true }])
        .build()];
    let rows = run(steps, ws);
    assert_eq!(ints_at(&rows, 3), vec![Some(2), Some(1), Some(2), Some(1), Some(1), Some(2)]);
}

// --- RANGE peer groups --------------------------------------------------

/// Tied rows share a frame (RANGE, not ROWS).
/// DuckDB:
///   the 2 rows with y=1 -> sum 30 / count 2 / avg 15
///   the 2 rows with y=2 -> sum 100 / count 4 / avg 25
///   y=3               -> sum 150 / count 5 / avg 30
#[test]
fn range_frame_shares_the_running_value_across_peers() {
    let steps = vec![Script::Rows(vec![
        ints(&[Some(1), Some(1), Some(2), Some(2), Some(3)]),
        ints(&[Some(10), Some(20), Some(30), Some(40), Some(50)]),
    ])];
    let w = |k: WindowKind, ty: Ty| {
        spec(k, ty).args(vec![load(Ty::Int, 1)]).order(vec![skey(0, Ty::Int)]).build()
    };
    let ws = vec![
        w(WindowKind::Agg(AggKind::Sum), Ty::HugeInt),
        spec(WindowKind::Agg(AggKind::CountStar), Ty::BigInt)
            .order(vec![skey(0, Ty::Int)])
            .build(),
        w(WindowKind::Agg(AggKind::Avg), Ty::Double),
        w(WindowKind::Agg(AggKind::Min), Ty::Int),
        w(WindowKind::Agg(AggKind::Max), Ty::Int),
        w(WindowKind::FirstValue, Ty::Int),
        w(WindowKind::LastValue, Ty::Int),
    ];
    let rows = run(steps, ws);
    assert_eq!(ints_at(&rows, 2), vec![Some(30), Some(30), Some(100), Some(100), Some(150)]);
    assert_eq!(ints_at(&rows, 3), vec![Some(2), Some(2), Some(4), Some(4), Some(5)]);
    assert_eq!(
        dbls_at(&rows, 4),
        vec![Some(15.0), Some(15.0), Some(25.0), Some(25.0), Some(30.0)]
    );
    assert_eq!(ints_at(&rows, 5), vec![Some(10); 5], "MIN comes from the frame's start");
    assert_eq!(ints_at(&rows, 6), vec![Some(20), Some(20), Some(40), Some(40), Some(50)]);
    assert_eq!(
        ints_at(&rows, 7),
        vec![Some(10); 5],
        "FIRST_VALUE is the partition's first row"
    );
    assert_eq!(
        ints_at(&rows, 8),
        vec![Some(20), Some(20), Some(40), Some(40), Some(50)],
        "LAST_VALUE is the end of the peer group"
    );
}

/// Actually combines FIRST_VALUE/LAST_VALUE with several partitions.
/// The existing RANGE tests only covered a single partition without using `.part(...)`.
#[test]
fn first_value_last_value_are_scoped_per_partition() {
    let steps = vec![Script::Rows(vec![
        ints(&[Some(1), Some(1), Some(1), Some(2), Some(2)]), // g
        ints(&[Some(10), Some(20), Some(30), Some(100), Some(200)]), // x
    ])];
    let w = |k: WindowKind| {
        spec(k, Ty::Int)
            .args(vec![load(Ty::Int, 1)])
            .part(vec![load(Ty::Int, 0)])
            .order(vec![skey(1, Ty::Int)])
            .build_whole()
    };
    let ws = vec![w(WindowKind::FirstValue), w(WindowKind::LastValue)];
    let rows = run(steps, ws);
    assert_eq!(
        ints_at(&rows, 2),
        vec![Some(10), Some(10), Some(10), Some(100), Some(100)],
        "FIRST_VALUE must be separate per partition"
    );
    assert_eq!(
        ints_at(&rows, 3),
        vec![Some(30), Some(30), Some(30), Some(200), Some(200)],
        "LAST_VALUE must not leak across partitions either"
    );
}

/// Without ORDER BY (the frame is the whole partition). Every row gets the same value.
#[test]
fn whole_partition_frame_without_order_by() {
    let steps = gx(&[Some(1); 3], &[Some(1), Some(2), Some(3)]);
    let ws = vec![
        spec(WindowKind::Agg(AggKind::Sum), Ty::HugeInt).args(vec![load(Ty::Int, 1)]).build(),
        spec(WindowKind::Agg(AggKind::CountStar), Ty::BigInt).build(),
        spec(WindowKind::FirstValue, Ty::Int).args(vec![load(Ty::Int, 1)]).build(),
        spec(WindowKind::LastValue, Ty::Int).args(vec![load(Ty::Int, 1)]).build(),
    ];
    let rows = run(steps, ws);
    assert_eq!(ints_at(&rows, 2), vec![Some(6); 3]);
    assert_eq!(ints_at(&rows, 3), vec![Some(3); 3]);
    assert_eq!(ints_at(&rows, 4), vec![Some(1); 3]);
    assert_eq!(
        ints_at(&rows, 5),
        vec![Some(3); 3],
        "with a whole-partition frame, the last row"
    );
}

/// Even with ORDER BY, a whole-partition frame does not produce a running total.
#[test]
fn explicit_whole_partition_frame_with_order_by() {
    let steps = gx(&[Some(1); 3], &[Some(3), Some(1), Some(2)]);
    let ws = vec![spec(WindowKind::Agg(AggKind::Sum), Ty::HugeInt)
        .args(vec![load(Ty::Int, 1)])
        .order(vec![skey(1, Ty::Int)])
        .build_whole()];
    assert_eq!(ints_at(&run(steps, ws), 2), vec![Some(6); 3]);
}

// --- lag / lead ---------------------------------------------------------

#[test]
fn lag_and_lead_at_partition_edges() {
    let steps = gx(&[Some(1); 3], &[Some(1), Some(2), Some(3)]);
    let ws = vec![
        // lag(x)
        spec(WindowKind::Lag, Ty::Int)
            .args(vec![load(Ty::Int, 1)])
            .order(vec![skey(1, Ty::Int)])
            .build(),
        // lead(x, 2, -1)
        spec(WindowKind::Lead, Ty::Int)
            .args(vec![
                load(Ty::Int, 1),
                konst(Ty::BigInt, Value::I64(2)),
                konst(Ty::Int, Value::I32(-1)),
            ])
            .order(vec![skey(1, Ty::Int)])
            .build(),
        // lag(x, 1, -9)
        spec(WindowKind::Lag, Ty::Int)
            .args(vec![
                load(Ty::Int, 1),
                konst(Ty::BigInt, Value::I64(1)),
                konst(Ty::Int, Value::I32(-9)),
            ])
            .order(vec![skey(1, Ty::Int)])
            .build(),
        // lag(x, -1) is the same as lead(x, 1).
        spec(WindowKind::Lag, Ty::Int)
            .args(vec![load(Ty::Int, 1), konst(Ty::BigInt, Value::I64(-1))])
            .order(vec![skey(1, Ty::Int)])
            .build(),
        // lag(x, 0) is the row itself.
        spec(WindowKind::Lag, Ty::Int)
            .args(vec![load(Ty::Int, 1), konst(Ty::BigInt, Value::I64(0))])
            .order(vec![skey(1, Ty::Int)])
            .build(),
    ];
    let rows = run(steps, ws);
    assert_eq!(ints_at(&rows, 2), vec![None, Some(1), Some(2)]);
    assert_eq!(ints_at(&rows, 3), vec![Some(3), Some(-1), Some(-1)]);
    assert_eq!(ints_at(&rows, 4), vec![Some(-9), Some(1), Some(2)]);
    assert_eq!(ints_at(&rows, 5), vec![Some(2), Some(3), None]);
    assert_eq!(ints_at(&rows, 6), vec![Some(1), Some(2), Some(3)]);
}

/// Extreme signed offsets are out of range, not arithmetic traps or wrapped row indexes.
#[test]
fn lag_and_lead_extreme_offsets_yield_null() {
    let steps = gx(&[Some(1); 3], &[Some(10), Some(20), Some(30)]);
    let ws = vec![
        spec(WindowKind::Lag, Ty::Int)
            .args(vec![load(Ty::Int, 1), konst(Ty::BigInt, Value::I64(i64::MIN))])
            .order(vec![skey(1, Ty::Int)])
            .build(),
        spec(WindowKind::Lead, Ty::Int)
            .args(vec![load(Ty::Int, 1), konst(Ty::BigInt, Value::I64(i64::MAX))])
            .order(vec![skey(1, Ty::Int)])
            .build(),
    ];
    let rows = run(steps, ws);
    assert_eq!(ints_at(&rows, 2), vec![None, None, None]);
    assert_eq!(ints_at(&rows, 3), vec![None, None, None]);
}

/// A NULL offset gives a NULL result (the same as DuckDB).
#[test]
fn lag_with_null_offset_yields_null() {
    let steps = gx(&[Some(1); 2], &[Some(1), Some(2)]);
    let ws = vec![spec(WindowKind::Lag, Ty::Int)
        .args(vec![load(Ty::Int, 1), konst(Ty::BigInt, Value::Null)])
        .order(vec![skey(1, Ty::Int)])
        .build()];
    assert_eq!(ints_at(&run(steps, ws), 2), vec![None, None]);
}

/// lag does not cross partitions.
#[test]
fn lag_does_not_cross_partitions() {
    let steps =
        gx(&[Some(1), Some(1), Some(2), Some(2)], &[Some(1), Some(2), Some(3), Some(4)]);
    let ws = vec![spec(WindowKind::Lag, Ty::Int)
        .args(vec![load(Ty::Int, 1)])
        .part(vec![load(Ty::Int, 0)])
        .order(vec![skey(1, Ty::Int)])
        .build()];
    assert_eq!(ints_at(&run(steps, ws), 2), vec![None, Some(1), None, Some(3)]);
}

// --- Partitioning -------------------------------------------------------

/// Several partitions. The same output as DuckDB's (g=2 includes the 2 rows where y is NULL).
#[test]
fn multiple_partitions_with_null_order_key() {
    // (g, y, x)
    let steps = vec![Script::Rows(vec![
        ints(&[Some(1), Some(1), Some(2), Some(2), Some(2)]),
        ints(&[Some(1), Some(2), Some(1), None, None]),
        ints(&[Some(10), Some(20), Some(1), Some(2), Some(3)]),
    ])];
    let ws = vec![
        spec(WindowKind::Rank, Ty::BigInt)
            .part(vec![load(Ty::Int, 0)])
            .order(vec![skey(1, Ty::Int)])
            .build(),
        spec(WindowKind::Agg(AggKind::Sum), Ty::HugeInt)
            .args(vec![load(Ty::Int, 2)])
            .part(vec![load(Ty::Int, 0)])
            .order(vec![skey(1, Ty::Int)])
            .build(),
    ];
    let rows = run(steps, ws);
    // With ASC/NULLS LAST, NULLs go last, and NULLs are peers with one another.
    assert_eq!(ints_at(&rows, 3), vec![Some(1), Some(2), Some(1), Some(2), Some(2)]);
    assert_eq!(ints_at(&rows, 4), vec![Some(10), Some(30), Some(1), Some(6), Some(6)]);
}

/// Without PARTITION BY = one partition.
#[test]
fn single_partition_without_partition_by() {
    let steps = gx(&[Some(9); 4], &[Some(4), Some(3), Some(2), Some(1)]);
    let ws =
        vec![spec(WindowKind::RowNumber, Ty::BigInt).order(vec![skey(1, Ty::Int)]).build()];
    // Emitted in input row order, so values 4,3,2,1 get ranks 4,3,2,1.
    assert_eq!(ints_at(&run(steps, ws), 2), vec![Some(4), Some(3), Some(2), Some(1)]);
}

/// A NULL partition key forms its own single partition (as with GROUP BY).
#[test]
fn null_partition_keys_form_their_own_partition() {
    let steps = gx(&[None, Some(1), None, Some(1)], &[Some(1), Some(2), Some(3), Some(4)]);
    let ws = vec![
        spec(WindowKind::Agg(AggKind::CountStar), Ty::BigInt)
            .part(vec![load(Ty::Int, 0)])
            .build(),
        spec(WindowKind::Agg(AggKind::Sum), Ty::HugeInt)
            .args(vec![load(Ty::Int, 1)])
            .part(vec![load(Ty::Int, 0)])
            .build(),
    ];
    let rows = run(steps, ws);
    assert_eq!(ints_at(&rows, 2), vec![Some(2); 4]);
    assert_eq!(ints_at(&rows, 3), vec![Some(4), Some(6), Some(4), Some(6)]);
}

// --- Row order ----------------------------------------------------------

/// The output is always in the input's row order. Reordering within a partition must come back.
#[test]
fn output_keeps_input_row_order() {
    let g = [Some(1), Some(2), Some(1), Some(2), Some(1)];
    let x = [Some(50), Some(5), Some(10), Some(1), Some(30)];
    let steps = gx(&g, &x);
    let ws = vec![spec(WindowKind::RowNumber, Ty::BigInt)
        .part(vec![load(Ty::Int, 0)])
        .order(vec![skey(1, Ty::Int)])
        .build()];
    let rows = run(steps, ws);
    // The input columns must be laid out unchanged.
    assert_eq!(ints_at(&rows, 0), g.iter().map(|v| v.map(|x| x as i64)).collect::<Vec<_>>());
    assert_eq!(ints_at(&rows, 1), x.iter().map(|v| v.map(|x| x as i64)).collect::<Vec<_>>());
    // g=1 has 10 < 30 < 50; g=2 has 1 < 5.
    assert_eq!(ints_at(&rows, 2), vec![Some(3), Some(2), Some(1), Some(1), Some(2)]);
}

/// Tied rows keep the input order (because the comparator breaks ties by row number).
#[test]
fn ties_keep_input_order_in_row_number() {
    let steps = gx(&[Some(1); 4], &[Some(7), Some(7), Some(7), Some(7)]);
    let ws =
        vec![spec(WindowKind::RowNumber, Ty::BigInt).order(vec![skey(1, Ty::Int)]).build()];
    assert_eq!(ints_at(&run(steps, ws), 2), vec![Some(1), Some(2), Some(3), Some(4)]);
}

// --- Size ---------------------------------------------------------------

#[test]
fn window_more_rows_than_batch_size() {
    const N: usize = BATCH_SIZE * 2 + 37;
    let mut steps = Vec::new();
    let mut i = 0usize;
    while i < N {
        let end = (i + 500).min(N);
        // g partitions into 0/1, and x is a running number (reversed so it looks descending).
        let g: Vec<Option<i32>> = (i..end).map(|k| Some((k % 2) as i32)).collect();
        let x: Vec<Option<i32>> = (i..end).map(|k| Some((N - k) as i32)).collect();
        steps.push(Script::Rows(vec![ints(&g), ints(&x)]));
        i = end;
    }
    let ws = vec![
        spec(WindowKind::RowNumber, Ty::BigInt)
            .part(vec![load(Ty::Int, 0)])
            .order(vec![skey(1, Ty::Int)])
            .build(),
        spec(WindowKind::Agg(AggKind::CountStar), Ty::BigInt)
            .part(vec![load(Ty::Int, 0)])
            .build(),
    ];
    let rows = run(steps, ws);
    assert_eq!(rows.len(), N);
    // x decreases monotonically overall, so per-partition ranks get smaller toward the end.
    let n0 = N.div_ceil(2) as i64;
    let n1 = (N / 2) as i64;
    assert_eq!(rows[0][2].as_i64(), Some(n0));
    assert_eq!(rows[1][2].as_i64(), Some(n1));
    assert_eq!(rows[N - 1][2].as_i64(), Some(1));
    assert_eq!(rows[0][3].as_i64(), Some(n0));
    assert_eq!(rows[1][3].as_i64(), Some(n1));
}

#[test]
fn window_output_is_chunked_to_batch_size() {
    const N: usize = BATCH_SIZE + 10;
    let x: Vec<Option<i32>> = (0..N as i32).map(Some).collect();
    let steps = vec![Script::Rows(vec![ints(&x)])];
    let mut op = Window::new(
        Mock::new(steps),
        vec![spec(WindowKind::RowNumber, Ty::BigInt).order(vec![skey(0, Ty::Int)]).build()],
    )
    .unwrap();
    let mut sizes = Vec::new();
    loop {
        let mut ctx =
            ExecContext::new(Catalog::new());
        match op.next(&mut ctx).unwrap() {
            Step::Ready(b) => sizes.push(b.card()),
            Step::NeedIo | Step::NeedCodec => {}
            Step::Done => break,
        }
    }
    assert_eq!(sizes, vec![BATCH_SIZE, 10]);
}

// --- Edge conditions ----------------------------------------------------

#[test]
fn window_empty_input_emits_nothing() {
    let ws =
        || vec![spec(WindowKind::RowNumber, Ty::BigInt).order(vec![skey(0, Ty::Int)]).build()];
    assert!(run(Vec::new(), ws()).is_empty());
    // The same when only 0-row batches arrive.
    assert!(run(vec![Script::Rows(vec![ints(&[])]), Script::NeedIo], ws()).is_empty());
}

/// NULL values drop out of SUM / COUNT(x) but count toward COUNT(*).
#[test]
fn nulls_in_the_value_are_ignored_by_aggregates() {
    let steps = gx(&[Some(1); 3], &[None, Some(2), None]);
    let ws = vec![
        spec(WindowKind::Agg(AggKind::Sum), Ty::HugeInt).args(vec![load(Ty::Int, 1)]).build(),
        spec(WindowKind::Agg(AggKind::Count), Ty::BigInt).args(vec![load(Ty::Int, 1)]).build(),
        spec(WindowKind::Agg(AggKind::CountStar), Ty::BigInt).build(),
    ];
    let rows = run(steps, ws);
    assert_eq!(ints_at(&rows, 2), vec![Some(2); 3]);
    assert_eq!(ints_at(&rows, 3), vec![Some(1); 3]);
    assert_eq!(ints_at(&rows, 4), vec![Some(3); 3]);
}

/// An all-NULL frame gives NULL for SUM and 0 for COUNT.
#[test]
fn all_null_frame_sums_to_null() {
    let steps = gx(&[Some(1); 2], &[None, None]);
    let ws = vec![
        spec(WindowKind::Agg(AggKind::Sum), Ty::HugeInt).args(vec![load(Ty::Int, 1)]).build(),
        spec(WindowKind::Agg(AggKind::Count), Ty::BigInt).args(vec![load(Ty::Int, 1)]).build(),
        spec(WindowKind::Agg(AggKind::Avg), Ty::Double).args(vec![load(Ty::Int, 1)]).build(),
    ];
    let rows = run(steps, ws);
    assert!(rows[0][2].is_null());
    assert_eq!(rows[0][3].as_i64(), Some(0));
    assert!(rows[0][4].is_null());
}

/// first/last/min/max work on string columns too (pushing through `Value`).
#[test]
fn string_values() {
    let steps = vec![Script::Rows(vec![
        ints(&[Some(1), Some(1), Some(1)]),
        strs(&[Some("b"), None, Some("a")]),
    ])];
    let ws = vec![
        spec(WindowKind::FirstValue, Ty::Varchar).args(vec![load(Ty::Varchar, 1)]).build(),
        spec(WindowKind::LastValue, Ty::Varchar).args(vec![load(Ty::Varchar, 1)]).build(),
        spec(WindowKind::Agg(AggKind::Min), Ty::Varchar)
            .args(vec![load(Ty::Varchar, 1)])
            .build(),
    ];
    let rows = run(steps, ws);
    assert_eq!(rows[0][2], Value::Bytes(b"b".to_vec()));
    assert_eq!(rows[0][3], Value::Bytes(b"a".to_vec()));
    assert_eq!(rows[0][4], Value::Bytes(b"a".to_vec()));
}

/// A zero-column input (the path selecting only `count(*) OVER ()`).
#[test]
fn zero_column_input() {
    struct RowsOnly(usize);
    impl Operator for RowsOnly {
        fn next(&mut self, _ctx: &mut ExecContext) -> Result<Step, Error> {
            if self.0 == 0 {
                return Ok(Step::Done);
            }
            let n = self.0;
            self.0 = 0;
            Ok(Step::Ready(Batch::rows_only(n)))
        }
    }
    let mut op = Window::new(
        child(Box::new(RowsOnly(3))),
        vec![spec(WindowKind::Agg(AggKind::CountStar), Ty::BigInt).build()],
    )
    .unwrap();
    let mut ctx =
        ExecContext::new(Catalog::new());
    let b = match op.next(&mut ctx).unwrap() {
        Step::Ready(b) => b,
        _ => panic!("rows should arrive"),
    };
    assert_eq!(b.card(), 3);
    assert_eq!(b.cols[0].value_at(0), Value::I64(3));
}

/// The f64 ordering key. NaN is the maximum, and -0.0 and 0.0 are tied (peers).
#[test]
fn f64_order_key_is_a_total_order() {
    let steps = vec![Script::Rows(vec![col(
        Ty::Double,
        &[
            Some(f64v(f64::NAN)),
            Some(f64v(0.0)),
            Some(f64v(-0.0)),
            Some(f64v(-1.0)),
        ],
    )])];
    let ws = vec![
        spec(WindowKind::Rank, Ty::BigInt).order(vec![skey(0, Ty::Double)]).build(),
        spec(WindowKind::RowNumber, Ty::BigInt).order(vec![skey(0, Ty::Double)]).build(),
    ];
    let rows = run(steps, ws);
    // The order is -1.0 < -0.0 = 0.0 < NaN.
    assert_eq!(ints_at(&rows, 1), vec![Some(4), Some(2), Some(2), Some(1)]);
    assert_eq!(ints_at(&rows, 2), vec![Some(4), Some(2), Some(3), Some(1)]);
}

/// SUM accumulates in i128 (a sum that overflows i64).
#[test]
fn sum_accumulates_in_i128() {
    let big = i64::MAX;
    let steps = vec![Script::Rows(vec![col(
        Ty::BigInt,
        &[Some(Value::I64(big)), Some(Value::I64(big)), Some(Value::I64(big))],
    )])];
    let ws = vec![spec(WindowKind::Agg(AggKind::Sum), Ty::HugeInt)
        .args(vec![load(Ty::BigInt, 0)])
        .build()];
    let rows = run(steps, ws);
    assert_eq!(rows[0][1], Value::I128(big as i128 * 3));
}

#[test]
fn window_sum_overflowing_i128_errors() {
    let steps = vec![Script::Rows(vec![col(
        Ty::HugeInt,
        &[Some(Value::I128(i128::MAX)), Some(Value::I128(i128::MAX))],
    )])];
    let ws = vec![spec(WindowKind::Agg(AggKind::Sum), Ty::HugeInt)
        .args(vec![load(Ty::HugeInt, 0)])
        .build()];
    assert_eq!(code_of(drive(steps, ws).map(|_| ())), Some(Code::ValueOutOfRange));
}

/// An argument required but absent is rejected as a construction-side bug.
#[test]
fn missing_argument_is_rejected() {
    let steps = gx(&[Some(1)], &[Some(1)]);
    let ws = vec![spec(WindowKind::Lag, Ty::Int).order(vec![skey(1, Ty::Int)]).build()];
    assert_eq!(code_of(drive(steps, ws).map(|_| ())), Some(Code::WrongArgCount));
}

/// The input's selection vector is honored.
#[test]
fn window_selection_vector_on_input_is_respected() {
    struct Sel;
    impl Operator for Sel {
        fn next(&mut self, _ctx: &mut ExecContext) -> Result<Step, Error> {
            let mut b = Batch::new(vec![ints(&[Some(5), Some(1), Some(9), Some(3)])]);
            b.sel = Some(vec![1, 3]);
            Ok(Step::Ready(b))
        }
    }
    // Wrapped in a mock that gives Done from the second call on, so it returns exactly once.
    struct Once(Option<Sel>);
    impl Operator for Once {
        fn next(&mut self, ctx: &mut ExecContext) -> Result<Step, Error> {
            match self.0.take() {
                Some(mut s) => s.next(ctx),
                None => Ok(Step::Done),
            }
        }
    }
    let mut op = Window::new(
        child(Box::new(Once(Some(Sel)))),
        vec![spec(WindowKind::RowNumber, Ty::BigInt).order(vec![skey(0, Ty::Int)]).build()],
    )
    .unwrap();
    let mut ctx =
        ExecContext::new(Catalog::new());
    let b = match op.next(&mut ctx).unwrap() {
        Step::Ready(b) => b,
        _ => panic!("rows should arrive"),
    };
    assert_eq!(b.card(), 2);
    assert_eq!(b.cols[0].value_at(0), Value::I32(1));
    assert_eq!(b.cols[1].value_at(0), Value::I64(1));
    assert_eq!(b.cols[1].value_at(1), Value::I64(2));
}
