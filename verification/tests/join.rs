//! Joins.

use ahiru_core::catalog::Catalog;
use ahiru_core::error::{code_of, Code, Error};
use ahiru_core::exec::join::{BuildSide, HashJoin, MAX_BUILD_BYTES};
use ahiru_core::exec::{child, Child, ExecContext, Operator, Step};
use ahiru_core::expr::{Instr, OpCode, Program, Vm};
use ahiru_core::plan::JoinKind;
use ahiru_core::vector::{Batch, Ty, Value, Vector, BATCH_SIZE};

/// A double as the value that holds its bits.
fn f64v(x: f64) -> Value {
    Value::F64(x.to_bits())
}

// --- Mock inputs --------------------------------------------------------

/// An input returning `Step`s from a script. Interposing `NeedIo` reproduces exactly the
/// situation of a remote input being interrupted midway.
struct Mock {
    steps: Vec<Option<Step>>,
    pos: usize,
}

impl Mock {
    fn script(steps: Vec<Step>) -> Child {
        child(Box::new(Mock { steps: steps.into_iter().map(Some).collect(), pos: 0 }))
    }
    fn empty() -> Child {
        Mock::script(Vec::new())
    }
}

impl Operator for Mock {
    fn next(&mut self, _ctx: &mut ExecContext) -> Result<Step, Error> {
        if self.pos >= self.steps.len() {
            return Ok(Step::Done);
        }
        let s = self.steps[self.pos].take();
        self.pos += 1;
        Ok(s.unwrap_or(Step::Done))
    }
}

// --- Construction helpers -----------------------------------------------

fn ints(vals: &[Option<i32>]) -> Vector {
    let mut v = Vector::new(Ty::Int);
    for x in vals {
        match x {
            Some(x) => v.push_value(&Value::I32(*x)),
            None => v.push_null(),
        }
    }
    v
}

fn strs(vals: &[Option<&str>]) -> Vector {
    let mut v = Vector::new(Ty::Varchar);
    for x in vals {
        match x {
            Some(x) => v.push_value(&Value::Bytes(x.as_bytes().to_vec())),
            None => v.push_null(),
        }
    }
    v
}

fn dbls(vals: &[f64]) -> Vector {
    let mut v = Vector::new(Ty::Double);
    for x in vals {
        v.push_value(&f64v(*x));
    }
    v
}

fn ready(cols: Vec<Vector>) -> Step {
    Step::Ready(Batch::new(cols))
}

/// A program using column `i` directly as the key.
fn col_prog(i: u16, ty: Ty) -> Program {
    let mut p = Program::new();
    let r = p.alloc_reg();
    p.push(Instr::with_aux(OpCode::LoadCol, ty.phys(), r, 0, 0, i));
    p.result = r;
    p.result_ty = ty;
    p
}

/// A program returning `col a <op> col b` (for residual).
fn cmp_prog(a: u16, b: u16, ty: Ty, op: OpCode) -> Program {
    let mut p = Program::new();
    let ra = p.alloc_reg();
    let rb = p.alloc_reg();
    let rd = p.alloc_reg();
    p.push(Instr::with_aux(OpCode::LoadCol, ty.phys(), ra, 0, 0, a));
    p.push(Instr::with_aux(OpCode::LoadCol, ty.phys(), rb, 0, 0, b));
    p.push(Instr::new(op, ty.phys(), rd, ra, rb));
    p.result = rd;
    p.result_ty = Ty::Boolean;
    p
}

struct Runner {
    rows: Vec<Vec<Value>>,
    /// How many `NeedIo`s came back.
    interrupts: usize,
    batches: usize,
}

fn run(op: &mut dyn Operator) -> Runner {
    let mut out = Runner { rows: Vec::new(), interrupts: 0, batches: 0 };
    for guard in 0..100_000 {
        assert!(guard < 99_999, "does not terminate");
        let mut ctx =
            ExecContext::new(Catalog::new());
        match op.next(&mut ctx).unwrap() {
            Step::Ready(b) => {
                let n = b.card();
                assert!(n > 0, "an empty batch must not be returned");
                assert!(n <= BATCH_SIZE, "{n} rows in one next exceeds the batch cap");
                out.batches += 1;
                for i in 0..n {
                    let r = match &b.sel {
                        Some(s) => s[i] as usize,
                        None => i,
                    };
                    out.rows.push(b.cols.iter().map(|c| c.value_at(r)).collect());
                }
            }
            Step::Done => break,
            _ => out.interrupts += 1,
        }
    }
    out
}

/// Flattens rows to integers (NULL as `None`) and sorts them, since the order is not guaranteed.
fn norm(rows: &[Vec<Value>]) -> Vec<Vec<Option<i64>>> {
    let mut v: Vec<Vec<Option<i64>>> =
        rows.iter().map(|r| r.iter().map(|x| x.as_i64()).collect()).collect();
    v.sort();
    v
}

fn text(rows: &[Vec<Value>]) -> Vec<Vec<Option<String>>> {
    let mut v: Vec<Vec<Option<String>>> = rows
        .iter()
        .map(|r| {
            r.iter()
                .map(|x| x.as_bytes().map(|b| String::from_utf8_lossy(b).into_owned()))
                .collect()
        })
        .collect();
    v.sort();
    v
}

fn join(
    left: Vec<Step>,
    right: Vec<Step>,
    kind: JoinKind,
    keys: usize,
    lty: Vec<Ty>,
    rty: Vec<Ty>,
) -> HashJoin {
    let lk = (0..keys).map(|i| col_prog(i as u16, lty[i])).collect();
    let rk = (0..keys).map(|i| col_prog(i as u16, rty[i])).collect();
    HashJoin::new(Mock::script(left), Mock::script(right), kind, lk, rk, None, lty, rty)
        .unwrap()
}

/// A join of one column each (an INT key only).
fn join1(left: Vec<Step>, right: Vec<Step>, kind: JoinKind) -> HashJoin {
    join(left, right, kind, 1, vec![Ty::Int], vec![Ty::Int])
}

fn ints1(vals: &[Option<i32>]) -> Step {
    ready(vec![ints(vals)])
}

// --- Interruption and resumption ----------------------------------------

/// The most important one. The result must not change when `NeedIo` interposes during build or probe.
#[test]
fn need_io_mid_build_and_mid_probe_is_transparent() {
    let l = || vec![ints1(&[Some(1), Some(2)]), ints1(&[Some(3), Some(1)])];
    let r = || vec![ints1(&[Some(1), Some(3)]), ints1(&[Some(1), Some(9)])];
    let clean = run(&mut join1(l(), r(), JoinKind::Full));

    let interrupted_left = vec![
        Step::NeedIo,
        ints1(&[Some(1), Some(2)]),
        Step::NeedIo,
        ints1(&[Some(3), Some(1)]),
        Step::NeedIo,
    ];
    let interrupted_right = vec![
        ints1(&[Some(1), Some(3)]),
        Step::NeedIo,
        Step::NeedIo,
        ints1(&[Some(1), Some(9)]),
        Step::NeedIo,
    ];
    let got = run(&mut join1(interrupted_left, interrupted_right, JoinKind::Full));
    assert!(got.interrupts >= 5, "the interruptions were not passed through");
    assert_eq!(norm(&got.rows), norm(&clean.rows));

    // The same for INNER / LEFT / RIGHT.
    for kind in [JoinKind::Inner, JoinKind::Left, JoinKind::Right] {
        let clean = run(&mut join1(l(), r(), kind));
        let noisy = run(&mut join1(
            vec![
                Step::NeedIo,
                ints1(&[Some(1), Some(2)]),
                Step::NeedIo,
                ints1(&[Some(3), Some(1)]),
            ],
            vec![
                Step::NeedIo,
                ints1(&[Some(1), Some(3)]),
                Step::NeedIo,
                ints1(&[Some(1), Some(9)]),
            ],
            kind,
        ));
        assert!(noisy.interrupts >= 4);
        assert_eq!(norm(&noisy.rows), norm(&clean.rows), "{kind:?}");
    }
}

/// When one left row produces more output than BATCH_SIZE, the chain position must not be
/// lost even if the probe is interrupted midway.
#[test]
fn need_io_does_not_disturb_a_long_chain() {
    let big: Vec<Option<i32>> = (0..3000).map(|_| Some(7)).collect();
    let left = vec![Step::NeedIo, ints1(&[Some(7)]), Step::NeedIo];
    let right = vec![Step::NeedIo, ready(vec![ints(&big)]), Step::NeedIo];
    let got = run(&mut join1(left, right, JoinKind::Inner));
    assert_eq!(got.rows.len(), 3000);
    assert_eq!(got.batches, 2, "split at BATCH_SIZE");
}

// --- INNER --------------------------------------------------------------

#[test]
fn inner_no_match_is_empty() {
    let got = run(&mut join1(
        vec![ints1(&[Some(1), Some(2)])],
        vec![ints1(&[Some(3)])],
        JoinKind::Inner,
    ));
    assert!(got.rows.is_empty());
}

#[test]
fn inner_one_to_one() {
    let got = run(&mut join1(
        vec![ints1(&[Some(1), Some(2), Some(3)])],
        vec![ints1(&[Some(2), Some(3), Some(4)])],
        JoinKind::Inner,
    ));
    assert_eq!(norm(&got.rows), vec![vec![Some(2), Some(2)], vec![Some(3), Some(3)]]);
}

#[test]
fn inner_one_to_many() {
    let got = run(&mut join1(
        vec![ints1(&[Some(1), Some(2), Some(3)])],
        vec![ints1(&[Some(1), Some(1), Some(2)])],
        JoinKind::Inner,
    ));
    assert_eq!(got.rows.len(), 3);
    assert_eq!(
        norm(&got.rows),
        vec![vec![Some(1), Some(1)], vec![Some(1), Some(1)], vec![Some(2), Some(2)]]
    );
}

/// Many-to-many. Getting the chaining wrong would give the wrong count.
#[test]
fn inner_many_to_many_row_count() {
    // Left: 1,1,2,2,3 / right: 1,1,1,2 -> 2*3 + 2*1 = 8
    let got = run(&mut join1(
        vec![ints1(&[Some(1), Some(1), Some(2), Some(2), Some(3)])],
        vec![ints1(&[Some(1), Some(1), Some(1), Some(2)])],
        JoinKind::Inner,
    ));
    assert_eq!(got.rows.len(), 8);
    let ones = got.rows.iter().filter(|r| r[0].as_i64() == Some(1)).count();
    assert_eq!(ones, 6);
}

/// The chain must connect even when the right input is split across several batches.
#[test]
fn build_side_spanning_batches() {
    let got = run(&mut join1(
        vec![ints1(&[Some(1)])],
        vec![ints1(&[Some(1), Some(2)]), ints1(&[Some(1)]), ints1(&[Some(1), Some(3)])],
        JoinKind::Inner,
    ));
    assert_eq!(got.rows.len(), 3);
}

// --- OUTER --------------------------------------------------------------

#[test]
fn left_join_null_extends_unmatched_left_rows() {
    let got = run(&mut join1(
        vec![ints1(&[Some(1), Some(2), Some(3)])],
        vec![ints1(&[Some(2)])],
        JoinKind::Left,
    ));
    assert_eq!(
        norm(&got.rows),
        vec![vec![Some(1), None], vec![Some(2), Some(2)], vec![Some(3), None]]
    );
}

#[test]
fn right_join_null_extends_unmatched_build_rows() {
    let got = run(&mut join1(
        vec![ints1(&[Some(2)])],
        vec![ints1(&[Some(1), Some(2), Some(3)])],
        JoinKind::Right,
    ));
    assert_eq!(
        norm(&got.rows),
        vec![vec![None, Some(1)], vec![None, Some(3)], vec![Some(2), Some(2)]]
    );
}

#[test]
fn full_join_extends_both_sides() {
    let got = run(&mut join1(
        vec![ints1(&[Some(1), Some(2)])],
        vec![ints1(&[Some(2), Some(3)])],
        JoinKind::Full,
    ));
    assert_eq!(
        norm(&got.rows),
        vec![vec![None, Some(3)], vec![Some(1), None], vec![Some(2), Some(2)]]
    );
}

// --- NULL keys ----------------------------------------------------------

/// NULL does not match NULL either. Under OUTER it does appear as an unmatched row.
#[test]
fn null_keys_never_match_each_other() {
    let left = || vec![ints1(&[None, Some(1)])];
    let right = || vec![ints1(&[None, Some(1)])];

    let got = run(&mut join1(left(), right(), JoinKind::Inner));
    assert_eq!(norm(&got.rows), vec![vec![Some(1), Some(1)]], "NULLs got connected");

    let got = run(&mut join1(left(), right(), JoinKind::Left));
    assert_eq!(norm(&got.rows), vec![vec![None, None], vec![Some(1), Some(1)]]);
    // The row whose left is NULL should appear as "left only valid".
    let extended = got.rows.iter().filter(|r| r[0].is_null() && r[1].is_null()).count();
    assert_eq!(extended, 1);

    let got = run(&mut join1(left(), right(), JoinKind::Right));
    assert_eq!(norm(&got.rows), vec![vec![None, None], vec![Some(1), Some(1)]]);

    let got = run(&mut join1(left(), right(), JoinKind::Full));
    // The left NULL row and the right NULL row, one each, separately.
    assert_eq!(got.rows.len(), 3);
    assert_eq!(
        norm(&got.rows),
        vec![vec![None, None], vec![None, None], vec![Some(1), Some(1)]]
    );
}

/// A composite key. If one part is NULL it does not connect even when the other matches.
#[test]
fn multi_column_keys_with_one_null() {
    let left = vec![ready(vec![
        ints(&[Some(1), Some(1), Some(2)]),
        ints(&[Some(10), None, Some(20)]),
    ])];
    let right = vec![ready(vec![
        ints(&[Some(1), Some(1), Some(2)]),
        ints(&[Some(10), None, Some(99)]),
    ])];
    let ty = vec![Ty::Int, Ty::Int];
    let got = run(&mut join(left, right, JoinKind::Left, 2, ty.clone(), ty));
    assert_eq!(
        norm(&got.rows),
        vec![
            vec![Some(1), None, None, None], // (1, NULL) matches nothing
            vec![Some(1), Some(10), Some(1), Some(10)],
            vec![Some(2), Some(20), None, None], // the second column differs
        ]
    );
}

// --- Keys per type ------------------------------------------------------

#[test]
fn string_keys() {
    let left = vec![ready(vec![strs(&[Some("a"), Some("bc"), None])])];
    let right = vec![ready(vec![strs(&[Some("bc"), Some("a"), Some("a")])])];
    let mut j = join(left, right, JoinKind::Left, 1, vec![Ty::Varchar], vec![Ty::Varchar]);
    let got = run(&mut j);
    assert_eq!(
        text(&got.rows),
        vec![
            vec![None, None],
            vec![Some("a".into()), Some("a".into())],
            vec![Some("a".into()), Some("a".into())],
            vec![Some("bc".into()), Some("bc".into())],
        ]
    );
}

/// `encode_key` normalizes -0.0 and NaN, so both join.
#[test]
fn float_keys_canonicalise_zero_and_nan() {
    let left = vec![ready(vec![dbls(&[-0.0, f64::NAN, 1.5])])];
    let right = vec![ready(vec![dbls(&[0.0, f64::NAN])])];
    let mut j = join(left, right, JoinKind::Inner, 1, vec![Ty::Double], vec![Ty::Double]);
    let got = run(&mut j);
    assert_eq!(got.rows.len(), 2, "2 rows, from -0.0=0.0 and NaN=NaN");
    let z = got.rows.iter().find(|r| r[0].as_f64_bits().map(f64::from_bits) == Some(0.0)).unwrap();
    // The left is -0.0 and the right is 0.0. The bit patterns differ yet they join.
    assert_eq!(z[0].as_f64_bits().map(f64::from_bits).unwrap().to_bits(), (-0.0f64).to_bits());
    assert_eq!(z[1].as_f64_bits().map(f64::from_bits).unwrap().to_bits(), 0.0f64.to_bits());
    let n = got.rows.iter().find(|r| r[0].as_f64_bits().map(f64::from_bits).unwrap().is_nan()).unwrap();
    assert!(n[1].as_f64_bits().map(f64::from_bits).unwrap().is_nan());
}

// --- CROSS / non-equi ---------------------------------------------------

#[test]
fn cross_join_is_cartesian() {
    let mut j = HashJoin::new(
        Mock::script(vec![ints1(&[Some(1), Some(2)])]),
        Mock::script(vec![ints1(&[Some(10), Some(20), Some(30)])]),
        JoinKind::Cross,
        Vec::new(),
        Vec::new(),
        None,
        vec![Ty::Int],
        vec![Ty::Int],
    )
    .unwrap();
    let got = run(&mut j);
    assert_eq!(got.rows.len(), 6);
    assert_eq!(
        norm(&got.rows),
        vec![
            vec![Some(1), Some(10)],
            vec![Some(1), Some(20)],
            vec![Some(1), Some(30)],
            vec![Some(2), Some(10)],
            vec![Some(2), Some(20)],
            vec![Some(2), Some(30)],
        ]
    );
}

#[test]
fn cross_join_with_empty_side_is_empty() {
    let cross = |l: Vec<Step>, r: Vec<Step>| {
        HashJoin::new(
            Mock::script(l),
            Mock::script(r),
            JoinKind::Cross,
            Vec::new(),
            Vec::new(),
            None,
            vec![Ty::Int],
            vec![Ty::Int],
        )
        .unwrap()
    };
    assert!(run(&mut cross(vec![ints1(&[Some(1)])], Vec::new())).rows.is_empty());
    assert!(run(&mut cross(Vec::new(), vec![ints1(&[Some(1)])])).rows.is_empty());
}

/// A predicate that does not reduce to equality (`a < b`). It must fall to a nested loop.
#[test]
fn non_equi_join_falls_back_to_nested_loop() {
    let mut j = HashJoin::new(
        Mock::script(vec![ints1(&[Some(1), Some(5)])]),
        Mock::script(vec![ints1(&[Some(2), Some(9)])]),
        JoinKind::Inner,
        Vec::new(),
        Vec::new(),
        // Post-join schema: 0 = left, 1 = right
        Some(cmp_prog(0, 1, Ty::Int, OpCode::Lt)),
        vec![Ty::Int],
        vec![Ty::Int],
    )
    .unwrap();
    let got = run(&mut j);
    assert_eq!(
        norm(&got.rows),
        vec![vec![Some(1), Some(2)], vec![Some(1), Some(9)], vec![Some(5), Some(9)]]
    );
}

/// Non-equi + LEFT. A left row that passed with no build row is NULL-extended.
#[test]
fn non_equi_left_join_keeps_unmatched() {
    let mut j = HashJoin::new(
        Mock::script(vec![ints1(&[Some(1), Some(50)])]),
        Mock::script(vec![ints1(&[Some(2), Some(9)])]),
        JoinKind::Left,
        Vec::new(),
        Vec::new(),
        Some(cmp_prog(0, 1, Ty::Int, OpCode::Lt)),
        vec![Ty::Int],
        vec![Ty::Int],
    )
    .unwrap();
    let got = run(&mut j);
    assert_eq!(
        norm(&got.rows),
        vec![vec![Some(1), Some(2)], vec![Some(1), Some(9)], vec![Some(50), None]]
    );
}

// --- residual -----------------------------------------------------------

/// A pair whose keys matched but that residual rejected is "not matched". Under LEFT that
/// left row is NULL-extended and emitted (it must not be dropped).
#[test]
fn residual_failure_still_yields_null_extended_left_row() {
    // Left (key, v) / right (key, w), residual: left's v < right's w
    let left = vec![ready(vec![ints(&[Some(1), Some(2)]), ints(&[Some(100), Some(0)])])];
    let right = vec![ready(vec![ints(&[Some(1), Some(2)]), ints(&[Some(5), Some(5)])])];
    let ty = vec![Ty::Int, Ty::Int];
    let mut j = HashJoin::new(
        Mock::script(left),
        Mock::script(right),
        JoinKind::Left,
        vec![col_prog(0, Ty::Int)],
        vec![col_prog(0, Ty::Int)],
        // Post-join schema: 0=left key 1=left v 2=right key 3=right w
        Some(cmp_prog(1, 3, Ty::Int, OpCode::Lt)),
        ty.clone(),
        ty,
    )
    .unwrap();
    let got = run(&mut j);
    assert_eq!(
        norm(&got.rows),
        vec![
            vec![Some(1), Some(100), None, None], // 100 < 5 is false -> NULL extension
            vec![Some(2), Some(0), Some(2), Some(5)],
        ]
    );
}

/// FULL + residual. A rejected pair counts as unmatched on both sides.
#[test]
fn residual_failure_marks_both_sides_unmatched() {
    let left = vec![ready(vec![ints(&[Some(1)]), ints(&[Some(100)])])];
    let right = vec![ready(vec![ints(&[Some(1)]), ints(&[Some(5)])])];
    let ty = vec![Ty::Int, Ty::Int];
    let mut j = HashJoin::new(
        Mock::script(left),
        Mock::script(right),
        JoinKind::Full,
        vec![col_prog(0, Ty::Int)],
        vec![col_prog(0, Ty::Int)],
        Some(cmp_prog(1, 3, Ty::Int, OpCode::Lt)),
        ty.clone(),
        ty,
    )
    .unwrap();
    let got = run(&mut j);
    assert_eq!(
        norm(&got.rows),
        vec![vec![None, None, Some(1), Some(5)], vec![Some(1), Some(100), None, None]]
    );
}

// --- Batch boundaries ---------------------------------------------------

/// One left row produces more output than BATCH_SIZE. Without cutting mid-probe and resuming
/// from there, rows would be lost.
#[test]
fn one_probe_row_spans_multiple_batches() {
    let big: Vec<Option<i32>> = (0..BATCH_SIZE + 500).map(|_| Some(4)).collect();
    let got = run(&mut join1(
        vec![ints1(&[Some(4)])],
        vec![ready(vec![ints(&big)])],
        JoinKind::Inner,
    ));
    assert_eq!(got.rows.len(), BATCH_SIZE + 500);
    assert_eq!(got.batches, 2);
}

/// The unmatched-row drain fits into batches too.
#[test]
fn unmatched_drain_spans_multiple_batches() {
    let many: Vec<Option<i32>> = (0..BATCH_SIZE as i32 + 10).map(Some).collect();
    let got = run(&mut join1(
        vec![ready(vec![ints(&many)])],
        vec![ints1(&[Some(0)])],
        JoinKind::Left,
    ));
    assert_eq!(got.rows.len(), BATCH_SIZE + 10);

    let got = run(&mut join1(
        vec![ints1(&[Some(0)])],
        vec![ready(vec![ints(&many)])],
        JoinKind::Right,
    ));
    assert_eq!(got.rows.len(), BATCH_SIZE + 10);
    assert!(got.batches >= 2);
}

// --- Empty inputs -------------------------------------------------------

#[test]
fn empty_build_side_for_each_kind() {
    for (kind, expect) in
        [(JoinKind::Inner, 0), (JoinKind::Left, 2), (JoinKind::Right, 0), (JoinKind::Full, 2)]
    {
        let got = run(&mut join1(vec![ints1(&[Some(1), Some(2)])], Vec::new(), kind));
        assert_eq!(got.rows.len(), expect, "{kind:?}");
        for r in &got.rows {
            assert!(r[1].is_null(), "the right should be NULL-extended");
        }
    }
}

#[test]
fn empty_probe_side_for_each_kind() {
    for (kind, expect) in
        [(JoinKind::Inner, 0), (JoinKind::Left, 0), (JoinKind::Right, 2), (JoinKind::Full, 2)]
    {
        let got = run(&mut join1(Vec::new(), vec![ints1(&[Some(1), Some(2)])], kind));
        assert_eq!(got.rows.len(), expect, "{kind:?}");
        for r in &got.rows {
            assert!(r[0].is_null(), "the left should be NULL-extended");
        }
    }
}

#[test]
fn join_both_sides_empty() {
    for kind in [JoinKind::Inner, JoinKind::Left, JoinKind::Right, JoinKind::Full] {
        let mut j = join1(Vec::new(), Vec::new(), kind);
        assert!(run(&mut j).rows.is_empty(), "{kind:?}");
    }
}

// --- SEMI / ANTI --------------------------------------------------------

/// The output is the left schema only. Not a single right column is attached.
#[test]
fn semi_and_anti_emit_left_columns_only() {
    let left = || vec![ready(vec![ints(&[Some(1), Some(2)]), strs(&[Some("a"), Some("b")])])];
    let right = || vec![ready(vec![ints(&[Some(1)]), ints(&[Some(9)])])];
    let mk = |kind| {
        HashJoin::new(
            Mock::script(left()),
            Mock::script(right()),
            kind,
            vec![col_prog(0, Ty::Int)],
            vec![col_prog(0, Ty::Int)],
            None,
            vec![Ty::Int, Ty::Varchar],
            vec![Ty::Int, Ty::Int],
        )
        .unwrap()
    };
    let got = run(&mut mk(JoinKind::Semi));
    assert_eq!(got.rows.len(), 1);
    assert_eq!(got.rows[0].len(), 2, "just the left's 2 columns");
    assert_eq!(got.rows[0][0].as_i64(), Some(1));
    assert_eq!(got.rows[0][1].as_bytes(), Some(&b"a"[..]));

    let got = run(&mut mk(JoinKind::Anti));
    assert_eq!(got.rows.len(), 1);
    assert_eq!(got.rows[0].len(), 2);
    assert_eq!(got.rows[0][0].as_i64(), Some(2));
}

#[test]
fn semi_and_anti_with_no_match_and_one_match() {
    // Absent from the right / present exactly once.
    let l = || vec![ints1(&[Some(1), Some(2), Some(3)])];
    let r = || vec![ints1(&[Some(2)])];
    assert_eq!(norm(&run(&mut join1(l(), r(), JoinKind::Semi)).rows), vec![vec![Some(2)]]);
    assert_eq!(
        norm(&run(&mut join1(l(), r(), JoinKind::Anti)).rows),
        vec![vec![Some(1)], vec![Some(3)]]
    );

    // With an empty right side, SEMI gives 0 rows and ANTI gives every row.
    assert!(run(&mut join1(l(), Vec::new(), JoinKind::Semi)).rows.is_empty());
    assert_eq!(run(&mut join1(l(), Vec::new(), JoinKind::Anti)).rows.len(), 3);
    // With an empty left side, both give 0 rows.
    assert!(run(&mut join1(Vec::new(), r(), JoinKind::Semi)).rows.is_empty());
    assert!(run(&mut join1(Vec::new(), r(), JoinKind::Anti)).rows.is_empty());
}

/// However many matches there are, a left row appears **exactly once**.
#[test]
fn semi_emits_a_left_row_at_most_once_with_many_matches() {
    let many: Vec<Option<i32>> = (0..BATCH_SIZE + 500).map(|_| Some(7)).collect();
    let got = run(&mut join1(
        vec![ints1(&[Some(7), Some(7), Some(8)])],
        vec![ready(vec![ints(&many)])],
        JoinKind::Semi,
    ));
    assert_eq!(
        norm(&got.rows),
        vec![vec![Some(7)], vec![Some(7)]],
        "the 2 left rows once each"
    );
    assert_eq!(got.batches, 1);

    // The ANTI side, with the same input, gives "only the unmatched 8".
    let many: Vec<Option<i32>> = (0..BATCH_SIZE + 500).map(|_| Some(7)).collect();
    let got = run(&mut join1(
        vec![ints1(&[Some(7), Some(7), Some(8)])],
        vec![ready(vec![ints(&many)])],
        JoinKind::Anti,
    ));
    assert_eq!(norm(&got.rows), vec![vec![Some(8)]]);
}

/// Even when matched left rows exceed BATCH_SIZE, the drain is merely split.
#[test]
fn semi_drain_spans_multiple_batches() {
    let many: Vec<Option<i32>> = (0..BATCH_SIZE as i32 + 10).map(Some).collect();
    let got = run(&mut join1(
        vec![ready(vec![ints(&many)])],
        vec![ready(vec![ints(&many)])],
        JoinKind::Semi,
    ));
    assert_eq!(got.rows.len(), BATCH_SIZE + 10);
    assert!(got.batches >= 2);
}

/// A left row with a NULL key matches no build row. It disappears under SEMI and survives under ANTI.
/// `NOT IN`'s "return no rows if the right has a NULL" rule is the binder's responsibility
/// and is not here.
#[test]
fn null_keys_are_dropped_by_semi_and_kept_by_anti() {
    let l = || vec![ints1(&[None, Some(1), Some(2)])];
    let r = || vec![ints1(&[None, Some(1)])];
    assert_eq!(norm(&run(&mut join1(l(), r(), JoinKind::Semi)).rows), vec![vec![Some(1)]]);
    assert_eq!(
        norm(&run(&mut join1(l(), r(), JoinKind::Anti)).rows),
        vec![vec![None], vec![Some(2)]],
        "ANTI plainly returns the unmatched rows even with a NULL on the right"
    );
}

/// If residual rejects the only match, SEMI does not emit that left row and ANTI does.
#[test]
fn residual_that_kills_the_only_match_flips_semi_and_anti() {
    let mk = |kind| {
        // Left (key, v) / right (key, w), residual: left's v < right's w
        HashJoin::new(
            Mock::script(vec![ready(vec![
                ints(&[Some(1), Some(2)]),
                ints(&[Some(100), Some(0)]),
            ])]),
            Mock::script(vec![ready(vec![
                ints(&[Some(1), Some(2)]),
                ints(&[Some(5), Some(5)]),
            ])]),
            kind,
            vec![col_prog(0, Ty::Int)],
            vec![col_prog(0, Ty::Int)],
            // Post-join schema: 0=left key 1=left v 2=right key 3=right w
            Some(cmp_prog(1, 3, Ty::Int, OpCode::Lt)),
            vec![Ty::Int, Ty::Int],
            vec![Ty::Int, Ty::Int],
        )
        .unwrap()
    };
    // key=1 has no match since 100 < 5 is false; key=2 matches with 0 < 5.
    assert_eq!(
        norm(&run(&mut mk(JoinKind::Semi)).rows),
        vec![vec![Some(2), Some(0)]],
        "a left row rejected by residual disappears from SEMI"
    );
    assert_eq!(
        norm(&run(&mut mk(JoinKind::Anti)).rows),
        vec![vec![Some(1), Some(100)]],
        "the same row survives under ANTI"
    );
}

/// SEMI without equality keys (the rewrite target of a correlated EXISTS). The match bit is
/// set the same way with a nested loop plus residual.
#[test]
fn non_equi_semi_and_anti() {
    let mk = |kind| {
        HashJoin::new(
            Mock::script(vec![ints1(&[Some(1), Some(50)])]),
            Mock::script(vec![ints1(&[Some(2), Some(9)])]),
            kind,
            Vec::new(),
            Vec::new(),
            Some(cmp_prog(0, 1, Ty::Int, OpCode::Lt)),
            vec![Ty::Int],
            vec![Ty::Int],
        )
        .unwrap()
    };
    assert_eq!(norm(&run(&mut mk(JoinKind::Semi)).rows), vec![vec![Some(1)]]);
    assert_eq!(norm(&run(&mut mk(JoinKind::Anti)).rows), vec![vec![Some(50)]]);
}

/// Interruption passes straight through for SEMI / ANTI too, and the result matches the uninterrupted run.
#[test]
fn semi_and_anti_survive_need_io_and_need_codec() {
    let l = || vec![ints1(&[Some(1), Some(2)]), ints1(&[Some(3), Some(1)])];
    let r = || vec![ints1(&[Some(1), Some(3)]), ints1(&[Some(1), Some(9)])];
    for kind in [JoinKind::Semi, JoinKind::Anti] {
        let clean = run(&mut join1(l(), r(), kind));
        let noisy = run(&mut join1(
            vec![
                Step::NeedIo,
                ints1(&[Some(1), Some(2)]),
                Step::NeedCodec,
                ints1(&[Some(3), Some(1)]),
                Step::NeedIo,
            ],
            vec![
                ints1(&[Some(1), Some(3)]),
                Step::NeedCodec,
                Step::NeedIo,
                ints1(&[Some(1), Some(9)]),
            ],
            kind,
        ));
        assert!(noisy.interrupts >= 5, "the interruptions were not passed through");
        assert_eq!(norm(&noisy.rows), norm(&clean.rows), "{kind:?}");
    }
    // The contents too. Left 1,2,3,1 against right 1,3,1,9.
    assert_eq!(
        norm(&run(&mut join1(l(), r(), JoinKind::Semi)).rows),
        vec![vec![Some(1)], vec![Some(1)], vec![Some(3)]]
    );
    assert_eq!(norm(&run(&mut join1(l(), r(), JoinKind::Anti)).rows), vec![vec![Some(2)]]);
}

// --- ANTI NULL AWARE (`NOT IN (SELECT ...)`) ----------------------------
//
// Every expectation was confirmed with DuckDB:
//   NULL NOT IN (empty)      -> true    (the row survives)
//   x    NOT IN (empty)      -> true
//   NULL NOT IN (non-empty)  -> UNKNOWN (the row disappears)
//   x    NOT IN (...NULL...) -> UNKNOWN (every row disappears)

/// With a NULL among the right keys, the result is empty even with unmatched left rows.
#[test]
fn null_aware_anti_is_empty_when_build_side_has_a_null_key() {
    let got = run(&mut join1(
        vec![ints1(&[Some(1), Some(2), Some(3)])],
        vec![ints1(&[Some(1), None])],
        JoinKind::AntiNullAware,
    ));
    assert!(
        got.rows.is_empty(),
        "2 and 3 do not match but are UNKNOWN, so they are not emitted"
    );
    // Plain ANTI returns 2 rows for the same input (the difference shows here).
    let plain = run(&mut join1(
        vec![ints1(&[Some(1), Some(2), Some(3)])],
        vec![ints1(&[Some(1), None])],
        JoinKind::Anti,
    ));
    assert_eq!(norm(&plain.rows), vec![vec![Some(2)], vec![Some(3)]]);
}

/// With no NULL on the right it behaves like plain ANTI.
#[test]
fn null_aware_anti_matches_plain_anti_without_nulls() {
    let l = || vec![ints1(&[Some(1), Some(2)]), ints1(&[Some(3), Some(1)])];
    let r = || vec![ints1(&[Some(1), Some(9)])];
    let plain = run(&mut join1(l(), r(), JoinKind::Anti));
    let aware = run(&mut join1(l(), r(), JoinKind::AntiNullAware));
    assert_eq!(norm(&aware.rows), norm(&plain.rows));
    assert_eq!(norm(&aware.rows), vec![vec![Some(2)], vec![Some(3)]]);
}

/// A left row with a NULL key drops unless the right side is empty.
#[test]
fn null_aware_anti_drops_left_rows_with_null_keys() {
    let got = run(&mut join1(
        vec![ints1(&[None, Some(2), Some(1)])],
        vec![ints1(&[Some(1)])],
        JoinKind::AntiNullAware,
    ));
    assert_eq!(norm(&got.rows), vec![vec![Some(2)]], "the NULL left row is UNKNOWN");
    // Plain ANTI keeps the NULL left row.
    let plain = run(&mut join1(
        vec![ints1(&[None, Some(2), Some(1)])],
        vec![ints1(&[Some(1)])],
        JoinKind::Anti,
    ));
    assert_eq!(norm(&plain.rows), vec![vec![None], vec![Some(2)]]);
}

/// With an empty right side, `NOT IN ()` is always true. Every row is returned, including the left NULL row.
#[test]
fn null_aware_anti_with_empty_build_side_emits_every_left_row() {
    let got =
        run(&mut join1(vec![ints1(&[None, Some(2)])], Vec::new(), JoinKind::AntiNullAware));
    assert_eq!(norm(&got.rows), vec![vec![None], vec![Some(2)]]);
    // "The right is empty" also covers the case where only 0-row batches arrive.
    let got = run(&mut join1(
        vec![ints1(&[None, Some(2)])],
        vec![ints1(&[])],
        JoinKind::AntiNullAware,
    ));
    assert_eq!(got.rows.len(), 2);
}

/// With a composite key, a NULL in either column still counts as "the key contains a NULL".
#[test]
fn null_aware_anti_looks_at_every_key_column() {
    let left = vec![ready(vec![ints(&[Some(1), Some(2)]), ints(&[Some(10), Some(20)])])];
    let right = vec![ready(vec![ints(&[Some(9)]), ints(&[None])])];
    let ty = vec![Ty::Int, Ty::Int];
    let got = run(&mut join(left, right, JoinKind::AntiNullAware, 2, ty.clone(), ty));
    assert!(got.rows.is_empty(), "empty, since the right keys contain a NULL");
}

/// Short-circuiting still reaches `Done` (it does not hang). Not a single left row is pulled.
#[test]
fn null_aware_anti_short_circuit_terminates_without_reading_the_left() {
    let mut j = HashJoin::new(
        // The script is padded with Ready so that pulling the left would be noticeable.
        Mock::script(vec![ints1(&[Some(1)]), ints1(&[Some(2)])]),
        Mock::script(vec![ints1(&[None])]),
        JoinKind::AntiNullAware,
        vec![col_prog(0, Ty::Int)],
        vec![col_prog(0, Ty::Int)],
        None,
        vec![Ty::Int],
        vec![Ty::Int],
    )
    .unwrap();
    for _ in 0..3 {
        let mut ctx =
            ExecContext::new(Catalog::new());
        assert!(matches!(j.next(&mut ctx).unwrap(), Step::Done));
    }
}

/// The decision does not change with an interruption interposed.
#[test]
fn null_aware_anti_survives_interrupts() {
    let l = || vec![ints1(&[Some(1), Some(2)]), ints1(&[None, Some(3)])];
    let r = || vec![ints1(&[Some(1)]), ints1(&[Some(9)])];
    let clean = run(&mut join1(l(), r(), JoinKind::AntiNullAware));
    let noisy = run(&mut join1(
        vec![
            Step::NeedIo,
            ints1(&[Some(1), Some(2)]),
            Step::NeedCodec,
            ints1(&[None, Some(3)]),
        ],
        vec![ints1(&[Some(1)]), Step::NeedCodec, Step::NeedIo, ints1(&[Some(9)])],
        JoinKind::AntiNullAware,
    ));
    assert!(noisy.interrupts >= 4);
    assert_eq!(norm(&noisy.rows), norm(&clean.rows));
    assert_eq!(norm(&clean.rows), vec![vec![Some(2)], vec![Some(3)]]);

    // It must short-circuit when the right's NULL arrives in the second batch too.
    let got = run(&mut join1(
        vec![Step::NeedIo, ints1(&[Some(2)])],
        vec![ints1(&[Some(1)]), Step::NeedIo, ints1(&[None])],
        JoinKind::AntiNullAware,
    ));
    assert!(got.rows.is_empty());
}

/// If residual rejects the only match, the left row survives under NULL-aware ANTI as well.
#[test]
fn null_aware_anti_respects_the_residual() {
    let mut j = HashJoin::new(
        Mock::script(vec![ready(vec![ints(&[Some(1)]), ints(&[Some(100)])])]),
        Mock::script(vec![ready(vec![ints(&[Some(1)]), ints(&[Some(5)])])]),
        JoinKind::AntiNullAware,
        vec![col_prog(0, Ty::Int)],
        vec![col_prog(0, Ty::Int)],
        Some(cmp_prog(1, 3, Ty::Int, OpCode::Lt)),
        vec![Ty::Int, Ty::Int],
        vec![Ty::Int, Ty::Int],
    )
    .unwrap();
    let got = run(&mut j);
    assert_eq!(norm(&got.rows), vec![vec![Some(1), Some(100)]]);
}

#[test]
fn mismatched_key_counts_are_rejected() {
    let e = HashJoin::new(
        Mock::empty(),
        Mock::empty(),
        JoinKind::Inner,
        vec![col_prog(0, Ty::Int)],
        Vec::new(),
        None,
        vec![Ty::Int],
        vec![Ty::Int],
    );
    assert_eq!(code_of(e.map(|_| ())), Some(Code::Internal));
}

// --- After a failure ----------------------------------------------------

/// A right batch that is too large stays counted, so that the next one is refused as well.
#[test]
fn a_build_side_that_is_full_stays_full() {
    let mut b = BuildSide::new(&vec![Ty::Int], false);
    let keys = vec![col_prog(0, Ty::Int)];
    let vm = Vm::new();
    b.absorb(&keys, &vm, Batch::new(vec![ints(&[Some(1)])])).unwrap();
    b.bytes = MAX_BUILD_BYTES;
    assert_eq!(code_of(b.absorb(&keys, &vm, Batch::new(vec![ints(&[Some(2), Some(3)])]))), Some(Code::Oom));
    assert!(b.bytes > MAX_BUILD_BYTES);
    assert_eq!((b.rows, b.counted), (3, 3));
    assert_eq!(code_of(b.absorb(&keys, &vm, Batch::new(vec![ints(&[Some(4)])]))), Some(Code::Oom));
    assert_eq!((b.rows, b.counted), (4, 4));
}

/// Rows that cannot be numbered stay counted, too.
#[test]
fn a_build_side_counts_the_rows_that_it_cannot_hold() {
    let mut b = BuildSide::new(&vec![Ty::Int], true);
    let vm = Vm::new();
    b.counted = u32::MAX as usize;
    assert_eq!(code_of(b.absorb(&Vec::new(), &vm, Batch::new(vec![ints(&[Some(2)])]))), Some(Code::Oom));
    assert_eq!((b.rows, b.counted), (0, u32::MAX as usize + 1));
    assert_eq!(code_of(b.absorb(&Vec::new(), &vm, Batch::new(vec![ints(&[Some(2)])]))), Some(Code::Oom));
}

/// The pairs on which the residual predicate failed are not tried again.
#[test]
fn a_failing_residual_is_passed_by() {
    let mut j = HashJoin::new(
        Mock::script(vec![ints1(&[Some(1)])]),
        Mock::script(vec![ints1(&[Some(1)])]),
        JoinKind::Left,
        vec![col_prog(0, Ty::Int)],
        vec![col_prog(0, Ty::Int)],
        // There is no such column.
        Some(col_prog(9, Ty::Boolean)),
        vec![Ty::Int],
        vec![Ty::Int],
    )
    .unwrap();
    let mut ctx = ExecContext::new(Catalog::new());
    assert!(j.next(&mut ctx).is_err());
    let got = run(&mut j);
    assert_eq!(norm(&got.rows), vec![vec![Some(1), None]]);
}
