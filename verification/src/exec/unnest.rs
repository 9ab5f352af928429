//! `UNNEST`: a row per element of an array.
//!
//! Each input row is repeated for every element of its array, a JSON document. An array
//! longer than a batch is returned in several, so the position in it is kept.

use crate::catalog::MemTable;
use crate::error::{Code, Error};
use crate::exec::looks::{lemma_no_look, looked_on};
use crate::exec::meaning::{all_taken, gave, lemma_begins, lemma_taken_push, stops, stuck, supplied, Why};
use crate::exec::sort::types_of;
use crate::exec::{
    answers, chunk, flat, fresh_trace, grown_trace, lemma_flat_push, lemma_wider_portion, lost_trace, portion, wider_portion, Chunk, Trace, Child, ExecContext, Look,
    Operator, Said, Step,
};
use crate::expr::{program_value, Program, ProgramV, Vm};
use crate::hash::copy_bytes;
use crate::json::{
    array_elements, at, decode_string, decoded_from, elements_of, number_value, parse_f64, parse_i64,
    whole_value, Elem, Kind, MAX_NUMBER,
};
use crate::plan::NodeV;
use crate::vector::{
    cols_wf, gather_columns, row_at, Batch, PhysType, Ty, Val, Value, Vector, BATCH_SIZE, MAX_ROWS,
};
use vstd::prelude::*;

verus! {

// --- Elements -----------------------------------------------------------------------------

/// The text between the quotes of a string.
pub open spec fn unquoted(span: Seq<u8>) -> Seq<u8> {
    if span.len() >= 2 {
        span.subrange(1, span.len() - 1)
    } else {
        Seq::empty()
    }
}

/// An element as a value of a type. JSON's `null`, and an element of another kind than the
/// type calls for, are NULL; a type that calls for none takes the text as it is.
pub open spec fn elem_value(ty: Ty, span: Seq<u8>, kind: Kind) -> Result<Val, Code> {
    if kind == Kind::Null {
        Ok(Val::Null)
    } else {
        match ty {
            Ty::BigInt => match whole_value(span) {
                Some(v) => if kind == Kind::Num && i64::MIN <= v <= i64::MAX {
                    Ok(Val::I64(v as i64))
                } else {
                    Ok(Val::Null)
                },
                None => Ok(Val::Null),
            },
            Ty::Double => if kind == Kind::Num && span.len() <= MAX_NUMBER {
                Ok(Val::F64(number_value(span)))
            } else {
                Ok(Val::Null)
            },
            Ty::Varchar => if kind == Kind::Str {
                match decoded_from(unquoted(span), 0, Seq::empty()) {
                    Ok(s) => Ok(Val::Bytes(s)),
                    Err(e) => Err(e),
                }
            } else {
                Ok(Val::Null)
            },
            Ty::Boolean => if kind == Kind::Bool {
                Ok(Val::Bool(at(span, 0) == 116))
            } else {
                Ok(Val::Null)
            },
            _ => if ty.phys() == PhysType::Bytes {
                Ok(Val::Bytes(span))
            } else {
                Ok(Val::Null)
            },
        }
    }
}

/// Reads an element.
pub fn read_elem(ty: Ty, span: &[u8], kind: Kind) -> (r: Result<Value, Error>)
    ensures
        match r {
            Ok(v) => elem_value(ty, span@, kind) == Ok::<Val, Code>(v@) && v@.fits(ty.phys()),
            Err(e) => elem_value(ty, span@, kind) == Err::<Val, Code>(e.code),
        },
{
    if kind == Kind::Null {
        return Ok(Value::Null);
    }
    match ty {
        Ty::BigInt => {
            if kind != Kind::Num {
                return Ok(Value::Null);
            }
            match parse_i64(span) {
                Some(v) => Ok(Value::I64(v)),
                None => Ok(Value::Null),
            }
        },
        Ty::Double => {
            if kind != Kind::Num {
                return Ok(Value::Null);
            }
            match parse_f64(span) {
                Some(v) => Ok(Value::F64(v)),
                None => Ok(Value::Null),
            }
        },
        Ty::Varchar => {
            if kind != Kind::Str {
                return Ok(Value::Null);
            }
            let n: usize = span.len();
            let body: &[u8] = if n >= 2 {
                vstd::slice::slice_subrange(span, 1, n - 1)
            } else {
                vstd::slice::slice_subrange(span, 0, 0)
            };
            assert(body@ =~= unquoted(span@));
            match decode_string(body) {
                Ok(s) => Ok(Value::Bytes(s)),
                Err(e) => Err(e),
            }
        },
        Ty::Boolean => {
            if kind != Kind::Bool {
                return Ok(Value::Null);
            }
            Ok(Value::Bool(span.len() > 0 && span[0] == 116))
        },
        _ => {
            if ty.phys() == PhysType::Bytes {
                Ok(Value::Bytes(copy_bytes(span)))
            } else {
                Ok(Value::Null)
            }
        },
    }
}

// --- Positions ----------------------------------------------------------------------------

/// The elements of an array. NULL, and a document that is no array, have none.
pub open spec fn elems_of(v: Val) -> Result<Seq<Elem>, Code> {
    match v {
        Val::Bytes(s) => match elements_of(s) {
            Err(e) => Err(e),
            Ok(Some(v)) => Ok(v),
            Ok(None) => Ok(Seq::empty()),
        },
        _ => Ok(Seq::empty()),
    }
}

pub open spec fn doc_of(v: Val) -> Seq<u8> {
    match v {
        Val::Bytes(s) => s,
        _ => Seq::empty(),
    }
}

/// An output row: the input row it repeats, and the element.
pub type Pair = (int, Val);

/// The next `n` output rows from element `p` of row `r` on, behind those found before, and
/// the position after them.
pub open spec fn unnested(ty: Ty, arr: Seq<Val>, r: int, p: int, n: nat, found: Seq<Pair>) -> Result<
    (Seq<Pair>, int, int),
    Code,
>
    decreases arr.len() - r, n,
{
    if n == 0 || r < 0 || r >= arr.len() {
        Ok((found, r, p))
    } else {
        match elems_of(arr[r]) {
            Err(e) => Err(e),
            Ok(es) => if p < 0 || p >= es.len() {
                unnested(ty, arr, r + 1, 0, n, found)
            } else {
                match elem_value(ty, doc_of(arr[r]).subrange(es[p].start as int, es[p].end as int), es[p].kind) {
                    Err(e) => Err(e),
                    Ok(v) => unnested(ty, arr, r, p + 1, (n - 1) as nat, found.push((r, v))),
                }
            },
        }
    }
}

/// The element, by its row and its number, that cannot be read, where [`unnested`] fails.
pub open spec fn failing(ty: Ty, arr: Seq<Val>, r: int, p: int, n: nat) -> (int, int)
    decreases arr.len() - r, n,
{
    if n == 0 || r < 0 || r >= arr.len() {
        (r, p)
    } else {
        match elems_of(arr[r]) {
            Err(_) => (r, p),
            Ok(es) => if p < 0 || p >= es.len() {
                failing(ty, arr, r + 1, 0, n)
            } else {
                match elem_value(ty, doc_of(arr[r]).subrange(es[p].start as int, es[p].end as int), es[p].kind) {
                    Err(_) => (r, p),
                    Ok(_) => failing(ty, arr, r, p + 1, (n - 1) as nat),
                }
            },
        }
    }
}

/// What could not be unnested cannot be unnested later, either: it fails in the same way from the element on
/// that cannot be read.
pub proof fn unnesting_fails_again(ty: Ty, arr: Seq<Val>, r: int, p: int, n: nat, found: Seq<Pair>, m: nat)
    requires
        unnested(ty, arr, r, p, n, found) is Err,
        m > 0,
    ensures
        ({
            let (row, pos) = failing(ty, arr, r, p, n);
            unnested(ty, arr, row, pos, m, Seq::empty()) == unnested(ty, arr, r, p, n, found)
        }),
    decreases arr.len() - r, n,
{
    if n > 0 && r >= 0 && r < arr.len() {
        if let Ok(es) = elems_of(arr[r]) {
            if p < 0 || p >= es.len() {
                unnesting_fails_again(ty, arr, r + 1, 0, n, found, m);
            } else if let Ok(v) = elem_value(ty, doc_of(arr[r]).subrange(es[p].start as int, es[p].end as int), es[p].kind) {
                unnesting_fails_again(ty, arr, r, p + 1, (n - 1) as nat, found.push((r, v)), m);
            }
        }
    }
}

/// A batch being unnested.
pub struct Cur {
    pub cols: Vec<Vector>,
    /// The arrays.
    pub arr: Vector,
    pub rows: usize,
    /// The next row.
    pub row: usize,
    /// The next element in that row.
    pub elem_pos: usize,
}

impl Cur {
    pub open spec fn wf(&self) -> bool {
        &&& cols_wf(self.cols@, self.rows as int)
        &&& self.arr.wf()
        &&& self.arr@.len() == self.rows
        &&& self.arr.ty() == Ty::Json
        &&& self.rows <= MAX_ROWS
        &&& self.row <= self.rows
    }
}

/// The rows that pairs stand for.
pub open spec fn pair_rows(cols: Seq<Vector>, pairs: Seq<Pair>) -> Seq<Seq<Val>> {
    Seq::new(pairs.len(), |i: int| row_at(cols, pairs[i].0).push(pairs[i].1))
}

pub struct Unnest {
    pub input: Child,
    /// The expression that gives the arrays.
    pub expr: Program,
    /// The type of the elements.
    pub elem_ty: Ty,
    /// The batch being unnested.
    pub cur: Option<Cur>,
    pub trace: Ghost<Trace>,
}

/// All output rows from element `p` of row `r` on, up to the first that has no value.
pub open spec fn pairs_from(ty: Ty, arr: Seq<Val>, r: int, p: int) -> Seq<Pair>
    decreases
            arr.len() - r,
            (match elems_of(arr[r]) {
                Ok(es) => es.len() as int,
                Err(_) => 0,
            }) - p,
{
    if r < 0 || r >= arr.len() {
        Seq::empty()
    } else {
        match elems_of(arr[r]) {
            Err(_) => Seq::empty(),
            Ok(es) => if p < 0 || p >= es.len() {
                pairs_from(ty, arr, r + 1, 0)
            } else {
                match elem_value(ty, doc_of(arr[r]).subrange(es[p].start as int, es[p].end as int), es[p].kind) {
                    Err(_) => Seq::empty(),
                    Ok(v) => seq![(r, v)] + pairs_from(ty, arr, r, p + 1),
                }
            },
        }
    }
}

proof fn lemma_pairs_split(ty: Ty, arr: Seq<Val>, r: int, p: int, n: nat, found: Seq<Pair>)
    ensures
        unnested(ty, arr, r, p, n, found) matches Ok((pairs, row, pos)) ==> {
            &&& found + pairs_from(ty, arr, r, p) == pairs + pairs_from(ty, arr, row, pos)
            &&& pairs.len() <= found.len() + n
            &&& pairs.len() < found.len() + n ==> pairs_from(ty, arr, row, pos).len() == 0
        },
    decreases arr.len() - r, n,
{
    if n == 0 || r < 0 || r >= arr.len() {
    } else {
        match elems_of(arr[r]) {
            Err(_) => {},
            Ok(es) => {
                if p < 0 || p >= es.len() {
                    lemma_pairs_split(ty, arr, r + 1, 0, n, found);
                } else {
                    match elem_value(ty, doc_of(arr[r]).subrange(es[p].start as int, es[p].end as int), es[p].kind) {
                        Err(_) => {},
                        Ok(v) => {
                            lemma_pairs_split(ty, arr, r, p + 1, (n - 1) as nat, found.push((r, v)));
                            assert(found + pairs_from(ty, arr, r, p) =~= found.push((r, v)) + pairs_from(
                                ty,
                                arr,
                                r,
                                p + 1,
                            ));
                        },
                    }
                }
            },
        }
    }
}

/// The rows that pairs stand for, given the rows that are repeated.
pub open spec fn paired(rows: Seq<Seq<Val>>, pairs: Seq<Pair>) -> Seq<Seq<Val>> {
    Seq::new(pairs.len(), |i: int| rows[pairs[i].0].push(pairs[i].1))
}

/// The arrays of a batch.
pub open spec fn arrays_of(expr: ProgramV, c: Chunk) -> Seq<Val> {
    program_value(expr, c.types, c.rows)->Ok_0.cells
}

/// What the rows of batches are unnested to.
pub open spec fn unnested_rows(expr: ProgramV, ty: Ty, xs: Seq<Chunk>) -> Seq<Seq<Val>>
    decreases xs.len(),
{
    if xs.len() == 0 {
        Seq::empty()
    } else {
        unnested_rows(expr, ty, xs.drop_last()) + paired(
            xs.last().rows,
            pairs_from(ty, arrays_of(expr, xs.last()), 0, 0),
        )
    }
}

/// Pairs of a row's number and an element, held apart.
spec fn paired_up(pairs: Seq<Pair>, nums: Seq<u32>, vals: Seq<Val>, rows: int) -> bool {
    &&& nums.len() == pairs.len()
    &&& vals.len() == pairs.len()
    &&& forall|i: int|
        0 <= i < pairs.len() ==> (#[trigger] pairs[i]).0 == nums[i] && nums[i] < rows && pairs[i].1 == vals[i]
}

proof fn lemma_paired_push(pairs: Seq<Pair>, nums: Seq<u32>, vals: Seq<Val>, rows: int, num: u32, val: Val)
    requires
        paired_up(pairs, nums, vals, rows),
        num < rows,
    ensures
        paired_up(pairs.push((num as int, val)), nums.push(num), vals.push(val), rows),
{
    let now = pairs.push((num as int, val));
    assert forall|i: int| 0 <= i < now.len() implies (#[trigger] now[i]).0 == nums.push(num)[i] && nums.push(num)[i] < rows
        && now[i].1 == vals.push(val)[i] by {
        if i < pairs.len() {
            assert(now[i] == pairs[i]);
        }
    }
}

impl Unnest {
    pub open spec fn inv(&self) -> bool {
        self.cur matches Some(c) ==> c.wf()
    }

    pub open spec fn same_query(&self, other: Unnest) -> bool {
        &&& self.input == other.input
        &&& self.expr == other.expr
        &&& self.elem_ty == other.elem_ty
        &&& self.trace == other.trace
    }

    pub fn new(input: Child, expr: Program, elem_ty: Ty) -> (u: Unnest)
        requires
            input.op.wf(),
        ensures
            u.wf(),
            u.input == input,
            u.expr == expr,
            u.elem_ty == elem_ty,
            u.cur is None,
            u.trace@ == fresh_trace(input.op.returned()),
    {
        let u = Unnest { input, expr, elem_ty, cur: None, trace: Ghost(fresh_trace(input.op.returned())) };
        assert(u.input == input);
        u
    }

    /// Begins with a batch.
    pub fn begin(&mut self, vm: &Vm, batch: Batch) -> (r: Result<(), Error>)
        requires
            old(self).inv(),
            old(self).cur is None,
            batch.wf(),
        ensures
            final(self).inv(),
            final(self).same_query(*old(self)),
            match program_value(old(self).expr@, batch.types(), batch.rows()) {
                Err(c) => (r matches Err(e) && e.code == c) && *final(self) == *old(self),
                Ok(v) => if v.ty != Ty::Json {
                    (r matches Err(e) && e.code == Code::TypeMismatch) && *final(self) == *old(self)
                } else {
                    &&& r is Ok
                    &&& final(self).cur matches Some(c) && {
                        &&& Seq::new(c.rows as nat, |i: int| row_at(c.cols@, i)) == batch.rows()
                        &&& types_of(c.cols@) == batch.types()
                        &&& c.arr@ == v.cells
                        &&& c.row == 0
                        &&& c.elem_pos == 0
                    }
                },
            },
    {
        let mut flat = batch;
        flat.materialize();
        let arr = match vm.eval(&self.expr, &flat) {
            Ok(v) => v,
            Err(e) => {
                return Err(e);
            },
        };
        if arr.ty() != Ty::Json {
            return Err(Error::new(Code::TypeMismatch));
        }
        let rows: usize = flat.card();
        proof {
            assert(Seq::new(rows as nat, |i: int| row_at(flat.cols@, i)) =~= flat.rows());
            assert(types_of(flat.cols@) =~= batch.types());
        }
        self.cur = Some(Cur { cols: flat.cols, arr, rows, row: 0, elem_pos: 0 });
        Ok(())
    }

    /// The next output rows of the batch, at most a batch of them; `None` once there are no
    /// more. An element that cannot be read is the next one to be read.
    pub fn expand(&mut self) -> (r: Result<Option<Batch>, Error>)
        requires
            old(self).inv(),
            old(self).cur is Some,
        ensures
            final(self).inv(),
            final(self).same_query(*old(self)),
            ({
                let c = old(self).cur->0;
                match unnested(
                    old(self).elem_ty,
                    c.arr@,
                    c.row as int,
                    c.elem_pos as int,
                    BATCH_SIZE as nat,
                    Seq::empty(),
                ) {
                    Err(code) => {
                        &&& r matches Err(e) && e.code == code
                        &&& final(self).cur matches Some(d) && {
                            &&& d.cols == c.cols
                            &&& d.arr == c.arr
                            &&& d.rows == c.rows
                            &&& (d.row as int, d.elem_pos as int) == failing(
                                old(self).elem_ty,
                                c.arr@,
                                c.row as int,
                                c.elem_pos as int,
                                BATCH_SIZE as nat,
                            )
                        }
                    },
                    Ok((pairs, row, pos)) => match r {
                        Ok(Some(b)) => {
                            &&& pairs.len() > 0
                            &&& b.wf()
                            &&& b.types() == types_of(c.cols@).push(old(self).elem_ty)
                            &&& b.rows() == pair_rows(c.cols@, pairs)
                            &&& final(self).cur matches Some(d) && {
                                &&& d.cols == c.cols
                                &&& d.arr == c.arr
                                &&& d.rows == c.rows
                                &&& d.row == row
                                &&& d.elem_pos == pos
                            }
                        },
                        Ok(None) => pairs.len() == 0 && final(self).cur is None,
                        Err(_) => false,
                    },
                }
            }),
    {
        let mut taken: Option<Cur> = None;
        std::mem::swap(&mut taken, &mut self.cur);
        let mut cur: Cur = match taken {
            Some(c) => c,
            None => {
                return Ok(None);
            },
        };
        let ty: Ty = self.elem_ty;
        let rows: usize = cur.rows;
        let ghost arr = cur.arr@;
        let ghost r0 = cur.row as int;
        let ghost p0 = cur.elem_pos as int;
        let ghost cols0 = cur.cols;
        let ghost arr0 = cur.arr;
        let mut out = Vector::with_capacity(ty, BATCH_SIZE);
        let mut dup: Vec<u32> = Vec::new();
        let ghost mut pairs: Seq<Pair> = Seq::empty();
        let ghost want = unnested(ty, arr, r0, p0, BATCH_SIZE as nat, Seq::empty());
        let ghost stop = failing(ty, arr, r0, p0, BATCH_SIZE as nat);
        while cur.row < rows && out.len() < BATCH_SIZE
            invariant
                self.cur is None,
                self.same_query(*old(self)),
                cur.wf(),
                cur.cols == cols0,
                cur.arr == arr0,
                cur.rows == rows,
                arr == arr0@,
                ty == self.elem_ty,
                out.wf(),
                out.ty() == ty,
                out@.len() == pairs.len() == dup@.len(),
                pairs.len() <= BATCH_SIZE,
                paired_up(pairs, dup@, out@, rows as int),
                want == unnested(ty, arr, cur.row as int, cur.elem_pos as int, (BATCH_SIZE - pairs.len()) as nat, pairs),
                stop == failing(ty, arr, cur.row as int, cur.elem_pos as int, (BATCH_SIZE - pairs.len()) as nat),
                old(self).cur matches Some(c) && c.cols == cols0 && c.arr == arr0 && c.rows == rows && want == unnested(
                    ty,
                    c.arr@,
                    c.row as int,
                    c.elem_pos as int,
                    BATCH_SIZE as nat,
                    Seq::empty(),
                ) && stop == failing(ty, c.arr@, c.row as int, c.elem_pos as int, BATCH_SIZE as nat),
            decreases rows - cur.row, BATCH_SIZE - out@.len(),
        {
            let row: usize = cur.row;
            let ghost es = elems_of(arr[row as int]);
            assert(arr[row as int].fits(PhysType::Bytes));
            let doc: &Vec<u8> = match cur.arr.cell(row) {
                Value::Bytes(b) => b,
                _ => {
                    cur.row = row + 1;
                    cur.elem_pos = 0;
                    continue;
                },
            };
            let found = match array_elements(doc.as_slice()) {
                Err(e) => {
                    self.cur = Some(cur);
                    return Err(e);
                },
                Ok(f) => f,
            };
            let list: Vec<Elem> = match found {
                Some(v) => v,
                None => {
                    let v: Vec<Elem> = Vec::new();
                    assert(v@ =~= Seq::empty());
                    v
                },
            };
            assert(es == Ok::<Seq<Elem>, Code>(list@));
            let total: usize = list.len();
            let mut pos: usize = cur.elem_pos;
            while pos < total && out.len() < BATCH_SIZE
                invariant
                    row < rows <= MAX_ROWS,
                    arr.len() == rows,
                    ty == self.elem_ty,
                    total == list@.len(),
                    arr[row as int] == Val::Bytes(doc@),
                    elems_of(arr[row as int]) == Ok::<Seq<Elem>, Code>(list@),
                    forall|k: int| 0 <= k < list@.len() ==> (#[trigger] list@[k]).start < list@[k].end <= doc@.len(),
                    out.wf(),
                    out.ty() == ty,
                    out@.len() == pairs.len() == dup@.len(),
                    pairs.len() <= BATCH_SIZE,
                    paired_up(pairs, dup@, out@, rows as int),
                    want == unnested(ty, arr, row as int, pos as int, (BATCH_SIZE - pairs.len()) as nat, pairs),
                    stop == failing(ty, arr, row as int, pos as int, (BATCH_SIZE - pairs.len()) as nat),
                    old(self).cur matches Some(c) && c.cols == cols0 && c.arr == arr0 && c.rows == rows && want
                        == unnested(
                        ty,
                        c.arr@,
                        c.row as int,
                        c.elem_pos as int,
                        BATCH_SIZE as nat,
                        Seq::empty(),
                    ) && stop == failing(ty, c.arr@, c.row as int, c.elem_pos as int, BATCH_SIZE as nat),
                    cur.wf(),
                    cur.cols == cols0,
                    cur.arr == arr0,
                    cur.rows == rows,
                    cur.row == row,
                    arr == arr0@,
                    self.cur is None,
                    self.same_query(*old(self)),
                decreases total - pos,
            {
                let e: Elem = list[pos];
                assert(list@[pos as int].end <= doc@.len());
                let span: &[u8] = vstd::slice::slice_subrange(doc.as_slice(), e.start, e.end);
                match read_elem(ty, span, e.kind) {
                    Err(x) => {
                        cur.elem_pos = pos;
                        self.cur = Some(cur);
                        return Err(x);
                    },
                    Ok(v) => {
                        let ghost before = pairs;
                        let ghost was = (dup@, out@);
                        proof {
                            pairs = pairs.push((row as int, v@));
                        }
                        out.push_owned(v);
                        dup.push(row as u32);
                        pos = pos + 1;
                        proof {
                            lemma_paired_push(before, was.0, was.1, rows as int, row as u32, v@);
                        }
                    },
                }
            }
            if pos >= total && out.len() < BATCH_SIZE {
                cur.row = row + 1;
                cur.elem_pos = 0;
            } else {
                cur.elem_pos = pos;
                assert(out@.len() == BATCH_SIZE);
            }
        }
        let n: usize = out.len();
        assert(want == Ok::<(Seq<Pair>, int, int), Code>((pairs, cur.row as int, cur.elem_pos as int)));
        if n == 0 {
            return Ok(None);
        }
        assert forall|k: int| 0 <= k < dup@.len() implies #[trigger] dup@[k] < rows by {
            assert(pairs[k].0 == dup@[k]);
        }
        let mut cols = gather_columns(&cur.cols, dup.as_slice(), rows);
        let ghost gathered_cols = cols@;
        cols.push(out);
        proof {
            assert(types_of(cols@) =~= types_of(cols0@).push(ty));
            assert forall|i: int| 0 <= i < n implies row_at(cols@, i) =~= row_at(cols0@, pairs[i].0).push(pairs[i].1) by {
                assert(row_at(gathered_cols, i) == row_at(cols0@, dup@[i] as int));
                assert forall|c: int| 0 <= c < gathered_cols.len() implies row_at(cols@, i)[c] == row_at(gathered_cols, i)[c] by {
                    assert(cols@[c] == gathered_cols[c]);
                }
            }
        }
        let b = Batch::of_columns(cols, n);
        assert(b.rows() =~= pair_rows(cols0@, pairs));
        self.cur = Some(cur);
        Ok(Some(b))
    }
}

proof fn lemma_pairs_in_range(ty: Ty, arr: Seq<Val>, r: int, p: int)
    ensures
        forall|i: int|
            0 <= i < pairs_from(ty, arr, r, p).len() ==> 0 <= (#[trigger] pairs_from(ty, arr, r, p)[i]).0 < arr.len(),
    decreases
            arr.len() - r,
            (match elems_of(arr[r]) {
                Ok(es) => es.len() as int,
                Err(_) => 0,
            }) - p,
{
    let all = pairs_from(ty, arr, r, p);
    if r >= 0 && r < arr.len() {
        match elems_of(arr[r]) {
            Err(_) => {},
            Ok(es) => {
                if p < 0 || p >= es.len() {
                    lemma_pairs_in_range(ty, arr, r + 1, 0);
                    assert(all == pairs_from(ty, arr, r + 1, 0));
                } else {
                    lemma_pairs_in_range(ty, arr, r, p + 1);
                    match elem_value(ty, doc_of(arr[r]).subrange(es[p].start as int, es[p].end as int), es[p].kind) {
                        Err(_) => {
                            assert(all.len() == 0);
                        },
                        Ok(v) => {
                            let rest = pairs_from(ty, arr, r, p + 1);
                            assert(all == seq![(r, v)] + rest);
                            assert forall|i: int| 0 <= i < all.len() implies 0 <= (#[trigger] all[i]).0 < arr.len() by {
                                if i > 0 {
                                    assert(all[i] == rest[i - 1]);
                                }
                            }
                        },
                    }
                }
            },
        }
    }
}

impl Cur {
    /// The rows that are repeated.
    pub open spec fn held(&self) -> Seq<Seq<Val>> {
        Seq::new(self.rows as nat, |i: int| row_at(self.cols@, i))
    }

    /// The rows still to be returned.
    pub open spec fn left(&self, ty: Ty) -> Seq<Seq<Val>> {
        paired(self.held(), pairs_from(ty, self.arr@, self.row as int, self.elem_pos as int))
    }
}

/// Why the last of some batches cannot be unnested: the lists cannot be computed or are none, or one
/// of them cannot be read.
pub open spec fn unnest_stuck(expr: ProgramV, ty: Ty, xs: Seq<Chunk>, code: Code) -> bool {
    xs.len() > 0 && match program_value(expr, xs.last().types, xs.last().rows) {
        Err(c) => code == c,
        Ok(v) => if v.ty != Ty::Json {
            code == Code::TypeMismatch
        } else {
            exists|row: int, pos: int| #[trigger]
                unnested(ty, v.cells, row, pos, BATCH_SIZE as nat, Seq::empty()) == Err::<(Seq<Pair>, int, int), Code>(code)
        },
    }
}

/// Batches have the columns of batches that came in, and a column for the elements.
pub open spec fn unnest_shaped(ty: Ty, xs: Seq<Chunk>, out: Seq<Chunk>) -> bool {
    forall|k: int| 0 <= k < out.len() ==> wider_portion(#[trigger] out[k], xs, seq![ty])
}

proof fn lemma_shaped_more(ty: Ty, xs: Seq<Chunk>, x: Chunk, out: Seq<Chunk>)
    requires
        unnest_shaped(ty, xs, out),
    ensures
        unnest_shaped(ty, xs.push(x), out),
{
    assert forall|k: int| 0 <= k < out.len() implies wider_portion(#[trigger] out[k], xs.push(x), seq![ty]) by {
        lemma_wider_portion(out[k], xs, x, seq![ty]);
    }
}

proof fn lemma_unnested_len(ty: Ty, arr: Seq<Val>, r: int, p: int, n: nat, found: Seq<Pair>)
    ensures
        unnested(ty, arr, r, p, n, found) matches Ok((pairs, _, _)) ==> pairs.len() <= found.len() + n,
    decreases arr.len() - r, n,
{
    if n > 0 && r >= 0 && r < arr.len() {
        if let Ok(es) = elems_of(arr[r]) {
            if p < 0 || p >= es.len() {
                lemma_unnested_len(ty, arr, r + 1, 0, n, found);
            } else if let Ok(v) = elem_value(ty, doc_of(arr[r]).subrange(es[p].start as int, es[p].end as int), es[p].kind) {
                lemma_unnested_len(ty, arr, r, p + 1, (n - 1) as nat, found.push((r, v)));
            }
        }
    }
}

impl Unnest {
    /// How what has been returned follows from what came in.
    pub open spec fn accounted(&self) -> bool {
        let xs = self.input.op.returned();
        let want = unnested_rows(self.expr@, self.elem_ty, xs);
        &&& unnest_shaped(self.elem_ty, xs, self.trace@.out)
        &&& match self.cur {
            None => flat(self.trace@.out) == want,
            Some(c) => {
                &&& flat(self.trace@.out) + c.left(self.elem_ty) == want
                &&& xs.len() > 0
                &&& types_of(c.cols@) == xs.last().types
                &&& program_value(self.expr@, xs.last().types, xs.last().rows) matches Ok(v) && v.ty == Ty::Json && v.cells
                    == c.arr@
            },
        }
    }
}

impl Unnest {
    /// What has been returned is what the plan gives.
    pub(crate) proof fn lemma_gave(&self, mem: Seq<MemTable>)
        requires
            self.wf(),
        ensures
            self.traced() && self.sound(mem) ==> gave(self.plan(), mem, self.looked(), self.returned(), self.spent()),
            forall|why: Why| #[trigger]
                stops(self.input.op.plan(), mem, self.input.op.looked(), why) ==> stops(self.plan(), mem, self.looked(), why),
            forall|code: Code|
                supplied(self.input, mem) && #[trigger] stuck(self.plan(), self.input.op.returned(), Seq::empty(), code) ==> stops(
                    self.plan(),
                    mem,
                    self.looked(),
                    Why::Failed(code),
                ),
    {
        reveal_with_fuel(gave, 1);
        reveal_with_fuel(stops, 1);
        if self.traced() && self.sound(mem) {
            match self.cur {
                None => {
                    lemma_begins(flat(self.trace@.out), Seq::empty(), true);
                },
                Some(c) => {
                    lemma_begins(flat(self.trace@.out), c.left(self.elem_ty), false);
                },
            }
        }
    }
}

impl Operator for Unnest {
    open spec fn wf(&self) -> bool {
        &&& self.input.op.wf()
        &&& self.traced() ==> all_taken(self.plan(), self.input.op.returned())
        &&& self.inv()
        &&& self.traced() ==> self.accounted()
    }

    open spec fn plan(&self) -> NodeV {
        NodeV::Unnest { input: Box::new(self.input.op.plan()), expr: self.expr@, elem_ty: self.elem_ty }
    }

    open spec fn looked(&self) -> Seq<Look> {
        self.input.op.looked()
    }

    open spec fn traced(&self) -> bool {
        self.trace@.ok && self.input.op.traced()
    }

    open spec fn returned(&self) -> Seq<Chunk> {
        self.trace@.out
    }

    open spec fn spent(&self) -> bool {
        self.cur is None && self.input.op.spent()
    }

    open spec fn sound(&self, mem: Seq<MemTable>) -> bool {
        supplied(self.input, mem)
    }

    fn next(&mut self, ctx: &mut ExecContext) -> (r: Result<Step, Error>)
        ensures
            answers(
                r,
                *final(ctx),
                final(self).input.said@,
                old(self).traced(),
                final(self).plan(),
                final(self).input.op.returned(),
                Seq::empty(),
            ),
            old(self).cur matches Some(c) ==> match unnested(
                old(self).elem_ty,
                c.arr@,
                c.row as int,
                c.elem_pos as int,
                BATCH_SIZE as nat,
                Seq::empty(),
            ) {
                Err(code) => {
                    &&& r matches Err(e) && e.code == code
                    &&& final(self).cur matches Some(d) && d.cols == c.cols && d.arr == c.arr && (
                        d.row as int,
                        d.elem_pos as int,
                    ) == failing(old(self).elem_ty, c.arr@, c.row as int, c.elem_pos as int, BATCH_SIZE as nat)
                },
                Ok((pairs, row, pos)) => pairs.len() > 0 ==> (r matches Ok(Step::Ready(b)) && b.rows() == pair_rows(
                    c.cols@,
                    pairs,
                )),
            },
            r matches Ok(Step::Ready(b)) ==> (final(self).cur matches Some(c) && portion(
                chunk(b),
                types_of(c.cols@).push(final(self).elem_ty),
            )),
    {
        self.input.said = Ghost(Said::Nothing);
        let ghost start = *self;
        let mut fuel: u64 = u64::MAX;
        proof {
            lemma_no_look(self.looked(), ctx.catalog);
        }
        while fuel > 0
            invariant
                self.wf(),
                ctx.wf(),
                ctx.same_data(*old(ctx)),
                looked_on(old(self).looked(), old(ctx).catalog, self.looked(), ctx.catalog),
                ctx.io == old(ctx).io,
                ctx.codec == old(ctx).codec,
                self.input.said@.goes_on(),
                self.input.op.traced() ==> self.input.op.returned().len() + fuel + if self.cur is None {
                    1int
                } else {
                    0int
                } >= u64::MAX,
                start == (Unnest { input: start.input, ..*old(self) }),
                old(self).sound(old(ctx).catalog.mem@) && self.traced() ==> self.sound(old(ctx).catalog.mem@),
                old(self).cur matches Some(c) ==> {
                    ||| *self == start && fuel == u64::MAX
                    ||| unnested(
                        old(self).elem_ty,
                        c.arr@,
                        c.row as int,
                        c.elem_pos as int,
                        BATCH_SIZE as nat,
                        Seq::empty(),
                    ) matches Ok((pairs, row, pos)) && pairs.len() == 0
                },
                self.expr == old(self).expr,
                self.elem_ty == old(self).elem_ty,
                self.trace == old(self).trace,
                self.input.op.plan() == old(self).input.op.plan(),
                self.input.op.traced() <==> old(self).input.op.traced(),
            decreases fuel,
        {
            if self.cur.is_none() {
                let ghost before = self.input.op.returned();
                match self.input.pull(ctx) {
                    Ok(Step::Ready(b)) => {
                        let ghost c = chunk(b);
                        match self.begin(&ctx.vm, b) {
                            Ok(()) => {
                                proof {
                                    if self.traced() {
                                        lemma_taken_push(self.plan(), before, c);
                                        lemma_shaped_more(self.elem_ty, before, c, self.trace@.out);
                                    }
                                    assert(before.push(c).drop_last() =~= before);
                                    assert(self.cur->0.held() =~= c.rows);
                                }
                            },
                            Err(e) => {
                                self.trace = Ghost(lost_trace(self.trace@));
                                proof {
                                    if old(self).traced() {
                                        assert(self.input.op.returned() == before.push(c));
                                        assert(before.push(c).drop_last() =~= before);
                                        assert(stuck(self.plan(), self.input.op.returned(), Seq::empty(), e.code));
                                    }
                                    self.lemma_gave(old(ctx).catalog.mem@);
                                }
                                return Err(e);
                            },
                        }
                    },
                    Ok(other) => {
                        proof {
                            self.lemma_gave(old(ctx).catalog.mem@);
                        }
                        return Ok(other);
                    },
                    Err(e) => {
                        proof {
                            self.lemma_gave(old(ctx).catalog.mem@);
                        }
                        return Err(e);
                    },
                }
            }
            let ghost was = *self;
            let ghost cur = self.cur->0;
            proof {
                lemma_pairs_split(
                    self.elem_ty,
                    cur.arr@,
                    cur.row as int,
                    cur.elem_pos as int,
                    BATCH_SIZE as nat,
                    Seq::empty(),
                );
                assert(Seq::<Pair>::empty() + pairs_from(self.elem_ty, cur.arr@, cur.row as int, cur.elem_pos as int)
                    =~= pairs_from(self.elem_ty, cur.arr@, cur.row as int, cur.elem_pos as int));
            }
            match self.expand() {
                Ok(Some(b)) => {
                    proof {
                        let now = self.cur->0;
                        lemma_flat_push(self.trace@.out, chunk(b));
                        let pairs = unnested(
                            self.elem_ty,
                            cur.arr@,
                            cur.row as int,
                            cur.elem_pos as int,
                            BATCH_SIZE as nat,
                            Seq::empty(),
                        )->Ok_0.0;
                        let rest = pairs_from(self.elem_ty, now.arr@, now.row as int, now.elem_pos as int);
                        lemma_pairs_in_range(self.elem_ty, cur.arr@, cur.row as int, cur.elem_pos as int);
                        assert(pairs + rest == pairs_from(self.elem_ty, cur.arr@, cur.row as int, cur.elem_pos as int));
                        assert(now.held() =~= cur.held());
                        assert forall|i: int| 0 <= i < pairs.len() implies #[trigger] pair_rows(cur.cols@, pairs)[i]
                            == paired(cur.held(), pairs)[i] by {
                            assert(pairs[i] == (pairs + rest)[i]);
                        }
                        assert(b.rows() =~= paired(cur.held(), pairs));
                        assert(paired(cur.held(), pairs) + paired(cur.held(), rest) =~= paired(
                            cur.held(),
                            pairs + rest,
                        ));
                        assert(flat(self.trace@.out) + b.rows() + now.left(self.elem_ty) =~= flat(self.trace@.out) + cur.left(
                            self.elem_ty,
                        ));
                        lemma_unnested_len(
                            self.elem_ty,
                            cur.arr@,
                            cur.row as int,
                            cur.elem_pos as int,
                            BATCH_SIZE as nat,
                            Seq::empty(),
                        );
                        if self.traced() {
                            let xs = self.input.op.returned();
                            assert(types_of(cur.cols@).push(self.elem_ty) =~= xs[xs.len() - 1].types + seq![self.elem_ty]);
                            assert(wider_portion(chunk(b), xs, seq![self.elem_ty]));
                        }
                    }
                    self.trace = Ghost(grown_trace(self.trace@, chunk(b)));
                    proof {
                        self.lemma_gave(old(ctx).catalog.mem@);
                    }
                    return Ok(Step::Ready(b));
                },
                Ok(None) => {
                    assert(flat(self.trace@.out) + cur.left(self.elem_ty) =~= flat(self.trace@.out));
                },
                Err(e) => {
                    self.trace = Ghost(lost_trace(self.trace@));
                    proof {
                        if old(self).traced() {
                            assert(unnested(
                                self.elem_ty,
                                cur.arr@,
                                cur.row as int,
                                cur.elem_pos as int,
                                BATCH_SIZE as nat,
                                Seq::empty(),
                            ) == Err::<(Seq<Pair>, int, int), Code>(e.code));
                            assert(stuck(self.plan(), self.input.op.returned(), Seq::empty(), e.code));
                        }
                        self.lemma_gave(old(ctx).catalog.mem@);
                    }
                    return Err(e);
                },
            }
            fuel = fuel - 1;
        }
        proof {
            if old(self).traced() {
                assert(stuck(self.plan(), self.input.op.returned(), Seq::empty(), Code::LimitExceeded));
            }
            self.lemma_gave(old(ctx).catalog.mem@);
        }
        Err(Error::new(Code::LimitExceeded))
    }
}

} // verus!
