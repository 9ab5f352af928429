//! Expressions: small register programs over a batch's columns.
//!
//! A program loads columns and constants into registers and compares them. Its
//! value is one column with a cell per selected row of the batch.

use crate::error::{Code, Error};
use crate::order::Order;
use crate::vector::{
    kept, lemma_kept_step, order_values, phys_rows, val_order, Batch, PhysType, Ty, Val, Value, Vector,
};
use vstd::prelude::*;

verus! {

#[derive(Clone, Copy, PartialEq, Eq, Structural, Debug)]
pub enum OpCode {
    /// Load the input column `aux`.
    LoadCol,
    /// Load the constant `aux`.
    LoadConst,
    Eq,
    Ne,
    Lt,
    Le,
    Gt,
    Ge,
}

/// One instruction: `dst` becomes `op` of the registers `a` and `b`, or a load.
#[derive(Clone, Copy, Debug)]
pub struct Instr {
    pub op: OpCode,
    pub phys: PhysType,
    pub dst: u16,
    pub a: u16,
    pub b: u16,
    pub aux: u16,
}

impl Instr {
    pub fn new(op: OpCode, phys: PhysType, dst: u16, a: u16, b: u16) -> (r: Instr)
        ensures
            r == (Instr { op, phys, dst, a, b, aux: 0 }),
    {
        Instr { op, phys, dst, a, b, aux: 0 }
    }

    pub fn with_aux(op: OpCode, phys: PhysType, dst: u16, a: u16, b: u16, aux: u16) -> (r: Instr)
        ensures
            r == (Instr { op, phys, dst, a, b, aux }),
    {
        Instr { op, phys, dst, a, b, aux }
    }
}

/// A program. The value is what the register `result` holds at the end.
#[derive(Debug)]
pub struct Program {
    pub code: Vec<Instr>,
    pub consts: Vec<(Ty, Value)>,
    pub regs: u16,
    pub result: u16,
    pub result_ty: Ty,
}

impl Program {
    pub fn new() -> (p: Program)
        ensures
            p.code@.len() == 0,
            p.consts@.len() == 0,
            p.regs == 0,
            p.result == 0,
    {
        Program { code: Vec::new(), consts: Vec::new(), regs: 0, result: 0, result_ty: Ty::Int }
    }

    /// Reserves a register and returns its number.
    pub fn alloc_reg(&mut self) -> (r: u16)
        requires
            old(self).regs < u16::MAX,
        ensures
            r == old(self).regs,
            *final(self) == (Program { regs: (r + 1) as u16, ..*old(self) }),
    {
        let r: u16 = self.regs;
        self.regs = r + 1;
        r
    }

    pub fn push(&mut self, i: Instr)
        ensures
            final(self).code@ == old(self).code@.push(i),
            *final(self) == (Program { code: final(self).code, ..*old(self) }),
    {
        self.code.push(i);
    }

    /// Adds a constant and returns its number.
    pub fn add_const(&mut self, ty: Ty, v: Value) -> (r: u16)
        requires
            old(self).consts@.len() <= u16::MAX,
        ensures
            r == old(self).consts@.len(),
            final(self).consts@ == old(self).consts@.push((ty, v)),
            *final(self) == (Program { consts: final(self).consts, ..*old(self) }),
    {
        let r: u16 = self.consts.len() as u16;
        self.consts.push((ty, v));
        r
    }

    /// A copy that computes the same.
    pub fn dup(&self) -> (p: Program)
        ensures
            p@ == self@,
    {
        let mut consts: Vec<(Ty, Value)> = Vec::new();
        let mut i: usize = 0;
        while i < self.consts.len()
            invariant
                i <= self.consts@.len(),
                consts@.len() == i,
                forall|j: int|
                    0 <= j < i ==> (#[trigger] consts@[j]).0 == self.consts@[j].0 && consts@[j].1@
                        == self.consts@[j].1@,
            decreases self.consts@.len() - i,
        {
            consts.push((self.consts[i].0, self.consts[i].1.dup()));
            i = i + 1;
        }
        let mut code: Vec<Instr> = Vec::new();
        let mut k: usize = 0;
        while k < self.code.len()
            invariant
                k <= self.code@.len(),
                code@ == self.code@.take(k as int),
            decreases self.code@.len() - k,
        {
            code.push(self.code[k]);
            k = k + 1;
            assert(code@ =~= self.code@.take(k as int));
        }
        assert(code@ =~= self.code@);
        let p = Program { code, consts, regs: self.regs, result: self.result, result_ty: self.result_ty };
        assert(p@ =~= self@);
        p
    }
}

impl Clone for Program {
    fn clone(&self) -> (p: Program)
        ensures
            p@ == self@,
    {
        self.dup()
    }
}

/// A program as a value.
#[verifier::ext_equal]
pub struct ProgramV {
    pub code: Seq<Instr>,
    pub consts: Seq<(Ty, Val)>,
    pub regs: u16,
    pub result: u16,
    pub result_ty: Ty,
}

impl View for Program {
    type V = ProgramV;

    open spec fn view(&self) -> ProgramV {
        ProgramV {
            code: self.code@,
            consts: Seq::new(self.consts@.len(), |i: int| (self.consts@[i].0, self.consts@[i].1@)),
            regs: self.regs,
            result: self.result,
            result_ty: self.result_ty,
        }
    }
}

/// The values of a list of programs.
pub open spec fn progs_of(ps: Seq<Program>) -> Seq<ProgramV> {
    Seq::new(ps.len(), |i: int| ps[i]@)
}

pub open spec fn opt_prog(p: Option<Program>) -> Option<ProgramV> {
    match p {
        Some(p) => Some(p@),
        None => None,
    }
}

/// Copies a list of programs.
pub fn dup_programs(ps: &Vec<Program>) -> (r: Vec<Program>)
    ensures
        progs_of(r@) == progs_of(ps@),
{
    let mut r: Vec<Program> = Vec::new();
    let mut i: usize = 0;
    while i < ps.len()
        invariant
            i <= ps@.len(),
            r@.len() == i,
            forall|j: int| 0 <= j < i ==> (#[trigger] r@[j])@ == ps@[j]@,
        decreases ps@.len() - i,
    {
        r.push(ps[i].dup());
        i = i + 1;
    }
    assert(progs_of(r@) =~= progs_of(ps@));
    r
}

pub fn dup_opt_program(p: &Option<Program>) -> (r: Option<Program>)
    ensures
        opt_prog(r) == opt_prog(*p),
{
    match p {
        Some(p) => Some(p.dup()),
        None => None,
    }
}

// --- What a program computes ------------------------------------------------------

/// A column as a value.
#[verifier::ext_equal]
pub struct ColV {
    pub ty: Ty,
    pub cells: Seq<Val>,
}

pub open spec fn col_of(v: Vector) -> ColV {
    ColV { ty: v.ty(), cells: v@ }
}

/// Whether an order satisfies a comparison.
pub open spec fn order_meets(op: OpCode, o: Order) -> bool {
    match op {
        OpCode::Eq => o == Order::Equal,
        OpCode::Ne => o != Order::Equal,
        OpCode::Lt => o == Order::Less,
        OpCode::Le => o != Order::Greater,
        OpCode::Gt => o == Order::Greater,
        OpCode::Ge => o != Order::Less,
        _ => false,
    }
}

/// The comparison of two cells. With a NULL on either side it is NULL.
pub open spec fn compared(op: OpCode, a: Val, b: Val, ty: Ty) -> Val {
    if a is Null || b is Null {
        Val::Null
    } else {
        Val::Bool(order_meets(op, val_order(a, b, ty)))
    }
}

/// One column of the input, a cell per row.
pub open spec fn input_col(tys: Seq<Ty>, rows: Seq<Seq<Val>>, c: int) -> ColV {
    ColV { ty: tys[c], cells: Seq::new(rows.len(), |i: int| rows[i][c]) }
}

/// What one instruction computes from the registers.
pub open spec fn instr_value(
    p: ProgramV,
    i: Instr,
    tys: Seq<Ty>,
    rows: Seq<Seq<Val>>,
    regs: Seq<Option<ColV>>,
) -> Result<ColV, Code> {
    match i.op {
        OpCode::LoadCol => if i.aux < tys.len() {
            Ok(input_col(tys, rows, i.aux as int))
        } else {
            Err(Code::Internal)
        },
        OpCode::LoadConst => if i.aux < p.consts.len() && p.consts[i.aux as int].1.fits(
            p.consts[i.aux as int].0.phys(),
        ) {
            Ok(
                ColV {
                    ty: p.consts[i.aux as int].0,
                    cells: Seq::new(rows.len(), |k: int| p.consts[i.aux as int].1),
                },
            )
        } else {
            Err(Code::Internal)
        },
        _ => if !(i.a < regs.len() && i.b < regs.len()) {
            Err(Code::Internal)
        } else {
            match (regs[i.a as int], regs[i.b as int]) {
                (Some(x), Some(y)) => if x.ty.phys() == y.ty.phys() {
                    Ok(
                        ColV {
                            ty: Ty::Boolean,
                            cells: Seq::new(
                                rows.len(),
                                |k: int| compared(i.op, x.cells[k], y.cells[k], x.ty),
                            ),
                        },
                    )
                } else {
                    Err(Code::TypeMismatch)
                },
                _ => Err(Code::Internal),
            }
        },
    }
}

/// The registers after the first `k` instructions.
pub open spec fn regs_after(p: ProgramV, tys: Seq<Ty>, rows: Seq<Seq<Val>>, k: int) -> Result<
    Seq<Option<ColV>>,
    Code,
>
    decreases k,
{
    if k <= 0 {
        Ok(Seq::new(p.regs as nat, |i: int| None))
    } else {
        match regs_after(p, tys, rows, k - 1) {
            Err(e) => Err(e),
            Ok(regs) => match instr_value(p, p.code[k - 1], tys, rows, regs) {
                Err(e) => Err(e),
                Ok(v) => if p.code[k - 1].dst < regs.len() {
                    Ok(regs.update(p.code[k - 1].dst as int, Some(v)))
                } else {
                    Err(Code::Internal)
                },
            },
        }
    }
}

/// The value of a program on rows of the given types.
pub open spec fn program_value(p: ProgramV, tys: Seq<Ty>, rows: Seq<Seq<Val>>) -> Result<ColV, Code> {
    match regs_after(p, tys, rows, p.code.len() as int) {
        Err(e) => Err(e),
        Ok(regs) => if p.result < regs.len() {
            match regs[p.result as int] {
                Some(v) => Ok(v),
                None => Err(Code::Internal),
            }
        } else {
            Err(Code::Internal)
        },
    }
}

/// For each row, whether a predicate holds: NULL does not.
pub open spec fn program_keep(p: ProgramV, tys: Seq<Ty>, rows: Seq<Seq<Val>>) -> Result<Seq<bool>, Code> {
    match program_value(p, tys, rows) {
        Err(e) => Err(e),
        Ok(v) => if v.ty.phys() == PhysType::Bool {
            Ok(Seq::new(rows.len(), |i: int| v.cells[i] == Val::Bool(true)))
        } else {
            Err(Code::TypeMismatch)
        },
    }
}

/// The values of a list of programs, and the first error if one has none.
pub open spec fn programs_value(ps: Seq<ProgramV>, tys: Seq<Ty>, rows: Seq<Seq<Val>>, k: int) -> Result<
    Seq<ColV>,
    Code,
>
    decreases k,
{
    if k <= 0 {
        Ok(Seq::empty())
    } else {
        match programs_value(ps, tys, rows, k - 1) {
            Err(e) => Err(e),
            Ok(vs) => match program_value(ps[k - 1], tys, rows) {
                Err(e) => Err(e),
                Ok(v) => Ok(vs.push(v)),
            },
        }
    }
}

/// The model of a list of columns.
pub open spec fn cols_of(cols: Seq<Vector>) -> Seq<ColV> {
    Seq::new(cols.len(), |c: int| col_of(cols[c]))
}

// --- The machine --------------------------------------------------------------------

/// Evaluates programs. It keeps nothing between calls.
#[derive(Debug)]
pub struct Vm {}

fn compare_cells(op: OpCode, a: &Value, b: &Value, ty: Ty) -> (r: Value)
    requires
        a@ is Null || b@ is Null || a@.phys() == b@.phys(),
    ensures
        r@ == compared(op, a@, b@, ty),
{
    if a.is_null() || b.is_null() {
        return Value::Null;
    }
    let o = order_values(a, b, ty);
    let holds: bool = match op {
        OpCode::Eq => o == Order::Equal,
        OpCode::Ne => o != Order::Equal,
        OpCode::Lt => o == Order::Less,
        OpCode::Le => o != Order::Greater,
        OpCode::Gt => o == Order::Greater,
        OpCode::Ge => o != Order::Less,
        OpCode::LoadCol => false,
        OpCode::LoadConst => false,
    };
    Value::Bool(holds)
}

impl Vm {
    pub fn new() -> Vm {
        Vm {  }
    }

    /// What one instruction computes.
    fn step(&self, p: &Program, i: Instr, batch: &Batch, regs: &Vec<Option<Vector>>) -> (r: Result<Vector, Error>)
        requires
            batch.wf(),
            regs_ok(regs@, batch.spec_card()),
        ensures
            match r {
                Ok(v) => v.wf() && v@.len() == batch.spec_card() && instr_value(
                    p@,
                    i,
                    batch.types(),
                    batch.rows(),
                    regs_view(regs@),
                ) == Ok::<ColV, Code>(col_of(v)),
                Err(e) => instr_value(p@, i, batch.types(), batch.rows(), regs_view(regs@)) == Err::<ColV, Code>(
                    e.code,
                ),
            },
    {
        let n: usize = batch.card();
        match i.op {
            OpCode::LoadCol => {
                if i.aux as usize >= batch.cols.len() {
                    return Err(Error::new(Code::Internal));
                }
                let c: usize = i.aux as usize;
                assert(batch.cols@[c as int].wf());
                let v = match &batch.sel {
                    Some(s) => batch.cols[c].gather(s.as_slice()),
                    None => batch.cols[c].dup(),
                };
                assert(col_of(v) =~= input_col(batch.types(), batch.rows(), c as int));
                Ok(v)
            },
            OpCode::LoadConst => {
                if i.aux as usize >= p.consts.len() {
                    return Err(Error::new(Code::Internal));
                }
                let c: usize = i.aux as usize;
                let ty: Ty = p.consts[c].0;
                if !p.consts[c].1.fits(ty.phys()) {
                    return Err(Error::new(Code::Internal));
                }
                let mut v = Vector::new(ty);
                let mut k: usize = 0;
                while k < n
                    invariant
                        k <= n,
                        c < p.consts@.len(),
                        ty == p.consts@[c as int].0,
                        p.consts@[c as int].1@.fits(ty.phys()),
                        v.wf(),
                        v.ty() == ty,
                        v@ == Seq::new(k as nat, |j: int| p.consts@[c as int].1@),
                    decreases n - k,
                {
                    v.push_owned(p.consts[c].1.dup());
                    k = k + 1;
                    assert(v@ =~= Seq::new(k as nat, |j: int| p.consts@[c as int].1@));
                }
                Ok(v)
            },
            _ => {
                if i.a as usize >= regs.len() || i.b as usize >= regs.len() {
                    return Err(Error::new(Code::Internal));
                }
                let ra: usize = i.a as usize;
                let rb: usize = i.b as usize;
                let (x, y) = match (&regs[ra], &regs[rb]) {
                    (Some(x), Some(y)) => (x, y),
                    _ => {
                        return Err(Error::new(Code::Internal));
                    },
                };
                assert(regs@[ra as int] == Some(*x) && regs@[rb as int] == Some(*y));
                if x.phys() != y.phys() {
                    return Err(Error::new(Code::TypeMismatch));
                }
                let ty: Ty = x.ty();
                let mut v = Vector::new(Ty::Boolean);
                let mut k: usize = 0;
                let ghost whole = Seq::new(n as nat, |k: int| compared(i.op, x@[k], y@[k], ty));
                while k < n
                    invariant
                        k <= n,
                        x.wf(),
                        y.wf(),
                        x@.len() == n,
                        y@.len() == n,
                        ty == x.ty(),
                        x.ty().phys() == y.ty().phys(),
                        whole == Seq::new(n as nat, |k: int| compared(i.op, x@[k], y@[k], ty)),
                        v.wf(),
                        v.ty() == Ty::Boolean,
                        v@ == whole.take(k as int),
                    decreases n - k,
                {
                    assert(x@[k as int].fits(x.ty().phys()) && y@[k as int].fits(y.ty().phys()));
                    v.push_owned(compare_cells(i.op, x.cell(k), y.cell(k), ty));
                    k = k + 1;
                    assert(v@ =~= whole.take(k as int));
                }
                assert(v@ =~= whole);
                assert(col_of(v).cells =~= Seq::new(
                    batch.rows().len(),
                    |k: int| compared(i.op, col_of(*x).cells[k], col_of(*y).cells[k], x.ty()),
                ));
                Ok(v)
            },
        }
    }

    /// The value of a program: a cell per selected row.
    pub fn eval(&self, p: &Program, batch: &Batch) -> (r: Result<Vector, Error>)
        requires
            batch.wf(),
        ensures
            match r {
                Ok(v) => v.wf() && v@.len() == batch.spec_card() && program_value(
                    p@,
                    batch.types(),
                    batch.rows(),
                ) == Ok::<ColV, Code>(col_of(v)),
                Err(e) => program_value(p@, batch.types(), batch.rows()) == Err::<ColV, Code>(e.code),
            },
    {
        let mut regs: Vec<Option<Vector>> = Vec::new();
        let mut i: usize = 0;
        while i < p.regs as usize
            invariant
                i <= p.regs,
                regs@.len() == i,
                forall|j: int| 0 <= j < i ==> (#[trigger] regs@[j]) is None,
            decreases p.regs - i,
        {
            regs.push(None);
            i = i + 1;
        }
        assert(regs_view(regs@) =~= Seq::new(p.regs as nat, |i: int| None));
        let mut k: usize = 0;
        while k < p.code.len()
            invariant
                batch.wf(),
                k <= p.code@.len(),
                regs_ok(regs@, batch.spec_card()),
                regs_after(p@, batch.types(), batch.rows(), k as int) == Ok::<Seq<Option<ColV>>, Code>(
                    regs_view(regs@),
                ),
            decreases p.code@.len() - k,
        {
            let ins: Instr = p.code[k];
            let ghost before = regs@;
            match self.step(p, ins, batch, &regs) {
                Err(e) => {
                    proof {
                        lemma_regs_stay_failed(p@, batch.types(), batch.rows(), k as int + 1, p.code@.len() as int);
                    }
                    return Err(e);
                },
                Ok(v) => {
                    if ins.dst as usize >= regs.len() {
                        proof {
                            lemma_regs_stay_failed(p@, batch.types(), batch.rows(), k as int + 1, p.code@.len() as int);
                        }
                        return Err(Error::new(Code::Internal));
                    }
                    let ghost val = col_of(v);
                    regs[ins.dst as usize] = Some(v);
                    assert(regs_view(regs@) =~= regs_view(before).update(ins.dst as int, Some(val)));
                },
            }
            k = k + 1;
        }
        if p.result as usize >= regs.len() {
            return Err(Error::new(Code::Internal));
        }
        let at: usize = p.result as usize;
        assert(regs_view(regs@)[at as int] == match regs@[at as int] {
            Some(v) => Some(col_of(v)),
            None => None,
        });
        match &regs[at] {
            Some(v) => {
                let r = v.dup();
                assert(col_of(r) =~= col_of(*v));
                Ok(r)
            },
            None => Err(Error::new(Code::Internal)),
        }
    }

    /// The physical rows, among the selected ones, for which a predicate holds.
    pub fn eval_filter(&self, p: &Program, batch: &Batch) -> (r: Result<Vec<u32>, Error>)
        requires
            batch.wf(),
        ensures
            match r {
                Ok(sel) => program_keep(p@, batch.types(), batch.rows()) matches Ok(keep) && sel@ == kept(
                    phys_rows(*batch),
                    keep,
                ),
                Err(e) => program_keep(p@, batch.types(), batch.rows()) == Err::<Seq<bool>, Code>(e.code),
            },
    {
        let v = match self.eval(p, batch) {
            Ok(v) => v,
            Err(e) => {
                return Err(e);
            },
        };
        if v.phys() != PhysType::Bool {
            return Err(Error::new(Code::TypeMismatch));
        }
        let n: usize = batch.card();
        let ghost keep = program_keep(p@, batch.types(), batch.rows())->Ok_0;
        let ghost ps = phys_rows(*batch);
        let mut sel: Vec<u32> = Vec::new();
        let mut i: usize = 0;
        assert(ps.take(0) =~= Seq::empty());
        while i < n
            invariant
                i <= n,
                n == batch.spec_card(),
                batch.wf(),
                v@.len() == n,
                ps == phys_rows(*batch),
                keep.len() == n,
                forall|j: int| 0 <= j < n ==> (#[trigger] keep[j]) == (v@[j] == Val::Bool(true)),
                sel@ == kept(ps.take(i as int), keep.take(i as int)),
            decreases n - i,
        {
            proof {
                lemma_kept_step(ps, keep, i as int);
            }
            match v.cell(i) {
                Value::Bool(true) => {
                    sel.push(batch.phys_index(i));
                },
                _ => {},
            }
            i = i + 1;
        }
        assert(ps.take(i as int) =~= ps);
        assert(keep.take(i as int) =~= keep);
        Ok(sel)
    }

    /// For each selected row, whether a predicate holds.
    pub fn eval_flags(&self, p: &Program, batch: &Batch) -> (r: Result<Vec<bool>, Error>)
        requires
            batch.wf(),
        ensures
            match r {
                Ok(flags) => program_keep(p@, batch.types(), batch.rows()) == Ok::<Seq<bool>, Code>(flags@),
                Err(e) => program_keep(p@, batch.types(), batch.rows()) == Err::<Seq<bool>, Code>(e.code),
            },
    {
        let v = match self.eval(p, batch) {
            Ok(v) => v,
            Err(e) => {
                return Err(e);
            },
        };
        if v.phys() != PhysType::Bool {
            return Err(Error::new(Code::TypeMismatch));
        }
        let n: usize = v.len();
        let ghost keep = program_keep(p@, batch.types(), batch.rows())->Ok_0;
        let mut flags: Vec<bool> = Vec::new();
        let mut i: usize = 0;
        while i < n
            invariant
                i <= n,
                v@.len() == n,
                keep.len() == n,
                forall|j: int| 0 <= j < n ==> (#[trigger] keep[j]) == (v@[j] == Val::Bool(true)),
                flags@ == keep.take(i as int),
            decreases n - i,
        {
            let holds: bool = match v.cell(i) {
                Value::Bool(true) => true,
                _ => false,
            };
            flags.push(holds);
            i = i + 1;
            assert(flags@ =~= keep.take(i as int));
        }
        assert(flags@ =~= keep);
        Ok(flags)
    }

    /// The values of several programs on one batch.
    pub fn eval_all(&self, ps: &Vec<Program>, batch: &Batch) -> (r: Result<Vec<Vector>, Error>)
        requires
            batch.wf(),
        ensures
            match r {
                Ok(cols) => crate::vector::cols_wf(cols@, batch.spec_card()) && cols@.len() == ps@.len()
                    && programs_value(progs_of(ps@), batch.types(), batch.rows(), ps@.len() as int) == Ok::<Seq<ColV>, Code>(
                    cols_of(cols@),
                ),
                Err(e) => programs_value(progs_of(ps@), batch.types(), batch.rows(), ps@.len() as int) == Err::<
                    Seq<ColV>,
                    Code,
                >(e.code),
            },
    {
        let mut cols: Vec<Vector> = Vec::new();
        let mut k: usize = 0;
        assert(cols_of(cols@) =~= Seq::<ColV>::empty());
        while k < ps.len()
            invariant
                batch.wf(),
                k <= ps@.len(),
                cols@.len() == k,
                crate::vector::cols_wf(cols@, batch.spec_card()),
                programs_value(progs_of(ps@), batch.types(), batch.rows(), k as int) == Ok::<Seq<ColV>, Code>(cols_of(cols@)),
            decreases ps@.len() - k,
        {
            match self.eval(&ps[k], batch) {
                Ok(v) => {
                    let ghost before = cols@;
                    cols.push(v);
                    assert(cols_of(cols@) =~= cols_of(before).push(col_of(v)));
                },
                Err(e) => {
                    proof {
                        lemma_programs_stay_failed(progs_of(ps@), batch.types(), batch.rows(), k as int + 1, ps@.len() as int);
                    }
                    return Err(e);
                },
            }
            k = k + 1;
        }
        Ok(cols)
    }
}

spec fn regs_view(regs: Seq<Option<Vector>>) -> Seq<Option<ColV>> {
    Seq::new(
        regs.len(),
        |i: int|
            match regs[i] {
                Some(v) => Some(col_of(v)),
                None => None,
            },
    )
}

spec fn regs_ok(regs: Seq<Option<Vector>>, n: int) -> bool {
    forall|i: int|
        0 <= i < regs.len() ==> ((#[trigger] regs[i]) matches Some(v) ==> v.wf() && v@.len() == n)
}

proof fn lemma_regs_stay_failed(p: ProgramV, tys: Seq<Ty>, rows: Seq<Seq<Val>>, k: int, n: int)
    requires
        0 <= k <= n,
        regs_after(p, tys, rows, k) is Err,
    ensures
        regs_after(p, tys, rows, n) == regs_after(p, tys, rows, k),
    decreases n - k,
{
    if k < n {
        lemma_regs_stay_failed(p, tys, rows, k + 1, n);
    }
}

proof fn lemma_programs_stay_failed(ps: Seq<ProgramV>, tys: Seq<Ty>, rows: Seq<Seq<Val>>, k: int, n: int)
    requires
        0 <= k <= n,
        programs_value(ps, tys, rows, k) is Err,
    ensures
        programs_value(ps, tys, rows, n) == programs_value(ps, tys, rows, k),
    decreases n - k,
{
    if k < n {
        lemma_programs_stay_failed(ps, tys, rows, k + 1, n);
    }
}

// --- Row by row ---------------------------------------------------------------------

/// Whether a predicate holds of one row.
pub open spec fn holds_of(p: ProgramV, tys: Seq<Ty>, row: Seq<Val>) -> bool {
    program_keep(p, tys, seq![row]) matches Ok(keep) && keep[0]
}

spec fn same_at(a: Seq<Option<ColV>>, b: Seq<Option<ColV>>, n: nat, i: int) -> bool {
    &&& a.len() == b.len()
    &&& forall|r: int|
        0 <= r < a.len() ==> match (#[trigger] a[r], b[r]) {
            (None, None) => true,
            (Some(x), Some(y)) => x.ty == y.ty && x.cells.len() == n && y.cells.len() == 1 && x.cells[i]
                == y.cells[0],
            _ => false,
        }
}

proof fn lemma_regs_row_by_row(p: ProgramV, tys: Seq<Ty>, rows: Seq<Seq<Val>>, i: int, k: int)
    requires
        0 <= i < rows.len(),
        0 <= k <= p.code.len(),
    ensures
        match (regs_after(p, tys, rows, k), regs_after(p, tys, seq![rows[i]], k)) {
            (Ok(a), Ok(b)) => same_at(a, b, rows.len(), i),
            (Err(x), Err(y)) => x == y,
            _ => false,
        },
    decreases k,
{
    if k > 0 {
        lemma_regs_row_by_row(p, tys, rows, i, k - 1);
        let one = seq![rows[i]];
        match (regs_after(p, tys, rows, k - 1), regs_after(p, tys, one, k - 1)) {
            (Ok(a), Ok(b)) => {
                let ins = p.code[k - 1];
                let va = instr_value(p, ins, tys, rows, a);
                let vb = instr_value(p, ins, tys, one, b);
                if ins.a < a.len() && ins.b < a.len() {
                    assert(match (a[ins.a as int], b[ins.a as int]) {
                        (None, None) => true,
                        (Some(x), Some(y)) => x.ty == y.ty && x.cells[i] == y.cells[0],
                        _ => false,
                    });
                    assert(match (a[ins.b as int], b[ins.b as int]) {
                        (None, None) => true,
                        (Some(x), Some(y)) => x.ty == y.ty && x.cells[i] == y.cells[0],
                        _ => false,
                    });
                }
                match (va, vb) {
                    (Ok(x), Ok(y)) => {
                        assert(x.ty == y.ty && x.cells.len() == rows.len() && y.cells.len() == 1 && x.cells[i]
                            == y.cells[0]);
                    },
                    _ => {},
                }
            },
            _ => {},
        }
    }
}

/// A program is evaluated row by row: what it gives for a row does not depend on the
/// other rows of the batch, and whether it fails does not depend on the rows at all.
pub proof fn programs_run_row_by_row(p: ProgramV, tys: Seq<Ty>, rows: Seq<Seq<Val>>, i: int)
    requires
        0 <= i < rows.len(),
    ensures
        match (program_value(p, tys, rows), program_value(p, tys, seq![rows[i]])) {
            (Ok(a), Ok(b)) => a.ty == b.ty && a.cells.len() == rows.len() && a.cells[i] == b.cells[0],
            (Err(x), Err(y)) => x == y,
            _ => false,
        },
        match program_keep(p, tys, rows) {
            Ok(keep) => keep.len() == rows.len() && keep[i] == holds_of(p, tys, rows[i]),
            Err(e) => program_keep(p, tys, seq![rows[i]]) == Err::<Seq<bool>, Code>(e),
        },
{
    lemma_regs_row_by_row(p, tys, rows, i, p.code.len() as int);
}

} // verus!
