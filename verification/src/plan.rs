//! The logical plan.
//!
//! A plan is a tree of nodes. Each node says what it computes from its inputs;
//! how the rows are produced is the business of the operators.

use crate::error::{Code, Error};
use crate::exec::Chunk;
use crate::expr::{opt_prog, progs_of, Program, ProgramV};
use crate::format::Pruner;
use crate::vector::{dup_fields, fields_of, Field, PhysType, Ty, Val};
use std::rc::Rc;
use vstd::prelude::*;

verus! {

/// One key of an ordering. Where NULLs go is decided by `nulls_first` alone.
#[derive(Debug)]
pub struct SortKey {
    pub expr: Program,
    pub desc: bool,
    pub nulls_first: bool,
}

#[verifier::ext_equal]
pub struct SortKeyV {
    pub expr: ProgramV,
    pub desc: bool,
    pub nulls_first: bool,
}

impl View for SortKey {
    type V = SortKeyV;

    open spec fn view(&self) -> SortKeyV {
        SortKeyV { expr: self.expr@, desc: self.desc, nulls_first: self.nulls_first }
    }
}

pub open spec fn keys_of(ks: Seq<SortKey>) -> Seq<SortKeyV> {
    Seq::new(ks.len(), |i: int| ks[i]@)
}

pub fn dup_keys(ks: &Vec<SortKey>) -> (r: Vec<SortKey>)
    ensures
        keys_of(r@) == keys_of(ks@),
{
    let mut r: Vec<SortKey> = Vec::new();
    let mut i: usize = 0;
    while i < ks.len()
        invariant
            i <= ks@.len(),
            r@.len() == i,
            forall|j: int| 0 <= j < i ==> (#[trigger] r@[j])@ == ks@[j]@,
        decreases ks@.len() - i,
    {
        r.push(SortKey { expr: ks[i].expr.dup(), desc: ks[i].desc, nulls_first: ks[i].nulls_first });
        i = i + 1;
    }
    assert(keys_of(r@) =~= keys_of(ks@));
    r
}

#[derive(Clone, Copy, PartialEq, Eq, Structural, Debug)]
pub enum JoinKind {
    Inner,
    Left,
    Right,
    Full,
    Cross,
    /// Left rows that have a match, each once.
    Semi,
    /// Left rows that have no match.
    Anti,
    /// `NOT IN`: as `Anti`, under three-valued logic.
    AntiNullAware,
}

impl JoinKind {
    pub open spec fn left_only(self) -> bool {
        self is Semi || self is Anti || self is AntiNullAware
    }

    /// Whether the output is the left columns only.
    pub fn is_semi(self) -> (r: bool)
        ensures
            r == self.left_only(),
    {
        match self {
            JoinKind::Semi => true,
            JoinKind::Anti => true,
            JoinKind::AntiNullAware => true,
            _ => false,
        }
    }
}

#[derive(Clone, Copy, PartialEq, Eq, Structural, Debug)]
pub enum SetOpKind {
    Union,
    Intersect,
    Except,
}

#[derive(Clone, Copy, PartialEq, Eq, Structural, Debug)]
pub enum AggKind {
    CountStar,
    Count,
    Sum,
    Avg,
    Min,
    Max,
    StdDev,
    Variance,
    Median,
    Mode,
    ApproxCountDistinct,
    StringAgg,
    ArrayAgg,
    AnyValue,
    Last,
    BoolAnd,
    BoolOr,
    CountIf,
    Product,
}

/// One aggregate of a query.
#[derive(Debug)]
pub struct Agg {
    pub kind: AggKind,
    /// The argument; `COUNT(*)` has none.
    pub arg: Option<Program>,
    pub distinct: bool,
    pub name: String,
    /// What `STRING_AGG` puts between two values.
    pub separator: Vec<u8>,
    /// `FILTER (WHERE ...)`.
    pub filter: Option<Program>,
}

#[verifier::ext_equal]
pub struct AggV {
    pub kind: AggKind,
    pub arg: Option<ProgramV>,
    pub distinct: bool,
    pub separator: Seq<u8>,
    pub filter: Option<ProgramV>,
}

impl View for Agg {
    type V = AggV;

    open spec fn view(&self) -> AggV {
        AggV {
            kind: self.kind,
            arg: opt_prog(self.arg),
            distinct: self.distinct,
            separator: self.separator@,
            filter: opt_prog(self.filter),
        }
    }
}

pub open spec fn aggs_of(xs: Seq<Agg>) -> Seq<AggV> {
    Seq::new(xs.len(), |i: int| xs[i]@)
}

/// Whether values of a type can be summed.
pub open spec fn is_number(ty: Ty) -> bool {
    match ty {
        Ty::TinyInt => true,
        Ty::SmallInt => true,
        Ty::Int => true,
        Ty::BigInt => true,
        Ty::HugeInt => true,
        Ty::UTinyInt => true,
        Ty::USmallInt => true,
        Ty::UInt => true,
        Ty::UBigInt => true,
        Ty::Float => true,
        Ty::Double => true,
        Ty::Decimal { precision, scale } => true,
        _ => false,
    }
}

/// The type that an aggregate gives on arguments of a type.
pub open spec fn aggregate_ty(kind: AggKind, ity: Ty) -> Option<Ty> {
    match kind {
        AggKind::CountStar => Some(Ty::BigInt),
        AggKind::Count => Some(Ty::BigInt),
        AggKind::ApproxCountDistinct => Some(Ty::BigInt),
        AggKind::CountIf => Some(Ty::BigInt),
        AggKind::Sum => if !is_number(ity) {
            None
        } else if ity.phys() == PhysType::F64 {
            Some(Ty::Double)
        } else {
            match ity {
                Ty::Decimal { precision, scale } => Some(Ty::Decimal { precision: 38, scale }),
                _ => Some(Ty::HugeInt),
            }
        },
        AggKind::Avg => if is_number(ity) {
            Some(Ty::Double)
        } else {
            None
        },
        AggKind::StdDev => if is_number(ity) {
            Some(Ty::Double)
        } else {
            None
        },
        AggKind::Variance => if is_number(ity) {
            Some(Ty::Double)
        } else {
            None
        },
        AggKind::Median => if is_number(ity) {
            Some(Ty::Double)
        } else {
            None
        },
        AggKind::Product => if is_number(ity) {
            Some(Ty::Double)
        } else {
            None
        },
        AggKind::StringAgg => if ity.phys() == PhysType::Bytes {
            Some(Ty::Varchar)
        } else {
            None
        },
        AggKind::ArrayAgg => Some(Ty::Varchar),
        AggKind::BoolAnd => if ity.phys() == PhysType::Bool {
            Some(Ty::Boolean)
        } else {
            None
        },
        AggKind::BoolOr => if ity.phys() == PhysType::Bool {
            Some(Ty::Boolean)
        } else {
            None
        },
        AggKind::Min => Some(ity),
        AggKind::Max => Some(ity),
        AggKind::Mode => Some(ity),
        AggKind::AnyValue => Some(ity),
        AggKind::Last => Some(ity),
    }
}

fn number(ty: Ty) -> (r: bool)
    ensures
        r == is_number(ty),
{
    match ty {
        Ty::TinyInt => true,
        Ty::SmallInt => true,
        Ty::Int => true,
        Ty::BigInt => true,
        Ty::HugeInt => true,
        Ty::UTinyInt => true,
        Ty::USmallInt => true,
        Ty::UInt => true,
        Ty::UBigInt => true,
        Ty::Float => true,
        Ty::Double => true,
        Ty::Decimal { precision: _, scale: _ } => true,
        _ => false,
    }
}

impl AggV {
    /// The argument's type; `COUNT(*)`, which has none, counts as `BIGINT`.
    pub open spec fn input_ty(self) -> Ty {
        match self.arg {
            Some(p) => p.result_ty,
            None => Ty::BigInt,
        }
    }
}

impl Agg {
    /// The argument's type.
    pub fn input_ty(&self) -> (r: Ty)
        ensures
            r == self@.input_ty(),
    {
        match &self.arg {
            Some(p) => p.result_ty,
            None => Ty::BigInt,
        }
    }

    /// The type of the result, or `TypeMismatch` where the argument's type has no
    /// such aggregate.
    pub fn result_ty(&self) -> (r: Result<Ty, Error>)
        ensures
            match r {
                Ok(t) => aggregate_ty(self.kind, self@.input_ty()) == Some(t),
                Err(e) => aggregate_ty(self.kind, self@.input_ty()) is None && e.code == Code::TypeMismatch,
            },
    {
        let ity: Ty = self.input_ty();
        let ok: Option<Ty> = match self.kind {
            AggKind::CountStar | AggKind::Count | AggKind::ApproxCountDistinct | AggKind::CountIf => Some(
                Ty::BigInt,
            ),
            AggKind::Sum => if !number(ity) {
                None
            } else if ity.phys() == PhysType::F64 {
                Some(Ty::Double)
            } else {
                match ity {
                    Ty::Decimal { precision: _, scale } => Some(Ty::Decimal { precision: 38, scale }),
                    _ => Some(Ty::HugeInt),
                }
            },
            AggKind::Avg | AggKind::StdDev | AggKind::Variance | AggKind::Median | AggKind::Product => if number(
                ity,
            ) {
                Some(Ty::Double)
            } else {
                None
            },
            AggKind::StringAgg => if ity.phys() == PhysType::Bytes {
                Some(Ty::Varchar)
            } else {
                None
            },
            AggKind::ArrayAgg => Some(Ty::Varchar),
            AggKind::BoolAnd | AggKind::BoolOr => if ity.phys() == PhysType::Bool {
                Some(Ty::Boolean)
            } else {
                None
            },
            AggKind::Min | AggKind::Max | AggKind::Mode | AggKind::AnyValue | AggKind::Last => Some(ity),
        };
        match ok {
            Some(t) => Ok(t),
            None => Err(Error::new(Code::TypeMismatch)),
        }
    }

    pub fn dup(&self) -> (r: Agg)
        ensures
            r@ == self@,
    {
        Agg {
            kind: self.kind,
            arg: crate::expr::dup_opt_program(&self.arg),
            distinct: self.distinct,
            name: self.name.clone(),
            separator: crate::hash::copy_bytes(self.separator.as_slice()),
            filter: crate::expr::dup_opt_program(&self.filter),
        }
    }
}

pub fn dup_aggs(xs: &Vec<Agg>) -> (r: Vec<Agg>)
    ensures
        aggs_of(r@) == aggs_of(xs@),
{
    let mut r: Vec<Agg> = Vec::new();
    let mut i: usize = 0;
    while i < xs.len()
        invariant
            i <= xs@.len(),
            r@.len() == i,
            forall|j: int| 0 <= j < i ==> (#[trigger] r@[j])@ == xs@[j]@,
        decreases xs@.len() - i,
    {
        r.push(xs[i].dup());
        i = i + 1;
    }
    assert(aggs_of(r@) =~= aggs_of(xs@));
    r
}

#[derive(Clone, Copy, PartialEq, Eq, Structural, Debug)]
pub enum WindowFrame {
    /// The whole partition.
    WholePartition,
    /// From the partition's start to the last peer of the current row.
    RangeUnboundedPreceding,
}

#[derive(Clone, Copy, PartialEq, Eq, Structural, Debug)]
pub enum WindowKind {
    RowNumber,
    Rank,
    DenseRank,
    Lag,
    Lead,
    FirstValue,
    LastValue,
    NthValue,
    NTile,
    PercentRank,
    CumeDist,
    Agg(AggKind),
}

/// One window function of a query.
#[derive(Debug)]
pub struct WindowSpec {
    pub kind: WindowKind,
    pub args: Vec<Program>,
    pub partition_by: Vec<Program>,
    pub order_by: Vec<SortKey>,
    pub frame: WindowFrame,
    pub result_ty: Ty,
    pub name: String,
}

#[verifier::ext_equal]
pub struct WindowV {
    pub kind: WindowKind,
    pub args: Seq<ProgramV>,
    pub partition_by: Seq<ProgramV>,
    pub order_by: Seq<SortKeyV>,
    pub frame: WindowFrame,
    pub result_ty: Ty,
}

impl View for WindowSpec {
    type V = WindowV;

    open spec fn view(&self) -> WindowV {
        WindowV {
            kind: self.kind,
            args: progs_of(self.args@),
            partition_by: progs_of(self.partition_by@),
            order_by: keys_of(self.order_by@),
            frame: self.frame,
            result_ty: self.result_ty,
        }
    }
}

pub open spec fn windows_of(xs: Seq<WindowSpec>) -> Seq<WindowV> {
    Seq::new(xs.len(), |i: int| xs[i]@)
}

pub fn dup_windows(xs: &Vec<WindowSpec>) -> (r: Vec<WindowSpec>)
    ensures
        windows_of(r@) == windows_of(xs@),
{
    let mut r: Vec<WindowSpec> = Vec::new();
    let mut i: usize = 0;
    while i < xs.len()
        invariant
            i <= xs@.len(),
            r@.len() == i,
            forall|j: int| 0 <= j < i ==> (#[trigger] r@[j])@ == xs@[j]@,
        decreases xs@.len() - i,
    {
        r.push(
            WindowSpec {
                kind: xs[i].kind,
                args: crate::expr::dup_programs(&xs[i].args),
                partition_by: crate::expr::dup_programs(&xs[i].partition_by),
                order_by: dup_keys(&xs[i].order_by),
                frame: xs[i].frame,
                result_ty: xs[i].result_ty,
                name: xs[i].name.clone(),
            },
        );
        i = i + 1;
    }
    assert(windows_of(r@) =~= windows_of(xs@));
    r
}

/// A predicate by which splits are pruned, as a value.
#[verifier::ext_equal]
pub struct PrunerV {
    pub column: usize,
    pub op: crate::format::PruneOp,
    pub value: Val,
    pub in_values: Seq<Val>,
}

pub open spec fn pruners_of(xs: Seq<Pruner>) -> Seq<PrunerV> {
    Seq::new(
        xs.len(),
        |i: int|
            PrunerV {
                column: xs[i].column,
                op: xs[i].op,
                value: xs[i].value@,
                in_values: Seq::new(xs[i].in_values@.len(), |k: int| xs[i].in_values@[k]@),
            },
    )
}

fn dup_values(xs: &Vec<crate::vector::Value>) -> (r: Vec<crate::vector::Value>)
    ensures
        r@.len() == xs@.len(),
        forall|j: int| 0 <= j < r@.len() ==> (#[trigger] r@[j])@ == xs@[j]@,
{
    let mut r: Vec<crate::vector::Value> = Vec::new();
    let mut i: usize = 0;
    while i < xs.len()
        invariant
            i <= xs@.len(),
            r@.len() == i,
            forall|j: int| 0 <= j < i ==> (#[trigger] r@[j])@ == xs@[j]@,
        decreases xs@.len() - i,
    {
        r.push(xs[i].dup());
        i = i + 1;
    }
    r
}

/// What a scan reads: the table's number in the catalog, the columns, and the
/// predicates that may rule splits out.
#[derive(Debug)]
pub struct ScanSpec {
    pub table: usize,
    pub columns: Vec<usize>,
    pub pruners: Vec<Pruner>,
    pub schema: Vec<Field>,
}

impl ScanSpec {
    pub fn dup(&self) -> (r: ScanSpec)
        ensures
            r.table == self.table,
            r.columns@ == self.columns@,
            pruners_of(r.pruners@) == pruners_of(self.pruners@),
            fields_of(r.schema@) == fields_of(self.schema@),
    {
        let mut columns: Vec<usize> = Vec::new();
        let mut i: usize = 0;
        while i < self.columns.len()
            invariant
                i <= self.columns@.len(),
                columns@ == self.columns@.take(i as int),
            decreases self.columns@.len() - i,
        {
            columns.push(self.columns[i]);
            i = i + 1;
            assert(columns@ =~= self.columns@.take(i as int));
        }
        assert(columns@ =~= self.columns@);
        let mut pruners: Vec<Pruner> = Vec::new();
        let mut k: usize = 0;
        while k < self.pruners.len()
            invariant
                k <= self.pruners@.len(),
                pruners@.len() == k,
                forall|j: int|
                    0 <= j < k ==> #[trigger] pruners_of(pruners@)[j] == pruners_of(self.pruners@)[j],
            decreases self.pruners@.len() - k,
        {
            let p: &Pruner = &self.pruners[k];
            let ghost before = pruners@;
            pruners.push(
                Pruner {
                    column: p.column,
                    op: p.op,
                    value: p.value.dup(),
                    in_values: dup_values(&p.in_values),
                },
            );
            k = k + 1;
            assert forall|j: int| 0 <= j < k implies #[trigger] pruners_of(pruners@)[j] == pruners_of(
                self.pruners@,
            )[j] by {
                if j < k - 1 {
                    assert(pruners_of(before)[j] == pruners_of(pruners@)[j]);
                } else {
                    assert(pruners_of(pruners@)[j].in_values =~= pruners_of(self.pruners@)[j].in_values);
                }
            }
        }
        assert(pruners_of(pruners@) =~= pruners_of(self.pruners@));
        ScanSpec { table: self.table, columns, pruners, schema: dup_fields(self.schema.as_slice()) }
    }
}

/// The in-memory table a scan reads.
#[derive(Debug)]
pub struct MemScanSpec {
    pub table: usize,
    pub schema: Vec<Field>,
}

/// How a sample is drawn. The amount is a percentage or, if `is_rows`, a number
/// of rows; it is the bit pattern of a double.
#[derive(Clone, Copy, Debug)]
pub struct SampleSpec {
    pub amount: u64,
    pub is_rows: bool,
    pub seed: u64,
}

/// The seed of a sample whose query names none.
pub const DEFAULT_SAMPLE_SEED: u64 = 0x5eed;

/// A node of the plan.
#[allow(inconsistent_fields)]
#[derive(Debug)]
pub enum Node {
    Scan(Box<ScanSpec>),
    MemScan(Box<MemScanSpec>),
    Filter { input: Box<Node>, pred: Program },
    Project { input: Box<Node>, exprs: Vec<Program>, schema: Vec<Field> },
    Limit { input: Box<Node>, limit: Option<u64>, offset: u64 },
    Aggregate {
        input: Box<Node>,
        groups: Vec<Program>,
        aggs: Vec<Agg>,
        having: Option<Program>,
        schema: Vec<Field>,
    },
    Sort { input: Box<Node>, keys: Vec<SortKey>, limit: Option<usize> },
    Join {
        left: Box<Node>,
        right: Box<Node>,
        kind: JoinKind,
        left_keys: Vec<Program>,
        right_keys: Vec<Program>,
        residual: Option<Program>,
        schema: Vec<Field>,
    },
    Window { input: Box<Node>, windows: Vec<WindowSpec>, schema: Vec<Field> },
    SetOp { left: Box<Node>, right: Box<Node>, op: SetOpKind, all: bool, schema: Vec<Field> },
    DistinctOn { input: Box<Node>, keys: Vec<Program> },
    RecursiveCte { anchor: Box<Node>, recursive_term: Rc<Node>, union_all: bool, schema: Vec<Field> },
    WorkingTable { schema: Vec<Field> },
    Unnest { input: Box<Node>, expr: Program, elem_ty: Ty, schema: Vec<Field> },
    GenerateSeries { start: i64, stop: i64, step: i64, inclusive: bool, schema: Vec<Field> },
    Sample { input: Box<Node>, spec: SampleSpec },
    AssertMaxOneRow { input: Box<Node>, keys: Vec<Program> },
}

impl Node {
    pub open spec fn schema_spec(&self) -> Seq<Field>
        decreases self,
    {
        match self {
            Node::Scan(s) => s.schema@,
            Node::MemScan(s) => s.schema@,
            Node::Filter { input, pred } => input.schema_spec(),
            Node::Project { input, exprs, schema } => schema@,
            Node::Limit { input, limit, offset } => input.schema_spec(),
            Node::Aggregate { input, groups, aggs, having, schema } => schema@,
            Node::Sort { input, keys, limit } => input.schema_spec(),
            Node::Join { left, right, kind, left_keys, right_keys, residual, schema } => schema@,
            Node::Window { input, windows, schema } => schema@,
            Node::SetOp { left, right, op, all, schema } => schema@,
            Node::DistinctOn { input, keys } => input.schema_spec(),
            Node::RecursiveCte { anchor, recursive_term, union_all, schema } => schema@,
            Node::WorkingTable { schema } => schema@,
            Node::Unnest { input, expr, elem_ty, schema } => schema@,
            Node::GenerateSeries { start, stop, step, inclusive, schema } => schema@,
            Node::Sample { input, spec } => input.schema_spec(),
            Node::AssertMaxOneRow { input, keys } => input.schema_spec(),
        }
    }

    /// The columns that the node produces.
    pub fn schema(&self) -> (r: &[Field])
        ensures
            r@ == self.schema_spec(),
        decreases self,
    {
        match self {
            Node::Scan(s) => s.schema.as_slice(),
            Node::MemScan(s) => s.schema.as_slice(),
            Node::Filter { input, pred: _ } => input.schema(),
            Node::Project { input: _, exprs: _, schema } => schema.as_slice(),
            Node::Limit { input, limit: _, offset: _ } => input.schema(),
            Node::Aggregate { input: _, groups: _, aggs: _, having: _, schema } => schema.as_slice(),
            Node::Sort { input, keys: _, limit: _ } => input.schema(),
            Node::Join { left: _, right: _, kind: _, left_keys: _, right_keys: _, residual: _, schema } => schema.as_slice(),
            Node::Window { input: _, windows: _, schema } => schema.as_slice(),
            Node::SetOp { left: _, right: _, op: _, all: _, schema } => schema.as_slice(),
            Node::DistinctOn { input, keys: _ } => input.schema(),
            Node::RecursiveCte { anchor: _, recursive_term: _, union_all: _, schema } => schema.as_slice(),
            Node::WorkingTable { schema } => schema.as_slice(),
            Node::Unnest { input: _, expr: _, elem_ty: _, schema } => schema.as_slice(),
            Node::GenerateSeries { start: _, stop: _, step: _, inclusive: _, schema } => schema.as_slice(),
            Node::Sample { input, spec: _ } => input.schema(),
            Node::AssertMaxOneRow { input, keys: _ } => input.schema(),
        }
    }
}

/// The types of a schema's columns.
pub open spec fn schema_types(schema: Seq<Field>) -> Seq<Ty> {
    Seq::new(schema.len(), |i: int| schema[i].ty)
}

/// What an operator tree computes, as a value: the plan, with the working table of a
/// recursive query filled in.
#[allow(inconsistent_fields)]
pub enum NodeV {
    Scan { table: usize, columns: Seq<usize>, pruners: Seq<PrunerV> },
    MemScan { table: usize },
    Filter { input: Box<NodeV>, pred: ProgramV },
    Project { input: Box<NodeV>, exprs: Seq<ProgramV> },
    Limit { input: Box<NodeV>, limit: Option<u64>, offset: u64 },
    Aggregate { input: Box<NodeV>, groups: Seq<ProgramV>, aggs: Seq<AggV>, having: Option<ProgramV> },
    Sort { input: Box<NodeV>, keys: Seq<SortKeyV>, limit: Option<usize> },
    Join {
        left: Box<NodeV>,
        right: Box<NodeV>,
        kind: JoinKind,
        left_keys: Seq<ProgramV>,
        right_keys: Seq<ProgramV>,
        residual: Option<ProgramV>,
        left_types: Seq<Ty>,
        right_types: Seq<Ty>,
    },
    Window { input: Box<NodeV>, windows: Seq<WindowV> },
    SetOp { left: Box<NodeV>, right: Box<NodeV>, op: SetOpKind, all: bool },
    DistinctOn { input: Box<NodeV>, keys: Seq<ProgramV> },
    RecursiveCte { anchor: Box<NodeV>, recursive_term: Node, union_all: bool },
    Working { table: Seq<Chunk> },
    Unnest { input: Box<NodeV>, expr: ProgramV, elem_ty: Ty },
    GenerateSeries { start: i64, stop: i64, step: i64, inclusive: bool },
    Sample { input: Box<NodeV>, spec: SampleSpec },
    AssertMaxOneRow { input: Box<NodeV>, keys: Seq<ProgramV> },
    /// An operator that no plan node stands for.
    Other,
}

/// The plan that a node stands for, given the working table of the recursion it is in.
pub open spec fn planned(node: Node, working: Option<Seq<Chunk>>) -> NodeV
    decreases node,
{
    match node {
        Node::Scan(s) => NodeV::Scan {
            table: s.table,
            columns: s.columns@,
            pruners: pruners_of(s.pruners@),
        },
        Node::MemScan(s) => NodeV::MemScan { table: s.table },
        Node::Filter { input, pred } => NodeV::Filter {
            input: Box::new(planned(*input, working)),
            pred: pred@,
        },
        Node::Project { input, exprs, schema } => NodeV::Project {
            input: Box::new(planned(*input, working)),
            exprs: progs_of(exprs@),
        },
        Node::Limit { input, limit, offset } => NodeV::Limit {
            input: Box::new(planned(*input, working)),
            limit,
            offset,
        },
        Node::Aggregate { input, groups, aggs, having, schema } => NodeV::Aggregate {
            input: Box::new(planned(*input, working)),
            groups: progs_of(groups@),
            aggs: aggs_of(aggs@),
            having: opt_prog(having),
        },
        Node::Sort { input, keys, limit } => NodeV::Sort {
            input: Box::new(planned(*input, working)),
            keys: keys_of(keys@),
            limit,
        },
        Node::Join { left, right, kind, left_keys, right_keys, residual, schema } => NodeV::Join {
            left: Box::new(planned(*left, working)),
            right: Box::new(planned(*right, working)),
            kind,
            left_keys: progs_of(left_keys@),
            right_keys: progs_of(right_keys@),
            residual: opt_prog(residual),
            left_types: schema_types(left.schema_spec()),
            right_types: schema_types(right.schema_spec()),
        },
        Node::Window { input, windows, schema } => NodeV::Window {
            input: Box::new(planned(*input, working)),
            windows: windows_of(windows@),
        },
        Node::SetOp { left, right, op, all, schema } => NodeV::SetOp {
            left: Box::new(planned(*left, working)),
            right: Box::new(planned(*right, working)),
            op,
            all,
        },
        Node::DistinctOn { input, keys } => NodeV::DistinctOn {
            input: Box::new(planned(*input, working)),
            keys: progs_of(keys@),
        },
        Node::RecursiveCte { anchor, recursive_term, union_all, schema } => NodeV::RecursiveCte {
            anchor: Box::new(planned(*anchor, working)),
            recursive_term: *recursive_term,
            union_all,
        },
        Node::WorkingTable { schema } => match working {
            Some(w) => NodeV::Working { table: w },
            None => NodeV::Other,
        },
        Node::Unnest { input, expr, elem_ty, schema } => NodeV::Unnest {
            input: Box::new(planned(*input, working)),
            expr: expr@,
            elem_ty,
        },
        Node::GenerateSeries { start, stop, step, inclusive, schema } => NodeV::GenerateSeries {
            start,
            stop,
            step,
            inclusive,
        },
        Node::Sample { input, spec } => NodeV::Sample {
            input: Box::new(planned(*input, working)),
            spec,
        },
        Node::AssertMaxOneRow { input, keys } => NodeV::AssertMaxOneRow {
            input: Box::new(planned(*input, working)),
            keys: progs_of(keys@),
        },
    }
}

} // verus!
