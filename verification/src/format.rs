//! What a table's file format does.
//!
//! A format turns fetched bytes into columns, one split at a time. It never
//! fetches bytes itself: it names the ranges that it needs.

use crate::catalog::Source;
use crate::error::Error;
use crate::vector::{Field, Value, Vector};
use vstd::prelude::*;

verus! {

/// The comparison of a pruning predicate.
#[derive(Clone, Copy, PartialEq, Eq, Structural, Debug)]
pub enum PruneOp {
    Eq,
    Ne,
    Lt,
    Le,
    Gt,
    Ge,
    In,
}

/// A predicate `column op value` by which a format may rule out splits.
#[derive(Debug)]
pub struct Pruner {
    pub column: usize,
    pub op: PruneOp,
    pub value: Value,
    pub in_values: Vec<Value>,
}

/// The compression of a block.
#[derive(Clone, Copy, PartialEq, Eq, Structural, Debug)]
pub enum Compression {
    Uncompressed,
    Snappy,
    Gzip,
    Lzo,
    Brotli,
    Lz4,
    Zstd,
    Lz4Raw,
}

/// How a table's files are read.
#[derive(Clone, Copy, PartialEq, Eq, Structural, Debug)]
pub enum FormatKind {
    /// By the extension of the file's name.
    Auto,
    Parquet,
    Csv,
    Tsv,
    Jsonl,
}

/// A compressed block to be decompressed by the host.
#[derive(Clone, Copy, Debug)]
pub struct CodecTask {
    pub codec: Compression,
    pub offset: u64,
    pub len: u32,
    pub out_len: u32,
}

/// Either the schema is known, or this byte range (offset, length) is needed first.
pub type ResolveStep = Result<(), (u64, u64)>;

/// A page-level pruning of a split.
pub struct Pruning {
    pub src: Source,
    pub split: usize,
    pub pruners: Seq<Pruner>,
    pub projection: Seq<usize>,
}

/// What a format tells of a file, once resolved.
pub struct FormatV {
    /// The number of splits.
    pub split_count: usize,
    pub matching: spec_fn(usize, Seq<Pruner>, Seq<usize>) -> bool,
    pub index_bytes: spec_fn(usize, Seq<Pruner>, Seq<usize>) -> Result<Vec<(u64, u64)>, Error>,
    pub refinement: spec_fn(Pruning) -> Result<bool, Error>,
    pub split_bytes: spec_fn(usize, Seq<usize>) -> Result<Vec<(u64, u64)>, Error>,
    pub blocks: spec_fn(Source, usize, Seq<usize>) -> Result<Vec<CodecTask>, Error>,
    pub contents: spec_fn(Source, usize, Seq<usize>) -> Result<Vec<Vector>, Error>,
}

impl FormatV {
    /// Whether a row of the split can satisfy the predicates.
    pub open spec fn matching(self, split: usize, pruners: Seq<Pruner>, projection: Seq<usize>) -> bool {
        (self.matching)(split, pruners, projection)
    }

    /// The byte ranges that page-level pruning needs.
    pub open spec fn index_bytes(self, split: usize, pruners: Seq<Pruner>, projection: Seq<usize>) -> Result<
        Vec<(u64, u64)>,
        Error,
    > {
        (self.index_bytes)(split, pruners, projection)
    }

    /// Whether page-level pruning leaves anything of the split.
    pub open spec fn refinement(self, p: Pruning) -> Result<bool, Error> {
        (self.refinement)(p)
    }

    /// The byte ranges that reading a split needs.
    pub open spec fn split_bytes(self, split: usize, projection: Seq<usize>) -> Result<Vec<(u64, u64)>, Error> {
        (self.split_bytes)(split, projection)
    }

    /// The blocks of a split that the host has to decompress.
    pub open spec fn blocks(self, src: Source, split: usize, projection: Seq<usize>) -> Result<Vec<CodecTask>, Error> {
        (self.blocks)(src, split, projection)
    }

    /// The columns of a split.
    pub open spec fn contents(self, src: Source, split: usize, projection: Seq<usize>) -> Result<Vec<Vector>, Error> {
        (self.contents)(src, split, projection)
    }
}

/// A file format. Each result depends on the file's bytes, the prunings settled so far and the arguments
/// alone; the spec functions name it.
pub trait TableFormat {
    /// What `resolve` answers, given the bytes fetched so far.
    open spec fn resolution(&self, src: Source) -> Result<ResolveStep, Error> {
        arbitrary()
    }

    /// The columns, once resolved.
    open spec fn fields(&self) -> Seq<Field> {
        arbitrary()
    }

    /// What the format tells of the file after some prunings of splits.
    open spec fn told(&self, prunings: Seq<Pruning>) -> FormatV {
        arbitrary()
    }

    fn resolve(&mut self, src: &Source) -> (r: Result<ResolveStep, Error>)
        ensures
            r == old(self).resolution(*src),
    ;

    fn is_resolved(&self) -> bool;

    fn schema(&self) -> (r: &[Field])
        ensures
            r@ == self.fields(),
    ;

    fn num_splits(&self) -> (r: usize)
        ensures
            r == self.told(Seq::empty()).split_count,
    ;

    fn split_rows(&self, split: usize) -> Option<u64>;

    /// The half-open byte ranges that reading a split needs.
    fn split_ranges(&self, split: usize, projection: &[usize]) -> (r: Result<Vec<(u64, u64)>, Error>)
        ensures
            r == self.told(Seq::empty()).split_bytes(split, projection@),
            r matches Ok(ranges) ==> ranges_ok(ranges@),
    ;

    /// The blocks of a split that the host has to decompress.
    fn codec_tasks(&self, src: &Source, split: usize, projection: &[usize]) -> (r: Result<Vec<CodecTask>, Error>)
        ensures
            r == self.told(Seq::empty()).blocks(*src, split, projection@),
    ;

    /// `false` if no row of the split can satisfy the predicates.
    fn may_match(&self, split: usize, pruners: &[Pruner], projection: &[usize]) -> (r: bool)
        ensures
            r == self.told(Seq::empty()).matching(split, pruners@, projection@),
    ;

    /// The half-open byte ranges that page-level pruning needs.
    fn index_ranges(&self, split: usize, pruners: &[Pruner], projection: &[usize]) -> (r: Result<
        Vec<(u64, u64)>,
        Error,
    >)
        ensures
            r == self.told(Seq::empty()).index_bytes(split, pruners@, projection@),
            r matches Ok(ranges) ==> ranges_ok(ranges@),
    ;

    /// Settles page-level pruning; `false` if the split can be skipped.
    fn refine_with_index(
        &mut self,
        src: &Source,
        split: usize,
        pruners: &[Pruner],
        projection: &[usize],
    ) -> (r: Result<bool, Error>)
        ensures
            r == old(self).told(Seq::empty()).refinement(
                Pruning { src: *src, split, pruners: pruners@, projection: projection@ },
            ),
            forall|more: Seq<Pruning>| #[trigger]
                final(self).told(more) == old(self).told(
                    seq![Pruning { src: *src, split, pruners: pruners@, projection: projection@ }] + more,
                ),
    ;

    /// The columns of a split; every cell fits its column.
    fn read_split(&self, src: &Source, split: usize, projection: &[usize]) -> (r: Result<Vec<Vector>, Error>)
        ensures
            r == self.told(Seq::empty()).contents(*src, split, projection@),
            r matches Ok(cols) ==> forall|c: int| 0 <= c < cols@.len() ==> (#[trigger] cols@[c]).wf(),
    ;
}

/// Every range starts no later than it ends.
pub open spec fn ranges_ok(ranges: Seq<(u64, u64)>) -> bool {
    forall|i: int| 0 <= i < ranges.len() ==> (#[trigger] ranges[i]).0 <= ranges[i].1
}

/// What decompresses blocks within the process. The spec function names its result.
pub trait CodecHook {
    open spec fn output(&self, codec: Compression, block: Seq<u8>, out_len: u32) -> Result<Vec<u8>, Error> {
        arbitrary()
    }

    fn decompress(&self, codec: Compression, block: &[u8], out_len: u32) -> (r: Result<Vec<u8>, Error>)
        ensures
            r == self.output(codec, block@, out_len),
    ;
}

} // verus!
