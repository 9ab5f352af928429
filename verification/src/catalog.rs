//! The table catalog and byte sources.
//!
//! A [`Source`] is the set of bytes of a file that have been fetched so far. A
//! file that lies in memory as a whole is the case in which that set covers
//! everything; for a file fetched by ranges the set grows as ranges arrive.

use crate::error::{Code, Error};
use crate::format::TableFormat;
use crate::hash::{eq_ascii_ci, same_name, same_name_is_an_equivalence};
use crate::vector::{
    cols_wf, dup_fields, fields_of, name_bytes, Batch, Field, FieldV, Ty, Val, Value, Vector,
    MAX_ROWS,
};
use vstd::prelude::*;

verus! {

// --- Sources -----------------------------------------------------------------------

/// The bytes of one file that have been fetched so far.
pub struct Source {
    pub total_len: u64,
    /// Start offset and data, in ascending order. Neighbours neither overlap nor
    /// touch.
    pub chunks: Vec<(u64, Vec<u8>)>,
    /// Decompressed pages, keyed by the offset and length of the compressed page.
    pub decoded: Vec<((u64, u32), Vec<u8>)>,
}

spec fn chunk_end(c: (u64, Vec<u8>)) -> int {
    c.0 + c.1@.len()
}

spec fn in_chunk(c: (u64, Vec<u8>), o: int) -> bool {
    c.0 <= o < chunk_end(c)
}

spec fn chunks_ok(chunks: Seq<(u64, Vec<u8>)>) -> bool {
    &&& forall|i: int| 0 <= i < chunks.len() ==> chunk_end(#[trigger] chunks[i]) <= u64::MAX
    &&& forall|i: int, j: int|
        0 <= i < j < chunks.len() ==> chunk_end(#[trigger] chunks[i]) < (#[trigger] chunks[j]).0
}

impl Source {
    pub closed spec fn wf(&self) -> bool {
        &&& chunks_ok(self.chunks@)
        &&& forall|i: int, j: int|
            0 <= i < j < self.decoded@.len() ==> (#[trigger] self.decoded@[i]).0 != (
            #[trigger] self.decoded@[j]).0
    }

    /// The length of the file.
    pub open spec fn file_len(&self) -> u64 {
        self.total_len
    }

    /// The byte at an offset, if it has been fetched.
    pub closed spec fn byte(&self, o: int) -> Option<u8> {
        if exists|i: int| 0 <= i < self.chunks@.len() && in_chunk(#[trigger] self.chunks@[i], o) {
            let i = choose|i: int| 0 <= i < self.chunks@.len() && in_chunk(#[trigger] self.chunks@[i], o);
            Some(self.chunks@[i].1@[o - self.chunks@[i].0])
        } else {
            None
        }
    }

    /// Whether an offset lies in, or at the end of, a fetched range.
    pub closed spec fn touches(&self, o: int) -> bool {
        exists|i: int|
            0 <= i < self.chunks@.len() && (#[trigger] self.chunks@[i]).0 <= o <= chunk_end(
                self.chunks@[i],
            )
    }

    /// Whether a whole range has been fetched. An empty range counts as fetched
    /// where fetched bytes lie next to it.
    pub open spec fn has_range(&self, off: int, len: int) -> bool {
        if len == 0 {
            self.touches(off)
        } else {
            forall|o: int| off <= o < off + len ==> (#[trigger] self.byte(o)) is Some
        }
    }

    /// What has to be fetched for a range: all of it, as far as the file goes, unless
    /// it is there already or empty.
    pub open spec fn absent(&self, off: u64, len: u64) -> Option<(u64, u64)> {
        if len == 0 || (off + len <= u64::MAX && len <= usize::MAX && self.has_range(off as int, len as int)) {
            None
        } else if off >= self.file_len() {
            Some((off, 0))
        } else if len <= self.file_len() - off {
            Some((off, len))
        } else {
            Some((off, (self.file_len() - off) as u64))
        }
    }

    /// The decompressed page under a key.
    pub closed spec fn page(&self, offset: u64, len: u32) -> Option<Seq<u8>> {
        if exists|i: int| 0 <= i < self.decoded@.len() && (#[trigger] self.decoded@[i]).0 == (offset, len) {
            let i = choose|i: int| 0 <= i < self.decoded@.len() && (#[trigger] self.decoded@[i]).0 == (offset, len);
            Some(self.decoded@[i].1@)
        } else {
            None
        }
    }

    proof fn lemma_byte(&self, i: int, o: int)
        requires
            self.wf(),
            0 <= i < self.chunks@.len(),
            in_chunk(self.chunks@[i], o),
        ensures
            self.byte(o) == Some(self.chunks@[i].1@[o - self.chunks@[i].0]),
    {
        let j = choose|j: int| 0 <= j < self.chunks@.len() && in_chunk(#[trigger] self.chunks@[j], o);
        if j < i {
            assert(chunk_end(self.chunks@[j]) < self.chunks@[i].0);
        } else if i < j {
            assert(chunk_end(self.chunks@[i]) < self.chunks@[j].0);
        }
    }

    proof fn lemma_page(&self, i: int)
        requires
            self.wf(),
            0 <= i < self.decoded@.len(),
        ensures
            self.page(self.decoded@[i].0.0, self.decoded@[i].0.1) == Some(self.decoded@[i].1@),
    {
        let k = self.decoded@[i].0;
        let j = choose|j: int| 0 <= j < self.decoded@.len() && (#[trigger] self.decoded@[j]).0 == k;
        assert(self.decoded@[i].0 == k);
    }

    /// The whole file is in memory.
    pub fn from_bytes(bytes: Vec<u8>) -> (s: Source)
        ensures
            s.wf(),
            s.file_len() == bytes@.len(),
            forall|o: int| #[trigger] s.byte(o) == if 0 <= o < bytes@.len() { Some(bytes@[o]) } else { None },
            forall|o: int| #[trigger] s.touches(o) == (0 <= o <= bytes@.len()),
            forall|o: u64, l: u32| #[trigger] s.page(o, l) is None,
            s.decoded_total() == 0,
    {
        let n: usize = bytes.len();
        let mut chunks: Vec<(u64, Vec<u8>)> = Vec::new();
        chunks.push((0, bytes));
        let s = Source { total_len: n as u64, chunks, decoded: Vec::new() };
        assert forall|o: int| #[trigger] s.byte(o) == if 0 <= o < bytes@.len() { Some(bytes@[o]) } else { None::<u8> } by {
            if 0 <= o < bytes@.len() {
                assert(in_chunk(s.chunks@[0], o));
                s.lemma_byte(0, o);
            }
        }
        assert forall|o: int| #[trigger] s.touches(o) == (0 <= o <= bytes@.len()) by {
            assert(s.chunks@[0].0 == 0 && chunk_end(s.chunks@[0]) == bytes@.len());
        }
        s
    }

    /// Nothing of the file has been fetched yet.
    pub fn remote(total_len: u64) -> (s: Source)
        ensures
            s.wf(),
            s.file_len() == total_len,
            forall|o: int| #[trigger] s.byte(o) is None,
            forall|o: int| !#[trigger] s.touches(o),
            forall|o: u64, l: u32| #[trigger] s.page(o, l) is None,
            s.decoded_total() == 0,
    {
        Source { total_len, chunks: Vec::new(), decoded: Vec::new() }
    }

    /// The bytes `[off, off + len)`, if they have been fetched.
    pub fn get(&self, off: u64, len: usize) -> (r: Option<&[u8]>)
        requires
            self.wf(),
        ensures
            match r {
                Some(s) => {
                    &&& s@.len() == len
                    &&& off + len <= u64::MAX
                    &&& self.has_range(off as int, len as int)
                    &&& forall|k: int| 0 <= k < len ==> self.byte(#[trigger] (off + k)) == Some(s@[k])
                },
                None => off + len > u64::MAX || !self.has_range(off as int, len as int),
            },
    {
        let end: u64 = match off.checked_add(len as u64) {
            Some(e) => e,
            None => {
                return None;
            },
        };
        let mut i: usize = 0;
        while i < self.chunks.len()
            invariant
                self.wf(),
                end == off + len,
                i <= self.chunks@.len(),
                forall|j: int|
                    0 <= j < i ==> !((#[trigger] self.chunks@[j]).0 <= off && end <= chunk_end(
                        self.chunks@[j],
                    )),
            decreases self.chunks@.len() - i,
        {
            let c = &self.chunks[i];
            let start: u64 = c.0;
            assert(chunk_end(self.chunks@[i as int]) <= u64::MAX);
            let cend: u64 = start + c.1.len() as u64;
            if start <= off && end <= cend {
                let s: usize = (off - start) as usize;
                let r = vstd::slice::slice_subrange(c.1.as_slice(), s, s + len);
                proof {
                    assert forall|k: int| 0 <= k < len implies self.byte(#[trigger] (off + k)) == Some(r@[k]) by {
                        self.lemma_byte(i as int, off + k);
                    }
                    assert forall|o: int| off <= o < off + len implies (#[trigger] self.byte(o)) is Some by {
                        assert(self.byte(off + (o - off)) is Some);
                    }
                }
                return Some(r);
            }
            i = i + 1;
        }
        proof {
            if self.has_range(off as int, len as int) {
                if len == 0 {
                    let j = choose|j: int|
                        0 <= j < self.chunks@.len() && (#[trigger] self.chunks@[j]).0 <= off <= chunk_end(
                            self.chunks@[j],
                        );
                    assert(false);
                } else {
                    assert(self.byte(off as int) is Some);
                    let j = choose|j: int| 0 <= j < self.chunks@.len() && in_chunk(#[trigger] self.chunks@[j], off as int);
                    // The first byte past the chunk cannot be in any other chunk.
                    let o = chunk_end(self.chunks@[j]);
                    assert(o < end);
                    assert(self.byte(o) is Some);
                    let k = choose|k: int| 0 <= k < self.chunks@.len() && in_chunk(#[trigger] self.chunks@[k], o);
                    if j < k {
                        assert(chunk_end(self.chunks@[j]) < self.chunks@[k].0);
                    } else if k < j {
                        assert(chunk_end(self.chunks@[k]) < self.chunks@[j].0);
                    }
                    assert(false);
                }
            }
        }
        None
    }

    /// Registers fetched bytes. A byte that was fetched before stays as it is.
    pub fn insert(&mut self, off: u64, data: Vec<u8>)
        requires
            old(self).wf(),
            off + data@.len() <= u64::MAX,
        ensures
            final(self).wf(),
            final(self).file_len() == old(self).file_len(),
            forall|o: int| #[trigger]
                final(self).byte(o) == match old(self).byte(o) {
                    Some(b) => Some(b),
                    None => if off <= o < off + data@.len() {
                        Some(data@[o - off])
                    } else {
                        None
                    },
                },
            forall|o: u64, l: u32| #[trigger] final(self).page(o, l) == old(self).page(o, l),
            final(self).decoded_total() == old(self).decoded_total(),
            data@.len() == 0 ==> forall|o: int| #[trigger] final(self).touches(o) == old(self).touches(o),
            data@.len() > 0 ==> forall|o: int| #[trigger]
                final(self).touches(o) == (old(self).touches(o) || off <= o <= off + data@.len()),
    {
        if data.len() == 0 {
            return;
        }
        let ghost orig = self.chunks@;
        // The chunks before `lo` end before the new range begins.
        let mut lo: usize = 0;
        assert(self.chunks@.len() > 0 ==> chunk_end(orig[0]) <= u64::MAX);
        while lo < self.chunks.len() && self.chunks[lo].0 + (self.chunks[lo].1.len() as u64) < off
            invariant
                *self == *old(self),
                orig == self.chunks@,
                self.wf(),
                lo <= orig.len(),
                lo < orig.len() ==> chunk_end(orig[lo as int]) <= u64::MAX,
                forall|i: int| 0 <= i < lo ==> chunk_end(#[trigger] orig[i]) < off,
            decreases orig.len() - lo,
        {
            lo = lo + 1;
            assert(lo < orig.len() ==> chunk_end(orig[lo as int]) <= u64::MAX);
        }
        let (start, m, hi) = take_touching(&mut self.chunks, lo, off, &data);
        self.chunks.insert(lo, (start, m));
        proof {
            assert(self.chunks@ =~= orig.take(lo as int) + seq![(start, m)] + orig.skip(hi@));
            lemma_merged(*old(self), *self, lo as int, hi@, start, m, off, data@);
        }
    }

    /// The part of the range that has to be fetched: all of it, as far as the
    /// file goes, unless it is there already.
    pub fn missing(&self, off: u64, len: u64) -> (r: Option<(u64, u64)>)
        requires
            self.wf(),
        ensures
            r == self.absent(off, len),
    {
        if len == 0 || (len <= usize::MAX as u64 && self.get(off, len as usize).is_some()) {
            None
        } else {
            let rest: u64 = self.total_len.saturating_sub(off);
            Some((off, if len <= rest { len } else { rest }))
        }
    }

    /// Whether the whole file has been fetched.
    pub fn is_complete(&self) -> (r: bool)
        requires
            self.wf(),
        ensures
            r ==> forall|o: int| 0 <= o < self.file_len() ==> (#[trigger] self.byte(o)) is Some,
            r ==> self.byte(self.file_len() as int) is None,
            !r && self.file_len() > 0 ==> !(self.has_range(0, self.file_len() as int)
                && self.byte(self.file_len() as int) is None),
            r && self.file_len() == 0 ==> self.touches(0),
            !r && self.file_len() == 0 ==> !self.touches(0) || self.byte(0) is Some,
    {
        if self.chunks.len() == 0 {
            assert(!(self.total_len > 0 && self.byte(0) is Some));
            return false;
        }
        let r: bool = self.chunks[0].0 == 0 && self.chunks[0].1.len() as u64 == self.total_len;
        proof {
            let n = self.total_len as int;
            if r {
                assert(self.chunks@[0].0 <= 0 <= chunk_end(self.chunks@[0]));
                assert forall|o: int| 0 <= o < n implies (#[trigger] self.byte(o)) is Some by {
                    self.lemma_byte(0, o);
                }
                if self.byte(n) is Some {
                    let i = choose|i: int| 0 <= i < self.chunks@.len() && in_chunk(#[trigger] self.chunks@[i], n);
                    assert(i > 0 ==> chunk_end(self.chunks@[0]) < self.chunks@[i].0);
                }
            } else if n > 0 {
                if self.has_range(0, n) && self.byte(n) is None {
                    assert(self.byte(0) is Some);
                    let i = choose|i: int| 0 <= i < self.chunks@.len() && in_chunk(#[trigger] self.chunks@[i], 0);
                    assert(i > 0 ==> chunk_end(self.chunks@[0]) < self.chunks@[i].0);
                    let e = chunk_end(self.chunks@[0]);
                    if e < n {
                        assert(self.byte(e) is Some);
                        let k = choose|k: int| 0 <= k < self.chunks@.len() && in_chunk(#[trigger] self.chunks@[k], e);
                        assert(k > 0 ==> chunk_end(self.chunks@[0]) < self.chunks@[k].0);
                    } else if e > n {
                        self.lemma_byte(0, n);
                    }
                }
            } else {
                if self.touches(0) && self.byte(0) is None {
                    let i = choose|i: int|
                        0 <= i < self.chunks@.len() && (#[trigger] self.chunks@[i]).0 <= 0 <= chunk_end(
                            self.chunks@[i],
                        );
                    assert(i > 0 ==> chunk_end(self.chunks@[0]) < self.chunks@[i].0);
                    if self.chunks@[0].1@.len() > 0 {
                        self.lemma_byte(0, 0);
                    }
                }
            }
        }
        r
    }

    fn decoded_index(&self, offset: u64, len: u32) -> (r: Option<usize>)
        ensures
            match r {
                Some(i) => i < self.decoded@.len() && self.decoded@[i as int].0 == (offset, len),
                None => forall|i: int|
                    0 <= i < self.decoded@.len() ==> (#[trigger] self.decoded@[i]).0 != (offset, len),
            },
    {
        let mut i: usize = 0;
        while i < self.decoded.len()
            invariant
                i <= self.decoded@.len(),
                forall|j: int|
                    0 <= j < i ==> (#[trigger] self.decoded@[j]).0 != (offset, len),
            decreases self.decoded@.len() - i,
        {
            if self.decoded[i].0.0 == offset && self.decoded[i].0.1 == len {
                return Some(i);
            }
            i = i + 1;
        }
        None
    }

    /// Registers a page that the host decompressed.
    pub fn insert_decoded(&mut self, offset: u64, len: u32, data: Vec<u8>)
        requires
            old(self).wf(),
        ensures
            final(self).wf(),
            *final(self) == (Source { decoded: final(self).decoded, ..*old(self) }),
            final(self).page(offset, len) == Some(data@),
            final(self).decoded_total() == old(self).decoded_total() - (match old(self).page(offset, len) {
                Some(d) => d.len() as int,
                None => 0,
            }) + data@.len(),
            forall|o: u64, l: u32|
                (o, l) != (offset, len) ==> #[trigger] final(self).page(o, l) == old(self).page(o, l),
            forall|o: int| #[trigger] final(self).byte(o) == old(self).byte(o),
            forall|o: int| #[trigger] final(self).touches(o) == old(self).touches(o),
    {
        let ghost before = *self;
        let at: usize = match self.decoded_index(offset, len) {
            Some(i) => {
                self.decoded[i] = ((offset, len), data);
                proof {
                    before.lemma_page(i as int);
                    lemma_page_set(before.decoded@, i as int, ((offset, len), data));
                }
                i
            },
            None => {
                self.decoded.push(((offset, len), data));
                assert(self.decoded@.drop_last() =~= before.decoded@);
                self.decoded.len() - 1
            },
        };
        proof {
            assert(self.decoded@[at as int] == ((offset, len), data));
            assert forall|i: int, j: int| 0 <= i < j < self.decoded@.len() implies (#[trigger] self.decoded@[i]).0
                != (#[trigger] self.decoded@[j]).0 by {
                if j < before.decoded@.len() {
                    assert(before.decoded@[i].0 != before.decoded@[j].0);
                } else {
                    assert(before.decoded@[i].0 != (offset, len));
                }
            }
            self.lemma_page(at as int);
            lemma_same_chunks(*self, before);
            assert forall|o: u64, l: u32| (o, l) != (offset, len) implies #[trigger] self.page(o, l) == before.page(o, l) by {
                if exists|i: int| 0 <= i < self.decoded@.len() && (#[trigger] self.decoded@[i]).0 == (o, l) {
                    let i = choose|i: int| 0 <= i < self.decoded@.len() && (#[trigger] self.decoded@[i]).0 == (o, l);
                    assert(i != at);
                    assert(before.decoded@[i].0 == (o, l));
                    before.lemma_page(i);
                    self.lemma_page(i);
                } else if exists|i: int| 0 <= i < before.decoded@.len() && (#[trigger] before.decoded@[i]).0 == (o, l) {
                    let i = choose|i: int| 0 <= i < before.decoded@.len() && (#[trigger] before.decoded@[i]).0 == (o, l);
                    assert(self.decoded@[i].0 == (o, l));
                }
            }
        }
    }

    /// Whether a decompressed page is present.
    pub fn has_decoded(&self, offset: u64, len: u32) -> (r: bool)
        requires
            self.wf(),
        ensures
            r == (self.page(offset, len) is Some),
    {
        self.decoded_index(offset, len).is_some()
    }

    /// The decompressed page under a key.
    pub fn decoded_page(&self, offset: u64, len: u32) -> (r: Option<&[u8]>)
        requires
            self.wf(),
        ensures
            match r {
                Some(d) => self.page(offset, len) == Some(d@),
                None => self.page(offset, len) is None,
            },
    {
        match self.decoded_index(offset, len) {
            Some(i) => {
                proof {
                    self.lemma_page(i as int);
                }
                Some(self.decoded[i].1.as_slice())
            },
            None => None,
        }
    }

    /// The total size of the decompressed pages.
    pub closed spec fn decoded_total(&self) -> int {
        page_total(self.decoded@)
    }

    pub fn decoded_bytes(&self) -> (n: usize)
        requires
            self.wf(),
        ensures
            n == if self.decoded_total() > usize::MAX { usize::MAX as int } else { self.decoded_total() },
    {
        let mut n: usize = 0;
        let mut i: usize = 0;
        assert(self.decoded@.take(0).len() == 0);
        while i < self.decoded.len()
            invariant
                i <= self.decoded@.len(),
                n == clamp_usize(page_total(self.decoded@.take(i as int))),
                page_total(self.decoded@.take(i as int)) >= 0,
            decreases self.decoded@.len() - i,
        {
            n = n.saturating_add(self.decoded[i].1.len());
            i = i + 1;
            assert(self.decoded@.take(i as int).drop_last() =~= self.decoded@.take(i as int - 1));
        }
        assert(self.decoded@.take(i as int) =~= self.decoded@);
        n
    }

    /// Discards the decompressed pages.
    pub fn clear_decoded(&mut self)
        requires
            old(self).wf(),
        ensures
            final(self).wf(),
            *final(self) == (Source { decoded: final(self).decoded, ..*old(self) }),
            final(self).decoded@.len() == 0,
            final(self).decoded_total() == 0,
            forall|o: u64, l: u32| #[trigger] final(self).page(o, l) is None,
            forall|o: int| #[trigger] final(self).byte(o) == old(self).byte(o),
            forall|o: int| #[trigger] final(self).touches(o) == old(self).touches(o),
    {
        let ghost before = *self;
        self.decoded.clear();
        proof {
            lemma_same_chunks(*self, before);
        }
    }
}

pub open spec fn clamp_usize(n: int) -> int {
    if n > usize::MAX {
        usize::MAX as int
    } else {
        n
    }
}

spec fn page_total(d: Seq<((u64, u32), Vec<u8>)>) -> int
    decreases d.len(),
{
    if d.len() == 0 {
        0
    } else {
        page_total(d.drop_last()) + d.last().1@.len()
    }
}

/// Replacing a page replaces its size in the total.
proof fn lemma_page_set(d: Seq<((u64, u32), Vec<u8>)>, i: int, p: ((u64, u32), Vec<u8>))
    requires
        0 <= i < d.len(),
    ensures
        page_total(d.update(i, p)) == page_total(d) - d[i].1@.len() + p.1@.len(),
    decreases d.len(),
{
    if i == d.len() - 1 {
        assert(d.update(i, p).drop_last() =~= d.drop_last());
    } else {
        lemma_page_set(d.drop_last(), i, p);
        assert(d.update(i, p).drop_last() =~= d.drop_last().update(i, p));
    }
}

/// What byte belongs at an offset after merging the chunks `[lo, hi)` with new
/// data: the chunk's byte where there is one, else the byte of the data.
spec fn covered(
    orig: Seq<(u64, Vec<u8>)>,
    lo: int,
    hi: int,
    off: u64,
    data: Seq<u8>,
    o: int,
    b: u8,
) -> bool {
    if exists|i: int| lo <= i < hi && in_chunk(#[trigger] orig[i], o) {
        exists|i: int|
            lo <= i < hi && in_chunk(#[trigger] orig[i], o) && b == orig[i].1@[o - orig[i].0]
    } else {
        off <= o < off + data.len() && b == data[o - off]
    }
}

/// Takes the chunks that touch the new range out of the list and merges them
/// with the data; gives the merged chunk and where the taken chunks ended.
fn take_touching(chunks: &mut Vec<(u64, Vec<u8>)>, lo: usize, off: u64, data: &Vec<u8>) -> (r: (
    u64,
    Vec<u8>,
    Ghost<int>,
))
    requires
        chunks_ok(old(chunks)@),
        data@.len() > 0,
        off + data@.len() <= u64::MAX,
        lo <= old(chunks)@.len(),
        lo < old(chunks)@.len() ==> chunk_end(old(chunks)@[lo as int]) >= off,
    ensures
        ({
            let orig = old(chunks)@;
            let (start, m, hi) = r;
            let end = off + data@.len();
            &&& lo <= hi@ <= orig.len()
            &&& final(chunks)@ == orig.take(lo as int) + orig.skip(hi@)
            &&& start == if lo < orig.len() && orig[lo as int].0 < off { orig[lo as int].0 } else { off }
            &&& start + m@.len() <= u64::MAX
            &&& start + m@.len() >= end
            &&& lo < hi@ ==> start + m@.len() >= chunk_end(orig[hi@ - 1])
            &&& start + m@.len() == end || (lo < hi@ && start + m@.len() == chunk_end(orig[hi@ - 1]))
            &&& lo == hi@ ==> (lo < orig.len() ==> orig[lo as int].0 >= off)
            &&& forall|i: int| lo <= i < hi@ ==> (#[trigger] orig[i]).0 <= end
            &&& hi@ < orig.len() ==> orig[hi@].0 > end
            &&& forall|o: int|
                start <= o < start + m@.len() ==> covered(orig, lo as int, hi@, off, data@, o, #[trigger] m@[o - start])
        }),
{
    let len: usize = data.len();
    let end: u64 = off + len as u64;
    let ghost orig = chunks@;
    let start: u64 = if lo < chunks.len() && chunks[lo].0 < off {
        chunks[lo].0
    } else {
        off
    };
    let mut m: Vec<u8> = Vec::new();
    let ghost mut j: int = 0;
    assert(chunks@ =~= orig.take(lo as int) + orig.skip(lo as int));
    while lo < chunks.len() && chunks[lo].0 <= end
        invariant
            chunks_ok(orig),
            len == data@.len(),
            end == off + len,
            data@.len() > 0,
            0 <= j,
            lo + j <= orig.len(),
            chunks@ == orig.take(lo as int) + orig.skip(lo + j),
            lo < orig.len() ==> chunk_end(orig[lo as int]) >= off,
            start == if lo < orig.len() && orig[lo as int].0 < off { orig[lo as int].0 } else { off },
            j == 0 ==> m@.len() == 0,
            j > 0 ==> start + m@.len() == chunk_end(orig[lo + j - 1]),
            forall|i: int| lo <= i < lo + j ==> (#[trigger] orig[i]).0 <= end,
            forall|o: int|
                start <= o < start + m@.len() ==> covered(orig, lo as int, lo + j, off, data@, o, #[trigger] m@[o - start]),
        decreases orig.len() - lo - j,
    {
        assert(chunks@[lo as int] == orig[lo + j]);
        assert(chunk_end(orig[lo + j]) <= u64::MAX);
        proof {
            if j > 0 {
                assert(chunk_end(orig[lo + j - 1]) < orig[lo + j].0);
                assert(chunk_end(orig[lo as int]) >= off);
                if j > 1 {
                    assert(chunk_end(orig[lo as int]) < orig[lo + j - 1].0);
                }
                assert(start + m@.len() >= off);
            }
        }
        let c = chunks.remove(lo);
        assert(c == orig[lo + j]);
        let pos: u64 = start + m.len() as u64;
        let ghost m0 = m@;
        assert(pos <= c.0);
        if pos < c.0 {
            assert(pos >= off);
            let part = vstd::slice::slice_subrange(data.as_slice(), (pos - off) as usize, (c.0 - off) as usize);
            crate::hash::put_bytes(&mut m, part);
        }
        let ghost m1 = m@;
        crate::hash::put_bytes(&mut m, c.1.as_slice());
        proof {
            assert(chunks@ =~= orig.take(lo as int) + orig.skip(lo + j + 1));
            assert(start + m1.len() == c.0);
            assert forall|o: int| start <= o < start + m@.len() implies covered(orig, lo as int, lo + j + 1, off, data@, o, #[trigger] m@[o - start]) by {
                if o < start + m0.len() {
                    assert(m@[o - start] == m0[o - start]);
                    assert(covered(orig, lo as int, lo + j, off, data@, o, m0[o - start]));
                    assert(!in_chunk(orig[lo + j], o));
                    if exists|i: int| lo <= i < lo + j && in_chunk(#[trigger] orig[i], o) {
                        let i = choose|i: int| lo <= i < lo + j && in_chunk(#[trigger] orig[i], o) && m0[o - start] == orig[i].1@[o - orig[i].0];
                        assert(in_chunk(orig[i], o));
                    }
                } else if o < start + m1.len() {
                    assert(m@[o - start] == m1[o - start]);
                    assert(m1[o - start] == data@[o - off]);
                    assert forall|i: int| lo <= i < lo + j + 1 implies !in_chunk(#[trigger] orig[i], o) by {
                        if i < lo + j - 1 {
                            assert(chunk_end(orig[i]) < orig[lo + j - 1].0);
                        }
                    }
                } else {
                    assert(m@[o - start] == c.1@[o - c.0]);
                    assert(in_chunk(orig[lo + j], o));
                }
            }
            j = j + 1;
        }
    }
    let ghost hi = lo + j;
    let pos: u64 = start + m.len() as u64;
    let ghost m0 = m@;
    assert(chunks@.len() == orig.len() - j);
    assert(hi < orig.len() ==> chunks@[lo as int] == orig[hi]);
    if pos < end {
        proof {
            if j > 0 {
                assert(chunk_end(orig[lo as int]) >= off);
                if j > 1 {
                    assert(chunk_end(orig[lo as int]) < orig[lo + j - 1].0);
                }
            } else if lo < orig.len() && orig[lo as int].0 < off {
                assert(false);
            }
            assert(pos >= off);
        }
        let part = vstd::slice::slice_subrange(data.as_slice(), (pos - off) as usize, data.len());
        crate::hash::put_bytes(&mut m, part);
    }
    proof {
        if j > 0 {
            assert(chunk_end(orig[hi - 1]) <= u64::MAX);
        }
        assert forall|o: int| start <= o < start + m@.len() implies covered(orig, lo as int, hi, off, data@, o, #[trigger] m@[o - start]) by {
            if o < start + m0.len() {
                assert(m@[o - start] == m0[o - start]);
            } else {
                assert(m@[o - start] == data@[o - off]);
                assert forall|i: int| lo <= i < hi implies !in_chunk(#[trigger] orig[i], o) by {
                    if i < hi - 1 {
                        assert(chunk_end(orig[i]) < orig[hi - 1].0);
                    }
                }
            }
        }
    }
    (start, m, Ghost(hi))
}

proof fn lemma_same_chunks(a: Source, b: Source)
    requires
        a.wf(),
        b.wf(),
        a.chunks@ == b.chunks@,
    ensures
        forall|o: int| #[trigger] a.byte(o) == b.byte(o),
        forall|o: int| #[trigger] a.touches(o) == b.touches(o),
{
    assert forall|o: int| #[trigger] a.byte(o) == b.byte(o) by {
        if exists|i: int| 0 <= i < a.chunks@.len() && in_chunk(#[trigger] a.chunks@[i], o) {
            let i = choose|i: int| 0 <= i < a.chunks@.len() && in_chunk(#[trigger] a.chunks@[i], o);
            a.lemma_byte(i, o);
            b.lemma_byte(i, o);
        }
    }
}

proof fn lemma_merged(
    before: Source,
    after: Source,
    lo: int,
    hi: int,
    start: u64,
    m: Vec<u8>,
    off: u64,
    data: Seq<u8>,
)
    requires
        before.wf(),
        0 <= lo <= hi <= before.chunks@.len(),
        data.len() > 0,
        off + data.len() <= u64::MAX,
        after.decoded == before.decoded,
        after.chunks@ == before.chunks@.take(lo) + seq![(start, m)] + before.chunks@.skip(hi),
        start == if lo < before.chunks@.len() && before.chunks@[lo].0 < off { before.chunks@[lo].0 } else { off },
        start + m@.len() <= u64::MAX,
        start + m@.len() >= off + data.len(),
        lo < hi ==> start + m@.len() >= chunk_end(before.chunks@[hi - 1]),
        start + m@.len() == off + data.len() || (lo < hi && start + m@.len() == chunk_end(before.chunks@[hi - 1])),
        forall|i: int| 0 <= i < lo ==> chunk_end(#[trigger] before.chunks@[i]) < off,
        lo < before.chunks@.len() ==> chunk_end(before.chunks@[lo]) >= off,
        lo == hi ==> (lo < before.chunks@.len() ==> before.chunks@[lo].0 >= off),
        forall|i: int| lo <= i < hi ==> (#[trigger] before.chunks@[i]).0 <= off + data.len(),
        hi < before.chunks@.len() ==> before.chunks@[hi].0 > off + data.len(),
        forall|o: int|
            start <= o < start + m@.len() ==> covered(before.chunks@, lo, hi, off, data, o, #[trigger] m@[o - start]),
    ensures
        after.wf(),
        forall|o: int| #[trigger]
            after.byte(o) == match before.byte(o) {
                Some(b) => Some(b),
                None => if off <= o < off + data.len() {
                    Some(data[o - off])
                } else {
                    None
                },
            },
        forall|o: u64, l: u32| #[trigger] after.page(o, l) == before.page(o, l),
        forall|o: int| #[trigger]
            after.touches(o) == (before.touches(o) || off <= o <= off + data.len()),
{
    let orig = before.chunks@;
    let now = after.chunks@;
    let shift = hi - lo - 1;
    assert(forall|i: int| 0 <= i < lo ==> #[trigger] now[i] == orig[i]);
    assert(now[lo] == (start, m));
    assert(forall|i: int| lo < i < now.len() ==> #[trigger] now[i] == orig[i + shift]);
    assert forall|i: int, k: int| 0 <= i < k < now.len() implies chunk_end(#[trigger] now[i]) < (#[trigger] now[k]).0 by {
        if k < lo {
            assert(chunk_end(orig[i]) < orig[k].0);
        } else if k == lo {
            assert(chunk_end(orig[i]) < off);
            if lo < orig.len() {
                assert(chunk_end(orig[i]) < orig[lo].0);
            }
        } else {
            let kk = k + shift;
            assert(hi <= kk);
            if kk > hi {
                assert(chunk_end(orig[hi]) < orig[kk].0);
            }
            if i < lo {
                assert(chunk_end(orig[i]) < orig[kk].0);
            } else if i == lo {
                if lo < hi {
                    assert(chunk_end(orig[hi - 1]) < orig[kk].0);
                }
            } else {
                assert(chunk_end(orig[i + shift]) < orig[kk].0);
            }
        }
    }
    assert forall|i: int| 0 <= i < now.len() implies chunk_end(#[trigger] now[i]) <= u64::MAX by {
        if i < lo {
            assert(chunk_end(orig[i]) <= u64::MAX);
        } else if i > lo {
            assert(chunk_end(orig[i + shift]) <= u64::MAX);
        }
    }
    assert(after.wf());
    assert forall|o: int| #[trigger] after.byte(o) == match before.byte(o) {
        Some(b) => Some(b),
        None => if off <= o < off + data.len() {
            Some(data[o - off])
        } else {
            None
        },
    } by {
        if before.byte(o) is Some {
            let i = choose|i: int| 0 <= i < orig.len() && in_chunk(#[trigger] orig[i], o);
            before.lemma_byte(i, o);
            if i < lo {
                assert(in_chunk(now[i], o));
                after.lemma_byte(i, o);
            } else if i >= hi {
                assert(now[i - shift] == orig[i]);
                after.lemma_byte(i - shift, o);
            } else {
                assert(start <= o) by {
                    if i > lo {
                        assert(chunk_end(orig[lo]) < orig[i].0);
                    }
                }
                assert(o < start + m@.len()) by {
                    if i < hi - 1 {
                        assert(chunk_end(orig[i]) < orig[hi - 1].0);
                    }
                }
                assert(in_chunk(now[lo], o));
                after.lemma_byte(lo, o);
                assert(covered(orig, lo, hi, off, data, o, m@[o - start]));
                let k = choose|k: int|
                    lo <= k < hi && in_chunk(#[trigger] orig[k], o) && m@[o - start] == orig[k].1@[o - orig[k].0];
                before.lemma_byte(k, o);
            }
        } else if off <= o < off + data.len() {
            assert(in_chunk(now[lo], o));
            after.lemma_byte(lo, o);
            assert(covered(orig, lo, hi, off, data, o, m@[o - start]));
            assert(forall|i: int| 0 <= i < orig.len() ==> !in_chunk(#[trigger] orig[i], o));
        } else if after.byte(o) is Some {
            let i = choose|i: int| 0 <= i < now.len() && in_chunk(#[trigger] now[i], o);
            if i < lo {
                assert(in_chunk(orig[i], o));
            } else if i > lo {
                assert(in_chunk(orig[i + shift], o));
            } else {
                assert(covered(orig, lo, hi, off, data, o, m@[o - start]));
                let k = choose|k: int| lo <= k < hi && in_chunk(#[trigger] orig[k], o);
                assert(in_chunk(orig[k], o));
            }
        }
    }
    assert forall|o: int| #[trigger] after.touches(o) == (before.touches(o) || off <= o <= off + data.len()) by {
        if before.touches(o) {
            let i = choose|i: int|
                0 <= i < orig.len() && (#[trigger] orig[i]).0 <= o <= chunk_end(orig[i]);
            if i < lo {
                assert(now[i].0 <= o <= chunk_end(now[i]));
            } else if i >= hi {
                assert(now[i - shift].0 <= o <= chunk_end(now[i - shift]));
            } else {
                if i > lo {
                    assert(chunk_end(orig[lo]) < orig[i].0);
                }
                if i < hi - 1 {
                    assert(chunk_end(orig[i]) < orig[hi - 1].0);
                }
                assert(now[lo].0 <= o <= chunk_end(now[lo]));
            }
        }
        if off <= o <= off + data.len() {
            assert(now[lo].0 <= o <= chunk_end(now[lo]));
        }
        if after.touches(o) {
            let i = choose|i: int|
                0 <= i < now.len() && (#[trigger] now[i]).0 <= o <= chunk_end(now[i]);
            if i < lo {
                assert(orig[i].0 <= o <= chunk_end(orig[i]));
            } else if i > lo {
                assert(orig[i + shift].0 <= o <= chunk_end(orig[i + shift]));
            } else if o < off {
                assert(orig[lo].0 <= o <= chunk_end(orig[lo]));
            } else if o > off + data.len() {
                assert(orig[hi - 1].0 <= o <= chunk_end(orig[hi - 1]));
            }
        }
    }
    assert forall|o: u64, l: u32| #[trigger] after.page(o, l) == before.page(o, l) by {}
}

// --- Tables ------------------------------------------------------------------------

/// One file of a table. The path is a plain identifier here.
pub struct TablePart<F = Box<dyn TableFormat>> {
    pub path: String,
    pub source: Source,
    pub format: F,
}

impl<F> TablePart<F> {
    pub fn new(path: &str, source: Source, format: F) -> (p: TablePart<F>)
        ensures
            p.path@ == path@,
            p.source == source,
            p.format == format,
    {
        TablePart { path: path.to_owned(), source, format }
    }
}

/// A registered table: one or more files that are read as one.
pub struct Table {
    pub name: String,
    pub parts: Vec<TablePart>,
    /// The unified schema, once every part is resolved.
    pub unified: Option<Vec<Field>>,
}

/// The reads still needed before a table is resolved: part, offset and length.
pub type PendingPartReads = Vec<(usize, u64, u64)>;

/// What a part's format answers when asked to resolve.
pub open spec fn part_answer(p: TablePart) -> Result<Result<(), (u64, u64)>, Error> {
    p.format.resolution(p.source)
}

/// The reads that the first `k` parts ask for.
pub open spec fn reads_needed(parts: Seq<TablePart>, k: int) -> Seq<(usize, u64, u64)>
    decreases k,
{
    if k <= 0 {
        Seq::empty()
    } else {
        match part_answer(parts[k - 1]) {
            Ok(Err(range)) => reads_needed(parts, k - 1).push(((k - 1) as usize, range.0, range.1)),
            _ => reads_needed(parts, k - 1),
        }
    }
}

/// Two schemas merged position by position: the names must agree and the types
/// must unify; the names of the first one stay.
pub open spec fn schemas_merge(a: Seq<FieldV>, b: Seq<FieldV>) -> bool {
    &&& a.len() == b.len()
    &&& forall|i: int|
        0 <= i < a.len() ==> same_name(name_bytes((#[trigger] a[i]).name), name_bytes(b[i].name))
            && Ty::unified(a[i].ty, b[i].ty) is Some
}

pub open spec fn merged_schema(a: Seq<FieldV>, b: Seq<FieldV>) -> Seq<FieldV> {
    Seq::new(
        a.len(),
        |i: int|
            FieldV {
                name: a[i].name,
                ty: Ty::unified(a[i].ty, b[i].ty)->0,
                nullable: a[i].nullable || b[i].nullable,
            },
    )
}

/// The unified schema of the first `k` parts, `None` where they do not merge.
pub open spec fn unified_schema(parts: Seq<TablePart>, k: int) -> Option<Seq<FieldV>>
    decreases k,
{
    if k <= 0 {
        Some(Seq::empty())
    } else if k == 1 {
        Some(fields_of(parts[0].format.fields()))
    } else {
        match unified_schema(parts, k - 1) {
            Some(a) => {
                let b = fields_of(parts[k - 1].format.fields());
                if schemas_merge(a, b) {
                    Some(merged_schema(a, b))
                } else {
                    None
                }
            },
            None => None,
        }
    }
}

/// The number of splits of the first `k` parts.
pub open spec fn splits_before(parts: Seq<TablePart>, k: int) -> int
    decreases k,
{
    if k <= 0 {
        0
    } else {
        splits_before(parts, k - 1) + parts[k - 1].format.told(Seq::empty()).split_count
    }
}

fn merge_schema(out: &mut Vec<Field>, s: &[Field]) -> (r: Result<(), Error>)
    ensures
        match r {
            Ok(()) => schemas_merge(fields_of(old(out)@), fields_of(s@)) && fields_of(final(out)@)
                == merged_schema(fields_of(old(out)@), fields_of(s@)),
            Err(e) => !schemas_merge(fields_of(old(out)@), fields_of(s@)) && e.code
                == Code::TypeMismatch,
        },
{
    let ghost a = fields_of(old(out)@);
    let ghost b = fields_of(s@);
    if s.len() != out.len() {
        return Err(Error::new(Code::TypeMismatch));
    }
    let mut i: usize = 0;
    while i < s.len()
        invariant
            a == fields_of(old(out)@),
            b == fields_of(s@),
            out@.len() == a.len(),
            s@.len() == a.len(),
            i <= a.len(),
            forall|j: int|
                0 <= j < i ==> same_name(name_bytes((#[trigger] a[j]).name), name_bytes(b[j].name))
                    && Ty::unified(a[j].ty, b[j].ty) is Some,
            forall|j: int| 0 <= j < i ==> (#[trigger] out@[j])@ == merged_schema(a, b)[j],
            forall|j: int| i <= j < a.len() ==> (#[trigger] out@[j])@ == a[j],
        decreases a.len() - i,
    {
        assert(out@[i as int]@ == a[i as int]);
        assert(s@[i as int]@ == b[i as int]);
        let same: bool = eq_ascii_ci(out[i].name.as_str().as_bytes(), s[i].name.as_str().as_bytes());
        if !same {
            assert(!same_name(name_bytes(a[i as int].name), name_bytes(b[i as int].name)));
            return Err(Error::new(Code::TypeMismatch));
        }
        let ty: Ty = match Ty::unify(out[i].ty, s[i].ty) {
            Some(t) => t,
            None => {
                assert(Ty::unified(a[i as int].ty, b[i as int].ty) is None);
                return Err(Error::new(Code::TypeMismatch));
            },
        };
        let nullable: bool = out[i].nullable || s[i].nullable;
        let name: String = out[i].name.clone();
        out[i] = Field { name, ty, nullable };
        i = i + 1;
    }
    assert(fields_of(out@) =~= merged_schema(a, b));
    Ok(())
}

/// Merges the schemas of every part into one.
pub fn unify_schema(parts: &Vec<TablePart>) -> (r: Result<Vec<Field>, Error>)
    ensures
        match r {
            Ok(s) => unified_schema(parts@, parts@.len() as int) == Some(fields_of(s@)),
            Err(e) => unified_schema(parts@, parts@.len() as int) is None && e.code
                == Code::TypeMismatch,
        },
{
    if parts.len() == 0 {
        let none: Vec<Field> = Vec::new();
        assert(fields_of(none@) =~= Seq::<FieldV>::empty());
        return Ok(none);
    }
    let mut out: Vec<Field> = dup_fields(parts[0].format.schema());
    let mut k: usize = 1;
    while k < parts.len()
        invariant
            1 <= k <= parts@.len(),
            unified_schema(parts@, k as int) == Some(fields_of(out@)),
        decreases parts@.len() - k,
    {
        let ghost before = fields_of(out@);
        match merge_schema(&mut out, parts[k].format.schema()) {
            Ok(()) => {},
            Err(e) => {
                proof {
                    assert(unified_schema(parts@, k + 1) is None);
                    lemma_unified_stays_none(parts@, k + 1, parts@.len() as int);
                }
                return Err(e);
            },
        }
        k = k + 1;
    }
    Ok(out)
}

proof fn lemma_unified_stays_none(parts: Seq<TablePart>, k: int, n: int)
    requires
        2 <= k <= n,
        unified_schema(parts, k) is None,
    ensures
        unified_schema(parts, n) is None,
    decreases n - k,
{
    if k < n {
        assert(unified_schema(parts, k + 1) is None);
        lemma_unified_stays_none(parts, k + 1, n);
    }
}

/// The part answers with an error.
pub open spec fn refuses(p: TablePart, e: Error) -> bool {
    part_answer(p) == Err::<Result<(), (u64, u64)>, Error>(e)
}

/// The error is that of the first part that answers with one.
pub open spec fn first_refusal(parts: Seq<TablePart>, e: Error) -> bool {
    exists|i: int|
        0 <= i < parts.len() && #[trigger] refuses(parts[i], e) && forall|j: int|
            0 <= j < i ==> part_answer(#[trigger] parts[j]) is Ok
}

impl Table {
    /// Resolves the schemas of every part.
    ///
    /// Every part is asked, and what they need comes back together, so that the
    /// host can fetch it in parallel. Once all parts are there, the unified
    /// schema is settled, once.
    pub fn resolve(&mut self) -> (r: Result<Result<(), PendingPartReads>, Error>)
        ensures
            final(self).name == old(self).name,
            final(self).parts@.len() == old(self).parts@.len(),
            forall|i: int|
                0 <= i < old(self).parts@.len() ==> (#[trigger] final(self).parts@[i]).path == old(
                    self,
                ).parts@[i].path && final(self).parts@[i].source == old(self).parts@[i].source,
            match r {
                Ok(Err(need)) => {
                    &&& need@ == reads_needed(old(self).parts@, old(self).parts@.len() as int)
                    &&& need@.len() > 0
                    &&& forall|i: int| 0 <= i < old(self).parts@.len() ==> part_answer(#[trigger] old(self).parts@[i]) is Ok
                    &&& final(self).unified == old(self).unified
                },
                Ok(Ok(())) => {
                    &&& forall|i: int| 0 <= i < old(self).parts@.len() ==> (part_answer(#[trigger] old(self).parts@[i]) matches Ok(a) && a is Ok)
                    &&& final(self).unified is Some
                    &&& old(self).unified is Some ==> final(self).unified == old(self).unified
                    &&& old(self).unified is None ==> unified_schema(
                        final(self).parts@,
                        final(self).parts@.len() as int,
                    ) == Some(fields_of(final(self).unified->0@))
                },
                Err(e) => {
                    &&& final(self).unified == old(self).unified
                    &&& {
                        ||| first_refusal(old(self).parts@, e)
                        ||| {
                            &&& forall|i: int|
                                0 <= i < old(self).parts@.len() ==> (part_answer(#[trigger] old(self).parts@[i]) matches Ok(
                                    a,
                                ) && a is Ok)
                            &&& old(self).unified is None
                            &&& e.code == Code::TypeMismatch
                            &&& unified_schema(final(self).parts@, final(self).parts@.len() as int) is None
                        }
                    }
                },
            },
    {
        let mut need: PendingPartReads = Vec::new();
        let ghost orig = self.parts@;
        let mut i: usize = 0;
        while i < self.parts.len()
            invariant
                orig == old(self).parts@,
                self.parts@.len() == orig.len(),
                self.name == old(self).name,
                self.unified == old(self).unified,
                i <= orig.len(),
                forall|j: int| i <= j < orig.len() ==> self.parts@[j] == orig[j],
                forall|j: int|
                    0 <= j < orig.len() ==> (#[trigger] self.parts@[j]).path == orig[j].path
                        && self.parts@[j].source == orig[j].source,
                forall|j: int| 0 <= j < i ==> part_answer(#[trigger] orig[j]) is Ok,
                forall|j: int|
                    0 <= j < i && need@.len() == 0 ==> (part_answer(#[trigger] orig[j]) matches Ok(a) && a is Ok),
                need@ == reads_needed(orig, i as int),
            decreases orig.len() - i,
        {
            let part = &mut self.parts[i];
            let answer = part.format.resolve(&part.source);
            match answer {
                Ok(Ok(())) => {},
                Ok(Err(range)) => {
                    need.push((i, range.0, range.1));
                },
                Err(e) => {
                    assert(refuses(orig[i as int], e));
                    return Err(e);
                },
            }
            assert(answer == part_answer(orig[i as int]));
            i = i + 1;
        }
        if need.len() > 0 {
            return Ok(Err(need));
        }
        if self.unified.is_none() {
            match unify_schema(&self.parts) {
                Ok(s) => {
                    self.unified = Some(s);
                },
                Err(e) => {
                    return Err(e);
                },
            }
        }
        Ok(Ok(()))
    }

    /// Whether the unified schema is settled.
    pub fn is_resolved(&self) -> (r: bool)
        ensures
            r == (self.unified is Some),
    {
        self.unified.is_some()
    }

    /// The unified schema; empty while unresolved.
    pub fn schema(&self) -> (r: &[Field])
        ensures
            match self.unified {
                Some(s) => r@ == s@,
                None => r@.len() == 0,
            },
    {
        match &self.unified {
            Some(s) => s.as_slice(),
            None => &[],
        }
    }

    /// The number of splits across all parts.
    pub fn num_splits(&self) -> (n: usize)
        ensures
            n == clamp_usize(splits_before(self.parts@, self.parts@.len() as int)),
    {
        let mut n: usize = 0;
        let mut k: usize = 0;
        while k < self.parts.len()
            invariant
                k <= self.parts@.len(),
                n == clamp_usize(splits_before(self.parts@, k as int)),
                splits_before(self.parts@, k as int) >= 0,
            decreases self.parts@.len() - k,
        {
            n = n.saturating_add(self.parts[k].format.num_splits());
            k = k + 1;
        }
        n
    }
}

// --- In-memory tables --------------------------------------------------------------

/// A table that lives in memory, row by row. Only these can be written.
pub struct MemTable {
    pub name: String,
    pub schema: Vec<Field>,
    pub rows: Vec<Vec<Value>>,
}

/// The values of a row.
pub open spec fn row_vals(row: Seq<Value>) -> Seq<Val> {
    Seq::new(row.len(), |c: int| row[c]@)
}

/// The rows of a table.
pub open spec fn table_rows(rows: Seq<Vec<Value>>) -> Seq<Seq<Val>> {
    Seq::new(rows.len(), |r: int| row_vals(rows[r]@))
}

/// A row has one value per column, and each fits its column.
pub open spec fn row_fits(row: Seq<Val>, schema: Seq<FieldV>) -> bool {
    &&& row.len() == schema.len()
    &&& forall|c: int| 0 <= c < row.len() ==> (#[trigger] row[c]).fits(schema[c].ty.phys())
}

/// No two columns have the same name.
pub open spec fn names_unique(schema: Seq<FieldV>) -> bool {
    forall|i: int, j: int|
        0 <= i < j < schema.len() ==> !same_name(
            name_bytes((#[trigger] schema[i]).name),
            name_bytes((#[trigger] schema[j]).name),
        )
}

/// The first column with a name.
pub open spec fn column_named(schema: Seq<FieldV>, name: Seq<u8>, i: int) -> bool {
    &&& 0 <= i < schema.len()
    &&& same_name(name_bytes(schema[i].name), name)
    &&& forall|j: int| 0 <= j < i ==> !same_name(name_bytes((#[trigger] schema[j]).name), name)
}

pub open spec fn no_column_named(schema: Seq<FieldV>, name: Seq<u8>) -> bool {
    forall|j: int| 0 <= j < schema.len() ==> !same_name(name_bytes((#[trigger] schema[j]).name), name)
}

impl MemTable {
    /// Every row fits the schema, and column names are unique.
    pub open spec fn wf(&self) -> bool {
        &&& names_unique(fields_of(self.schema@))
        &&& forall|r: int|
            0 <= r < self.rows@.len() ==> row_fits(
                #[trigger] table_rows(self.rows@)[r],
                fields_of(self.schema@),
            )
    }

    /// The rows `[start, end)` as a batch.
    pub fn batch(&self, start: usize, end: usize) -> (b: Batch)
        requires
            self.wf(),
            start <= end <= self.rows@.len(),
            end - start <= MAX_ROWS,
        ensures
            b.wf(),
            b.sel is None,
            b.spec_num_rows() == end - start,
            b.rows() == table_rows(self.rows@).subrange(start as int, end as int),
            b.types() == Seq::new(self.schema@.len(), |c: int| self.schema@[c].ty),
    {
        let n: usize = end - start;
        if self.schema.len() == 0 {
            let b = Batch::rows_only(n);
            proof {
                assert forall|k: int| 0 <= k < n implies #[trigger] b.rows()[k] == table_rows(self.rows@)[start + k] by {
                    assert(row_fits(table_rows(self.rows@)[start + k], fields_of(self.schema@)));
                    assert(b.rows()[k] =~= table_rows(self.rows@)[start + k]);
                }
                assert(b.rows() =~= table_rows(self.rows@).subrange(start as int, end as int));
                assert(b.types() =~= Seq::new(self.schema@.len(), |c: int| self.schema@[c].ty));
            }
            return b;
        }
        let mut cols: Vec<Vector> = Vec::new();
        let mut c: usize = 0;
        while c < self.schema.len()
            invariant
                self.wf(),
                start <= end <= self.rows@.len(),
                n == end - start,
                c <= self.schema@.len(),
                cols@.len() == c,
                cols_wf(cols@, n as int),
                forall|d: int| 0 <= d < c ==> (#[trigger] cols@[d]).ty() == self.schema@[d].ty,
                forall|d: int, k: int|
                    0 <= d < c && 0 <= k < n ==> (#[trigger] cols@[d]@[k]) == table_rows(self.rows@)[start + k][d],
            decreases self.schema@.len() - c,
        {
            let col = self.column(c, start, end);
            cols.push(col);
            c = c + 1;
        }
        let b = Batch::new(cols);
        proof {
            assert(b.cols@[0].wf() && b.cols@[0]@.len() == n);
            assert forall|k: int| 0 <= k < n implies #[trigger] b.rows()[k] == table_rows(self.rows@)[start + k] by {
                assert(row_fits(table_rows(self.rows@)[start + k], fields_of(self.schema@)));
                assert forall|d: int| 0 <= d < self.schema@.len() implies b.rows()[k][d] == table_rows(self.rows@)[start + k][d] by {
                    assert(cols@[d]@[k] == table_rows(self.rows@)[start + k][d]);
                }
                assert(b.rows()[k] =~= table_rows(self.rows@)[start + k]);
            }
            assert(b.rows() =~= table_rows(self.rows@).subrange(start as int, end as int));
            assert(b.types() =~= Seq::new(self.schema@.len(), |c: int| self.schema@[c].ty));
        }
        b
    }

    /// One column of the rows `[start, end)`.
    fn column(&self, c: usize, start: usize, end: usize) -> (v: Vector)
        requires
            self.wf(),
            c < self.schema@.len(),
            start <= end <= self.rows@.len(),
        ensures
            v.wf(),
            v.ty() == self.schema@[c as int].ty,
            v@.len() == end - start,
            forall|k: int| 0 <= k < end - start ==> #[trigger] v@[k] == table_rows(self.rows@)[start + k][c as int],
    {
        let mut v = Vector::with_capacity(self.schema[c].ty, end - start);
        let mut r: usize = start;
        while r < end
            invariant
                self.wf(),
                c < self.schema@.len(),
                start <= r <= end <= self.rows@.len(),
                v.wf(),
                v.ty() == self.schema@[c as int].ty,
                v@.len() == r - start,
                forall|k: int| 0 <= k < r - start ==> #[trigger] v@[k] == table_rows(self.rows@)[start + k][c as int],
            decreases end - r,
        {
            assert(row_fits(table_rows(self.rows@)[r as int], fields_of(self.schema@)));
            assert(table_rows(self.rows@)[r as int][c as int].fits(fields_of(self.schema@)[c as int].ty.phys()));
            v.push_value(&self.rows[r][c]);
            r = r + 1;
        }
        v
    }

    /// Finds a column by name.
    pub fn column_index(&self, name: &str) -> (r: Option<usize>)
        ensures
            match r {
                Some(i) => column_named(fields_of(self.schema@), name_bytes(name@), i as int),
                None => no_column_named(fields_of(self.schema@), name_bytes(name@)),
            },
    {
        field_index(self.schema.as_slice(), name)
    }
}

/// Finds a field by name.
pub fn field_index(schema: &[Field], name: &str) -> (r: Option<usize>)
    ensures
        match r {
            Some(i) => column_named(fields_of(schema@), name_bytes(name@), i as int),
            None => no_column_named(fields_of(schema@), name_bytes(name@)),
        },
{
    let mut i: usize = 0;
    while i < schema.len()
        invariant
            i <= schema@.len(),
            forall|j: int|
                0 <= j < i ==> !same_name(
                    name_bytes((#[trigger] fields_of(schema@)[j]).name),
                    name_bytes(name@),
                ),
        decreases schema@.len() - i,
    {
        assert(fields_of(schema@)[i as int] == schema@[i as int]@);
        if eq_ascii_ci(schema[i].name.as_str().as_bytes(), name.as_bytes()) {
            return Some(i);
        }
        i = i + 1;
    }
    None
}

// --- The catalog -------------------------------------------------------------------

/// Every table, in-memory table and view of a session.
pub struct Catalog {
    pub tables: Vec<Table>,
    pub mem: Vec<MemTable>,
    /// A view is a name and the text of its query.
    pub views: Vec<(String, String)>,
}

pub open spec fn table_names(c: Catalog) -> Seq<Seq<u8>> {
    Seq::new(c.tables@.len(), |i: int| name_bytes(c.tables@[i].name@))
}

/// A file, as far as it has been fetched.
#[verifier::ext_equal]
pub struct FileV {
    pub path: Seq<char>,
    pub len: u64,
    /// The byte at an offset, if it has been fetched.
    pub bytes: spec_fn(int) -> Option<u8>,
    /// Whether an offset is in or next to what has been fetched.
    pub touched: spec_fn(int) -> bool,
}

/// A table in files: its name, the unified schema and the files.
#[verifier::ext_equal]
pub struct FilesV {
    pub name: Seq<char>,
    pub unified: Option<Vec<Field>>,
    pub files: Seq<FileV>,
}

pub open spec fn file_of(p: TablePart) -> FileV {
    FileV {
        path: p.path@,
        len: p.source.file_len(),
        bytes: |o: int| p.source.byte(o),
        touched: |o: int| p.source.touches(o),
    }
}

pub open spec fn files_in(t: Table) -> FilesV {
    FilesV { name: t.name@, unified: t.unified, files: Seq::new(t.parts@.len(), |p: int| file_of(t.parts@[p])) }
}

/// The tables in files, as far as they have been fetched. What their formats know of them, and which
/// decompressed pages are held, is left out.
pub open spec fn files_of(c: Catalog) -> Seq<FilesV> {
    Seq::new(c.tables@.len(), |t: int| files_in(c.tables@[t]))
}

/// A catalog differs from another at most in what the format of one part knows and in the pages that
/// are held of that part.
pub open spec fn only_part(before: Catalog, after: Catalog, ti: int, pi: int) -> bool {
    &&& after.mem == before.mem
    &&& after.views == before.views
    &&& after.tables@.len() == before.tables@.len()
    &&& forall|t: int| 0 <= t < before.tables@.len() && t != ti ==> #[trigger] after.tables@[t] == before.tables@[t]
    &&& 0 <= ti < before.tables@.len() ==> {
        let b = before.tables@[ti];
        let a = after.tables@[ti];
        &&& a.name == b.name
        &&& a.unified == b.unified
        &&& a.parts@.len() == b.parts@.len()
        &&& forall|p: int| 0 <= p < b.parts@.len() && p != pi ==> #[trigger] a.parts@[p] == b.parts@[p]
        &&& 0 <= pi < b.parts@.len() ==> file_of(a.parts@[pi]) == file_of(b.parts@[pi])
    }
}

pub(crate) proof fn lemma_only_part(before: Catalog, after: Catalog, ti: int, pi: int)
    requires
        only_part(before, after, ti, pi),
    ensures
        files_of(after) == files_of(before),
        table_names(after) == table_names(before),
{
    assert forall|t: int| 0 <= t < before.tables@.len() implies #[trigger] files_in(after.tables@[t]) == files_in(
        before.tables@[t],
    ) by {
        if t == ti {
            let b = files_in(before.tables@[t]);
            let a = files_in(after.tables@[t]);
            assert forall|p: int| 0 <= p < b.files.len() implies #[trigger] a.files[p] == b.files[p] by {
                if p != pi {
                    assert(after.tables@[t].parts@[p] == before.tables@[t].parts@[p]);
                }
            }
            assert(a.files =~= b.files);
        } else {
            assert(after.tables@[t] == before.tables@[t]);
        }
    }
    assert(files_of(after) =~= files_of(before));
    assert forall|t: int| 0 <= t < before.tables@.len() implies #[trigger] table_names(after)[t] == table_names(before)[t] by {
        assert(files_in(after.tables@[t]) == files_in(before.tables@[t]));
    }
    assert(table_names(after) =~= table_names(before));
}

pub(crate) proof fn lemma_only_part_twice(a: Catalog, b: Catalog, c: Catalog, ti: int, pi: int)
    requires
        only_part(a, b, ti, pi),
        only_part(b, c, ti, pi),
    ensures
        only_part(a, c, ti, pi),
{
    assert forall|t: int| 0 <= t < a.tables@.len() && t != ti implies #[trigger] c.tables@[t] == a.tables@[t] by {
        assert(b.tables@[t] == a.tables@[t]);
    }
    if 0 <= ti < a.tables@.len() {
        let x = a.tables@[ti];
        let y = b.tables@[ti];
        let z = c.tables@[ti];
        assert forall|p: int| 0 <= p < x.parts@.len() && p != pi implies #[trigger] z.parts@[p] == x.parts@[p] by {
            assert(y.parts@[p] == x.parts@[p]);
        }
    }
}

pub open spec fn mem_table_names(c: Catalog) -> Seq<Seq<u8>> {
    Seq::new(c.mem@.len(), |i: int| name_bytes(c.mem@[i].name@))
}

pub open spec fn names_of_views(c: Catalog) -> Seq<Seq<u8>> {
    Seq::new(c.views@.len(), |i: int| name_bytes(c.views@[i].0@))
}

/// The first of the names that is the same as `name`.
pub open spec fn first_named(names: Seq<Seq<u8>>, name: Seq<u8>, i: int) -> bool {
    &&& 0 <= i < names.len()
    &&& same_name(names[i], name)
    &&& forall|j: int| 0 <= j < i ==> !same_name(#[trigger] names[j], name)
}

pub open spec fn none_named(names: Seq<Seq<u8>>, name: Seq<u8>) -> bool {
    forall|j: int| 0 <= j < names.len() ==> !same_name(#[trigger] names[j], name)
}

/// No name occurs twice in a list.
pub open spec fn all_distinct(names: Seq<Seq<u8>>) -> bool {
    forall|i: int, j: int|
        0 <= i < j < names.len() ==> !same_name(#[trigger] names[i], #[trigger] names[j])
}

/// No name of one list occurs in the other.
pub open spec fn apart(a: Seq<Seq<u8>>, b: Seq<Seq<u8>>) -> bool {
    forall|i: int, j: int|
        0 <= i < a.len() && 0 <= j < b.len() ==> !same_name(#[trigger] a[i], #[trigger] b[j])
}

/// A source of every part of every table is in order.
pub open spec fn sources_ok(tables: Seq<Table>) -> bool {
    forall|t: int, p: int|
        0 <= t < tables.len() && 0 <= p < tables[t].parts@.len() ==> (#[trigger] tables[t].parts@[p]).source.wf()
}

/// What `CREATE TABLE` does to a catalog.
pub open spec fn mem_created(
    before: Catalog,
    after: Catalog,
    name: Seq<char>,
    schema: Vec<Field>,
    replace: bool,
    r: Result<usize, Error>,
) -> bool {
    let nm = name_bytes(name);
    let other = !(none_named(table_names(before), nm) && none_named(names_of_views(before), nm));
    let there = !none_named(mem_table_names(before), nm);
    match r {
        Ok(i) => {
            &&& !other
            &&& names_unique(fields_of(schema@))
            &&& there ==> replace && first_named(mem_table_names(before), nm, i as int)
            &&& !there ==> i == before.mem@.len()
            &&& after.mem@ == if there {
                before.mem@.update(i as int, after.mem@[i as int])
            } else {
                before.mem@.push(after.mem@[i as int])
            }
            &&& after.mem@[i as int].name@ == name
            &&& after.mem@[i as int].schema == schema
            &&& after.mem@[i as int].rows@.len() == 0
            &&& before.names_ok() ==> after.names_ok()
            &&& before.wf() ==> after.wf()
        },
        Err(e) => {
            &&& after == before
            &&& if other {
                e.code == Code::DuplicateTable
            } else if !names_unique(fields_of(schema@)) {
                e.code == Code::DuplicateColumn
            } else {
                there && !replace && e.code == Code::DuplicateTable
            }
        },
    }
}

/// What `DROP TABLE` does to a catalog.
pub open spec fn mem_dropped(before: Catalog, after: Catalog, name: Seq<char>, r: Result<(), Error>) -> bool {
    match r {
        Ok(()) => {
            &&& exists|i: int| #[trigger]
                first_named(mem_table_names(before), name_bytes(name), i) && after.mem@
                    == before.mem@.remove(i)
            &&& before.names_ok() ==> after.names_ok()
            &&& before.wf() ==> after.wf()
        },
        Err(e) => none_named(mem_table_names(before), name_bytes(name)) && e.code
            == Code::TableNotFound && after == before,
    }
}

/// Which table a name stands for that can be written.
pub open spec fn writable(c: Catalog, name: Seq<char>, r: Result<usize, Error>) -> bool {
    match r {
        Ok(i) => first_named(mem_table_names(c), name_bytes(name), i as int),
        Err(e) => none_named(mem_table_names(c), name_bytes(name)) && e.code == if none_named(
            table_names(c),
            name_bytes(name),
        ) {
            Code::TableNotFound
        } else {
            Code::ReadOnlyTable
        },
    }
}

/// What `ADD COLUMN` does to a catalog.
pub open spec fn column_added(
    before: Catalog,
    after: Catalog,
    idx: usize,
    field: Field,
    value: Val,
    r: Result<(), Error>,
) -> bool {
    match r {
        Ok(()) => {
            &&& idx < before.mem@.len()
            &&& no_column_named(fields_of(before.mem@[idx as int].schema@), name_bytes(field.name@))
            &&& after.mem@ == before.mem@.update(idx as int, after.mem@[idx as int])
            &&& after.mem@[idx as int].schema@ == before.mem@[idx as int].schema@.push(field)
            &&& after.mem@[idx as int].rows@.len() == before.mem@[idx as int].rows@.len()
            &&& forall|k: int|
                0 <= k < before.mem@[idx as int].rows@.len() ==> #[trigger] table_rows(
                    after.mem@[idx as int].rows@,
                )[k] == table_rows(before.mem@[idx as int].rows@)[k].push(value)
        },
        Err(e) => after == before && if idx >= before.mem@.len() {
            e.code == Code::TableNotFound
        } else {
            !no_column_named(fields_of(before.mem@[idx as int].schema@), name_bytes(field.name@))
                && e.code == Code::DuplicateColumn
        },
    }
}

/// What `DROP COLUMN` does to a catalog.
pub open spec fn column_dropped(
    before: Catalog,
    after: Catalog,
    idx: usize,
    name: Seq<char>,
    r: Result<(), Error>,
) -> bool {
    match r {
        Ok(()) => {
            &&& idx < before.mem@.len()
            &&& after.mem@ == before.mem@.update(idx as int, after.mem@[idx as int])
            &&& exists|p: int|
                {
                    &&& #[trigger] column_named(fields_of(before.mem@[idx as int].schema@), name_bytes(name), p)
                    &&& after.mem@[idx as int].schema@ == before.mem@[idx as int].schema@.remove(p)
                    &&& after.mem@[idx as int].rows@.len() == before.mem@[idx as int].rows@.len()
                    &&& forall|k: int|
                        0 <= k < before.mem@[idx as int].rows@.len() ==> #[trigger] table_rows(
                            after.mem@[idx as int].rows@,
                        )[k] == table_rows(before.mem@[idx as int].rows@)[k].remove(p)
                }
        },
        Err(e) => after == before && if idx >= before.mem@.len() {
            e.code == Code::TableNotFound
        } else {
            no_column_named(fields_of(before.mem@[idx as int].schema@), name_bytes(name))
                && e.code == Code::ColumnNotFound
        },
    }
}

/// What `RENAME COLUMN` does to a catalog.
pub open spec fn column_renamed(
    before: Catalog,
    after: Catalog,
    idx: usize,
    old_name: Seq<char>,
    new_name: Seq<char>,
    r: Result<(), Error>,
) -> bool {
    match r {
        Ok(()) => {
            &&& idx < before.mem@.len()
            &&& after.mem@ == before.mem@.update(idx as int, after.mem@[idx as int])
            &&& after.mem@[idx as int].rows == before.mem@[idx as int].rows
            &&& exists|p: int|
                {
                    &&& #[trigger] column_named(fields_of(before.mem@[idx as int].schema@), name_bytes(old_name), p)
                    &&& free_for(fields_of(before.mem@[idx as int].schema@), name_bytes(new_name), p)
                    &&& fields_of(after.mem@[idx as int].schema@) == fields_of(
                        before.mem@[idx as int].schema@,
                    ).update(
                        p,
                        FieldV { name: new_name, ..fields_of(before.mem@[idx as int].schema@)[p] },
                    )
                }
        },
        Err(e) => after == before && if idx >= before.mem@.len() {
            e.code == Code::TableNotFound
        } else if no_column_named(fields_of(before.mem@[idx as int].schema@), name_bytes(old_name)) {
            e.code == Code::ColumnNotFound
        } else {
            e.code == Code::DuplicateColumn && exists|p: int| #[trigger]
                column_named(fields_of(before.mem@[idx as int].schema@), name_bytes(old_name), p)
                    && !free_for(fields_of(before.mem@[idx as int].schema@), name_bytes(new_name), p)
        },
    }
}

/// What `RENAME TO` does to a catalog.
pub open spec fn table_renamed(
    before: Catalog,
    after: Catalog,
    idx: usize,
    new_name: Seq<char>,
    r: Result<(), Error>,
) -> bool {
    let nm = name_bytes(new_name);
    let free = {
        &&& none_named(table_names(before), nm)
        &&& none_named(names_of_views(before), nm)
        &&& forall|j: int|
            0 <= j < before.mem@.len() && j != idx ==> !same_name(
                #[trigger] mem_table_names(before)[j],
                nm,
            )
    };
    match r {
        Ok(()) => {
            &&& free
            &&& after.mem@ == before.mem@.update(idx as int, after.mem@[idx as int])
            &&& after.mem@[idx as int].name@ == new_name
            &&& after.mem@[idx as int].schema == before.mem@[idx as int].schema
            &&& after.mem@[idx as int].rows == before.mem@[idx as int].rows
        },
        Err(e) => !free && e.code == Code::DuplicateTable && after == before,
    }
}

/// What `CREATE VIEW` does to a catalog.
pub open spec fn view_created(
    before: Catalog,
    after: Catalog,
    name: Seq<char>,
    query_sql: String,
    or_replace: bool,
    r: Result<usize, Error>,
) -> bool {
    let nm = name_bytes(name);
    let other = !(none_named(table_names(before), nm) && none_named(mem_table_names(before), nm));
    let there = !none_named(names_of_views(before), nm);
    match r {
        Ok(i) => {
            &&& !other
            &&& there ==> or_replace && first_named(names_of_views(before), nm, i as int)
            &&& !there ==> i == before.views@.len()
            &&& after.views@ == if there {
                before.views@.update(i as int, after.views@[i as int])
            } else {
                before.views@.push(after.views@[i as int])
            }
            &&& after.views@[i as int].0@ == name
            &&& after.views@[i as int].1 == query_sql
            &&& before.names_ok() ==> after.names_ok()
        },
        Err(e) => {
            &&& after == before
            &&& other || (there && !or_replace)
            &&& e.code == Code::DuplicateTable
        },
    }
}

/// What `DROP VIEW` does to a catalog.
pub open spec fn view_dropped(before: Catalog, after: Catalog, name: Seq<char>, r: Result<(), Error>) -> bool {
    match r {
        Ok(()) => {
            &&& exists|i: int| #[trigger]
                first_named(names_of_views(before), name_bytes(name), i) && after.views@
                    == before.views@.remove(i)
            &&& before.names_ok() ==> after.names_ok()
        },
        Err(e) => none_named(names_of_views(before), name_bytes(name)) && e.code
            == Code::TableNotFound && after == before,
    }
}

impl Catalog {
    /// A name stands for at most one object: a table, an in-memory table or a view.
    pub open spec fn names_ok(&self) -> bool {
        &&& all_distinct(table_names(*self))
        &&& all_distinct(mem_table_names(*self))
        &&& all_distinct(names_of_views(*self))
        &&& apart(table_names(*self), mem_table_names(*self))
        &&& apart(table_names(*self), names_of_views(*self))
        &&& apart(mem_table_names(*self), names_of_views(*self))
    }

    /// What operators rely on: sources and in-memory tables are in order.
    pub open spec fn wf(&self) -> bool {
        &&& sources_ok(self.tables@)
        &&& forall|i: int| 0 <= i < self.mem@.len() ==> (#[trigger] self.mem@[i]).wf()
    }

    pub fn new() -> (c: Catalog)
        ensures
            c.wf(),
            c.names_ok(),
            c.tables@.len() == 0,
            c.mem@.len() == 0,
            c.views@.len() == 0,
    {
        Catalog { tables: Vec::new(), mem: Vec::new(), views: Vec::new() }
    }

    /// Finds a table by name.
    pub fn index_of(&self, name: &str) -> (r: Option<usize>)
        ensures
            match r {
                Some(i) => first_named(table_names(*self), name_bytes(name@), i as int),
                None => none_named(table_names(*self), name_bytes(name@)),
            },
    {
        let mut i: usize = 0;
        while i < self.tables.len()
            invariant
                i <= self.tables@.len(),
                forall|j: int|
                    0 <= j < i ==> !same_name(#[trigger] table_names(*self)[j], name_bytes(name@)),
            decreases self.tables@.len() - i,
        {
            assert(table_names(*self)[i as int] == name_bytes(self.tables@[i as int].name@));
            if eq_ascii_ci(self.tables[i].name.as_str().as_bytes(), name.as_bytes()) {
                return Some(i);
            }
            i = i + 1;
        }
        None
    }

    /// Finds an in-memory table by name.
    pub fn mem_index_of(&self, name: &str) -> (r: Option<usize>)
        ensures
            match r {
                Some(i) => first_named(mem_table_names(*self), name_bytes(name@), i as int),
                None => none_named(mem_table_names(*self), name_bytes(name@)),
            },
    {
        let mut i: usize = 0;
        while i < self.mem.len()
            invariant
                i <= self.mem@.len(),
                forall|j: int|
                    0 <= j < i ==> !same_name(#[trigger] mem_table_names(*self)[j], name_bytes(name@)),
            decreases self.mem@.len() - i,
        {
            assert(mem_table_names(*self)[i as int] == name_bytes(self.mem@[i as int].name@));
            if eq_ascii_ci(self.mem[i].name.as_str().as_bytes(), name.as_bytes()) {
                return Some(i);
            }
            i = i + 1;
        }
        None
    }

    /// Finds a view by name.
    pub fn view_index_of(&self, name: &str) -> (r: Option<usize>)
        ensures
            match r {
                Some(i) => first_named(names_of_views(*self), name_bytes(name@), i as int),
                None => none_named(names_of_views(*self), name_bytes(name@)),
            },
    {
        let mut i: usize = 0;
        while i < self.views.len()
            invariant
                i <= self.views@.len(),
                forall|j: int|
                    0 <= j < i ==> !same_name(#[trigger] names_of_views(*self)[j], name_bytes(name@)),
            decreases self.views@.len() - i,
        {
            assert(names_of_views(*self)[i as int] == name_bytes(self.views@[i as int].0@));
            if eq_ascii_ci(self.views[i].0.as_str().as_bytes(), name.as_bytes()) {
                return Some(i);
            }
            i = i + 1;
        }
        None
    }

    /// Registers a single-file table. A table of the same name is replaced.
    pub fn register(&mut self, name: &str, source: Source, format: Box<dyn TableFormat>) -> (r: Result<usize, Error>)
        requires
            source.wf(),
        ensures
            registered(*old(self), *final(self), name@, r),
            r matches Ok(i) ==> {
                &&& final(self).tables@[i as int].parts@.len() == 1
                &&& final(self).tables@[i as int].parts@[0].path@ == name@
                &&& final(self).tables@[i as int].parts@[0].source == source
                &&& final(self).tables@[i as int].parts@[0].format == format
            },
    {
        let part = TablePart::new(name, source, format);
        let mut parts: Vec<TablePart> = Vec::new();
        parts.push(part);
        self.register_multi(name, parts)
    }

    /// Registers several files as one table. A table of the same name is
    /// replaced; an in-memory table or a view of the same name is not.
    pub fn register_multi(&mut self, name: &str, parts: Vec<TablePart>) -> (r: Result<usize, Error>)
        requires
            forall|p: int| 0 <= p < parts@.len() ==> (#[trigger] parts@[p]).source.wf(),
        ensures
            match r {
                Ok(i) => parts@.len() > 0 && final(self).tables@[i as int].parts == parts,
                Err(e) => (e.code == Code::Internal) == (parts@.len() == 0),
            },
            parts@.len() > 0 ==> registered(*old(self), *final(self), name@, r),
            parts@.len() == 0 ==> *final(self) == *old(self),
    {
        if parts.len() == 0 {
            return Err(Error::new(Code::Internal));
        }
        if self.mem_index_of(name).is_some() {
            return Err(Error::new(Code::DuplicateTable));
        }
        if self.view_index_of(name).is_some() {
            return Err(Error::new(Code::DuplicateTable));
        }
        let t = Table { name: name.to_owned(), parts, unified: None };
        let i: usize = match self.index_of(name) {
            Some(i) => {
                self.tables[i] = t;
                i
            },
            None => {
                self.tables.push(t);
                self.tables.len() - 1
            },
        };
        proof {
            let nm = name_bytes(name@);
            let was = table_names(*old(self));
            assert(mem_table_names(*self) == mem_table_names(*old(self)));
            assert(names_of_views(*self) == names_of_views(*old(self)));
            lemma_placed(was, table_names(*self), i as int, nm);
            if old(self).names_ok() {
                lemma_apart_placed(was, table_names(*self), mem_table_names(*self), i as int, nm);
                lemma_apart_placed(was, table_names(*self), names_of_views(*self), i as int, nm);
            }
        }
        Ok(i)
    }

    pub fn get(&self, i: usize) -> (r: Option<&Table>)
        ensures
            match r {
                Some(t) => i < self.tables@.len() && *t == self.tables@[i as int],
                None => i >= self.tables@.len(),
            },
    {
        if i < self.tables.len() {
            Some(&self.tables[i])
        } else {
            None
        }
    }

    pub fn get_mut(&mut self, i: usize) -> (r: Option<&mut Table>)
        ensures
            match r {
                Some(t) => {
                    &&& i < old(self).tables@.len()
                    &&& *t == old(self).tables@[i as int]
                    &&& final(self).tables@ == old(self).tables@.update(i as int, *final(t))
                    &&& final(self).mem == old(self).mem
                    &&& final(self).views == old(self).views
                },
                None => i >= old(self).tables@.len() && *final(self) == *old(self),
            },
    {
        if i < self.tables.len() {
            Some(&mut self.tables[i])
        } else {
            None
        }
    }

    pub fn len(&self) -> (n: usize)
        ensures
            n == self.tables@.len(),
    {
        self.tables.len()
    }

    pub fn is_empty(&self) -> (r: bool)
        ensures
            r == (self.tables@.len() == 0),
    {
        self.tables.len() == 0
    }

    /// The table names, in order of registration.
    pub fn names(&self) -> (r: Vec<&str>)
        ensures
            r@.len() == self.tables@.len(),
            forall|i: int| 0 <= i < r@.len() ==> (#[trigger] r@[i])@ == self.tables@[i].name@,
    {
        let mut r: Vec<&str> = Vec::new();
        let mut i: usize = 0;
        while i < self.tables.len()
            invariant
                i <= self.tables@.len(),
                r@.len() == i,
                forall|j: int| 0 <= j < i ==> (#[trigger] r@[j])@ == self.tables@[j].name@,
            decreases self.tables@.len() - i,
        {
            r.push(self.tables[i].name.as_str());
            i = i + 1;
        }
        r
    }

    pub fn mem_get(&self, i: usize) -> (r: Option<&MemTable>)
        ensures
            match r {
                Some(t) => i < self.mem@.len() && *t == self.mem@[i as int],
                None => i >= self.mem@.len(),
            },
    {
        if i < self.mem.len() {
            Some(&self.mem[i])
        } else {
            None
        }
    }

    pub fn mem_get_mut(&mut self, i: usize) -> (r: Option<&mut MemTable>)
        ensures
            match r {
                Some(t) => {
                    &&& i < old(self).mem@.len()
                    &&& *t == old(self).mem@[i as int]
                    &&& final(self).mem@ == old(self).mem@.update(i as int, *final(t))
                    &&& final(self).tables == old(self).tables
                    &&& final(self).views == old(self).views
                },
                None => i >= old(self).mem@.len() && *final(self) == *old(self),
            },
    {
        if i < self.mem.len() {
            Some(&mut self.mem[i])
        } else {
            None
        }
    }

    /// The in-memory table names, in order of creation.
    pub fn mem_names(&self) -> (r: Vec<&str>)
        ensures
            r@.len() == self.mem@.len(),
            forall|i: int| 0 <= i < r@.len() ==> (#[trigger] r@[i])@ == self.mem@[i].name@,
    {
        let mut r: Vec<&str> = Vec::new();
        let mut i: usize = 0;
        while i < self.mem.len()
            invariant
                i <= self.mem@.len(),
                r@.len() == i,
                forall|j: int| 0 <= j < i ==> (#[trigger] r@[j])@ == self.mem@[j].name@,
            decreases self.mem@.len() - i,
        {
            r.push(self.mem[i].name.as_str());
            i = i + 1;
        }
        r
    }

    /// Whether a name is taken by a file-backed table or a view.
    fn name_taken_by_other(&self, name: &str) -> (r: bool)
        ensures
            r == !(none_named(table_names(*self), name_bytes(name@)) && none_named(
                names_of_views(*self),
                name_bytes(name@),
            )),
    {
        self.index_of(name).is_some() || self.view_index_of(name).is_some()
    }

    /// Whether no two columns of a schema have the same name.
    fn unique_field_names(schema: &Vec<Field>) -> (r: bool)
        ensures
            r == names_unique(fields_of(schema@)),
    {
        let mut j: usize = 0;
        while j < schema.len()
            invariant
                j <= schema@.len(),
                names_unique(fields_of(schema@).take(j as int)),
            decreases schema@.len() - j,
        {
            let ghost f = fields_of(schema@);
            let mut i: usize = 0;
            while i < j
                invariant
                    i <= j < schema@.len(),
                    f == fields_of(schema@),
                    forall|k: int|
                        0 <= k < i ==> !same_name(
                            name_bytes((#[trigger] f[k]).name),
                            name_bytes(f[j as int].name),
                        ),
                decreases j - i,
            {
                assert(f[i as int] == schema@[i as int]@ && f[j as int] == schema@[j as int]@);
                if eq_ascii_ci(schema[i].name.as_str().as_bytes(), schema[j].name.as_str().as_bytes()) {
                    assert(same_name(name_bytes(f[i as int].name), name_bytes(f[j as int].name)));
                    return false;
                }
                i = i + 1;
            }
            assert forall|a: int, b: int| 0 <= a < b < j + 1 implies !same_name(
                name_bytes((#[trigger] f.take(j + 1)[a]).name),
                name_bytes((#[trigger] f.take(j + 1)[b]).name),
            ) by {
                if b < j {
                    assert(f.take(j as int)[a] == f[a] && f.take(j as int)[b] == f[b]);
                } else {
                    assert(!same_name(name_bytes(f[a].name), name_bytes(f[j as int].name)));
                }
            }
            j = j + 1;
        }
        assert(fields_of(schema@).take(j as int) =~= fields_of(schema@));
        true
    }

    /// `CREATE TABLE`. With `replace`, an in-memory table of the same name is
    /// replaced by an empty one.
    pub fn mem_create(&mut self, name: &str, schema: Vec<Field>, replace: bool) -> (r: Result<usize, Error>)
        ensures
            final(self).tables == old(self).tables,
            final(self).views == old(self).views,
            mem_created(*old(self), *final(self), name@, schema, replace, r),
    {
        if self.name_taken_by_other(name) {
            return Err(Error::new(Code::DuplicateTable));
        }
        if !Catalog::unique_field_names(&schema) {
            return Err(Error::new(Code::DuplicateColumn));
        }
        let at = self.mem_index_of(name);
        let i: usize = match at {
            Some(i) => {
                if !replace {
                    return Err(Error::new(Code::DuplicateTable));
                }
                self.mem[i] = MemTable { name: name.to_owned(), schema, rows: Vec::new() };
                i
            },
            None => {
                self.mem.push(MemTable { name: name.to_owned(), schema, rows: Vec::new() });
                self.mem.len() - 1
            },
        };
        proof {
            let nm = name_bytes(name@);
            let was = mem_table_names(*old(self));
            assert(table_names(*self) == table_names(*old(self)));
            assert(names_of_views(*self) == names_of_views(*old(self)));
            lemma_placed(was, mem_table_names(*self), i as int, nm);
            if old(self).names_ok() {
                lemma_apart_placed(was, mem_table_names(*self), table_names(*self), i as int, nm);
                lemma_apart_placed(was, mem_table_names(*self), names_of_views(*self), i as int, nm);
                lemma_apart_symmetric(table_names(*self), was);
                lemma_apart_symmetric(mem_table_names(*self), table_names(*self));
            }
        }
        Ok(i)
    }

    /// `DROP TABLE`. Only in-memory tables can be dropped.
    pub fn mem_drop(&mut self, name: &str) -> (r: Result<(), Error>)
        ensures
            final(self).tables == old(self).tables,
            final(self).views == old(self).views,
            mem_dropped(*old(self), *final(self), name@, r),
    {
        match self.mem_index_of(name) {
            Some(i) => {
                let _gone = self.mem.remove(i);
                proof {
                    assert(first_named(mem_table_names(*old(self)), name_bytes(name@), i as int));
                    assert(table_names(*self) == table_names(*old(self)));
                    assert(names_of_views(*self) == names_of_views(*old(self)));
                    let was = mem_table_names(*old(self));
                    let now = mem_table_names(*self);
                    assert(now =~= was.remove(i as int));
                    lemma_removed(was, now, i as int, table_names(*self), names_of_views(*self));
                    assert forall|k: int| 0 <= k < self.mem@.len() && old(self).wf() implies (#[trigger] self.mem@[k]).wf() by {
                        assert(self.mem@[k] == if k < i { old(self).mem@[k] } else { old(self).mem@[k + 1] });
                    }
                }
                Ok(())
            },
            None => Err(Error::new(Code::TableNotFound)),
        }
    }

    /// The index of a writable table: an in-memory table. A file-backed table is
    /// read-only.
    pub fn mem_index_writable(&self, name: &str) -> (r: Result<usize, Error>)
        ensures
            writable(*self, name@, r),
    {
        if let Some(i) = self.mem_index_of(name) {
            return Ok(i);
        }
        if self.index_of(name).is_some() {
            return Err(Error::new(Code::ReadOnlyTable));
        }
        Err(Error::new(Code::TableNotFound))
    }

    /// `ALTER TABLE ... ADD COLUMN`. The value is appended to every row.
    pub fn mem_add_column(&mut self, idx: usize, field: Field, value: Value) -> (r: Result<(), Error>)
        requires
            old(self).wf(),
            value@.fits(field.ty.phys()),
        ensures
            final(self).wf(),
            final(self).tables == old(self).tables,
            final(self).views == old(self).views,
            mem_table_names(*final(self)) == mem_table_names(*old(self)),
            column_added(*old(self), *final(self), idx, field, value@, r),
    {
        if idx >= self.mem.len() {
            return Err(Error::new(Code::TableNotFound));
        }
        let found = self.mem[idx].column_index(field.name.as_str());
        if let Some(i) = found {
            assert(same_name(name_bytes(fields_of(self.mem@[idx as int].schema@)[i as int].name), name_bytes(field.name@)));
            return Err(Error::new(Code::DuplicateColumn));
        }
        let ghost orig = self.mem@[idx as int];
        assert(orig.wf());
        let mt = &mut self.mem[idx];
        mt.schema.push(field);
        push_to_rows(&mut mt.rows, &value);
        proof {
            let now = self.mem@[idx as int];
            assert(now.schema@ == orig.schema@.push(field));
            assert(fields_of(now.schema@) =~= fields_of(orig.schema@).push(field@));
            lemma_unique_push(fields_of(orig.schema@), field@);
            assert forall|k: int| 0 <= k < now.rows@.len() implies row_fits(#[trigger] table_rows(now.rows@)[k], fields_of(now.schema@)) by {
                assert(row_fits(table_rows(orig.rows@)[k], fields_of(orig.schema@)));
                let row = table_rows(now.rows@)[k];
                assert forall|c: int| 0 <= c < row.len() implies (#[trigger] row[c]).fits(fields_of(now.schema@)[c].ty.phys()) by {
                    if c < orig.schema@.len() {
                        assert(table_rows(orig.rows@)[k][c].fits(fields_of(orig.schema@)[c].ty.phys()));
                    }
                }
            }
            lemma_one_table_changed(*old(self), *self, idx as int);
        }
        Ok(())
    }

    /// `ALTER TABLE ... DROP COLUMN`. The column's value leaves every row.
    pub fn mem_drop_column(&mut self, idx: usize, col_name: &str) -> (r: Result<(), Error>)
        requires
            old(self).wf(),
        ensures
            final(self).wf(),
            final(self).tables == old(self).tables,
            final(self).views == old(self).views,
            mem_table_names(*final(self)) == mem_table_names(*old(self)),
            column_dropped(*old(self), *final(self), idx, col_name@, r),
    {
        if idx >= self.mem.len() {
            return Err(Error::new(Code::TableNotFound));
        }
        let pos: usize = match self.mem[idx].column_index(col_name) {
            Some(p) => p,
            None => {
                return Err(Error::new(Code::ColumnNotFound));
            },
        };
        let ghost orig = self.mem@[idx as int];
        assert(orig.wf());
        assert forall|k: int| 0 <= k < orig.rows@.len() implies pos < (#[trigger] orig.rows@[k])@.len() by {
            assert(row_fits(table_rows(orig.rows@)[k], fields_of(orig.schema@)));
        }
        let mt = &mut self.mem[idx];
        let _gone = mt.schema.remove(pos);
        remove_from_rows(&mut mt.rows, pos);
        proof {
            let now = self.mem@[idx as int];
            assert(fields_of(now.schema@) =~= fields_of(orig.schema@).remove(pos as int));
            lemma_unique_remove(fields_of(orig.schema@), pos as int);
            assert forall|k: int| 0 <= k < now.rows@.len() implies row_fits(#[trigger] table_rows(now.rows@)[k], fields_of(now.schema@)) by {
                assert(row_fits(table_rows(orig.rows@)[k], fields_of(orig.schema@)));
                let row = table_rows(now.rows@)[k];
                assert forall|c: int| 0 <= c < row.len() implies (#[trigger] row[c]).fits(fields_of(now.schema@)[c].ty.phys()) by {
                    let d = if c < pos { c } else { c + 1 };
                    assert(table_rows(orig.rows@)[k][d].fits(fields_of(orig.schema@)[d].ty.phys()));
                }
            }
            lemma_one_table_changed(*old(self), *self, idx as int);
            assert(column_named(fields_of(orig.schema@), name_bytes(col_name@), pos as int));
        }
        Ok(())
    }

    /// `ALTER TABLE ... RENAME COLUMN`. Only the name changes. A column may be
    /// renamed to its own name in other case, not to another column's.
    pub fn mem_rename_column(&mut self, idx: usize, old_name: &str, new_name: &str) -> (r: Result<(), Error>)
        requires
            old(self).wf(),
        ensures
            final(self).wf(),
            final(self).tables == old(self).tables,
            final(self).views == old(self).views,
            mem_table_names(*final(self)) == mem_table_names(*old(self)),
            column_renamed(*old(self), *final(self), idx, old_name@, new_name@, r),
    {
        if idx >= self.mem.len() {
            return Err(Error::new(Code::TableNotFound));
        }
        let pos: usize = match self.mem[idx].column_index(old_name) {
            Some(p) => p,
            None => {
                return Err(Error::new(Code::ColumnNotFound));
            },
        };
        let ghost orig = self.mem@[idx as int];
        let ghost was = fields_of(orig.schema@);
        assert(orig.wf());
        let mut i: usize = 0;
        while i < self.mem[idx].schema.len()
            invariant
                *self == *old(self),
                self.wf(),
                idx < self.mem@.len(),
                orig == self.mem@[idx as int],
                was == fields_of(orig.schema@),
                i <= was.len(),
                pos < was.len(),
                column_named(was, name_bytes(old_name@), pos as int),
                forall|j: int|
                    0 <= j < i && j != pos ==> !same_name(
                        name_bytes((#[trigger] was[j]).name),
                        name_bytes(new_name@),
                    ),
            decreases was.len() - i,
        {
            assert(was[i as int] == orig.schema@[i as int]@);
            if i != pos && eq_ascii_ci(self.mem[idx].schema[i].name.as_str().as_bytes(), new_name.as_bytes()) {
                assert(!free_for(was, name_bytes(new_name@), pos as int));
                assert(same_name(name_bytes(was[pos as int].name), name_bytes(old_name@)));
                return Err(Error::new(Code::DuplicateColumn));
            }
            i = i + 1;
        }
        let ty: Ty = self.mem[idx].schema[pos].ty;
        let nullable: bool = self.mem[idx].schema[pos].nullable;
        let mt = &mut self.mem[idx];
        mt.schema[pos] = Field { name: new_name.to_owned(), ty, nullable };
        proof {
            let now = self.mem@[idx as int];
            let renamed = FieldV { name: new_name@, ..was[pos as int] };
            assert(fields_of(now.schema@) =~= was.update(pos as int, renamed));
            lemma_unique_rename(was, pos as int, renamed);
            assert forall|k: int| 0 <= k < now.rows@.len() implies row_fits(#[trigger] table_rows(now.rows@)[k], fields_of(now.schema@)) by {
                assert(row_fits(table_rows(orig.rows@)[k], was));
            }
            lemma_one_table_changed(*old(self), *self, idx as int);
            assert(column_named(was, name_bytes(old_name@), pos as int));
        }
        Ok(())
    }

    /// `ALTER TABLE ... RENAME TO`. A table may be renamed to its own name in
    /// other case, not to a name that another table or view has.
    pub fn mem_rename_table(&mut self, idx: usize, new_name: &str) -> (r: Result<(), Error>)
        requires
            old(self).wf(),
            old(self).names_ok(),
            idx < old(self).mem@.len(),
        ensures
            final(self).wf(),
            final(self).names_ok(),
            final(self).tables == old(self).tables,
            final(self).views == old(self).views,
            table_renamed(*old(self), *final(self), idx, new_name@, r),
    {
        let ghost was = mem_table_names(*self);
        let ghost nm = name_bytes(new_name@);
        let taken_by_other_mem: bool = match self.mem_index_of(new_name) {
            Some(i) => {
                proof {
                    if i == idx {
                        assert forall|j: int| 0 <= j < was.len() && j != idx implies !same_name(#[trigger] was[j], nm) by {
                            if same_name(was[j], nm) {
                                crate::hash::same_name_is_an_equivalence(was[idx as int], nm, was[j]);
                                crate::hash::same_name_is_an_equivalence(was[j], nm, was[idx as int]);
                                crate::hash::same_name_is_an_equivalence(nm, was[j], nm);
                                if j < idx {
                                    assert(!same_name(was[j], was[idx as int]));
                                } else {
                                    assert(!same_name(was[idx as int], was[j]));
                                }
                            }
                        }
                    } else {
                        assert(same_name(was[i as int], nm));
                    }
                }
                i != idx
            },
            None => false,
        };
        if self.name_taken_by_other(new_name) || taken_by_other_mem {
            return Err(Error::new(Code::DuplicateTable));
        }
        let mt = &mut self.mem[idx];
        mt.name = new_name.to_owned();
        proof {
            assert(table_names(*self) == table_names(*old(self)));
            assert(names_of_views(*self) == names_of_views(*old(self)));
            let now = mem_table_names(*self);
            assert(now =~= was.update(idx as int, nm));
            lemma_renamed(was, now, idx as int, nm, table_names(*self), names_of_views(*self));
            assert(table_rows(self.mem@[idx as int].rows@) == table_rows(old(self).mem@[idx as int].rows@));
            assert(self.mem@[idx as int].wf());
        }
        Ok(())
    }

    /// The text of a view's query.
    pub fn view_get(&self, i: usize) -> (r: Option<&str>)
        ensures
            match r {
                Some(t) => i < self.views@.len() && t@ == self.views@[i as int].1@,
                None => i >= self.views@.len(),
            },
    {
        if i < self.views.len() {
            Some(self.views[i].1.as_str())
        } else {
            None
        }
    }

    /// The view names, in order of creation.
    pub fn view_names(&self) -> (r: Vec<&str>)
        ensures
            r@.len() == self.views@.len(),
            forall|i: int| 0 <= i < r@.len() ==> (#[trigger] r@[i])@ == self.views@[i].0@,
    {
        let mut r: Vec<&str> = Vec::new();
        let mut i: usize = 0;
        while i < self.views.len()
            invariant
                i <= self.views@.len(),
                r@.len() == i,
                forall|j: int| 0 <= j < i ==> (#[trigger] r@[j])@ == self.views@[j].0@,
            decreases self.views@.len() - i,
        {
            r.push(self.views[i].0.as_str());
            i = i + 1;
        }
        r
    }

    /// `CREATE VIEW`. With `or_replace`, a view of the same name is replaced.
    pub fn view_create(&mut self, name: &str, query_sql: String, or_replace: bool) -> (r: Result<usize, Error>)
        ensures
            final(self).tables == old(self).tables,
            final(self).mem == old(self).mem,
            view_created(*old(self), *final(self), name@, query_sql, or_replace, r),
    {
        if self.index_of(name).is_some() || self.mem_index_of(name).is_some() {
            return Err(Error::new(Code::DuplicateTable));
        }
        let at = self.view_index_of(name);
        let i: usize = match at {
            Some(i) => {
                if !or_replace {
                    return Err(Error::new(Code::DuplicateTable));
                }
                self.views[i] = (name.to_owned(), query_sql);
                i
            },
            None => {
                self.views.push((name.to_owned(), query_sql));
                self.views.len() - 1
            },
        };
        proof {
            let nm = name_bytes(name@);
            let was = names_of_views(*old(self));
            let now = names_of_views(*self);
            assert(table_names(*self) == table_names(*old(self)));
            assert(mem_table_names(*self) == mem_table_names(*old(self)));
            lemma_placed(was, now, i as int, nm);
            if old(self).names_ok() {
                lemma_apart_symmetric(table_names(*self), was);
                lemma_apart_symmetric(mem_table_names(*self), was);
                lemma_apart_placed(was, now, table_names(*self), i as int, nm);
                lemma_apart_placed(was, now, mem_table_names(*self), i as int, nm);
                lemma_apart_symmetric(now, table_names(*self));
                lemma_apart_symmetric(now, mem_table_names(*self));
            }
        }
        Ok(i)
    }

    /// `DROP VIEW`.
    pub fn view_drop(&mut self, name: &str) -> (r: Result<(), Error>)
        ensures
            final(self).tables == old(self).tables,
            final(self).mem == old(self).mem,
            view_dropped(*old(self), *final(self), name@, r),
    {
        match self.view_index_of(name) {
            Some(i) => {
                let _gone = self.views.remove(i);
                proof {
                    assert(first_named(names_of_views(*old(self)), name_bytes(name@), i as int));
                    assert(table_names(*self) == table_names(*old(self)));
                    assert(mem_table_names(*self) == mem_table_names(*old(self)));
                    let was = names_of_views(*old(self));
                    let now = names_of_views(*self);
                    assert(now =~= was.remove(i as int));
                    lemma_removed(was, now, i as int, table_names(*self), mem_table_names(*self));
                    if old(self).names_ok() {
                        lemma_apart_symmetric(now, mem_table_names(*self));
                    }
                }
                Ok(())
            },
            None => Err(Error::new(Code::TableNotFound)),
        }
    }
}

impl Default for Catalog {
    fn default() -> (c: Catalog)
        ensures
            c.wf(),
            c.names_ok(),
            c.tables@.len() == 0,
            c.mem@.len() == 0,
            c.views@.len() == 0,
    {
        Catalog::new()
    }
}

/// What registering a table does: it takes a free place or that of the table of
/// the same name, unless an in-memory table or a view has the name.
pub open spec fn registered(before: Catalog, after: Catalog, name: Seq<char>, r: Result<usize, Error>) -> bool {
    let nm = name_bytes(name);
    let free = none_named(mem_table_names(before), nm) && none_named(names_of_views(before), nm);
    match r {
        Ok(i) => {
            &&& free
            &&& after.mem == before.mem
            &&& after.views == before.views
            &&& after.tables@[i as int].name@ == name
            &&& after.tables@[i as int].unified is None
            &&& if none_named(table_names(before), nm) {
                i == before.tables@.len() && after.tables@ == before.tables@.push(after.tables@[i as int])
            } else {
                first_named(table_names(before), nm, i as int) && after.tables@ == before.tables@.update(
                    i as int,
                    after.tables@[i as int],
                )
            }
            &&& before.names_ok() ==> after.names_ok()
            &&& before.wf() ==> after.wf()
        },
        Err(e) => !free && e.code == Code::DuplicateTable && after == before,
    }
}

/// Whether no column but the `p`-th has a name.
pub open spec fn free_for(schema: Seq<FieldV>, name: Seq<u8>, p: int) -> bool {
    forall|j: int|
        0 <= j < schema.len() && j != p ==> !same_name(name_bytes((#[trigger] schema[j]).name), name)
}

fn push_to_rows(rows: &mut Vec<Vec<Value>>, value: &Value)
    ensures
        final(rows)@.len() == old(rows)@.len(),
        forall|k: int|
            0 <= k < old(rows)@.len() ==> #[trigger] table_rows(final(rows)@)[k] == table_rows(old(rows)@)[k].push(value@),
{
    let mut k: usize = 0;
    while k < rows.len()
        invariant
            rows@.len() == old(rows)@.len(),
            k <= rows@.len(),
            forall|j: int|
                0 <= j < k ==> #[trigger] table_rows(rows@)[j] == table_rows(old(rows)@)[j].push(value@),
            forall|j: int| k <= j < rows@.len() ==> rows@[j] == old(rows)@[j],
        decreases rows@.len() - k,
    {
        let ghost before = rows@;
        rows[k].push(value.dup());
        assert forall|j: int| 0 <= j < k implies #[trigger] table_rows(rows@)[j] == table_rows(old(rows)@)[j].push(value@) by {
            assert(table_rows(before)[j] == table_rows(rows@)[j]);
        }
        assert(row_vals(rows@[k as int]@) =~= row_vals(old(rows)@[k as int]@).push(value@));
        k = k + 1;
    }
}

fn remove_from_rows(rows: &mut Vec<Vec<Value>>, pos: usize)
    requires
        forall|k: int| 0 <= k < old(rows)@.len() ==> pos < (#[trigger] old(rows)@[k])@.len(),
    ensures
        final(rows)@.len() == old(rows)@.len(),
        forall|k: int|
            0 <= k < old(rows)@.len() ==> #[trigger] table_rows(final(rows)@)[k] == table_rows(old(rows)@)[k].remove(pos as int),
{
    let mut k: usize = 0;
    while k < rows.len()
        invariant
            forall|k: int| 0 <= k < old(rows)@.len() ==> pos < (#[trigger] old(rows)@[k])@.len(),
            rows@.len() == old(rows)@.len(),
            k <= rows@.len(),
            forall|j: int|
                0 <= j < k ==> #[trigger] table_rows(rows@)[j] == table_rows(old(rows)@)[j].remove(pos as int),
            forall|j: int| k <= j < rows@.len() ==> rows@[j] == old(rows)@[j],
        decreases rows@.len() - k,
    {
        assert(rows@[k as int] == old(rows)@[k as int]);
        let ghost before = rows@;
        let _gone = rows[k].remove(pos);
        assert forall|j: int| 0 <= j < k implies #[trigger] table_rows(rows@)[j] == table_rows(old(rows)@)[j].remove(pos as int) by {
            assert(table_rows(before)[j] == table_rows(rows@)[j]);
        }
        assert(row_vals(rows@[k as int]@) =~= row_vals(old(rows)@[k as int]@).remove(pos as int));
        k = k + 1;
    }
}

proof fn lemma_one_table_changed(before: Catalog, after: Catalog, idx: int)
    requires
        before.wf(),
        0 <= idx < before.mem@.len(),
        after.tables == before.tables,
        after.mem@ == before.mem@.update(idx, after.mem@[idx]),
        after.mem@[idx].name == before.mem@[idx].name,
        after.mem@[idx].wf(),
    ensures
        after.wf(),
        mem_table_names(after) == mem_table_names(before),
{
    assert(mem_table_names(after) =~= mem_table_names(before));
    assert forall|i: int| 0 <= i < after.mem@.len() implies (#[trigger] after.mem@[i]).wf() by {
        if i != idx {
            assert(before.mem@[i].wf());
        }
    }
}

proof fn lemma_unique_push(schema: Seq<FieldV>, f: FieldV)
    requires
        names_unique(schema),
        no_column_named(schema, name_bytes(f.name)),
    ensures
        names_unique(schema.push(f)),
{
    let now = schema.push(f);
    assert forall|i: int, j: int| 0 <= i < j < now.len() implies !same_name(
        name_bytes((#[trigger] now[i]).name),
        name_bytes((#[trigger] now[j]).name),
    ) by {
        if j < schema.len() {
            assert(!same_name(name_bytes(schema[i].name), name_bytes(schema[j].name)));
        } else {
            assert(!same_name(name_bytes(schema[i].name), name_bytes(f.name)));
        }
    }
}

proof fn lemma_unique_remove(schema: Seq<FieldV>, p: int)
    requires
        names_unique(schema),
        0 <= p < schema.len(),
    ensures
        names_unique(schema.remove(p)),
{
    let now = schema.remove(p);
    assert forall|i: int, j: int| 0 <= i < j < now.len() implies !same_name(
        name_bytes((#[trigger] now[i]).name),
        name_bytes((#[trigger] now[j]).name),
    ) by {
        let a = if i < p { i } else { i + 1 };
        let b = if j < p { j } else { j + 1 };
        assert(!same_name(name_bytes(schema[a].name), name_bytes(schema[b].name)));
    }
}

proof fn lemma_unique_rename(schema: Seq<FieldV>, p: int, f: FieldV)
    requires
        names_unique(schema),
        0 <= p < schema.len(),
        free_for(schema, name_bytes(f.name), p),
    ensures
        names_unique(schema.update(p, f)),
{
    let now = schema.update(p, f);
    assert forall|i: int, j: int| 0 <= i < j < now.len() implies !same_name(
        name_bytes((#[trigger] now[i]).name),
        name_bytes((#[trigger] now[j]).name),
    ) by {
        if i == p {
            assert(!same_name(name_bytes(schema[j].name), name_bytes(f.name)));
            crate::hash::same_name_is_an_equivalence(name_bytes(f.name), name_bytes(schema[j].name), name_bytes(f.name));
        } else if j == p {
            assert(!same_name(name_bytes(schema[i].name), name_bytes(f.name)));
        } else {
            assert(!same_name(name_bytes(schema[i].name), name_bytes(schema[j].name)));
        }
    }
}

/// Whether a list of names got a name at a free place, or in place of the same name.
spec fn placed(was: Seq<Seq<u8>>, now: Seq<Seq<u8>>, i: int, nm: Seq<u8>) -> bool {
    ||| (first_named(was, nm, i) && now =~= was.update(i, nm))
    ||| (none_named(was, nm) && i == was.len() && now =~= was.push(nm))
}

proof fn lemma_placed(was: Seq<Seq<u8>>, now: Seq<Seq<u8>>, i: int, nm: Seq<u8>)
    requires
        placed(was, now, i, nm),
    ensures
        all_distinct(was) ==> all_distinct(now),
{
    if all_distinct(was) {
        assert forall|a: int, b: int| 0 <= a < b < now.len() implies !same_name(#[trigger] now[a], #[trigger] now[b]) by {
            if i == was.len() {
                if b < was.len() {
                    assert(!same_name(was[a], was[b]));
                } else {
                    assert(!same_name(was[a], nm));
                }
            } else {
                assert(!same_name(was[a], was[b]));
                crate::hash::same_name_is_an_equivalence(was[i], nm, was[b]);
                crate::hash::same_name_is_an_equivalence(nm, was[i], nm);
                crate::hash::same_name_is_an_equivalence(was[a], nm, was[i]);
            }
        }
    }
}

proof fn lemma_apart_placed(was: Seq<Seq<u8>>, now: Seq<Seq<u8>>, other: Seq<Seq<u8>>, i: int, nm: Seq<u8>)
    requires
        placed(was, now, i, nm),
        apart(was, other) || apart(other, was),
        none_named(other, nm),
    ensures
        apart(now, other),
        apart(other, now),
{
    if apart(other, was) {
        lemma_apart_symmetric(other, was);
    }
    assert forall|a: int, b: int| 0 <= a < now.len() && 0 <= b < other.len() implies !same_name(#[trigger] now[a], #[trigger] other[b]) by {
        if a == i {
            assert(!same_name(other[b], nm));
            crate::hash::same_name_is_an_equivalence(nm, other[b], nm);
        } else {
            assert(!same_name(was[a], other[b]));
        }
    }
    lemma_apart_symmetric(now, other);
}

proof fn lemma_apart_symmetric(a: Seq<Seq<u8>>, b: Seq<Seq<u8>>)
    ensures
        apart(a, b) ==> apart(b, a),
{
    if apart(a, b) {
        assert forall|j: int, i: int| 0 <= j < b.len() && 0 <= i < a.len() implies !same_name(#[trigger] b[j], #[trigger] a[i]) by {
            assert(!same_name(a[i], b[j]));
            crate::hash::same_name_is_an_equivalence(b[j], a[i], b[j]);
        }
    }
}

proof fn lemma_removed(was: Seq<Seq<u8>>, now: Seq<Seq<u8>>, i: int, x: Seq<Seq<u8>>, y: Seq<Seq<u8>>)
    requires
        0 <= i < was.len(),
        now == was.remove(i),
    ensures
        all_distinct(was) ==> all_distinct(now),
        apart(x, was) ==> apart(x, now),
        apart(was, y) ==> apart(now, y),
        apart(y, was) ==> apart(now, y),
{
    if all_distinct(was) {
        assert forall|a: int, b: int| 0 <= a < b < now.len() implies !same_name(#[trigger] now[a], #[trigger] now[b]) by {
            let c = if a < i { a } else { a + 1 };
            let d = if b < i { b } else { b + 1 };
            assert(!same_name(was[c], was[d]));
        }
    }
    if apart(x, was) {
        assert forall|a: int, b: int| 0 <= a < x.len() && 0 <= b < now.len() implies !same_name(#[trigger] x[a], #[trigger] now[b]) by {
            let d = if b < i { b } else { b + 1 };
            assert(!same_name(x[a], was[d]));
        }
    }
    lemma_apart_symmetric(y, was);
    if apart(was, y) {
        assert forall|a: int, b: int| 0 <= a < now.len() && 0 <= b < y.len() implies !same_name(#[trigger] now[a], #[trigger] y[b]) by {
            let c = if a < i { a } else { a + 1 };
            assert(!same_name(was[c], y[b]));
        }
    }
}

proof fn lemma_renamed(was: Seq<Seq<u8>>, now: Seq<Seq<u8>>, i: int, nm: Seq<u8>, x: Seq<Seq<u8>>, y: Seq<Seq<u8>>)
    requires
        0 <= i < was.len(),
        now == was.update(i, nm),
        all_distinct(was),
        apart(x, was),
        apart(was, y),
        none_named(x, nm),
        none_named(y, nm),
        forall|j: int| 0 <= j < was.len() && j != i ==> !same_name(#[trigger] was[j], nm),
    ensures
        all_distinct(now),
        apart(x, now),
        apart(now, y),
{
    assert forall|a: int, b: int| 0 <= a < b < now.len() implies !same_name(#[trigger] now[a], #[trigger] now[b]) by {
        if a == i {
            assert(!same_name(was[b], nm));
            crate::hash::same_name_is_an_equivalence(nm, was[b], nm);
        } else if b == i {
            assert(!same_name(was[a], nm));
        } else {
            assert(!same_name(was[a], was[b]));
        }
    }
    assert forall|a: int, b: int| 0 <= a < x.len() && 0 <= b < now.len() implies !same_name(#[trigger] x[a], #[trigger] now[b]) by {
        assert(!same_name(x[a], was[b]));
        assert(!same_name(x[a], nm));
    }
    assert forall|a: int, b: int| 0 <= a < now.len() && 0 <= b < y.len() implies !same_name(#[trigger] now[a], #[trigger] y[b]) by {
        assert(!same_name(was[a], y[b]));
        assert(!same_name(y[b], nm));
        crate::hash::same_name_is_an_equivalence(nm, y[b], nm);
    }
}

// --- Laws ---------------------------------------------------------------------------------

/// `DROP TABLE` undoes the `CREATE TABLE` of a new name.
pub proof fn dropping_undoes_creating(
    before: Catalog,
    mid: Catalog,
    after: Catalog,
    name: Seq<char>,
    schema: Vec<Field>,
    replace: bool,
    i: usize,
)
    requires
        none_named(mem_table_names(before), name_bytes(name)),
        mem_created(before, mid, name, schema, replace, Ok(i)),
        mem_dropped(mid, after, name, Ok(())),
    ensures
        after.mem@ == before.mem@,
{
    let nm = name_bytes(name);
    let j = choose|j: int| #[trigger] first_named(mem_table_names(mid), nm, j) && after.mem@ == mid.mem@.remove(j);
    if j < before.mem@.len() {
        assert(mem_table_names(mid)[j] == mem_table_names(before)[j]);
    }
    assert(after.mem@ =~= before.mem@);
}

/// `DROP VIEW` undoes the `CREATE VIEW` of a new name.
pub proof fn dropping_a_view_undoes_creating_it(
    before: Catalog,
    mid: Catalog,
    after: Catalog,
    name: Seq<char>,
    query_sql: String,
    or_replace: bool,
    i: usize,
)
    requires
        none_named(names_of_views(before), name_bytes(name)),
        view_created(before, mid, name, query_sql, or_replace, Ok(i)),
        view_dropped(mid, after, name, Ok(())),
    ensures
        after.views@ == before.views@,
{
    let nm = name_bytes(name);
    let j = choose|j: int| #[trigger] first_named(names_of_views(mid), nm, j) && after.views@ == mid.views@.remove(j);
    if j < before.views@.len() {
        assert(names_of_views(mid)[j] == names_of_views(before)[j]);
    }
    assert(after.views@ =~= before.views@);
}

/// `DROP COLUMN` undoes `ADD COLUMN`.
pub proof fn dropping_a_column_undoes_adding_it(
    before: Catalog,
    mid: Catalog,
    after: Catalog,
    idx: usize,
    field: Field,
    value: Val,
)
    requires
        before.wf(),
        column_added(before, mid, idx, field, value, Ok(())),
        column_dropped(mid, after, idx, field.name@, Ok(())),
    ensures
        after.mem@.len() == before.mem@.len(),
        forall|t: int| 0 <= t < before.mem@.len() && t != idx ==> #[trigger] after.mem@[t] == before.mem@[t],
        after.mem@[idx as int].schema@ == before.mem@[idx as int].schema@,
        table_rows(after.mem@[idx as int].rows@) == table_rows(before.mem@[idx as int].rows@),
{
    let x = before.mem@[idx as int];
    let y = mid.mem@[idx as int];
    let z = after.mem@[idx as int];
    let nm = name_bytes(field.name@);
    let p = choose|p: int|
        {
            &&& #[trigger] column_named(fields_of(y.schema@), nm, p)
            &&& z.schema@ == y.schema@.remove(p)
            &&& z.rows@.len() == y.rows@.len()
            &&& forall|k: int|
                0 <= k < y.rows@.len() ==> #[trigger] table_rows(z.rows@)[k] == table_rows(y.rows@)[k].remove(p)
        };
    if p < x.schema@.len() {
        assert(fields_of(y.schema@)[p] == fields_of(x.schema@)[p]);
    }
    assert(z.schema@ =~= x.schema@);
    assert forall|k: int| 0 <= k < x.rows@.len() implies #[trigger] table_rows(z.rows@)[k] == table_rows(x.rows@)[k] by {
        assert(table_rows(y.rows@)[k] == table_rows(x.rows@)[k].push(value));
        assert(table_rows(z.rows@)[k] == table_rows(y.rows@)[k].remove(p));
        assert(row_fits(table_rows(x.rows@)[k], fields_of(x.schema@)));
        assert(table_rows(x.rows@)[k].push(value).remove(p) =~= table_rows(x.rows@)[k]);
    }
}

/// Renaming a column back restores its name.
pub proof fn renaming_a_column_back_restores_it(
    before: Catalog,
    mid: Catalog,
    after: Catalog,
    idx: usize,
    p: int,
    new_name: Seq<char>,
)
    requires
        before.wf(),
        0 <= idx < before.mem@.len(),
        0 <= p < before.mem@[idx as int].schema@.len(),
        column_renamed(before, mid, idx, before.mem@[idx as int].schema@[p].name@, new_name, Ok(())),
        column_renamed(mid, after, idx, new_name, before.mem@[idx as int].schema@[p].name@, Ok(())),
    ensures
        fields_of(after.mem@[idx as int].schema@) == fields_of(before.mem@[idx as int].schema@),
        after.mem@[idx as int].rows == before.mem@[idx as int].rows,
{
    let x = fields_of(before.mem@[idx as int].schema@);
    let y = fields_of(mid.mem@[idx as int].schema@);
    let z = fields_of(after.mem@[idx as int].schema@);
    let old_name = before.mem@[idx as int].schema@[p].name@;
    assert(x[p].name == old_name);
    assert(before.mem@[idx as int].wf());
    let a = choose|a: int|
        {
            &&& #[trigger] column_named(x, name_bytes(old_name), a)
            &&& free_for(x, name_bytes(new_name), a)
            &&& y == x.update(a, FieldV { name: new_name, ..x[a] })
        };
    same_name_is_an_equivalence(name_bytes(x[a].name), name_bytes(old_name), name_bytes(old_name));
    assert(a == p) by {
        if a < p {
            assert(!same_name(name_bytes(x[a].name), name_bytes(x[p].name)));
        }
        if p < a {
            assert(!same_name(name_bytes(x[p].name), name_bytes(old_name)));
        }
    }
    let b = choose|b: int|
        {
            &&& #[trigger] column_named(y, name_bytes(new_name), b)
            &&& free_for(y, name_bytes(old_name), b)
            &&& z == y.update(b, FieldV { name: old_name, ..y[b] })
        };
    assert(b == p) by {
        if b != p {
            assert(y[b] == x[b]);
        }
    }
    assert(z =~= x);
}

/// Renaming a table back restores it.
pub proof fn renaming_a_table_back_restores_it(
    before: Catalog,
    mid: Catalog,
    after: Catalog,
    idx: usize,
    new_name: Seq<char>,
)
    requires
        0 <= idx < before.mem@.len(),
        table_renamed(before, mid, idx, new_name, Ok(())),
        table_renamed(mid, after, idx, before.mem@[idx as int].name@, Ok(())),
    ensures
        after.mem@.len() == before.mem@.len(),
        forall|t: int| 0 <= t < before.mem@.len() && t != idx ==> #[trigger] after.mem@[t] == before.mem@[t],
        after.mem@[idx as int].name@ == before.mem@[idx as int].name@,
        after.mem@[idx as int].schema == before.mem@[idx as int].schema,
        after.mem@[idx as int].rows == before.mem@[idx as int].rows,
{
}

} // verus!
