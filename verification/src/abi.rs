//! What the host addresses by number: sessions, queries, states of a query.
//!
//! A query's handle holds the index of its slot and how often that slot has
//! been closed before. So a handle that was closed never stands for a query
//! that uses the slot later ([`closed_handles_stay_dead`]).

use crate::error::{code_number, Code, Error};
use crate::exec::looks::looked_on;
use crate::exec::meaning::{stops, supplied, Why};
use crate::exec::{blocks_asked, bytes_asked, chunk, Child, CodecRequest, ExecContext, IoRequest, Said, Step};
use crate::format::FormatKind;
use crate::vector::Batch;
use crate::wire::{codec_list, encode_batch, encode_codec, encode_io, io_list, table_bytes};
use vstd::prelude::*;

verus! {

pub const STATUS_BATCH_READY: i32 = 0;

pub const STATUS_NEED_IO: i32 = 1;

pub const STATUS_DONE: i32 = 2;

pub const STATUS_ERROR: i32 = 3;

/// Asks the host to decompress blocks.
pub const STATUS_NEED_CODEC: i32 = 4;

/// How many query slots there are: the index takes 16 bits of a handle.
pub const QUERY_SLOTS: usize = 0x1_0000;

/// How often one slot can be opened: the generation takes 15 bits of a handle.
pub const QUERY_GENERATIONS: u32 = 0x8000;

// --- Handles ------------------------------------------------------------------------------

/// The handle of a slot in a generation.
pub open spec fn handle(index: int, generation: int) -> int {
    (generation % QUERY_GENERATIONS as int) * QUERY_SLOTS as int + index % QUERY_SLOTS as int
}

/// The slot and the generation of a handle. A negative number is no handle.
pub open spec fn split(h: i32) -> Option<(int, int)> {
    if h < 0 {
        None
    } else {
        Some((h as int % QUERY_SLOTS as int, h as int / QUERY_SLOTS as int))
    }
}

pub fn make_query_handle(index: usize, generation: u32) -> (h: i32)
    ensures
        h == handle(index as int, generation as int),
        h >= 0,
{
    let g: i32 = (generation % QUERY_GENERATIONS) as i32;
    let i: i32 = (index % QUERY_SLOTS) as i32;
    g * 65536 + i
}

pub fn split_query_handle(h: i32) -> (r: Option<(usize, u32)>)
    ensures
        match (r, split(h)) {
            (Some((i, g)), Some((j, k))) => i == j && g == k && i < QUERY_SLOTS && g < QUERY_GENERATIONS,
            (None, None) => true,
            _ => false,
        },
{
    if h < 0 {
        None
    } else {
        Some(((h % 65536) as usize, (h / 65536) as u32))
    }
}

/// A handle gives back the slot and the generation that it was made of.
pub proof fn handles_round_trip(index: int, generation: int)
    requires
        0 <= index < QUERY_SLOTS,
        0 <= generation < QUERY_GENERATIONS,
    ensures
        0 <= handle(index, generation) <= i32::MAX,
        split(handle(index, generation) as i32) == Some((index, generation)),
{
}

// --- Sessions -----------------------------------------------------------------------------

/// Sessions by number. A number is used again once its session is freed.
pub struct Sessions<S> {
    pub slots: Vec<Option<S>>,
}

/// The first free slot, or the one behind the last.
pub open spec fn first_free<T>(slots: Seq<Option<T>>, i: int) -> bool {
    &&& 0 <= i <= slots.len()
    &&& i < slots.len() ==> slots[i] is None
    &&& forall|j: int| 0 <= j < i ==> (#[trigger] slots[j]) is Some
}

/// A value in a slot, which may be the one behind the last.
pub open spec fn filled<T>(slots: Seq<Option<T>>, i: int, x: T) -> Seq<Option<T>> {
    if i < slots.len() {
        slots.update(i, Some(x))
    } else {
        slots.push(Some(x))
    }
}

/// Slots without the free ones at the end.
pub open spec fn trimmed<T>(slots: Seq<Option<T>>) -> Seq<Option<T>>
    decreases slots.len(),
{
    if slots.len() > 0 && slots.last() is None {
        trimmed(slots.drop_last())
    } else {
        slots
    }
}

/// The slots once one is freed, if there is one of that number.
pub open spec fn freed<T>(slots: Seq<Option<T>>, i: int) -> Seq<Option<T>> {
    if 0 <= i < slots.len() {
        trimmed(slots.update(i, None))
    } else {
        trimmed(slots)
    }
}

/// Trimming takes free slots only.
proof fn lemma_trimmed<T>(slots: Seq<Option<T>>)
    ensures
        trimmed(slots).len() <= slots.len(),
        trimmed(slots) == slots.take(trimmed(slots).len() as int),
        forall|j: int| trimmed(slots).len() <= j < slots.len() ==> (#[trigger] slots[j]) is None,
        trimmed(slots).len() > 0 ==> trimmed(slots).last() is Some,
    decreases slots.len(),
{
    if slots.len() > 0 && slots.last() is None {
        let s = slots.drop_last();
        lemma_trimmed(s);
        assert(slots.take(trimmed(s).len() as int) =~= s.take(trimmed(s).len() as int));
        assert forall|j: int| trimmed(slots).len() <= j < slots.len() implies (#[trigger] slots[j]) is None by {
            if j < s.len() {
                assert(s[j] is None);
            }
        }
    } else {
        assert(slots.take(slots.len() as int) =~= slots);
    }
}

fn free_slot<T>(slots: &Vec<Option<T>>) -> (i: usize)
    ensures
        first_free(slots@, i as int),
{
    let mut i: usize = 0;
    while i < slots.len()
        invariant
            i <= slots@.len(),
            forall|j: int| 0 <= j < i ==> (#[trigger] slots@[j]) is Some,
        decreases slots@.len() - i,
    {
        if slots[i].is_none() {
            return i;
        }
        i = i + 1;
    }
    i
}

fn trim<T>(slots: &mut Vec<Option<T>>)
    ensures
        final(slots)@ == trimmed(old(slots)@),
{
    while slots.len() > 0 && slots[slots.len() - 1].is_none()
        invariant
            trimmed(slots@) == trimmed(old(slots)@),
        decreases slots@.len(),
    {
        let ghost before = slots@;
        slots.pop();
        assert(slots@ =~= before.drop_last());
    }
}

impl<S> Sessions<S> {
    pub fn new() -> (t: Sessions<S>)
        ensures
            t.slots@ == Seq::<Option<S>>::empty(),
    {
        Sessions { slots: Vec::new() }
    }

    /// The slot of a session.
    pub open spec fn slot(&self, h: i32) -> Option<int> {
        if 0 <= h < self.slots@.len() && self.slots@[h as int] is Some {
            Some(h as int)
        } else {
            None
        }
    }

    /// Takes in a session under the first free number.
    pub fn open(&mut self, s: S) -> (h: i32)
        requires
            old(self).slots@.len() < i32::MAX,
        ensures
            first_free(old(self).slots@, h as int),
            final(self).slots@ == filled(old(self).slots@, h as int, s),
    {
        let i: usize = free_slot(&self.slots);
        if i < self.slots.len() {
            self.slots.set(i, Some(s));
        } else {
            self.slots.push(Some(s));
        }
        i as i32
    }

    /// Frees a session. A number that stands for none changes nothing but that
    /// free slots at the end go.
    pub fn free(&mut self, h: i32)
        ensures
            final(self).slots@ == if h < 0 {
                old(self).slots@
            } else {
                freed(old(self).slots@, h as int)
            },
    {
        if h < 0 {
            return;
        }
        let i: usize = h as usize;
        if i < self.slots.len() {
            self.slots.set(i, None);
        }
        trim(&mut self.slots);
    }

    pub fn find(&self, h: i32) -> (r: Option<usize>)
        ensures
            match (r, self.slot(h)) {
                (Some(i), Some(j)) => i == j,
                (None, None) => true,
                _ => false,
            },
    {
        if h < 0 || h as usize >= self.slots.len() {
            return None;
        }
        if self.slots[h as usize].is_some() {
            Some(h as usize)
        } else {
            None
        }
    }
}

// --- Queries ------------------------------------------------------------------------------

/// Queries by handle.
pub struct Queries<Q> {
    pub slots: Vec<Option<Q>>,
    /// How often each slot has been closed. It outlives the slot: a slot that is
    /// taken away and comes back goes on counting.
    pub generations: Vec<u32>,
}

/// The queries as mathematics sees them.
#[verifier::ext_equal]
pub struct QueriesV<Q> {
    pub slots: Seq<Option<Q>>,
    pub generations: Seq<u32>,
}

impl<Q> View for Queries<Q> {
    type V = QueriesV<Q>;

    open spec fn view(&self) -> QueriesV<Q> {
        QueriesV { slots: self.slots@, generations: self.generations@ }
    }
}

impl<Q> QueriesV<Q> {
    pub open spec fn wf(self) -> bool {
        &&& self.slots.len() <= self.generations.len() <= QUERY_SLOTS
        &&& forall|i: int| 0 <= i < self.generations.len() ==> (#[trigger] self.generations[i]) <= QUERY_GENERATIONS
        &&& forall|i: int|
            0 <= i < self.slots.len() && (#[trigger] self.slots[i]) is Some ==> self.generations[i] < QUERY_GENERATIONS
    }

    /// The slot that a handle stands for, open or not.
    pub open spec fn current(self, q: i32) -> Option<int> {
        match split(q) {
            Some((i, g)) => if i < self.generations.len() && self.generations[i] == g {
                Some(i)
            } else {
                None
            },
            None => None,
        }
    }

    /// The slot of the query that a handle stands for.
    pub open spec fn slot(self, q: i32) -> Option<int> {
        match self.current(q) {
            Some(i) => if i < self.slots.len() && self.slots[i] is Some {
                Some(i)
            } else {
                None
            },
            None => None,
        }
    }

    /// The query that a handle stands for.
    pub open spec fn query(self, q: i32) -> Option<Q> {
        match self.slot(q) {
            Some(i) => self.slots[i],
            None => None,
        }
    }

    /// The handle was closed.
    pub open spec fn dead(self, q: i32) -> bool {
        match split(q) {
            Some((i, g)) => i < self.generations.len() && g < self.generations[i],
            None => false,
        }
    }

    /// How often a slot has been closed.
    pub open spec fn generation(self, i: int) -> u32 {
        if i < self.generations.len() {
            self.generations[i]
        } else {
            0
        }
    }

    /// No query can be opened: all slots are taken, or the first free one has
    /// been used too often.
    pub open spec fn full(self, i: int) -> bool {
        i >= QUERY_SLOTS || self.generation(i) >= QUERY_GENERATIONS
    }

    pub open spec fn opened(self, i: int, x: Q) -> QueriesV<Q> {
        QueriesV {
            slots: filled(self.slots, i, x),
            generations: if i < self.generations.len() {
                self.generations
            } else {
                self.generations.push(0)
            },
        }
    }

    pub open spec fn closed(self, q: i32) -> QueriesV<Q> {
        match self.current(q) {
            Some(i) => QueriesV {
                slots: freed(self.slots, i),
                generations: self.generations.update(i, (self.generations[i] + 1) as u32),
            },
            None => self,
        }
    }
}

impl<Q> Queries<Q> {
    pub fn new() -> (t: Queries<Q>)
        ensures
            t@.wf(),
            t.slots@ == Seq::<Option<Q>>::empty(),
            t.generations@ == Seq::<u32>::empty(),
    {
        Queries { slots: Vec::new(), generations: Vec::new() }
    }

    fn find_current(&self, q: i32) -> (r: Option<usize>)
        ensures
            match (r, self@.current(q)) {
                (Some(i), Some(j)) => i == j,
                (None, None) => true,
                _ => false,
            },
    {
        match split_query_handle(q) {
            None => None,
            Some((i, g)) => if i < self.generations.len() && self.generations[i] == g {
                Some(i)
            } else {
                None
            },
        }
    }

    /// The slot of the query that a handle stands for.
    pub fn find(&self, q: i32) -> (r: Option<usize>)
        ensures
            match (r, self@.slot(q)) {
                (Some(i), Some(j)) => i == j && i < self.slots@.len() && self.slots@[i as int] is Some,
                (None, None) => true,
                _ => false,
            },
    {
        match self.find_current(q) {
            None => None,
            Some(i) => if i < self.slots.len() && self.slots[i].is_some() {
                Some(i)
            } else {
                None
            },
        }
    }

    /// Takes in a query in the first free slot.
    pub fn open(&mut self, x: Q) -> (r: Result<i32, Error>)
        requires
            old(self)@.wf(),
        ensures
            final(self)@.wf(),
            exists|i: int| #[trigger]
                first_free(old(self).slots@, i) && match r {
                    Ok(h) => {
                        &&& !old(self)@.full(i)
                        &&& h == handle(i, old(self)@.generation(i) as int)
                        &&& final(self)@ == old(self)@.opened(i, x)
                    },
                    Err(e) => old(self)@.full(i) && e.code == Code::LimitExceeded && final(self)@ == old(self)@,
                },
    {
        let i: usize = free_slot(&self.slots);
        assert(first_free(old(self).slots@, i as int));
        let g: u32 = if i < self.generations.len() {
            self.generations[i]
        } else {
            0
        };
        if i >= QUERY_SLOTS || g >= QUERY_GENERATIONS {
            return Err(Error::new(Code::LimitExceeded));
        }
        if i < self.slots.len() {
            self.slots.set(i, Some(x));
        } else {
            self.slots.push(Some(x));
        }
        if i >= self.generations.len() {
            self.generations.push(0);
        }
        assert(self@ =~= old(self)@.opened(i as int, x));
        Ok(make_query_handle(i, g))
    }

    /// Closes a query. A handle that is not current changes nothing.
    pub fn close(&mut self, q: i32)
        requires
            old(self)@.wf(),
        ensures
            final(self)@.wf(),
            final(self)@ == old(self)@.closed(q),
    {
        match self.find_current(q) {
            None => {},
            Some(i) => {
                if i < self.slots.len() {
                    self.slots.set(i, None);
                }
                let g: u32 = self.generations[i];
                proof {
                    lemma_trimmed(self.slots@);
                }
                self.generations.set(i, g + 1);
                let ghost slots = self.slots@;
                trim(&mut self.slots);
                assert(self@.wf()) by {
                    assert forall|j: int| 0 <= j < self.slots@.len() && (#[trigger] self.slots@[j]) is Some implies
                        self.generations@[j] < QUERY_GENERATIONS by {
                        assert(self.slots@[j] == slots[j]);
                        assert(old(self).slots@[j] is Some);
                    }
                }
            },
        }
    }
}

/// A handle that was closed stands for no query, and opening or closing other
/// queries never revives it.
pub proof fn closed_handles_stay_dead<Q>(t: QueriesV<Q>, q: i32, i: int, x: Q, other: i32)
    requires
        t.wf(),
    ensures
        t.current(q) is Some ==> t.closed(q).dead(q),
        t.dead(q) ==> t.query(q) is None && t.current(q) is None,
        t.dead(q) ==> t.closed(other).dead(q),
        t.dead(q) && first_free(t.slots, i) && !t.full(i) ==> t.opened(i, x).dead(q),
{
}

/// A query that is opened has a handle of its own, by which it is found.
pub proof fn opened_queries_are_found<Q>(t: QueriesV<Q>, i: int, x: Q)
    requires
        t.wf(),
        first_free(t.slots, i),
        !t.full(i),
    ensures
        t.query(handle(i, t.generation(i) as int) as i32) is None,
        t.opened(i, x).query(handle(i, t.generation(i) as int) as i32) == Some(x),
{
    handles_round_trip(i, t.generation(i) as int);
}

/// Opening and closing other queries leaves a query as it is.
pub proof fn other_queries_are_left_alone<Q>(t: QueriesV<Q>, q: i32, i: int, x: Q, other: i32)
    requires
        t.wf(),
        t.query(q) is Some,
    ensures
        first_free(t.slots, i) && !t.full(i) ==> t.opened(i, x).query(q) == t.query(q),
        other != q ==> t.closed(other).query(q) == t.query(q),
{
    let j = t.slot(q)->Some_0;
    if other != q {
        if let Some(k) = t.current(other) {
            let u = if k < t.slots.len() {
                t.slots.update(k, None)
            } else {
                t.slots
            };
            lemma_trimmed(u);
            assert(k != j && u[j] == t.slots[j]);
            assert(trimmed(u)[j] == u[j]);
        }
    }
}

// --- The host's view of the module --------------------------------------------------------

/// A query and the session that it belongs to.
pub struct QuerySlot<Q> {
    pub session: usize,
    pub query: Q,
}

/// What preparing a statement gives.
pub enum Prepared<Q> {
    Ready(Q),
    /// Bytes have to be fetched before the statement can be prepared.
    NeedIo(Vec<IoRequest>),
}

/// What one step of a query gives.
pub enum QueryStep {
    Batch(Batch),
    NeedIo(Vec<IoRequest>),
    NeedCodec(Vec<CodecRequest>),
    Done,
}

/// The sessions, the queries, and what the last call left for the host to read.
pub struct State<S, Q> {
    pub sessions: Sessions<S>,
    pub queries: Queries<QuerySlot<Q>>,
    /// The number of the last call's error, 0 if there was none.
    pub last_error: u32,
    pub out: Vec<u8>,
}

/// What a step leaves for the host: a status, the buffer and the error. The
/// buffer of an earlier call stays if the step has nothing to say.
pub open spec fn answered(r: Result<QueryStep, Error>, out: Seq<u8>) -> (i32, Seq<u8>, u32) {
    match r {
        Ok(QueryStep::Batch(b)) => (
            STATUS_BATCH_READY,
            table_bytes(b.types(), b.rows(), b.types().len() as int),
            0,
        ),
        Ok(QueryStep::NeedIo(io)) => (STATUS_NEED_IO, io_list(io@, io@.len() as int), 0),
        Ok(QueryStep::NeedCodec(reqs)) => (STATUS_NEED_CODEC, codec_list(reqs@, reqs@.len() as int), 0),
        Ok(QueryStep::Done) => (STATUS_DONE, out, 0),
        Err(e) => (STATUS_ERROR, out, code_number(e.code) as u32),
    }
}

/// The format of a number.
pub open spec fn format_of(v: u32) -> Option<FormatKind> {
    if v == 0 {
        Some(FormatKind::Auto)
    } else if v == 1 {
        Some(FormatKind::Parquet)
    } else if v == 2 {
        Some(FormatKind::Csv)
    } else if v == 3 {
        Some(FormatKind::Tsv)
    } else if v == 4 {
        Some(FormatKind::Jsonl)
    } else {
        None
    }
}

pub fn format_kind(v: u32) -> (r: Result<FormatKind, Error>)
    ensures
        match (r, format_of(v)) {
            (Ok(k), Some(l)) => k == l,
            (Err(e), None) => e.code == Code::UnsupportedFeature,
            _ => false,
        },
{
    match v {
        0 => Ok(FormatKind::Auto),
        1 => Ok(FormatKind::Parquet),
        2 => Ok(FormatKind::Csv),
        3 => Ok(FormatKind::Tsv),
        4 => Ok(FormatKind::Jsonl),
        _ => Err(Error::new(Code::UnsupportedFeature)),
    }
}

impl<S, Q> State<S, Q> {
    pub open spec fn wf(&self) -> bool {
        self.queries@.wf()
    }

    pub fn new() -> (t: State<S, Q>)
        ensures
            t.wf(),
            t.sessions.slots@ == Seq::<Option<S>>::empty(),
            t.queries.slots@ == Seq::<Option<QuerySlot<Q>>>::empty(),
            t.last_error == 0,
            t.out@ == Seq::<u8>::empty(),
    {
        State { sessions: Sessions::new(), queries: Queries::new(), last_error: 0, out: Vec::new() }
    }

    /// Forgets the error of an earlier call.
    pub fn clear_error(&mut self)
        ensures
            *final(self) == (State { last_error: 0, ..*old(self) }),
    {
        self.last_error = 0;
    }

    /// Leaves the number of an error.
    pub fn fail(&mut self, code: Code)
        ensures
            *final(self) == (State { last_error: code_number(code) as u32, ..*old(self) }),
    {
        self.last_error = Error::new(code).code_u16() as u32;
    }

    /// Takes in what a statement of a session was prepared to. Gives the
    /// handle of the query, -2 if bytes have to be fetched first, and -1 on
    /// failure.
    pub fn query_prepared(&mut self, session: usize, r: Result<Prepared<Q>, Error>) -> (h: i32)
        requires
            old(self).wf(),
        ensures
            final(self).wf(),
            final(self).sessions == old(self).sessions,
            match r {
                Ok(Prepared::Ready(q)) => {
                    &&& final(self).out == old(self).out
                    &&& exists|i: int| #[trigger]
                        first_free(old(self).queries.slots@, i) && if old(self).queries@.full(i) {
                            &&& h == -1
                            &&& final(self).last_error == code_number(Code::LimitExceeded)
                            &&& final(self).queries@ == old(self).queries@
                        } else {
                            &&& h == handle(i, old(self).queries@.generation(i) as int)
                            &&& final(self).last_error == old(self).last_error
                            &&& final(self).queries@ == old(self).queries@.opened(
                                i,
                                (QuerySlot { session, query: q }),
                            )
                        }
                },
                Ok(Prepared::NeedIo(io)) => {
                    &&& h == -2
                    &&& final(self).out@ == io_list(io@, io@.len() as int)
                    &&& final(self).last_error == old(self).last_error
                    &&& final(self).queries == old(self).queries
                },
                Err(e) => {
                    &&& h == -1
                    &&& final(self).out == old(self).out
                    &&& final(self).last_error == code_number(e.code)
                    &&& final(self).queries == old(self).queries
                },
            },
    {
        match r {
            Ok(Prepared::Ready(q)) => {
                match self.queries.open(QuerySlot { session, query: q }) {
                    Ok(h) => h,
                    Err(e) => {
                        self.fail(e.code);
                        -1
                    },
                }
            },
            Ok(Prepared::NeedIo(io)) => {
                self.out = encode_io(&io);
                -2
            },
            Err(e) => {
                self.fail(e.code);
                -1
            },
        }
    }

    /// Takes the query of a handle out of its slot, for a step: where it lies, and
    /// the query. A query whose session is gone is dropped.
    pub fn take_query(&mut self, q: i32) -> (r: Option<(usize, QuerySlot<Q>)>)
        requires
            old(self).wf(),
        ensures
            final(self).wf(),
            final(self).sessions == old(self).sessions,
            final(self).out == old(self).out,
            final(self).last_error == old(self).last_error,
            final(self).queries.generations == old(self).queries.generations,
            match old(self).queries@.slot(q) {
                None => r is None && final(self).queries@ == old(self).queries@,
                Some(i) => {
                    &&& final(self).queries.slots@ == old(self).queries.slots@.update(i, None)
                    &&& match r {
                        Some((at, slot)) => {
                            &&& at == i
                            &&& Some(slot) == old(self).queries.slots@[i]
                            &&& slot.session < old(self).sessions.slots@.len()
                            &&& old(self).sessions.slots@[slot.session as int] is Some
                        },
                        None => {
                            let s = old(self).queries.slots@[i]->Some_0.session as int;
                            s >= old(self).sessions.slots@.len() || old(self).sessions.slots@[s] is None
                        },
                    }
                },
            },
    {
        let i: usize = match self.queries.find(q) {
            None => {
                return None;
            },
            Some(i) => i,
        };
        let taken: Option<QuerySlot<Q>> = self.queries.slots[i].take();
        match taken {
            None => None,
            Some(slot) => {
                let s: usize = slot.session;
                if s < self.sessions.slots.len() && self.sessions.slots[s].is_some() {
                    Some((i, slot))
                } else {
                    None
                }
            },
        }
    }

    /// Puts a query back after a step, and leaves what the step gave for the host.
    pub fn query_stepped(&mut self, at: usize, slot: QuerySlot<Q>, r: Result<QueryStep, Error>) -> (status: i32)
        requires
            old(self).wf(),
            at < old(self).queries.slots@.len(),
            old(self).queries.generations@[at as int] < QUERY_GENERATIONS,
            old(self).last_error == 0,
            r matches Ok(QueryStep::Batch(b)) ==> b.wf(),
        ensures
            final(self).wf(),
            final(self).sessions == old(self).sessions,
            final(self).queries.generations == old(self).queries.generations,
            final(self).queries.slots@ == old(self).queries.slots@.update(at as int, Some(slot)),
            (status, final(self).out@, final(self).last_error) == answered(r, old(self).out@),
    {
        let status: i32 = match r {
            Ok(QueryStep::Batch(b)) => {
                let mut m: Batch = b;
                m.materialize();
                self.out = encode_batch(&m);
                STATUS_BATCH_READY
            },
            Ok(QueryStep::NeedIo(io)) => {
                self.out = encode_io(&io);
                STATUS_NEED_IO
            },
            Ok(QueryStep::NeedCodec(reqs)) => {
                self.out = encode_codec(&reqs);
                STATUS_NEED_CODEC
            },
            Ok(QueryStep::Done) => STATUS_DONE,
            Err(e) => {
                self.last_error = e.code_u16() as u32;
                STATUS_ERROR
            },
        };
        self.queries.slots.set(at, Some(slot));
        status
    }
}

/// Pulls a plan once. The requests that an interrupted pull leaves in the context go to the
/// caller.
pub fn step_plan(op: &mut Child, ctx: &mut ExecContext) -> (r: Result<QueryStep, Error>)
    requires
        old(op).op.wf(),
        old(ctx).wf(),
    ensures
        final(op).op.wf(),
        final(ctx).wf(),
        final(ctx).same_data(*old(ctx)),
        final(op).op.plan() == old(op).op.plan(),
        r matches Ok(QueryStep::Batch(b)) ==> b.wf(),
        final(op).op.traced() ==> old(op).op.traced() && final(op).op.returned() == match r {
            Ok(QueryStep::Batch(b)) => old(op).op.returned().push(chunk(b)),
            _ => old(op).op.returned(),
        },
        final(op).op.traced() && (r matches Ok(QueryStep::Done)) ==> final(op).op.spent(),
        old(op).op.traced() && r is Ok ==> final(op).op.traced(),
        old(op).op.sound(old(ctx).catalog.mem@) && final(op).op.traced() ==> supplied(*final(op), old(ctx).catalog.mem@),
        final(op).said@ == match r {
            Ok(QueryStep::Batch(_)) => Said::Batch,
            Ok(QueryStep::NeedIo(io)) => Said::Io(io@),
            Ok(QueryStep::NeedCodec(codec)) => Said::Codec(codec@),
            Ok(QueryStep::Done) => Said::End,
            Err(e) => Said::Failed(e.code),
        },
        looked_on(old(op).op.looked(), old(ctx).catalog, final(op).op.looked(), final(ctx).catalog),
        r matches Ok(QueryStep::NeedIo(io)) ==> {
            &&& io@.len() > 0
            &&& old(op).op.looked().len() < final(op).op.looked().len()
            &&& io@ == bytes_asked(final(op).op.looked().last())
        },
        r matches Ok(QueryStep::NeedCodec(codec)) ==> {
            &&& codec@.len() > 0
            &&& old(op).op.looked().len() < final(op).op.looked().len()
            &&& codec@ == blocks_asked(final(op).op.looked().last())
        },
        final(ctx).io@.len() == 0,
        final(ctx).codec@.len() == 0,
        old(op).op.traced() && old(op).op.sound(old(ctx).catalog.mem@) ==> match r {
            Ok(QueryStep::NeedIo(_)) => stops(final(op).op.plan(), old(ctx).catalog.mem@, final(op).op.looked(), Why::Io),
            Ok(QueryStep::NeedCodec(_)) => stops(final(op).op.plan(), old(ctx).catalog.mem@, final(op).op.looked(), Why::Codec),
            Err(e) => stops(final(op).op.plan(), old(ctx).catalog.mem@, final(op).op.looked(), Why::Failed(e.code)),
            _ => true,
        },
{
    ctx.io.clear();
    ctx.codec.clear();
    match op.pull(ctx) {
        Ok(Step::Ready(b)) => Ok(QueryStep::Batch(b)),
        Ok(Step::NeedIo) => {
            let mut io: Vec<IoRequest> = Vec::new();
            std::mem::swap(&mut io, &mut ctx.io);
            assert(io@ =~= bytes_asked(op.op.looked().last()));
            Ok(QueryStep::NeedIo(io))
        },
        Ok(Step::NeedCodec) => {
            let mut codec: Vec<CodecRequest> = Vec::new();
            std::mem::swap(&mut codec, &mut ctx.codec);
            assert(codec@ =~= blocks_asked(op.op.looked().last()));
            Ok(QueryStep::NeedCodec(codec))
        },
        Ok(Step::Done) => Ok(QueryStep::Done),
        Err(e) => Err(e),
    }
}

/// A query that is taken out for a step and put back is found as before, and so is every
/// other query.
pub proof fn steps_keep_handles<Q>(t: QueriesV<Q>, q: i32, x: Q, other: i32)
    requires
        t.wf(),
        t.slot(q) is Some,
    ensures
        ({
            let i = t.slot(q)->Some_0;
            let u = QueriesV { slots: t.slots.update(i, None).update(i, Some(x)), ..t };
            &&& u.query(q) == Some(x)
            &&& other != q ==> u.query(other) == t.query(other)
        }),
{
}

} // verus!
