//! The scheduler: the decisions of the search, as a state machine. The
//! caller runs the worker pool; it hands each chunk that the scheduler
//! dispatches to a worker and each finished chunk's matches back to the
//! scheduler, which decides whether to dispatch another chunk. Once nothing
//! is in flight the matches are put back in order of input and truncated.
use crate::chunks::ChunksBoundsIterator;
use crate::digest::{cases_view, CaseModel, HashCase};
use std::ops::Range;
use vstd::prelude::*;

verus! {

/// A chunk handed to a worker: its position in dispatch order and its inputs.
pub struct Chunk {
    pub index: usize,
    pub inputs: Range<usize>,
}

/// A result that the scheduler cannot accept.
#[derive(Debug, PartialEq, Eq, Structural)]
pub enum ScheduleError {
    /// No chunk with this index was dispatched.
    UnknownChunk,
    /// The result for this chunk was already received.
    DuplicateResult,
}

/// The model of the scheduler's state.
pub struct SearchState {
    pub matches_needed: nat,
    pub worker_count: nat,
    pub chunk_size: nat,
    /// Start of the next chunk to dispatch.
    pub next_chunk_start: nat,
    /// The dispatched chunks, as (start, end), in dispatch order.
    pub chunks: Seq<(nat, nat)>,
    /// For each dispatched chunk, its matches once they have come back.
    pub received: Seq<Option<Seq<CaseModel>>>,
    /// No further chunk will be dispatched.
    pub stopped: bool,
}

/// How many chunks are still in flight.
pub open spec fn pending_count(received: Seq<Option<Seq<CaseModel>>>) -> nat
    decreases received.len(),
{
    if received.len() == 0 {
        0
    } else {
        pending_count(received.drop_last()) + if received.last() is None {
            1nat
        } else {
            0nat
        }
    }
}

/// The matches received so far, in dispatch order of their chunks.
pub open spec fn collected(received: Seq<Option<Seq<CaseModel>>>) -> Seq<CaseModel>
    decreases received.len(),
{
    if received.len() == 0 {
        seq![]
    } else {
        collected(received.drop_last()) + match received.last() {
            Some(c) => c,
            None => seq![],
        }
    }
}

/// The chunks, in order, each of `chunk_size` inputs, tile `[1, next)`
/// without gap or overlap.
pub open spec fn chunks_tile(chunks: Seq<(nat, nat)>, chunk_size: nat, next: nat) -> bool {
    &&& forall|i: int| 0 <= i < chunks.len() ==> #[trigger] chunks[i].1 == chunks[i].0 + chunk_size
    &&& forall|i: int| 0 < i < chunks.len() ==> #[trigger] chunks[i].0 == chunks[i - 1].1
    &&& chunks.len() == 0 ==> next == 1
    &&& chunks.len() > 0 ==> chunks[0].0 == 1 && chunks.last().1 == next
}

impl SearchState {
    /// The next chunk's end would not fit in `usize`.
    pub open spec fn exhausted(self) -> bool {
        self.next_chunk_start + self.chunk_size > usize::MAX
    }

    /// Every dispatched chunk has come back.
    pub open spec fn finished(self) -> bool {
        pending_count(self.received) == 0
    }

    /// What the search emits: the first `matches_needed` matches received,
    /// in dispatch order of their chunks.
    pub open spec fn output(self) -> Seq<CaseModel> {
        let all = collected(self.received);
        all.take(if self.matches_needed < all.len() { self.matches_needed as int } else { all.len() as int })
    }

    /// What holds of every state that the scheduler passes through.
    pub open spec fn is_valid(self) -> bool {
        &&& self.chunk_size >= 1
        &&& self.worker_count >= 1
        &&& self.next_chunk_start <= usize::MAX
        &&& self.received.len() == self.chunks.len()
        &&& chunks_tile(self.chunks, self.chunk_size, self.next_chunk_start)
        &&& pending_count(self.received) <= self.worker_count
        &&& !self.stopped ==> pending_count(self.received) == self.worker_count
            && collected(self.received).len() < self.matches_needed
        &&& self.stopped ==> collected(self.received).len() >= self.matches_needed
            || self.exhausted()
    }
}

pub open spec fn slot_view(slot: Option<Vec<HashCase>>) -> Option<Seq<CaseModel>> {
    match slot {
        Some(v) => Some(cases_view(v@)),
        None => None,
    }
}

pub open spec fn range_view(r: Range<usize>) -> (nat, nat) {
    (r.start as nat, r.end as nat)
}

/// The state of one search: the chunk cursor, the chunks in flight and the
/// matches received, slotted by the dispatch order of their chunks.
pub struct Scheduler {
    matches_needed: usize,
    worker_count: usize,
    chunks: ChunksBoundsIterator,
    dispatched: Vec<Range<usize>>,
    results: Vec<Option<Vec<HashCase>>>,
    in_flight: usize,
    found: usize,
    stopped: bool,
}

impl View for Scheduler {
    type V = SearchState;

    closed spec fn view(&self) -> SearchState {
        SearchState {
            matches_needed: self.matches_needed as nat,
            worker_count: self.worker_count as nat,
            chunk_size: self.chunks.chunk_size as nat,
            next_chunk_start: self.chunks.next_chunk_start as nat,
            chunks: self.dispatched@.map_values(|r: Range<usize>| range_view(r)),
            received: self.results@.map_values(|s: Option<Vec<HashCase>>| slot_view(s)),
            stopped: self.stopped,
        }
    }
}

proof fn lemma_push_slot(s: Seq<Option<Seq<CaseModel>>>, x: Option<Seq<CaseModel>>)
    ensures
        pending_count(s.push(x)) == pending_count(s) + if x is None { 1nat } else { 0nat },
        collected(s.push(x)) == collected(s) + match x {
            Some(c) => c,
            None => seq![],
        },
{
    assert(s.push(x).drop_last() =~= s);
}

proof fn lemma_fill_slot(s: Seq<Option<Seq<CaseModel>>>, i: int, c: Seq<CaseModel>)
    requires
        0 <= i < s.len(),
        s[i] is None,
    ensures
        pending_count(s.update(i, Some(c))) + 1 == pending_count(s),
        collected(s.update(i, Some(c))).len() == collected(s).len() + c.len(),
    decreases s.len(),
{
    let t = s.update(i, Some(c));
    if i == s.len() - 1 {
        assert(t.drop_last() =~= s.drop_last());
    } else {
        lemma_fill_slot(s.drop_last(), i, c);
        assert(t.drop_last() =~= s.drop_last().update(i, Some(c)));
    }
}

impl Scheduler {
    /// The links between the fields and the model, and the model's validity
    /// less the conditions on stopping.
    closed spec fn core_inv(&self) -> bool {
        let st = self@;
        &&& st.chunk_size >= 1
        &&& st.worker_count >= 1
        &&& self.results@.len() == self.dispatched@.len()
        &&& chunks_tile(st.chunks, st.chunk_size, st.next_chunk_start)
        &&& self.in_flight as nat == pending_count(st.received)
        &&& self.in_flight <= self.worker_count
        &&& self.found as nat == if collected(st.received).len() > usize::MAX {
            usize::MAX as nat
        } else {
            collected(st.received).len()
        }
    }

    /// The scheduler is well formed.
    pub closed spec fn wf(&self) -> bool {
        self.core_inv() && self@.is_valid()
    }

    /// Dispatches the next chunk unless the sequence is exhausted.
    fn dispatch_next(&mut self) -> (r: Option<Chunk>)
        requires
            old(self).core_inv(),
            old(self).in_flight < old(self).worker_count,
        ensures
            final(self).core_inv(),
            final(self).matches_needed == old(self).matches_needed,
            final(self).worker_count == old(self).worker_count,
            final(self).stopped == old(self).stopped,
            final(self)@.chunk_size == old(self)@.chunk_size,
            old(self)@.exhausted() ==> r is None && final(self)@ == old(self)@
                && final(self).in_flight == old(self).in_flight,
            !old(self)@.exhausted() ==> {
                &&& r matches Some(c) && c.index == old(self)@.chunks.len() && range_view(c.inputs)
                    == (old(self)@.next_chunk_start, old(self)@.next_chunk_start + old(self)@.chunk_size)
                &&& final(self)@.chunks == old(self)@.chunks.push(
                    (old(self)@.next_chunk_start, old(self)@.next_chunk_start + old(self)@.chunk_size),
                )
                &&& final(self)@.received == old(self)@.received.push(None)
                &&& final(self)@.next_chunk_start == old(self)@.next_chunk_start + old(self)@.chunk_size
                &&& final(self).in_flight == old(self).in_flight + 1
            },
    {
        let ghost old_st = self@;
        let index = self.dispatched.len();
        match self.chunks.next() {
            None => {
                assert(self@ == old_st);
                None
            },
            Some(inputs) => {
                self.dispatched.push(inputs.start..inputs.end);
                self.results.push(None);
                self.in_flight = self.in_flight + 1;
                proof {
                    lemma_push_slot(old_st.received, None);
                    assert(self@.chunks =~= old_st.chunks.push(range_view(inputs)));
                    assert(self@.received =~= old_st.received.push(None));
                }
                Some(Chunk { index, inputs })
            },
        }
    }
}

impl Scheduler {
    /// Starts a search for `matches_needed` matches with `worker_count`
    /// workers and chunks of `chunk_size` inputs: dispatches the first
    /// `worker_count` chunks (fewer where the sequence runs out), or none
    /// where no match is needed.
    pub fn new(matches_needed: usize, worker_count: usize, chunk_size: usize) -> (r: (
        Scheduler,
        Vec<Chunk>,
    ))
        requires
            worker_count >= 1,
            chunk_size >= 1,
        ensures
            r.0.wf(),
            r.0@.is_valid(),
            r.0@.matches_needed == matches_needed,
            r.0@.worker_count == worker_count,
            r.0@.chunk_size == chunk_size,
            r.1@.len() == r.0@.chunks.len(),
            forall|i: int|
                0 <= i < r.1@.len() ==> (#[trigger] r.1@[i]).index == i && range_view(r.1@[i].inputs)
                    == r.0@.chunks[i] && r.0@.received[i] is None,
            matches_needed == 0 ==> r.1@.len() == 0 && r.0@.finished() && r.0@.output() == Seq::<
                CaseModel,
            >::empty(),
            matches_needed > 0 ==> r.1@.len() == worker_count || r.1@.len() < worker_count
                && r.0@.exhausted(),
            r.0@.stopped <==> matches_needed == 0 || r.1@.len() < worker_count,
    {
        let mut s = Scheduler {
            matches_needed,
            worker_count,
            chunks: ChunksBoundsIterator::new(chunk_size, 1),
            dispatched: Vec::new(),
            results: Vec::new(),
            in_flight: 0,
            found: 0,
            stopped: true,
        };
        let mut out: Vec<Chunk> = Vec::new();
        proof {
            assert(s@.chunks =~= Seq::<(nat, nat)>::empty());
            assert(s@.received =~= Seq::<Option<Seq<CaseModel>>>::empty());
        }
        if matches_needed == 0 {
            proof {
                assert(s@.output() =~= Seq::<CaseModel>::empty());
            }
            return (s, out);
        }
        while out.len() < worker_count
            invariant
                s.core_inv(),
                s.matches_needed == matches_needed,
                s.worker_count == worker_count,
                s@.chunk_size == chunk_size,
                s.stopped,
                matches_needed > 0,
                out@.len() == s@.chunks.len(),
                s.in_flight == out@.len(),
                collected(s@.received).len() == 0,
                forall|i: int|
                    0 <= i < out@.len() ==> (#[trigger] out@[i]).index == i && range_view(
                        out@[i].inputs,
                    ) == s@.chunks[i] && s@.received[i] is None,
            decreases worker_count - out.len(),
        {
            let ghost before = s@;
            match s.dispatch_next() {
                Some(c) => {
                    proof {
                        lemma_push_slot(before.received, None);
                    }
                    let ghost before_out = out@;
                    out.push(c);
                    assert forall|i: int| 0 <= i < out@.len() implies (#[trigger] out@[i]).index
                        == i && range_view(out@[i].inputs) == s@.chunks[i] && s@.received[i] is None by {
                        if i < before_out.len() {
                            assert(out@[i] == before_out[i]);
                            assert(s@.chunks[i] == before.chunks[i]);
                            assert(s@.received[i] == before.received[i]);
                        }
                    }
                },
                None => {
                    return (s, out);
                },
            }
        }
        s.stopped = false;
        (s, out)
    }

    /// Every dispatched chunk has come back.
    pub fn is_finished(&self) -> (r: bool)
        requires
            self.wf(),
        ensures
            r == self@.finished(),
    {
        self.in_flight == 0
    }

    /// Takes the matches of chunk `index`, and dispatches the next chunk
    /// unless enough matches have been received, the sequence is exhausted,
    /// or dispatch had already stopped.
    pub fn on_result(&mut self, index: usize, cases: Vec<HashCase>) -> (r: Result<
        Option<Chunk>,
        ScheduleError,
    >)
        requires
            old(self).wf(),
        ensures
            final(self).wf(),
            final(self)@.is_valid(),
            final(self)@.matches_needed == old(self)@.matches_needed,
            final(self)@.worker_count == old(self)@.worker_count,
            final(self)@.chunk_size == old(self)@.chunk_size,
            index >= old(self)@.received.len() <==> r == Err::<Option<Chunk>, ScheduleError>(
                ScheduleError::UnknownChunk,
            ),
            index < old(self)@.received.len() && old(self)@.received[index as int] is Some <==> r
                == Err::<Option<Chunk>, ScheduleError>(ScheduleError::DuplicateResult),
            r is Err ==> final(self)@ == old(self)@,
            r is Ok ==> {
                let filled = old(self)@.received.update(index as int, Some(cases_view(cases@)));
                let dispatch = !old(self)@.stopped && collected(filled).len() < old(self)@.matches_needed
                    && !old(self)@.exhausted();
                &&& dispatch ==> {
                    &&& r matches Ok(Some(c)) && c.index == old(self)@.chunks.len() && range_view(c.inputs)
                        == (old(self)@.next_chunk_start, old(self)@.next_chunk_start + old(self)@.chunk_size)
                    &&& final(self)@.chunks == old(self)@.chunks.push(
                        (old(self)@.next_chunk_start, old(self)@.next_chunk_start + old(self)@.chunk_size),
                    )
                    &&& final(self)@.received == filled.push(None)
                    &&& final(self)@.next_chunk_start == old(self)@.next_chunk_start + old(self)@.chunk_size
                    &&& !final(self)@.stopped
                }
                &&& !dispatch ==> {
                    &&& r == Ok::<Option<Chunk>, ScheduleError>(None)
                    &&& final(self)@.chunks == old(self)@.chunks
                    &&& final(self)@.received == filled
                    &&& final(self)@.next_chunk_start == old(self)@.next_chunk_start
                    &&& final(self)@.stopped
                }
            },
    {
        if index >= self.results.len() {
            return Err(ScheduleError::UnknownChunk);
        }
        if self.results[index].is_some() {
            return Err(ScheduleError::DuplicateResult);
        }
        let ghost old_st = self@;
        let ghost view_cases = cases_view(cases@);
        let count = cases.len();
        let mut slot = Some(cases);
        self.results.set_and_swap(index, &mut slot);
        proof {
            lemma_fill_slot(old_st.received, index as int, view_cases);
            assert(self@.received =~= old_st.received.update(index as int, Some(view_cases)));
            assert(self@.chunks =~= old_st.chunks);
        }
        self.in_flight = self.in_flight - 1;
        self.found = self.found.saturating_add(count);
        if self.stopped || self.found >= self.matches_needed {
            self.stopped = true;
            return Ok(None);
        }
        let ghost filled = self@;
        match self.dispatch_next() {
            Some(c) => {
                proof {
                    lemma_push_slot(filled.received, None);
                }
                Ok(Some(c))
            },
            None => {
                self.stopped = true;
                Ok(None)
            },
        }
    }
}

proof fn lemma_cases_view_append(a: Seq<HashCase>, b: Seq<HashCase>)
    ensures
        cases_view(a + b) == cases_view(a) + cases_view(b),
{
    assert(cases_view(a + b) =~= cases_view(a) + cases_view(b));
}

impl Scheduler {
    /// Ends the search: the matches received, put back in order of their
    /// chunks (and so of input), truncated to `matches_needed`.
    pub fn finish(self) -> (r: Vec<HashCase>)
        requires
            self.wf(),
            self@.finished(),
        ensures
            cases_view(r@) == self@.output(),
    {
        let ghost st = self@;
        let needed = self.matches_needed;
        let mut results = self.results;
        let n = results.len();
        let mut out: Vec<HashCase> = Vec::new();
        let mut i: usize = 0;
        assert(st.received.take(0) =~= Seq::<Option<Seq<CaseModel>>>::empty());
        assert(cases_view(out@) =~= Seq::<CaseModel>::empty());
        while i < n
            invariant
                n == results@.len(),
                n == st.received.len(),
                i <= n,
                forall|j: int| i <= j < n ==> slot_view(#[trigger] results@[j]) == st.received[j],
                cases_view(out@) == collected(st.received.take(i as int)),
            decreases n - i,
        {
            let mut slot: Option<Vec<HashCase>> = None;
            results.set_and_swap(i, &mut slot);
            let ghost before = out@;
            proof {
                assert(st.received.take(i + 1).drop_last() =~= st.received.take(i as int));
                assert(st.received.take(i + 1).last() == st.received[i as int]);
            }
            match slot {
                Some(mut v) => {
                    let ghost vv = v@;
                    out.append(&mut v);
                    proof {
                        lemma_cases_view_append(before, vv);
                    }
                },
                None => {},
            }
            proof {
                assert(collected(st.received.take(i + 1)) =~= cases_view(out@));
            }
            i = i + 1;
        }
        assert(st.received.take(n as int) =~= st.received);
        if needed < out.len() {
            out.truncate(needed);
            assert(cases_view(out@) =~= st.output());
        } else {
            assert(cases_view(out@) =~= st.output());
        }
        out
    }
}

} // verus!
