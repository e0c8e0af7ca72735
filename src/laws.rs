//! What holds of a finished search whose received results are those of the
//! chunk evaluator.
use crate::digest::{digest_of, ends_with_zeros, matching_cases, CaseModel};
use crate::scheduler::{collected, SearchState};
use vstd::prelude::*;

verus! {

/// Each result received for a chunk is what `find_cases_by_digest_regex`
/// returns for that chunk's inputs and a predicate of `zeros` zeros.
pub open spec fn faithful(st: SearchState, zeros: nat) -> bool {
    forall|i: int|
        0 <= i < st.received.len() && #[trigger] st.received[i] is Some ==> st.received[i] == Some(
            matching_cases(st.chunks[i].0 as int, st.chunks[i].1 as int, zeros),
        )
}

/// The first `k` matches among `1..end` (all of them where there are fewer).
pub open spec fn first_matches(end: int, zeros: nat, k: nat) -> Seq<CaseModel> {
    let all = matching_cases(1, end, zeros);
    all.take(if k < all.len() { k as int } else { all.len() as int })
}

/// The matches of adjacent ranges concatenate.
pub proof fn lemma_matching_split(a: int, b: int, c: int, zeros: nat)
    requires
        a <= b <= c,
    ensures
        matching_cases(a, c, zeros) == matching_cases(a, b, zeros) + matching_cases(b, c, zeros),
    decreases c - b,
{
    if c == b {
        assert(matching_cases(a, b, zeros) + matching_cases(b, c, zeros) =~= matching_cases(a, b, zeros));
    } else {
        lemma_matching_split(a, b, c - 1, zeros);
        let i = (c - 1) as nat;
        assert((matching_cases(a, b, zeros) + matching_cases(b, c - 1, zeros)).push((i, digest_of(i)))
            =~= matching_cases(a, b, zeros) + matching_cases(b, c - 1, zeros).push((i, digest_of(i))));
    }
}

/// Every match among `start..end` lies in the range, carries the digest of
/// its input, which ends with `zeros` zeros, and the inputs strictly ascend.
pub proof fn lemma_matching_sound(start: int, end: int, zeros: nat)
    requires
        0 <= start,
    ensures
        forall|k: int|
            0 <= k < matching_cases(start, end, zeros).len() ==> start <= (
            #[trigger] matching_cases(start, end, zeros)[k]).0 < end && matching_cases(
                start,
                end,
                zeros,
            )[k].1 == digest_of(matching_cases(start, end, zeros)[k].0) && ends_with_zeros(
                matching_cases(start, end, zeros)[k].1,
                zeros,
            ),
        forall|j: int, k: int|
            0 <= j < k < matching_cases(start, end, zeros).len() ==> (#[trigger] matching_cases(
                start,
                end,
                zeros,
            )[j]).0 < (#[trigger] matching_cases(start, end, zeros)[k]).0,
    decreases end - start,
{
    let s = matching_cases(start, end, zeros);
    if end > start {
        lemma_matching_sound(start, end - 1, zeros);
        let p = matching_cases(start, end - 1, zeros);
        let i = (end - 1) as nat;
        if ends_with_zeros(digest_of(i), zeros) {
            assert(s == p.push((i, digest_of(i))));
        } else {
            assert(s == p);
        }
        assert forall|k: int| 0 <= k < s.len() implies start <= (#[trigger] s[k]).0 < end
            && s[k].1 == digest_of(s[k].0) && ends_with_zeros(s[k].1, zeros) by {
            if k < p.len() {
                assert(s[k] == p[k]);
                assert(start <= p[k].0 < end - 1);
            } else {
                assert(s[k] == (i, digest_of(i)));
            }
        }
        assert forall|j: int, k: int| 0 <= j < k < s.len() implies (#[trigger] s[j]).0 < (
        #[trigger] s[k]).0 by {
            assert(s[j] == p[j]);
            if k < p.len() {
                assert(s[k] == p[k]);
            }
        }
    } else {
        assert(s.len() == 0);
    }
}

/// A prefix of the received slots, all filled, holds the matches of the
/// inputs its chunks cover.
proof fn lemma_collected_prefix(st: SearchState, zeros: nat, n: int)
    requires
        st.is_valid(),
        faithful(st, zeros),
        0 <= n <= st.received.len(),
        forall|i: int| 0 <= i < n ==> #[trigger] st.received[i] is Some,
    ensures
        collected(st.received.take(n)) == matching_cases(
            1,
            if n == 0 { 1 } else { st.chunks[n - 1].1 as int },
            zeros,
        ),
    decreases n,
{
    if n > 0 {
        lemma_collected_prefix(st, zeros, n - 1);
        assert(st.received.take(n).drop_last() =~= st.received.take(n - 1));
        assert(st.received.take(n).last() == st.received[n - 1]);
        assert(st.received[n - 1] is Some);
        let start = st.chunks[n - 1].0 as int;
        if n > 1 {
            assert(st.chunks[n - 1].0 == st.chunks[n - 2].1);
        }
        assert(st.chunks[n - 1].1 == st.chunks[n - 1].0 + st.chunk_size);
        lemma_matching_split(1, start, st.chunks[n - 1].1 as int, zeros);
    } else {
        assert(st.received.take(0) =~= Seq::<Option<Seq<CaseModel>>>::empty());
        assert(matching_cases(1, 1, zeros) =~= Seq::<CaseModel>::empty());
    }
}

proof fn lemma_all_received(s: Seq<Option<Seq<CaseModel>>>)
    requires
        crate::scheduler::pending_count(s) == 0,
    ensures
        forall|i: int| 0 <= i < s.len() ==> #[trigger] s[i] is Some,
    decreases s.len(),
{
    if s.len() > 0 {
        lemma_all_received(s.drop_last());
        assert forall|i: int| 0 <= i < s.len() implies #[trigger] s[i] is Some by {
            if i < s.len() - 1 {
                assert(s.drop_last()[i] == s[i]);
            }
        }
    }
}

/// A finished search has received exactly the matches among the inputs its
/// chunks cover, `1..next_chunk_start`, and emits the first
/// `matches_needed` of them.
pub proof fn lemma_output_is_first_matches(st: SearchState, zeros: nat)
    requires
        st.is_valid(),
        st.finished(),
        faithful(st, zeros),
    ensures
        collected(st.received) == matching_cases(1, st.next_chunk_start as int, zeros),
        st.output() == first_matches(st.next_chunk_start as int, zeros, st.matches_needed),
{
    lemma_all_received(st.received);
    lemma_collected_prefix(st, zeros, st.received.len() as int);
    assert(st.received.take(st.received.len() as int) =~= st.received);
}

/// Every emitted digest is that of its input and ends with `zeros` zero
/// characters.
pub proof fn lemma_output_digests_end_with_zeros(st: SearchState, zeros: nat)
    requires
        st.is_valid(),
        st.finished(),
        faithful(st, zeros),
    ensures
        forall|k: int|
            0 <= k < st.output().len() ==> ends_with_zeros((#[trigger] st.output()[k]).1, zeros)
                && st.output()[k].1 == digest_of(st.output()[k].0),
{
    lemma_output_is_first_matches(st, zeros);
    lemma_matching_sound(1, st.next_chunk_start as int, zeros);
}

/// The emitted inputs strictly ascend, so none repeats.
pub proof fn lemma_output_strictly_ascending(st: SearchState, zeros: nat)
    requires
        st.is_valid(),
        st.finished(),
        faithful(st, zeros),
    ensures
        forall|j: int, k: int|
            0 <= j < k < st.output().len() ==> (#[trigger] st.output()[j]).0 < (
            #[trigger] st.output()[k]).0,
{
    lemma_output_is_first_matches(st, zeros);
    let all = matching_cases(1, st.next_chunk_start as int, zeros);
    lemma_matching_sound(1, st.next_chunk_start as int, zeros);
    assert forall|j: int, k: int| 0 <= j < k < st.output().len() implies (
    #[trigger] st.output()[j]).0 < (#[trigger] st.output()[k]).0 by {
        assert(st.output()[j] == all[j]);
        assert(st.output()[k] == all[k]);
    }
}

/// The output holds `matches_needed` matches, or all the matches below the
/// point where the search stopped where there are fewer.
pub proof fn lemma_output_length(st: SearchState, zeros: nat)
    requires
        st.is_valid(),
        st.finished(),
        faithful(st, zeros),
    ensures
        st.output().len() == if st.matches_needed < matching_cases(
            1,
            st.next_chunk_start as int,
            zeros,
        ).len() {
            st.matches_needed as int
        } else {
            matching_cases(1, st.next_chunk_start as int, zeros).len() as int
        },
{
    lemma_output_is_first_matches(st, zeros);
}

/// Two finished searches for the same number of matches with the same
/// predicate emit the same output whatever their worker counts and chunk
/// sizes, provided each found that many matches before its chunks ran out.
pub proof fn lemma_output_independent_of_workers_and_chunk_size(
    a: SearchState,
    b: SearchState,
    zeros: nat,
)
    requires
        a.is_valid(),
        a.finished(),
        faithful(a, zeros),
        b.is_valid(),
        b.finished(),
        faithful(b, zeros),
        a.matches_needed == b.matches_needed,
        matching_cases(1, a.next_chunk_start as int, zeros).len() >= a.matches_needed,
        matching_cases(1, b.next_chunk_start as int, zeros).len() >= b.matches_needed,
    ensures
        a.output() == b.output(),
{
    lemma_output_is_first_matches(a, zeros);
    lemma_output_is_first_matches(b, zeros);
    let (lo, hi) = if a.next_chunk_start <= b.next_chunk_start {
        (a.next_chunk_start as int, b.next_chunk_start as int)
    } else {
        (b.next_chunk_start as int, a.next_chunk_start as int)
    };
    lemma_matching_split(1, lo, hi, zeros);
    let k = a.matches_needed as int;
    assert(matching_cases(1, lo, zeros).take(k) =~= matching_cases(1, hi, zeros).take(k));
}

/// Chunk `i` ends at `1 + (i + 1) * chunk_size`.
proof fn lemma_chunk_end(st: SearchState, i: int)
    requires
        st.is_valid(),
        0 <= i < st.chunks.len(),
    ensures
        st.chunks[i].1 == 1 + (i + 1) * st.chunk_size,
    decreases i,
{
    let cs = st.chunk_size as int;
    assert(st.chunks[i].1 == st.chunks[i].0 + cs);
    if i > 0 {
        lemma_chunk_end(st, i - 1);
        assert(st.chunks[i].0 == st.chunks[i - 1].1);
        assert((i + 1) * cs == i * cs + cs) by (nonlinear_arith);
    } else {
        assert(st.chunks[0].0 == 1);
        assert((i + 1) * cs == cs) by (nonlinear_arith)
            requires
                i == 0,
        ;
    }
}

/// The cursor stands `chunk_size` inputs past the start for each chunk
/// dispatched.
pub proof fn lemma_cursor(st: SearchState)
    requires
        st.is_valid(),
    ensures
        st.next_chunk_start == 1 + st.chunks.len() * st.chunk_size,
{
    if st.chunks.len() > 0 {
        lemma_chunk_end(st, st.chunks.len() - 1);
    }
}

/// With one chunk size, no state's cursor lies past that of an exhausted
/// state.
proof fn lemma_exhausted_cursor_is_last(x: SearchState, y: SearchState)
    requires
        x.is_valid(),
        y.is_valid(),
        x.chunk_size == y.chunk_size,
        x.exhausted(),
    ensures
        y.next_chunk_start <= x.next_chunk_start,
{
    lemma_cursor(x);
    lemma_cursor(y);
    let cs = x.chunk_size as int;
    let mx = x.chunks.len() as int;
    let my = y.chunks.len() as int;
    assert(1 + mx * cs + cs > usize::MAX);
    assert(1 + my * cs <= usize::MAX);
    assert(my <= mx) by (nonlinear_arith)
        requires
            1 + mx * cs + cs > usize::MAX,
            1 + my * cs <= usize::MAX,
            cs >= 1,
            mx >= 0,
            my >= 0,
    {
        if my > mx {
            assert(my * cs >= (mx + 1) * cs);
        }
    }
    assert(my * cs <= mx * cs) by (nonlinear_arith)
        requires
            my <= mx,
            cs >= 1,
    ;
}

/// A finished search that found fewer matches than needed stopped because
/// its chunks ran out.
proof fn lemma_short_means_exhausted(st: SearchState, zeros: nat)
    requires
        st.is_valid(),
        st.finished(),
        faithful(st, zeros),
        matching_cases(1, st.next_chunk_start as int, zeros).len() < st.matches_needed,
    ensures
        st.exhausted(),
{
    lemma_output_is_first_matches(st, zeros);
}

/// Running the same search twice (same predicate, number of matches and
/// chunk size) gives the same output, whatever the worker counts and
/// whether or not the chunks ran out.
pub proof fn lemma_same_search_same_output(a: SearchState, b: SearchState, zeros: nat)
    requires
        a.is_valid(),
        a.finished(),
        faithful(a, zeros),
        b.is_valid(),
        b.finished(),
        faithful(b, zeros),
        a.matches_needed == b.matches_needed,
        a.chunk_size == b.chunk_size,
    ensures
        a.output() == b.output(),
{
    lemma_output_is_first_matches(a, zeros);
    lemma_output_is_first_matches(b, zeros);
    let k = a.matches_needed;
    let la = matching_cases(1, a.next_chunk_start as int, zeros).len();
    let lb = matching_cases(1, b.next_chunk_start as int, zeros).len();
    if la >= k && lb >= k {
        lemma_output_independent_of_workers_and_chunk_size(a, b, zeros);
    } else if la < k {
        lemma_short_means_exhausted(a, zeros);
        lemma_exhausted_cursor_is_last(a, b);
        lemma_matching_split(1, b.next_chunk_start as int, a.next_chunk_start as int, zeros);
        lemma_short_means_exhausted(b, zeros);
        lemma_exhausted_cursor_is_last(b, a);
    } else {
        lemma_short_means_exhausted(b, zeros);
        lemma_exhausted_cursor_is_last(b, a);
        lemma_matching_split(1, a.next_chunk_start as int, b.next_chunk_start as int, zeros);
        lemma_short_means_exhausted(a, zeros);
        lemma_exhausted_cursor_is_last(a, b);
    }
}

/// A state in which no result has come back is faithful.
pub proof fn lemma_faithful_when_nothing_received(st: SearchState, zeros: nat)
    requires
        forall|i: int| 0 <= i < st.received.len() ==> #[trigger] st.received[i] is None,
    ensures
        faithful(st, zeros),
{
}

/// Receiving, for a dispatched chunk, exactly what the evaluator returns for
/// it keeps a state faithful, whether or not a chunk is dispatched in turn
/// (the two outcomes of `Scheduler::on_result`).
pub proof fn lemma_faithful_after_result(
    before: SearchState,
    after: SearchState,
    index: int,
    cases: Seq<CaseModel>,
    zeros: nat,
)
    requires
        faithful(before, zeros),
        before.received.len() == before.chunks.len(),
        0 <= index < before.received.len(),
        cases == matching_cases(before.chunks[index].0 as int, before.chunks[index].1 as int, zeros),
        after.received.len() == after.chunks.len(),
        before.chunks.len() <= after.chunks.len(),
        forall|i: int| 0 <= i < before.chunks.len() ==> #[trigger] after.chunks[i] == before.chunks[i],
        forall|i: int|
            before.received.len() <= i < after.received.len() ==> #[trigger] after.received[i] is None,
        after.received.take(before.received.len() as int) == before.received.update(index, Some(cases)),
    ensures
        faithful(after, zeros),
{
    let n = before.received.len() as int;
    assert forall|i: int| 0 <= i < after.received.len() && #[trigger] after.received[i] is Some implies after.received[i]
        == Some(matching_cases(after.chunks[i].0 as int, after.chunks[i].1 as int, zeros)) by {
        assert(i < n);
        assert(after.received[i] == after.received.take(n)[i]);
        assert(after.chunks[i] == before.chunks[i]);
        if i != index {
            assert(before.received[i] == after.received[i]);
        }
    }
}

/// No match is skipped: an input of `start..end` appears among the matches
/// exactly when its digest ends with `zeros` zeros.
pub proof fn lemma_matching_complete(start: int, end: int, zeros: nat, i: nat)
    requires
        0 <= start,
        start <= i < end,
    ensures
        ends_with_zeros(digest_of(i), zeros) <==> exists|k: int|
            0 <= k < matching_cases(start, end, zeros).len() && (#[trigger] matching_cases(
                start,
                end,
                zeros,
            )[k]).0 == i,
    decreases end - start,
{
    let s = matching_cases(start, end, zeros);
    let p = matching_cases(start, end - 1, zeros);
    let last = (end - 1) as nat;
    lemma_matching_sound(start, end - 1, zeros);
    if ends_with_zeros(digest_of(last), zeros) {
        assert(s == p.push((last, digest_of(last))));
    } else {
        assert(s == p);
    }
    if i < end - 1 {
        lemma_matching_complete(start, end - 1, zeros, i);
        if ends_with_zeros(digest_of(i), zeros) {
            let k = choose|k: int| 0 <= k < p.len() && (#[trigger] p[k]).0 == i;
            assert(s[k] == p[k]);
        } else {
            assert forall|k: int| 0 <= k < s.len() implies (#[trigger] s[k]).0 != i by {
                if k < p.len() {
                    assert(s[k] == p[k]);
                    assert(!(p[k].0 == i));
                }
            }
        }
    } else {
        if ends_with_zeros(digest_of(i), zeros) {
            assert(s[p.len() as int].0 == i);
        } else {
            assert forall|k: int| 0 <= k < s.len() implies (#[trigger] s[k]).0 != i by {
                assert(s[k] == p[k]);
                assert(p[k].0 < end - 1);
            }
        }
    }
}

/// In every state, chunk `i` is `[1 + i * chunk_size, 1 + (i + 1) * chunk_size)`:
/// the sequence of chunks is fixed by the chunk size alone.
pub proof fn lemma_chunk_position(st: SearchState, i: int)
    requires
        st.is_valid(),
        0 <= i < st.chunks.len(),
    ensures
        st.chunks[i].0 == 1 + i * st.chunk_size,
        st.chunks[i].1 == 1 + (i + 1) * st.chunk_size,
{
    lemma_chunk_end(st, i);
    let cs = st.chunk_size as int;
    assert(st.chunks[i].1 == st.chunks[i].0 + cs);
    assert((i + 1) * cs == i * cs + cs) by (nonlinear_arith);
}

} // verus!
