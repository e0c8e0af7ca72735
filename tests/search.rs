use hash_finder::args::{from_1_to_32, Args, ConfigError};
use hash_finder::chunks::ChunksBoundsIterator;
use hash_finder::digest::{
    decimal_bytes, digest_input, find_cases_by_digest_regex, DigestMatcher, HashCase,
};
use hash_finder::scheduler::{Chunk, ScheduleError, Scheduler};

/// Runs a whole search in this thread. Chunks in flight are completed
/// newest first when `newest_first` holds, so that results come back out of
/// dispatch order.
fn run_search(
    matcher: &DigestMatcher,
    needed: usize,
    workers: usize,
    chunk_size: usize,
    hash: fn(usize) -> String,
    newest_first: bool,
) -> Vec<(usize, String)> {
    let (mut scheduler, first) = Scheduler::new(needed, workers, chunk_size);
    let mut in_flight: Vec<Chunk> = first;
    assert!(in_flight.len() <= workers);
    while !scheduler.is_finished() {
        let chunk = if newest_first {
            in_flight.pop().unwrap()
        } else {
            in_flight.remove(0)
        };
        let mut cases: Vec<HashCase> = Vec::new();
        for i in chunk.inputs.clone() {
            if let Some(case) = matcher.check_case(i, hash(i)) {
                cases.push(case);
            }
        }
        if let Some(next) = scheduler.on_result(chunk.index, cases).unwrap() {
            in_flight.push(next);
        }
        assert!(in_flight.len() <= workers);
    }
    assert!(in_flight.is_empty());
    scheduler
        .finish()
        .into_iter()
        .map(|c| (c.input, c.digest))
        .collect()
}

fn toy_hash(i: usize) -> String {
    format!("{}", (i * 7) % 100)
}

fn real_hash(i: usize) -> String {
    digest_input(i)
}

#[test]
fn chunks_follow_each_other_from_the_offset() {
    let mut chunks = ChunksBoundsIterator::new(5, 1);
    assert_eq!(chunks.next(), Some(1..6));
    assert_eq!(chunks.next(), Some(6..11));
    assert_eq!(chunks.next(), Some(11..16));
    assert_eq!(chunks.next_chunk_start, 16);
}

#[test]
fn chunks_end_where_the_next_would_overflow() {
    let mut chunks = ChunksBoundsIterator::new(10, usize::MAX - 15);
    assert_eq!(chunks.next(), Some(usize::MAX - 15..usize::MAX - 5));
    assert_eq!(chunks.next(), None);
    assert_eq!(chunks.next(), None);
    assert_eq!(chunks.next_chunk_start, usize::MAX - 5);
}

#[test]
fn decimal_bytes_of_numbers() {
    assert_eq!(decimal_bytes(0), b"0".to_vec());
    assert_eq!(decimal_bytes(7), b"7".to_vec());
    assert_eq!(decimal_bytes(1234), b"1234".to_vec());
    assert_eq!(decimal_bytes(usize::MAX), usize::MAX.to_string().into_bytes());
}

#[test]
fn digest_of_decimal_text() {
    assert_eq!(
        digest_input(0),
        "5feceb66ffc86f38d952786c6d696c79c2dbc239dd4e91b46729d73a27fb57e9"
    );
    assert_eq!(
        digest_input(1),
        "6b86b273ff34fce19d6b804eff5a3f5747ada4eaa22f1d49c01e52ddb7875b4b"
    );
    assert_eq!(digest_input(4242), sha256::digest("4242".to_string()));
}

#[test]
fn matcher_is_end_anchored_and_accepts_longer_runs() {
    let m = DigestMatcher::new(2).unwrap();
    assert!(m.is_match("ab00"));
    assert!(m.is_match("a000"));
    assert!(m.is_match("00"));
    assert!(!m.is_match("ab0"));
    assert!(!m.is_match("00ab"));
    assert!(!m.is_match("0"));
    assert!(!m.is_match(""));
}

#[test]
fn check_case_keeps_input_and_digest() {
    let m = DigestMatcher::new(1).unwrap();
    let case = m.check_case(10, "70".to_string()).unwrap();
    assert_eq!(case.input, 10);
    assert_eq!(case.digest, "70");
    assert!(m.check_case(3, "21".to_string()).is_none());
}

#[test]
fn evaluator_returns_the_matches_of_a_chunk_in_order() {
    let m = DigestMatcher::new(1).unwrap();
    let cases = find_cases_by_digest_regex(1..300, &m);
    let expected: Vec<(usize, String)> = (1..300)
        .map(|i| (i, sha256::digest(i.to_string())))
        .filter(|(_, d)| d.ends_with('0'))
        .collect();
    assert!(!expected.is_empty());
    let got: Vec<(usize, String)> = cases.into_iter().map(|c| (c.input, c.digest)).collect();
    assert_eq!(got, expected);
}

#[test]
fn evaluator_on_an_empty_chunk() {
    let m = DigestMatcher::new(1).unwrap();
    assert!(find_cases_by_digest_regex(5..5, &m).is_empty());
}

#[test]
fn toy_fixture_gives_first_three_in_ascending_order() {
    let m = DigestMatcher::new(1).unwrap();
    let out = run_search(&m, 3, 2, 5, toy_hash, true);
    assert_eq!(
        out,
        vec![
            (10, "70".to_string()),
            (20, "40".to_string()),
            (30, "10".to_string()),
        ]
    );
}

#[test]
fn new_dispatches_one_chunk_per_worker() {
    let (scheduler, chunks) = Scheduler::new(3, 4, 10);
    assert_eq!(chunks.len(), 4);
    for (i, c) in chunks.iter().enumerate() {
        assert_eq!(c.index, i);
        assert_eq!(c.inputs, 1 + 10 * i..11 + 10 * i);
    }
    assert!(!scheduler.is_finished());
}

#[test]
fn no_matches_needed_dispatches_nothing() {
    let (scheduler, chunks) = Scheduler::new(0, 4, 10);
    assert!(chunks.is_empty());
    assert!(scheduler.is_finished());
    assert!(scheduler.finish().is_empty());
}

#[test]
fn chunk_size_that_cannot_fit_exhausts_at_once() {
    let (scheduler, chunks) = Scheduler::new(1, 2, usize::MAX);
    assert!(chunks.is_empty());
    assert!(scheduler.is_finished());
    assert!(scheduler.finish().is_empty());
}

#[test]
fn exhaustion_stops_dispatch_and_drains() {
    let (mut scheduler, chunks) = Scheduler::new(5, 3, usize::MAX - 1);
    assert_eq!(chunks.len(), 1);
    assert_eq!(chunks[0].inputs, 1..usize::MAX);
    let case = HashCase { input: 4, digest: "40".to_string() };
    assert!(scheduler.on_result(0, vec![case]).unwrap().is_none());
    assert!(scheduler.is_finished());
    let out = scheduler.finish();
    assert_eq!(out.len(), 1);
    assert_eq!(out[0].input, 4);
}

#[test]
fn enough_matches_stop_dispatch_but_in_flight_results_still_count() {
    let (mut scheduler, chunks) = Scheduler::new(1, 2, 10);
    assert_eq!(chunks.len(), 2);
    let late = HashCase { input: 15, digest: "x0".to_string() };
    assert!(scheduler.on_result(1, vec![late]).unwrap().is_none());
    assert!(!scheduler.is_finished());
    let early = HashCase { input: 3, digest: "y0".to_string() };
    assert!(scheduler.on_result(0, vec![early]).unwrap().is_none());
    assert!(scheduler.is_finished());
    let out = scheduler.finish();
    assert_eq!(out.len(), 1);
    assert_eq!(out[0].input, 3);
}

#[test]
fn result_without_matches_dispatches_the_next_chunk() {
    let (mut scheduler, _) = Scheduler::new(1, 2, 10);
    let next = scheduler.on_result(0, Vec::new()).unwrap().unwrap();
    assert_eq!(next.index, 2);
    assert_eq!(next.inputs, 21..31);
}

#[test]
fn unknown_and_duplicate_results_are_refused() {
    let (mut scheduler, _) = Scheduler::new(1, 2, 10);
    assert!(matches!(
        scheduler.on_result(2, Vec::new()),
        Err(ScheduleError::UnknownChunk)
    ));
    assert!(scheduler.on_result(0, Vec::new()).is_ok());
    assert!(matches!(
        scheduler.on_result(0, Vec::new()),
        Err(ScheduleError::DuplicateResult)
    ));
}

#[test]
fn every_emitted_digest_ends_with_the_zeros() {
    let m = DigestMatcher::new(2).unwrap();
    let out = run_search(&m, 4, 3, 64, real_hash, true);
    assert_eq!(out.len(), 4);
    for (input, digest) in &out {
        assert!(digest.ends_with("00"));
        assert_eq!(*digest, sha256::digest(input.to_string()));
    }
}

#[test]
fn output_strictly_ascends() {
    let m = DigestMatcher::new(1).unwrap();
    let out = run_search(&m, 20, 4, 3, real_hash, true);
    assert_eq!(out.len(), 20);
    for w in out.windows(2) {
        assert!(w[0].0 < w[1].0);
    }
}

#[test]
fn output_is_the_same_for_any_workers_and_chunk_size() {
    let m = DigestMatcher::new(1).unwrap();
    let reference = run_search(&m, 6, 1, 1, real_hash, false);
    assert_eq!(reference.len(), 6);
    for (workers, chunk_size) in [(2, 7), (4, 100), (3, 4096), (8, 2)] {
        assert_eq!(
            run_search(&m, 6, workers, chunk_size, real_hash, true),
            reference
        );
    }
}

#[test]
fn same_search_twice_gives_the_same_output() {
    let m = DigestMatcher::new(1).unwrap();
    let first = run_search(&m, 5, 3, 16, real_hash, true);
    let second = run_search(&m, 5, 3, 16, real_hash, true);
    assert_eq!(first, second);
}

#[test]
fn trailing_zero_bounds() {
    assert_eq!(from_1_to_32("1"), Ok(1));
    assert_eq!(from_1_to_32("32"), Ok(32));
    assert!(from_1_to_32("0").is_err());
    assert!(from_1_to_32("33").is_err());
    assert!(from_1_to_32("abc").is_err());
}

#[test]
fn config_validation() {
    let a = Args::new(3, 2, 4, 100).unwrap();
    assert_eq!((a.trailing_zeros, a.hashes_needed, a.threads, a.chunk_size), (3, 2, 4, 100));
    assert!(matches!(Args::new(0, 1, 1, 1), Err(ConfigError::TrailingZerosOutOfRange)));
    assert!(matches!(Args::new(33, 1, 1, 1), Err(ConfigError::TrailingZerosOutOfRange)));
    assert!(matches!(Args::new(1, 1, 0, 1), Err(ConfigError::NoThreads)));
    assert!(matches!(Args::new(1, 1, 1, 0), Err(ConfigError::EmptyChunks)));
    let d = Args::with_default_threads(1, 1, None, 4096).unwrap();
    assert!(d.threads >= 1);
    let e = Args::with_default_threads(1, 1, Some(6), 4096).unwrap();
    assert_eq!(e.threads, 6);
}

#[test]
fn matcher_at_the_largest_count() {
    let m = DigestMatcher::new(32).unwrap();
    assert!(m.is_match(&"0".repeat(32)));
    assert!(m.is_match(&("f".repeat(32) + &"0".repeat(32))));
    assert!(!m.is_match(&("a".to_string() + &"0".repeat(31))));
    assert!(!m.is_match(&"0".repeat(31)));
}

#[test]
fn matcher_for_one_zero() {
    let m = DigestMatcher::new(1).unwrap();
    for s in ["70", "40", "10", "0"] {
        assert!(m.is_match(s));
    }
    for s in ["7", "14", "05", ""] {
        assert!(!m.is_match(s));
    }
}

#[test]
fn matcher_for_two_zeros_is_end_anchored() {
    let m = DigestMatcher::new(2).unwrap();
    assert!(!m.is_match("a0b0"));
    assert!(m.is_match("ff000"));
}

#[test]
fn matcher_builds_for_every_supported_count() {
    for n in 1..=32usize {
        let m = DigestMatcher::new(n).unwrap();
        let again = DigestMatcher::new(n).unwrap();
        let zeros = "0".repeat(n);
        let short = "0".repeat(n - 1);
        assert!(m.is_match(&zeros) && again.is_match(&zeros));
        assert!(!m.is_match(&("1".to_string() + &short)));
        assert!(!again.is_match(&("1".to_string() + &short)));
    }
}
