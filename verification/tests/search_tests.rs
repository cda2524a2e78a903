use gitpow::commit::CommitBuffer;
use gitpow::error::MineError;
use gitpow::hasher::object_digest;
use gitpow::nonce::decode_nonce;
use gitpow::partition::{partition, WorkerRange};
use gitpow::score::num_leading_zero_bits;
use gitpow::search::{coordinate, PowMessage, SearchResult, SessionStep, StepOutcome, Worker};
use std::sync::atomic::{AtomicBool, AtomicU64, Ordering};
use std::time::Instant;

const PLAIN: &str = "tree 4b825dc642cb6eb9a060e54bf8d69288fbee4904\nauthor A U Thor <author@example.com> 1600000000 +0000\ncommitter A U Thor <author@example.com> 1600000000 +0000\n\nInitial commit\n";

fn hex(bytes: &[u8]) -> String {
    let mut out = String::new();
    for b in bytes {
        out.push_str(&format!("{:02x}", b));
    }
    out
}

fn plain() -> CommitBuffer {
    CommitBuffer::new(PLAIN.as_bytes()).unwrap()
}

/// Runs a search with the workers taking turns, each until its next report.
fn mine(commit: &CommitBuffer, target: u16, workers: u16) -> Result<SearchResult, MineError> {
    let stop = AtomicBool::new(false);
    let attempts = AtomicU64::new(0);
    let started = Instant::now();
    let mut pool: Vec<Option<Worker>> = partition(workers)
        .into_iter()
        .map(|range| Some(Worker::new(commit.clone(), range, target)))
        .collect();
    loop {
        let mut alive = false;
        for slot in pool.iter_mut() {
            let mut messages = Vec::new();
            if let Some(worker) = slot {
                match worker.run(&stop, &attempts) {
                    StepOutcome::Tried(attempt) => {
                        alive = true;
                        messages = worker.report(&attempt).0;
                    }
                    StepOutcome::Halted | StepOutcome::Exhausted => *slot = None,
                }
            }
            for message in messages {
                match coordinate(Some(message), &stop, &attempts, &started) {
                    SessionStep::Progress { .. } => {}
                    SessionStep::Finished(result) => return Ok(result),
                    SessionStep::Failed(e) => return Err(e),
                }
            }
        }
        if !alive {
            match coordinate(None, &stop, &attempts, &started) {
                SessionStep::Failed(e) => return Err(e),
                _ => unreachable!(),
            }
        }
    }
}

#[test]
fn first_step_tries_the_first_nonce() {
    let mut worker = Worker::new(plain(), WorkerRange { first: 0, last: 10 }, 8);
    match worker.step(false) {
        StepOutcome::Tried(attempt) => {
            assert_eq!(attempt.nonce, 0);
            assert_eq!(hex(&attempt.digest), "95ae1db9110bcdbaecdc23b637b5c44311496de2");
            assert_eq!(attempt.zeros, 0);
            assert!(!attempt.improved);
            assert!(!attempt.qualifies);
        }
        _ => panic!("the first step tries a nonce"),
    }
    assert_eq!(worker.commit().nonce(), b"AAAAAAAAAAAAAAAAAAAAAAAAAAAAAAAA");
}

#[test]
fn steps_walk_the_range_in_order() {
    let mut worker = Worker::new(plain(), WorkerRange { first: 3, last: 5 }, 8);
    let mut seen = Vec::new();
    loop {
        match worker.step(false) {
            StepOutcome::Tried(attempt) => {
                assert_eq!(attempt.digest, object_digest(worker.commit().bytes()));
                assert_eq!(attempt.zeros, num_leading_zero_bits(&attempt.digest));
                seen.push((attempt.nonce, attempt.zeros, attempt.improved));
            }
            StepOutcome::Exhausted => break,
            StepOutcome::Halted => panic!("nobody asked the worker to stop"),
        }
    }
    assert_eq!(seen, vec![(3, 0, false), (4, 2, true), (5, 3, true)]);
    assert_eq!(worker.best(), 3);
    assert!(matches!(worker.step(false), StepOutcome::Exhausted));
}

#[test]
fn incremental_hash_equals_hash_in_one_pass() {
    let mut worker = Worker::new(plain(), WorkerRange { first: 1 << 100, last: u128::MAX }, 200);
    for _ in 0..50 {
        match worker.step(false) {
            StepOutcome::Tried(attempt) => {
                assert_eq!(attempt.digest, object_digest(worker.commit().bytes()));
                assert_eq!(decode_nonce(worker.commit().nonce()), Ok(attempt.nonce));
            }
            _ => panic!("the range is far from used up"),
        }
    }
}

#[test]
fn set_stop_flag_halts_before_any_hash() {
    let mut worker = Worker::new(plain(), WorkerRange { first: 0, last: u128::MAX }, 8);
    let before = worker.commit().data().to_string();
    assert!(matches!(worker.step(true), StepOutcome::Halted));
    assert!(matches!(worker.step(true), StepOutcome::Halted));
    assert_eq!(worker.commit().data(), before);
    assert_eq!(worker.best(), 0);
    match worker.step(false) {
        StepOutcome::Tried(attempt) => assert_eq!(attempt.nonce, 0),
        _ => panic!("a halted worker has used up none of its range"),
    }
}

#[test]
fn worker_halts_within_one_hash_of_the_stop_flag() {
    let stop = AtomicBool::new(true);
    let attempts = AtomicU64::new(0);
    let mut worker = Worker::new(plain(), WorkerRange { first: 0, last: u128::MAX }, 8);
    assert!(matches!(worker.run(&stop, &attempts), StepOutcome::Halted));
    assert_eq!(attempts.load(Ordering::Relaxed), 0);

    stop.store(false, Ordering::Relaxed);
    assert!(matches!(worker.run(&stop, &attempts), StepOutcome::Tried(_)));
    let hashed = attempts.load(Ordering::Relaxed);
    assert_eq!(hashed, 5);
    stop.store(true, Ordering::Relaxed);
    assert!(matches!(worker.run(&stop, &attempts), StepOutcome::Halted));
    assert_eq!(attempts.load(Ordering::Relaxed), hashed);
}

#[test]
fn run_reports_each_personal_best_and_then_the_winner() {
    let stop = AtomicBool::new(false);
    let attempts = AtomicU64::new(0);
    let mut worker = Worker::new(plain(), WorkerRange { first: 0, last: u128::MAX }, 8);
    let mut reports = Vec::new();
    loop {
        match worker.run(&stop, &attempts) {
            StepOutcome::Tried(attempt) => {
                reports.push((attempt.nonce, attempt.zeros));
                if attempt.qualifies {
                    assert!(attempt.improved);
                    assert_eq!(hex(&attempt.digest), "0083d7b01a25f75c8e53ba8ee2d435271dc0b543");
                    break;
                }
            }
            _ => panic!("the search ends with a winner"),
        }
    }
    assert_eq!(reports, vec![(4, 2), (5, 3), (21, 5), (134, 8)]);
    assert_eq!(attempts.load(Ordering::Relaxed), 135);
    assert_eq!(worker.commit().nonce(), b"AAAAAAAAAAAAAAAAAAAAAAAAAAAAAAIG");
    assert_eq!(worker.best(), 8);
}

#[test]
fn empty_range_is_exhausted_at_once() {
    let stop = AtomicBool::new(false);
    let attempts = AtomicU64::new(0);
    let mut worker = Worker::new(plain(), WorkerRange { first: 9, last: 8 }, 8);
    assert!(matches!(worker.step(false), StepOutcome::Exhausted));
    assert!(matches!(worker.run(&stop, &attempts), StepOutcome::Exhausted));
    assert_eq!(attempts.load(Ordering::Relaxed), 0);
}

#[test]
fn used_up_range_ends_the_run_whatever_the_stop_flag_says() {
    let stop = AtomicBool::new(true);
    let attempts = AtomicU64::new(0);
    let mut empty = Worker::new(plain(), WorkerRange { first: 9, last: 8 }, 8);
    assert!(matches!(empty.run(&stop, &attempts), StepOutcome::Exhausted));

    let mut worker = Worker::new(plain(), WorkerRange { first: 0, last: 0 }, 8);
    assert!(matches!(worker.run(&stop, &attempts), StepOutcome::Halted));
    stop.store(false, Ordering::Relaxed);
    assert!(matches!(worker.run(&stop, &attempts), StepOutcome::Exhausted));
    assert_eq!(attempts.load(Ordering::Relaxed), 1);
    let before = worker.commit().data().to_string();
    stop.store(true, Ordering::Relaxed);
    assert!(matches!(worker.run(&stop, &attempts), StepOutcome::Exhausted));
    assert_eq!(worker.commit().data(), before);
    assert_eq!(attempts.load(Ordering::Relaxed), 1);
}

#[test]
fn last_nonce_of_the_domain_is_tried_once() {
    let mut worker = Worker::new(plain(), WorkerRange { first: u128::MAX, last: u128::MAX }, 8);
    match worker.step(false) {
        StepOutcome::Tried(attempt) => assert_eq!(attempt.nonce, u128::MAX),
        _ => panic!("one nonce is left"),
    }
    assert_eq!(worker.commit().nonce(), b"PPPPPPPPPPPPPPPPPPPPPPPPPPPPPPPP");
    assert!(matches!(worker.step(false), StepOutcome::Exhausted));
}

#[test]
fn report_sends_progress_before_the_result() {
    let stop = AtomicBool::new(false);
    let attempts = AtomicU64::new(0);
    let mut worker = Worker::new(plain(), WorkerRange { first: 134, last: 200 }, 8);
    let attempt = match worker.run(&stop, &attempts) {
        StepOutcome::Tried(attempt) => attempt,
        _ => panic!("nonce 134 reaches the target"),
    };
    let (messages, done) = worker.report(&attempt);
    assert!(done);
    assert_eq!(messages.len(), 2);
    match &messages[0] {
        PowMessage::Update(digest, zeros) => {
            assert_eq!(digest, &attempt.digest);
            assert_eq!(*zeros, 8);
        }
        PowMessage::Done(..) => panic!("progress comes first"),
    }
    match &messages[1] {
        PowMessage::Done(commit, digest) => {
            assert_eq!(commit.data(), worker.commit().data());
            assert_eq!(digest, &attempt.digest);
        }
        PowMessage::Update(..) => panic!("the result comes last"),
    }
}

#[test]
fn report_of_a_mere_improvement_is_progress_only() {
    let mut worker = Worker::new(plain(), WorkerRange { first: 4, last: 200 }, 8);
    let attempt = match worker.step(false) {
        StepOutcome::Tried(attempt) => attempt,
        _ => panic!("nonce 4 is in the range"),
    };
    assert!(attempt.improved && !attempt.qualifies);
    let (messages, done) = worker.report(&attempt);
    assert!(!done);
    assert_eq!(messages.len(), 1);
    assert!(matches!(messages[0], PowMessage::Update(_, 2)));
}

#[test]
fn coordinator_hands_progress_on() {
    let stop = AtomicBool::new(false);
    let attempts = AtomicU64::new(7);
    let started = Instant::now();
    match coordinate(Some(PowMessage::Update([1u8; 20], 3)), &stop, &attempts, &started) {
        SessionStep::Progress { id, zeros } => {
            assert_eq!(id.as_bytes(), &[1u8; 20]);
            assert_eq!(id.to_string(), "0101010101010101010101010101010101010101");
            assert_eq!(zeros, 3);
        }
        _ => panic!("progress does not end the search"),
    }
    assert!(!stop.load(Ordering::Relaxed));
}

#[test]
fn coordinator_stops_the_workers_on_a_result() {
    let stop = AtomicBool::new(false);
    let attempts = AtomicU64::new(42);
    let commit = plain();
    let started = Instant::now();
    let digest = object_digest(commit.bytes());
    match coordinate(Some(PowMessage::Done(commit.clone(), digest)), &stop, &attempts, &started) {
        SessionStep::Finished(result) => {
            assert_eq!(result.commit.data(), commit.data());
            assert_eq!(result.digest, digest);
            assert_eq!(result.id.as_bytes(), &digest);
            assert_eq!(result.id.to_string(), "95ae1db9110bcdbaecdc23b637b5c44311496de2");
            assert_eq!(result.attempts, 42);
            assert!(result.elapsed_millis <= started.elapsed().as_millis());
        }
        _ => panic!("a result ends the search"),
    }
    assert!(stop.load(Ordering::Relaxed));
}

#[test]
fn coordinator_fails_when_no_worker_is_left() {
    let stop = AtomicBool::new(false);
    let attempts = AtomicU64::new(0);
    assert!(matches!(
        coordinate(None, &stop, &attempts, &Instant::now()),
        SessionStep::Failed(MineError::SearchSpaceExhausted)
    ));
    assert!(!stop.load(Ordering::Relaxed));
}

#[test]
fn search_finds_eight_zero_bits_with_any_number_of_workers() {
    let commit = plain();
    for workers in [1u16, 2, 8] {
        let result = mine(&commit, 8, workers).unwrap();
        assert!(num_leading_zero_bits(&result.digest) >= 8);
        assert_eq!(result.digest, object_digest(result.commit.bytes()));
        assert_eq!(result.id.as_bytes(), &result.digest);
        assert_eq!(result.digest[0], 0);
        let nonce = decode_nonce(result.commit.nonce()).unwrap();
        let mut same = commit.clone();
        same.write_nonce(nonce);
        assert_eq!(same.data(), result.commit.data());
        assert!(result.attempts >= 1);
    }
}

#[test]
fn search_for_no_zero_bits_returns_the_first_candidate() {
    let mut commit = plain();
    commit.write_nonce(0xdead_beef);
    let result = mine(&commit, 0, 1).unwrap();
    assert_eq!(result.commit.nonce(), b"AAAAAAAAAAAAAAAAAAAAAAAAAAAAAAAA");
    assert_eq!(hex(&result.digest), "95ae1db9110bcdbaecdc23b637b5c44311496de2");
    assert_eq!(result.id.as_bytes(), &result.digest);
    assert_eq!(result.attempts, 1);
}

#[test]
fn search_with_one_worker_finds_the_first_winner() {
    let result = mine(&plain(), 8, 1).unwrap();
    assert_eq!(hex(&result.digest), "0083d7b01a25f75c8e53ba8ee2d435271dc0b543");
    assert_eq!(result.commit.nonce(), b"AAAAAAAAAAAAAAAAAAAAAAAAAAAAAAIG");
    assert_eq!(result.attempts, 135);
}

#[test]
fn search_over_a_used_up_domain_fails() {
    let stop = AtomicBool::new(false);
    let attempts = AtomicU64::new(0);
    let mut worker = Worker::new(plain(), WorkerRange { first: 0, last: 20 }, 161);
    let mut reports = 0;
    loop {
        match worker.run(&stop, &attempts) {
            StepOutcome::Tried(attempt) => {
                assert!(attempt.improved && !attempt.qualifies);
                reports += 1;
            }
            StepOutcome::Exhausted => break,
            StepOutcome::Halted => panic!("nobody asked the worker to stop"),
        }
    }
    assert_eq!(reports, 2);
    assert_eq!(attempts.load(Ordering::Relaxed), 21);
    assert!(matches!(
        coordinate(None, &stop, &attempts, &Instant::now()),
        SessionStep::Failed(MineError::SearchSpaceExhausted)
    ));
}
