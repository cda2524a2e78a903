//! The search: a worker that walks its range of nonces, hashing the commit with each
//! on top of a cached prefix, until one reaches the target.

use crate::commit::{CommitBuffer, CommitView};
use crate::error::MineError;
use crate::hasher::{
    framed, lemma_decimal, object_header, object_id, sha1_digest, PrefixCache, MAX_RECORD_LEN,
};
use crate::nonce::{lemma_decode_encode, nonce_symbols, NONCE_LENGTH};
use crate::oid::{object_oid, oid_bytes};
use crate::partition::WorkerRange;
use crate::score::{leading_zero_bits, num_leading_zero_bits};
use crate::signal::{
    attempts_so_far, count_attempt, millis_since, request_stop, stop_requested,
};
use std::sync::atomic::{AtomicBool, AtomicU64};
use std::time::Instant;
use vstd::prelude::*;

verus! {

/// The identifier that a commit gets when its nonce field holds the nonce `n`.
pub open spec fn candidate_id(commit: CommitView, n: int) -> Seq<u8> {
    object_id(commit.with_nonce(nonce_symbols(n as nat)).record)
}

/// The score of a commit with the nonce `n`: the leading zero bits of its identifier.
pub open spec fn candidate_score(commit: CommitView, n: int) -> nat {
    leading_zero_bits(candidate_id(commit, n))
}

/// One nonce tried: the identifier it gave and what that identifier is worth.
pub struct Attempt {
    /// The nonce that was written into the commit.
    pub nonce: u128,
    /// The identifier of the commit with that nonce.
    pub digest: [u8; 20],
    /// The number of leading zero bits of the identifier.
    pub zeros: u16,
    /// Whether this is more than the worker had reached before.
    pub improved: bool,
    /// Whether this reaches the target.
    pub qualifies: bool,
}

/// How one step of a worker ended.
pub enum StepOutcome {
    /// The stop flag was seen set: nothing was hashed.
    Halted,
    /// The range holds no nonce that was not tried: nothing was hashed.
    Exhausted,
    /// One nonce was tried.
    Tried(Attempt),
}

/// What a worker stands for.
pub struct WorkerView {
    /// The commit as the worker holds it.
    pub commit: CommitView,
    /// The nonce that the next step tries; none when the range is used up.
    pub pending: Option<u128>,
    /// The last nonce of the range.
    pub last: u128,
    /// The best score that the worker has reached.
    pub best: u16,
    /// The score that ends the search.
    pub target: u16,
}

impl WorkerView {
    /// What the worker is after it has tried its pending nonce `n` and got `zeros`.
    pub open spec fn after_attempt(self, n: u128, zeros: u16) -> WorkerView {
        WorkerView {
            commit: self.commit.with_nonce(nonce_symbols(n as nat)),
            pending: if n == self.last {
                None
            } else {
                Some((n + 1) as u128)
            },
            last: self.last,
            best: if zeros > self.best {
                zeros
            } else {
                self.best
            },
            target: self.target,
        }
    }

    /// Whether the nonce `n` neither beats the best score nor reaches the target, so
    /// that a worker passes over it without a report.
    pub open spec fn passes_over(self, n: int) -> bool {
        candidate_score(self.commit, n) <= self.best && candidate_score(self.commit, n)
            < self.target
    }

    /// The first nonce that is still to be tried, as a number: one past the last nonce
    /// when the range is used up.
    pub open spec fn frontier(self) -> int {
        match self.pending {
            Some(n) => n as int,
            None => self.last + 1,
        }
    }
}

/// Writing a nonce over a nonce leaves no trace of the first.
pub proof fn lemma_with_nonce_twice(commit: CommitView, a: Seq<u8>, b: Seq<u8>)
    requires
        0 <= commit.nonce_offset,
        commit.nonce_offset + NONCE_LENGTH <= commit.record.len(),
        a.len() == NONCE_LENGTH,
        b.len() == NONCE_LENGTH,
    ensures
        commit.with_nonce(a).with_nonce(b) == commit.with_nonce(b),
        commit.with_nonce(a).record.len() == commit.record.len(),
        commit.with_nonce(a).window() == a,
{
    assert(commit.with_nonce(a).with_nonce(b).record =~= commit.with_nonce(b).record);
    assert(commit.with_nonce(a).window() =~= a);
}

/// The part of the hash input of a commit that lies in front of its nonce field.
pub open spec fn fixed_part(commit: CommitView) -> Seq<u8> {
    framed(commit.record).subrange(
        0,
        object_header(commit.record.len()).len() + commit.nonce_offset,
    )
}

/// The part of a commit record from its nonce field on.
pub open spec fn nonce_part(commit: CommitView) -> Seq<u8> {
    commit.record.subrange(commit.nonce_offset, commit.record.len() as int)
}

/// Hashing on top of the cached prefix is hashing in one pass: whatever nonce is
/// written into a commit, the part in front of the nonce field as it was before the
/// write, followed by the part from the nonce field on as it is after, is the whole
/// hash input of the commit with that nonce.
pub proof fn lemma_incremental_hash(commit: CommitView, symbols: Seq<u8>)
    requires
        0 <= commit.nonce_offset,
        commit.nonce_offset + NONCE_LENGTH <= commit.record.len(),
        symbols.len() == NONCE_LENGTH,
    ensures
        fixed_part(commit) + nonce_part(commit.with_nonce(symbols)) == framed(
            commit.with_nonce(symbols).record,
        ),
        fixed_part(commit.with_nonce(symbols)) == fixed_part(commit),
        sha1_digest(fixed_part(commit) + nonce_part(commit.with_nonce(symbols))) == object_id(
            commit.with_nonce(symbols).record,
        ),
{
    let after = commit.with_nonce(symbols);
    assert(after.record.len() == commit.record.len());
    assert(fixed_part(after) =~= fixed_part(commit));
    assert(fixed_part(commit) + nonce_part(after) =~= framed(after.record));
}

/// A worker of the search: a commit of its own, the hash state of the part of it that
/// never changes, and its place in its range.
pub struct Worker {
    commit: CommitBuffer,
    cache: PrefixCache,
    next: u128,
    last: u128,
    spent: bool,
    best: u16,
    target: u16,
}

impl View for Worker {
    type V = WorkerView;

    closed spec fn view(&self) -> WorkerView {
        WorkerView {
            commit: self.commit@,
            pending: if self.spent {
                None
            } else {
                Some(self.next)
            },
            last: self.last,
            best: self.best,
            target: self.target,
        }
    }
}

impl Worker {
    /// The worker holds a well-formed commit, its cache holds the hash input in front
    /// of the nonce field, and its pending nonce lies in its range.
    pub closed spec fn wf(&self) -> bool {
        &&& self.commit@.well_formed()
        &&& self.commit@.record.len() <= MAX_RECORD_LEN
        &&& self.cache.prefix() == fixed_part(self.commit@)
        &&& !self.spent ==> self.next <= self.last
    }

    /// A worker that will try the nonces of `range` on `commit`, from the first one on,
    /// until one gives at least `target` leading zero bits.
    pub fn new(commit: CommitBuffer, range: WorkerRange, target: u16) -> (worker: Worker)
        ensures
            worker.wf(),
            worker@ == (WorkerView {
                commit: commit@,
                pending: if range.first <= range.last {
                    Some(range.first)
                } else {
                    None
                },
                last: range.last,
                best: 0,
                target,
            }),
    {
        let record_len: usize = commit.bytes().len();
        proof {
            lemma_decimal(record_len as nat);
        }
        let cache = PrefixCache::new(commit.fixed_prefix());
        Worker {
            commit,
            cache,
            next: range.first,
            last: range.last,
            spent: range.first > range.last,
            best: 0,
            target,
        }
    }

    /// One step of the worker, given what it has just read from the stop flag.
    ///
    /// A set flag halts the worker before it hashes anything. Else the worker writes
    /// its pending nonce into its commit, hashes the commit from the cached prefix on,
    /// scores the digest and moves on by one nonce.
    pub fn step(&mut self, stop_observed: bool) -> (outcome: StepOutcome)
        requires
            old(self).wf(),
        ensures
            final(self).wf(),
            stop_observed ==> outcome is Halted && final(self)@ == old(self)@,
            !stop_observed && old(self)@.pending is None ==> outcome is Exhausted && final(self)@
                == old(self)@,
            !stop_observed && old(self)@.pending is Some ==> {
                let n = old(self)@.pending.unwrap();
                &&& outcome matches StepOutcome::Tried(attempt)
                &&& attempt.nonce == n
                &&& attempt.digest@ == candidate_id(old(self)@.commit, n as int)
                &&& attempt.digest@ == object_id(final(self)@.commit.record)
                &&& attempt.zeros == leading_zero_bits(attempt.digest@)
                &&& attempt.improved == (attempt.zeros > old(self)@.best)
                &&& attempt.qualifies == (attempt.zeros >= old(self)@.target)
                &&& final(self)@ == old(self)@.after_attempt(n, attempt.zeros)
            },
    {
        if stop_observed {
            return StepOutcome::Halted;
        }
        if self.spent {
            return StepOutcome::Exhausted;
        }
        let nonce: u128 = self.next;
        let ghost before = self.commit@;
        self.commit.write_nonce(nonce);
        proof {
            lemma_decimal(before.record.len());
            lemma_decode_encode(nonce as nat);
            lemma_incremental_hash(before, nonce_symbols(nonce as nat));
        }
        let digest: [u8; 20] = self.cache.digest_with(self.commit.nonce_suffix());
        let zeros: u16 = num_leading_zero_bits(digest.as_slice());
        let improved: bool = zeros > self.best;
        if improved {
            self.best = zeros;
        }
        let qualifies: bool = zeros >= self.target;
        if nonce == self.last {
            self.spent = true;
        } else {
            self.next = nonce + 1;
        }
        StepOutcome::Tried(Attempt { nonce, digest, zeros, improved, qualifies })
    }

    /// Tries nonce after nonce until there is something to report: an attempt that
    /// beats the best score or reaches the target, a set stop flag, or a used-up range.
    ///
    /// A used-up range ends the run before the stop flag is read. Else the flag is read
    /// before every hash, so at most one more follows its setting; each is counted.
    pub fn run(&mut self, stop: &AtomicBool, attempts: &AtomicU64) -> (outcome: StepOutcome)
        requires
            old(self).wf(),
        ensures
            final(self).wf(),
            old(self)@.pending is None ==> outcome is Exhausted && final(self)@ == old(self)@,
            final(self)@.last == old(self)@.last,
            final(self)@.target == old(self)@.target,
            old(self)@.frontier() <= final(self)@.frontier(),
            final(self)@.frontier() == old(self)@.frontier() ==> final(self)@.commit == old(
                self,
            )@.commit,
            final(self)@.frontier() > old(self)@.frontier() ==> final(self)@.commit == old(
                self,
            )@.commit.with_nonce(nonce_symbols((final(self)@.frontier() - 1) as nat)),
            match outcome {
                StepOutcome::Tried(attempt) => {
                    &&& attempt.improved || attempt.qualifies
                    &&& old(self)@.frontier() <= attempt.nonce <= old(self)@.last
                    &&& attempt.nonce + 1 == final(self)@.frontier()
                    &&& forall|n: int|
                        old(self)@.frontier() <= n < attempt.nonce ==> old(self)@.passes_over(n)
                    &&& attempt.digest@ == candidate_id(old(self)@.commit, attempt.nonce as int)
                    &&& attempt.digest@ == object_id(final(self)@.commit.record)
                    &&& attempt.zeros == leading_zero_bits(attempt.digest@)
                    &&& attempt.improved == (attempt.zeros > old(self)@.best)
                    &&& attempt.qualifies == (attempt.zeros >= old(self)@.target)
                    &&& final(self)@.best == if attempt.improved {
                        attempt.zeros
                    } else {
                        old(self)@.best
                    }
                },
                StepOutcome::Exhausted => {
                    &&& final(self)@.pending is None
                    &&& final(self)@.best == old(self)@.best
                    &&& forall|n: int|
                        old(self)@.frontier() <= n <= old(self)@.last ==> old(
                            self,
                        )@.passes_over(n)
                },
                StepOutcome::Halted => {
                    &&& final(self)@.pending is Some
                    &&& final(self)@.best == old(self)@.best
                    &&& forall|n: int|
                        old(self)@.frontier() <= n < final(self)@.frontier() ==> old(
                            self,
                        )@.passes_over(n)
                },
            },
    {
        let ghost start = self@;
        loop
            invariant
                old(self)@ == start,
                start.commit.well_formed(),
                self.wf(),
                self@.last == start.last,
                self@.target == start.target,
                self@.best == start.best,
                start.frontier() <= self@.frontier(),
                self@.frontier() == start.frontier() ==> self@.commit == start.commit,
                self@.frontier() > start.frontier() ==> self@.commit == start.commit.with_nonce(
                    nonce_symbols((self@.frontier() - 1) as nat),
                ),
                forall|n: int| start.frontier() <= n < self@.frontier() ==> start.passes_over(n),
            decreases self@.last + 1 - self@.frontier(),
        {
            if self.spent {
                return StepOutcome::Exhausted;
            }
            let ghost current = self@;
            let stop_observed: bool = stop_requested(stop);
            let outcome = self.step(stop_observed);
            proof {
                if current.pending is Some {
                    let n = current.pending.unwrap();
                    lemma_decode_encode(n as nat);
                    if current.frontier() > start.frontier() {
                        lemma_decode_encode((current.frontier() - 1) as nat);
                        lemma_with_nonce_twice(
                            start.commit,
                            nonce_symbols((current.frontier() - 1) as nat),
                            nonce_symbols(n as nat),
                        );
                    }
                }
            }
            match outcome {
                StepOutcome::Tried(attempt) => {
                    count_attempt(attempts);
                    if attempt.improved || attempt.qualifies {
                        return StepOutcome::Tried(attempt);
                    }
                },
                StepOutcome::Halted => {
                    return StepOutcome::Halted;
                },
                StepOutcome::Exhausted => {
                    return StepOutcome::Exhausted;
                },
            }
        }
    }

    /// The commit as the worker holds it, with the nonce of its last attempt.
    pub fn commit(&self) -> (commit: &CommitBuffer)
        ensures
            commit@ == self@.commit,
    {
        &self.commit
    }

    /// The best score that the worker has reached.
    pub fn best(&self) -> (best: u16)
        ensures
            best == self@.best,
    {
        self.best
    }

    /// The messages that an attempt of this worker calls for, in the order in which
    /// they are sent, and whether the worker is done. The progress comes first, where
    /// the attempt improved on the best score; then the result with the commit, where
    /// it reached the target, and with it the worker is done.
    pub fn report(&self, attempt: &Attempt) -> (reported: (Vec<PowMessage>, bool))
        ensures
            reported.1 == attempt.qualifies,
            reported.0@.len() == (if attempt.improved {
                1nat
            } else {
                0nat
            }) + (if attempt.qualifies {
                1nat
            } else {
                0nat
            }),
            attempt.improved ==> reported.0@[0] == PowMessage::Update(
                attempt.digest,
                attempt.zeros,
            ),
            attempt.qualifies ==> (reported.0@.last() matches PowMessage::Done(commit, digest)
                && commit@ == self@.commit && digest == attempt.digest),
    {
        let mut messages: Vec<PowMessage> = Vec::new();
        if attempt.improved {
            messages.push(PowMessage::Update(attempt.digest, attempt.zeros));
        }
        if attempt.qualifies {
            messages.push(PowMessage::Done(self.commit.clone(), attempt.digest));
        }
        (messages, attempt.qualifies)
    }
}

/// What a worker tells the coordinator of a search.
pub enum PowMessage {
    /// The worker has beaten its best score with this identifier and this many leading
    /// zero bits. The search goes on.
    Update([u8; 20], u16),
    /// The worker has reached the target: the commit with the winning nonce, and its
    /// identifier. The search is over.
    Done(CommitBuffer, [u8; 20]),
}

/// The outcome of a search: the commit with the winning nonce, its identifier as
/// bytes and as the object store knows it, the number of hash attempts that all workers
/// made together, and the milliseconds that the search took.
pub struct SearchResult {
    pub commit: CommitBuffer,
    pub digest: [u8; 20],
    pub id: git2::Oid,
    pub attempts: u64,
    pub elapsed_millis: u128,
}

/// What the coordinator does with what it received from its workers.
pub enum SessionStep {
    /// Report the progress and wait for the next message.
    Progress { id: git2::Oid, zeros: u16 },
    /// The search has ended with a result. The stop flag has been set.
    Finished(SearchResult),
    /// The search has ended without one.
    Failed(MineError),
}

/// The coordinator's answer to a message, or to the news that no worker is left to
/// send one.
///
/// Progress is handed on with the identifier as the object store knows it. A result
/// ends the search: the stop flag is set for the other workers, and the attempts and
/// the clock are read off. With no worker left and no result the whole domain has been
/// tried in vain.
pub fn coordinate(
    received: Option<PowMessage>,
    stop: &AtomicBool,
    attempts: &AtomicU64,
    started: &Instant,
) -> (step: SessionStep)
    ensures
        match received {
            None => step == SessionStep::Failed(MineError::SearchSpaceExhausted),
            Some(PowMessage::Update(digest, zeros)) => {
                &&& step matches SessionStep::Progress { id, zeros: reported }
                &&& oid_bytes(id) == digest@
                &&& reported == zeros
            },
            Some(PowMessage::Done(commit, digest)) => {
                &&& step matches SessionStep::Finished(result)
                &&& result.commit == commit
                &&& result.digest == digest
                &&& oid_bytes(result.id) == digest@
            },
        },
{
    match received {
        None => SessionStep::Failed(MineError::SearchSpaceExhausted),
        Some(PowMessage::Update(digest, zeros)) => match object_oid(&digest) {
            Ok(id) => SessionStep::Progress { id, zeros },
            Err(e) => SessionStep::Failed(e),
        },
        Some(PowMessage::Done(commit, digest)) => {
            request_stop(stop);
            let attempts: u64 = attempts_so_far(attempts);
            let elapsed_millis: u128 = millis_since(started);
            match object_oid(&digest) {
                Ok(id) => SessionStep::Finished(
                    SearchResult { commit, digest, id, attempts, elapsed_millis },
                ),
                Err(e) => SessionStep::Failed(e),
            }
        },
    }
}

} // verus!
