//! Splitting the nonce domain among the workers of a search.

use crate::nonce::nonce_domain;
use vstd::arithmetic::div_mod::{
    lemma_div_is_ordered, lemma_fundamental_div_mod, lemma_fundamental_div_mod_converse,
};
use vstd::arithmetic::mul::lemma_mul_is_commutative;
use vstd::prelude::*;

verus! {

/// Most workers that a search is split among.
pub const MAX_WORKERS: u16 = 256;

/// The nonces that one worker tries: those from `first` up to `last`, both included.
/// As an interval that is open at its upper end it runs from `first` to `last + 1`.
#[derive(Clone, Copy, Debug, PartialEq, Eq, Structural)]
pub struct WorkerRange {
    pub first: u128,
    pub last: u128,
}

impl WorkerRange {
    /// Whether the range holds the nonce `n`.
    pub open spec fn contains(self, n: int) -> bool {
        self.first <= n <= self.last
    }
}

/// How many nonces each worker but the last gets: the domain divided by the number of
/// workers, rounded down.
pub open spec fn chunk_size(workers: int) -> int {
    nonce_domain() as int / workers
}

/// Where the range of worker `index` begins.
pub open spec fn range_start(workers: int, index: int) -> int {
    index * chunk_size(workers)
}

/// Where the range of worker `index` ends, this nonce not included. The last worker
/// takes what the division left over.
pub open spec fn range_end(workers: int, index: int) -> int {
    if index == workers - 1 {
        nonce_domain() as int
    } else {
        (index + 1) * chunk_size(workers)
    }
}

/// The range of worker `index` among `workers`.
pub open spec fn range_of(workers: int, index: int) -> WorkerRange {
    WorkerRange {
        first: range_start(workers, index) as u128,
        last: (range_end(workers, index) - 1) as u128,
    }
}

/// The worker whose range holds the nonce `n`.
pub open spec fn owner_of(workers: int, n: int) -> int {
    if n / chunk_size(workers) < workers - 1 {
        n / chunk_size(workers)
    } else {
        workers - 1
    }
}

proof fn lemma_chunk_size(workers: int)
    requires
        1 <= workers <= MAX_WORKERS,
    ensures
        chunk_size(workers) >= 0x100_0000_0000_0000_0000_0000_0000_0000,
        workers * chunk_size(workers) <= nonce_domain(),
        nonce_domain() - workers * chunk_size(workers) < workers,
{
    let d = nonce_domain() as int;
    let m: int = 0x100_0000_0000_0000_0000_0000_0000_0000int;
    lemma_fundamental_div_mod(d, workers);
    lemma_div_is_ordered(workers * m, d, workers);
    lemma_mul_is_commutative(workers, m);
    lemma_fundamental_div_mod_converse(workers * m, workers, m, 0);
}

proof fn lemma_range_bounds(workers: int, index: int)
    requires
        1 <= workers <= MAX_WORKERS,
        0 <= index < workers,
    ensures
        0 <= range_start(workers, index) < range_end(workers, index) <= nonce_domain(),
        index + 1 < workers ==> range_end(workers, index) == range_start(workers, index + 1),
        range_start(workers, 0) == 0,
{
    let c = chunk_size(workers);
    lemma_chunk_size(workers);
    assert(0 <= index * c) by (nonlinear_arith)
        requires
            0 <= index,
            0 <= c,
    ;
    assert((index + 1) * c == index * c + c) by (nonlinear_arith);
    assert((index + 1) * c <= workers * c) by (nonlinear_arith)
        requires
            index + 1 <= workers,
            0 <= c,
    ;
}

/// The ranges of `workers` workers cover the nonce domain exactly: they follow one
/// another without a gap from zero to the end of the domain, and none is empty.
pub proof fn lemma_ranges_are_contiguous(workers: int)
    requires
        1 <= workers <= MAX_WORKERS,
    ensures
        range_start(workers, 0) == 0,
        range_end(workers, workers - 1) == nonce_domain(),
        forall|i: int|
            0 <= i < workers ==> 0 <= #[trigger] range_start(workers, i) < range_end(workers, i)
                <= nonce_domain(),
        forall|i: int|
            0 <= i < workers - 1 ==> #[trigger] range_end(workers, i) == range_start(
                workers,
                i + 1,
            ),
{
    assert forall|i: int| 0 <= i < workers implies 0 <= #[trigger] range_start(workers, i)
        < range_end(workers, i) <= nonce_domain() by {
        lemma_range_bounds(workers, i);
    }
    assert forall|i: int| 0 <= i < workers - 1 implies #[trigger] range_end(workers, i)
        == range_start(workers, i + 1) by {
        lemma_range_bounds(workers, i);
    }
    lemma_range_bounds(workers, 0);
}

/// Every nonce of the domain lies in the range of exactly one worker.
pub proof fn lemma_partition(workers: int, n: int)
    requires
        1 <= workers <= MAX_WORKERS,
        0 <= n < nonce_domain(),
    ensures
        0 <= owner_of(workers, n) < workers,
        range_of(workers, owner_of(workers, n)).contains(n),
        forall|i: int|
            0 <= i < workers && #[trigger] range_of(workers, i).contains(n) ==> i == owner_of(
                workers,
                n,
            ),
{
    let c = chunk_size(workers);
    lemma_chunk_size(workers);
    let q = n / c;
    lemma_fundamental_div_mod(n, c);
    lemma_div_is_ordered(0, n, c);
    let o = owner_of(workers, n);
    lemma_range_bounds(workers, o);
    assert(q * c == c * q) by (nonlinear_arith);
    assert(range_start(workers, o) <= n) by {
        if q >= workers - 1 {
            assert((workers - 1) * c <= q * c) by (nonlinear_arith)
                requires
                    workers - 1 <= q,
                    0 <= c,
            ;
        }
    }
    assert(n < range_end(workers, o)) by {
        if q < workers - 1 {
            assert((q + 1) * c == q * c + c) by (nonlinear_arith);
        }
    }
    assert forall|i: int| 0 <= i < workers && #[trigger] range_of(workers, i).contains(n) implies i
        == o by {
        lemma_range_bounds(workers, i);
        if i < o {
            assert((i + 1) * c <= o * c) by (nonlinear_arith)
                requires
                    i + 1 <= o,
                    0 <= c,
            ;
        }
        if o < i {
            assert((o + 1) * c <= i * c) by (nonlinear_arith)
                requires
                    o + 1 <= i,
                    0 <= c,
            ;
        }
    }
}

/// Two different workers share no nonce.
pub proof fn lemma_ranges_are_disjoint(workers: int, i: int, j: int, n: int)
    requires
        1 <= workers <= MAX_WORKERS,
        0 <= i < workers,
        0 <= j < workers,
        i != j,
    ensures
        !(range_of(workers, i).contains(n) && range_of(workers, j).contains(n)),
{
    lemma_range_bounds(workers, i);
    lemma_range_bounds(workers, j);
    if range_of(workers, i).contains(n) && range_of(workers, j).contains(n) {
        lemma_partition(workers, n);
    }
}

/// The share of each worker but the last, for at least two workers.
fn share(workers: u16) -> (chunk: u128)
    requires
        2 <= workers <= MAX_WORKERS,
    ensures
        chunk == chunk_size(workers as int),
{
    let w: u128 = workers as u128;
    let q: u128 = u128::MAX / w;
    let r: u128 = u128::MAX % w;
    proof {
        let d = nonce_domain() as int;
        lemma_fundamental_div_mod(u128::MAX as int, w as int);
        lemma_mul_is_commutative(w as int, q as int);
        if r == w - 1 {
            assert((q + 1) * w == q * w + w) by (nonlinear_arith);
            lemma_fundamental_div_mod_converse(d, w as int, q + 1, 0);
        } else {
            lemma_fundamental_div_mod_converse(d, w as int, q as int, r + 1);
        }
        lemma_chunk_size(w as int);
    }
    if r == w - 1 {
        q + 1
    } else {
        q
    }
}

/// The range of worker `index` among `workers`.
pub fn worker_range(workers: u16, index: u16) -> (range: WorkerRange)
    requires
        1 <= workers <= MAX_WORKERS,
        index < workers,
    ensures
        range == range_of(workers as int, index as int),
        range.first <= range.last,
{
    proof {
        lemma_range_bounds(workers as int, index as int);
        lemma_chunk_size(workers as int);
    }
    if workers == 1 {
        return WorkerRange { first: 0, last: u128::MAX };
    }
    let chunk: u128 = share(workers);
    proof {
        let c = chunk as int;
        let i = index as int;
        assert((i + 1) * c == i * c + c) by (nonlinear_arith);
    }
    let first: u128 = (index as u128) * chunk;
    let last: u128 = if index == workers - 1 {
        u128::MAX
    } else {
        first + (chunk - 1)
    };
    WorkerRange { first, last }
}

/// The ranges of all workers, in order. Together they are the whole nonce domain, and
/// no two of them overlap.
pub fn partition(workers: u16) -> (ranges: Vec<WorkerRange>)
    requires
        1 <= workers <= MAX_WORKERS,
    ensures
        ranges@.len() == workers,
        forall|i: int|
            0 <= i < workers ==> #[trigger] ranges@[i] == range_of(workers as int, i),
{
    let mut ranges: Vec<WorkerRange> = Vec::new();
    let mut index: u16 = 0;
    while index < workers
        invariant
            1 <= workers <= MAX_WORKERS,
            index <= workers,
            ranges@.len() == index,
            forall|i: int|
                0 <= i < index ==> #[trigger] ranges@[i] == range_of(workers as int, i),
        decreases workers - index,
    {
        ranges.push(worker_range(workers, index));
        index += 1;
    }
    ranges
}

/// How many workers a search gets: the number asked for, where one was asked for, and
/// else one for each processor of the host, but at least one and at most `MAX_WORKERS`.
pub open spec fn workers_for(requested: Option<u8>, host: usize) -> u16 {
    match requested {
        Some(n) => n as u16,
        None => if host < 1 {
            1
        } else if host > MAX_WORKERS {
            MAX_WORKERS
        } else {
            host as u16
        },
    }
}

/// `num_cpus::get`: the number of processors that the host offers to this process. It
/// is a fact of the machine, so nothing is stated of it.
#[verifier::external_body]
fn host_parallelism() -> (processors: usize) {
    num_cpus::get()
}

/// The number of workers for a search, given the number that was asked for and the
/// number of processors of the host.
pub fn resolve_workers(requested: Option<u8>, host: usize) -> (workers: u16)
    ensures
        workers == workers_for(requested, host),
        requested is None ==> 1 <= workers <= MAX_WORKERS,
{
    match requested {
        Some(n) => n as u16,
        None => if host < 1 {
            1
        } else if host > MAX_WORKERS as usize {
            MAX_WORKERS
        } else {
            host as u16
        },
    }
}

/// The number of workers for a search on this host.
pub fn worker_count(requested: Option<u8>) -> (workers: u16)
    ensures
        exists|host: usize| workers == workers_for(requested, host),
        requested matches Some(n) ==> workers == n,
        requested is None ==> 1 <= workers <= MAX_WORKERS,
{
    let host: usize = host_parallelism();
    resolve_workers(requested, host)
}

} // verus!
