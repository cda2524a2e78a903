//! The object hasher: SHA-1 over a commit framed as a git object, in one pass or on
//! top of a cached prefix.

use sha1::Digest;
use vstd::prelude::*;

verus! {

/// Most bytes that one SHA-1 computation takes here: the bit count of the input must
/// fit in 64 bits.
pub const MAX_HASHED_LEN: u64 = 0x1FFF_FFFF_FFFF_FFFF;

/// Longest commit record that is hashed as an object: the record and its header
/// together stay within `MAX_HASHED_LEN` and within the address space.
pub const MAX_RECORD_LEN: usize = 0x7FFF_FF00;

/// The SHA-1 digest of a byte string, as the `sha1` crate computes it.
pub uninterp spec fn sha1_digest(data: Seq<u8>) -> Seq<u8>;

/// The bytes that a running SHA-1 computation has taken in so far.
pub uninterp spec fn absorbed(state: Sha1State) -> Seq<u8>;

/// A running SHA-1 computation of the `sha1` crate.
///
/// `sha1::Sha1` is an alias of a generic wrapper whose bounds cannot be written in a
/// type declaration for the proofs, so the value is held here, unseen. All that is
/// known of it is what the four functions below state: it stands for the bytes fed to
/// it, in order.
#[verifier::external_body]
pub struct Sha1State {
    inner: sha1::Sha1,
}

/// `sha1::Sha1::new`: a computation that has taken in nothing yet.
#[verifier::external_body]
fn sha1_start() -> (state: Sha1State)
    ensures
        absorbed(state) == Seq::<u8>::empty(),
{
    Sha1State { inner: sha1::Sha1::new() }
}

/// `Digest::update` of `sha1::Sha1`: the computation takes in `data` after what it
/// already holds. The length bound keeps the crate's 64-bit bit count from overflowing.
#[verifier::external_body]
fn sha1_update(state: &mut Sha1State, data: &[u8])
    requires
        absorbed(*old(state)).len() + data@.len() <= MAX_HASHED_LEN,
    ensures
        absorbed(*final(state)) == absorbed(*old(state)) + data@,
{
    state.inner.update(data)
}

/// `Clone::clone` of `sha1::Sha1`: a second computation that holds the same bytes.
#[verifier::external_body]
fn sha1_fork(state: &Sha1State) -> (copy: Sha1State)
    ensures
        absorbed(copy) == absorbed(*state),
{
    Sha1State { inner: state.inner.clone() }
}

/// `Digest::finalize` of `sha1::Sha1`: the digest of all the bytes taken in, which is
/// the digest that one pass over the same bytes gives.
#[verifier::external_body]
fn sha1_finish(state: Sha1State) -> (digest: [u8; 20])
    requires
        absorbed(state).len() <= MAX_HASHED_LEN,
    ensures
        digest@ == sha1_digest(absorbed(state)),
{
    state.inner.finalize().into()
}

/// The decimal numeral of `n`, in ASCII.
pub open spec fn decimal(n: nat) -> Seq<u8>
    decreases n,
{
    if n < 10 {
        seq![(48 + n) as u8]
    } else {
        decimal(n / 10).push((48 + n % 10) as u8)
    }
}

/// The word that opens the header of a commit object, `commit` and a space.
pub const OBJECT_KIND: [u8; 7] = [99, 111, 109, 109, 105, 116, 32];

/// The header that git hashes in front of a commit of `len` bytes: the word `commit`,
/// a space, the length in decimal and a NUL.
pub open spec fn object_header(len: nat) -> Seq<u8> {
    OBJECT_KIND@ + decimal(len) + seq![0u8]
}

/// The bytes that are hashed for a commit record: its header, then the record.
pub open spec fn framed(record: Seq<u8>) -> Seq<u8> {
    object_header(record.len()) + record
}

/// The canonical identifier of a commit record.
pub open spec fn object_id(record: Seq<u8>) -> Seq<u8> {
    sha1_digest(framed(record))
}

/// A numeral of a machine-sized number is short, holds digits only and has no NUL.
pub proof fn lemma_decimal(n: nat)
    ensures
        1 <= decimal(n).len(),
        n <= usize::MAX ==> decimal(n).len() <= 20,
        forall|i: int| 0 <= i < decimal(n).len() ==> 48 <= #[trigger] decimal(n)[i] <= 57,
{
    lemma_decimal_len(n, 20);
    lemma_decimal_digits(n);
    reveal_with_fuel(pow10, 21);
}

proof fn lemma_decimal_digits(n: nat)
    ensures
        1 <= decimal(n).len(),
        forall|i: int| 0 <= i < decimal(n).len() ==> 48 <= #[trigger] decimal(n)[i] <= 57,
    decreases n,
{
    if n >= 10 {
        lemma_decimal_digits(n / 10);
    }
}

/// The power of 10 with exponent `k`.
spec fn pow10(k: nat) -> nat
    decreases k,
{
    if k == 0 {
        1
    } else {
        10 * pow10((k - 1) as nat)
    }
}

proof fn lemma_decimal_len(n: nat, k: nat)
    requires
        k >= 1,
    ensures
        n < pow10(k) ==> decimal(n).len() <= k,
    decreases k,
{
    if n >= 10 && k > 1 {
        lemma_decimal_len(n / 10, (k - 1) as nat);
    }
    reveal_with_fuel(pow10, 2);
}

/// Appends the decimal numeral of `n` to `out`.
fn push_decimal(out: &mut Vec<u8>, n: usize)
    ensures
        final(out)@ == old(out)@ + decimal(n as nat),
    decreases n,
{
    if n >= 10 {
        push_decimal(out, n / 10);
    }
    out.push(48 + (n % 10) as u8);
}

/// Builds the header that git hashes in front of a commit of `len` bytes.
pub fn make_object_header(len: usize) -> (header: Vec<u8>)
    ensures
        header@ == object_header(len as nat),
        8 < header@.len() <= 28,
{
    let mut header: Vec<u8> = Vec::new();
    let mut i: usize = 0;
    while i < 7
        invariant
            i <= 7,
            header@ == OBJECT_KIND@.subrange(0, i as int),
        decreases 7 - i,
    {
        header.push(OBJECT_KIND[i]);
        i += 1;
    }
    proof {
        assert(header@ =~= OBJECT_KIND@);
        lemma_decimal(len as nat);
    }
    push_decimal(&mut header, len);
    header.push(0);
    header
}

/// The SHA-1 digest of `data`, computed in one pass.
pub fn digest(data: &[u8]) -> (digest: [u8; 20])
    requires
        data@.len() <= MAX_HASHED_LEN,
    ensures
        digest@ == sha1_digest(data@),
{
    let mut state = sha1_start();
    sha1_update(&mut state, data);
    proof {
        assert(Seq::<u8>::empty() + data@ =~= data@);
    }
    sha1_finish(state)
}

/// The canonical identifier of a commit record: the SHA-1 digest of its header
/// followed by the record itself.
pub fn object_digest(record: &[u8]) -> (digest: [u8; 20])
    requires
        record@.len() <= MAX_RECORD_LEN,
    ensures
        digest@ == object_id(record@),
{
    let header = make_object_header(record.len());
    let mut state = sha1_start();
    sha1_update(&mut state, header.as_slice());
    sha1_update(&mut state, record);
    proof {
        assert(Seq::<u8>::empty() + header@ + record@ =~= framed(record@));
    }
    sha1_finish(state)
}

/// A SHA-1 computation stopped after a prefix, from which the digest of the prefix
/// followed by any suffix is had without hashing the prefix again.
pub struct PrefixCache {
    state: Sha1State,
}

impl PrefixCache {
    /// The prefix that the cache has hashed.
    pub closed spec fn prefix(self) -> Seq<u8> {
        absorbed(self.state)
    }

    /// Hashes `prefix` once and keeps the state.
    pub fn new(prefix: &[u8]) -> (cache: PrefixCache)
        requires
            prefix@.len() <= MAX_HASHED_LEN,
        ensures
            cache.prefix() == prefix@,
    {
        let mut state = sha1_start();
        sha1_update(&mut state, prefix);
        proof {
            assert(Seq::<u8>::empty() + prefix@ =~= prefix@);
        }
        PrefixCache { state }
    }

    /// The digest of the cached prefix followed by `suffix`: the digest that one pass
    /// over the joined bytes gives. The cache is left as it was.
    pub fn digest_with(&self, suffix: &[u8]) -> (digest: [u8; 20])
        requires
            self.prefix().len() + suffix@.len() <= MAX_HASHED_LEN,
        ensures
            digest@ == sha1_digest(self.prefix() + suffix@),
    {
        let mut state = sha1_fork(&self.state);
        sha1_update(&mut state, suffix);
        sha1_finish(state)
    }
}

} // verus!
