//! The nonce codec: a 128-bit value written as 32 symbols of a 16-symbol alphabet.

use crate::error::MineError;
use vstd::arithmetic::div_mod::{lemma_div_denominator, lemma_mod_breakdown, lemma_small_mod};
use vstd::prelude::*;

verus! {

/// Number of symbols in an encoded nonce.
pub const NONCE_LENGTH: usize = 32;

/// The symbol that stands for digit zero, `A`; the alphabet runs from it to `P`.
pub const FIRST_SYMBOL: u8 = 65;

/// Whether a byte is one of the 16 symbols of the alphabet.
pub open spec fn is_symbol(b: u8) -> bool {
    FIRST_SYMBOL <= b < FIRST_SYMBOL + 16
}

/// Whether every byte of `s` is a symbol of the alphabet.
pub open spec fn all_symbols(s: Seq<u8>) -> bool {
    forall|i: int| 0 <= i < s.len() ==> is_symbol(#[trigger] s[i])
}

/// Whether `s` can fill a nonce field: exactly 32 symbols of the alphabet.
pub open spec fn is_nonce_text(s: Seq<u8>) -> bool {
    s.len() == NONCE_LENGTH && all_symbols(s)
}

/// The symbol for a base-16 digit.
pub open spec fn symbol_of(digit: nat) -> u8 {
    (FIRST_SYMBOL + digit) as u8
}

/// The base-16 digit that a symbol stands for.
pub open spec fn digit_of(symbol: u8) -> nat {
    (symbol - FIRST_SYMBOL) as nat
}

/// The `n` least significant base-16 digits of `v` as symbols, most significant first.
pub open spec fn digit_symbols(v: nat, n: nat) -> Seq<u8>
    decreases n,
{
    if n == 0 {
        Seq::empty()
    } else {
        digit_symbols(v / 16, (n - 1) as nat).push(symbol_of(v % 16))
    }
}

/// The encoding of a nonce: its 32 base-16 digits as symbols, most significant first.
pub open spec fn nonce_symbols(v: nat) -> Seq<u8> {
    digit_symbols(v, NONCE_LENGTH as nat)
}

/// The number that a string of symbols spells in base 16, most significant first.
pub open spec fn symbols_value(s: Seq<u8>) -> nat
    decreases s.len(),
{
    if s.len() == 0 {
        0
    } else {
        16 * symbols_value(s.drop_last()) + digit_of(s.last())
    }
}

/// The power of 16 with exponent `n`.
pub open spec fn pow16(n: nat) -> nat
    decreases n,
{
    if n == 0 {
        1
    } else {
        16 * pow16((n - 1) as nat)
    }
}

/// Size of the nonce domain, 16 to the power 32.
pub open spec fn nonce_domain() -> nat {
    0x1_0000_0000_0000_0000_0000_0000_0000_0000nat
}

proof fn lemma_pow16_positive(n: nat)
    ensures
        pow16(n) > 0,
    decreases n,
{
    if n > 0 {
        lemma_pow16_positive((n - 1) as nat);
    }
}

/// The nonce domain is what 32 base-16 digits can spell.
pub proof fn lemma_nonce_domain()
    ensures
        pow16(NONCE_LENGTH as nat) == nonce_domain(),
{
    reveal_with_fuel(pow16, 33);
}

/// An encoding of `n` digits has `n` symbols, all of the alphabet, and the symbol `k`
/// places from its end is the digit of weight `16^k`.
pub proof fn lemma_digit_symbols(v: nat, n: nat)
    ensures
        digit_symbols(v, n).len() == n,
        all_symbols(digit_symbols(v, n)),
        forall|k: nat|
            k < n ==> #[trigger] digit_symbols(v, n)[n - 1 - k] == symbol_of((v / pow16(k)) % 16),
    decreases n,
{
    if n > 0 {
        let m = (n - 1) as nat;
        lemma_digit_symbols(v / 16, m);
        let inner = digit_symbols(v / 16, m);
        let s = digit_symbols(v, n);
        assert(s == inner.push(symbol_of(v % 16)));
        assert forall|i: int| 0 <= i < s.len() implies is_symbol(#[trigger] s[i]) by {
            if i < m {
                assert(s[i] == inner[i]);
            }
        }
        assert forall|k: nat| k < n implies #[trigger] s[n - 1 - k] == symbol_of(
            (v / pow16(k)) % 16,
        ) by {
            if k > 0 {
                let j = (k - 1) as nat;
                assert(s[n - 1 - k] == inner[m - 1 - j]);
                lemma_pow16_positive(j);
                lemma_div_denominator(v as int, 16, pow16(j) as int);
                assert((v / 16) / pow16(j) == v / pow16(k));
            } else {
                assert(pow16(0) == 1);
                assert(v / pow16(0) == v);
            }
        }
    }
}

/// Reading an encoding of `n` digits back gives the value modulo `16^n`.
pub proof fn lemma_value_of_digit_symbols(v: nat, n: nat)
    ensures
        symbols_value(digit_symbols(v, n)) == v % pow16(n),
    decreases n,
{
    if n > 0 {
        let m = (n - 1) as nat;
        let inner = digit_symbols(v / 16, m);
        let s = digit_symbols(v, n);
        lemma_value_of_digit_symbols(v / 16, m);
        assert(s.drop_last() =~= inner);
        assert(digit_of(s.last()) == v % 16);
        lemma_pow16_positive(m);
        lemma_mod_breakdown(v as int, 16, pow16(m) as int);
    }
}

/// Decoding undoes encoding on the whole nonce domain.
pub proof fn lemma_decode_encode(v: nat)
    requires
        v < nonce_domain(),
    ensures
        is_nonce_text(nonce_symbols(v)),
        symbols_value(nonce_symbols(v)) == v,
{
    lemma_nonce_domain();
    lemma_digit_symbols(v, NONCE_LENGTH as nat);
    lemma_value_of_digit_symbols(v, NONCE_LENGTH as nat);
    lemma_small_mod(v, pow16(NONCE_LENGTH as nat));
}

/// The codec is injective on the nonce domain: two values with the same encoding are
/// the same value, so distinct values have distinct encodings.
pub proof fn lemma_encode_injective(a: nat, b: nat)
    requires
        a < nonce_domain(),
        b < nonce_domain(),
        nonce_symbols(a) == nonce_symbols(b),
    ensures
        a == b,
{
    lemma_decode_encode(a);
    lemma_decode_encode(b);
}

/// A prefix of a string of symbols spells no more than the whole string.
pub proof fn lemma_symbols_value_prefix(s: Seq<u8>, n: int)
    requires
        0 <= n <= s.len(),
    ensures
        symbols_value(s.take(n)) <= symbols_value(s),
    decreases s.len() - n,
{
    if n == s.len() {
        assert(s.take(n) =~= s);
    } else {
        lemma_symbols_value_prefix(s, n + 1);
        let longer = s.take(n + 1);
        assert(longer.drop_last() =~= s.take(n));
    }
}

/// Encodes a nonce as 32 symbols, most significant digit first.
pub fn encode_nonce(val: u128) -> (symbols: [u8; 32])
    ensures
        symbols@ == nonce_symbols(val as nat),
        is_nonce_text(symbols@),
{
    let mut symbols: [u8; 32] = [FIRST_SYMBOL;32];
    let mut rest: u128 = val;
    let mut i: usize = 0;
    proof {
        assert(pow16(0) == 1);
    }
    while i < NONCE_LENGTH
        invariant
            i <= NONCE_LENGTH,
            rest == val as nat / pow16(i as nat),
            forall|k: nat|
                k < i ==> #[trigger] symbols@[NONCE_LENGTH - 1 - k] == symbol_of(
                    (val as nat / pow16(k)) % 16,
                ),
        decreases NONCE_LENGTH - i,
    {
        let digit: u8 = (rest % 16) as u8;
        symbols[NONCE_LENGTH - 1 - i] = FIRST_SYMBOL + digit;
        proof {
            lemma_pow16_positive(i as nat);
            lemma_div_denominator(val as int, pow16(i as nat) as int, 16);
            assert(pow16((i + 1) as nat) == 16 * pow16(i as nat));
            assert(pow16(i as nat) * 16 == 16 * pow16(i as nat));
        }
        rest = rest / 16;
        i += 1;
    }
    proof {
        lemma_digit_symbols(val as nat, NONCE_LENGTH as nat);
        let want = nonce_symbols(val as nat);
        assert forall|j: int| 0 <= j < 32 implies symbols@[j] == want[j] by {
            let k = (31 - j) as nat;
            assert(symbols@[NONCE_LENGTH - 1 - k] == symbol_of((val as nat / pow16(k)) % 16));
            assert(want[NONCE_LENGTH - 1 - k] == symbol_of((val as nat / pow16(k)) % 16));
        }
        assert(symbols@ =~= want);
    }
    symbols
}

/// What `decode_nonce` returns for a string of bytes.
pub open spec fn decoded(s: Seq<u8>) -> Result<u128, MineError> {
    if !all_symbols(s) {
        Err(MineError::MalformedCommitEncoding)
    } else if symbols_value(s) >= nonce_domain() {
        Err(MineError::EncodingOverflow)
    } else {
        Ok(symbols_value(s) as u128)
    }
}

/// Reads a string of symbols as a number in base 16, most significant digit first.
///
/// A byte outside the alphabet is rejected as malformed text. A string that spells a
/// number outside the 128-bit domain is rejected as an overflow, never truncated.
pub fn decode_nonce(symbols: &[u8]) -> (value: Result<u128, MineError>)
    ensures
        value == decoded(symbols@),
{
    let mut i: usize = 0;
    while i < symbols.len()
        invariant
            i <= symbols@.len(),
            forall|j: int| 0 <= j < i ==> is_symbol(#[trigger] symbols@[j]),
        decreases symbols@.len() - i,
    {
        let b: u8 = symbols[i];
        if b < FIRST_SYMBOL || b >= FIRST_SYMBOL + 16 {
            return Err(MineError::MalformedCommitEncoding);
        }
        i += 1;
    }
    let mut acc: u128 = 0;
    let mut n: usize = 0;
    proof {
        assert(symbols@.take(0) =~= Seq::<u8>::empty());
    }
    while n < symbols.len()
        invariant
            n <= symbols@.len(),
            all_symbols(symbols@),
            acc == symbols_value(symbols@.take(n as int)),
        decreases symbols@.len() - n,
    {
        let digit: u128 = (symbols[n] - FIRST_SYMBOL) as u128;
        proof {
            let longer = symbols@.take(n + 1);
            assert(longer.drop_last() =~= symbols@.take(n as int));
            assert(longer.last() == symbols@[n as int]);
            lemma_symbols_value_prefix(symbols@, n + 1);
        }
        if acc > (u128::MAX - digit) / 16 {
            return Err(MineError::EncodingOverflow);
        }
        acc = acc * 16 + digit;
        n += 1;
    }
    proof {
        assert(symbols@.take(n as int) =~= symbols@);
    }
    Ok(acc)
}

} // verus!
