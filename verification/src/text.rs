//! Searching and editing byte strings.

use vstd::prelude::*;
use vstd::utf8::{
    is_char_boundary_iff_not_is_continuation_byte, partial_valid_utf8,
    partial_valid_utf8_extend_ascii_block, valid_utf8, valid_utf8_concat, valid_utf8_split,
};

verus! {

/// Whether every byte of `s` is an ASCII character.
pub open spec fn is_ascii_bytes(s: Seq<u8>) -> bool {
    forall|i: int| 0 <= i < s.len() ==> #[trigger] s[i] < 0x80
}

/// Whether `needle` stands in `hay` at index `i`.
pub open spec fn occurs_at(hay: Seq<u8>, needle: Seq<u8>, i: int) -> bool {
    &&& 0 <= i
    &&& i + needle.len() <= hay.len()
    &&& forall|k: int| 0 <= k < needle.len() ==> hay[i + k] == #[trigger] needle[k]
}

/// Index of the first place at or after `from` where `needle` stands in `hay`.
pub open spec fn first_occurrence(hay: Seq<u8>, needle: Seq<u8>, from: int) -> Option<int>
    decreases hay.len() - from,
{
    if from < 0 || from + needle.len() > hay.len() {
        None
    } else if occurs_at(hay, needle, from) {
        Some(from)
    } else {
        first_occurrence(hay, needle, from + 1)
    }
}

/// `hay` with the bytes from `at` up to `end` replaced by `mid`.
pub open spec fn splice(hay: Seq<u8>, at: int, end: int, mid: Seq<u8>) -> Seq<u8> {
    hay.subrange(0, at) + mid + hay.subrange(end, hay.len() as int)
}

/// What `first_occurrence` finds is an occurrence, and no occurrence lies between
/// `from` and it; where it finds nothing, there is no occurrence from `from` on.
pub proof fn lemma_first_occurrence(hay: Seq<u8>, needle: Seq<u8>, from: int)
    requires
        0 <= from,
    ensures
        match first_occurrence(hay, needle, from) {
            Some(i) => {
                &&& from <= i
                &&& occurs_at(hay, needle, i)
                &&& forall|j: int| from <= j < i ==> !occurs_at(hay, needle, j)
            },
            None => forall|j: int| from <= j ==> !occurs_at(hay, needle, j),
        },
    decreases hay.len() - from,
{
    if from + needle.len() > hay.len() {
    } else if occurs_at(hay, needle, from) {
    } else {
        lemma_first_occurrence(hay, needle, from + 1);
    }
}

/// An occurrence with none between `from` and it is what `first_occurrence` finds.
pub proof fn lemma_first_occurrence_is(hay: Seq<u8>, needle: Seq<u8>, from: int, i: int)
    requires
        0 <= from <= i,
        occurs_at(hay, needle, i),
        forall|j: int| from <= j < i ==> !occurs_at(hay, needle, j),
    ensures
        first_occurrence(hay, needle, from) == Some(i),
    decreases i - from,
{
    if from < i {
        lemma_first_occurrence_is(hay, needle, from + 1, i);
    }
}

/// Where nothing occurs from `from` on, `first_occurrence` finds nothing.
pub proof fn lemma_first_occurrence_none(hay: Seq<u8>, needle: Seq<u8>, from: int)
    requires
        forall|j: int| from <= j ==> !occurs_at(hay, needle, j),
    ensures
        first_occurrence(hay, needle, from) is None,
    decreases hay.len() - from,
{
    if from < 0 || from + needle.len() > hay.len() {
    } else {
        lemma_first_occurrence_none(hay, needle, from + 1);
    }
}

/// A string of ASCII bytes is valid UTF-8.
pub proof fn lemma_ascii_is_valid(s: Seq<u8>)
    requires
        is_ascii_bytes(s),
    ensures
        valid_utf8(s),
{
    assert(s.subrange(0, 0) =~= Seq::<u8>::empty());
    assert(partial_valid_utf8(s, 0));
    partial_valid_utf8_extend_ascii_block(s, 0, s.len() as int);
    assert(s.subrange(0, s.len() as int) =~= s);
}

/// Valid UTF-8 can be cut in front of an ASCII byte and behind it: all four pieces are
/// valid UTF-8.
pub proof fn lemma_cut_at_ascii(s: Seq<u8>, i: int)
    requires
        valid_utf8(s),
        0 <= i < s.len(),
        s[i] < 0x80,
    ensures
        valid_utf8(s.subrange(0, i)),
        valid_utf8(s.subrange(i, s.len() as int)),
        valid_utf8(s.subrange(0, i + 1)),
        valid_utf8(s.subrange(i + 1, s.len() as int)),
{
    is_char_boundary_iff_not_is_continuation_byte(s, i);
    valid_utf8_split(s, i);
    let head = s.subrange(0, i);
    let tail = s.subrange(i, s.len() as int);
    let one = seq![s[i]];
    lemma_ascii_is_valid(one);
    valid_utf8_concat(head, one);
    assert(head + one =~= s.subrange(0, i + 1));
    assert(tail[0] == s[i]);
    assert(tail.subrange(1, tail.len() as int) =~= s.subrange(i + 1, s.len() as int));
}

/// Replacing a stretch of valid UTF-8 by ASCII bytes keeps it valid, where what stays
/// in front of the stretch and behind it is valid.
pub proof fn lemma_splice_valid(hay: Seq<u8>, at: int, end: int, mid: Seq<u8>)
    requires
        0 <= at <= end <= hay.len(),
        valid_utf8(hay.subrange(0, at)),
        valid_utf8(hay.subrange(end, hay.len() as int)),
        is_ascii_bytes(mid),
    ensures
        valid_utf8(splice(hay, at, end, mid)),
        valid_utf8(hay.subrange(0, at) + mid),
{
    lemma_ascii_is_valid(mid);
    valid_utf8_concat(hay.subrange(0, at), mid);
    valid_utf8_concat(hay.subrange(0, at) + mid, hay.subrange(end, hay.len() as int));
}

/// Tells whether `needle` stands in `hay` at index `i`.
pub fn matches_at(hay: &[u8], needle: &[u8], i: usize) -> (found: bool)
    ensures
        found == occurs_at(hay@, needle@, i as int),
{
    if needle.len() > hay.len() || i > hay.len() - needle.len() {
        return false;
    }
    let mut k: usize = 0;
    while k < needle.len()
        invariant
            k <= needle@.len(),
            i + needle@.len() <= hay@.len() <= usize::MAX,
            forall|n: int| 0 <= n < k ==> hay@[i + n] == #[trigger] needle@[n],
        decreases needle@.len() - k,
    {
        if hay[i + k] != needle[k] {
            return false;
        }
        k += 1;
    }
    true
}

/// Finds the first place at or after `from` where `needle` stands in `hay`.
pub fn find(hay: &[u8], needle: &[u8], from: usize) -> (found: Option<usize>)
    ensures
        match found {
            Some(i) => first_occurrence(hay@, needle@, from as int) == Some(i as int),
            None => first_occurrence(hay@, needle@, from as int) is None,
        },
{
    if needle.len() > hay.len() || from > hay.len() - needle.len() {
        return None;
    }
    let last: usize = hay.len() - needle.len();
    let mut i: usize = from;
    loop
        invariant
            from <= i <= last,
            last == hay@.len() - needle@.len(),
            first_occurrence(hay@, needle@, from as int) == first_occurrence(
                hay@,
                needle@,
                i as int,
            ),
        decreases last - i,
    {
        if matches_at(hay, needle, i) {
            return Some(i);
        }
        if i == last {
            proof {
                assert(first_occurrence(hay@, needle@, i + 1) is None);
            }
            return None;
        }
        i += 1;
    }
}

/// Builds `hay` with the bytes from `at` up to `end` replaced by `mid`.
pub fn spliced(hay: &[u8], at: usize, end: usize, mid: &[u8]) -> (out: Vec<u8>)
    requires
        at <= end <= hay@.len(),
    ensures
        out@ == splice(hay@, at as int, end as int, mid@),
{
    let mut out: Vec<u8> = Vec::new();
    let mut i: usize = 0;
    while i < at
        invariant
            i <= at <= hay@.len(),
            out@ == hay@.subrange(0, i as int),
        decreases at - i,
    {
        out.push(hay[i]);
        i += 1;
    }
    let mut k: usize = 0;
    while k < mid.len()
        invariant
            k <= mid@.len(),
            out@ == hay@.subrange(0, at as int) + mid@.subrange(0, k as int),
        decreases mid@.len() - k,
    {
        out.push(mid[k]);
        k += 1;
    }
    let mut j: usize = end;
    proof {
        assert(mid@.subrange(0, k as int) =~= mid@);
    }
    while j < hay.len()
        invariant
            end <= j <= hay@.len(),
            out@ == hay@.subrange(0, at as int) + mid@ + hay@.subrange(end as int, j as int),
        decreases hay@.len() - j,
    {
        out.push(hay[j]);
        j += 1;
    }
    out
}

} // verus!
