//! Laws of the nonce placement: parsing what parsing made changes nothing, a new
//! trailer is the only one among the metadata, and a signed commit changes only
//! between the opening line and the closing line of its signature.

use crate::commit::{
    field_value, initial_nonce, insertion_point, is_field_pair, is_signed, keep_or_reset,
    lemma_initial_nonce, lemma_line_end, lemma_place, lemma_window_cuts, line_end, parse, place,
    signature_end, with_new_field, CommitView, ARMOR_BEGIN, ARMOR_END, ARMOR_FIELD, BLANK_LINE,
    CONTINUATION, MAX_COMMIT_LEN, NEWLINE, TRAILER_FIELD,
};
use crate::hasher::MAX_RECORD_LEN;
use crate::nonce::{is_nonce_text, is_symbol, NONCE_LENGTH};
use crate::text::{
    first_occurrence, lemma_first_occurrence, lemma_first_occurrence_is,
    lemma_first_occurrence_none, lemma_splice_valid, occurs_at, splice,
};
use vstd::prelude::*;
use vstd::utf8::valid_utf8;

verus! {

/// Where the bytes of a spliced string come from.
proof fn lemma_splice(s: Seq<u8>, a: int, b: int, mid: Seq<u8>)
    requires
        0 <= a <= b <= s.len(),
    ensures
        splice(s, a, b, mid).len() == s.len() - (b - a) + mid.len(),
        forall|j: int| 0 <= j < a ==> #[trigger] splice(s, a, b, mid)[j] == s[j],
        forall|j: int|
            a <= j < a + mid.len() ==> #[trigger] splice(s, a, b, mid)[j] == mid[j - a],
        forall|j: int|
            a + mid.len() <= j < splice(s, a, b, mid).len() ==> #[trigger] splice(s, a, b, mid)[j]
                == s[j - mid.len() + (b - a)],
{
}

/// An occurrence in a stretch on which two strings agree is an occurrence in both.
proof fn lemma_occurs_in_prefix(s: Seq<u8>, r: Seq<u8>, pat: Seq<u8>, i: int, n: int)
    requires
        0 <= i,
        i + pat.len() <= n,
        n <= s.len(),
        n <= r.len(),
        forall|j: int| 0 <= j < n ==> #[trigger] r[j] == s[j],
    ensures
        occurs_at(r, pat, i) == occurs_at(s, pat, i),
{
    if occurs_at(s, pat, i) {
        assert forall|k: int| 0 <= k < pat.len() implies r[i + k] == #[trigger] pat[k] by {
            assert(r[i + k] == s[i + k]);
        }
    }
    if occurs_at(r, pat, i) {
        assert forall|k: int| 0 <= k < pat.len() implies s[i + k] == #[trigger] pat[k] by {
            assert(r[i + k] == s[i + k]);
        }
    }
}

/// An occurrence in the tail of a string is an occurrence in the tail of the string
/// that it was shifted from.
proof fn lemma_occurs_in_suffix(s: Seq<u8>, r: Seq<u8>, pat: Seq<u8>, i: int, n: int, t: int)
    requires
        0 <= n <= i,
        0 <= n - t,
        r.len() == s.len() + t,
        forall|j: int| n <= j < r.len() ==> #[trigger] r[j] == s[j - t],
    ensures
        occurs_at(r, pat, i) == occurs_at(s, pat, i - t),
{
    if occurs_at(s, pat, i - t) {
        assert forall|k: int| 0 <= k < pat.len() implies r[i + k] == #[trigger] pat[k] by {
            assert(r[i + k] == s[i + k - t]);
        }
    }
    if occurs_at(r, pat, i) {
        assert forall|k: int| 0 <= k < pat.len() implies s[i - t + k] == #[trigger] pat[k] by {
            assert(r[i + k] == s[i + k - t]);
        }
    }
}

/// What a record `r` looks like around a nonce field that placement made or reset in
/// the input `s`, in front of the place `limit` of the input.
///
/// A line break stands at `c`. The field's name follows, then 32 symbols, then a line
/// break again. In front of `c` the record is the input, where a line break stood at
/// `c` too and the name did not occur from `from` on. Behind the field the record is
/// the input, moved by the width of the field where the field is new and by no more
/// than a nonce where it is not, and `limit` has moved with it. What the field's line
/// held in the input had no line break.
spec fn settled(s: Seq<u8>, r: Seq<u8>, from: int, field: Seq<u8>, c: int, limit: int) -> bool {
    let width = field.len() + NONCE_LENGTH;
    let shift = r.len() - s.len();
    &&& 0 <= from <= c
    &&& limit <= s.len()
    &&& (shift == width || shift <= NONCE_LENGTH)
    &&& c + width <= limit + shift
    &&& c + width < r.len()
    &&& r[c] == 10
    &&& s[c] == 10
    &&& r[c + width] == 10
    &&& forall|j: int| 0 <= j < c ==> #[trigger] r[j] == s[j]
    &&& forall|j: int| c + width <= j < r.len() ==> #[trigger] r[j] == s[j - shift]
    &&& forall|k: int| 0 <= k < field.len() ==> r[c + k] == #[trigger] field[k]
    &&& forall|j: int| c + field.len() <= j < c + width ==> is_symbol(#[trigger] r[j])
    &&& forall|j: int| from <= j < c ==> !occurs_at(s, field, j)
    &&& forall|j: int| c < j < c + width - shift ==> #[trigger] s[j] != 10
}

/// No line break stands inside a settled field, and the field with the line break
/// behind it lies in the record.
proof fn lemma_settled_line(
    s: Seq<u8>,
    r: Seq<u8>,
    from: int,
    stop: Seq<u8>,
    field: Seq<u8>,
    c: int,
    limit: int,
)
    requires
        is_field_pair(stop, field),
        settled(s, r, from, field, c, limit),
    ensures
        forall|j: int| c < j < c + field.len() + NONCE_LENGTH ==> #[trigger] r[j] != 10,
        c + field.len() + NONCE_LENGTH < r.len(),
        c <= limit,
        r.len() - s.len() <= field.len() + NONCE_LENGTH,
{
    assert forall|j: int| c < j < c + field.len() + NONCE_LENGTH implies #[trigger] r[j] != 10 by {
        if j < c + field.len() {
            assert(r[c + (j - c)] == field[j - c]);
        } else {
            assert(is_symbol(r[j]));
        }
    }
}

/// A new field settles the record.
proof fn lemma_new_field_settled(
    s: Seq<u8>,
    from: int,
    limit: int,
    stop: Seq<u8>,
    field: Seq<u8>,
    p: int,
)
    requires
        0 <= from <= p <= limit <= s.len(),
        is_field_pair(stop, field),
        occurs_at(s, stop, p),
        forall|j: int| from <= j < p ==> !occurs_at(s, field, j),
    ensures
        settled(s, with_new_field(s, p, field).record, from, field, p, limit),
{
    let mid = field + initial_nonce();
    let r = with_new_field(s, p, field).record;
    lemma_splice(s, p, p, mid);
    lemma_initial_nonce();
    assert(s[p + 0] == stop[0]);
    assert forall|k: int| 0 <= k < field.len() implies r[p + k] == #[trigger] field[k] by {
        assert(r[p + k] == mid[k]);
    }
    assert(r[p] == mid[0]);
    assert forall|j: int| p + field.len() <= j < p + field.len() + NONCE_LENGTH implies is_symbol(
        #[trigger] r[j],
    ) by {
        assert(r[j] == mid[j - p]);
        assert(mid[j - p] == initial_nonce()[j - p - field.len()]);
    }
}

/// A field that is kept or reset settles the record.
proof fn lemma_old_field_settled(
    s: Seq<u8>,
    from: int,
    limit: int,
    stop: Seq<u8>,
    field: Seq<u8>,
    q: int,
)
    requires
        0 <= from <= q,
        limit <= s.len(),
        is_field_pair(stop, field),
        occurs_at(s, field, q),
        forall|j: int| from <= j < q ==> !occurs_at(s, field, j),
        line_end(s, q + field.len()) <= limit,
        line_end(s, q + field.len()) < s.len(),
    ensures
        settled(s, keep_or_reset(s, q + field.len()).record, from, field, q, limit),
        keep_or_reset(s, q + field.len()).nonce_offset == q + field.len(),
{
    let start = q + field.len();
    let r = keep_or_reset(s, start).record;
    lemma_initial_nonce();
    lemma_line_end(s, start);
    let end = line_end(s, start);
    assert(s[q + 0] == field[0]);
    assert forall|j: int| q < j < end implies #[trigger] s[j] != 10 by {
        if j < start {
            assert(s[q + (j - q)] == field[j - q]);
        }
    }
    if is_nonce_text(s.subrange(start, end)) {
        assert forall|j: int| start <= j < start + NONCE_LENGTH implies is_symbol(
            #[trigger] r[j],
        ) by {
            assert(r[j] == s.subrange(start, end)[j - start]);
        }
    } else {
        lemma_splice(s, start, end, initial_nonce());
        assert forall|j: int| start <= j < start + NONCE_LENGTH implies is_symbol(
            #[trigger] r[j],
        ) by {
            assert(r[j] == initial_nonce()[j - start]);
        }
    }
}

/// Where a new field goes, the field's name did not occur before.
proof fn lemma_no_field_before(
    s: Seq<u8>,
    from: int,
    limit: int,
    stop: Seq<u8>,
    field: Seq<u8>,
)
    requires
        0 <= from,
        is_field_pair(stop, field),
        field_value(s, from, limit, field) is None,
        insertion_point(s, from, limit, stop) is Some,
    ensures
        forall|j: int|
            from <= j < insertion_point(s, from, limit, stop).unwrap() ==> !occurs_at(s, field, j),
{
    let p = insertion_point(s, from, limit, stop).unwrap();
    lemma_first_occurrence(s, stop, from);
    lemma_first_occurrence(s, field, from);
    assert(s[p + 0] == stop[0]);
    if first_occurrence(s, field, from) is Some {
        let q = first_occurrence(s, field, from).unwrap();
        if q < p {
            let start = q + field.len();
            if p < start {
                assert(s[q + (p - q)] == field[p - q]);
            }
            lemma_line_end(s, start);
            if p < line_end(s, start) {
                assert(s[p] != 10);
            }
        }
    }
}

/// What placement yields is settled.
proof fn lemma_place_settled(s: Seq<u8>, from: int, limit: int, stop: Seq<u8>, field: Seq<u8>)
    requires
        0 <= from,
        limit <= s.len(),
        is_field_pair(stop, field),
        place(s, from, limit, stop, field) is Some,
    ensures
        settled(
            s,
            place(s, from, limit, stop, field).unwrap().record,
            from,
            field,
            place(s, from, limit, stop, field).unwrap().nonce_offset - field.len(),
            limit,
        ),
{
    lemma_first_occurrence(s, stop, from);
    lemma_first_occurrence(s, field, from);
    match field_value(s, from, limit, field) {
        Some(start) => {
            lemma_old_field_settled(s, from, limit, stop, field, start - field.len());
        },
        None => {
            let p = insertion_point(s, from, limit, stop).unwrap();
            lemma_no_field_before(s, from, limit, stop, field);
            lemma_new_field_settled(s, from, limit, stop, field, p);
        },
    }
}

/// In a settled record the field's name first occurs at the field.
proof fn lemma_name_first(
    s: Seq<u8>,
    r: Seq<u8>,
    from: int,
    stop: Seq<u8>,
    field: Seq<u8>,
    c: int,
    limit: int,
)
    requires
        is_field_pair(stop, field),
        settled(s, r, from, field, c, limit),
    ensures
        first_occurrence(r, field, from) == Some(c),
{
    lemma_settled_line(s, r, from, stop, field, c, limit);
    assert forall|j: int| from <= j < c implies !occurs_at(r, field, j) by {
        if occurs_at(r, field, j) {
            if j + field.len() <= c {
                lemma_occurs_in_prefix(s, r, field, j, c);
            } else {
                assert(r[j + (c - j)] == field[c - j]);
            }
        }
    }
    lemma_first_occurrence_is(r, field, from, c);
}

/// In a settled record a marker of two bytes that opens with a line break, and that
/// stood at `limit` in the input and nowhere in front of it, does not occur in front
/// of the place to which `limit` moved.
proof fn lemma_marker_not_before(
    s: Seq<u8>,
    r: Seq<u8>,
    from: int,
    stop: Seq<u8>,
    field: Seq<u8>,
    c: int,
    limit: int,
    j: int,
)
    requires
        is_field_pair(stop, field),
        settled(s, r, from, field, c, limit),
        forall|i: int| from <= i < limit ==> !occurs_at(s, stop, i),
        from <= j < limit + (r.len() - s.len()),
    ensures
        !occurs_at(r, stop, j),
{
    let width = field.len() + NONCE_LENGTH;
    let shift = r.len() - s.len();
    lemma_settled_line(s, r, from, stop, field, c, limit);
    if occurs_at(r, stop, j) {
        assert(r[j + 0] == stop[0]);
        assert(r[j + 1] == stop[1]);
        if j + 2 <= c {
            lemma_occurs_in_prefix(s, r, stop, j, c);
        } else if j + 1 == c {
            assert(r[j] == s[j]);
            assert(occurs_at(s, stop, j)) by {
                assert forall|k: int| 0 <= k < stop.len() implies s[j + k]
                    == #[trigger] stop[k] by {
                    if k == 1 {
                    }
                }
            }
        } else if j == c {
            assert(r[c + 1] == field[1]);
        } else if j < c + width {
            assert(r[j] == 10);
        } else {
            lemma_occurs_in_suffix(s, r, stop, j, c + width, shift);
        }
    }
}

/// In a settled record such a marker first occurs where `limit` moved to.
proof fn lemma_marker_first(
    s: Seq<u8>,
    r: Seq<u8>,
    from: int,
    stop: Seq<u8>,
    field: Seq<u8>,
    c: int,
    limit: int,
)
    requires
        is_field_pair(stop, field),
        settled(s, r, from, field, c, limit),
        first_occurrence(s, stop, from) == Some(limit),
    ensures
        first_occurrence(r, stop, from) == Some(limit + (r.len() - s.len())),
{
    let width = field.len() + NONCE_LENGTH;
    let shift = r.len() - s.len();
    lemma_first_occurrence(s, stop, from);
    lemma_settled_line(s, r, from, stop, field, c, limit);
    lemma_occurs_in_suffix(s, r, stop, limit + shift, c + width, shift);
    assert forall|j: int| from <= j < limit + shift implies !occurs_at(r, stop, j) by {
        lemma_marker_not_before(s, r, from, stop, field, c, limit, j);
    }
    lemma_first_occurrence_is(r, stop, from, limit + shift);
}

/// A value of 32 symbols with a line break behind it ends at that line break and is
/// kept as it is.
proof fn lemma_value_kept(r: Seq<u8>, start: int)
    requires
        0 <= start,
        start + NONCE_LENGTH < r.len(),
        forall|j: int| start <= j < start + NONCE_LENGTH ==> is_symbol(#[trigger] r[j]),
        r[start + NONCE_LENGTH] == 10,
    ensures
        line_end(r, start) == start + NONCE_LENGTH,
        keep_or_reset(r, start) == (CommitView { record: r, nonce_offset: start }),
{
    assert forall|j: int| start <= j < start + NONCE_LENGTH implies !occurs_at(r, NEWLINE@, j) by {
        if occurs_at(r, NEWLINE@, j) {
            assert(r[j + 0] == NEWLINE@[0]);
            assert(is_symbol(r[j]));
        }
    }
    assert(occurs_at(r, NEWLINE@, start + NONCE_LENGTH));
    lemma_first_occurrence_is(r, NEWLINE@, start, start + NONCE_LENGTH);
    let value = r.subrange(start, start + NONCE_LENGTH);
    assert forall|i: int| 0 <= i < value.len() implies is_symbol(#[trigger] value[i]) by {
        assert(value[i] == r[start + i]);
    }
}

/// Placement finds the field of a settled record and keeps it, wherever the limit lies
/// behind the field.
proof fn lemma_settled_places(
    s: Seq<u8>,
    r: Seq<u8>,
    from: int,
    moved: int,
    stop: Seq<u8>,
    field: Seq<u8>,
    c: int,
    limit: int,
)
    requires
        is_field_pair(stop, field),
        settled(s, r, from, field, c, limit),
        c + field.len() + NONCE_LENGTH <= moved,
    ensures
        place(r, from, moved, stop, field) == Some(
            CommitView { record: r, nonce_offset: c + field.len() },
        ),
{
    lemma_settled_line(s, r, from, stop, field, c, limit);
    lemma_name_first(s, r, from, stop, field, c, limit);
    lemma_value_kept(r, c + field.len());
}

/// Another nonce in the field of a settled record leaves the record settled.
proof fn lemma_rewrite_settled(
    s: Seq<u8>,
    v: CommitView,
    from: int,
    stop: Seq<u8>,
    field: Seq<u8>,
    limit: int,
    symbols: Seq<u8>,
)
    requires
        is_field_pair(stop, field),
        settled(s, v.record, from, field, v.nonce_offset - field.len(), limit),
        is_nonce_text(symbols),
    ensures
        settled(s, v.with_nonce(symbols).record, from, field, v.nonce_offset - field.len(), limit),
{
    let r = v.record;
    let w = v.with_nonce(symbols).record;
    let c = v.nonce_offset - field.len();
    lemma_settled_line(s, r, from, stop, field, c, limit);
    lemma_splice(r, v.nonce_offset, v.nonce_offset + NONCE_LENGTH, symbols);
    assert forall|k: int| 0 <= k < field.len() implies w[c + k] == #[trigger] field[k] by {
        assert(w[c + k] == r[c + k]);
    }
    assert forall|j: int| c + field.len() <= j < c + field.len() + NONCE_LENGTH implies is_symbol(
        #[trigger] w[j],
    ) by {
        assert(w[j] == symbols[j - v.nonce_offset]);
    }
}

/// The opening line of a signature holds no line break and begins with a hyphen.
proof fn lemma_armor_begin()
    ensures
        ARMOR_BEGIN@.len() == 29,
        ARMOR_BEGIN@[0] == 45,
        forall|k: int| 0 <= k < 29 ==> #[trigger] ARMOR_BEGIN@[k] != 10,
{
    assert forall|k: int| 0 <= k < 29 implies #[trigger] ARMOR_BEGIN@[k] != 10 by {
        if k < 8 {
            assert(ARMOR_BEGIN@[0] != 10 && ARMOR_BEGIN@[1] != 10 && ARMOR_BEGIN@[2] != 10
                && ARMOR_BEGIN@[3] != 10 && ARMOR_BEGIN@[4] != 10 && ARMOR_BEGIN@[5] != 10
                && ARMOR_BEGIN@[6] != 10 && ARMOR_BEGIN@[7] != 10);
        } else if k < 16 {
            assert(ARMOR_BEGIN@[8] != 10 && ARMOR_BEGIN@[9] != 10 && ARMOR_BEGIN@[10] != 10
                && ARMOR_BEGIN@[11] != 10 && ARMOR_BEGIN@[12] != 10 && ARMOR_BEGIN@[13] != 10
                && ARMOR_BEGIN@[14] != 10 && ARMOR_BEGIN@[15] != 10);
        } else if k < 24 {
            assert(ARMOR_BEGIN@[16] != 10 && ARMOR_BEGIN@[17] != 10 && ARMOR_BEGIN@[18] != 10
                && ARMOR_BEGIN@[19] != 10 && ARMOR_BEGIN@[20] != 10 && ARMOR_BEGIN@[21] != 10
                && ARMOR_BEGIN@[22] != 10 && ARMOR_BEGIN@[23] != 10);
        } else {
            assert(ARMOR_BEGIN@[24] != 10 && ARMOR_BEGIN@[25] != 10 && ARMOR_BEGIN@[26] != 10
                && ARMOR_BEGIN@[27] != 10 && ARMOR_BEGIN@[28] != 10);
        }
    }
}

/// The closing line of a signature holds no line break and begins with a hyphen.
proof fn lemma_armor_end()
    ensures
        ARMOR_END@.len() == 27,
        ARMOR_END@[0] == 45,
        forall|k: int| 0 <= k < 27 ==> #[trigger] ARMOR_END@[k] != 10,
{
    assert forall|k: int| 0 <= k < 27 implies #[trigger] ARMOR_END@[k] != 10 by {
        if k < 8 {
            assert(ARMOR_END@[0] != 10 && ARMOR_END@[1] != 10 && ARMOR_END@[2] != 10
                && ARMOR_END@[3] != 10 && ARMOR_END@[4] != 10 && ARMOR_END@[5] != 10
                && ARMOR_END@[6] != 10 && ARMOR_END@[7] != 10);
        } else if k < 16 {
            assert(ARMOR_END@[8] != 10 && ARMOR_END@[9] != 10 && ARMOR_END@[10] != 10
                && ARMOR_END@[11] != 10 && ARMOR_END@[12] != 10 && ARMOR_END@[13] != 10
                && ARMOR_END@[14] != 10 && ARMOR_END@[15] != 10);
        } else if k < 24 {
            assert(ARMOR_END@[16] != 10 && ARMOR_END@[17] != 10 && ARMOR_END@[18] != 10
                && ARMOR_END@[19] != 10 && ARMOR_END@[20] != 10 && ARMOR_END@[21] != 10
                && ARMOR_END@[22] != 10 && ARMOR_END@[23] != 10);
        } else {
            assert(ARMOR_END@[24] != 10 && ARMOR_END@[25] != 10 && ARMOR_END@[26] != 10);
        }
    }
}

/// The two markers and the two field names are what placement asks them to be, and
/// behind its line break neither name holds a hyphen.
proof fn lemma_field_pairs()
    ensures
        is_field_pair(BLANK_LINE@, TRAILER_FIELD@),
        is_field_pair(CONTINUATION@, ARMOR_FIELD@),
        forall|k: int| 1 <= k < TRAILER_FIELD@.len() ==> #[trigger] TRAILER_FIELD@[k] != 45,
        forall|k: int| 1 <= k < ARMOR_FIELD@.len() ==> #[trigger] ARMOR_FIELD@[k] != 45,
{
}

/// A pattern that begins with a hyphen and holds no line break lies, where it occurs
/// in a settled record whose field name holds no hyphen, in front of the field or
/// behind it, and occurred in the input at the place that moved there.
proof fn lemma_hyphen_pattern(
    s: Seq<u8>,
    r: Seq<u8>,
    from: int,
    stop: Seq<u8>,
    field: Seq<u8>,
    c: int,
    limit: int,
    pat: Seq<u8>,
    i: int,
)
    requires
        is_field_pair(stop, field),
        settled(s, r, from, field, c, limit),
        forall|k: int| 1 <= k < field.len() ==> #[trigger] field[k] != 45,
        pat.len() >= 1,
        pat[0] == 45,
        forall|k: int| 0 <= k < pat.len() ==> #[trigger] pat[k] != 10,
        occurs_at(r, pat, i),
    ensures
        i + pat.len() <= c || c + field.len() + NONCE_LENGTH <= i,
        i + pat.len() <= c ==> occurs_at(s, pat, i),
        c + field.len() + NONCE_LENGTH <= i ==> occurs_at(s, pat, i - (r.len() - s.len())),
{
    let width = field.len() + NONCE_LENGTH;
    let shift = r.len() - s.len();
    lemma_settled_line(s, r, from, stop, field, c, limit);
    if i <= c && c < i + pat.len() {
        assert(r[i + (c - i)] == pat[c - i]);
    }
    if c < i && i < c + width {
        assert(r[i + 0] == pat[0]);
        if i < c + field.len() {
            assert(r[c + (i - c)] == field[i - c]);
        } else {
            assert(is_symbol(r[i]));
        }
    }
    if i + pat.len() <= c {
        lemma_occurs_in_prefix(s, r, pat, i, c);
    }
    if c + width <= i {
        lemma_occurs_in_suffix(s, r, pat, i, c + width, shift);
    }
}

/// A record that got or kept a trailer is signed only if the input was.
proof fn lemma_still_unsigned(s: Seq<u8>, r: Seq<u8>, c: int, limit: int)
    requires
        settled(s, r, 0, TRAILER_FIELD@, c, limit),
        !is_signed(s),
    ensures
        !is_signed(r),
{
    lemma_armor_begin();
    lemma_field_pairs();
    lemma_first_occurrence(s, ARMOR_BEGIN@, 0);
    lemma_settled_line(s, r, 0, BLANK_LINE@, TRAILER_FIELD@, c, limit);
    assert forall|i: int| 0 <= i implies !occurs_at(r, ARMOR_BEGIN@, i) by {
        if occurs_at(r, ARMOR_BEGIN@, i) {
            lemma_hyphen_pattern(s, r, 0, BLANK_LINE@, TRAILER_FIELD@, c, limit, ARMOR_BEGIN@, i);
        }
    }
    lemma_first_occurrence_none(r, ARMOR_BEGIN@, 0);
}

/// A record that got or kept a header in its signature opens the signature where the
/// input did.
proof fn lemma_still_signed(s: Seq<u8>, r: Seq<u8>, m: int, c: int, limit: int)
    requires
        first_occurrence(s, ARMOR_BEGIN@, 0) == Some(m),
        settled(s, r, m + 29, ARMOR_FIELD@, c, limit),
    ensures
        first_occurrence(r, ARMOR_BEGIN@, 0) == Some(m),
{
    lemma_armor_begin();
    lemma_field_pairs();
    lemma_first_occurrence(s, ARMOR_BEGIN@, 0);
    lemma_settled_line(s, r, m + 29, CONTINUATION@, ARMOR_FIELD@, c, limit);
    lemma_occurs_in_prefix(s, r, ARMOR_BEGIN@, m, c);
    assert forall|i: int| 0 <= i < m implies !occurs_at(r, ARMOR_BEGIN@, i) by {
        lemma_occurs_in_prefix(s, r, ARMOR_BEGIN@, i, c);
    }
    lemma_first_occurrence_is(r, ARMOR_BEGIN@, 0, m);
}

/// A record that got or kept a header in its signature closes the signature where the
/// input did, moved with what lies behind the header; and it has no closing line where
/// the input had none.
proof fn lemma_end_first(s: Seq<u8>, r: Seq<u8>, from: int, c: int)
    requires
        settled(s, r, from, ARMOR_FIELD@, c, signature_end(s, from)),
    ensures
        signature_end(r, from) == signature_end(s, from) + (r.len() - s.len()),
        first_occurrence(s, ARMOR_END@, from) matches Some(e) ==> first_occurrence(
            r,
            ARMOR_END@,
            from,
        ) == Some(e + (r.len() - s.len())),
        first_occurrence(s, ARMOR_END@, from) is None ==> first_occurrence(r, ARMOR_END@, from)
            is None,
{
    let width = ARMOR_FIELD@.len() + NONCE_LENGTH;
    let shift = r.len() - s.len();
    let limit = signature_end(s, from);
    lemma_armor_end();
    lemma_field_pairs();
    lemma_first_occurrence(s, ARMOR_END@, from);
    lemma_settled_line(s, r, from, CONTINUATION@, ARMOR_FIELD@, c, limit);
    assert forall|j: int| from <= j < limit + shift implies !occurs_at(r, ARMOR_END@, j) by {
        if occurs_at(r, ARMOR_END@, j) {
            lemma_hyphen_pattern(s, r, from, CONTINUATION@, ARMOR_FIELD@, c, limit, ARMOR_END@, j);
        }
    }
    if first_occurrence(s, ARMOR_END@, from) is Some {
        lemma_occurs_in_suffix(s, r, ARMOR_END@, limit + shift, c + width, shift);
        lemma_first_occurrence_is(r, ARMOR_END@, from, limit + shift);
    } else {
        assert forall|j: int| from <= j implies !occurs_at(r, ARMOR_END@, j) by {
        }
        lemma_first_occurrence_none(r, ARMOR_END@, from);
    }
}

/// A settled record has an empty line where the input had one.
proof fn lemma_blank_stays(
    s: Seq<u8>,
    r: Seq<u8>,
    from: int,
    stop: Seq<u8>,
    field: Seq<u8>,
    c: int,
    limit: int,
)
    requires
        is_field_pair(stop, field),
        settled(s, r, from, field, c, limit),
        first_occurrence(s, BLANK_LINE@, 0) is Some,
    ensures
        first_occurrence(r, BLANK_LINE@, 0) is Some,
{
    let width = field.len() + NONCE_LENGTH;
    let shift = r.len() - s.len();
    let b = first_occurrence(s, BLANK_LINE@, 0).unwrap();
    lemma_first_occurrence(s, BLANK_LINE@, 0);
    lemma_first_occurrence(r, BLANK_LINE@, 0);
    lemma_settled_line(s, r, from, stop, field, c, limit);
    assert(s[b + 0] == BLANK_LINE@[0]);
    assert(s[b + 1] == BLANK_LINE@[1]);
    if b + 2 <= c {
        lemma_occurs_in_prefix(s, r, BLANK_LINE@, b, c);
    } else if b + 1 == c {
        assert(r[b] == s[b]);
        assert(occurs_at(r, BLANK_LINE@, b)) by {
            assert forall|k: int| 0 <= k < 2 implies r[b + k] == #[trigger] BLANK_LINE@[k] by {
                if k == 1 {
                }
            }
        }
    } else if c + width - shift <= b {
        lemma_occurs_in_suffix(s, r, BLANK_LINE@, b + shift, c + width, shift);
    } else {
        assert(b == c) by {
            if c < b {
                assert(s[b] != 10);
            }
        }
        assert(s[c + 1] != 10);
    }
}

/// The place from which the nonce field of `s` is looked for: behind the opening line
/// of the signature of a signed commit, and the start of an unsigned one.
pub open spec fn search_start(s: Seq<u8>) -> int {
    match first_occurrence(s, ARMOR_BEGIN@, 0) {
        Some(m) => m + ARMOR_BEGIN@.len(),
        None => 0,
    }
}

/// The place in front of which the nonce field of `s` lies: in a signed commit where
/// the closing line of the signature begins, or the end of the text where there is no
/// closing line, and in an unsigned commit the empty line.
pub open spec fn limit_of(s: Seq<u8>) -> int {
    if is_signed(s) {
        signature_end(s, search_start(s))
    } else {
        match first_occurrence(s, BLANK_LINE@, 0) {
            Some(h) => h,
            None => s.len() as int,
        }
    }
}

/// The marker in front of which a new nonce field of `s` goes.
pub open spec fn marker_of(s: Seq<u8>) -> Seq<u8> {
    if is_signed(s) {
        CONTINUATION@
    } else {
        BLANK_LINE@
    }
}

/// The name of the nonce field of `s`, with the line break in front of it.
pub open spec fn field_of(s: Seq<u8>) -> Seq<u8> {
    if is_signed(s) {
        ARMOR_FIELD@
    } else {
        TRAILER_FIELD@
    }
}

/// Parsing is placement between `search_start` and `limit_of`, on valid text with an
/// empty line.
proof fn lemma_parse_is_place(s: Seq<u8>)
    requires
        parse(s) is Some,
    ensures
        valid_utf8(s),
        first_occurrence(s, BLANK_LINE@, 0) is Some,
        0 <= search_start(s),
        limit_of(s) <= s.len(),
        parse(s) == place(s, search_start(s), limit_of(s), marker_of(s), field_of(s)),
{
    lemma_armor_end();
    lemma_first_occurrence(s, ARMOR_BEGIN@, 0);
    lemma_first_occurrence(s, BLANK_LINE@, 0);
    lemma_first_occurrence(s, ARMOR_END@, search_start(s));
}

/// A valid record that is settled with respect to a commit that parses, parses to
/// itself.
proof fn lemma_settled_parses(s: Seq<u8>, r: Seq<u8>, c: int)
    requires
        parse(s) is Some,
        valid_utf8(r),
        settled(s, r, search_start(s), field_of(s), c, limit_of(s)),
    ensures
        parse(r) == Some(CommitView { record: r, nonce_offset: c + field_of(s).len() }),
{
    let shift = r.len() - s.len();
    let limit = limit_of(s);
    lemma_field_pairs();
    lemma_parse_is_place(s);
    lemma_settled_line(s, r, search_start(s), marker_of(s), field_of(s), c, limit);
    match first_occurrence(s, ARMOR_BEGIN@, 0) {
        Some(m) => {
            lemma_still_signed(s, r, m, c, limit);
            lemma_end_first(s, r, m + 29, c);
            lemma_blank_stays(s, r, m + 29, CONTINUATION@, ARMOR_FIELD@, c, limit);
            lemma_settled_places(
                s,
                r,
                m + 29,
                limit + shift,
                CONTINUATION@,
                ARMOR_FIELD@,
                c,
                limit,
            );
        },
        None => {
            lemma_still_unsigned(s, r, c, limit);
            lemma_marker_first(s, r, 0, BLANK_LINE@, TRAILER_FIELD@, c, limit);
            lemma_settled_places(s, r, 0, limit + shift, BLANK_LINE@, TRAILER_FIELD@, c, limit);
        },
    }
}

/// What parsing yields is well formed and settled with respect to the commit that was
/// parsed.
proof fn lemma_parse_settled(s: Seq<u8>)
    requires
        parse(s) is Some,
    ensures
        parse(s).unwrap().well_formed(),
        parse(s).unwrap().record.len() <= s.len() + field_of(s).len() + NONCE_LENGTH,
        settled(
            s,
            parse(s).unwrap().record,
            search_start(s),
            field_of(s),
            parse(s).unwrap().nonce_offset - field_of(s).len(),
            limit_of(s),
        ),
{
    lemma_field_pairs();
    lemma_parse_is_place(s);
    lemma_place(s, search_start(s), limit_of(s), marker_of(s), field_of(s));
    lemma_place_settled(s, search_start(s), limit_of(s), marker_of(s), field_of(s));
}

/// What parsing yields is well formed, and longer than what was parsed by no more than
/// a field with its nonce.
pub proof fn lemma_parse_layout(s: Seq<u8>)
    requires
        parse(s) is Some,
    ensures
        parse(s).unwrap().well_formed(),
        parse(s).unwrap().record.len() <= s.len() + ARMOR_FIELD@.len() + NONCE_LENGTH,
{
    lemma_parse_settled(s);
}

/// Every input of at most `MAX_COMMIT_LEN` bytes meets the bound that
/// `CommitBuffer::new` puts on the record that results.
pub proof fn lemma_short_input_fits(s: Seq<u8>)
    requires
        s.len() <= MAX_COMMIT_LEN,
    ensures
        parse(s) matches Some(v) ==> v.record.len() <= MAX_RECORD_LEN,
{
    if parse(s) is Some {
        lemma_parse_layout(s);
    }
}

/// Parsing is idempotent: what parsing made of a commit parses to itself, with the
/// nonce field where it was and no second field added.
pub proof fn lemma_parse_idempotent(s: Seq<u8>)
    requires
        parse(s) is Some,
    ensures
        parse(parse(s).unwrap().record) == parse(s),
{
    let v = parse(s).unwrap();
    lemma_parse_settled(s);
    lemma_settled_parses(s, v.record, v.nonce_offset - field_of(s).len());
}

/// A parsed commit into which a nonce was written parses to itself: the nonce field is
/// found where it was, and its value is kept. So the record that a search ends with is
/// one that parsing leaves alone.
pub proof fn lemma_rewritten_parses(s: Seq<u8>, symbols: Seq<u8>)
    requires
        parse(s) is Some,
        is_nonce_text(symbols),
    ensures
        parse(parse(s).unwrap().with_nonce(symbols).record) == Some(
            parse(s).unwrap().with_nonce(symbols),
        ),
        parse(s).unwrap().with_nonce(symbols).well_formed(),
{
    let v = parse(s).unwrap();
    let w = v.with_nonce(symbols);
    let limit = limit_of(s);
    lemma_field_pairs();
    lemma_parse_settled(s);
    lemma_rewrite_settled(s, v, search_start(s), marker_of(s), field_of(s), limit, symbols);
    lemma_window_cuts(v);
    lemma_splice_valid(v.record, v.nonce_offset, v.nonce_offset + NONCE_LENGTH, symbols);
    assert(w.window() =~= symbols);
    lemma_settled_parses(s, w.record, v.nonce_offset - field_of(s).len());
}

/// An unsigned commit that has no nonce trailer among its metadata gets one, and only
/// one: the trailer and the initial nonce go in as the last line of the metadata, right
/// in front of the empty line, and nothing else changes.
pub proof fn lemma_new_trailer(s: Seq<u8>)
    requires
        parse(s) is Some,
        !is_signed(s),
        first_occurrence(s, TRAILER_FIELD@, 0) matches Some(q) ==> q >= first_occurrence(
            s,
            BLANK_LINE@,
            0,
        ).unwrap(),
    ensures
        ({
            let v = parse(s).unwrap();
            let h = first_occurrence(s, BLANK_LINE@, 0).unwrap();
            &&& v.record == s.subrange(0, h) + TRAILER_FIELD@ + initial_nonce() + s.subrange(
                h,
                s.len() as int,
            )
            &&& v.record.len() == s.len() + TRAILER_FIELD@.len() + NONCE_LENGTH
            &&& v.nonce_offset == h + TRAILER_FIELD@.len()
            &&& v.window() == initial_nonce()
            &&& first_occurrence(v.record, BLANK_LINE@, 0) == Some(
                h + TRAILER_FIELD@.len() + NONCE_LENGTH,
            )
            &&& forall|j: int|
                0 <= j < h + TRAILER_FIELD@.len() + NONCE_LENGTH && occurs_at(
                    v.record,
                    TRAILER_FIELD@,
                    j,
                ) ==> j == h
        }),
{
    let v = parse(s).unwrap();
    let r = v.record;
    let h = first_occurrence(s, BLANK_LINE@, 0).unwrap();
    let width = TRAILER_FIELD@.len() + NONCE_LENGTH;
    lemma_field_pairs();
    lemma_parse_is_place(s);
    lemma_first_occurrence(s, BLANK_LINE@, 0);
    lemma_first_occurrence(s, TRAILER_FIELD@, 0);
    assert(field_value(s, 0, h, TRAILER_FIELD@) is None) by {
        if first_occurrence(s, TRAILER_FIELD@, 0) is Some {
            let q = first_occurrence(s, TRAILER_FIELD@, 0).unwrap();
            lemma_line_end(s, q + TRAILER_FIELD@.len());
        }
    }
    assert(v == with_new_field(s, h, TRAILER_FIELD@));
    lemma_place_settled(s, 0, h, BLANK_LINE@, TRAILER_FIELD@);
    lemma_settled_line(s, r, 0, BLANK_LINE@, TRAILER_FIELD@, h, h);
    lemma_marker_first(s, r, 0, BLANK_LINE@, TRAILER_FIELD@, h, h);
    lemma_initial_nonce();
    assert(r =~= s.subrange(0, h) + TRAILER_FIELD@ + initial_nonce() + s.subrange(
        h,
        s.len() as int,
    ));
    assert(v.window() =~= initial_nonce());
    assert forall|j: int| 0 <= j < h + width && occurs_at(r, TRAILER_FIELD@, j) implies j == h by {
        assert(r[j + 0] == TRAILER_FIELD@[0]);
        if j < h {
            if j + TRAILER_FIELD@.len() <= h {
                lemma_occurs_in_prefix(s, r, TRAILER_FIELD@, j, h);
            } else {
                assert(r[j + (h - j)] == TRAILER_FIELD@[h - j]);
            }
        } else if j > h {
            assert(r[j] == 10);
        }
    }
}

/// A signed commit that has no nonce header inside its signature gets one: the header
/// and the initial nonce go in right in front of the first continuation line, a
/// closing line moves back by their width, and nothing else changes.
pub proof fn lemma_new_header(s: Seq<u8>)
    requires
        parse(s) is Some,
        is_signed(s),
        first_occurrence(s, ARMOR_FIELD@, search_start(s)) matches Some(q) ==> q >= limit_of(s),
    ensures
        ({
            let v = parse(s).unwrap();
            let opened = search_start(s);
            let closing = limit_of(s);
            let p = first_occurrence(s, CONTINUATION@, opened).unwrap();
            &&& first_occurrence(s, CONTINUATION@, opened) is Some
            &&& opened <= p < closing
            &&& v.record == s.subrange(0, p) + ARMOR_FIELD@ + initial_nonce() + s.subrange(
                p,
                s.len() as int,
            )
            &&& v.record.len() == s.len() + ARMOR_FIELD@.len() + NONCE_LENGTH
            &&& v.nonce_offset == p + ARMOR_FIELD@.len()
            &&& v.window() == initial_nonce()
            &&& first_occurrence(s, ARMOR_END@, opened) matches Some(e) ==> first_occurrence(
                v.record,
                ARMOR_END@,
                opened,
            ) == Some(e + ARMOR_FIELD@.len() + NONCE_LENGTH)
        }),
{
    let v = parse(s).unwrap();
    let r = v.record;
    let opened = search_start(s);
    let closing = limit_of(s);
    lemma_field_pairs();
    lemma_armor_end();
    lemma_parse_is_place(s);
    lemma_first_occurrence(s, ARMOR_FIELD@, opened);
    lemma_first_occurrence(s, CONTINUATION@, opened);
    lemma_first_occurrence(s, ARMOR_END@, opened);
    assert(field_value(s, opened, closing, ARMOR_FIELD@) is None) by {
        if first_occurrence(s, ARMOR_FIELD@, opened) is Some {
            let q = first_occurrence(s, ARMOR_FIELD@, opened).unwrap();
            lemma_line_end(s, q + ARMOR_FIELD@.len());
        }
    }
    let p = insertion_point(s, opened, closing, CONTINUATION@).unwrap();
    assert(s[p + 0] == CONTINUATION@[0]);
    if first_occurrence(s, ARMOR_END@, opened) is Some {
        assert(s[closing + 0] == ARMOR_END@[0]);
    }
    assert(v == with_new_field(s, p, ARMOR_FIELD@));
    lemma_place_settled(s, opened, closing, CONTINUATION@, ARMOR_FIELD@);
    lemma_end_first(s, r, opened, p);
    lemma_initial_nonce();
    assert(r =~= s.subrange(0, p) + ARMOR_FIELD@ + initial_nonce() + s.subrange(
        p,
        s.len() as int,
    ));
    assert(v.window() =~= initial_nonce());
}

/// In a signed commit the nonce lands inside the signature, and every byte outside
/// stays as it was. The record is the input up to the end of the opening line, and the
/// input again from the closing line on, or up to its end where the signature has no
/// closing line. The nonce field with its name lies between the two, and the two lines
/// still are the first of their kind.
pub proof fn lemma_signed_placement(s: Seq<u8>)
    requires
        parse(s) is Some,
        is_signed(s),
    ensures
        ({
            let v = parse(s).unwrap();
            let begin = first_occurrence(s, ARMOR_BEGIN@, 0).unwrap();
            let opened = search_start(s);
            let closing = limit_of(s);
            let shift = v.record.len() - s.len();
            &&& opened <= closing <= s.len()
            &&& shift <= ARMOR_FIELD@.len() + NONCE_LENGTH
            &&& v.record.subrange(0, opened) == s.subrange(0, opened)
            &&& v.record.subrange(closing + shift, v.record.len() as int) == s.subrange(
                closing,
                s.len() as int,
            )
            &&& occurs_at(v.record, ARMOR_FIELD@, v.nonce_offset - ARMOR_FIELD@.len())
            &&& opened + ARMOR_FIELD@.len() <= v.nonce_offset
            &&& v.nonce_offset + NONCE_LENGTH < closing + shift
            &&& first_occurrence(v.record, ARMOR_BEGIN@, 0) == Some(begin)
            &&& limit_of(v.record) == closing + shift
            &&& first_occurrence(s, ARMOR_END@, opened) is None ==> first_occurrence(
                v.record,
                ARMOR_END@,
                opened,
            ) is None
            &&& first_occurrence(s, ARMOR_END@, opened) is Some ==> {
                let closed = closing + ARMOR_END@.len();
                &&& closed <= s.len()
                &&& first_occurrence(v.record, ARMOR_END@, opened) == Some(closing + shift)
                &&& v.record.subrange(closed + shift, v.record.len() as int) == s.subrange(
                    closed,
                    s.len() as int,
                )
            }
        }),
{
    let v = parse(s).unwrap();
    let r = v.record;
    let begin = first_occurrence(s, ARMOR_BEGIN@, 0).unwrap();
    let opened = search_start(s);
    let closing = limit_of(s);
    let closed = closing + ARMOR_END@.len();
    let shift = r.len() - s.len();
    let c = v.nonce_offset - ARMOR_FIELD@.len();
    lemma_field_pairs();
    lemma_armor_end();
    lemma_parse_is_place(s);
    lemma_first_occurrence(s, ARMOR_END@, opened);
    lemma_parse_settled(s);
    lemma_settled_line(s, r, opened, CONTINUATION@, ARMOR_FIELD@, c, closing);
    lemma_still_signed(s, r, begin, c, closing);
    lemma_end_first(s, r, opened, c);
    assert(r.subrange(0, opened) =~= s.subrange(0, opened));
    assert(r.subrange(closing + shift, r.len() as int) =~= s.subrange(closing, s.len() as int));
    if first_occurrence(s, ARMOR_END@, opened) is Some {
        assert(r.subrange(closed + shift, r.len() as int) =~= s.subrange(closed, s.len() as int));
    }
}

/// Parsing accepts a commit exactly when it is valid text, has the empty line that ends
/// the metadata, and, where it is signed, has behind the opening line of its signature
/// and in front of the closing line, if there is one, a nonce header or a continuation
/// line in front of which one can go.
pub proof fn lemma_parse_accepts(s: Seq<u8>)
    ensures
        parse(s) is Some <==> {
            &&& valid_utf8(s)
            &&& first_occurrence(s, BLANK_LINE@, 0) is Some
            &&& is_signed(s) ==> (field_value(s, search_start(s), limit_of(s), ARMOR_FIELD@)
                is Some || insertion_point(s, search_start(s), limit_of(s), CONTINUATION@)
                is Some)
        },
{
    lemma_first_occurrence(s, BLANK_LINE@, 0);
}

} // verus!
