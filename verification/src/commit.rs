//! The commit text: where the nonce field of a commit record lies, how a record without
//! one gets it, and how the field is rewritten in place.

use crate::error::MineError;
use crate::hasher::{framed, make_object_header, object_header, MAX_RECORD_LEN};
use crate::nonce::{
    encode_nonce, is_nonce_text, is_symbol, lemma_decode_encode, nonce_symbols, FIRST_SYMBOL,
    NONCE_LENGTH,
};
use crate::placement::{lemma_parse_idempotent, lemma_parse_layout, lemma_rewritten_parses};
use crate::text::{
    find, first_occurrence, is_ascii_bytes, lemma_cut_at_ascii, lemma_first_occurrence,
    lemma_splice_valid, occurs_at, splice, spliced,
};
use vstd::prelude::*;
use vstd::slice::{slice_subrange, slice_to_vec};
use vstd::string::StringSliceAdditionalSpecFns;
use vstd::utf8::valid_utf8;

verus! {

/// The line that opens an armored signature, `-----BEGIN PGP SIGNATURE-----`.
pub const ARMOR_BEGIN: [u8; 29] = [
    45, 45, 45, 45, 45, 66, 69, 71, 73, 78, 32, 80, 71, 80, 32, 83, 73, 71, 78, 65, 84, 85, 82,
    69, 45, 45, 45, 45, 45,
];

/// The line that closes an armored signature, `-----END PGP SIGNATURE-----`.
pub const ARMOR_END: [u8; 27] = [
    45, 45, 45, 45, 45, 69, 78, 68, 32, 80, 71, 80, 32, 83, 73, 71, 78, 65, 84, 85, 82, 69, 45,
    45, 45, 45, 45,
];

/// A line break and the name of the nonce header inside a signature: `Nonce: `.
pub const ARMOR_FIELD: [u8; 8] = [10, 78, 111, 110, 99, 101, 58, 32];

/// A line break and the name of the nonce trailer among the metadata: `nonce `.
pub const TRAILER_FIELD: [u8; 7] = [10, 110, 111, 110, 99, 101, 32];

/// The empty line between the metadata and the message.
pub const BLANK_LINE: [u8; 2] = [10, 10];

/// A line break followed by the space that opens a continuation line.
pub const CONTINUATION: [u8; 2] = [10, 32];

/// A line break.
pub const NEWLINE: [u8; 1] = [10];

/// Every input of at most this length is one that `CommitBuffer::new` takes: with a
/// nonce field added the record still is at most `MAX_RECORD_LEN` bytes long.
pub const MAX_COMMIT_LEN: usize = 0x7FFF_FED8;

/// What a commit buffer stands for: the bytes of the commit record and the place in
/// them where the 32 symbols of the nonce begin.
pub struct CommitView {
    pub record: Seq<u8>,
    pub nonce_offset: int,
}

impl CommitView {
    /// The 32 bytes of the nonce field.
    pub open spec fn window(self) -> Seq<u8> {
        self.record.subrange(self.nonce_offset, self.nonce_offset + NONCE_LENGTH)
    }

    /// The record with `symbols` in place of the nonce field.
    pub open spec fn with_nonce(self, symbols: Seq<u8>) -> CommitView {
        CommitView {
            record: splice(
                self.record,
                self.nonce_offset,
                self.nonce_offset + NONCE_LENGTH,
                symbols,
            ),
            nonce_offset: self.nonce_offset,
        }
    }

    /// The record is valid text and its nonce field holds 32 symbols of the alphabet.
    pub open spec fn well_formed(self) -> bool {
        &&& 0 <= self.nonce_offset
        &&& self.nonce_offset + NONCE_LENGTH <= self.record.len()
        &&& is_nonce_text(self.window())
        &&& valid_utf8(self.record)
    }
}

/// The value that a new or an ill-sized nonce field gets: the encoding of zero.
pub open spec fn initial_nonce() -> Seq<u8> {
    nonce_symbols(0)
}

/// Where the line that holds index `start` ends: at the next line break, or at the end
/// of the text.
pub open spec fn line_end(s: Seq<u8>, start: int) -> int {
    match first_occurrence(s, NEWLINE@, start) {
        Some(end) => end,
        None => s.len() as int,
    }
}

/// A record whose nonce field exists, its value beginning at `start`: the value stays
/// where it is a well-formed nonce, and is replaced by the initial one where it is not.
pub open spec fn keep_or_reset(s: Seq<u8>, start: int) -> CommitView {
    let end = line_end(s, start);
    if is_nonce_text(s.subrange(start, end)) {
        CommitView { record: s, nonce_offset: start }
    } else {
        CommitView { record: splice(s, start, end, initial_nonce()), nonce_offset: start }
    }
}

/// A record that gets its nonce field: `field` and the initial nonce go in at `at`.
pub open spec fn with_new_field(s: Seq<u8>, at: int, field: Seq<u8>) -> CommitView {
    CommitView {
        record: splice(s, at, at, field + initial_nonce()),
        nonce_offset: at + field.len(),
    }
}

/// Where the value of the nonce field begins that `s` already has: behind the first
/// occurrence of `field` from `from` on, if the line of that field ends with a line
/// break at or in front of `limit`.
pub open spec fn field_value(s: Seq<u8>, from: int, limit: int, field: Seq<u8>) -> Option<int> {
    match first_occurrence(s, field, from) {
        Some(q) => if line_end(s, q + field.len()) <= limit && line_end(s, q + field.len())
            < s.len() {
            Some(q + field.len())
        } else {
            None
        },
        None => None,
    }
}

/// Where a new nonce field goes: where `stop` first occurs from `from` on, if that is
/// at or in front of `limit`.
pub open spec fn insertion_point(s: Seq<u8>, from: int, limit: int, stop: Seq<u8>) -> Option<
    int,
> {
    match first_occurrence(s, stop, from) {
        Some(p) => if p <= limit {
            Some(p)
        } else {
            None
        },
        None => None,
    }
}

/// Placement of the nonce field in the part of `s` that begins at `from` and ends at
/// `limit`. A field that is already there is kept or reset; else a new one goes in
/// right in front of `stop`. Without either there is no place for it.
pub open spec fn place(s: Seq<u8>, from: int, limit: int, stop: Seq<u8>, field: Seq<u8>) -> Option<
    CommitView,
> {
    match field_value(s, from, limit, field) {
        Some(start) => Some(keep_or_reset(s, start)),
        None => match insertion_point(s, from, limit, stop) {
            Some(p) => Some(with_new_field(s, p, field)),
            None => None,
        },
    }
}

/// Whether the record holds an armored signature.
pub open spec fn is_signed(s: Seq<u8>) -> bool {
    first_occurrence(s, ARMOR_BEGIN@, 0) is Some
}

/// Where the signature that was opened in front of `from` ends: where its closing line
/// begins, or at the end of the text where no closing line follows.
pub open spec fn signature_end(s: Seq<u8>, from: int) -> int {
    match first_occurrence(s, ARMOR_END@, from) {
        Some(e) => e,
        None => s.len() as int,
    }
}

/// What parsing makes of the bytes of a commit, where it accepts them.
///
/// Every commit needs the empty line that ends its metadata. A signed commit carries
/// the nonce inside its signature, behind the opening line and in front of the closing
/// line, if there is one: as a header line `Nonce: ` that is there already, or else in
/// front of the first continuation line. An unsigned one carries it among its
/// metadata: as a trailer line `nonce ` that is there already, or else in front of the
/// empty line.
pub open spec fn parse(s: Seq<u8>) -> Option<CommitView> {
    if !valid_utf8(s) {
        None
    } else {
        match first_occurrence(s, BLANK_LINE@, 0) {
            None => None,
            Some(h) => match first_occurrence(s, ARMOR_BEGIN@, 0) {
                Some(m) => place(
                    s,
                    m + ARMOR_BEGIN@.len(),
                    signature_end(s, m + ARMOR_BEGIN@.len()),
                    CONTINUATION@,
                    ARMOR_FIELD@,
                ),
                None => place(s, 0, h, BLANK_LINE@, TRAILER_FIELD@),
            },
        }
    }
}

/// Whether parsing the record of `v` finds the nonce field where `v` has it and keeps
/// its value.
#[verifier::opaque]
pub open spec fn parses_to_itself(v: CommitView) -> bool {
    parse(v.record) == Some(v)
}

/// What `place` asks of the marker in front of which a field goes, and of the field's
/// name: both open with a line break and differ in what follows it, and the name is
/// ASCII with no other line break.
pub open spec fn is_field_pair(stop: Seq<u8>, field: Seq<u8>) -> bool {
    &&& stop.len() == 2
    &&& stop[0] == 10
    &&& field.len() >= 2
    &&& field[0] == 10
    &&& field[1] != stop[1]
    &&& is_ascii_bytes(field)
    &&& forall|k: int| 1 <= k < field.len() ==> #[trigger] field[k] != 10
}

/// The initial nonce is a well-formed nonce.
pub proof fn lemma_initial_nonce()
    ensures
        is_nonce_text(initial_nonce()),
        is_ascii_bytes(initial_nonce()),
{
    lemma_decode_encode(0);
}

/// The end of a line lies at or behind the index it is asked for, no line break lies
/// in between, and a line break stands at it unless it is the end of the text.
pub proof fn lemma_line_end(s: Seq<u8>, start: int)
    requires
        0 <= start <= s.len(),
    ensures
        start <= line_end(s, start) <= s.len(),
        forall|j: int| start <= j < line_end(s, start) ==> s[j] != 10,
        line_end(s, start) < s.len() ==> s[line_end(s, start)] == 10,
{
    lemma_first_occurrence(s, NEWLINE@, start);
    let end = line_end(s, start);
    assert forall|j: int| start <= j < end implies s[j] != 10 by {
        if s[j] == 10 {
            assert(occurs_at(s, NEWLINE@, j));
        }
    }
    if end < s.len() {
        assert(occurs_at(s, NEWLINE@, end));
        assert(s[end + 0] == NEWLINE@[0]);
    }
}

/// In a well-formed record the text in front of the nonce field and the text behind it
/// are each valid on their own.
pub proof fn lemma_window_cuts(v: CommitView)
    requires
        v.well_formed(),
    ensures
        valid_utf8(v.record.subrange(0, v.nonce_offset)),
        valid_utf8(v.record.subrange(v.nonce_offset + NONCE_LENGTH, v.record.len() as int)),
{
    assert(is_symbol(v.window()[0]));
    assert(is_symbol(v.window()[31]));
    lemma_cut_at_ascii(v.record, v.nonce_offset);
    lemma_cut_at_ascii(v.record, v.nonce_offset + 31);
}

/// What `place` yields on valid text is well formed, and longer than the text by no
/// more than a field with its nonce.
pub proof fn lemma_place(s: Seq<u8>, from: int, limit: int, stop: Seq<u8>, field: Seq<u8>)
    requires
        valid_utf8(s),
        0 <= from,
        is_field_pair(stop, field),
        place(s, from, limit, stop, field) is Some,
    ensures
        place(s, from, limit, stop, field).unwrap().well_formed(),
        place(s, from, limit, stop, field).unwrap().record.len() <= s.len() + field.len()
            + NONCE_LENGTH,
{
    let v = place(s, from, limit, stop, field).unwrap();
    lemma_first_occurrence(s, stop, from);
    lemma_first_occurrence(s, field, from);
    lemma_initial_nonce();
    match field_value(s, from, limit, field) {
        Some(start) => {
            let q = start - field.len();
            lemma_line_end(s, start);
            let end = line_end(s, start);
            assert(s[q + (field.len() - 1)] == field[field.len() - 1]);
            lemma_cut_at_ascii(s, start - 1);
            lemma_cut_at_ascii(s, end);
            if is_nonce_text(s.subrange(start, end)) {
                assert(v.window() =~= s.subrange(start, end));
            } else {
                lemma_splice_valid(s, start, end, initial_nonce());
                assert(v.window() =~= initial_nonce());
            }
        },
        None => {
            let p = insertion_point(s, from, limit, stop).unwrap();
            assert(s[p + 0] == stop[0]);
            lemma_cut_at_ascii(s, p);
            lemma_splice_valid(s, p, p, field + initial_nonce());
            assert(v.window() =~= initial_nonce());
        },
    }
}

/// `std::str::from_utf8`: the bytes as text, where they are valid UTF-8, and nothing
/// where they are not. The text has the very bytes that went in.
#[verifier::external_body]
fn as_text(bytes: &[u8]) -> (text: Option<&str>)
    ensures
        text is Some <==> valid_utf8(bytes@),
        text matches Some(t) ==> t.spec_bytes() == bytes@,
{
    std::str::from_utf8(bytes).ok()
}

/// Tells whether the bytes from `start` up to `end` are a well-formed nonce.
fn holds_nonce(bytes: &[u8], start: usize, end: usize) -> (ok: bool)
    requires
        start <= end <= bytes@.len(),
    ensures
        ok == is_nonce_text(bytes@.subrange(start as int, end as int)),
{
    if end - start != NONCE_LENGTH {
        return false;
    }
    let ghost value = bytes@.subrange(start as int, end as int);
    let mut i: usize = start;
    while i < end
        invariant
            start <= i <= end <= bytes@.len(),
            value == bytes@.subrange(start as int, end as int),
            forall|j: int| 0 <= j < i - start ==> is_symbol(#[trigger] value[j]),
        decreases end - i,
    {
        let b: u8 = bytes[i];
        if b < FIRST_SYMBOL || b >= FIRST_SYMBOL + 16 {
            proof {
                assert(!is_symbol(value[i - start]));
            }
            return false;
        }
        i += 1;
    }
    true
}

/// Places the nonce field as `place` says, and returns the record with the index at
/// which the nonce begins.
fn place_field(s: &[u8], from: usize, limit: usize, stop: &[u8], field: &[u8]) -> (placed: Option<
    (Vec<u8>, usize),
>)
    requires
        field@.len() <= 8,
        place(s@, from as int, limit as int, stop@, field@) matches Some(v) ==> v.record.len()
            <= MAX_RECORD_LEN,
    ensures
        match placed {
            Some((record, start)) => place(s@, from as int, limit as int, stop@, field@) == Some(
                CommitView { record: record@, nonce_offset: start as int },
            ),
            None => place(s@, from as int, limit as int, stop@, field@) is None,
        },
{
    let fresh: [u8; 32] = encode_nonce(0);
    let len: usize = s.len();
    proof {
        lemma_first_occurrence(s@, stop@, from as int);
        lemma_first_occurrence(s@, field@, from as int);
    }
    match find(s, field, from) {
        Some(q) => {
            let start: usize = q + field.len();
            proof {
                lemma_first_occurrence(s@, NEWLINE@, start as int);
            }
            let end: usize = match find(s, NEWLINE.as_slice(), start) {
                Some(e) => e,
                None => len,
            };
            if end <= limit && end < len {
                if holds_nonce(s, start, end) {
                    return Some((slice_to_vec(s), start));
                } else {
                    return Some((spliced(s, start, end, fresh.as_slice()), start));
                }
            }
        },
        None => {},
    }
    match find(s, stop, from) {
        Some(p) => {
            if p <= limit {
                let mid = spliced(field, field.len(), field.len(), fresh.as_slice());
                proof {
                    assert(mid@ =~= field@ + initial_nonce());
                }
                Some((spliced(s, p, p, mid.as_slice()), p + field.len()))
            } else {
                None
            }
        },
        None => None,
    }
}

/// Parses the bytes of a commit as `parse` says, and returns the record with the index
/// at which the nonce begins.
fn locate(buf: &[u8]) -> (placed: Option<(Vec<u8>, usize)>)
    requires
        parse(buf@) matches Some(v) ==> v.record.len() <= MAX_RECORD_LEN,
    ensures
        match placed {
            Some((record, start)) => parse(buf@) == Some(
                CommitView { record: record@, nonce_offset: start as int },
            ),
            None => parse(buf@) is None,
        },
{
    if as_text(buf).is_none() {
        return None;
    }
    let len: usize = buf.len();
    let blank: usize = match find(buf, BLANK_LINE.as_slice(), 0) {
        Some(h) => h,
        None => {
            return None;
        },
    };
    match find(buf, ARMOR_BEGIN.as_slice(), 0) {
        Some(m) => {
            proof {
                lemma_first_occurrence(buf@, ARMOR_BEGIN@, 0);
            }
            let limit: usize = match find(buf, ARMOR_END.as_slice(), m + 29) {
                Some(e) => e,
                None => len,
            };
            place_field(buf, m + 29, limit, CONTINUATION.as_slice(), ARMOR_FIELD.as_slice())
        },
        None => place_field(buf, 0, blank, BLANK_LINE.as_slice(), TRAILER_FIELD.as_slice()),
    }
}

/// Writes the 32 symbols of a nonce over what `buf` holds from index `start` on.
/// Every stretch of `buf` that lies in front of the nonce or behind it stays as it is.
fn overwrite(buf: &mut Vec<u8>, start: usize, end: usize, symbols: &[u8; 32])
    requires
        end == start + NONCE_LENGTH,
        end <= old(buf)@.len(),
    ensures
        final(buf)@ == splice(old(buf)@, start as int, end as int, symbols@),
        final(buf)@.len() == old(buf)@.len(),
        final(buf)@.subrange(start as int, start + NONCE_LENGTH) == symbols@,
        forall|a: int, b: int|
            0 <= a <= b <= start ==> #[trigger] final(buf)@.subrange(a, b) == old(buf)@.subrange(
                a,
                b,
            ),
        forall|a: int, b: int|
            start + NONCE_LENGTH <= a <= b <= old(buf)@.len() ==> #[trigger] final(buf)@.subrange(
                a,
                b,
            ) == old(buf)@.subrange(a, b),
        forall|a: int, b: int|
            0 <= a <= start && end <= b <= old(buf)@.len() ==> #[trigger] final(buf)@.subrange(
                a,
                b,
            ) == splice(old(buf)@.subrange(a, b), start - a, end - a, symbols@),
    no_unwind
{
    let mut i: usize = 0;
    while i < NONCE_LENGTH
        invariant
            i <= NONCE_LENGTH,
            buf@.len() == old(buf)@.len(),
            end == start + NONCE_LENGTH,
            end <= buf@.len(),
            forall|j: int| 0 <= j < start ==> buf@[j] == old(buf)@[j],
            forall|j: int| start <= j < start + i ==> buf@[j] == symbols@[j - start],
            forall|j: int| start + NONCE_LENGTH <= j < buf@.len() ==> buf@[j] == old(buf)@[j],
        decreases NONCE_LENGTH - i,
    {
        buf[start + i] = symbols[i];
        i += 1;
    }
    proof {
        assert(buf@ =~= splice(old(buf)@, start as int, end as int, symbols@));
        assert(buf@.subrange(start as int, start + NONCE_LENGTH) =~= symbols@);
        assert forall|a: int, b: int| 0 <= a <= b <= start implies #[trigger] buf@.subrange(a, b)
            == old(buf)@.subrange(a, b) by {
            assert(buf@.subrange(a, b) =~= old(buf)@.subrange(a, b));
        }
        assert forall|a: int, b: int|
            start + NONCE_LENGTH <= a <= b <= old(buf)@.len() implies #[trigger] buf@.subrange(
            a,
            b,
        ) == old(buf)@.subrange(a, b) by {
            assert(buf@.subrange(a, b) =~= old(buf)@.subrange(a, b));
        }
        assert forall|a: int, b: int|
            0 <= a <= start && end <= b <= old(buf)@.len() implies #[trigger] buf@.subrange(a, b)
            == splice(old(buf)@.subrange(a, b), start - a, end - a, symbols@) by {
            assert(buf@.subrange(a, b) =~= splice(
                old(buf)@.subrange(a, b),
                start - a,
                end - a,
                symbols@,
            ));
        }
    }
}

/// A commit record framed for hashing, with a window on its nonce field.
///
/// The buffer holds the object header that git hashes in front of a commit, then the
/// record. The nonce field is found or made once, when the buffer is built; after that
/// only its 32 bytes change, so no offset ever moves.
pub struct CommitBuffer {
    buf: Vec<u8>,
    header_len: usize,
    nonce_start: usize,
    nonce_end: usize,
}

impl View for CommitBuffer {
    type V = CommitView;

    closed spec fn view(&self) -> CommitView {
        CommitView {
            record: self.buf@.subrange(self.header_len as int, self.buf@.len() as int),
            nonce_offset: self.nonce_start - self.header_len,
        }
    }
}

impl CommitBuffer {
    /// What holds of every commit buffer: the object header in front states the length
    /// of the record behind it, the nonce field lies in the record and holds 32
    /// symbols, the text around the field is valid, and the record parses to itself.
    #[verifier::type_invariant]
    spec fn inv(self) -> bool {
        &&& self.header_len <= self.nonce_start
        &&& self.nonce_end == self.nonce_start + NONCE_LENGTH
        &&& self.nonce_end <= self.buf@.len()
        &&& self.buf@.len() - self.header_len <= MAX_RECORD_LEN
        &&& self.buf@.subrange(0, self.header_len as int) == object_header(
            (self.buf@.len() - self.header_len) as nat,
        )
        &&& is_nonce_text(self.buf@.subrange(self.nonce_start as int, self.nonce_end as int))
        &&& valid_utf8(self.buf@.subrange(self.header_len as int, self.nonce_start as int))
        &&& valid_utf8(self.buf@.subrange(self.nonce_end as int, self.buf@.len() as int))
        &&& parses_to_itself(
            CommitView {
                record: self.buf@.subrange(self.header_len as int, self.buf@.len() as int),
                nonce_offset: self.nonce_start - self.header_len,
            },
        )
    }

    /// Parses the bytes of a commit and finds or makes its nonce field.
    ///
    /// Fails with `MalformedCommitEncoding` where the bytes are not valid text, where
    /// the empty line behind the metadata is missing, and where a signature has neither
    /// a nonce header nor a continuation line in front of its closing line.
    /// What it makes parses to itself. The record that results must not be longer than
    /// `MAX_RECORD_LEN`, which holds of every input of at most `MAX_COMMIT_LEN` bytes.
    pub fn new(buf: &[u8]) -> (made: Result<CommitBuffer, MineError>)
        requires
            parse(buf@) matches Some(v) ==> v.record.len() <= MAX_RECORD_LEN,
        ensures
            match made {
                Ok(commit) => {
                    &&& parse(buf@) == Some(commit@)
                    &&& commit@.well_formed()
                    &&& parse(commit@.record) == Some(commit@)
                },
                Err(e) => parse(buf@) is None && e == MineError::MalformedCommitEncoding,
            },
    {
        match locate(buf) {
            None => Err(MineError::MalformedCommitEncoding),
            Some((record, start)) => {
                proof {
                    lemma_parse_layout(buf@);
                    lemma_parse_idempotent(buf@);
                }
                Ok(CommitBuffer::frame(record, start))
            },
        }
    }

    /// Writes `val` into the nonce field, as its 32 symbols. Nothing else changes.
    pub fn write_nonce(&mut self, val: u128)
        ensures
            final(self)@ == old(self)@.with_nonce(nonce_symbols(val as nat)),
            final(self)@.window() == nonce_symbols(val as nat),
            final(self)@.well_formed(),
            parse(final(self)@.record) == Some(final(self)@),
    {
        let symbols: [u8; 32] = encode_nonce(val);
        proof {
            use_type_invariant(&*self);
            assert(parses_to_itself(self@.with_nonce(symbols@))) by {
                reveal(parses_to_itself);
                lemma_rewritten_parses(self@.record, symbols@);
            }
        }
        let start: usize = self.nonce_start;
        let end: usize = self.nonce_end;
        overwrite(&mut self.buf, start, end, &symbols);
        proof {
            use_type_invariant(&*self);
            self.lemma_view();
            let h = self.header_len as int;
            let before = old(self).buf@;
            let after = self.buf@;
            assert(after =~= splice(before, start as int, start + 32, symbols@));
            assert(self@.record =~= old(self)@.with_nonce(symbols@).record);
            assert(self@.window() =~= symbols@);
            reveal(parses_to_itself);
        }
    }

    /// The commit record as text, without the object header.
    pub fn data(&self) -> (text: &str)
        ensures
            text.spec_bytes() == self@.record,
    {
        match as_text(self.bytes()) {
            Some(text) => text,
            None => "",
        }
    }

    /// The commit record as bytes, without the object header.
    pub fn bytes(&self) -> (record: &[u8])
        ensures
            record@ == self@.record,
            self@.well_formed(),
            parse(self@.record) == Some(self@),
            record@.len() <= MAX_RECORD_LEN,
    {
        proof {
            use_type_invariant(self);
            self.lemma_view();
            reveal(parses_to_itself);
        }
        slice_subrange(self.buf.as_slice(), self.header_len, self.buf.len())
    }

    /// The bytes whose SHA-1 digest is the identifier of the commit: the object header
    /// and the record.
    pub fn hash_input(&self) -> (all: &[u8])
        ensures
            all@ == framed(self@.record),
    {
        proof {
            use_type_invariant(self);
            assert(self.buf@ =~= self.buf@.subrange(0, self.header_len as int) + self@.record);
        }
        self.buf.as_slice()
    }

    /// The part of the hash input in front of the nonce field, which no write changes.
    pub fn fixed_prefix(&self) -> (prefix: &[u8])
        ensures
            prefix@ == framed(self@.record).subrange(
                0,
                object_header(self@.record.len()).len() + self@.nonce_offset,
            ),
            prefix@.len() == object_header(self@.record.len()).len() + self@.nonce_offset,
    {
        proof {
            use_type_invariant(self);
            assert(self.buf@ =~= self.buf@.subrange(0, self.header_len as int) + self@.record);
        }
        slice_subrange(self.buf.as_slice(), 0, self.nonce_start)
    }

    /// The part of the hash input from the nonce field on.
    pub fn nonce_suffix(&self) -> (suffix: &[u8])
        ensures
            suffix@ == self@.record.subrange(self@.nonce_offset, self@.record.len() as int),
            self@.well_formed(),
    {
        proof {
            use_type_invariant(self);
            self.lemma_view();
            assert(self.buf@.subrange(self.nonce_start as int, self.buf@.len() as int)
                =~= self@.record.subrange(self@.nonce_offset, self@.record.len() as int));
        }
        slice_subrange(self.buf.as_slice(), self.nonce_start, self.buf.len())
    }

    /// The 32 symbols that the nonce field holds now.
    pub fn nonce(&self) -> (symbols: &[u8])
        ensures
            symbols@ == self@.window(),
            is_nonce_text(symbols@),
    {
        proof {
            use_type_invariant(self);
            self.lemma_view();
            assert(self.buf@.subrange(self.nonce_start as int, self.nonce_end as int)
                =~= self@.window());
        }
        slice_subrange(self.buf.as_slice(), self.nonce_start, self.nonce_end)
    }

    /// The commit record as an owned string.
    pub fn to_text(&self) -> (text: String)
        ensures
            text@ == vstd::utf8::decode_utf8(self@.record),
    {
        let text = self.data();
        proof {
            vstd::utf8::encode_utf8_decode_utf8(text@);
        }
        text.to_owned()
    }

    proof fn lemma_view(self)
        requires
            self.inv(),
        ensures
            self@.well_formed(),
    {
        let record = self@.record;
        let off = self@.nonce_offset;
        let h = self.header_len as int;
        assert(record.subrange(0, off) =~= self.buf@.subrange(h, self.nonce_start as int));
        assert(record.subrange(off + 32, record.len() as int) =~= self.buf@.subrange(
            self.nonce_end as int,
            self.buf@.len() as int,
        ));
        assert(self@.window() =~= self.buf@.subrange(
            self.nonce_start as int,
            self.nonce_end as int,
        ));
        assert(is_ascii_bytes(self@.window()));
        lemma_splice_valid(record, off, off + 32, self@.window());
        assert(splice(record, off, off + 32, self@.window()) =~= record);
    }

    /// Puts the object header in front of a record whose nonce field begins at `start`.
    fn frame(record: Vec<u8>, start: usize) -> (commit: CommitBuffer)
        requires
            (CommitView { record: record@, nonce_offset: start as int }).well_formed(),
            record@.len() <= MAX_RECORD_LEN,
            parse(record@) == Some(CommitView { record: record@, nonce_offset: start as int }),
        ensures
            commit@ == (CommitView { record: record@, nonce_offset: start as int }),
    {
        let header = make_object_header(record.len());
        let header_len: usize = header.len();
        let full = spliced(header.as_slice(), header_len, header_len, record.as_slice());
        proof {
            let v = CommitView { record: record@, nonce_offset: start as int };
            lemma_window_cuts(v);
            assert(full@ =~= header@ + record@);
            assert(full@.subrange(0, header_len as int) =~= header@);
            assert(full@.subrange(header_len as int, full@.len() as int) =~= record@);
            assert(full@.subrange(start + header_len, start + header_len + 32) =~= v.window());
            assert(full@.subrange(header_len as int, start + header_len) =~= record@.subrange(
                0,
                start as int,
            ));
            assert(full@.subrange(start + header_len + 32, full@.len() as int)
                =~= record@.subrange(start + 32, record@.len() as int));
            assert(parses_to_itself(v)) by {
                reveal(parses_to_itself);
            }
        }
        CommitBuffer {
            buf: full,
            header_len,
            nonce_start: start + header_len,
            nonce_end: start + header_len + NONCE_LENGTH,
        }
    }
}

impl Clone for CommitBuffer {
    /// A second buffer with the same record and the same nonce.
    fn clone(&self) -> (copy: Self)
        ensures
            copy@ == self@,
    {
        proof {
            use_type_invariant(self);
        }
        CommitBuffer {
            buf: slice_to_vec(self.buf.as_slice()),
            header_len: self.header_len,
            nonce_start: self.nonce_start,
            nonce_end: self.nonce_end,
        }
    }
}

} // verus!
