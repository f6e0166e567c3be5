//! The binary segment format and its mathematical model.
//!
//! A segment is one byte string: an 8-byte little-endian header holding the
//! offset at which the table of contents starts, then the main region (the
//! concatenated posting bytes of every term), then the table of contents.
//! Each table entry is `offset: u64, nbytes: u64, df: u32, term_len: u32,
//! term bytes`, all integers little-endian, with the term stored as UTF-8.

use vstd::bytes::{
    lemma_auto_spec_u32_to_from_le_bytes, lemma_auto_spec_u64_to_from_le_bytes,
    spec_u32_from_le_bytes, spec_u32_to_le_bytes, spec_u64_from_le_bytes, spec_u64_to_le_bytes,
};
use vstd::prelude::*;
use vstd::seq_lib::*;
use vstd::assert_seqs_equal;
use vstd::utf8::{decode_utf8, decode_utf8_encode_utf8, encode_utf8, encode_utf8_decode_utf8, encode_utf8_valid_utf8, valid_utf8};

verus! {

/// Why a segment could not be decoded.
#[derive(Clone, Copy, PartialEq, Eq, Structural, Debug)]
pub enum CodecError {
    /// The data ends before a complete header, table entry or term.
    Truncated,
    /// A stored term is not valid UTF-8.
    InvalidUtf8,
    /// An entry declares more posting bytes than the region before the
    /// table of contents holds, or a combined entry overflows its fields.
    EntryTooLarge,
}

/// One table-of-contents entry: a term, its document frequency, and where
/// its posting bytes sit in the segment's main region.
pub struct Entry {
    pub term: String,
    pub df: u32,
    pub offset: u64,
    pub nbytes: u64,
}

/// The mathematical value of an [`Entry`].
pub ghost struct EntryV {
    pub term: Seq<char>,
    pub df: u32,
    pub offset: u64,
    pub nbytes: u64,
}

impl View for Entry {
    type V = EntryV;

    open spec fn view(&self) -> EntryV {
        EntryV { term: self.term@, df: self.df, offset: self.offset, nbytes: self.nbytes }
    }
}

/// An entry whose term fits the format's 32-bit length field.
pub open spec fn wf_entry(e: EntryV) -> bool {
    encode_utf8(e.term).len() <= u32::MAX
}

/// The bytes of one encoded table entry.
pub open spec fn spec_encode_entry(e: EntryV) -> Seq<u8> {
    spec_u64_to_le_bytes(e.offset) + spec_u64_to_le_bytes(e.nbytes) + spec_u32_to_le_bytes(e.df)
        + spec_u32_to_le_bytes(encode_utf8(e.term).len() as u32) + encode_utf8(e.term)
}

/// The bytes of an encoded table of contents, entries in order.
pub open spec fn spec_encode_toc(toc: Seq<EntryV>) -> Seq<u8>
    decreases toc.len(),
{
    if toc.len() == 0 {
        Seq::empty()
    } else {
        spec_encode_entry(toc.first()) + spec_encode_toc(toc.drop_first())
    }
}

/// A whole segment: header, main region, table of contents.
pub open spec fn spec_segment(main: Seq<u8>, toc: Seq<EntryV>) -> Seq<u8> {
    spec_u64_to_le_bytes((8 + main.len()) as u64) + main + spec_encode_toc(toc)
}

/// Parses one table entry at `pos`: `Ok(None)` at the clean end of the
/// data, the entry and the position after it otherwise.
pub open spec fn spec_read_entry(data: Seq<u8>, pos: int) -> Result<
    Option<(EntryV, int)>,
    CodecError,
> {
    if pos == data.len() {
        Ok(None)
    } else if pos + 24 > data.len() {
        Err(CodecError::Truncated)
    } else {
        let offset = spec_u64_from_le_bytes(data.subrange(pos, pos + 8));
        let nbytes = spec_u64_from_le_bytes(data.subrange(pos + 8, pos + 16));
        let df = spec_u32_from_le_bytes(data.subrange(pos + 16, pos + 20));
        let term_len = spec_u32_from_le_bytes(data.subrange(pos + 20, pos + 24)) as int;
        if term_len > data.len() - (pos + 24) {
            Err(CodecError::Truncated)
        } else {
            let tb = data.subrange(pos + 24, pos + 24 + term_len);
            if !valid_utf8(tb) {
                Err(CodecError::InvalidUtf8)
            } else {
                Ok(
                    Some(
                        (
                            EntryV { term: decode_utf8(tb), df, offset, nbytes },
                            pos + 24 + term_len,
                        ),
                    ),
                )
            }
        }
    }
}

/// Parses the table of contents from `pos` to the end of the data.
pub open spec fn spec_read_toc(data: Seq<u8>, pos: int) -> Result<Seq<EntryV>, CodecError>
    decreases data.len() - pos,
{
    match spec_read_entry(data, pos) {
        Ok(None) => Ok(Seq::empty()),
        Ok(Some((e, next))) => if pos < next <= data.len() {
            match spec_read_toc(data, next) {
                Ok(rest) => Ok(seq![e] + rest),
                Err(err) => Err(err),
            }
        } else {
            // unreachable: a parsed entry always advances within the data
            Err(CodecError::Truncated)
        },
        Err(err) => Err(err),
    }
}

/// Total posting bytes the entries declare.
pub open spec fn toc_nbytes(toc: Seq<EntryV>) -> int
    decreases toc.len(),
{
    if toc.len() == 0 {
        0
    } else {
        toc_nbytes(toc.drop_last()) + toc.last().nbytes
    }
}

/// Where the table of contents starts, per the header.
pub open spec fn toc_start_of(data: Seq<u8>) -> int {
    spec_u64_from_le_bytes(data.subrange(0, 8)) as int
}

/// The outcome of decoding a segment: its table of contents, or the first
/// error. The header must point inside the data, every table entry must
/// parse, and the declared posting bytes must fit before the table.
pub open spec fn spec_validate(data: Seq<u8>) -> Result<Seq<EntryV>, CodecError> {
    if data.len() < 8 {
        Err(CodecError::Truncated)
    } else if !(8 <= toc_start_of(data) <= data.len()) {
        Err(CodecError::Truncated)
    } else {
        match spec_read_toc(data, toc_start_of(data)) {
            Ok(toc) => if toc_nbytes(toc) <= toc_start_of(data) - 8 {
                Ok(toc)
            } else {
                Err(CodecError::EntryTooLarge)
            },
            Err(err) => Err(err),
        }
    }
}

/// A decodable segment.
pub open spec fn wf_segment(data: Seq<u8>) -> bool {
    spec_validate(data) is Ok
}

/// The table of contents of a decodable segment.
pub open spec fn seg_toc(data: Seq<u8>) -> Seq<EntryV> {
    spec_validate(data)->Ok_0
}

/// The posting bytes of the `k`-th entry of a decodable segment: read off
/// the main region in table order, entry after entry.
pub open spec fn seg_entry_bytes(data: Seq<u8>, k: int) -> Seq<u8> {
    let start = 8 + toc_nbytes(seg_toc(data).take(k));
    data.subrange(start, start + seg_toc(data)[k].nbytes)
}

/// Entry totals grow with the entry count.
pub proof fn lemma_toc_nbytes_monotone(toc: Seq<EntryV>, i: int, j: int)
    requires
        0 <= i <= j <= toc.len(),
    ensures
        toc_nbytes(toc.take(i)) <= toc_nbytes(toc.take(j)),
    decreases j - i,
{
    if i < j {
        lemma_toc_nbytes_monotone(toc, i, j - 1);
        assert(toc.take(j).drop_last() =~= toc.take(j - 1));
        assert(toc_nbytes(toc.take(j)) == toc_nbytes(toc.take(j - 1)) + toc[j - 1].nbytes);
    }
}

/// A whole table is its own `take`.
pub proof fn lemma_toc_nbytes_take_all(toc: Seq<EntryV>)
    ensures
        toc_nbytes(toc.take(toc.len() as int)) == toc_nbytes(toc),
{
    assert(toc.take(toc.len() as int) =~= toc);
}

/// Encoding one more entry appends its bytes.
pub proof fn lemma_encode_toc_push(toc: Seq<EntryV>, e: EntryV)
    ensures
        spec_encode_toc(toc.push(e)) == spec_encode_toc(toc) + spec_encode_entry(e),
    decreases toc.len(),
{
    reveal_with_fuel(spec_encode_toc, 2);
    if toc.len() == 0 {
        assert(toc.push(e).drop_first() =~= Seq::<EntryV>::empty());
        assert(spec_encode_toc(toc.push(e).drop_first()) =~= Seq::<u8>::empty());
        assert(spec_encode_toc(toc.push(e)) =~= spec_encode_toc(toc) + spec_encode_entry(e));
    } else {
        assert(toc.push(e).drop_first() =~= toc.drop_first().push(e));
        lemma_encode_toc_push(toc.drop_first(), e);
        assert(toc.push(e).first() == toc.first());
        assert(spec_encode_toc(toc.push(e)) == spec_encode_entry(toc.first())
            + spec_encode_toc(toc.drop_first().push(e)));
        assert(spec_encode_toc(toc.push(e)) =~= spec_encode_toc(toc) + spec_encode_entry(e));
    }
}

/// Parsing an encoded table of contents back yields the entries encoded.
proof fn lemma_read_encoded_toc(data: Seq<u8>, pos: int, toc: Seq<EntryV>)
    requires
        0 <= pos <= data.len(),
        data.subrange(pos, data.len() as int) == spec_encode_toc(toc),
        forall|k: int| 0 <= k < toc.len() ==> wf_entry(#[trigger] toc[k]),
    ensures
        spec_read_toc(data, pos) == Ok::<Seq<EntryV>, CodecError>(toc),
    decreases toc.len(),
{
    lemma_auto_spec_u32_to_from_le_bytes();
    lemma_auto_spec_u64_to_from_le_bytes();
    if toc.len() == 0 {
        assert(spec_encode_toc(toc) =~= Seq::<u8>::empty());
        assert(data.subrange(pos, data.len() as int).len() == 0);
        assert(pos == data.len());
        assert(toc =~= Seq::<EntryV>::empty());
        assert(spec_read_toc(data, pos) == Ok::<Seq<EntryV>, CodecError>(Seq::<EntryV>::empty()));
    } else {
        let e = toc.first();
        let tb = encode_utf8(e.term);
        let enc = spec_encode_entry(e);
        let tail = spec_encode_toc(toc.drop_first());
        assert(data.subrange(pos, data.len() as int) == enc + tail);
        assert(enc.len() == 24 + tb.len());
        assert(pos + enc.len() <= data.len()) by {
            assert(data.len() - pos == enc.len() + tail.len());
            assert(tail.len() >= 0);
        }
        assert forall|q: int| 0 <= q < enc.len() implies data[pos + q] == #[trigger] enc[q] by {
            assert(data.subrange(pos, data.len() as int)[q] == data[pos + q]);
            assert((enc + tail)[q] == enc[q]);
        }
        assert_seqs_equal!(data.subrange(pos, pos + 8) == spec_u64_to_le_bytes(e.offset), q => {
            assert(data[pos + q] == enc[q]);
        });
        assert_seqs_equal!(
            data.subrange(pos + 8, pos + 16) == spec_u64_to_le_bytes(e.nbytes), q => {
            assert(data[pos + 8 + q] == enc[8 + q]);
        });
        assert_seqs_equal!(
            data.subrange(pos + 16, pos + 20) == spec_u32_to_le_bytes(e.df), q => {
            assert(data[pos + 16 + q] == enc[16 + q]);
        });
        assert_seqs_equal!(
            data.subrange(pos + 20, pos + 24) == spec_u32_to_le_bytes(tb.len() as u32), q => {
            assert(data[pos + 20 + q] == enc[20 + q]);
        });
        assert(spec_u32_from_le_bytes(data.subrange(pos + 20, pos + 24)) == tb.len());
        assert_seqs_equal!(data.subrange(pos + 24, pos + 24 + tb.len() as int) == tb, q => {
            assert(data[pos + 24 + q] == enc[24 + q]);
        });
        encode_utf8_valid_utf8(e.term);
        encode_utf8_decode_utf8(e.term);
        let next = pos + 24 + tb.len();
        assert(spec_read_entry(data, pos) == Ok::<Option<(EntryV, int)>, CodecError>(Some((e, next))));
        assert_seqs_equal!(data.subrange(next, data.len() as int) == tail, q => {
            assert(data[pos + (24 + tb.len() as int + q)] == data.subrange(
                pos,
                data.len() as int,
            )[24 + tb.len() as int + q]);
            assert((enc + tail)[24 + tb.len() as int + q] == tail[q]);
        });
        assert(forall|k: int|
            0 <= k < toc.drop_first().len() ==> wf_entry(#[trigger] toc.drop_first()[k]));
        lemma_read_encoded_toc(data, next, toc.drop_first());
        assert(seq![e] + toc.drop_first() =~= toc);
        assert(spec_read_toc(data, pos) == Ok::<Seq<EntryV>, CodecError>(
            seq![e] + toc.drop_first(),
        ));
    }
}

/// The round trip of the codec: a segment encoded from a main region and a
/// table of contents whose declared posting bytes fill that region decodes
/// to exactly that table of contents.
pub proof fn lemma_segment_round_trip(main: Seq<u8>, toc: Seq<EntryV>)
    requires
        forall|k: int| 0 <= k < toc.len() ==> wf_entry(#[trigger] toc[k]),
        toc_nbytes(toc) <= main.len(),
        8 + main.len() <= u64::MAX,
    ensures
        spec_validate(spec_segment(main, toc)) == Ok::<Seq<EntryV>, CodecError>(toc),
        wf_segment(spec_segment(main, toc)),
        seg_toc(spec_segment(main, toc)) == toc,
{
    lemma_auto_spec_u64_to_from_le_bytes();
    let data = spec_segment(main, toc);
    assert(data.subrange(0, 8) =~= spec_u64_to_le_bytes((8 + main.len()) as u64));
    assert(toc_start_of(data) == 8 + main.len());
    assert(data.subrange(8 + main.len() as int, data.len() as int) =~= spec_encode_toc(toc));
    lemma_read_encoded_toc(data, 8 + main.len() as int, toc);
}

/// The posting bytes of each entry of an encoded segment are read off the
/// main region in table order.
pub proof fn lemma_segment_entry_bytes(main: Seq<u8>, toc: Seq<EntryV>, k: int)
    requires
        forall|j: int| 0 <= j < toc.len() ==> wf_entry(#[trigger] toc[j]),
        toc_nbytes(toc) <= main.len(),
        8 + main.len() <= u64::MAX,
        0 <= k < toc.len(),
    ensures
        seg_entry_bytes(spec_segment(main, toc), k) == main.subrange(
            toc_nbytes(toc.take(k)),
            toc_nbytes(toc.take(k)) + toc[k].nbytes,
        ),
{
    lemma_auto_spec_u64_to_from_le_bytes();
    lemma_segment_round_trip(main, toc);
    let data = spec_segment(main, toc);
    let start = toc_nbytes(toc.take(k));
    lemma_toc_nbytes_monotone(toc, 0, k);
    lemma_toc_nbytes_monotone(toc, k + 1, toc.len() as int);
    lemma_toc_nbytes_take_all(toc);
    assert(toc.take(k + 1).drop_last() =~= toc.take(k));
    assert(toc_nbytes(toc.take(k + 1)) == start + toc[k].nbytes);
    assert(toc.take(0) =~= Seq::<EntryV>::empty());
    assert(start >= 0);
    assert(start + toc[k].nbytes <= toc_nbytes(toc) <= main.len());
    let header = spec_u64_to_le_bytes((8 + main.len()) as u64);
    assert(header.len() == 8);
    assert_seqs_equal!(
        data.subrange(8 + start, 8 + start + toc[k].nbytes as int)
            == main.subrange(start, start + toc[k].nbytes as int), q => {
        assert(data[8 + start + q] == (header + main + spec_encode_toc(toc))[8 + start + q]);
    });
}

/// Prefixes already-parsed entries onto the outcome of parsing the rest.
pub open spec fn prepend_toc(pre: Seq<EntryV>, r: Result<Seq<EntryV>, CodecError>) -> Result<
    Seq<EntryV>,
    CodecError,
> {
    match r {
        Ok(rest) => Ok(pre + rest),
        Err(err) => Err(err),
    }
}

/// The entries a sequence of exec entries stands for.
pub open spec fn entries_view(v: Seq<Entry>) -> Seq<EntryV> {
    v.map(|i: int, e: Entry| e@)
}

/// The full contents of a decodable segment: each table entry paired with
/// its posting bytes.
pub open spec fn seg_model(data: Seq<u8>) -> Seq<(EntryV, Seq<u8>)> {
    Seq::new(seg_toc(data).len(), |k: int| (seg_toc(data)[k], seg_entry_bytes(data, k)))
}

/// The concatenation of a sequence of byte strings.
pub open spec fn concat_seqs(s: Seq<Seq<u8>>) -> Seq<u8>
    decreases s.len(),
{
    if s.len() == 0 {
        Seq::empty()
    } else {
        concat_seqs(s.drop_last()) + s.last()
    }
}

/// Every entry a table parse yields has a term whose encoding fits the
/// format's 32-bit length field.
pub proof fn lemma_read_toc_wf_entries(data: Seq<u8>, pos: int)
    requires
        0 <= pos <= data.len(),
        spec_read_toc(data, pos) is Ok,
    ensures
        forall|k: int|
            0 <= k < spec_read_toc(data, pos)->Ok_0.len() ==> wf_entry(
                #[trigger] spec_read_toc(data, pos)->Ok_0[k],
            ),
    decreases data.len() - pos,
{
    match spec_read_entry(data, pos) {
        Ok(None) => {},
        Ok(Some((e, next))) => {
            let term_len = spec_u32_from_le_bytes(data.subrange(pos + 20, pos + 24)) as int;
            let tb = data.subrange(pos + 24, pos + 24 + term_len);
            decode_utf8_encode_utf8(tb);
            assert(encode_utf8(e.term) == tb);
            assert(wf_entry(e));
            lemma_read_toc_wf_entries(data, next);
            let rest = spec_read_toc(data, next)->Ok_0;
            assert(forall|k: int|
                0 <= k < rest.len() ==> (seq![e] + rest)[k + 1] == #[trigger] rest[k]);
            assert forall|k: int| 0 <= k < spec_read_toc(data, pos)->Ok_0.len() implies wf_entry(
                #[trigger] spec_read_toc(data, pos)->Ok_0[k],
            ) by {
                if k > 0 {
                    assert((seq![e] + rest)[k] == rest[k - 1]);
                }
            }
        },
        Err(_) => {},
    }
}

/// Every entry of a decodable segment's table has a term whose encoding
/// fits the format's 32-bit length field.
pub proof fn lemma_seg_toc_wf_entries(data: Seq<u8>)
    requires
        wf_segment(data),
    ensures
        forall|k: int| 0 <= k < seg_toc(data).len() ==> wf_entry(#[trigger] seg_toc(data)[k]),
{
    lemma_read_toc_wf_entries(data, toc_start_of(data));
}

/// Relies on String::from_utf8: it succeeds exactly on valid UTF-8 input
/// and the returned string's encoding is that input.
#[verifier::external_body]
pub(crate) fn utf8_to_string(bytes: Vec<u8>) -> (r: Option<String>)
    ensures
        r is Some <==> valid_utf8(bytes@),
        r is Some ==> encode_utf8(r->Some_0@) == bytes@,
{
    String::from_utf8(bytes).ok()
}

} // verus!
