//! Decoding a segment: [`IndexFileReader::open`] validates the whole
//! segment up front, then the reader walks the table of contents with a
//! lookahead ([`IndexFileReader::peek`], [`IndexFileReader::is_at`]) while
//! [`IndexFileReader::move_entry_to`] copies each entry's posting bytes,
//! in table order, into a writer building a merged segment. The caller
//! owns the backing file of the bytes handed in and deletes it once the
//! reader is done.

use crate::format::{
    entries_view, prepend_toc, seg_entry_bytes, seg_model, seg_toc, spec_read_entry,
    spec_read_toc, spec_validate, toc_nbytes, toc_start_of, utf8_to_string, wf_segment,
    CodecError, Entry, EntryV,
};
use crate::format::{lemma_toc_nbytes_monotone, lemma_toc_nbytes_take_all};
use crate::order::str_eq;
use crate::write::IndexFileWriter;
use vstd::bytes::{u32_from_le_bytes, u64_from_le_bytes};
use vstd::prelude::*;
use vstd::slice::{slice_subrange, slice_to_vec};
use vstd::utf8::encode_utf8_decode_utf8;

verus! {

/// Reads one segment's entries in table order, with a one-entry lookahead.
pub struct IndexFileReader {
    data: Vec<u8>,
    toc: Vec<Entry>,
    toc_pos: usize,
    main_pos: usize,
}

impl IndexFileReader {
    /// The segment is decodable, the parsed table matches it, and the main
    /// cursor sits exactly past the consumed entries' posting bytes.
    pub closed spec fn wf(self) -> bool {
        &&& wf_segment(self.data@)
        &&& entries_view(self.toc@) == seg_toc(self.data@)
        &&& self.toc_pos <= self.toc@.len()
        &&& self.main_pos == 8 + toc_nbytes(seg_toc(self.data@).take(self.toc_pos as int))
    }

    /// The entries not yet consumed, each with its posting bytes.
    pub closed spec fn model(self) -> Seq<(EntryV, Seq<u8>)> {
        Seq::new(
            (seg_toc(self.data@).len() - self.toc_pos) as nat,
            |k: int|
                (
                    seg_toc(self.data@)[self.toc_pos + k],
                    seg_entry_bytes(self.data@, self.toc_pos + k),
                ),
        )
    }

    /// Every remaining entry fits the format and declares exactly as many
    /// posting bytes as it holds.
    pub proof fn lemma_model_props(self)
        requires
            self.wf(),
        ensures
            forall|k: int|
                0 <= k < self.model().len() ==> crate::format::wf_entry(
                    (#[trigger] self.model()[k]).0,
                ) && self.model()[k].1.len() == self.model()[k].0.nbytes,
    {
        let full = seg_toc(self.data@);
        crate::format::lemma_seg_toc_wf_entries(self.data@);
        assert forall|k: int| 0 <= k < self.model().len() implies crate::format::wf_entry(
            (#[trigger] self.model()[k]).0,
        ) && self.model()[k].1.len() == self.model()[k].0.nbytes by {
            let p = self.toc_pos + k;
            assert(self.model()[k].0 == full[p]);
            lemma_toc_nbytes_monotone(full, 0, p);
            assert(full.take(0) =~= Seq::<EntryV>::empty());
            assert(full.take(p + 1).drop_last() =~= full.take(p));
            lemma_toc_nbytes_monotone(full, p + 1, full.len() as int);
            lemma_toc_nbytes_take_all(full);
            assert(toc_nbytes(full.take(p)) + full[p].nbytes <= toc_start_of(self.data@) - 8);
            assert(8 <= toc_start_of(self.data@) <= self.data@.len());
            assert(self.model()[k].1 == seg_entry_bytes(self.data@, p));
        }
    }

    /// Parses one table entry at `pos`: `Ok(None)` at the clean end of the
    /// data, otherwise the entry and the position after it.
    pub fn read_entry(data: &Vec<u8>, pos: usize) -> (r: Result<Option<(Entry, usize)>, CodecError>)
        requires
            pos <= data@.len(),
        ensures
            match spec_read_entry(data@, pos as int) {
                Ok(opt) => match opt {
                    Some((e, next)) => {
                        &&& r is Ok
                        &&& r->Ok_0 is Some
                        &&& r->Ok_0->Some_0.0@ == e
                        &&& r->Ok_0->Some_0.1 == next
                    },
                    None => r == Ok::<Option<(Entry, usize)>, CodecError>(None),
                },
                Err(err) => r == Err::<Option<(Entry, usize)>, CodecError>(err),
            },
    {
        proof {
            vstd::bytes::lemma_auto_spec_u32_to_from_le_bytes();
            vstd::bytes::lemma_auto_spec_u64_to_from_le_bytes();
        }
        if pos == data.len() {
            return Ok(None);
        }
        if data.len() - pos < 24 {
            return Err(CodecError::Truncated);
        }
        let s = data.as_slice();
        let offset = u64_from_le_bytes(slice_subrange(s, pos, pos + 8));
        let nbytes = u64_from_le_bytes(slice_subrange(s, pos + 8, pos + 16));
        let df = u32_from_le_bytes(slice_subrange(s, pos + 16, pos + 20));
        let term_len = u32_from_le_bytes(slice_subrange(s, pos + 20, pos + 24)) as usize;
        if term_len > data.len() - (pos + 24) {
            return Err(CodecError::Truncated);
        }
        let term_bytes = slice_to_vec(slice_subrange(s, pos + 24, pos + 24 + term_len));
        match utf8_to_string(term_bytes) {
            None => Err(CodecError::InvalidUtf8),
            Some(term) => {
                proof {
                    encode_utf8_decode_utf8(term@);
                }
                Ok(Some((Entry { term, df, offset, nbytes }, pos + 24 + term_len)))
            },
        }
    }

    /// Decodes a whole segment: succeeds exactly on a decodable one, and
    /// otherwise reports the segment's first defect.
    pub fn open(data: Vec<u8>) -> (r: Result<IndexFileReader, CodecError>)
        ensures
            r is Ok <==> wf_segment(data@),
            r is Err ==> spec_validate(data@) == Err::<Seq<EntryV>, CodecError>(r->Err_0),
            r is Ok ==> r->Ok_0.wf() && r->Ok_0.model() == seg_model(data@),
    {
        proof {
            vstd::bytes::lemma_auto_spec_u64_to_from_le_bytes();
        }
        if data.len() < 8 {
            return Err(CodecError::Truncated);
        }
        let header = slice_subrange(data.as_slice(), 0, 8);
        let toc_start = u64_from_le_bytes(header);
        proof {
            assert(header@ == data@.subrange(0, 8));
            assert(toc_start == toc_start_of(data@));
        }
        if toc_start < 8 || toc_start > data.len() as u64 {
            return Err(CodecError::Truncated);
        }
        let ghost ts = toc_start as int;
        let mut pos: usize = toc_start as usize;
        let mut toc: Vec<Entry> = Vec::new();
        proof {
            assert(entries_view(toc@) =~= Seq::<EntryV>::empty());
            assert(spec_read_toc(data@, ts) == prepend_toc(
                entries_view(toc@),
                spec_read_toc(data@, pos as int),
            ));
        }
        loop
            invariant
                8 <= ts <= data@.len(),
                ts == toc_start_of(data@),
                ts <= pos <= data@.len(),
                spec_read_toc(data@, ts) == prepend_toc(
                    entries_view(toc@),
                    spec_read_toc(data@, pos as int),
                ),
            ensures
                pos == data@.len(),
                spec_read_toc(data@, ts) == Ok::<Seq<EntryV>, CodecError>(entries_view(toc@)),
            decreases data@.len() - pos,
        {
            let ghost pre = entries_view(toc@);
            match Self::read_entry(&data, pos) {
                Err(err) => {
                    proof {
                        assert(spec_read_toc(data@, pos as int) == Err::<
                            Seq<EntryV>,
                            CodecError,
                        >(err));
                        assert(spec_validate(data@) == Err::<Seq<EntryV>, CodecError>(err));
                    }
                    return Err(err);
                },
                Ok(None) => {
                    proof {
                        assert(spec_read_toc(data@, pos as int) == Ok::<
                            Seq<EntryV>,
                            CodecError,
                        >(Seq::<EntryV>::empty()));
                        assert(pre + Seq::<EntryV>::empty() =~= pre);
                    }
                    break ;
                },
                Ok(Some((e, next))) => {
                    proof {
                        let ev = spec_read_entry(data@, pos as int)->Ok_0->Some_0.0;
                        assert(spec_read_toc(data@, pos as int) == prepend_toc(
                            seq![ev],
                            spec_read_toc(data@, next as int),
                        ));
                        assert(entries_view(toc@.push(e)) =~= pre + seq![e@]);
                        assert(e@ == ev);
                        assert(forall|rest: Seq<EntryV>|
                            pre + (seq![ev] + rest) =~= (pre + seq![ev]) + rest);
                    }
                    toc.push(e);
                    pos = next;
                },
            }
        }
        let ghost full = entries_view(toc@);
        // the declared posting bytes must fit before the table of contents
        let budget = toc_start - 8;
        let mut acc: u64 = 0;
        let mut k: usize = 0;
        proof {
            assert(full.take(0) =~= Seq::<EntryV>::empty());
        }
        while k < toc.len()
            invariant
                k <= toc@.len(),
                entries_view(toc@) == full,
                spec_read_toc(data@, toc_start_of(data@)) == Ok::<Seq<EntryV>, CodecError>(full),
                8 <= toc_start_of(data@) <= data@.len(),
                budget == toc_start_of(data@) - 8,
                8 <= data@.len(),
                acc == toc_nbytes(full.take(k as int)),
                acc <= budget,
            decreases toc@.len() - k,
        {
            let nb = toc[k].nbytes;
            proof {
                assert(full.take(k + 1).drop_last() =~= full.take(k as int));
                assert(full.take(k + 1).last() == toc@[k as int]@);
            }
            if nb > budget - acc {
                proof {
                    lemma_toc_nbytes_monotone(full, k + 1, full.len() as int);
                    lemma_toc_nbytes_take_all(full);
                    assert(toc_nbytes(full) > budget);
                    assert(spec_validate(data@) == Err::<Seq<EntryV>, CodecError>(
                        CodecError::EntryTooLarge,
                    ));
                }
                return Err(CodecError::EntryTooLarge);
            }
            acc = acc + nb;
            k = k + 1;
        }
        proof {
            lemma_toc_nbytes_take_all(full);
            assert(full.take(toc@.len() as int) =~= full);
            assert(toc_nbytes(full) <= toc_start_of(data@) - 8);
            assert(spec_validate(data@) == Ok::<Seq<EntryV>, CodecError>(full));
        }
        let r = IndexFileReader { data, toc, toc_pos: 0, main_pos: 8 };
        proof {
            assert(seg_toc(r.data@).take(0) =~= Seq::<EntryV>::empty());
            assert(r.wf());
            assert(r.model() =~= seg_model(r.data@));
        }
        Ok(r)
    }

    /// Borrows the next unread table entry, if any.
    pub fn peek(&self) -> (r: Option<&Entry>)
        requires
            self.wf(),
        ensures
            match r {
                Some(e) => self.model().len() > 0 && e@ == self.model()[0].0,
                None => self.model().len() == 0,
            },
    {
        if self.toc_pos < self.toc.len() {
            Some(&self.toc[self.toc_pos])
        } else {
            None
        }
    }

    /// Whether the lookahead entry's term is `term`.
    pub fn is_at(&self, term: &str) -> (r: bool)
        requires
            self.wf(),
        ensures
            r == (self.model().len() > 0 && self.model()[0].0.term == term@),
    {
        if self.toc_pos < self.toc.len() {
            str_eq(self.toc[self.toc_pos].term.as_str(), term)
        } else {
            false
        }
    }

    /// Copies the lookahead entry's posting bytes from the main region
    /// into `out`'s main region — no table entry is written — and advances
    /// the lookahead.
    pub fn move_entry_to(&mut self, out: &mut IndexFileWriter)
        requires
            old(self).wf(),
            old(self).model().len() > 0,
            old(out).wf(),
        ensures
            final(self).wf(),
            final(self).model() == old(self).model().drop_first(),
            final(out).wf(),
            final(out).main_region() == old(out).main_region() + old(self).model()[0].1,
            final(out).toc() == old(out).toc(),
    {
        let ghost full = seg_toc(self.data@);
        let ghost p = self.toc_pos as int;
        proof {
            assert(entries_view(self.toc@).len() == self.toc@.len());
            assert(self.toc_pos < self.toc@.len());
            lemma_toc_nbytes_monotone(full, 0, p);
            assert(full.take(0) =~= Seq::<EntryV>::empty());
            assert(full.take(p + 1).drop_last() =~= full.take(p));
            assert(full.take(p + 1).last() == full[p]);
            lemma_toc_nbytes_monotone(full, p + 1, full.len() as int);
            lemma_toc_nbytes_take_all(full);
            assert(toc_nbytes(full.take(p)) + full[p].nbytes <= toc_start_of(self.data@) - 8);
            assert(entries_view(self.toc@)[p] == self.toc@[p]@);
            assert(full[p].nbytes == self.toc@[p]@.nbytes);
            assert(8 <= toc_start_of(self.data@) <= self.data@.len());
            assert(self.main_pos == 8 + toc_nbytes(full.take(p)));
            assert(self.main_pos + full[p].nbytes <= self.data@.len());
        }
        let data_len = self.data.len();
        proof {
            assert(full[p].nbytes <= data_len);
        }
        let nb = self.toc[self.toc_pos].nbytes as usize;
        proof {
            assert(nb == full[p].nbytes);
        }
        let from = self.main_pos;
        out.write_main(slice_subrange(self.data.as_slice(), from, from + nb));
        proof {
            assert(self.data@.subrange(from as int, from + nb as int) == seg_entry_bytes(
                self.data@,
                p,
            ));
            assert(old(self).model()[0].1 == seg_entry_bytes(self.data@, p));
        }
        self.main_pos = from + nb;
        let toc_len = self.toc.len();
        proof {
            assert(self.toc_pos < toc_len);
        }
        self.toc_pos = self.toc_pos + 1;
        proof {
            assert(self.main_pos == 8 + toc_nbytes(full.take(self.toc_pos as int)));
            assert(self.model() =~= old(self).model().drop_first());
        }
    }
}

} // verus!
