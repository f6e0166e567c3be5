//! Encoding an in-memory index as a segment: an [`IndexFileWriter`] grows
//! the main region and the table of contents in step, and
//! [`write_index_to_buf`] drives it over the index's terms in sorted order.

use crate::format::{
    concat_seqs, lemma_encode_toc_push, lemma_segment_entry_bytes, lemma_segment_round_trip,
    lemma_toc_nbytes_monotone, lemma_toc_nbytes_take_all, seg_entry_bytes, seg_toc,
    spec_encode_toc, spec_segment, toc_nbytes, wf_entry, wf_segment, CodecError, EntryV,
};
use crate::index::{
    assoc_keys, assoc_map, lemma_assoc_map_dom, lemma_assoc_map_index,
    lemma_assoc_map_permutation, InMemoryIndex, TermHits,
};
use crate::order::{
    lemma_term_lt_connected, lemma_term_lt_irreflexive, lemma_term_lt_transitive, term_less,
    term_lt,
};
use vstd::bytes::{u32_to_le_bytes, u64_to_le_bytes};
use vstd::multiset::Multiset;
use vstd::prelude::*;
use vstd::seq_lib::*;
use vstd::utf8::encode_utf8;

verus! {

/// Accumulates a segment in memory: posting bytes go to the main region
/// through [`IndexFileWriter::write_main`], table entries are queued by
/// [`IndexFileWriter::write_content_entry`], and
/// [`IndexFileWriter::finish`] lays the segment out as header, main
/// region, table of contents.
pub struct IndexFileWriter {
    buf: Vec<u8>,
    content_buf: Vec<u8>,
    entries: Ghost<Seq<EntryV>>,
}

impl IndexFileWriter {
    /// The main region written so far (the buffer minus the header).
    pub closed spec fn main_region(self) -> Seq<u8> {
        self.buf@.skip(8)
    }

    /// The table entries queued so far.
    pub closed spec fn toc(self) -> Seq<EntryV> {
        self.entries@
    }

    /// The queued bytes encode the queued entries, and every term fits the
    /// format.
    pub closed spec fn wf(self) -> bool {
        &&& self.buf@.len() >= 8
        &&& self.content_buf@ == spec_encode_toc(self.entries@)
        &&& forall|k: int| 0 <= k < self.entries@.len() ==> wf_entry(#[trigger] self.entries@[k])
    }

    pub fn new() -> (r: IndexFileWriter)
        ensures
            r.wf(),
            r.main_region() == Seq::<u8>::empty(),
            r.toc() == Seq::<EntryV>::empty(),
    {
        let buf = u64_to_le_bytes(0);
        proof {
            vstd::bytes::lemma_auto_spec_u64_to_from_le_bytes();
            assert(buf@.skip(8) =~= Seq::<u8>::empty());
        }
        IndexFileWriter { buf, content_buf: Vec::new(), entries: Ghost(Seq::empty()) }
    }

    /// Bytes written so far, header included: the offset at which the next
    /// `write_main` lands.
    pub fn offset(&self) -> (r: u64)
        requires
            self.wf(),
        ensures
            r == 8 + self.main_region().len(),
    {
        self.buf.len() as u64
    }

    /// Appends posting bytes to the main region.
    pub fn write_main(&mut self, bytes: &[u8])
        requires
            old(self).wf(),
        ensures
            final(self).wf(),
            final(self).main_region() == old(self).main_region() + bytes@,
            final(self).toc() == old(self).toc(),
    {
        self.buf.extend_from_slice(bytes);
        proof {
            assert(self.buf@.skip(8) =~= old(self).buf@.skip(8) + bytes@);
        }
    }

    /// Queues one table entry.
    pub fn write_content_entry(&mut self, term: String, df: u32, offset: u64, nbytes: u64)
        requires
            old(self).wf(),
            encode_utf8(term@).len() <= u32::MAX,
        ensures
            final(self).wf(),
            final(self).main_region() == old(self).main_region(),
            final(self).toc() == old(self).toc().push(
                EntryV { term: term@, df, offset, nbytes },
            ),
    {
        let ghost e = EntryV { term: term@, df, offset, nbytes };
        let mut part = u64_to_le_bytes(offset);
        self.content_buf.append(&mut part);
        let mut part = u64_to_le_bytes(nbytes);
        self.content_buf.append(&mut part);
        let mut part = u32_to_le_bytes(df);
        self.content_buf.append(&mut part);
        let mut term_bytes = term.as_str().as_bytes_vec();
        let mut part = u32_to_le_bytes(term_bytes.len() as u32);
        self.content_buf.append(&mut part);
        self.content_buf.append(&mut term_bytes);
        proof {
            lemma_encode_toc_push(old(self).entries@, e);
            assert(self.content_buf@ =~= spec_encode_toc(old(self).entries@.push(e)));
        }
        self.entries = Ghost(self.entries@.push(e));
    }

    /// Lays out the finished segment. When the queued entries' posting
    /// bytes fill the main region exactly, the result is a decodable
    /// segment whose table of contents is the queued entries.
    pub fn finish(self) -> (r: Vec<u8>)
        requires
            self.wf(),
        ensures
            r@ == spec_segment(self.main_region(), self.toc()),
            toc_nbytes(self.toc()) == self.main_region().len() ==> wf_segment(r@) && seg_toc(r@)
                == self.toc(),
    {
        let IndexFileWriter { mut buf, mut content_buf, entries } = self;
        let ghost main = buf@.skip(8);
        let content_start = buf.len() as u64;
        let ghost pre_buf = buf@;
        buf.append(&mut content_buf);
        let header = u64_to_le_bytes(content_start);
        proof {
            vstd::bytes::lemma_auto_spec_u64_to_from_le_bytes();
        }
        proof {
            assert forall|i: int| 8 <= i < buf@.len() implies buf@[i] == (main
                + spec_encode_toc(entries@))[i - 8] by {
                if i < 8 + main.len() {
                    assert(buf@[i] == pre_buf[i]);
                    assert(pre_buf[i] == main[i - 8]);
                }
            }
        }
        let mut q: usize = 0;
        while q < 8
            invariant
                q <= 8,
                buf@.len() == 8 + main.len() + spec_encode_toc(entries@).len(),
                header@.len() == 8,
                header@ == vstd::bytes::spec_u64_to_le_bytes((8 + main.len()) as u64),
                forall|i: int| 0 <= i < q ==> buf@[i] == header@[i],
                forall|i: int|
                    8 <= i < buf@.len() ==> buf@[i] == (main + spec_encode_toc(entries@))[i - 8],
            decreases 8 - q,
        {
            let b = header[q];
            buf[q] = b;
            q = q + 1;
        }
        proof {
            assert(buf@ =~= spec_segment(main, entries@));
            if toc_nbytes(entries@) == main.len() {
                lemma_segment_round_trip(main, entries@);
            }
        }
        buf
    }
}

/// A term and its posting buffers that fit the format's 32-bit document
/// frequency and term length fields.
pub open spec fn index_entry_ok(term: Seq<char>, hits: Seq<Seq<u8>>) -> bool {
    encode_utf8(term).len() <= u32::MAX && hits.len() <= u32::MAX
}

/// Every term of the contents fits the format's fields.
pub open spec fn all_entries_ok(m: Map<Seq<char>, Seq<Seq<u8>>>) -> bool {
    forall|k: Seq<char>| m.contains_key(k) ==> index_entry_ok(k, #[trigger] m[k])
}

/// The segment `data` indexes exactly the contents `m`: its table of
/// contents lists `m`'s terms in strictly increasing order, and each entry
/// carries the term's document frequency, the length of its concatenated
/// posting buffers, the position of those bytes in the main region, and
/// the bytes themselves.
pub open spec fn segment_matches_contents(m: Map<Seq<char>, Seq<Seq<u8>>>, data: Seq<u8>) -> bool {
    let toc = seg_toc(data);
    &&& forall|i: int, j: int|
        0 <= i < j < toc.len() ==> term_lt(#[trigger] toc[i].term, #[trigger] toc[j].term)
    &&& forall|i: int| 0 <= i < toc.len() ==> m.contains_key(#[trigger] toc[i].term)
    &&& forall|k: Seq<char>|
        m.contains_key(k) ==> exists|i: int| 0 <= i < toc.len() && #[trigger] toc[i].term == k
    &&& forall|i: int|
        0 <= i < toc.len() ==> (#[trigger] toc[i]).df == m[toc[i].term].len()
    &&& forall|i: int|
        0 <= i < toc.len() ==> (#[trigger] toc[i]).nbytes == concat_seqs(m[toc[i].term]).len()
    &&& forall|i: int|
        0 <= i < toc.len() ==> (#[trigger] toc[i]).offset == 8 + toc_nbytes(toc.take(i))
    &&& forall|i: int|
        0 <= i < toc.len() ==> seg_entry_bytes(data, i) == concat_seqs(
            m[(#[trigger] toc[i]).term],
        )
}

/// One built table entry agrees with the sorted slot it came from: same
/// term, the slot's posting-buffer count and total byte length, and its
/// bytes placed at the running offset in the main region.
pub open spec fn built_entry(sorted: Seq<TermHits>, toc: Seq<EntryV>, main: Seq<u8>, k: int) -> bool {
    let e = toc[k];
    &&& e.term == sorted[k].term@
    &&& e.df == sorted[k].hits.deep_view().len()
    &&& e.nbytes == concat_seqs(sorted[k].hits.deep_view()).len()
    &&& e.offset == 8 + toc_nbytes(toc.take(k))
    &&& index_entry_ok(e.term, sorted[k].hits.deep_view())
    &&& main.subrange(
        toc_nbytes(toc.take(k)),
        toc_nbytes(toc.take(k)) + e.nbytes as int,
    ) == concat_seqs(sorted[k].hits.deep_view())
}

/// Appending one slot's entry and bytes keeps every built entry in place.
proof fn lemma_built_entry_step(
    sorted: Seq<TermHits>,
    toc0: Seq<EntryV>,
    main0: Seq<u8>,
    e: EntryV,
    i: int,
)
    requires
        0 <= i < sorted.len(),
        toc0.len() == i,
        main0.len() == toc_nbytes(toc0),
        forall|k: int| 0 <= k < i ==> built_entry(sorted, toc0, main0, k),
        e.term == sorted[i].term@,
        e.df == sorted[i].hits.deep_view().len(),
        e.nbytes == concat_seqs(sorted[i].hits.deep_view()).len(),
        e.offset == 8 + main0.len(),
        index_entry_ok(e.term, sorted[i].hits.deep_view()),
    ensures
        toc_nbytes(toc0.push(e)) == main0.len() + e.nbytes,
        forall|k: int|
            0 <= k < i + 1 ==> built_entry(
                sorted,
                toc0.push(e),
                main0 + concat_seqs(sorted[i].hits.deep_view()),
                k,
            ),
{
    let toc = toc0.push(e);
    let main = main0 + concat_seqs(sorted[i].hits.deep_view());
    assert(toc.drop_last() =~= toc0);
    assert(toc_nbytes(toc) == toc_nbytes(toc0) + e.nbytes);
    assert forall|k: int| 0 <= k < i + 1 implies built_entry(sorted, toc, main, k) by {
        assert(toc.take(k) =~= toc0.take(k));
        if k < i {
            assert(toc[k] == toc0[k]);
            let en = toc0[k];
            assert(built_entry(sorted, toc0, main0, k));
            assert(toc0.take(k + 1).drop_last() =~= toc0.take(k));
            assert(toc_nbytes(toc0.take(k + 1)) == toc_nbytes(toc0.take(k)) + en.nbytes);
            lemma_toc_nbytes_monotone(toc0, 0, k);
            assert(toc0.take(0) =~= Seq::<EntryV>::empty());
            assert(toc_nbytes(toc0.take(k)) >= 0);
            lemma_toc_nbytes_monotone(toc0, k + 1, toc0.len() as int);
            lemma_toc_nbytes_take_all(toc0);
            assert(toc_nbytes(toc0.take(k)) + en.nbytes as int <= main0.len());
            assert(main.subrange(
                toc_nbytes(toc0.take(k)),
                toc_nbytes(toc0.take(k)) + en.nbytes as int,
            ) =~= main0.subrange(
                toc_nbytes(toc0.take(k)),
                toc_nbytes(toc0.take(k)) + en.nbytes as int,
            ));
        } else {
            assert(toc[k] == e);
            assert(toc.take(k) =~= toc0);
            assert(toc_nbytes(toc.take(k)) == main0.len());
            assert(main.subrange(main0.len() as int, main0.len() + e.nbytes as int)
                =~= concat_seqs(sorted[i].hits.deep_view()));
        }
    }
}

/// A segment built from every slot of a sorted association list indexes
/// the list's contents.
#[verifier::rlimit(100)]
#[verifier::spinoff_prover]
proof fn lemma_built_segment_matches(
    contents: Map<Seq<char>, Seq<Seq<u8>>>,
    sorted: Seq<TermHits>,
    toc: Seq<EntryV>,
    main: Seq<u8>,
    out: Seq<u8>,
)
    requires
        contents == assoc_map(sorted),
        forall|p: int, q: int| 0 <= p < q < sorted.len() ==> sorted[p].term@ != sorted[q].term@,
        forall|p: int, q: int|
            0 <= p < q < sorted.len() ==> term_lt(
                #[trigger] sorted[p].term@,
                #[trigger] sorted[q].term@,
            ),
        toc.len() == sorted.len(),
        main.len() == toc_nbytes(toc),
        forall|k: int| 0 <= k < toc.len() ==> built_entry(sorted, toc, main, k),
        out == spec_segment(main, toc),
        wf_segment(out),
        seg_toc(out) == toc,
        forall|k: int| 0 <= k < toc.len() ==> wf_entry(#[trigger] toc[k]),
    ensures
        segment_matches_contents(contents, out),
        all_entries_ok(contents),
{
    assert forall|k: int| 0 <= k < toc.len() implies contents.contains_key(
        #[trigger] toc[k].term,
    ) && contents[toc[k].term] == sorted[k].hits.deep_view() by {
        assert(built_entry(sorted, toc, main, k));
        lemma_assoc_map_index(sorted, k);
    }
    assert forall|i: int, j: int| 0 <= i < j < toc.len() implies term_lt(
        #[trigger] toc[i].term,
        #[trigger] toc[j].term,
    ) by {
        assert(built_entry(sorted, toc, main, i));
        assert(built_entry(sorted, toc, main, j));
        assert(toc[i].term == sorted[i].term@ && toc[j].term == sorted[j].term@);
    }
    assert forall|k: Seq<char>| contents.contains_key(k) implies exists|i: int|
        0 <= i < toc.len() && #[trigger] toc[i].term == k by {
        lemma_assoc_map_dom(sorted, k);
        let i = choose|i: int| 0 <= i < sorted.len() && assoc_keys(sorted)[i] == k;
        assert(sorted[i].term@ == k);
        assert(built_entry(sorted, toc, main, i));
        assert(toc[i].term == k);
    }
    assert forall|k: Seq<char>| contents.contains_key(k) implies index_entry_ok(
        k,
        #[trigger] contents[k],
    ) by {
        lemma_assoc_map_dom(sorted, k);
        let i = choose|i: int| 0 <= i < sorted.len() && assoc_keys(sorted)[i] == k;
        assert(sorted[i].term@ == k);
        assert(built_entry(sorted, toc, main, i));
        lemma_assoc_map_index(sorted, i);
    }
    assert forall|i: int| 0 <= i < toc.len() implies seg_entry_bytes(out, i) == concat_seqs(
        contents[(#[trigger] toc[i]).term],
    ) by {
        lemma_segment_entry_bytes(main, toc, i);
        assert(built_entry(sorted, toc, main, i));
    }
    assert forall|i: int| 0 <= i < toc.len() implies ((#[trigger] toc[i]).df
        == contents[toc[i].term].len() && toc[i].nbytes == concat_seqs(
        contents[toc[i].term],
    ).len() && toc[i].offset == 8 + toc_nbytes(toc.take(i))) by {
        assert(built_entry(sorted, toc, main, i));
        assert(contents[toc[i].term] == sorted[i].hits.deep_view());
    }
}

/// Encodes an index as one segment: terms in strictly increasing order,
/// each with its concatenated posting buffers in the main region and one
/// table entry. Fails exactly when a term\'s encoding or posting-buffer
/// count overflows the format\'s 32-bit fields.
pub fn write_index_to_buf(index: InMemoryIndex) -> (r: Result<Vec<u8>, CodecError>)
    requires
        index.wf(),
    ensures
        r is Ok <==> all_entries_ok(index.contents()),
        r is Err ==> r->Err_0 == CodecError::EntryTooLarge,
        r is Ok ==> wf_segment(r->Ok_0@) && segment_matches_contents(index.contents(), r->Ok_0@),
{
    let ghost contents = index.contents();
    let InMemoryIndex { word_count: _, map: slots } = index;
    let ghost orig_slots = slots@;
    proof {
        assert(contents == assoc_map(orig_slots));
    }
    let sorted = sort_by_term(slots);
    proof {
        lemma_assoc_map_permutation(orig_slots, sorted@);
        assert forall|p: int, q: int| 0 <= p < q < sorted@.len() implies term_lt(
            #[trigger] sorted@[p].term@,
            #[trigger] sorted@[q].term@,
        ) by {
            lemma_term_lt_connected(sorted@[p].term@, sorted@[q].term@);
        }
    }
    let mut w = IndexFileWriter::new();
    let mut i: usize = 0;
    while i < sorted.len()
        invariant
            contents == index.contents(),
            contents == assoc_map(sorted@),
            forall|p: int, q: int|
                0 <= p < q < sorted@.len() ==> sorted@[p].term@ != sorted@[q].term@,
            forall|p: int, q: int|
                0 <= p < q < sorted@.len() ==> term_lt(
                    #[trigger] sorted@[p].term@,
                    #[trigger] sorted@[q].term@,
                ),
            i <= sorted@.len(),
            w.wf(),
            w.toc().len() == i,
            w.main_region().len() == toc_nbytes(w.toc()),
            forall|k: int| 0 <= k < i ==> built_entry(sorted@, w.toc(), w.main_region(), k),
        decreases sorted@.len() - i,
    {
        let th = &sorted[i];
        let term_byte_len = th.term.as_str().as_bytes_vec().len();
        if term_byte_len > u32::MAX as usize || th.hits.len() > u32::MAX as usize {
            proof {
                lemma_assoc_map_index(sorted@, i as int);
                assert(contents.contains_key(th.term@));
                assert(!index_entry_ok(th.term@, contents[th.term@]));
                assert(!all_entries_ok(contents)) by {
                    assert(contents.contains_key(th.term@) && !index_entry_ok(
                        th.term@,
                        contents[th.term@],
                    ));
                }
            }
            return Err(CodecError::EntryTooLarge);
        }
        let df = th.hits.len() as u32;
        let start = w.offset();
        let ghost toc0 = w.toc();
        let ghost main0 = w.main_region();
        let ghost hits_view = th.hits.deep_view();
        let mut h: usize = 0;
        proof {
            assert(hits_view.take(0) =~= Seq::<Seq<u8>>::empty());
            assert(main0 + concat_seqs(hits_view.take(0)) =~= main0);
        }
        while h < th.hits.len()
            invariant
                h <= th.hits@.len(),
                hits_view == th.hits.deep_view(),
                th == &sorted[i as int],
                i < sorted@.len(),
                w.wf(),
                w.toc() == toc0,
                w.main_region() == main0 + concat_seqs(hits_view.take(h as int)),
            decreases th.hits@.len() - h,
        {
            w.write_main(th.hits[h].as_slice());
            proof {
                assert(hits_view.take(h + 1).drop_last() =~= hits_view.take(h as int));
                assert(hits_view.take(h + 1).last() == th.hits@[h as int]@);
                assert(w.main_region() =~= main0 + concat_seqs(hits_view.take(h + 1)));
            }
            h = h + 1;
        }
        let stop = w.offset();
        proof {
            assert(hits_view.take(th.hits@.len() as int) =~= hits_view);
            assert(w.main_region() == main0 + concat_seqs(hits_view));
            assert(stop - start == concat_seqs(hits_view).len());
        }
        let term_copy = th.term.clone();
        proof {
            assert(term_byte_len == encode_utf8(th.term@).len());
            assert(term_copy@ == th.term@);
        }
        w.write_content_entry(term_copy, df, start, stop - start);
        let ghost e = EntryV { term: th.term@, df, offset: start, nbytes: (stop - start) as u64 };
        proof {
            assert(w.toc() =~= toc0.push(e));
            lemma_built_entry_step(sorted@, toc0, main0, e, i as int);
        }
        i = i + 1;
    }
    let ghost toc = w.toc();
    let ghost main = w.main_region();
    let out = w.finish();
    proof {
        assert(contents == index.contents());
        lemma_built_segment_matches(contents, sorted@, toc, main, out@);
    }
    Ok(out)
}


/// Sorts slots by term, ascending.
fn sort_by_term(v: Vec<TermHits>) -> (r: Vec<TermHits>)
    ensures
        r@.to_multiset() == v@.to_multiset(),
        forall|i: int, j: int|
            0 <= i < j < r@.len() ==> !term_lt(#[trigger] r@[j].term@, #[trigger] r@[i].term@),
{
    let mut src = v;
    let mut out: Vec<TermHits> = Vec::new();
    proof {
        src@.to_multiset_ensures();
        out@.to_multiset_ensures();
        assert(out@.to_multiset().add(src@.to_multiset()) =~= v@.to_multiset());
    }
    loop
        invariant
            out@.to_multiset().add(src@.to_multiset()) == v@.to_multiset(),
            forall|i: int, j: int|
                0 <= i < j < out@.len() ==> !term_lt(
                    #[trigger] out@[j].term@,
                    #[trigger] out@[i].term@,
                ),
        ensures
            src@.len() == 0,
            out@.to_multiset().add(src@.to_multiset()) == v@.to_multiset(),
            forall|i: int, j: int|
                0 <= i < j < out@.len() ==> !term_lt(
                    #[trigger] out@[j].term@,
                    #[trigger] out@[i].term@,
                ),
        decreases src@.len(),
    {
        let ghost old_src = src@;
        let item = match src.pop() {
            Some(item) => item,
            None => { break ; },
        };
        proof {
            src@.to_multiset_ensures();
            assert(old_src =~= src@.push(item));
            assert(src@.push(item).to_multiset() == src@.to_multiset().insert(item));
            assert(out@.to_multiset().add(src@.to_multiset().insert(item)) == v@.to_multiset());
        }
        let mut p: usize = 0;
        while p < out.len() && term_less(&out[p].term, &item.term)
            invariant
                p <= out@.len(),
                forall|k: int| 0 <= k < p ==> term_lt(#[trigger] out@[k].term@, item.term@),
            decreases out@.len() - p,
        {
            p = p + 1;
        }
        let ghost old_out = out@;
        out.insert(p, item);
        proof {
            old_out.to_multiset_ensures();
            to_multiset_insert(old_out, p as int, item);
            assert(out@.to_multiset().add(src@.to_multiset()) =~= v@.to_multiset());
            old_out.insert_ensures(p as int, item);
            assert forall|i: int, j: int| 0 <= i < j < out@.len() implies !term_lt(
                #[trigger] out@[j].term@,
                #[trigger] out@[i].term@,
            ) by {
                lemma_term_lt_irreflexive(item.term@);
                if i == p {
                    // out[i] is the new item; out[j] was old_out[j - 1]
                    assert(out@[j] == old_out[j - 1]);
                    if term_lt(out@[j].term@, item.term@) {
                        if p < old_out.len() {
                            assert(!term_lt(old_out[p as int].term@, item.term@));
                            if j - 1 > p {
                                assert(!term_lt(old_out[j - 1].term@, old_out[p as int].term@));
                                lemma_term_lt_connected(
                                    old_out[p as int].term@,
                                    old_out[j - 1].term@,
                                );
                                if term_lt(old_out[p as int].term@, old_out[j - 1].term@) {
                                    lemma_term_lt_transitive(
                                        old_out[p as int].term@,
                                        old_out[j - 1].term@,
                                        item.term@,
                                    );
                                }
                            }
                        }
                    }
                } else if j == p {
                    // out[j] is the new item; out[i] was old_out[i]
                    assert(out@[i] == old_out[i]);
                    assert(term_lt(old_out[i].term@, item.term@));
                    if term_lt(item.term@, old_out[i].term@) {
                        lemma_term_lt_transitive(item.term@, old_out[i].term@, item.term@);
                    }
                } else if i < p && j < p {
                    assert(out@[i] == old_out[i] && out@[j] == old_out[j]);
                } else if i > p && j > p {
                    assert(out@[i] == old_out[i - 1] && out@[j] == old_out[j - 1]);
                } else {
                    // i < p < j
                    assert(out@[i] == old_out[i] && out@[j] == old_out[j - 1]);
                }
            }
        }
    }
    proof {
        src@.to_multiset_ensures();
        assert(src@.to_multiset() =~= Multiset::<TermHits>::empty());
        assert(out@.to_multiset() =~= v@.to_multiset());
    }
    out
}

} // verus!

