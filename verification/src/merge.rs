//! Folding many segments into one. [`merge_stream`] k-way-merges a batch
//! of segments: round after round it takes the smallest term any reader is
//! at, combines every reader positioned at that term — document
//! frequencies and byte lengths summed, posting bytes copied in reader
//! order — and writes one consolidated entry. [`FileMerge`] keeps the
//! fan-in of every such batch bounded by [`NSTREAMS`] with a leveled
//! stack of pending segment files.

use crate::format::{
    seg_model, spec_validate, toc_nbytes, wf_segment, CodecError, EntryV,
};
use crate::order::{
    lemma_term_lt_connected, lemma_term_lt_irreflexive, lemma_term_lt_transitive, str_eq,
    term_less, term_lt,
};
use crate::read::IndexFileReader;
use crate::write::IndexFileWriter;
use vstd::prelude::*;

verus! {

/// How many segments one merge step combines at most.
pub const NSTREAMS: usize = 8;

/// One entry of a merged table of contents: a term with its combined
/// document frequency and combined posting byte count.
pub ghost struct MergedEntry {
    pub term: Seq<char>,
    pub df: int,
    pub nbytes: int,
    pub bytes: Seq<u8>,
}

/// The smallest term among the heads of the first `j` inputs.
pub open spec fn min_pref(cur: Seq<Seq<(EntryV, Seq<u8>)>>, j: int) -> Option<Seq<char>>
    decreases j,
{
    if j <= 0 {
        None
    } else {
        let prev = min_pref(cur, j - 1);
        if cur[j - 1].len() == 0 {
            prev
        } else {
            let t = cur[j - 1][0].0.term;
            match prev {
                None => Some(t),
                Some(m) => if term_lt(t, m) {
                    Some(t)
                } else {
                    Some(m)
                },
            }
        }
    }
}

/// Combined document frequency of term `t` over the heads of the first
/// `j` inputs.
pub open spec fn df_pref(cur: Seq<Seq<(EntryV, Seq<u8>)>>, j: int, t: Seq<char>) -> int
    decreases j,
{
    if j <= 0 {
        0
    } else {
        df_pref(cur, j - 1, t) + if cur[j - 1].len() > 0 && cur[j - 1][0].0.term == t {
            cur[j - 1][0].0.df as int
        } else {
            0
        }
    }
}

/// Combined posting byte count of term `t` over the heads of the first
/// `j` inputs.
pub open spec fn nb_pref(cur: Seq<Seq<(EntryV, Seq<u8>)>>, j: int, t: Seq<char>) -> int
    decreases j,
{
    if j <= 0 {
        0
    } else {
        nb_pref(cur, j - 1, t) + if cur[j - 1].len() > 0 && cur[j - 1][0].0.term == t {
            cur[j - 1][0].0.nbytes as int
        } else {
            0
        }
    }
}

/// Combined posting bytes of term `t` over the heads of the first `j`
/// inputs, in input order.
pub open spec fn bytes_pref(cur: Seq<Seq<(EntryV, Seq<u8>)>>, j: int, t: Seq<char>) -> Seq<u8>
    decreases j,
{
    if j <= 0 {
        Seq::empty()
    } else {
        bytes_pref(cur, j - 1, t) + if cur[j - 1].len() > 0 && cur[j - 1][0].0.term == t {
            cur[j - 1][0].1
        } else {
            Seq::empty()
        }
    }
}

/// When every head's bytes are as long as its entry declares, the
/// combined bytes are as long as the combined declaration.
pub proof fn lemma_bytes_pref_len(cur: Seq<Seq<(EntryV, Seq<u8>)>>, j: int, t: Seq<char>)
    requires
        forall|i: int|
            0 <= i < j && (#[trigger] cur[i]).len() > 0 ==> cur[i][0].1.len()
                == cur[i][0].0.nbytes,
    ensures
        bytes_pref(cur, j, t).len() == nb_pref(cur, j, t),
    decreases j,
{
    if j > 0 {
        lemma_bytes_pref_len(cur, j - 1, t);
    }
}

/// The inputs after the first `j` of them drop a head holding term `t`.
pub open spec fn advance_pref(cur: Seq<Seq<(EntryV, Seq<u8>)>>, j: int, t: Seq<char>) -> Seq<
    Seq<(EntryV, Seq<u8>)>,
> {
    Seq::new(
        cur.len(),
        |i: int|
            if i < j && cur[i].len() > 0 && cur[i][0].0.term == t {
                cur[i].drop_first()
            } else {
                cur[i]
            },
    )
}

/// How many entries the inputs still hold, in all.
pub open spec fn models_total(cur: Seq<Seq<(EntryV, Seq<u8>)>>) -> int
    decreases cur.len(),
{
    if cur.len() == 0 {
        0
    } else {
        models_total(cur.drop_last()) + cur.last().len()
    }
}

/// A minimum exists exactly when some input still has a head, and it is
/// one of the heads and no head is below it.
pub proof fn lemma_min_pref(cur: Seq<Seq<(EntryV, Seq<u8>)>>, j: int)
    requires
        0 <= j <= cur.len(),
    ensures
        min_pref(cur, j) is None <==> (forall|i: int| 0 <= i < j ==> cur[i].len() == 0),
        min_pref(cur, j) is Some ==> exists|i: int|
            0 <= i < j && cur[i].len() > 0 && cur[i][0].0.term == min_pref(cur, j)->Some_0,
        min_pref(cur, j) is Some ==> forall|i: int|
            0 <= i < j && #[trigger] cur[i].len() > 0 ==> !term_lt(
                cur[i][0].0.term,
                min_pref(cur, j)->Some_0,
            ),
    decreases j,
{
    if j > 0 {
        lemma_min_pref(cur, j - 1);
        if min_pref(cur, j) is Some {
            let t = min_pref(cur, j)->Some_0;
            if cur[j - 1].len() > 0 && cur[j - 1][0].0.term == t {
                assert(cur[j - 1].len() > 0 && cur[j - 1][0].0.term == t);
            }
            assert forall|i: int| 0 <= i < j && #[trigger] cur[i].len() > 0 implies !term_lt(
                cur[i][0].0.term,
                t,
            ) by {
                lemma_term_lt_irreflexive(t);
                if i < j - 1 {
                    let m = min_pref(cur, j - 1)->Some_0;
                    if term_lt(cur[i][0].0.term, t) && term_lt(t, m) {
                        lemma_term_lt_transitive(cur[i][0].0.term, t, m);
                    }
                }
            }
        }
    }
}

/// Sum of per-input entry counts, compared input by input.
pub proof fn lemma_models_total_le(a: Seq<Seq<(EntryV, Seq<u8>)>>, b: Seq<Seq<(EntryV, Seq<u8>)>>)
    requires
        a.len() == b.len(),
        forall|i: int| 0 <= i < a.len() ==> #[trigger] b[i].len() <= a[i].len(),
    ensures
        models_total(b) <= models_total(a),
        (exists|i: int| 0 <= i < a.len() && #[trigger] b[i].len() < a[i].len())
            ==> models_total(b) < models_total(a),
    decreases a.len(),
{
    if a.len() > 0 {
        assert(forall|i: int|
            0 <= i < a.len() - 1 ==> a.drop_last()[i] == #[trigger] a[i] && b.drop_last()[i]
                == b[i]);
        lemma_models_total_le(a.drop_last(), b.drop_last());
        if exists|i: int| 0 <= i < a.len() && #[trigger] b[i].len() < a[i].len() {
            let i = choose|i: int| 0 <= i < a.len() && #[trigger] b[i].len() < a[i].len();
            if i == a.len() - 1 {
            } else {
                assert(b.drop_last()[i].len() < a.drop_last()[i].len());
            }
        }
    }
}

/// Every input's entries are non-negative in number.
pub proof fn lemma_models_total_nonneg(cur: Seq<Seq<(EntryV, Seq<u8>)>>)
    ensures
        models_total(cur) >= 0,
    decreases cur.len(),
{
    if cur.len() > 0 {
        lemma_models_total_nonneg(cur.drop_last());
    }
}

/// Contributions only grow as more inputs are scanned.
pub proof fn lemma_pref_mono(cur: Seq<Seq<(EntryV, Seq<u8>)>>, j1: int, j2: int, t: Seq<char>)
    requires
        0 <= j1 <= j2,
    ensures
        0 <= df_pref(cur, j1, t) <= df_pref(cur, j2, t),
        0 <= nb_pref(cur, j1, t) <= nb_pref(cur, j2, t),
    decreases j2,
{
    if j2 > 0 {
        if j1 == j2 {
            lemma_pref_mono(cur, j1 - 1, j2 - 1, t);
        } else {
            lemma_pref_mono(cur, j1, j2 - 1, t);
        }
    }
}

/// The k-way merge of the inputs: round by round, the smallest head term
/// with its combined document frequency and byte count.
pub open spec fn kmerge(cur: Seq<Seq<(EntryV, Seq<u8>)>>) -> Seq<MergedEntry>
    decreases models_total(cur),
    via kmerge_decreases
{
    match min_pref(cur, cur.len() as int) {
        None => Seq::empty(),
        Some(t) => seq![
            MergedEntry {
                term: t,
                df: df_pref(cur, cur.len() as int, t),
                nbytes: nb_pref(cur, cur.len() as int, t),
                bytes: bytes_pref(cur, cur.len() as int, t),
            },
        ] + kmerge(advance_pref(cur, cur.len() as int, t)),
    }
}

#[via_fn]
proof fn kmerge_decreases(cur: Seq<Seq<(EntryV, Seq<u8>)>>) {
    lemma_models_total_nonneg(cur);
    match min_pref(cur, cur.len() as int) {
        None => {},
        Some(t) => {
            lemma_min_pref(cur, cur.len() as int);
            let adv = advance_pref(cur, cur.len() as int, t);
            assert(forall|i: int| 0 <= i < cur.len() ==> #[trigger] adv[i].len() <= cur[i].len());
            let w = choose|i: int|
                0 <= i < cur.len() && cur[i].len() > 0 && cur[i][0].0.term == t;
            assert(adv[w].len() < cur[w].len());
            lemma_models_total_le(cur, adv);
            lemma_models_total_nonneg(adv);
        },
    }
}

/// Each input's entries are in strictly increasing term order.
pub open spec fn inputs_sorted(cur: Seq<Seq<(EntryV, Seq<u8>)>>) -> bool {
    forall|i: int, p: int, q: int|
        0 <= i < cur.len() && 0 <= p < q < cur[i].len() ==> term_lt(
            (#[trigger] cur[i][p]).0.term,
            (#[trigger] cur[i][q]).0.term,
        )
}

/// Merging segments whose tables are strictly sorted yields a strictly
/// sorted table: output terms strictly increase, so no term appears
/// twice.
pub proof fn lemma_kmerge_sorted(cur: Seq<Seq<(EntryV, Seq<u8>)>>)
    requires
        inputs_sorted(cur),
    ensures
        forall|p: int, q: int|
            0 <= p < q < kmerge(cur).len() ==> term_lt(
                (#[trigger] kmerge(cur)[p]).term,
                (#[trigger] kmerge(cur)[q]).term,
            ),
        forall|p: int, q: int|
            0 <= p < q < kmerge(cur).len() ==> (#[trigger] kmerge(cur)[p]).term != (
            #[trigger] kmerge(cur)[q]).term,
    decreases models_total(cur),
{
    lemma_models_total_nonneg(cur);
    let n = cur.len() as int;
    match min_pref(cur, n) {
        None => {},
        Some(t) => {
            lemma_min_pref(cur, n);
            let adv = advance_pref(cur, n, t);
            let w = choose|i: int| 0 <= i < n && cur[i].len() > 0 && cur[i][0].0.term == t;
            assert(adv[w].len() < cur[w].len());
            assert(forall|i: int| 0 <= i < n ==> (#[trigger] adv[i]).len() <= cur[i].len());
            lemma_models_total_le(cur, adv);
            lemma_models_total_nonneg(adv);
            assert(models_total(adv) < models_total(cur));
            assert(inputs_sorted(adv)) by {
                assert forall|i: int, p: int, q: int|
                    0 <= i < adv.len() && 0 <= p < q < adv[i].len() implies term_lt(
                    (#[trigger] adv[i][p]).0.term,
                    (#[trigger] adv[i][q]).0.term,
                ) by {
                    if adv[i] == cur[i] {
                        assert(term_lt(cur[i][p].0.term, cur[i][q].0.term));
                    } else {
                        assert(adv[i] == cur[i].drop_first());
                        assert(adv[i][p] == cur[i][p + 1] && adv[i][q] == cur[i][q + 1]);
                        assert(term_lt(cur[i][p + 1].0.term, cur[i][q + 1].0.term));
                    }
                }
            }
            lemma_kmerge_sorted(adv);
            let rest = kmerge(adv);
            assert(kmerge(cur) == seq![
                MergedEntry {
                    term: t,
                    df: df_pref(cur, n, t),
                    nbytes: nb_pref(cur, n, t),
                    bytes: bytes_pref(cur, n, t),
                },
            ] + rest);
            // every head left in the advanced inputs is strictly above t
            assert forall|i: int| 0 <= i < n && (#[trigger] adv[i]).len() > 0 implies term_lt(
                t,
                adv[i][0].0.term,
            ) by {
                if adv[i] == cur[i] {
                    // not a contributor: its head is not t and not below it
                    assert(cur[i].len() > 0);
                    assert(cur[i][0].0.term != t);
                    assert(!term_lt(cur[i][0].0.term, t));
                    lemma_term_lt_connected(t, cur[i][0].0.term);
                } else {
                    // a contributor: its next entry is above its old head t
                    assert(adv[i][0] == cur[i][1]);
                    assert(term_lt(cur[i][0].0.term, cur[i][1].0.term));
                }
            }
            if rest.len() > 0 {
                lemma_min_pref(adv, n);
                assert(min_pref(adv, n) is Some);
                let t2 = min_pref(adv, n)->Some_0;
                let w2 = choose|i: int|
                    0 <= i < n && adv[i].len() > 0 && adv[i][0].0.term == t2;
                assert(term_lt(t, t2));
                assert(rest[0].term == t2);
                assert forall|q: int| 0 <= q < rest.len() implies term_lt(
                    t,
                    (#[trigger] rest[q]).term,
                ) by {
                    if q > 0 {
                        assert(term_lt(rest[0].term, rest[q].term));
                        lemma_term_lt_transitive(t, rest[0].term, rest[q].term);
                    }
                }
            }
            assert forall|p: int, q: int| 0 <= p < q < kmerge(cur).len() implies term_lt(
                (#[trigger] kmerge(cur)[p]).term,
                (#[trigger] kmerge(cur)[q]).term,
            ) by {
                if p == 0 {
                    assert(kmerge(cur)[q] == rest[q - 1]);
                } else {
                    assert(kmerge(cur)[p] == rest[p - 1] && kmerge(cur)[q] == rest[q - 1]);
                }
            }
            assert forall|p: int, q: int| 0 <= p < q < kmerge(cur).len() implies (
            #[trigger] kmerge(cur)[p]).term != (#[trigger] kmerge(cur)[q]).term by {
                lemma_term_lt_irreflexive(kmerge(cur)[p].term);
                if kmerge(cur)[p].term == kmerge(cur)[q].term {
                    assert(term_lt(kmerge(cur)[p].term, kmerge(cur)[p].term));
                }
            }
        },
    }
}

/// Every combined entry fits the format's fields.
pub open spec fn kmerge_fits(m: Seq<MergedEntry>) -> bool {
    forall|k: int|
        0 <= k < m.len() ==> (#[trigger] m[k]).df <= u32::MAX && m[k].nbytes <= u64::MAX
}

/// The merged table `toc` lists exactly the combined entries `m`, with
/// each entry's offset the running total of the byte counts before it.
pub open spec fn merged_toc_matches(m: Seq<MergedEntry>, toc: Seq<EntryV>) -> bool {
    &&& toc.len() == m.len()
    &&& forall|k: int|
        0 <= k < toc.len() ==> {
            let e = #[trigger] toc[k];
            &&& e.term == m[k].term
            &&& e.df == m[k].df
            &&& e.nbytes == m[k].nbytes
            &&& e.offset == toc_nbytes(toc.take(k))
        }
}

/// The position of the first segment that does not decode, if any.
pub open spec fn first_bad(datas: Seq<Seq<u8>>) -> int
    decreases datas.len(),
{
    if datas.len() == 0 {
        0
    } else if !wf_segment(datas.first()) {
        0
    } else {
        1 + first_bad(datas.drop_first())
    }
}

/// The `k`-th written table entry carries combined entry `k`: its term,
/// document frequency and byte count, its offset the running total of the
/// byte counts before it, and its bytes in place in the main region.
pub open spec fn emitted_entry(
    toc: Seq<EntryV>,
    main: Seq<u8>,
    merged: Seq<MergedEntry>,
    k: int,
) -> bool {
    let e = toc[k];
    &&& e.term == merged[k].term
    &&& e.df == merged[k].df
    &&& e.nbytes == merged[k].nbytes
    &&& e.offset == toc_nbytes(toc.take(k))
    &&& crate::format::wf_entry(e)
    &&& main.subrange(
        toc_nbytes(toc.take(k)),
        toc_nbytes(toc.take(k)) + e.nbytes as int,
    ) == merged[k].bytes
}

/// Emitting one more combined entry, with its bytes appended to the main
/// region, keeps every emitted entry in place.
proof fn lemma_merge_step(
    toc0: Seq<EntryV>,
    main0: Seq<u8>,
    e: EntryV,
    ebytes: Seq<u8>,
    merged: Seq<MergedEntry>,
    ecount: int,
)
    requires
        toc0.len() == ecount,
        main0.len() == toc_nbytes(toc0),
        0 <= ecount < merged.len(),
        forall|k: int| 0 <= k < ecount ==> emitted_entry(toc0, main0, merged, k),
        e.term == merged[ecount].term,
        e.df == merged[ecount].df,
        e.nbytes == merged[ecount].nbytes,
        e.offset == main0.len(),
        crate::format::wf_entry(e),
        ebytes == merged[ecount].bytes,
        e.nbytes == ebytes.len(),
    ensures
        toc_nbytes(toc0.push(e)) == main0.len() + e.nbytes,
        forall|k: int|
            0 <= k < ecount + 1 ==> emitted_entry(toc0.push(e), main0 + ebytes, merged, k),
{
    let toc1 = toc0.push(e);
    let main1 = main0 + ebytes;
    assert(toc1.drop_last() =~= toc0);
    assert(toc_nbytes(toc1) == toc_nbytes(toc0) + e.nbytes);
    assert forall|k: int| 0 <= k < ecount + 1 implies emitted_entry(toc1, main1, merged, k) by {
        assert(toc1.take(k) =~= toc0.take(k));
        if k < ecount {
            assert(emitted_entry(toc0, main0, merged, k));
            assert(toc1[k] == toc0[k]);
            let en = toc0[k];
            crate::format::lemma_toc_nbytes_monotone(toc0, 0, k);
            assert(toc0.take(0) =~= Seq::<EntryV>::empty());
            assert(toc0.take(k + 1).drop_last() =~= toc0.take(k));
            assert(toc_nbytes(toc0.take(k + 1)) == toc_nbytes(toc0.take(k)) + en.nbytes);
            crate::format::lemma_toc_nbytes_monotone(toc0, k + 1, toc0.len() as int);
            crate::format::lemma_toc_nbytes_take_all(toc0);
            assert(toc_nbytes(toc0.take(k)) + en.nbytes as int <= main0.len());
            assert(main1.subrange(
                toc_nbytes(toc0.take(k)),
                toc_nbytes(toc0.take(k)) + en.nbytes as int,
            ) =~= main0.subrange(
                toc_nbytes(toc0.take(k)),
                toc_nbytes(toc0.take(k)) + en.nbytes as int,
            ));
        } else {
            assert(toc1[k] == e);
            assert(toc0.take(k) =~= toc0);
            assert(toc_nbytes(toc1.take(k)) == main0.len());
            assert(main1.subrange(main0.len() as int, main0.len() + e.nbytes as int) =~= ebytes);
        }
    }
}

/// K-way merges a batch of segments into one. Succeeds exactly when every
/// input decodes and no combined entry overflows its 32-bit document
/// frequency or 64-bit byte count; the output's table of contents is then
/// exactly the k-way merge of the inputs'. A failing input reports its own
/// defect; the first input that does not decode decides the error.
#[verifier::rlimit(100)]
pub fn merge_stream(segments: Vec<Vec<u8>>) -> (r: Result<Vec<u8>, CodecError>)
    ensures
        ({
            let datas = Seq::new(segments@.len(), |i: int| segments@[i]@);
            let models = Seq::new(segments@.len(), |i: int| seg_model(segments@[i]@));
            &&& (r is Ok <==> ((forall|i: int|
                0 <= i < segments@.len() ==> wf_segment(#[trigger] segments@[i]@))
                && kmerge_fits(kmerge(models))))
            &&& (r is Ok ==> wf_segment(r->Ok_0@) && merged_toc_matches(
                kmerge(models),
                crate::format::seg_toc(r->Ok_0@),
            ))
            &&& (r is Ok ==> forall|k: int|
                0 <= k < kmerge(models).len() ==> crate::format::seg_entry_bytes(r->Ok_0@, k) == (
                #[trigger] kmerge(models)[k]).bytes)
            &&& ((r is Err && (exists|i: int|
                0 <= i < segments@.len() && !wf_segment(#[trigger] segments@[i]@))) ==> r->Err_0
                == spec_validate(datas[first_bad(datas)])->Err_0)
            &&& ((r is Err && (forall|i: int|
                0 <= i < segments@.len() ==> wf_segment(#[trigger] segments@[i]@))) ==> r->Err_0
                == CodecError::EntryTooLarge)
        }),
{
    let ghost segs0 = segments@;
    let ghost datas = Seq::new(segs0.len(), |i: int| segs0[i]@);
    let ghost models = Seq::new(segs0.len(), |i: int| seg_model(segs0[i]@));
    let mut rest = segments;
    let mut streams: Vec<IndexFileReader> = Vec::new();
    while rest.len() > 0
        invariant
            segs0 == segments@,
            datas == Seq::new(segs0.len(), |i: int| segs0[i]@),
            models == Seq::new(segs0.len(), |i: int| seg_model(segs0[i]@)),
            streams@.len() + rest@.len() == segs0.len(),
            forall|j: int|
                0 <= j < rest@.len() ==> #[trigger] rest@[j] == segs0[streams@.len() + j],
            forall|j: int|
                0 <= j < streams@.len() ==> wf_segment(#[trigger] segs0[j]@) && streams@[j].wf()
                    && streams@[j].model() == seg_model(segs0[j]@),
        decreases rest@.len(),
    {
        let ghost opened = streams@.len() as int;
        let seg = rest.remove(0);
        proof {
            assert(seg == segs0[opened]);
            assert(forall|j: int|
                0 <= j < rest@.len() ==> #[trigger] rest@[j] == segs0[opened + 1 + j]);
        }
        match IndexFileReader::open(seg) {
            Ok(rd) => {
                streams.push(rd);
            },
            Err(err) => {
                proof {
                    assert(!wf_segment(datas[opened]));
                    assert(forall|i: int| 0 <= i < opened ==> wf_segment(#[trigger] datas[i]));
                    lemma_first_bad(datas, opened);
                    assert(spec_validate(datas[opened]) == Err::<Seq<EntryV>, CodecError>(err));
                    assert(!wf_segment(segments@[opened]@));
                }
                return Err(err);
            },
        }
    }
    let ghost n = segs0.len() as int;
    proof {
        assert forall|j: int| 0 <= j < streams@.len() implies (#[trigger] streams@[j]).wf()
            && streams@[j].model() == seg_model(segs0[j]@) by {
            assert(wf_segment(segs0[j]@));
        }
        assert(forall|i: int| 0 <= i < n ==> wf_segment(#[trigger] datas[i]));
        assert(forall|i: int| 0 <= i < n ==> wf_segment(#[trigger] segments@[i]@));
    }
    let ghost merged = kmerge(models);
    let mut output = IndexFileWriter::new();
    proof {
        assert(Seq::new(streams@.len() as nat, |j: int| streams@[j].model()) =~= models);
        assert(merged.skip(0) =~= merged);
        assert(output.toc().take(0) =~= Seq::<EntryV>::empty());
    }
    loop
        invariant
            segs0 == segments@,
            datas == Seq::new(segs0.len(), |i: int| segs0[i]@),
            models == Seq::new(segs0.len(), |i: int| seg_model(segs0[i]@)),
            merged == kmerge(models),
            n == segs0.len(),
            forall|i: int| 0 <= i < segs0.len() ==> wf_segment(#[trigger] segs0[i]@),
            forall|i: int| 0 <= i < segments@.len() ==> wf_segment(#[trigger] segments@[i]@),
            streams@.len() == segs0.len(),
            forall|j: int| 0 <= j < streams@.len() ==> (#[trigger] streams@[j]).wf(),
            output.wf(),
            output.toc().len() <= merged.len(),
            kmerge(Seq::new(streams@.len() as nat, |j: int| streams@[j].model())) == merged.skip(
                output.toc().len() as int,
            ),
            forall|k: int|
                0 <= k < output.toc().len() ==> emitted_entry(
                    output.toc(),
                    output.main_region(),
                    merged,
                    k,
                ),
            toc_nbytes(output.toc()) == output.main_region().len(),
        ensures
            output.wf(),
            output.toc().len() == merged.len(),
            forall|k: int|
                0 <= k < output.toc().len() ==> emitted_entry(
                    output.toc(),
                    output.main_region(),
                    merged,
                    k,
                ),
            toc_nbytes(output.toc()) == output.main_region().len(),
            kmerge_fits(merged),
            forall|i: int| 0 <= i < segs0.len() ==> wf_segment(#[trigger] segs0[i]@),
            segs0 == segments@,
        decreases models_total(Seq::new(streams@.len() as nat, |j: int| streams@[j].model())),
    {
        let ghost cur = Seq::new(streams@.len() as nat, |j: int| streams@[j].model());
        let ghost ecount = output.toc().len() as int;
        proof {
            assert forall|i: int|
                0 <= i < cur.len() && (#[trigger] cur[i]).len() > 0 implies cur[i][0].1.len()
                == cur[i][0].0.nbytes by {
                streams@[i].lemma_model_props();
                assert(cur[i] == streams@[i].model());
            }
        }
        // first pass: the smallest term any stream is at
        let mut term_min: Option<String> = None;
        let mut j: usize = 0;
        #[verifier::loop_isolation(false)]
        while j < streams.len()
            invariant
                j <= streams@.len(),
                n == streams@.len(),
                forall|i: int| 0 <= i < streams@.len() ==> (#[trigger] streams@[i]).wf(),
                cur == Seq::new(streams@.len() as nat, |i: int| streams@[i].model()),
                match term_min {
                    None => min_pref(cur, j as int) is None,
                    Some(s) => min_pref(cur, j as int) == Some(s@),
                },
            decreases streams@.len() - j,
        {
            match streams[j].peek() {
                None => {
                    proof {
                        assert(cur[j as int].len() == 0);
                    }
                },
                Some(e) => {
                    proof {
                        assert(cur[j as int].len() > 0 && cur[j as int][0].0.term == e.term@);
                    }
                    let replace = match &term_min {
                        None => true,
                        Some(s) => term_less(&e.term, s),
                    };
                    if replace {
                        term_min = Some(e.term.clone());
                    }
                },
            }
            j = j + 1;
        }
        let t = match term_min {
            None => {
                proof {
                    lemma_min_pref(cur, n);
                    assert(forall|i: int| 0 <= i < cur.len() ==> cur[i].len() == 0);
                    assert(kmerge(cur) =~= Seq::<MergedEntry>::empty());
                    assert(merged.skip(ecount).len() == 0);
                    assert(ecount == merged.len());
                    assert forall|k: int| 0 <= k < merged.len() implies (#[trigger] merged[k]).df
                        <= u32::MAX && merged[k].nbytes <= u64::MAX by {
                        assert(emitted_entry(output.toc(), output.main_region(), merged, k));
                        let e = output.toc()[k];
                        assert(e.df == merged[k].df && e.nbytes == merged[k].nbytes);
                    }
                }
                break ;
            },
            Some(t) => t,
        };
        proof {
            lemma_min_pref(cur, n);
            assert(kmerge(cur) == seq![
                MergedEntry {
                    term: t@,
                    df: df_pref(cur, n, t@),
                    nbytes: nb_pref(cur, n, t@),
                    bytes: bytes_pref(cur, n, t@),
                },
            ] + kmerge(advance_pref(cur, n, t@)));
            assert(merged.skip(ecount).len() > 0);
            assert(ecount < merged.len());
            assert(merged[ecount] == merged.skip(ecount)[0]);
            assert(merged[ecount] == MergedEntry {
                term: t@,
                df: df_pref(cur, n, t@),
                nbytes: nb_pref(cur, n, t@),
                bytes: bytes_pref(cur, n, t@),
            });
            let w = choose|i: int|
                0 <= i < cur.len() && cur[i].len() > 0 && cur[i][0].0.term == t@;
            streams@[w].lemma_model_props();
            assert(crate::format::wf_entry(cur[w][0].0));
            assert(vstd::utf8::encode_utf8(t@).len() <= u32::MAX);
        }
        // second pass: combine the entries at that term
        let mut df: u32 = 0;
        let mut nbytes: u64 = 0;
        let mut j: usize = 0;
        #[verifier::loop_isolation(false)]
        while j < streams.len()
            invariant
                segs0 == segments@,
                models == Seq::new(segs0.len(), |i: int| seg_model(segs0[i]@)),
                merged == kmerge(models),
                forall|i: int| 0 <= i < segs0.len() ==> wf_segment(#[trigger] segs0[i]@),
                forall|i: int| 0 <= i < segments@.len() ==> wf_segment(#[trigger] segments@[i]@),
                j <= streams@.len(),
                forall|i: int| 0 <= i < streams@.len() ==> (#[trigger] streams@[i]).wf(),
                cur == Seq::new(streams@.len() as nat, |i: int| streams@[i].model()),
                merged[ecount] == (MergedEntry {
                    term: t@,
                    df: df_pref(cur, n, t@),
                    nbytes: nb_pref(cur, n, t@),
                    bytes: bytes_pref(cur, n, t@),
                }),
                0 <= ecount < merged.len(),
                n == streams@.len(),
                df == df_pref(cur, j as int, t@),
                nbytes == nb_pref(cur, j as int, t@),
            decreases streams@.len() - j,
        {
            match streams[j].peek() {
                None => {
                    proof {
                        assert(cur[j as int].len() == 0);
                    }
                },
                Some(e) => {
                    proof {
                        assert(cur[j as int].len() > 0 && cur[j as int][0].0 == e@);
                    }
                    if str_eq(e.term.as_str(), t.as_str()) {
                        if e.df > u32::MAX - df {
                            proof {
                                lemma_pref_mono(cur, j + 1, n, t@);
                                assert(df_pref(cur, n, t@) > u32::MAX);
                                assert(!kmerge_fits(merged)) by {
                                    assert((#[trigger] merged[ecount]).df > u32::MAX);
                                }
                            }
                            return Err(CodecError::EntryTooLarge);
                        }
                        if e.nbytes > u64::MAX - nbytes {
                            proof {
                                lemma_pref_mono(cur, j + 1, n, t@);
                                assert(nb_pref(cur, n, t@) > u64::MAX);
                                assert(!kmerge_fits(merged)) by {
                                    assert((#[trigger] merged[ecount]).nbytes > u64::MAX);
                                }
                            }
                            return Err(CodecError::EntryTooLarge);
                        }
                        df = df + e.df;
                        nbytes = nbytes + e.nbytes;
                    }
                },
            }
            j = j + 1;
        }
        proof {
            assert(df == df_pref(cur, n, t@) && nbytes == nb_pref(cur, n, t@));
        }
        let point = output.offset() - 8;
        // third pass: every stream at the term contributes its bytes
        let ghost toc0 = output.toc();
        let ghost main0 = output.main_region();
        let mut j: usize = 0;
        proof {
            assert(advance_pref(cur, 0, t@) =~= cur);
            assert(main0 + bytes_pref(cur, 0, t@) =~= main0);
        }
        #[verifier::loop_isolation(false)]
        while j < streams.len()
            invariant
                j <= streams@.len(),
                n == streams@.len(),
                forall|i: int| 0 <= i < streams@.len() ==> (#[trigger] streams@[i]).wf(),
                Seq::new(streams@.len() as nat, |i: int| streams@[i].model()) == advance_pref(
                    cur,
                    j as int,
                    t@,
                ),
                output.wf(),
                output.toc() == toc0,
                output.main_region() == main0 + bytes_pref(cur, j as int, t@),
            decreases streams@.len() - j,
        {
            let ghost pre = Seq::new(streams@.len() as nat, |i: int| streams@[i].model());
            let contributes = streams[j].is_at(t.as_str());
            proof {
                assert(pre[j as int] == cur[j as int]);
            }
            if contributes {
                proof {
                    streams@[j as int].lemma_model_props();
                    assert(streams@[j as int].model()[0].1.len() == cur[j as int][0].0.nbytes);
                }
                let ghost streams_before = streams@;
                streams[j].move_entry_to(&mut output);
                proof {
                    let newm = Seq::new(streams@.len() as nat, |i: int| streams@[i].model());
                    assert forall|i: int| 0 <= i < newm.len() implies newm[i] == advance_pref(
                        cur,
                        j + 1,
                        t@,
                    )[i] by {
                        if i == j {
                            assert(streams@[i].model() == streams_before[i].model().drop_first());
                            assert(streams_before[i].model() == pre[i]);
                            assert(cur[i].len() > 0 && cur[i][0].0.term == t@);
                        } else {
                            assert(streams@[i] == streams_before[i]);
                            assert(streams_before[i].model() == pre[i]);
                            assert(pre[i] == advance_pref(cur, j as int, t@)[i]);
                        }
                    }
                    assert(newm =~= advance_pref(cur, j + 1, t@));
                    assert(output.main_region() =~= main0 + bytes_pref(cur, j + 1, t@));
                }
            } else {
                proof {
                    assert(Seq::new(streams@.len() as nat, |i: int| streams@[i].model())
                        =~= advance_pref(cur, j + 1, t@));
                    assert(bytes_pref(cur, j + 1, t@) =~= bytes_pref(cur, j as int, t@));
                }
            }
            j = j + 1;
        }
        output.write_content_entry(t, df, point, nbytes);
        proof {
            let toc1 = output.toc();
            let main1 = output.main_region();
            let e = EntryV { term: t@, df, offset: point, nbytes };
            assert(toc1 =~= toc0.push(e));
            assert(toc1.take(ecount) =~= toc0);
            assert(toc1.drop_last() =~= toc0);
            assert(toc_nbytes(toc1) == toc_nbytes(toc0) + nbytes);
            lemma_bytes_pref_len(cur, n, t@);
            assert(main1 == main0 + bytes_pref(cur, n, t@));
            assert(bytes_pref(cur, n, t@).len() == nbytes);
            lemma_merge_step(toc0, main0, e, bytes_pref(cur, n, t@), merged, ecount);
            assert forall|k: int| 0 <= k < toc1.len() implies emitted_entry(
                toc1,
                main1,
                merged,
                k,
            ) by {
                assert(emitted_entry(toc0.push(e), main0 + bytes_pref(cur, n, t@), merged, k));
            }
            assert(merged.skip(ecount).drop_first() =~= merged.skip(ecount + 1));
            assert(kmerge(advance_pref(cur, n, t@)) == merged.skip(ecount + 1));
            let newcur = Seq::new(streams@.len() as nat, |i: int| streams@[i].model());
            assert(newcur == advance_pref(cur, n, t@));
            let w = choose|i: int|
                0 <= i < cur.len() && cur[i].len() > 0 && cur[i][0].0.term == t@;
            assert(advance_pref(cur, n, t@)[w].len() < cur[w].len());
            assert(forall|i: int|
                0 <= i < cur.len() ==> (#[trigger] advance_pref(cur, n, t@)[i]).len()
                    <= cur[i].len());
            lemma_models_total_le(cur, advance_pref(cur, n, t@));
            lemma_models_total_nonneg(advance_pref(cur, n, t@));
        }
    }
    let ghost toc = output.toc();
    let ghost main = output.main_region();
    let out = output.finish();
    let out_len = out.len();
    proof {
        assert(out_len == out@.len());
        assert(wf_segment(out@) && crate::format::seg_toc(out@) == toc);
        assert(merged_toc_matches(merged, toc)) by {
            assert forall|k: int| 0 <= k < toc.len() implies {
                let e = #[trigger] toc[k];
                &&& e.term == merged[k].term
                &&& e.df == merged[k].df
                &&& e.nbytes == merged[k].nbytes
                &&& e.offset == toc_nbytes(toc.take(k))
            } by {
                assert(emitted_entry(output.toc(), output.main_region(), merged, k));
            }
        }
        assert(merged_toc_matches(merged, crate::format::seg_toc(out@)));
        assert(8 + main.len() <= u64::MAX) by {
            vstd::bytes::lemma_auto_spec_u64_to_from_le_bytes();
            assert(out@ == crate::format::spec_segment(main, toc));
            assert(out@.len() == 8 + main.len() + crate::format::spec_encode_toc(toc).len());
        }
        assert forall|j2: int| 0 <= j2 < toc.len() implies crate::format::wf_entry(
            #[trigger] toc[j2],
        ) by {
            assert(emitted_entry(output.toc(), output.main_region(), merged, j2));
        }
        assert forall|k: int| 0 <= k < merged.len() implies crate::format::seg_entry_bytes(
            out@,
            k,
        ) == (#[trigger] merged[k]).bytes by {
            crate::format::lemma_segment_entry_bytes(main, toc, k);
            assert(emitted_entry(output.toc(), output.main_region(), merged, k));
            assert(main.subrange(
                toc_nbytes(toc.take(k)),
                toc_nbytes(toc.take(k)) + toc[k].nbytes as int,
            ) == merged[k].bytes);
        }
    }
    Ok(out)
}

/// Why a leveled merge could not finish: no segment was ever added, or a
/// merge handed to the caller failed.
pub enum FinishError<E> {
    NoOutput,
    Merge(E),
}

/// One merge handed to the caller: the batch of segment paths, in the
/// order the paths first arrived, and the path of the merged segment the
/// caller's merge function returned for it.
pub ghost struct MergeCall {
    pub batch: Seq<Seq<char>>,
    pub result: Seq<char>,
}

/// The paths a stack of levels holds, level by level, each level in
/// arrival order.
pub open spec fn levels_view(stacks: Seq<Vec<String>>) -> Seq<Seq<Seq<char>>> {
    stacks.map(|i: int, v: Vec<String>| v.deep_view())
}

/// A stack of levels and its view agree level by level on how many paths
/// each holds.
pub proof fn lemma_levels_view_len(stacks: Seq<Vec<String>>)
    ensures
        levels_view(stacks).len() == stacks.len(),
        forall|l: int|
            0 <= l < stacks.len() ==> (#[trigger] levels_view(stacks)[l]).len()
                == stacks[l]@.len(),
{
    assert forall|l: int| 0 <= l < stacks.len() implies (#[trigger] levels_view(stacks)[l]).len()
        == stacks[l]@.len() by {
        assert(levels_view(stacks)[l] == stacks[l].deep_view());
    }
}

/// Every recorded merge really happened: the caller's merge function was
/// given exactly that batch and returned exactly that path.
pub open spec fn calls_ok<E, F: Fn(Vec<String>) -> Result<String, E>>(
    f: F,
    calls: Seq<MergeCall>,
) -> bool {
    forall|q: int|
        0 <= q < calls.len() ==> exists|b: Vec<String>, nm: String|
            b.deep_view() == (#[trigger] calls[q]).batch && nm@ == calls[q].result
                && call_ensures(f, (b,), Ok::<String, E>(nm))
}

/// The caller's merge function itself failed with this error, on some
/// batch.
pub open spec fn merge_error_reported<E, F: Fn(Vec<String>) -> Result<String, E>>(
    f: F,
    me: E,
) -> bool {
    exists|b: Vec<String>| call_ensures(f, (b,), Err::<String, E>(me))
}

/// Recording one more merge that really happened keeps the record true.
pub proof fn lemma_calls_ok_push<E, F: Fn(Vec<String>) -> Result<String, E>>(
    f: F,
    calls: Seq<MergeCall>,
    c: MergeCall,
    b: Vec<String>,
    nm: String,
)
    requires
        calls_ok(f, calls),
        b.deep_view() == c.batch,
        nm@ == c.result,
        call_ensures(f, (b,), Ok::<String, E>(nm)),
    ensures
        calls_ok(f, calls.push(c)),
{
    let pushed = calls.push(c);
    assert forall|q: int| 0 <= q < pushed.len() implies exists|bb: Vec<String>, n2: String|
        bb.deep_view() == (#[trigger] pushed[q]).batch && n2@ == pushed[q].result && call_ensures(
            f,
            (bb,),
            Ok::<String, E>(n2),
        ) by {
        if q < calls.len() {
            assert(pushed[q] == calls[q]);
            assert(exists|bb: Vec<String>, n2: String|
                bb.deep_view() == (#[trigger] calls[q]).batch && n2@ == calls[q].result
                    && call_ensures(f, (bb,), Ok::<String, E>(n2)));
        } else {
            assert(pushed[q] == c);
            assert(b.deep_view() == c.batch && nm@ == c.result && call_ensures(
                f,
                (b,),
                Ok::<String, E>(nm),
            ));
        }
    }
}

/// How registering one path transforms the levels: the path lands on
/// level `l` (a fresh level if none exists there); a level that thereby
/// reaches [`NSTREAMS`] paths is emptied, its full contents become the
/// next recorded merge's batch, and that merge's result cascades onto the
/// level above. `calls` records exactly the merges of the cascade, in
/// order.
pub open spec fn add_spec(
    pre: Seq<Seq<Seq<char>>>,
    file: Seq<char>,
    post: Seq<Seq<Seq<char>>>,
    calls: Seq<MergeCall>,
    l: int,
) -> bool
    decreases pre.len() - l,
{
    if !(0 <= l <= pre.len()) {
        false
    } else {
        let grown = if l == pre.len() {
            pre.push(Seq::empty())
        } else {
            pre
        };
        let lev = grown[l].push(file);
        if lev.len() < NSTREAMS {
            post == grown.update(l, lev) && calls.len() == 0
        } else if calls.len() == 0 {
            false
        } else {
            calls.first().batch == lev && add_spec(
                grown.update(l, Seq::empty()),
                calls.first().result,
                post,
                calls.drop_first(),
                l + 1,
            )
        }
    }
}

/// The order `finish` drains pending paths: level by level, each level's
/// paths newest first.
pub open spec fn finish_queue(levels: Seq<Seq<Seq<char>>>) -> Seq<Seq<char>>
    decreases levels.len(),
{
    if levels.len() == 0 {
        Seq::empty()
    } else {
        levels.first().reverse() + finish_queue(levels.drop_first())
    }
}

/// How `finish` folds the drained paths into one: paths are collected one
/// by one; each time [`NSTREAMS`] have gathered they are merged — the
/// batch in the order the paths first arrived — and the merged path takes
/// their place; at the end a final merge combines whatever is left, and
/// the one remaining path is the result. `calls` records exactly the
/// merges, in order.
pub open spec fn drain_spec(
    tmp: Seq<Seq<char>>,
    queue: Seq<Seq<char>>,
    calls: Seq<MergeCall>,
    result: Seq<char>,
) -> bool
    decreases queue.len(),
{
    if queue.len() == 0 {
        if tmp.len() == 0 {
            false
        } else if tmp.len() == 1 {
            calls.len() == 0 && result == tmp[0]
        } else {
            calls.len() == 1 && calls[0].batch == tmp.reverse() && result == calls[0].result
        }
    } else {
        let gathered = tmp.push(queue.first());
        if gathered.len() == NSTREAMS {
            calls.len() >= 1 && calls.first().batch == gathered.reverse() && drain_spec(
                seq![calls.first().result],
                queue.drop_first(),
                calls.drop_first(),
                result,
            )
        } else {
            drain_spec(gathered, queue.drop_first(), calls, result)
        }
    }
}

/// A one-path queue needs no merge: the result is that path.
pub proof fn lemma_drain_single(queue: Seq<Seq<char>>, calls: Seq<MergeCall>, result: Seq<char>)
    requires
        queue.len() == 1,
        drain_spec(Seq::empty(), queue, calls, result),
    ensures
        result == queue[0],
        calls.len() == 0,
{
    let gathered = Seq::<Seq<char>>::empty().push(queue.first());
    assert(gathered.len() == 1);
    assert(drain_spec(gathered, queue.drop_first(), calls, result));
    assert(queue.drop_first().len() == 0);
    assert(gathered[0] == queue[0]);
}

/// A bounded fan-in leveled merge over segment file paths.
///
/// Paths pile up on level 0; whenever a level reaches [`NSTREAMS`] paths
/// they are handed to the caller's merge function — which combines those
/// segment files into a new one, with [`merge_stream`], and returns its
/// path — and the result is promoted one level up. This caps how many
/// segment files any single merge step opens.
pub struct FileMerge {
    output_dir: String,
    stacks: Vec<Vec<String>>,
}

impl FileMerge {
    /// The pending segment paths, level by level, each level in arrival
    /// order.
    pub closed spec fn levels(self) -> Seq<Seq<Seq<char>>> {
        levels_view(self.stacks@)
    }

    /// Every level holds fewer than [`NSTREAMS`] pending paths.
    pub open spec fn wf(self) -> bool {
        forall|l: int| 0 <= l < self.levels().len() ==> (#[trigger] self.levels()[l]).len()
            < NSTREAMS
    }

    /// The directory the final index belongs in.
    pub closed spec fn dir(self) -> Seq<char> {
        self.output_dir@
    }

    /// Whether any segment path is still pending.
    pub open spec fn has_pending(self) -> bool {
        exists|l: int| 0 <= l < self.levels().len() && (#[trigger] self.levels()[l]).len() > 0
    }

    pub fn new(output_dir: &str) -> (r: FileMerge)
        ensures
            r.wf(),
            !r.has_pending(),
            r.dir() == output_dir@,
    {
        FileMerge { output_dir: output_dir.to_owned(), stacks: Vec::new() }
    }

    /// Where the finished index is renamed to.
    pub fn merged_path(&self) -> (r: String)
        ensures
            r@ == self.dir() + "/index.dat"@,
    {
        let p = self.output_dir.clone();
        p.concat("/index.dat")
    }

    /// Registers one segment file. The path lands on level 0; a level that
    /// thereby fills is handed to `merge_batch` — always exactly
    /// [`NSTREAMS`] paths, in arrival order — and the merged file cascades
    /// one level up, as long as levels keep filling ([`add_spec`] is the
    /// whole transformation; no registered path is lost). When level 0 has
    /// room, no merge runs and the call cannot fail; a failure is the merge
    /// function\'s own, on a full batch.
    pub fn add_file<E, F: Fn(Vec<String>) -> Result<String, E>>(
        &mut self,
        file: String,
        merge_batch: &F,
    ) -> (r: Result<(), E>)
        requires
            old(self).wf(),
            forall|batch: Vec<String>| #[trigger] call_requires(*merge_batch, (batch,)),
        ensures
            final(self).wf(),
            final(self).dir() == old(self).dir(),
            r is Ok ==> final(self).has_pending(),
            r is Ok ==> exists|calls: Seq<MergeCall>|
                add_spec(old(self).levels(), file@, final(self).levels(), calls, 0) && calls_ok(
                    *merge_batch,
                    calls,
                ),
            r is Err ==> exists|b: Vec<String>|
                b.deep_view().len() == NSTREAMS && call_ensures(
                    *merge_batch,
                    (b,),
                    Err::<String, E>(r->Err_0),
                ),
            (old(self).levels().len() == 0 || old(self).levels()[0].len() + 1 < NSTREAMS) ==> r
                is Ok,
    {
        let ghost pre0 = old(self).levels();
        let ghost file0 = file@;
        let mut file = file;
        let mut level: usize = 0;
        let ghost mut calls: Seq<MergeCall> = Seq::empty();
        proof {
            assert forall|post: Seq<Seq<Seq<char>>>, rest: Seq<MergeCall>|
                #[trigger] add_spec(self.levels(), file@, post, rest, level as int) implies
                add_spec(pre0, file0, post, calls + rest, 0) by {
                assert(calls + rest =~= rest);
            }
        }
        loop
            invariant_except_break
                self.wf(),
                level == 0 ==> self.levels() == pre0 && file@ == file0 && calls
                    == Seq::<MergeCall>::empty(),
                forall|post: Seq<Seq<Seq<char>>>, rest: Seq<MergeCall>|
                    #[trigger] add_spec(self.levels(), file@, post, rest, level as int)
                        ==> add_spec(pre0, file0, post, calls + rest, 0),
            invariant
                self.dir() == old(self).dir(),
                pre0 == old(self).levels(),
                level <= self.stacks@.len(),
                calls_ok(*merge_batch, calls),
                level > 0 ==> pre0.len() > 0 && pre0[0].len() + 1 >= NSTREAMS,
                forall|batch: Vec<String>| #[trigger] call_requires(*merge_batch, (batch,)),
            ensures
                self.wf(),
                self.dir() == old(self).dir(),
                self.has_pending(),
                exists|cs: Seq<MergeCall>|
                    add_spec(pre0, file0, self.levels(), cs, 0) && calls_ok(*merge_batch, cs),
            decreases self.stacks@.len() - level,
        {
            let ghost head_levels = self.levels();
            let ghost head_file = file@;
            let ghost head_calls = calls;
            proof {
                lemma_levels_view_len(self.stacks@);
            }
            if level == self.stacks.len() {
                self.stacks.push(Vec::new());
                proof {
                    assert(self.levels() =~~= head_levels.push(Seq::empty()));
                }
            }
            let ghost grown = self.levels();
            proof {
                lemma_levels_view_len(self.stacks@);
                assert(grown == if level == head_levels.len() {
                    head_levels.push(Seq::empty())
                } else {
                    head_levels
                });
                assert forall|l: int| 0 <= l < grown.len() implies (#[trigger] grown[l]).len()
                    < NSTREAMS by {
                    if l < head_levels.len() {
                        assert(grown[l] == head_levels[l]);
                    } else {
                        assert(grown[l] =~= Seq::<Seq<char>>::empty());
                    }
                }
            }
            self.stacks[level].push(file);
            proof {
                lemma_levels_view_len(self.stacks@);
                assert(self.levels()[level as int] =~~= grown[level as int].push(head_file));
                assert(self.levels() =~~= grown.update(
                    level as int,
                    grown[level as int].push(head_file),
                ));
            }
            let ghost lev = grown[level as int].push(head_file);
            if self.stacks[level].len() < NSTREAMS {
                proof {
                    lemma_levels_view_len(self.stacks@);
                    assert(self.levels()[level as int].len() == self.stacks@[level as int]@.len());
                    assert(self.levels()[level as int].len() > 0);
                    assert(self.has_pending());
                    assert(self.wf()) by {
                        assert forall|l: int| 0 <= l < self.levels().len() implies (
                        #[trigger] self.levels()[l]).len() < NSTREAMS by {
                            if l != level {
                                assert(self.levels()[l] == grown[l]);
                            }
                        }
                    }
                    assert(add_spec(head_levels, head_file, self.levels(), Seq::empty(), level as int));
                    assert(add_spec(pre0, file0, self.levels(), calls + Seq::empty(), 0));
                    assert(calls + Seq::<MergeCall>::empty() =~= calls);
                }
                break ;
            }
            let mut batch: Vec<String> = Vec::new();
            let taken = &mut self.stacks[level];
            core::mem::swap(taken, &mut batch);
            let ghost batch_snap = batch;
            proof {
                assert(batch_snap.deep_view() =~~= lev);
                assert(self.levels() =~~= grown.update(level as int, Seq::empty()));
            }
            file = match merge_batch(batch) {
                Ok(f) => f,
                Err(e) => {
                    proof {
                        assert(call_ensures(*merge_batch, (batch_snap,), Err::<String, E>(e)));
                        assert(batch_snap.deep_view().len() == NSTREAMS);
                        assert(pre0.len() > 0 && pre0[0].len() + 1 >= NSTREAMS) by {
                            if level == 0 {
                                assert(head_levels == pre0);
                                if pre0.len() == 0 {
                                    assert(grown == pre0.push(Seq::<Seq<char>>::empty()));
                                    assert(grown[0] =~= Seq::<Seq<char>>::empty());
                                    assert(lev.len() == 1);
                                } else {
                                    assert(grown == pre0);
                                    assert(lev.len() == pre0[0].len() + 1);
                                }
                            }
                        }
                    }
                    return Err(e);
                },
            };
            proof {
                assert(call_ensures(*merge_batch, (batch_snap,), Ok::<String, E>(file)));
                let call = MergeCall { batch: lev, result: file@ };
                let prev_calls = calls;
                calls = calls.push(call);
                assert(calls_ok(*merge_batch, calls)) by {
                    assert forall|q: int| 0 <= q < calls.len() implies exists|
                        b: Vec<String>,
                        nm: String,
                    |
                        b.deep_view() == (#[trigger] calls[q]).batch && nm@ == calls[q].result
                            && call_ensures(*merge_batch, (b,), Ok::<String, E>(nm)) by {
                        if q < prev_calls.len() {
                            assert(calls[q] == prev_calls[q]);
                            assert(exists|b: Vec<String>, nm: String|
                                b.deep_view() == (#[trigger] prev_calls[q]).batch && nm@
                                    == prev_calls[q].result && call_ensures(
                                    *merge_batch,
                                    (b,),
                                    Ok::<String, E>(nm),
                                ));
                        } else {
                            assert(batch_snap.deep_view() == calls[q].batch && file@
                                == calls[q].result && call_ensures(
                                *merge_batch,
                                (batch_snap,),
                                Ok::<String, E>(file),
                            ));
                        }
                    }
                }
                assert forall|post: Seq<Seq<Seq<char>>>, rest: Seq<MergeCall>|
                    #[trigger] add_spec(self.levels(), file@, post, rest, level + 1) implies
                    add_spec(pre0, file0, post, calls + rest, 0) by {
                    let chained = seq![call] + rest;
                    assert(chained.first() == call);
                    assert(chained.drop_first() =~= rest);
                    assert(add_spec(head_levels, head_file, post, chained, level as int));
                    assert(add_spec(pre0, file0, post, head_calls + chained, 0));
                    assert(head_calls + chained =~= calls + rest);
                }
                assert(level > 0 ==> pre0.len() > 0 && pre0[0].len() + 1 >= NSTREAMS);
                if level == 0 {
                    assert(pre0.len() > 0 && pre0[0].len() + 1 >= NSTREAMS) by {
                        if pre0.len() == 0 {
                            assert(grown =~= pre0.push(Seq::empty()));
                            assert(lev.len() == 1);
                        }
                    }
                }
            }
            level = level + 1;
        }
        proof {
            if pre0.len() == 0 || pre0[0].len() + 1 < NSTREAMS {
                assert(level == 0);
            }
        }
        Ok(())
    }

    /// Drains what every level still holds, in level order and within each
    /// level newest first, merging through `merge_batch` each time
    /// [`NSTREAMS`] paths have gathered — the batch in the order the paths
    /// first arrived — then merging what is left, until one file remains;
    /// [`drain_spec`] is the whole fold, so the returned path is the end of
    /// a merge chain that consumes every pending path exactly once (a
    /// single pending path is returned as it is, unmerged). The caller
    /// renames the result into place. Fails with
    /// [`FinishError::NoOutput`] exactly when no segment was ever added.
    pub fn finish<E, F: Fn(Vec<String>) -> Result<String, E>>(self, merge_batch: &F) -> (r:
        Result<String, FinishError<E>>)
        requires
            self.wf(),
            forall|batch: Vec<String>| #[trigger] call_requires(*merge_batch, (batch,)),
        ensures
            r is Ok ==> self.has_pending(),
            (r matches Err(e) && e is NoOutput) <==> !self.has_pending(),
            r is Ok ==> exists|calls: Seq<MergeCall>|
                drain_spec(Seq::empty(), finish_queue(self.levels()), calls, r->Ok_0@)
                    && calls_ok(*merge_batch, calls),
            (r is Err && r->Err_0 is Merge) ==> merge_error_reported(
                *merge_batch,
                r->Err_0->Merge_0,
            ),
            finish_queue(self.levels()).len() == 1 ==> r is Ok && r->Ok_0@ == finish_queue(
                self.levels(),
            )[0],
    {
        let ghost pending0 = self.has_pending();
        let ghost levels0 = self.levels();
        let ghost full_q = finish_queue(levels0);
        let FileMerge { output_dir: _, mut stacks } = self;
        let ghost stacks0 = stacks@;
        proof {
            assert(levels0 == levels_view(stacks0));
            lemma_levels_view_len(stacks0);
            assert(pending0 <==> exists|x: int|
                0 <= x < stacks0.len() && (#[trigger] stacks0[x])@.len() > 0) by {
                if pending0 {
                    let l = choose|l: int|
                        0 <= l < levels0.len() && (#[trigger] levels0[l]).len() > 0;
                    assert(stacks0[l]@.len() > 0);
                }
                if exists|x: int| 0 <= x < stacks0.len() && (#[trigger] stacks0[x])@.len() > 0 {
                    let x = choose|x: int|
                        0 <= x < stacks0.len() && (#[trigger] stacks0[x])@.len() > 0;
                    assert(levels0[x].len() > 0);
                }
            }
        }
        let mut tmp: Vec<String> = Vec::new();
        let ghost mut calls: Seq<MergeCall> = Seq::empty();
        let mut l: usize = 0;
        proof {
            assert(levels0.skip(0) =~= levels0);
            assert forall|res: Seq<char>, rest: Seq<MergeCall>|
                #[trigger] drain_spec(
                    tmp.deep_view(),
                    finish_queue(levels0.skip(l as int)),
                    rest,
                    res,
                ) implies drain_spec(Seq::empty(), full_q, calls + rest, res) by {
                assert(tmp.deep_view() =~= Seq::<Seq<char>>::empty());
                assert(calls + rest =~= rest);
            }
        }
        #[verifier::loop_isolation(false)]
        while l < stacks.len()
            invariant
                l <= stacks@.len(),
                stacks@.len() == stacks0.len(),
                stacks0.len() == levels0.len(),
                full_q == finish_queue(levels0),
                forall|x: int| l <= x < stacks0.len() ==> #[trigger] stacks@[x] == stacks0[x],
                forall|x: int|
                    0 <= x < stacks0.len() ==> (#[trigger] levels_view(stacks0)[x]).len()
                        == stacks0[x]@.len(),
                levels0 == levels_view(stacks0),
                pending0 <==> (exists|x: int|
                    0 <= x < stacks0.len() && (#[trigger] stacks0[x])@.len() > 0),
                tmp@.len() < NSTREAMS,
                (tmp@.len() > 0) <==> (exists|x: int|
                    0 <= x < l && (#[trigger] stacks0[x])@.len() > 0),
                calls_ok(*merge_batch, calls),
                calls.len() > 0 ==> full_q.len() >= NSTREAMS,
                calls.len() == 0 ==> tmp.deep_view().len() + finish_queue(
                    levels0.skip(l as int),
                ).len() == full_q.len(),
                forall|res: Seq<char>, rest: Seq<MergeCall>|
                    #[trigger] drain_spec(
                        tmp.deep_view(),
                        finish_queue(levels0.skip(l as int)),
                        rest,
                        res,
                    ) ==> drain_spec(Seq::empty(), full_q, calls + rest, res),
                forall|batch: Vec<String>| #[trigger] call_requires(*merge_batch, (batch,)),
            decreases stacks@.len() - l,
        {
            let mut st: Vec<String> = Vec::new();
            let slot = &mut stacks[l];
            core::mem::swap(slot, &mut st);
            let ghost st0 = st@;
            proof {
                assert(st0 == stacks0[l as int]@);
                assert(st.deep_view() =~= levels0[l as int]);
                assert(levels0.skip(l as int).first() == levels0[l as int]);
                assert(levels0.skip(l as int).drop_first() =~= levels0.skip(l + 1));
                assert(finish_queue(levels0.skip(l as int)) =~= st.deep_view().reverse()
                    + finish_queue(levels0.skip(l + 1)));
            }
            #[verifier::loop_isolation(false)]
            while st.len() > 0
                invariant
                    stacks@.len() == stacks0.len(),
                    stacks0.len() == levels0.len(),
                    full_q == finish_queue(levels0),
                    l < stacks@.len(),
                    forall|x: int|
                        l < x < stacks0.len() ==> #[trigger] stacks@[x] == stacks0[x],
                    forall|x: int|
                        0 <= x < stacks0.len() ==> (#[trigger] levels_view(stacks0)[x]).len()
                            == stacks0[x]@.len(),
                    levels0 == levels_view(stacks0),
                    pending0 <==> (exists|x: int|
                        0 <= x < stacks0.len() && (#[trigger] stacks0[x])@.len() > 0),
                    st0 == stacks0[l as int]@,
                    st@.len() <= st0.len(),
                    tmp@.len() < NSTREAMS,
                    (tmp@.len() > 0) <==> ((exists|x: int|
                        0 <= x < l && (#[trigger] stacks0[x])@.len() > 0) || st@.len()
                        < st0.len()),
                    calls_ok(*merge_batch, calls),
                    calls.len() > 0 ==> full_q.len() >= NSTREAMS,
                    calls.len() == 0 ==> tmp.deep_view().len() + (st.deep_view().reverse()
                        + finish_queue(levels0.skip(l + 1))).len() == full_q.len(),
                    forall|res: Seq<char>, rest: Seq<MergeCall>|
                        #[trigger] drain_spec(
                            tmp.deep_view(),
                            st.deep_view().reverse() + finish_queue(levels0.skip(l + 1)),
                            rest,
                            res,
                        ) ==> drain_spec(Seq::empty(), full_q, calls + rest, res),
                    forall|batch: Vec<String>| #[trigger] call_requires(*merge_batch, (batch,)),
                decreases st@.len(),
            {
                let ghost rem_pre = st.deep_view().reverse() + finish_queue(levels0.skip(l + 1));
                let ghost tmp_pre = tmp.deep_view();
                let ghost st_pre = st.deep_view();
                let f = st.pop().unwrap();
                tmp.push(f);
                proof {
                    assert(f@ == st_pre[st_pre.len() - 1]);
                    assert(rem_pre.first() == f@);
                    assert(st.deep_view() =~= st_pre.take(st_pre.len() - 1));
                    assert(st.deep_view().reverse() + finish_queue(levels0.skip(l + 1))
                        =~= rem_pre.drop_first());
                    assert(tmp.deep_view() =~= tmp_pre.push(f@));
                }
                let ghost rem_now = st.deep_view().reverse() + finish_queue(levels0.skip(l + 1));
                if tmp.len() == NSTREAMS {
                    let ghost gathered = tmp.deep_view();
                    let ghost tmp_snap = tmp;
                    let ghost prev_fired_none = (calls.len() == 0);
                    let merged = match Self::merge_reversed(tmp, merge_batch) {
                        Ok(m) => m,
                        Err(e) => {
                            proof {
                                assert(st@.len() < st0.len());
                                assert(stacks0[l as int]@.len() > 0);
                                assert(pending0);
                                if calls.len() == 0 {
                                    assert(tmp_pre.len() + rem_pre.len() == full_q.len());
                                    assert(full_q.len() >= NSTREAMS);
                                }
                                assert(full_q.len() >= NSTREAMS);
                                let bw = choose|b: Vec<String>|
                                    b.deep_view() == tmp_snap.deep_view().reverse()
                                        && call_ensures(*merge_batch, (b,), Err::<String, E>(e));
                                assert(call_ensures(*merge_batch, (bw,), Err::<String, E>(e)));
                                assert(merge_error_reported(*merge_batch, e));
                            }
                            return Err(FinishError::Merge(e));
                        },
                    };
                    proof {
                        let call = MergeCall { batch: gathered.reverse(), result: merged@ };
                        let bw = choose|b: Vec<String>|
                            b.deep_view() == tmp_snap.deep_view().reverse() && call_ensures(
                                *merge_batch,
                                (b,),
                                Ok::<String, E>(merged),
                            );
                        lemma_calls_ok_push(*merge_batch, calls, call, bw, merged);
                        let prev_calls = calls;
                        calls = calls.push(call);
                        assert forall|res: Seq<char>, rest: Seq<MergeCall>|
                            #[trigger] drain_spec(seq![merged@], rem_now, rest, res) implies
                            drain_spec(Seq::empty(), full_q, calls + rest, res) by {
                            let chained = seq![call] + rest;
                            assert(chained.first() == call);
                            assert(chained.drop_first() =~= rest);
                            assert(gathered == tmp_pre.push(f@));
                            assert(drain_spec(tmp_pre, rem_pre, chained, res));
                            assert(drain_spec(Seq::empty(), full_q, prev_calls + chained, res));
                            assert(prev_calls + chained =~= calls + rest);
                        }
                    }
                    tmp = Vec::new();
                    tmp.push(merged);
                    proof {
                        assert(tmp.deep_view() =~= seq![merged@]);
                        assert(full_q.len() >= NSTREAMS) by {
                            if prev_fired_none {
                                assert(tmp_pre.len() + rem_pre.len() == full_q.len());
                            }
                        }
                    }
                } else {
                    proof {
                        assert forall|res: Seq<char>, rest: Seq<MergeCall>|
                            #[trigger] drain_spec(tmp.deep_view(), rem_now, rest, res) implies
                            drain_spec(Seq::empty(), full_q, calls + rest, res) by {
                            assert(drain_spec(tmp_pre, rem_pre, rest, res));
                        }
                    }
                }
            }
            proof {
                assert(st.deep_view().reverse() =~= Seq::<Seq<char>>::empty());
                assert(st.deep_view().reverse() + finish_queue(levels0.skip(l + 1))
                    =~= finish_queue(levels0.skip(l + 1)));
                if tmp@.len() > 0 {
                    if !(exists|x: int| 0 <= x < l && (#[trigger] stacks0[x])@.len() > 0) {
                        assert(st@.len() < st0.len());
                        assert(stacks0[l as int]@.len() > 0);
                    }
                    assert(exists|x: int| 0 <= x < l + 1 && (#[trigger] stacks0[x])@.len() > 0);
                } else {
                    assert(st@.len() == st0.len() && st@.len() == 0);
                    assert(forall|x: int|
                        0 <= x < l + 1 ==> (#[trigger] stacks0[x])@.len() == 0);
                }
            }
            l = l + 1;
        }
        proof {
            assert((tmp@.len() > 0) <==> pending0);
            assert(levels0.skip(stacks0.len() as int) =~= Seq::<Seq<Seq<char>>>::empty());
            assert(finish_queue(levels0.skip(stacks0.len() as int)) =~= Seq::<Seq<char>>::empty());
        }
        let ghost rem_done = finish_queue(levels0.skip(stacks0.len() as int));
        proof {
            if tmp@.len() == 1 {
                let v = tmp.deep_view()[0];
                assert(drain_spec(tmp.deep_view(), rem_done, Seq::empty(), v)) by {
                    assert(tmp.deep_view() =~= seq![v]);
                }
                assert(drain_spec(Seq::empty(), full_q, calls + Seq::empty(), v));
                assert(calls + Seq::<MergeCall>::empty() =~= calls);
                assert(drain_spec(Seq::empty(), full_q, calls, v));
            }
        }
        if tmp.len() > 1 {
            let ghost gathered = tmp.deep_view();
            let ghost tmp_snap = tmp;
            let ghost pre_calls = calls;
            let merged = match Self::merge_reversed(tmp, merge_batch) {
                Ok(m) => m,
                Err(e) => {
                    proof {
                        assert(full_q.len() > 1) by {
                            if calls.len() == 0 {
                                assert(gathered.len() + rem_done.len() == full_q.len());
                            }
                        }
                        let bw = choose|b: Vec<String>|
                            b.deep_view() == tmp_snap.deep_view().reverse() && call_ensures(
                                *merge_batch,
                                (b,),
                                Err::<String, E>(e),
                            );
                        assert(call_ensures(*merge_batch, (bw,), Err::<String, E>(e)));
                        assert(merge_error_reported(*merge_batch, e));
                    }
                    return Err(FinishError::Merge(e));
                },
            };
            proof {
                let call = MergeCall { batch: gathered.reverse(), result: merged@ };
                let bw = choose|b: Vec<String>|
                    b.deep_view() == tmp_snap.deep_view().reverse() && call_ensures(
                        *merge_batch,
                        (b,),
                        Ok::<String, E>(merged),
                    );
                lemma_calls_ok_push(*merge_batch, calls, call, bw, merged);
                calls = calls.push(call);
                assert(drain_spec(gathered, rem_done, seq![call], merged@)) by {
                    assert(seq![call].first() == call);
                }
                assert(drain_spec(Seq::empty(), full_q, pre_calls + seq![call], merged@));
                assert(pre_calls + seq![call] =~= calls);
                assert(drain_spec(Seq::empty(), full_q, calls, merged@));
            }
            tmp = Vec::new();
            tmp.push(merged);
            proof {
                assert(tmp.deep_view() =~= seq![merged@]);
                assert(drain_spec(Seq::empty(), full_q, calls, tmp.deep_view()[0]));
            }
        }
        let ghost tmpv = tmp.deep_view();
        match tmp.pop() {
            Some(last_file) => {
                proof {
                    assert(last_file@ == tmpv[tmpv.len() - 1]);
                    assert(tmpv.len() == 1);
                    assert(drain_spec(Seq::empty(), full_q, calls, last_file@));
                    if full_q.len() == 1 {
                        lemma_drain_single(full_q, calls, last_file@);
                    }
                }
                Ok(last_file)
            },
            None => Err(FinishError::NoOutput),
        }
    }

    /// Merges a batch in the order the files first arrived: the batch was
    /// collected newest-first, so the caller's merge function receives its
    /// reversal, and its verdict is passed through.
    fn merge_reversed<E, F: Fn(Vec<String>) -> Result<String, E>>(files: Vec<String>, merge_batch: &F)
        -> (r: Result<String, E>)
        requires
            forall|batch: Vec<String>| #[trigger] call_requires(*merge_batch, (batch,)),
        ensures
            r is Ok ==> exists|b: Vec<String>|
                b.deep_view() == files.deep_view().reverse() && call_ensures(
                    *merge_batch,
                    (b,),
                    Ok::<String, E>(r->Ok_0),
                ),
            r is Err ==> exists|b: Vec<String>|
                b.deep_view() == files.deep_view().reverse() && call_ensures(
                    *merge_batch,
                    (b,),
                    Err::<String, E>(r->Err_0),
                ),
    {
        let ghost files0 = files.deep_view();
        let mut files = files;
        let mut rev: Vec<String> = Vec::new();
        proof {
            assert(files.deep_view() =~= files0.take(files@.len() as int));
            assert(rev.deep_view() =~= files0.skip(files@.len() as int).reverse());
        }
        #[verifier::loop_isolation(false)]
        while files.len() > 0
            invariant
                files@.len() <= files0.len(),
                files.deep_view() == files0.take(files@.len() as int),
                rev.deep_view() == files0.skip(files@.len() as int).reverse(),
            decreases files@.len(),
        {
            let ghost m = files@.len() as int;
            let ghost pre = files.deep_view();
            let ghost prev = rev.deep_view();
            let f = files.pop().unwrap();
            rev.push(f);
            proof {
                assert(pre[m - 1] == f@);
                assert(f@ == files0[m - 1]);
                assert(files.deep_view() =~= files0.take(m - 1));
                assert(rev.deep_view() =~= prev.push(f@));
                assert(rev.deep_view() =~= files0.skip(m - 1).reverse());
            }
        }
        proof {
            assert(rev.deep_view() =~= files0.reverse());
        }
        let ghost reversed = rev;
        let r = merge_batch(rev);
        proof {
            assert(call_ensures(*merge_batch, (reversed,), r));
        }
        r
    }
}

/// While every segment up to `j` decodes and segment `j` does not, `j` is
/// the first that does not.
pub proof fn lemma_first_bad(datas: Seq<Seq<u8>>, j: int)
    requires
        0 <= j < datas.len(),
        forall|i: int| 0 <= i < j ==> wf_segment(#[trigger] datas[i]),
        !wf_segment(datas[j]),
    ensures
        first_bad(datas) == j,
    decreases j,
{
    if j > 0 {
        assert(wf_segment(datas.first()));
        assert(forall|i: int|
            0 <= i < datas.len() - 1 ==> #[trigger] datas.drop_first()[i] == datas[i + 1]);
        lemma_first_bad(datas.drop_first(), j - 1);
    }
}

} // verus!
