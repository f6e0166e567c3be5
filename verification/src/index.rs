//! In-memory inverted index: a mergeable accumulator mapping each term to the
//! posting buffers collected for it, together with a running word count.

use crate::text::{lower_of, tokenize, tokens_of};
use vstd::bytes::{lemma_auto_spec_u32_to_from_le_bytes, spec_u32_to_le_bytes, u32_to_le_bytes};
use vstd::prelude::*;

verus! {

/// One posting buffer: the bytes `[document_id: u32 LE][position: u32 LE]*`
/// collected for a (term, document) pair.
pub type Hit = Vec<u8>;

/// The posting buffers stored under one term, in document arrival order.
pub struct TermHits {
    pub term: String,
    pub hits: Vec<Hit>,
}

/// A mergeable in-memory partial index.
///
/// `map` is an association list from term to posting buffers; the invariant
/// [`InMemoryIndex::wf`] keeps each term at most once. `word_count` counts
/// every token occurrence folded in so far.
pub struct InMemoryIndex {
    pub word_count: usize,
    pub map: Vec<TermHits>,
}

/// Word-count threshold above which an accumulator is considered large
/// enough to flush; a policy knob, not a correctness invariant.
pub const REASONABLE_SIZE: usize = 100_000_000;

/// The mathematical contents of an association list: term -> posting buffers.
pub open spec fn assoc_map(entries: Seq<TermHits>) -> Map<Seq<char>, Seq<Seq<u8>>>
    decreases entries.len(),
{
    if entries.len() == 0 {
        Map::empty()
    } else {
        assoc_map(entries.drop_last()).insert(
            entries.last().term@,
            entries.last().hits.deep_view(),
        )
    }
}

/// The terms of an association list, in slot order.
pub open spec fn assoc_keys(entries: Seq<TermHits>) -> Seq<Seq<char>> {
    entries.map(|i: int, e: TermHits| e.term@)
}

/// The position bytes of term `t` within one document's token sequence:
/// the little-endian `u32` token ordinals at which `t` occurs, concatenated.
pub open spec fn doc_positions(toks: Seq<Seq<char>>, t: Seq<char>) -> Seq<u8>
    decreases toks.len(),
{
    if toks.len() == 0 {
        Seq::empty()
    } else {
        doc_positions(toks.drop_last(), t) + if toks.last() == t {
            spec_u32_to_le_bytes((toks.len() - 1) as u32)
        } else {
            Seq::empty()
        }
    }
}

/// The single posting buffer a document produces for term `t`:
/// the document id followed by the term's position bytes.
pub open spec fn doc_hit(document_id: usize, toks: Seq<Seq<char>>, t: Seq<char>) -> Seq<u8> {
    spec_u32_to_le_bytes(document_id as u32) + doc_positions(toks, t)
}

/// A term that never occurs has no position bytes.
proof fn lemma_doc_positions_absent(toks: Seq<Seq<char>>, t: Seq<char>)
    requires
        !toks.contains(t),
    ensures
        doc_positions(toks, t) == Seq::<u8>::empty(),
    decreases toks.len(),
{
    if toks.len() > 0 {
        assert(!toks.drop_last().contains(t)) by {
            assert(forall|i: int|
                0 <= i < toks.len() - 1 ==> toks.drop_last()[i] == #[trigger] toks[i]);
        }
        lemma_doc_positions_absent(toks.drop_last(), t);
        assert(doc_positions(toks, t) =~= Seq::<u8>::empty());
    }
}

/// An association list with distinct terms maps slot `i`'s term to slot
/// `i`'s posting buffers.
pub proof fn lemma_assoc_map_index(entries: Seq<TermHits>, i: int)
    requires
        forall|p: int, q: int|
            0 <= p < q < entries.len() ==> entries[p].term@ != entries[q].term@,
        0 <= i < entries.len(),
    ensures
        assoc_map(entries).contains_key(entries[i].term@),
        assoc_map(entries)[entries[i].term@] == entries[i].hits.deep_view(),
    decreases entries.len(),
{
    if i < entries.len() - 1 {
        lemma_assoc_map_index(entries.drop_last(), i);
    }
}

/// The keys of an association list's map are exactly its terms.
pub proof fn lemma_assoc_map_dom(entries: Seq<TermHits>, k: Seq<char>)
    ensures
        assoc_map(entries).contains_key(k) <==> assoc_keys(entries).contains(k),
    decreases entries.len(),
{
    if entries.len() > 0 {
        lemma_assoc_map_dom(entries.drop_last(), k);
        assert(assoc_keys(entries).contains(k) <==> (assoc_keys(entries.drop_last()).contains(k)
            || entries.last().term@ == k)) by {
            if assoc_keys(entries).contains(k) {
                let i = choose|i: int| 0 <= i < entries.len() && assoc_keys(entries)[i] == k;
                if i < entries.len() - 1 {
                    assert(assoc_keys(entries.drop_last())[i] == k);
                }
            }
            if assoc_keys(entries.drop_last()).contains(k) {
                let i = choose|i: int|
                    0 <= i < entries.len() - 1 && assoc_keys(entries.drop_last())[i] == k;
                assert(assoc_keys(entries)[i] == k);
            }
            if entries.last().term@ == k {
                assert(assoc_keys(entries)[entries.len() - 1] == k);
            }
        }
    }
}

/// Replacing slot `i`'s posting buffers updates the map at slot `i`'s term
/// and nothing else.
proof fn lemma_assoc_map_update(entries: Seq<TermHits>, i: int, e: TermHits)
    requires
        forall|p: int, q: int|
            0 <= p < q < entries.len() ==> entries[p].term@ != entries[q].term@,
        0 <= i < entries.len(),
        e.term@ == entries[i].term@,
    ensures
        assoc_map(entries.update(i, e)) == assoc_map(entries).insert(e.term@, e.hits.deep_view()),
    decreases entries.len(),
{
    let upd = entries.update(i, e);
    if i == entries.len() - 1 {
        assert(upd.drop_last() =~= entries.drop_last());
        assert(upd.last() == e);
        assert(assoc_map(upd) =~= assoc_map(entries).insert(e.term@, e.hits.deep_view()));
    } else {
        assert(upd.drop_last() =~= entries.drop_last().update(i, e));
        assert(upd.last() == entries.last());
        lemma_assoc_map_update(entries.drop_last(), i, e);
        lemma_assoc_map_dom(entries.drop_last(), e.term@);
        assert(assoc_map(upd) =~= assoc_map(entries).insert(e.term@, e.hits.deep_view()));
    }
}

/// Rearranging the slots of an association list with distinct terms keeps
/// the terms distinct and the contents unchanged.
pub proof fn lemma_assoc_map_permutation(s1: Seq<TermHits>, s2: Seq<TermHits>)
    requires
        s1.to_multiset() == s2.to_multiset(),
        forall|p: int, q: int| 0 <= p < q < s1.len() ==> s1[p].term@ != s1[q].term@,
    ensures
        forall|p: int, q: int| 0 <= p < q < s2.len() ==> s2[p].term@ != s2[q].term@,
        assoc_map(s1) == assoc_map(s2),
{
    broadcast use vstd::multiset::group_multiset_axioms;

    s1.to_multiset_ensures();
    s2.to_multiset_ensures();
    assert forall|p: int, q: int| 0 <= p < q < s2.len() implies s2[p].term@ != s2[q].term@ by {
        if s2[p].term@ == s2[q].term@ {
            if s2[p] == s2[q] {
                let v = s2[p];
                s2.remove_ensures(p);
                s2.remove(p).to_multiset_ensures();
                assert(s2.remove(p).to_multiset() =~= s2.to_multiset().remove(v));
                assert(s2.remove(p)[q - 1] == v);
                assert(s2.remove(p).contains(v));
                assert(s2.remove(p).to_multiset().count(v) > 0);
                assert(s2.to_multiset().count(v) >= 2);
                assert(s1.to_multiset().count(v) >= 2);
                assert(s1.contains(v));
                let i1 = choose|i: int| 0 <= i < s1.len() && s1[i] == v;
                s1.remove_ensures(i1);
                s1.remove(i1).to_multiset_ensures();
                assert(s1.remove(i1).to_multiset() =~= s1.to_multiset().remove(v));
                assert(s1.remove(i1).to_multiset().count(v) > 0);
                assert(s1.remove(i1).contains(v));
                let j = choose|i: int| 0 <= i < s1.remove(i1).len() && s1.remove(i1)[i] == v;
                let i2: int = if j < i1 {
                    j
                } else {
                    j + 1
                };
                assert(s1[i2] == v);
                assert(i1 != i2);
                assert(s1[i1].term@ == s1[i2].term@);
            } else {
                let va = s2[p];
                let vb = s2[q];
                assert(s2.contains(va) && s2.contains(vb));
                assert(s2.to_multiset().count(va) > 0 && s2.to_multiset().count(vb) > 0);
                assert(s1.to_multiset().count(va) > 0 && s1.to_multiset().count(vb) > 0);
                assert(s1.contains(va) && s1.contains(vb));
                let i1 = choose|i: int| 0 <= i < s1.len() && s1[i] == va;
                let i2 = choose|i: int| 0 <= i < s1.len() && s1[i] == vb;
                assert(i1 != i2);
                assert(s1[i1].term@ == s1[i2].term@);
            }
        }
    }
    assert forall|k: Seq<char>| #![trigger assoc_map(s1).contains_key(k)]
        assoc_map(s1).contains_key(k) implies assoc_map(s2).contains_key(k) && assoc_map(s2)[k]
        == assoc_map(s1)[k] by {
        lemma_assoc_map_dom(s1, k);
        let i = choose|i: int| 0 <= i < s1.len() && assoc_keys(s1)[i] == k;
        assert(s1[i].term@ == k);
        lemma_assoc_map_index(s1, i);
        assert(s1.contains(s1[i]));
        assert(s1.to_multiset().count(s1[i]) > 0);
        assert(s2.to_multiset().count(s1[i]) > 0);
        assert(s2.contains(s1[i]));
        let j = choose|j: int| 0 <= j < s2.len() && s2[j] == s1[i];
        lemma_assoc_map_index(s2, j);
    }
    assert forall|k: Seq<char>| #![trigger assoc_map(s2).contains_key(k)]
        assoc_map(s2).contains_key(k) implies assoc_map(s1).contains_key(k) by {
        lemma_assoc_map_dom(s2, k);
        let j = choose|j: int| 0 <= j < s2.len() && assoc_keys(s2)[j] == k;
        assert(s2[j].term@ == k);
        lemma_assoc_map_index(s2, j);
        assert(s2.contains(s2[j]));
        assert(s2.to_multiset().count(s2[j]) > 0);
        assert(s1.to_multiset().count(s2[j]) > 0);
        assert(s1.contains(s2[j]));
        let i = choose|i: int| 0 <= i < s1.len() && s1[i] == s2[j];
        lemma_assoc_map_index(s1, i);
    }
    assert forall|k: Seq<char>|
        assoc_map(s1).dom().contains(k) <==> assoc_map(s2).dom().contains(k) by {
        assert(assoc_map(s1).contains_key(k) ==> assoc_map(s2).contains_key(k));
        assert(assoc_map(s2).contains_key(k) ==> assoc_map(s1).contains_key(k));
    }
    assert(assoc_map(s1).dom() =~= assoc_map(s2).dom());
    assert(assoc_map(s1) =~= assoc_map(s2));
}

impl InMemoryIndex {
    /// Each term occupies at most one slot.
    pub open spec fn wf(self) -> bool {
        forall|i: int, j: int|
            0 <= i < j < self.map@.len() ==> self.map@[i].term@ != self.map@[j].term@
    }

    /// The index's contents as a map from term to posting buffers.
    pub open spec fn contents(self) -> Map<Seq<char>, Seq<Seq<u8>>> {
        assoc_map(self.map@)
    }

    pub fn new() -> (r: InMemoryIndex)
        ensures
            r.wf(),
            r.word_count == 0,
            r.contents() == Map::<Seq<char>, Seq<Seq<u8>>>::empty(),
    {
        InMemoryIndex { word_count: 0, map: Vec::new() }
    }

    /// True once the accumulated word count exceeds [`REASONABLE_SIZE`].
    pub fn is_large(&self) -> (r: bool)
        ensures
            r == (self.word_count > REASONABLE_SIZE),
    {
        self.word_count > REASONABLE_SIZE
    }

    /// True if nothing has been folded in.
    pub fn is_empty(&self) -> (r: bool)
        ensures
            r == (self.word_count == 0),
    {
        self.word_count == 0
    }

    /// The slot holding `term`, if any.
    fn find_term(&self, term: &String) -> (r: Option<usize>)
        ensures
            match r {
                Some(i) => i < self.map@.len() && self.map@[i as int].term@ == term@,
                None => forall|i: int| 0 <= i < self.map@.len() ==> self.map@[i].term@ != term@,
            },
    {
        let mut i: usize = 0;
        while i < self.map.len()
            invariant
                i <= self.map@.len(),
                forall|j: int| 0 <= j < i ==> self.map@[j].term@ != term@,
            decreases self.map@.len() - i,
        {
            if self.map[i].term.eq(term) {
                return Some(i);
            }
            i = i + 1;
        }
        None
    }

    /// Builds the partial index of one document: every token of the
    /// lowercased text is recorded as an occurrence of its term, so each
    /// term present holds exactly one posting buffer `[document_id]
    /// [positions...]` and the word count equals the token count.
    pub fn from_single_document(document_id: usize, text: String) -> (r: InMemoryIndex)
        ensures
            r.wf(),
            r.word_count == tokens_of(lower_of(text@)).len(),
            forall|t: Seq<char>|
                r.contents().contains_key(t) <==> tokens_of(lower_of(text@)).contains(t),
            forall|t: Seq<char>|
                r.contents().contains_key(t) ==> r.contents()[t] == seq![
                    doc_hit(document_id, tokens_of(lower_of(text@)), t),
                ],
    {
        let tokens = tokenize(text.as_str());
        let ghost toks = tokens_of(lower_of(text@));
        let mut index = InMemoryIndex::new();
        proof {
            lemma_auto_spec_u32_to_from_le_bytes();
        }
        let mut j: usize = 0;
        while j < tokens.len()
            invariant
                j <= tokens.len(),
                tokens.deep_view() == toks,
                index.wf(),
                index.word_count == j,
                forall|t: Seq<char>|
                    index.contents().contains_key(t) <==> toks.take(j as int).contains(t),
                forall|t: Seq<char>|
                    index.contents().contains_key(t) ==> index.contents()[t] == seq![
                        doc_hit(document_id, toks.take(j as int), t),
                    ],
            decreases tokens.len() - j,
        {
            let token = &tokens[j];
            let ghost t0 = token@;
            let ghost pre = toks.take(j as int);
            let ghost post = toks.take(j + 1);
            proof {
                assert(index.contents().contains_key(t0) <==> pre.contains(t0));
                assert(post.drop_last() =~= pre);
                assert(post.last() == t0);
                assert(forall|t: Seq<char>|
                    post.contains(t) <==> (pre.contains(t) || t == t0)) by {
                    assert(forall|i: int| 0 <= i < j ==> post[i] == #[trigger] pre[i]);
                    assert(post[j as int] == t0);
                    assert forall|t: Seq<char>| post.contains(t) implies (pre.contains(t) || t
                        == t0) by {
                        let i = choose|i: int| 0 <= i < post.len() && post[i] == t;
                        if i < j {
                            assert(pre[i] == t);
                        }
                    }
                }
                assert(forall|t: Seq<char>|
                    t != t0 ==> doc_positions(post, t) =~= doc_positions(pre, t));
                assert(doc_positions(post, t0) == doc_positions(pre, t0) + spec_u32_to_le_bytes(
                    j as u32,
                ));
            }
            let slot = match index.find_term(token) {
                Some(i) => i,
                None => {
                    let first_hit = u32_to_le_bytes(#[verifier::truncate] (document_id as u32));
                    let mut hits: Vec<Hit> = Vec::new();
                    hits.push(first_hit);
                    let ghost old_entries = index.map@;
                    index.map.push(TermHits { term: token.clone(), hits });
                    proof {
                        assert(index.map@.drop_last() =~= old_entries);
                        assert(forall|p: int|
                            0 <= p < old_entries.len() ==> old_entries[p] == #[trigger] index.map@[p]);
                        lemma_assoc_map_dom(old_entries, t0);
                        assert(!assoc_keys(old_entries).contains(t0)) by {
                            if assoc_keys(old_entries).contains(t0) {
                                let i = choose|i: int|
                                    0 <= i < old_entries.len() && assoc_keys(old_entries)[i] == t0;
                                assert(old_entries[i].term@ == t0);
                            }
                        }
                        assert(assoc_map(old_entries).contains_key(t0) <==> pre.contains(t0));
                        assert(!pre.contains(t0));
                        lemma_doc_positions_absent(pre, t0);
                        assert(index.map@.last().hits.deep_view() =~~= seq![
                            spec_u32_to_le_bytes(document_id as u32),
                        ]);
                        assert(doc_hit(document_id, pre, t0) =~= spec_u32_to_le_bytes(
                            document_id as u32,
                        ));
                    }
                    index.map.len() - 1
                },
            };
            let ghost entries = index.map@;
            proof {
                assert(forall|p: int, q: int|
                    0 <= p < q < entries.len() ==> entries[p].term@ != entries[q].term@);
                lemma_assoc_map_index(entries, slot as int);
                assert(assoc_map(entries).contains_key(t0));
                assert(assoc_map(entries)[t0] == entries[slot as int].hits.deep_view());
                assert(entries[slot as int].hits.deep_view() == seq![
                    doc_hit(document_id, pre, t0),
                ]);
                assert(entries[slot as int].hits@.len() == 1);
            }
            let mut pos_bytes = u32_to_le_bytes(#[verifier::truncate] (j as u32));
            let ghost old_first = index.map@[slot as int].hits@[0]@;
            proof {
                assert(old_first == entries[slot as int].hits.deep_view()[0]);
            }
            index.map[slot].hits[0].append(&mut pos_bytes);
            proof {
                let e = index.map@[slot as int];
                assert(e.term@ == t0);
                assert(index.map@ =~= entries.update(slot as int, e));
                lemma_assoc_map_update(entries, slot as int, e);
                assert(e.hits.deep_view() =~~= seq![doc_hit(document_id, post, t0)]) by {
                    assert(e.hits@[0]@ =~= old_first + spec_u32_to_le_bytes(j as u32));
                    assert(doc_hit(document_id, pre, t0) + spec_u32_to_le_bytes(j as u32)
                        =~= doc_hit(document_id, post, t0));
                    assert(e.hits.deep_view() =~~= seq![e.hits@[0]@]);
                }
                assert(index.contents() == assoc_map(entries).insert(t0, e.hits.deep_view()));
            }
            index.word_count = index.word_count + 1;
            j = j + 1;
        }
        proof {
            assert(toks.take(tokens.len() as int) =~= toks);
        }
        index
    }

    /// Folds `other` into `self`: each of `other`'s terms has its posting
    /// buffers appended to `self`'s (a new slot is made for a term `self`
    /// lacks) and the word counts are added, saturating at the machine
    /// limit.
    pub fn merge(&mut self, other: InMemoryIndex)
        requires
            old(self).wf(),
            other.wf(),
        ensures
            final(self).wf(),
            final(self).word_count == if old(self).word_count + other.word_count <= usize::MAX {
                old(self).word_count + other.word_count
            } else {
                usize::MAX as int
            },
            forall|k: Seq<char>| #![trigger final(self).contents().contains_key(k)]
                final(self).contents().contains_key(k) <==> (old(self).contents().contains_key(k)
                    || other.contents().contains_key(k)),
            forall|k: Seq<char>| #![trigger final(self).contents().contains_key(k)]
                final(self).contents().contains_key(k) ==> final(self).contents()[k]
                    == merged_hits(old(self).contents(), other.contents(), k),
    {
        let ghost orig = merged_maps(old(self).contents(), other.contents());
        let mut rest = other.map;
        proof {
            assert(merged_maps(self.contents(), assoc_map(rest@)) =~= orig);
        }
        loop
            invariant
                self.wf(),
                self.word_count == old(self).word_count,
                forall|p: int, q: int|
                    0 <= p < q < rest@.len() ==> rest@[p].term@ != rest@[q].term@,
                merged_maps(self.contents(), assoc_map(rest@)) == orig,
            ensures
                self.wf(),
                self.word_count == old(self).word_count,
                rest@.len() == 0,
                merged_maps(self.contents(), assoc_map(rest@)) == orig,
            decreases rest@.len(),
        {
            let th = match rest.pop() {
                Some(th) => th,
                None => { break; },
            };
            let ghost k = th.term@;
            let ghost th_hits = th.hits.deep_view();
            let ghost rem = rest@;
            proof {
                lemma_assoc_map_dom(rem, k);
                assert(!assoc_keys(rem).contains(k)) by {
                    assert(forall|i: int|
                        0 <= i < rem.len() ==> rem[i] == #[trigger] rem.push(th)[i]);
                    if assoc_keys(rem).contains(k) {
                        let i = choose|i: int| 0 <= i < rem.len() && assoc_keys(rem)[i] == k;
                        assert(rem.push(th)[i].term@ == k);
                        assert(rem.push(th)[rem.len() as int].term@ == k);
                    }
                }
            }
            match self.find_term(&th.term) {
                Some(i) => {
                    let ghost entries = self.map@;
                    let ghost old_hits = self.map@[i as int].hits@;
                    let mut moved = th;
                    self.map[i].hits.append(&mut moved.hits);
                    proof {
                        let e = self.map@[i as int];
                        assert(self.map@ =~= entries.update(i as int, e));
                        lemma_assoc_map_update(entries, i as int, e);
                        lemma_assoc_map_index(entries, i as int);
                        assert(e.hits.deep_view() =~~= entries[i as int].hits.deep_view()
                            + th_hits);
                        assert(merged_maps(self.contents(), assoc_map(rem)) =~= orig);
                    }
                },
                None => {
                    let ghost entries = self.map@;
                    self.map.push(th);
                    proof {
                        assert(self.map@.drop_last() =~= entries);
                        lemma_assoc_map_dom(entries, k);
                        assert(merged_maps(self.contents(), assoc_map(rem)) =~= orig);
                    }
                },
            }
        }
        proof {
            assert(assoc_map(rest@) =~= Map::<Seq<char>, Seq<Seq<u8>>>::empty());
            assert(self.contents() =~= orig);
        }
        if self.word_count > usize::MAX - other.word_count {
            self.word_count = usize::MAX;
        } else {
            self.word_count = self.word_count + other.word_count;
        }
    }
}

/// How a merge combines the posting buffers two indexes hold for term `k`:
/// the buffers of the first, then those of the second.
pub open spec fn merged_hits(
    a: Map<Seq<char>, Seq<Seq<u8>>>,
    b: Map<Seq<char>, Seq<Seq<u8>>>,
    k: Seq<char>,
) -> Seq<Seq<u8>> {
    if a.contains_key(k) && b.contains_key(k) {
        a[k] + b[k]
    } else if b.contains_key(k) {
        b[k]
    } else {
        a[k]
    }
}

/// Merging commutes up to the order of each term's posting buffers:
/// either order yields the same term set, and for every term the same
/// posting buffers as a multiset — so in particular the same document
/// frequency per term and the same total posting count.
pub proof fn lemma_merge_commutes(
    a: Map<Seq<char>, Seq<Seq<u8>>>,
    b: Map<Seq<char>, Seq<Seq<u8>>>,
)
    ensures
        forall|k: Seq<char>|
            merged_maps(a, b).contains_key(k) <==> merged_maps(b, a).contains_key(k),
        forall|k: Seq<char>|
            #[trigger] merged_maps(a, b).contains_key(k) ==> merged_maps(a, b)[k].len()
                == merged_maps(b, a)[k].len(),
        forall|k: Seq<char>|
            #[trigger] merged_maps(a, b).contains_key(k) ==> merged_maps(a, b)[k].to_multiset()
                == merged_maps(b, a)[k].to_multiset(),
{
    assert forall|k: Seq<char>| #[trigger] merged_maps(a, b).contains_key(k) implies merged_maps(
        a,
        b,
    )[k].len() == merged_maps(b, a)[k].len() && merged_maps(a, b)[k].to_multiset()
        == merged_maps(b, a)[k].to_multiset() by {
        if a.contains_key(k) && b.contains_key(k) {
            vstd::seq_lib::lemma_multiset_commutative(a[k], b[k]);
            vstd::seq_lib::lemma_multiset_commutative(b[k], a[k]);
            assert((a[k] + b[k]).to_multiset() =~= (b[k] + a[k]).to_multiset());
        }
    }
}

/// The contents of a merge: the union of the key sets, combining the
/// posting buffers of shared terms.
pub open spec fn merged_maps(
    a: Map<Seq<char>, Seq<Seq<u8>>>,
    b: Map<Seq<char>, Seq<Seq<u8>>>,
) -> Map<Seq<char>, Seq<Seq<u8>>> {
    Map::new(
        |k: Seq<char>| a.contains_key(k) || b.contains_key(k),
        |k: Seq<char>| merged_hits(a, b, k),
    )
}

} // verus!
