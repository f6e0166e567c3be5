//! The accumulation step both execution modes share: fold the next
//! document's partial index into the running accumulator and hand the
//! accumulator out once it has grown large, starting a fresh one.

use crate::index::{merged_maps, InMemoryIndex, REASONABLE_SIZE};
use vstd::prelude::*;

verus! {

/// Merges `next` into `acc`. When that pushes the accumulator past the
/// size threshold, the full accumulator is returned for flushing and
/// `acc` restarts empty; otherwise nothing is emitted. Either way the
/// combined index holds the union of the two term sets with `next`'s
/// posting buffers appended to `acc`'s per term, and the word counts
/// added, saturating at the machine limit.
pub fn accumulate(acc: &mut InMemoryIndex, next: InMemoryIndex) -> (emit: Option<InMemoryIndex>)
    requires
        old(acc).wf(),
        next.wf(),
    ensures
        final(acc).wf(),
        ({
            let combined_count: int = if old(acc).word_count + next.word_count <= usize::MAX {
                old(acc).word_count + next.word_count
            } else {
                usize::MAX as int
            };
            let combined = merged_maps(old(acc).contents(), next.contents());
            match emit {
                Some(full) => {
                    &&& full.wf()
                    &&& full.word_count == combined_count
                    &&& full.word_count > REASONABLE_SIZE
                    &&& full.contents() == combined
                    &&& final(acc).word_count == 0
                    &&& final(acc).contents() == Map::<Seq<char>, Seq<Seq<u8>>>::empty()
                },
                None => {
                    &&& final(acc).word_count == combined_count
                    &&& final(acc).word_count <= REASONABLE_SIZE
                    &&& final(acc).contents() == combined
                },
            }
        }),
{
    acc.merge(next);
    proof {
        let m = merged_maps(old(acc).contents(), next.contents());
        assert forall|k: Seq<char>|
            acc.contents().contains_key(k) <==> m.contains_key(k) by {
            assert(acc.contents().contains_key(k) <==> (old(acc).contents().contains_key(k)
                || next.contents().contains_key(k)));
        }
        assert forall|k: Seq<char>| acc.contents().contains_key(k) implies acc.contents()[k]
            == m[k] by {
            assert(acc.contents()[k] == crate::index::merged_hits(
                old(acc).contents(),
                next.contents(),
                k,
            ));
        }
        assert forall|k: Seq<char>|
            acc.contents().dom().contains(k) <==> m.dom().contains(k) by {
            assert(acc.contents().contains_key(k) <==> m.contains_key(k));
        }
        assert(acc.contents().dom() =~= m.dom());
        assert(acc.contents() =~= m);
    }
    if acc.is_large() {
        let mut fresh = InMemoryIndex::new();
        core::mem::swap(acc, &mut fresh);
        Some(fresh)
    } else {
        None
    }
}

} // verus!
