//! An ordered binary tree of terms: values at most the node's element go
//! left, larger ones go right, and the in-order walk lists the elements
//! in ascending order.

use crate::order::{
    lemma_term_lt_connected, lemma_term_lt_irreflexive, lemma_term_lt_transitive, term_less,
    term_lt,
};
use vstd::prelude::*;
use vstd::seq_lib::*;

verus! {

/// A binary search tree over terms.
pub enum BinaryTree {
    Empty,
    NonEmpty(Box<TreeNode>),
}

/// One node: an element and its two subtrees.
pub struct TreeNode {
    pub element: String,
    pub left: BinaryTree,
    pub right: BinaryTree,
}

impl BinaryTree {
    /// The elements in order: left subtree, node, right subtree.
    pub open spec fn as_seq(self) -> Seq<Seq<char>>
        decreases self,
    {
        match self {
            BinaryTree::Empty => Seq::empty(),
            BinaryTree::NonEmpty(node) => node.left.as_seq() + seq![node.element@]
                + node.right.as_seq(),
        }
    }

    /// The in-order walk never descends.
    pub open spec fn sorted(self) -> bool {
        forall|i: int, j: int|
            0 <= i < j < self.as_seq().len() ==> !term_lt(
                #[trigger] self.as_seq()[j],
                #[trigger] self.as_seq()[i],
            )
    }

    pub fn new() -> (r: BinaryTree)
        ensures
            r.as_seq() == Seq::<Seq<char>>::empty(),
    {
        BinaryTree::Empty
    }

    /// Inserts `value`: at most the node's element goes left, anything
    /// larger goes right. The elements afterwards are the elements before
    /// plus `value`, and a sorted tree stays sorted.
    pub fn add(&mut self, value: String)
        ensures
            final(self).as_seq().to_multiset() == old(self).as_seq().to_multiset().insert(
                value@,
            ),
            old(self).sorted() ==> final(self).sorted(),
        decreases *old(self),
    {
        let ghost pre = *self;
        match self {
            BinaryTree::Empty => {
                *self = BinaryTree::NonEmpty(
                    Box::new(
                        TreeNode { element: value, left: BinaryTree::Empty, right: BinaryTree::Empty },
                    ),
                );
                proof {
                    let s = self.as_seq();
                    assert(s =~= seq![value@]);
                    pre.as_seq().to_multiset_ensures();
                    assert(pre.as_seq() =~= Seq::<Seq<char>>::empty());
                    assert(Seq::<Seq<char>>::empty().push(value@) =~= seq![value@]);
                    assert(s.to_multiset() =~= pre.as_seq().to_multiset().insert(value@));
                }
            },
            BinaryTree::NonEmpty(node) => {
                let go_left = !term_less(&node.element, &value);
                let ghost l0 = node.left.as_seq();
                let ghost r0 = node.right.as_seq();
                let ghost e = node.element@;
                if go_left {
                    node.left.add(value);
                } else {
                    node.right.add(value);
                }
                proof {
                    let node_now = self->NonEmpty_0;
                    let l1 = node_now.left.as_seq();
                    let r1 = node_now.right.as_seq();
                    lemma_concat_multiset(l0, seq![e] + r0);
                    lemma_concat_multiset(seq![e], r0);
                    lemma_concat_multiset(l1, seq![e] + r1);
                    lemma_concat_multiset(seq![e], r1);
                    assert((l0 + (seq![e] + r0)) =~= pre.as_seq());
                    assert((l1 + (seq![e] + r1)) =~= self.as_seq());
                    assert(self.as_seq().to_multiset() =~= pre.as_seq().to_multiset().insert(
                        value@,
                    ));
                    if pre.sorted() {
                        lemma_sorted_parts(l0, e, r0);
                        let vv = value@;
                        if go_left {
                            assert(!term_lt(e, vv));
                            assert(forall|x: Seq<char>|
                                l1.contains(x) ==> l0.contains(x) || x == vv) by {
                                lemma_multiset_elements(l0, l1, vv);
                            }
                            lemma_sorted_join(l1, e, r1, vv, l0, r0, true);
                        } else {
                            assert(term_lt(e, vv));
                            assert(forall|x: Seq<char>|
                                r1.contains(x) ==> r0.contains(x) || x == vv) by {
                                lemma_multiset_elements(r0, r1, vv);
                            }
                            lemma_sorted_join(l1, e, r1, vv, l0, r0, false);
                        }
                    }
                }
            },
        }
    }

    /// The elements in ascending order, each cloned out of the tree.
    pub fn iter(&self) -> (r: Vec<String>)
        ensures
            r.deep_view() == self.as_seq(),
        decreases *self,
    {
        match self {
            BinaryTree::Empty => Vec::new(),
            BinaryTree::NonEmpty(node) => {
                let mut out = node.left.iter();
                out.push(node.element.clone());
                let mut rest = node.right.iter();
                out.append(&mut rest);
                proof {
                    assert(out.deep_view() =~= self.as_seq());
                }
                out
            },
        }
    }
}

/// The multiset of a concatenation adds the parts' multisets.
proof fn lemma_concat_multiset(a: Seq<Seq<char>>, b: Seq<Seq<char>>)
    ensures
        (a + b).to_multiset() == a.to_multiset().add(b.to_multiset()),
{
    lemma_multiset_commutative(a, b);
}

/// If `s1`'s multiset is `s0`'s plus `v`, every element of `s1` is one of
/// `s0`'s or is `v`.
proof fn lemma_multiset_elements(s0: Seq<Seq<char>>, s1: Seq<Seq<char>>, v: Seq<char>)
    requires
        s1.to_multiset() == s0.to_multiset().insert(v),
    ensures
        forall|x: Seq<char>| s1.contains(x) ==> s0.contains(x) || x == v,
{
    broadcast use vstd::multiset::group_multiset_axioms;

    s0.to_multiset_ensures();
    s1.to_multiset_ensures();
    assert forall|x: Seq<char>| s1.contains(x) implies s0.contains(x) || x == v by {
        assert(s1.to_multiset().count(x) > 0);
        if x != v {
            assert(s0.to_multiset().count(x) > 0);
        }
    }
}

/// In a sorted in-order walk, everything left of the root is at most the
/// root, which is at most everything right of it, and both sides are
/// themselves sorted.
proof fn lemma_sorted_parts(l: Seq<Seq<char>>, e: Seq<char>, r: Seq<Seq<char>>)
    requires
        forall|i: int, j: int|
            0 <= i < j < (l + seq![e] + r).len() ==> !term_lt(
                #[trigger] (l + seq![e] + r)[j],
                #[trigger] (l + seq![e] + r)[i],
            ),
    ensures
        forall|i: int, j: int| 0 <= i < j < l.len() ==> !term_lt(#[trigger] l[j], #[trigger] l[i]),
        forall|i: int, j: int| 0 <= i < j < r.len() ==> !term_lt(#[trigger] r[j], #[trigger] r[i]),
        forall|i: int| 0 <= i < l.len() ==> !term_lt(e, #[trigger] l[i]),
        forall|i: int| 0 <= i < r.len() ==> !term_lt(#[trigger] r[i], e),
{
    let s = l + seq![e] + r;
    assert(forall|i: int| 0 <= i < l.len() ==> #[trigger] l[i] == s[i]);
    assert(s[l.len() as int] == e);
    assert(forall|i: int| 0 <= i < r.len() ==> #[trigger] r[i] == s[l.len() + 1 + i]);
}

/// Joining a freshly grown side back under the root keeps the walk
/// sorted: the new side is sorted, its elements are the old side's plus
/// the inserted value, and the value sits on the correct side of the
/// root.
#[verifier::rlimit(60)]
proof fn lemma_sorted_join(
    l1: Seq<Seq<char>>,
    e: Seq<char>,
    r1: Seq<Seq<char>>,
    v: Seq<char>,
    l0: Seq<Seq<char>>,
    r0: Seq<Seq<char>>,
    went_left: bool,
)
    requires
        forall|i: int, j: int|
            0 <= i < j < (l0 + seq![e] + r0).len() ==> !term_lt(
                #[trigger] (l0 + seq![e] + r0)[j],
                #[trigger] (l0 + seq![e] + r0)[i],
            ),
        went_left ==> {
            &&& !term_lt(e, v)
            &&& r1 == r0
            &&& forall|i: int, j: int|
                0 <= i < j < l1.len() ==> !term_lt(#[trigger] l1[j], #[trigger] l1[i])
            &&& forall|x: Seq<char>| l1.contains(x) ==> l0.contains(x) || x == v
        },
        !went_left ==> {
            &&& term_lt(e, v)
            &&& l1 == l0
            &&& forall|i: int, j: int|
                0 <= i < j < r1.len() ==> !term_lt(#[trigger] r1[j], #[trigger] r1[i])
            &&& forall|x: Seq<char>| r1.contains(x) ==> r0.contains(x) || x == v
        },
    ensures
        forall|i: int, j: int|
            0 <= i < j < (l1 + seq![e] + r1).len() ==> !term_lt(
                #[trigger] (l1 + seq![e] + r1)[j],
                #[trigger] (l1 + seq![e] + r1)[i],
            ),
{
    lemma_sorted_parts(l0, e, r0);
    let s = l1 + seq![e] + r1;
    assert forall|i: int, j: int| 0 <= i < j < s.len() implies !term_lt(
        #[trigger] s[j],
        #[trigger] s[i],
    ) by {
        assert(forall|k: int| 0 <= k < l1.len() ==> #[trigger] l1[k] == s[k]);
        assert(s[l1.len() as int] == e);
        assert(forall|k: int| 0 <= k < r1.len() ==> #[trigger] r1[k] == s[l1.len() + 1 + k]);
        lemma_term_lt_irreflexive(e);
        if i < l1.len() && j < l1.len() {
        } else if i < l1.len() {
            // s[i] is in the left side: it is at most e
            assert(l1.contains(l1[i]));
            assert(!term_lt(e, l1[i])) by {
                if went_left {
                    if l1[i] != v && l0.contains(l1[i]) {
                        let k = choose|k: int| 0 <= k < l0.len() && l0[k] == l1[i];
                        assert(!term_lt(e, l0[k]));
                    }
                } else {
                    let k = choose|k: int| 0 <= k < l0.len() && l0[k] == l1[i];
                    assert(!term_lt(e, l0[k]));
                }
            }
            if j == l1.len() {
            } else {
                // s[j] is e or right of it: e is at most s[j]
                let jr = j - l1.len() - 1;
                assert(s[j] == r1[jr]);
                assert(r1.contains(r1[jr]));
                assert(!term_lt(r1[jr], e)) by {
                    if went_left {
                        let k = choose|k: int| 0 <= k < r0.len() && r0[k] == r1[jr];
                        assert(!term_lt(r0[k], e));
                    } else {
                        if r1[jr] != v && r0.contains(r1[jr]) {
                            let k = choose|k: int| 0 <= k < r0.len() && r0[k] == r1[jr];
                            assert(!term_lt(r0[k], e));
                        } else if r1[jr] == v {
                            assert(term_lt(e, v));
                            if term_lt(v, e) {
                                lemma_term_lt_transitive(e, v, e);
                            }
                        }
                    }
                }
                if term_lt(s[j], s[i]) {
                    // s[j] < s[i] <= e <= s[j] would cycle
                    lemma_term_lt_connected(s[i], e);
                    if term_lt(s[i], e) {
                        lemma_term_lt_transitive(s[j], s[i], e);
                    }
                }
            }
        } else if i == l1.len() {
            // s[i] is e, s[j] is right of it
            let jr = j - l1.len() - 1;
            assert(s[j] == r1[jr]);
            assert(r1.contains(r1[jr]));
            assert(!term_lt(r1[jr], e)) by {
                if went_left {
                    let k = choose|k: int| 0 <= k < r0.len() && r0[k] == r1[jr];
                    assert(!term_lt(r0[k], e));
                } else {
                    if r1[jr] != v && r0.contains(r1[jr]) {
                        let k = choose|k: int| 0 <= k < r0.len() && r0[k] == r1[jr];
                        assert(!term_lt(r0[k], e));
                    } else if r1[jr] == v {
                        if term_lt(v, e) {
                            lemma_term_lt_transitive(e, v, e);
                        }
                    }
                }
            }
        } else {
            // both on the right
            let ir = i - l1.len() - 1;
            let jr = j - l1.len() - 1;
            assert(s[i] == r1[ir] && s[j] == r1[jr]);
        }
    }
}

} // verus!
