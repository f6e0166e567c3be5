//! A gap buffer: a sequence with a cursor, cheap to edit at the cursor.
//! The elements before the gap and the elements after it are kept in two
//! stacks — the second reversed — so inserting at the gap and moving the
//! gap touch only stack ends, with no raw memory involved.

use vstd::prelude::*;

verus! {

/// A sequence of elements with a movable insertion point.
pub struct GapBuffer<T> {
    front: Vec<T>,
    back: Vec<T>,
}

impl<T> GapBuffer<T> {
    /// The elements, in order: the front stack, then the back stack read
    /// backwards.
    pub closed spec fn contents(self) -> Seq<T> {
        self.front@ + self.back@.reverse()
    }

    /// Where the gap sits: elements before it are in the front stack.
    pub closed spec fn gap_pos(self) -> int {
        self.front@.len() as int
    }

    /// The two stacks together never exceed the machine's length limit.
    pub closed spec fn wf(self) -> bool {
        self.front@.len() + self.back@.len() <= usize::MAX
    }

    pub fn new() -> (r: GapBuffer<T>)
        ensures
            r.wf(),
            r.contents() == Seq::<T>::empty(),
            r.gap_pos() == 0,
    {
        let r = GapBuffer { front: Vec::new(), back: Vec::new() };
        proof {
            assert(r.contents() =~= Seq::<T>::empty());
        }
        r
    }

    pub fn len(&self) -> (r: usize)
        requires
            self.wf(),
        ensures
            r == self.contents().len(),
    {
        self.front.len() + self.back.len()
    }

    pub fn is_empty(&self) -> (r: bool)
        requires
            self.wf(),
        ensures
            r == (self.contents().len() == 0),
    {
        self.len() == 0
    }

    /// The current insertion position.
    pub fn position(&self) -> (r: usize)
        ensures
            r == self.gap_pos(),
    {
        self.front.len()
    }

    /// Moves the gap to `pos` without changing the elements.
    pub fn set_position(&mut self, pos: usize)
        requires
            old(self).wf(),
            pos <= old(self).contents().len(),
        ensures
            final(self).wf(),
            final(self).contents() == old(self).contents(),
            final(self).gap_pos() == pos,
    {
        while self.front.len() > pos
            invariant
                self.wf(),
                pos <= self.contents().len(),
                self.contents() == old(self).contents(),
            decreases self.front@.len(),
        {
            let e = self.front.pop().unwrap();
            let ghost pre_back = self.back@;
            let ghost pre_front = self.front@.push(e);
            self.back.push(e);
            proof {
                assert(self.back@.reverse() =~= seq![e] + pre_back.reverse());
                assert(self.front@ + self.back@.reverse() =~= pre_front + pre_back.reverse());
            }
        }
        while self.front.len() < pos
            invariant
                self.wf(),
                self.front@.len() <= pos,
                pos <= self.contents().len(),
                self.contents() == old(self).contents(),
            decreases pos - self.front@.len(),
        {
            proof {
                assert(self.back@.len() > 0) by {
                    assert(self.contents().len() == self.front@.len() + self.back@.len());
                }
            }
            let e = self.back.pop().unwrap();
            let ghost pre_back = self.back@.push(e);
            let ghost pre_front = self.front@;
            self.front.push(e);
            proof {
                assert(pre_back.reverse() =~= seq![e] + self.back@.reverse());
                assert(self.front@ + self.back@.reverse() =~= pre_front + pre_back.reverse());
            }
        }
    }

    /// Inserts `e` at the gap; the gap moves past it.
    pub fn insert(&mut self, e: T)
        requires
            old(self).wf(),
            old(self).contents().len() < usize::MAX,
        ensures
            final(self).wf(),
            final(self).contents() == old(self).contents().insert(old(self).gap_pos(), e),
            final(self).gap_pos() == old(self).gap_pos() + 1,
    {
        self.front.push(e);
        proof {
            assert(self.contents() =~= old(self).contents().insert(old(self).gap_pos(), e));
        }
    }

    /// Inserts every element of `iterable` at the gap, in order; the gap
    /// moves past them.
    pub fn insert_iter(&mut self, iterable: Vec<T>)
        requires
            old(self).wf(),
            old(self).contents().len() + iterable@.len() <= usize::MAX,
        ensures
            final(self).wf(),
            final(self).contents() == old(self).contents().take(old(self).gap_pos())
                + iterable@ + old(self).contents().skip(old(self).gap_pos()),
            final(self).gap_pos() == old(self).gap_pos() + iterable@.len(),
    {
        let ghost items = iterable@;
        let ghost p0 = old(self).gap_pos();
        let mut rest = iterable;
        let mut k: usize = 0;
        proof {
            assert(rest@ =~= items.skip(0));
            assert(self.contents() =~= old(self).contents().take(p0) + items.take(0)
                + old(self).contents().skip(p0));
        }
        #[verifier::loop_isolation(false)]
        while rest.len() > 0
            invariant
                k + rest@.len() == items.len(),
                rest@ == items.skip(k as int),
                self.wf(),
                self.gap_pos() == p0 + k,
                self.contents() == old(self).contents().take(p0) + items.take(k as int)
                    + old(self).contents().skip(p0),
            decreases rest@.len(),
        {
            let e = rest.remove(0);
            proof {
                assert(e == items[k as int]);
                assert(rest@ =~= items.skip(k + 1));
                assert(self.contents().len() == old(self).contents().len() + k);
            }
            self.insert(e);
            proof {
                assert(self.contents() =~= old(self).contents().take(p0) + items.take(k + 1)
                    + old(self).contents().skip(p0));
            }
            k = k + 1;
        }
        proof {
            assert(items.take(items.len() as int) =~= items);
        }
    }

    /// Removes and returns the element just after the gap, if any.
    pub fn remove(&mut self) -> (r: Option<T>)
        requires
            old(self).wf(),
        ensures
            final(self).wf(),
            old(self).gap_pos() < old(self).contents().len() ==> r is Some && r->Some_0 == old(
                self,
            ).contents()[old(self).gap_pos()] && final(self).contents() == old(
                self,
            ).contents().remove(old(self).gap_pos()) && final(self).gap_pos() == old(
                self,
            ).gap_pos(),
            old(self).gap_pos() == old(self).contents().len() ==> (r is None
                && final(self).contents() == old(self).contents() && final(self).gap_pos() == old(
                self,
            ).gap_pos()),
    {
        let ghost pre_back = self.back@;
        match self.back.pop() {
            None => {
                proof {
                    assert(self.contents() =~= old(self).contents());
                }
                None
            },
            Some(e) => {
                proof {
                    assert(e == pre_back.reverse()[0]);
                    assert(self.back@.reverse() =~= pre_back.reverse().drop_first());
                    assert(self.contents() =~= old(self).contents().remove(old(self).gap_pos()));
                }
                Some(e)
            },
        }
    }

    /// The element at `index`, if it is in range.
    pub fn get(&self, index: usize) -> (r: Option<&T>)
        requires
            self.wf(),
        ensures
            index < self.contents().len() ==> r is Some && *r->Some_0 == self.contents()[
                index as int
            ],
            index >= self.contents().len() ==> r is None,
    {
        if index < self.front.len() {
            Some(&self.front[index])
        } else {
            let off = index - self.front.len();
            if off < self.back.len() {
                let i = self.back.len() - 1 - off;
                proof {
                    assert(self.back@.reverse()[off as int] == self.back@[i as int]);
                }
                Some(&self.back[i])
            } else {
                None
            }
        }
    }
}

} // verus!
