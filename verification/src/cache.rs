//! The cache engine: a dense arena of entries with a doubly linked list
//! threaded through it by arena index.

use vstd::prelude::*;

use crate::model::inserted;
use crate::model::promoted;

verus! {

/// One arena slot: a stored value together with the arena indices of its
/// list neighbors.  The links are meaningless at the list boundaries and
/// for slots that are not in the list.
#[derive(Clone, Copy, Debug)]
pub struct Entry<T> {
    val: T,
    prev: usize,
    next: usize,
}

/// A fixed-capacity least-recently-used cache.
///
/// Up to `CAP` values live in a dense arena; a doubly linked list threaded
/// through the arena by index orders them from most recently used (`head`)
/// to least recently used (`tail`).  Inserting at full capacity overwrites
/// the tail slot in place.
///
/// The abstract state, [`View`], is the sequence of stored values ordered
/// from most recently used to least recently used.
#[derive(Clone)]
pub struct LRUCache<T, const CAP: usize> {
    entries: Vec<Entry<T>>,
    head: usize,
    tail: usize,
    length: usize,
    /// The arena indices of the live entries, most recently used first.
    recency: Ghost<Seq<int>>,
}

impl<T, const CAP: usize> View for LRUCache<T, CAP> {
    type V = Seq<T>;

    /// The stored values, most recently used first.
    closed spec fn view(&self) -> Seq<T> {
        Seq::new(self.recency@.len(), |i: int| self.entries@[self.recency@[i]].val)
    }
}

impl<T, const CAP: usize> LRUCache<T, CAP> {
    /// The doubly linked list threaded through `entries` visits exactly the
    /// indices of `ord`, in order.  The `prev` link of the first node and
    /// the `next` link of the last node are never read, so nothing is said
    /// about them.
    spec fn linked(entries: Seq<Entry<T>>, ord: Seq<int>, head: usize, tail: usize) -> bool {
        &&& forall|i: int| 0 <= i < ord.len() ==> 0 <= #[trigger] ord[i] < entries.len()
        &&& ord.no_duplicates()
        &&& ord.len() > 0 ==> head as int == ord[0] && tail as int == ord.last()
        &&& forall|i: int|
            0 <= i < ord.len() - 1 ==> entries[#[trigger] ord[i]].next as int == ord[i + 1]
        &&& forall|i: int|
            1 <= i < ord.len() ==> entries[#[trigger] ord[i]].prev as int == ord[i - 1]
    }

    /// Internal well-formedness: the arena slots fill contiguously, the
    /// live count never exceeds the capacity, and the linked list visits
    /// every live slot exactly once.
    pub closed spec fn wf(&self) -> bool {
        &&& self.entries@.len() == self.length
        &&& self.length <= CAP
        &&& self.recency@.len() == self.length
        &&& Self::linked(self.entries@, self.recency@, self.head, self.tail)
    }

    /// Inserting below capacity appends the value to a fresh slot (`c0` to
    /// `c1`) and splices that slot in at the head (`c1` to `c2`); the
    /// abstract effect is [`inserted`].
    proof fn lemma_view_insert_spare(c0: Self, c1: Self, c2: Self, nh: int, val: T)
        requires
            c0.wf(),
            c0.entries@.len() < CAP,
            nh == c0.entries@.len(),
            c1.entries@ == c0.entries@.push((Entry { val, prev: 0, next: 0 })),
            c1.recency@ == c0.recency@,
            c2.recency@ == seq![nh] + c1.recency@,
            c2.entries@.len() == c1.entries@.len(),
            forall|i: int|
                0 <= i < c2.entries@.len() ==> c2.entries@[i].val == c1.entries@[i].val,
        ensures
            c2@ == inserted(c0@, CAP as nat, val),
    {
        let v0 = c0@;
        let vi = inserted(v0, CAP as nat, val);
        assert forall|i: int| 0 <= i < c2@.len() implies c2@[i] == vi[i] by {
            if i == 0 {
                assert(c2@[0] == c2.entries@[nh].val);
            } else {
                let p = c0.recency@[i - 1];
                assert(0 <= p < c0.entries@.len());
                assert(c2@[i] == c2.entries@[p].val);
                assert(c1.entries@[p].val == c0.entries@[p].val);
                assert(v0[i - 1] == c0.entries@[p].val);
                assert(vi[i] == v0[i - 1]);
            }
        }
        assert(c2@ =~= vi);
    }

    /// Inserting at full capacity overwrites the slot of the evicted tail
    /// (`c0` to `c1`, with the order already shortened) and splices that
    /// slot in at the head (`c1` to `c2`); the abstract effect is
    /// [`inserted`].
    proof fn lemma_view_insert_full(c0: Self, c1: Self, c2: Self, nh: int, val: T)
        requires
            c0.wf(),
            CAP > 0,
            c0.entries@.len() == CAP,
            nh == c0.recency@.last(),
            c1.entries@ == c0.entries@.update(nh, (Entry { val, prev: 0, next: 0 })),
            c1.recency@ == c0.recency@.drop_last(),
            c2.recency@ == seq![nh] + c1.recency@,
            c2.entries@.len() == c1.entries@.len(),
            forall|i: int|
                0 <= i < c2.entries@.len() ==> c2.entries@[i].val == c1.entries@[i].val,
        ensures
            c2@ == inserted(c0@, CAP as nat, val),
    {
        let v0 = c0@;
        let vi = inserted(v0, CAP as nat, val);
        let n = c0.recency@.len() as int;
        assert(0 <= nh < c0.entries@.len());
        assert forall|i: int| 0 <= i < c2@.len() implies c2@[i] == vi[i] by {
            if i == 0 {
                assert(c2@[0] == c2.entries@[nh].val);
                assert(c1.entries@[nh].val == val);
            } else {
                let p = c0.recency@[i - 1];
                assert(0 <= p < c0.entries@.len());
                assert(c2@[i] == c2.entries@[p].val);
                assert(p != nh) by {
                    assert(c0.recency@[i - 1] != c0.recency@[n - 1]);
                }
                assert(c1.entries@[p].val == c0.entries@[p].val);
                assert(v0[i - 1] == c0.entries@[p].val);
                assert(vi[i] == v0.drop_last()[i - 1]);
                assert(v0.drop_last()[i - 1] == v0[i - 1]);
            }
        }
        assert(c2@ =~= vi);
    }
}

impl<T, const CAP: usize> Default for LRUCache<T, CAP> {
    /// An empty cache with all of its arena space reserved up front.
    /// The capacity is a compile-time constant of the type, so every
    /// arena index fits the index space by construction and nothing needs
    /// to be rejected at run time.
    fn default() -> (c: Self)
        ensures
            c.wf(),
            c@ == Seq::<T>::empty(),
    {
        let c = LRUCache {
            entries: Vec::with_capacity(CAP),
            head: 0,
            tail: 0,
            length: 0,
            recency: Ghost(Seq::empty()),
        };
        proof {
            assert(c@ =~= Seq::<T>::empty());
        }
        c
    }
}

impl<T: Copy, const CAP: usize> LRUCache<T, CAP> {
    /// The number of live entries, between 0 and `CAP`.
    pub fn len(&self) -> (r: usize)
        requires
            self.wf(),
        ensures
            r == self@.len(),
    {
        self.length
    }

    /// Whether the cache holds no entry.
    pub fn is_empty(&self) -> (r: bool)
        requires
            self.wf(),
        ensures
            r == (self@.len() == 0),
    {
        self.length == 0
    }

    /// Resets the cache to the empty state, whatever state it was in.
    /// Calling it again on an already empty cache leaves it empty.
    pub fn clear(&mut self)
        ensures
            final(self).wf(),
            final(self)@ == Seq::<T>::empty(),
    {
        self.entries.clear();
        self.head = 0;
        self.tail = 0;
        self.length = 0;
        proof {
            self.recency@ = Seq::empty();
            assert(self@ =~= Seq::<T>::empty());
        }
    }

    /// Splices the detached slot `index` in as the new head.  The slot must
    /// already hold its value but stand outside the list; the list itself
    /// must be intact.  When the arena holds a single slot the spliced slot
    /// is the whole list and becomes the tail as well.
    fn push_front(&mut self, index: usize)
        requires
            index < old(self).entries@.len(),
            !old(self).recency@.contains(index as int),
            Self::linked(old(self).entries@, old(self).recency@, old(self).head, old(self).tail),
            old(self).entries@.len() > 1 ==> old(self).recency@.len() > 0,
        ensures
            final(self).recency@ == seq![index as int] + old(self).recency@,
            Self::linked(
                final(self).entries@,
                final(self).recency@,
                final(self).head,
                final(self).tail,
            ),
            final(self).entries@.len() == old(self).entries@.len(),
            final(self).head == index,
            final(self).length == old(self).length,
            forall|i: int|
                0 <= i < final(self).entries@.len()
                    ==> final(self).entries@[i].val == old(self).entries@[i].val,
    {
        if self.entries.len() == 1 {
            proof {
                // The only slot is `index`, which is not in the list, so the
                // list is empty.
                if self.recency@.len() > 0 {
                    assert(self.recency@[0] == index as int);
                    assert(self.recency@.contains(index as int));
                }
            }
            self.tail = index;
        } else {
            let h = self.head;
            let mut e = self.entries[index];
            e.next = h;
            self.entries[index] = e;
            let mut eh = self.entries[h];
            eh.prev = index;
            self.entries[h] = eh;
        }
        self.head = index;
        proof {
            self.recency@ = seq![index as int] + self.recency@;
        }
    }

    /// Unlinks the tail slot from the list and returns its arena index.
    /// The slot keeps its value; only the list no longer visits it.
    fn pop_back(&mut self) -> (r: usize)
        requires
            old(self).wf(),
            old(self).recency@.len() > 0,
        ensures
            r as int == old(self).recency@.last(),
            r < old(self).entries@.len(),
            final(self).entries@ == old(self).entries@,
            final(self).head == old(self).head,
            final(self).length == old(self).length,
            final(self).recency@ == old(self).recency@.drop_last(),
            Self::linked(
                final(self).entries@,
                final(self).recency@,
                final(self).head,
                final(self).tail,
            ),
    {
        let old_tail = self.tail;
        let new_tail = self.entries[old_tail].prev;
        self.tail = new_tail;
        proof {
            self.recency@ = self.recency@.drop_last();
        }
        old_tail
    }

    /// Unlinks the slot at position `k` of the recency order from the list
    /// by relinking its neighbors directly, patching `head` or `tail` when
    /// the slot is a boundary.  The slot keeps its value.
    #[verifier::rlimit(50)]
    fn remove(&mut self, index: usize, Ghost(k): Ghost<int>)
        requires
            old(self).wf(),
            0 <= k < old(self).recency@.len(),
            old(self).recency@[k] == index as int,
        ensures
            final(self).entries@.len() == old(self).entries@.len(),
            forall|i: int|
                0 <= i < final(self).entries@.len()
                    ==> final(self).entries@[i].val == old(self).entries@[i].val,
            final(self).length + 1 == old(self).length,
            final(self).recency@.len() + 1 == old(self).recency@.len(),
            forall|i: int| 0 <= i < k ==> final(self).recency@[i] == old(self).recency@[i],
            forall|i: int|
                k <= i < final(self).recency@.len()
                    ==> final(self).recency@[i] == old(self).recency@[i + 1],
            Self::linked(
                final(self).entries@,
                final(self).recency@,
                final(self).head,
                final(self).tail,
            ),
    {
        let ghost ord = old(self).recency@;
        let ghost n = ord.len() as int;
        let ghost ord2 = Seq::new((n - 1) as nat, |i: int| if i < k { ord[i] } else { ord[i + 1] });

        let e = self.entries[index];
        let prev = e.prev;
        let next = e.next;

        if index == self.head {
            proof {
                if k != 0 {
                    assert(ord[0] != ord[k]);
                }
            }
            self.head = next;
        } else {
            proof {
                assert(ord[0] == old(self).head as int);
                assert(k != 0);
                assert(prev as int == ord[k - 1]);
            }
            let mut ep = self.entries[prev];
            ep.next = next;
            self.entries[prev] = ep;
        }

        if index == self.tail {
            proof {
                if k != n - 1 {
                    assert(ord[n - 1] != ord[k]);
                }
            }
            self.tail = prev;
        } else {
            proof {
                assert(ord[n - 1] == old(self).tail as int);
                assert(k != n - 1);
                assert(next as int == ord[k + 1]);
                if k != 0 {
                    // The two patched slots are different arena positions.
                    assert(ord[k - 1] != ord[k + 1]);
                }
            }
            let mut en = self.entries[next];
            en.prev = prev;
            self.entries[next] = en;
        }

        self.length = self.length - 1;

        proof {
            self.recency@ = ord2;

            let es = self.entries@;
            let eso = old(self).entries@;

            // The only slots whose links were patched are the neighbors of
            // the removed slot; every other slot is untouched, and no patch
            // changes a stored value.
            assert forall|q: int|
                0 <= q < n && (k == 0 || q != ord[k - 1]) && (k == n - 1 || q != ord[k + 1])
                    implies es[q] == eso[q] by {}

            assert forall|i: int| 0 <= i < ord2.len() implies 0 <= #[trigger] ord2[i]
                < es.len() by {
                if i < k {
                    assert(ord2[i] == ord[i]);
                } else {
                    assert(ord2[i] == ord[i + 1]);
                }
            }

            assert(ord2.no_duplicates()) by {
                assert forall|i: int, j: int|
                    0 <= i < ord2.len() && 0 <= j < ord2.len() && i != j implies ord2[i]
                        != ord2[j] by {
                    let a = if i < k { i } else { i + 1 };
                    let b = if j < k { j } else { j + 1 };
                    assert(ord[a] != ord[b]);
                }
            }

            if ord2.len() > 0 {
                assert(self.head as int == ord2[0]) by {
                    if k == 0 {
                        assert(next as int == ord[1]);
                    }
                }
                assert(self.tail as int == ord2.last()) by {
                    if k == n - 1 {
                        assert(prev as int == ord[k - 1]);
                    }
                }
            }

            assert forall|i: int|
                0 <= i < ord2.len() - 1 implies es[#[trigger] ord2[i]].next as int == ord2[i
                + 1] by {
                if i + 1 < k {
                    // Both positions sit before the removed one, and neither
                    // neighbor of the removed slot is the slot at `i`.
                    assert(ord2[i] == ord[i] && ord2[i + 1] == ord[i + 1]);
                    assert(k == 0 || ord[i] != ord[k - 1]);
                    assert(k == n - 1 || ord[i] != ord[k + 1]);
                } else if i == k - 1 {
                    // The slot before the removed one was relinked to the
                    // slot after it.
                    assert(ord2[i] == ord[k - 1] && ord2[i + 1] == ord[k + 1]);
                    assert(next as int == ord[k + 1]);
                    assert(ord[k - 1] != ord[k + 1]);
                } else {
                    // Both positions sit after the removed one; only the
                    // `prev` link of the first of them may have been patched,
                    // and a `prev` patch leaves the `next` link alone.
                    assert(ord2[i] == ord[i + 1] && ord2[i + 1] == ord[i + 2]);
                    assert(k == 0 || ord[i + 1] != ord[k - 1]);
                    if i == k {
                        assert(es[ord[k + 1]].next == eso[ord[k + 1]].next);
                    } else {
                        assert(k == n - 1 || ord[i + 1] != ord[k + 1]);
                    }
                }
            }

            assert forall|i: int|
                1 <= i < ord2.len() implies es[#[trigger] ord2[i]].prev as int == ord2[i
                - 1] by {
                if i < k {
                    // A position before the removed one; at most its `next`
                    // link was patched, never its `prev` link.
                    assert(ord2[i] == ord[i] && ord2[i - 1] == ord[i - 1]);
                    assert(k == n - 1 || ord[i] != ord[k + 1]);
                    if i == k - 1 {
                        assert(es[ord[k - 1]].prev == eso[ord[k - 1]].prev);
                    }
                } else if i == k {
                    // The slot after the removed one was relinked back to the
                    // slot before it.
                    assert(ord2[i] == ord[k + 1] && ord2[i - 1] == ord[k - 1]);
                    assert(prev as int == ord[k - 1]);
                } else {
                    assert(ord2[i] == ord[i + 1] && ord2[i - 1] == ord[i]);
                    assert(k == 0 || ord[i + 1] != ord[k - 1]);
                    assert(k == n - 1 || ord[i + 1] != ord[k + 1]);
                }
            }
        }
    }

    /// Promotes the slot at position `k` of the recency order to the head
    /// without altering any value: the net effect on the abstract state is
    /// [`promoted`].  A slot that already is the head is left alone.
    fn touch_index(&mut self, index: usize, Ghost(k): Ghost<int>)
        requires
            old(self).wf(),
            0 <= k < old(self).recency@.len(),
            old(self).recency@[k] == index as int,
        ensures
            final(self).wf(),
            final(self).length == old(self).length,
            final(self)@ == promoted(old(self)@, k),
            final(self)@.len() == old(self)@.len(),
    {
        let ghost ord = old(self).recency@;
        let ghost v0 = old(self)@;
        if index != self.head {
            proof {
                assert(ord[0] == old(self).head as int);
                assert(k != 0);
            }
            self.remove(index, Ghost(k));
            self.length = self.length + 1;
            proof {
                // Removing position `k` removed the only occurrence of
                // `index`, so the shortened order does not contain it.
                assert forall|j: int|
                    0 <= j < self.recency@.len() implies #[trigger] self.recency@[j]
                        != index as int by {
                    if j < k {
                        assert(self.recency@[j] == ord[j]);
                        assert(ord[j] != ord[k]);
                    } else {
                        assert(self.recency@[j] == ord[j + 1]);
                        assert(ord[j + 1] != ord[k]);
                    }
                }
                assert(!self.recency@.contains(index as int));
                assert(self.entries@.len() > 1 ==> self.recency@.len() > 0);
            }
            self.push_front(index);
            proof {
                v0.remove_ensures(k);
                assert forall|i: int| 0 <= i < self@.len() implies self@[i] == promoted(
                    v0,
                    k,
                )[i] by {
                    if i == 0 {
                        assert(self.recency@[0] == index as int);
                        assert(v0[k] == old(self).entries@[ord[k]].val);
                    } else if i <= k {
                        assert(self.recency@[i] == ord[i - 1]);
                        assert(promoted(v0, k)[i] == v0.remove(k)[i - 1]);
                        assert(v0.remove(k)[i - 1] == v0[i - 1]);
                        assert(v0[i - 1] == old(self).entries@[ord[i - 1]].val);
                    } else {
                        assert(self.recency@[i] == ord[i]);
                        assert(promoted(v0, k)[i] == v0.remove(k)[i - 1]);
                        assert(v0.remove(k)[i - 1] == v0[i]);
                        assert(v0[i] == old(self).entries@[ord[i]].val);
                    }
                }
                assert(self@ =~= promoted(v0, k));
            }
        } else {
            proof {
                assert(k == 0) by {
                    if k != 0 {
                        assert(ord[0] != ord[k]);
                    }
                }
                v0.remove_ensures(k);
                assert forall|i: int| 0 <= i < self@.len() implies self@[i] == promoted(
                    v0,
                    k,
                )[i] by {
                    if i > 0 {
                        assert(promoted(v0, k)[i] == v0.remove(0)[i - 1]);
                        assert(v0.remove(0)[i - 1] == v0[i]);
                    }
                }
                assert(self@ =~= promoted(v0, k));
            }
        }
    }

    /// Inserts `val` as the new most-recently-used entry.
    ///
    /// Below capacity the value is appended to a fresh arena slot; at full
    /// capacity the least-recently-used entry is unconditionally evicted
    /// and its slot is overwritten in place.  Either way the new value
    /// becomes the front, so afterwards `front()` returns it.
    ///
    /// A zero-capacity cache has no slot to write to, so `CAP > 0` is a
    /// precondition: a call on a zero-capacity cache is a contract
    /// violation and aborts rather than silently doing nothing.
    /// Evicts the current tail: unlinks it and overwrites its slot in
    /// place with `val`, returning the reused arena index.  The slot is
    /// afterwards outside the list, ready to be spliced back in at the
    /// head.
    fn evict_and_fill(&mut self, val: T) -> (r: usize)
        requires
            old(self).wf(),
            old(self).length == CAP,
            CAP > 0,
        ensures
            r as int == old(self).recency@.last(),
            r < CAP,
            final(self).entries@ == old(self).entries@.update(
                r as int,
                (Entry { val, prev: 0, next: 0 }),
            ),
            final(self).recency@ == old(self).recency@.drop_last(),
            final(self).head == old(self).head,
            final(self).length == old(self).length,
            !final(self).recency@.contains(r as int),
            Self::linked(
                final(self).entries@,
                final(self).recency@,
                final(self).head,
                final(self).tail,
            ),
    {
        let ghost ord = old(self).recency@;
        let ghost n = ord.len() as int;
        let last_index = self.pop_back();
        proof {
            // The reused slot is no longer in the shortened order, so
            // overwriting it leaves every listed slot untouched.
            assert forall|j: int|
                0 <= j < self.recency@.len() implies #[trigger] self.recency@[j]
                    != last_index as int by {
                assert(self.recency@[j] == ord[j]);
                assert(ord[j] != ord[n - 1]);
            }
            assert(!self.recency@.contains(last_index as int));
        }
        let entry = Entry { val, prev: 0, next: 0 };
        self.entries[last_index] = entry;
        last_index
    }

    /// Appends `val` to a fresh arena slot, returning the new index.  The
    /// slot is outside the list until it is spliced in at the head.
    fn append_slot(&mut self, val: T) -> (r: usize)
        requires
            old(self).wf(),
            old(self).length < CAP,
        ensures
            r as int == old(self).entries@.len(),
            r < final(self).entries@.len(),
            final(self).entries@ == old(self).entries@.push((Entry { val, prev: 0, next: 0 })),
            final(self).recency@ == old(self).recency@,
            final(self).length == old(self).length + 1,
            final(self).head == old(self).head,
            final(self).tail == old(self).tail,
            !final(self).recency@.contains(r as int),
            Self::linked(
                final(self).entries@,
                final(self).recency@,
                final(self).head,
                final(self).tail,
            ),
    {
        proof {
            // Every listed slot lies below the fresh one.
            assert forall|j: int|
                0 <= j < self.recency@.len() implies #[trigger] self.recency@[j]
                    != old(self).entries@.len() as int by {
                assert(0 <= self.recency@[j] < old(self).entries@.len());
            }
            assert(!self.recency@.contains(old(self).entries@.len() as int));
        }
        let entry = Entry { val, prev: 0, next: 0 };
        let r = self.entries.len();
        self.entries.push(entry);
        self.length = self.length + 1;
        r
    }

    /// Inserts `val` as the new most-recently-used entry.
    ///
    /// Below capacity the value is appended to a fresh arena slot; at full
    /// capacity the least-recently-used entry is unconditionally evicted
    /// and its slot is overwritten in place.  Either way the new value
    /// becomes the front, so afterwards `front()` returns it.
    ///
    /// A zero-capacity cache has no slot to write to, so `CAP > 0` is a
    /// precondition: a call on a zero-capacity cache is a contract
    /// violation and aborts rather than silently doing nothing.
    pub fn insert(&mut self, val: T)
        requires
            old(self).wf(),
            CAP > 0,
        ensures
            final(self).wf(),
            final(self)@ == inserted(old(self)@, CAP as nat, val),
            final(self)@[0] == val,
            old(self)@.len() < CAP ==> final(self)@.len() == old(self)@.len() + 1,
            old(self)@.len() == CAP ==> final(self)@.len() == CAP,
    {
        let new_head: usize;
        if self.length == CAP {
            new_head = self.evict_and_fill(val);
        } else {
            new_head = self.append_slot(val);
        }

        let ghost c1 = *self;
        self.push_front(new_head);

        proof {
            if old(self)@.len() == CAP {
                Self::lemma_view_insert_full(*old(self), c1, *self, new_head as int, val);
            } else {
                Self::lemma_view_insert_spare(*old(self), c1, *self, new_head as int, val);
            }
        }
    }

    /// The stored values, duplicated into a vector ordered from most
    /// recently used to least recently used; the cache is not reordered.
    pub fn items(&self) -> (r: Vec<T>)
        requires
            self.wf(),
        ensures
            r@ == self@,
    {
        let mut r: Vec<T> = Vec::new();
        let mut pos = self.head;
        let mut i: usize = 0;
        while i < self.length
            invariant
                self.wf(),
                i <= self.length,
                r@.len() == i,
                forall|j: int| 0 <= j < i ==> r@[j] == self@[j],
                i < self.length ==> pos as int == self.recency@[i as int],
            decreases self.length - i,
        {
            let e = self.entries[pos];
            r.push(e.val);
            pos = e.next;
            i = i + 1;
        }
        proof {
            assert(r@ =~= self@);
        }
        r
    }

    /// The most-recently-used value, or `None` when the cache is empty.
    pub fn front(&self) -> (r: Option<&T>)
        requires
            self.wf(),
        ensures
            match r {
                Some(v) => self@.len() > 0 && *v == self@[0],
                None => self@.len() == 0,
            },
    {
        if self.length == 0 {
            None
        } else {
            Some(&self.entries[self.head].val)
        }
    }

    /// A mutable handle to the most-recently-used value, or `None` when
    /// the cache is empty.  The order is not reordered, whatever the
    /// caller writes through the handle: only the front value changes.
    pub fn front_mut(&mut self) -> (r: Option<&mut T>)
        requires
            old(self).wf(),
        ensures
            old(self)@.len() == 0 ==> r.is_none() && *final(self) == *old(self),
            old(self)@.len() > 0 ==> r.is_some() && *r.unwrap() == old(self)@[0]
                && final(self).wf() && final(self)@ == old(self)@.update(
                0,
                *final(r.unwrap()),
            ),
    {
        if self.length == 0 {
            None
        } else {
            let h = self.head;
            proof {
                assert(h as int == self.recency@[0]);
                assert(0 <= self.recency@[0] < self.entries@.len());
            }
            Some(&mut self.entries[h].val)
        }
    }

    /// Scans from most recent to least recent for the first value that
    /// satisfies `pred` and, when there is one, promotes it to the front
    /// without altering it; the relative order of all other entries is
    /// preserved.  Without a match nothing at all is changed.
    pub fn touch<F: Fn(&T) -> bool>(&mut self, pred: F) -> (r: bool)
        requires
            old(self).wf(),
            forall|v: T| #[trigger] pred.requires((&v,)),
        ensures
            final(self).wf(),
            final(self)@.len() == old(self)@.len(),
            r ==> exists|k: int|
                {
                    &&& 0 <= k < old(self)@.len()
                    &&& pred.ensures((&old(self)@[k],), true)
                    &&& forall|j: int| 0 <= j < k ==> pred.ensures((&old(self)@[j],), false)
                    &&& final(self)@ == #[trigger] promoted(old(self)@, k)
                },
            !r ==> *final(self) == *old(self) && (forall|j: int|
                0 <= j < old(self)@.len() ==> pred.ensures((&old(self)@[j],), false)),
    {
        let mut i: usize = 0;
        let mut pos = self.head;
        while i < self.length
            invariant
                self.wf(),
                *self == *old(self),
                i <= self.length,
                forall|v: T| #[trigger] pred.requires((&v,)),
                forall|j: int| 0 <= j < i ==> pred.ensures((&self@[j],), false),
                i < self.length ==> pos as int == self.recency@[i as int],
            decreases self.length - i,
        {
            proof {
                assert(0 <= self.recency@[i as int] < self.entries@.len());
            }
            let e = self.entries[pos];
            if pred(&e.val) {
                proof {
                    assert(e.val == self@[i as int]);
                }
                self.touch_index(pos, Ghost(i as int));
                return true;
            }
            proof {
                assert(e.val == self@[i as int]);
            }
            pos = e.next;
            i = i + 1;
        }
        false
    }

    /// Scans from most recent to least recent, applying `pred` to each
    /// value until it yields a derived result.  The matching entry is
    /// promoted to the front exactly as in [`Self::touch`] and the derived
    /// result is returned; without a match nothing is changed and `None`
    /// is returned.
    pub fn lookup<F, R>(&mut self, pred: F) -> (r: Option<R>) where F: Fn(&T) -> Option<R>
        requires
            old(self).wf(),
            forall|v: T| #[trigger] pred.requires((&v,)),
        ensures
            final(self).wf(),
            final(self)@.len() == old(self)@.len(),
            r matches Some(res) ==> exists|k: int|
                {
                    &&& 0 <= k < old(self)@.len()
                    &&& pred.ensures((&old(self)@[k],), Some(res))
                    &&& forall|j: int|
                        0 <= j < k ==> pred.ensures((&old(self)@[j],), None::<R>)
                    &&& final(self)@ == #[trigger] promoted(old(self)@, k)
                },
            r is None ==> *final(self) == *old(self) && (forall|j: int|
                0 <= j < old(self)@.len() ==> pred.ensures((&old(self)@[j],), None::<R>)),
    {
        let mut i: usize = 0;
        let mut pos = self.head;
        while i < self.length
            invariant
                self.wf(),
                *self == *old(self),
                i <= self.length,
                forall|v: T| #[trigger] pred.requires((&v,)),
                forall|j: int| 0 <= j < i ==> pred.ensures((&self@[j],), None::<R>),
                i < self.length ==> pos as int == self.recency@[i as int],
            decreases self.length - i,
        {
            proof {
                assert(0 <= self.recency@[i as int] < self.entries@.len());
            }
            let e = self.entries[pos];
            let found = pred(&e.val);
            proof {
                assert(e.val == self@[i as int]);
            }
            match found {
                Some(res) => {
                    self.touch_index(pos, Ghost(i as int));
                    return Some(res);
                },
                None => {},
            }
            pos = e.next;
            i = i + 1;
        }
        None
    }

    /// Scans for the first value that satisfies `pred`, promotes it to the
    /// front exactly as in [`Self::touch`], and returns a mutable handle
    /// to it — what `touch` followed by `front_mut` would yield.  Without
    /// a match nothing is changed and `None` is returned.
    pub fn fetch<F: Fn(&T) -> bool>(&mut self, pred: F) -> (r: Option<&mut T>)
        requires
            old(self).wf(),
            forall|v: T| #[trigger] pred.requires((&v,)),
        ensures
            r.is_none() ==> *final(self) == *old(self) && (forall|j: int|
                0 <= j < old(self)@.len() ==> pred.ensures((&old(self)@[j],), false)),
            r.is_some() ==> final(self)@.len() == old(self)@.len(),
            r.is_some() ==> final(self).wf() && exists|k: int|
                {
                    &&& 0 <= k < old(self)@.len()
                    &&& #[trigger] pred.ensures((&old(self)@[k],), true)
                    &&& forall|j: int| 0 <= j < k ==> pred.ensures((&old(self)@[j],), false)
                    &&& *r.unwrap() == old(self)@[k]
                    &&& final(self)@ == promoted(old(self)@, k).update(0, *final(r.unwrap()))
                },
    {
        if self.touch(pred) {
            let ghost s1 = *self;
            proof {
                let k = choose|k: int|
                    {
                        &&& 0 <= k < old(self)@.len()
                        &&& pred.ensures((&old(self)@[k],), true)
                        &&& forall|j: int| 0 <= j < k ==> pred.ensures((&old(self)@[j],), false)
                        &&& s1@ == #[trigger] promoted(old(self)@, k)
                    };
                assert(0 <= k < old(self)@.len());
                assert(pred.ensures((&old(self)@[k],), true));
                assert(s1@ == promoted(old(self)@, k));
                assert(promoted(old(self)@, k)[0] == old(self)@[k]);
                assert(s1@.len() > 0);
                assert(s1@.len() == old(self)@.len());
            }
            self.front_mut()
        } else {
            None
        }
    }
}

} // verus!