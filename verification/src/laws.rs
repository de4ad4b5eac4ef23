//! Laws of the cache model that span whole runs of insertions, proved
//! once and for all over the spec functions that the operations'
//! contracts are stated with.

use vstd::prelude::*;

use crate::model::inserted;
use crate::model::inserted_all;

verus! {

/// Folding one more insertion onto the end of a run is the same as
/// inserting its value into the result of the run.
pub proof fn lemma_inserted_all_push<T>(s: Seq<T>, cap: nat, vs: Seq<T>, v: T)
    ensures
        inserted_all(s, cap, vs.push(v)) == inserted(inserted_all(s, cap, vs), cap, v),
    decreases vs.len(),
{
    if vs.len() == 0 {
        let w = inserted(s, cap, v);
        assert(vs.push(v)[0] == v);
        assert(vs.push(v).skip(1) =~= Seq::<T>::empty());
        assert(inserted_all(s, cap, vs.push(v)) == inserted_all(w, cap, Seq::<T>::empty()));
        assert(inserted_all(w, cap, Seq::<T>::empty()) == w);
        assert(inserted_all(s, cap, vs) == s);
    } else {
        assert(vs.push(v)[0] == vs[0]);
        assert(vs.push(v).skip(1) =~= vs.skip(1).push(v));
        assert(inserted_all(s, cap, vs.push(v)) == inserted_all(
            inserted(s, cap, vs[0]),
            cap,
            vs.skip(1).push(v),
        ));
        lemma_inserted_all_push(inserted(s, cap, vs[0]), cap, vs.skip(1), v);
        assert(inserted_all(s, cap, vs) == inserted_all(inserted(s, cap, vs[0]), cap, vs.skip(1)));
    }
}

/// Law: any run of insertions into an initially empty cache of positive
/// capacity `cap` leaves exactly the smaller of the run length and the
/// capacity in the cache, and the value at position `i` of the resulting
/// recency sequence is the `i`-th newest insertion.  In particular,
/// inserting `cap + 1` values leaves every value but the first, most
/// recent first: the very first insertion is the one evicted.
///
/// Inserting into a zero-capacity cache violates the insert operation's
/// own precondition, so nothing is claimed for `cap == 0`.
pub proof fn lemma_repeated_insert<T>(cap: nat, vs: Seq<T>)
    requires
        cap > 0,
    ensures
        inserted_all(Seq::<T>::empty(), cap, vs).len() == vstd::math::min(
            vs.len() as int,
            cap as int,
        ),
        forall|i: int|
            0 <= i < inserted_all(Seq::<T>::empty(), cap, vs).len()
                ==> inserted_all(Seq::<T>::empty(), cap, vs)[i] == vs[vs.len() - 1 - i],
    decreases vs.len(),
{
    let r = inserted_all(Seq::<T>::empty(), cap, vs);
    if vs.len() == 0 {
        assert(r == Seq::<T>::empty());
    } else {
        let vs0 = vs.drop_last();
        let v = vs.last();
        assert(vs =~= vs0.push(v));
        lemma_repeated_insert(cap, vs0);
        lemma_inserted_all_push(Seq::<T>::empty(), cap, vs0, v);
        let r0 = inserted_all(Seq::<T>::empty(), cap, vs0);
        assert(r == inserted(r0, cap, v));
        assert forall|i: int| 0 <= i < r.len() implies r[i] == vs[vs.len() - 1 - i] by {
            if i == 0 {
                assert(r[0] == v);
            } else if r0.len() < cap {
                assert(r[i] == r0[i - 1]);
                assert(r0[i - 1] == vs0[vs0.len() - 1 - (i - 1)]);
            } else {
                assert(r[i] == r0.drop_last()[i - 1]);
                assert(r0.drop_last()[i - 1] == r0[i - 1]);
                assert(r0[i - 1] == vs0[vs0.len() - 1 - (i - 1)]);
            }
        }
    }
}

/// Law: inserting `cap + 1` values in order into an initially empty
/// cache of capacity `cap` leaves every value but the first, most recent
/// first — the very first insertion, the least recently used, is the one
/// evicted.
pub proof fn lemma_overfill_evicts_oldest<T>(cap: nat, vs: Seq<T>)
    requires
        cap > 0,
        vs.len() == cap + 1,
    ensures
        inserted_all(Seq::<T>::empty(), cap, vs) == vs.skip(1).reverse(),
{
    lemma_repeated_insert(cap, vs);
    let r = inserted_all(Seq::<T>::empty(), cap, vs);
    assert forall|i: int| 0 <= i < r.len() implies r[i] == vs.skip(1).reverse()[i] by {
        assert(r[i] == vs[vs.len() - 1 - i]);
        assert(vs.skip(1).reverse()[i] == vs.skip(1)[cap - 1 - i]);
        assert(vs.skip(1)[cap - 1 - i] == vs[cap - i]);
    }
    assert(r =~= vs.skip(1).reverse());
}

} // verus!
