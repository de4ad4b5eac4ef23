//! The mathematical model of the cache: a sequence of values ordered from
//! most recently used to least recently used, and the effect of each
//! operation on that sequence.

use vstd::prelude::*;

verus! {

/// The recency sequence after `v` is inserted into a cache holding `s`
/// with capacity `cap`: the new value becomes the front, and when the
/// cache is full the last (least-recently-used) value is evicted.
pub open spec fn inserted<T>(s: Seq<T>, cap: nat, v: T) -> Seq<T> {
    if s.len() < cap {
        seq![v] + s
    } else {
        seq![v] + s.drop_last()
    }
}

/// The recency sequence after the value at position `k` is promoted to the
/// front: it moves to position 0 and the relative order of all other
/// values is preserved.
pub open spec fn promoted<T>(s: Seq<T>, k: int) -> Seq<T>
    recommends
        0 <= k < s.len(),
{
    seq![s[k]] + s.remove(k)
}

/// The recency sequence after every value of `vs` is inserted in order
/// into a cache holding `s` with capacity `cap`.
pub open spec fn inserted_all<T>(s: Seq<T>, cap: nat, vs: Seq<T>) -> Seq<T>
    decreases vs.len(),
{
    if vs.len() == 0 {
        s
    } else {
        inserted_all(inserted(s, cap, vs[0]), cap, vs.skip(1))
    }
}

} // verus!
