use vstd::prelude::*;

verus! {

/// `(key, value)` is an entry of `m` whose key is the smallest of `m`.
pub open spec fn is_min_entry(m: Map<u64, u64>, key: u64, value: u64) -> bool {
    &&& m.contains_key(value)
    &&& m[value] == key
    &&& forall|w: u64| #[trigger] m.contains_key(w) ==> key <= m[w]
}

/// `out` is what repeated extraction of the minimum can return from a heap
/// holding `m`, until the heap is empty: each pair is a smallest entry of
/// what is left, which then loses it.
pub open spec fn is_drain(m: Map<u64, u64>, out: Seq<(u64, u64)>) -> bool
    decreases out.len(),
{
    if out.len() == 0 {
        m.len() == 0
    } else {
        &&& is_min_entry(m, out[0].0, out[0].1)
        &&& is_drain(m.remove(out[0].1), out.drop_first())
    }
}

/// The elements of a heap into which the pairs of `ps` were inserted, in
/// order, starting from an empty heap.
pub open spec fn from_pairs(ps: Seq<(u64, u64)>) -> Map<u64, u64>
    decreases ps.len(),
{
    if ps.len() == 0 {
        Map::empty()
    } else {
        from_pairs(ps.drop_last()).insert(ps.last().1, ps.last().0)
    }
}

/// No two pairs of `ps` have the same value.
pub open spec fn values_distinct(ps: Seq<(u64, u64)>) -> bool {
    forall|a: int, b: int| 0 <= a < b < ps.len() ==> (#[trigger] ps[a]).1 != (#[trigger] ps[b]).1
}

/// The keys of `out` never decrease.
pub open spec fn keys_sorted(out: Seq<(u64, u64)>) -> bool {
    forall|a: int, b: int| 0 <= a <= b < out.len() ==> (#[trigger] out[a]).0 <= (#[trigger] out[b]).0
}

/// One operation on a heap: `(true, key, value)` inserts `value` with
/// `key`; `(false, key, value)` is an extraction that returned that pair.
pub open spec fn step(m: Map<u64, u64>, op: (bool, u64, u64)) -> Map<u64, u64> {
    if op.0 {
        m.insert(op.2, op.1)
    } else {
        m.remove(op.2)
    }
}

/// The operation is allowed and its result is the one the heap gives:
/// an inserted value is new, and an extraction returns a smallest entry.
pub open spec fn step_ok(m: Map<u64, u64>, op: (bool, u64, u64)) -> bool {
    if op.0 {
        !m.contains_key(op.2)
    } else {
        is_min_entry(m, op.1, op.2)
    }
}

/// The elements after the operations `ops`, from the elements `m`.
pub open spec fn apply(m: Map<u64, u64>, ops: Seq<(bool, u64, u64)>) -> Map<u64, u64>
    decreases ops.len(),
{
    if ops.len() == 0 {
        m
    } else {
        apply(step(m, ops[0]), ops.drop_first())
    }
}

/// Every operation of `ops` is allowed where it happens.
pub open spec fn ops_ok(m: Map<u64, u64>, ops: Seq<(bool, u64, u64)>) -> bool
    decreases ops.len(),
{
    ops.len() == 0 || (step_ok(m, ops[0]) && ops_ok(step(m, ops[0]), ops.drop_first()))
}

/// The number of insertions in `ops`.
pub open spec fn count_inserts(ops: Seq<(bool, u64, u64)>) -> nat
    decreases ops.len(),
{
    if ops.len() == 0 {
        0
    } else {
        (if ops[0].0 { 1nat } else { 0nat }) + count_inserts(ops.drop_first())
    }
}

} // verus!
