use vstd::prelude::*;
use crate::model::{
    apply, count_inserts, from_pairs, is_drain, is_min_entry, keys_sorted, ops_ok, step,
    values_distinct,
};

verus! {

/// Two extractions in a row return keys in non-decreasing order: the
/// smallest key of what is left after removing a smallest entry is no
/// smaller than it.
pub proof fn lemma_extractions_ordered(m: Map<u64, u64>, k1: u64, v1: u64, k2: u64, v2: u64)
    requires
        is_min_entry(m, k1, v1),
        is_min_entry(m.remove(v1), k2, v2),
    ensures
        k1 <= k2,
{
    assert(m.contains_key(v2));
}

/// Draining a heap returns each of its entries exactly once, with keys in
/// non-decreasing order.
pub proof fn lemma_drain(m: Map<u64, u64>, out: Seq<(u64, u64)>)
    requires
        m.dom().finite(),
        is_drain(m, out),
    ensures
        out.len() == m.len(),
        keys_sorted(out),
        values_distinct(out),
        forall|a: int| 0 <= a < out.len() ==> m.contains_key((#[trigger] out[a]).1) && m[out[a].1] == out[a].0,
        forall|v: u64| #[trigger] m.contains_key(v) ==> exists|a: int| 0 <= a < out.len() && (#[trigger] out[a]).1 == v,
    decreases out.len(),
{
    if out.len() == 0 {
        assert forall|v: u64| #[trigger] m.contains_key(v) implies exists|a: int| 0 <= a < out.len() && (#[trigger] out[a]).1 == v by {
            assert(m.dom().contains(v));
        }
    } else {
        let (k0, v0) = out[0];
        let rest = out.drop_first();
        let m1 = m.remove(v0);
        lemma_drain(m1, rest);
        assert(m1.len() + 1 == m.len()) by {
            assert(m.dom().contains(v0));
        }
        assert forall|a: int| 0 <= a < out.len() implies m.contains_key((#[trigger] out[a]).1) && m[out[a].1] == out[a].0 by {
            if a > 0 {
                assert(out[a] == rest[a - 1]);
            }
        }
        assert forall|a: int, b: int| 0 <= a <= b < out.len() implies (#[trigger] out[a]).0 <= (#[trigger] out[b]).0 by {
            if a > 0 {
                assert(out[a] == rest[a - 1] && out[b] == rest[b - 1]);
            } else {
                assert(m.contains_key(out[b].1));
            }
        }
        assert forall|a: int, b: int| 0 <= a < b < out.len() implies (#[trigger] out[a]).1 != (#[trigger] out[b]).1 by {
            assert(out[b] == rest[b - 1]);
            if a > 0 {
                assert(out[a] == rest[a - 1]);
            } else {
                assert(m1.contains_key(rest[b - 1].1));
            }
        }
        assert forall|v: u64| #[trigger] m.contains_key(v) implies exists|a: int| 0 <= a < out.len() && (#[trigger] out[a]).1 == v by {
            if v == v0 {
                assert(out[0].1 == v);
            } else {
                assert(m1.contains_key(v));
                let a = choose|a: int| 0 <= a < rest.len() && (#[trigger] rest[a]).1 == v;
                assert(out[a + 1] == rest[a]);
            }
        }
    }
}

/// Inserting pairs with distinct values gives a map with one entry per pair.
pub proof fn lemma_from_pairs(ps: Seq<(u64, u64)>)
    requires
        values_distinct(ps),
    ensures
        from_pairs(ps).dom().finite(),
        from_pairs(ps).len() == ps.len(),
        forall|i: int| 0 <= i < ps.len() ==> from_pairs(ps).contains_key((#[trigger] ps[i]).1) && from_pairs(ps)[ps[i].1] == ps[i].0,
        forall|v: u64| #[trigger] from_pairs(ps).contains_key(v) ==> exists|i: int| 0 <= i < ps.len() && (#[trigger] ps[i]).1 == v,
    decreases ps.len(),
{
    if ps.len() > 0 {
        let init = ps.drop_last();
        assert forall|a: int, b: int| 0 <= a < b < init.len() implies (#[trigger] init[a]).1 != (#[trigger] init[b]).1 by {
            assert(init[a] == ps[a] && init[b] == ps[b]);
        }
        lemma_from_pairs(init);
        let last = ps.last();
        assert(!from_pairs(init).contains_key(last.1)) by {
            if from_pairs(init).contains_key(last.1) {
                let i = choose|i: int| 0 <= i < init.len() && (#[trigger] init[i]).1 == last.1;
                assert(init[i] == ps[i]);
            }
        }
        assert forall|i: int| 0 <= i < ps.len() implies from_pairs(ps).contains_key((#[trigger] ps[i]).1) && from_pairs(ps)[ps[i].1] == ps[i].0 by {
            if i < ps.len() - 1 {
                assert(init[i] == ps[i]);
            }
        }
        assert forall|v: u64| #[trigger] from_pairs(ps).contains_key(v) implies exists|i: int| 0 <= i < ps.len() && (#[trigger] ps[i]).1 == v by {
            if v == last.1 {
                assert(ps[ps.len() - 1].1 == v);
            } else {
                let i = choose|i: int| 0 <= i < init.len() && (#[trigger] init[i]).1 == v;
                assert(init[i] == ps[i]);
            }
        }
    }
}

/// Inserting pairs with distinct values into an empty heap and extracting
/// until it is empty returns the same pairs, each once, sorted by key.
pub proof fn lemma_round_trip(ps: Seq<(u64, u64)>, out: Seq<(u64, u64)>)
    requires
        values_distinct(ps),
        is_drain(from_pairs(ps), out),
    ensures
        keys_sorted(out),
        out.len() == ps.len(),
        values_distinct(out),
        forall|a: int| 0 <= a < out.len() ==> ps.contains(#[trigger] out[a]),
        forall|i: int| 0 <= i < ps.len() ==> out.contains(#[trigger] ps[i]),
{
    let m = from_pairs(ps);
    lemma_from_pairs(ps);
    lemma_drain(m, out);
    assert forall|a: int| 0 <= a < out.len() implies ps.contains(#[trigger] out[a]) by {
        assert(m.contains_key(out[a].1));
        let i = choose|i: int| 0 <= i < ps.len() && (#[trigger] ps[i]).1 == out[a].1;
        assert(ps[i] == out[a]);
    }
    assert forall|i: int| 0 <= i < ps.len() implies out.contains(#[trigger] ps[i]) by {
        assert(m.contains_key(ps[i].1));
        let a = choose|a: int| 0 <= a < out.len() && (#[trigger] out[a]).1 == ps[i].1;
        assert(out[a] == ps[i]);
    }
}

/// After N insertions and M extractions the heap holds N - M elements more
/// than it started with.
pub proof fn lemma_size_after_ops(m: Map<u64, u64>, ops: Seq<(bool, u64, u64)>)
    requires
        m.dom().finite(),
        ops_ok(m, ops),
    ensures
        apply(m, ops).dom().finite(),
        apply(m, ops).len() + (ops.len() - count_inserts(ops)) == m.len() + count_inserts(ops),
    decreases ops.len(),
{
    if ops.len() > 0 {
        let m1 = step(m, ops[0]);
        if ops[0].0 {
            assert(!m.dom().contains(ops[0].2));
        } else {
            assert(m.dom().contains(ops[0].2));
        }
        lemma_size_after_ops(m1, ops.drop_first());
    }
}

} // verus!
