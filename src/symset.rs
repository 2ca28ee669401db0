//! Finite sets of symbols held as vectors without duplicates, and the size
//! bookkeeping that bounds the fixed-point iterations over tables of them.

use vstd::prelude::*;
use crate::symbol::Grammer;

verus! {

broadcast use vstd::seq_lib::group_seq_properties;

/// The contents of each entry of a table of symbol vectors.
pub open spec fn sets_of(t: Seq<Vec<Grammer>>) -> Seq<Set<Grammer>> {
    Seq::new(t.len(), |a: int| t[a]@.to_set())
}

/// Every entry of the table is free of duplicates.
pub open spec fn all_distinct(t: Seq<Vec<Grammer>>) -> bool {
    forall|a: int| 0 <= a < t.len() ==> (#[trigger] t[a])@.no_duplicates()
}

/// The two tables hold the same vectors, entry by entry.
pub open spec fn same_entries(t1: Seq<Vec<Grammer>>, t2: Seq<Vec<Grammer>>) -> bool {
    &&& t1.len() == t2.len()
    &&& forall|a: int| 0 <= a < t1.len() ==> (#[trigger] t1[a])@ == t2[a]@
}

/// Pointwise inclusion of two tables of the same length.
pub open spec fn table_le(f1: Seq<Set<Grammer>>, f2: Seq<Set<Grammer>>) -> bool {
    &&& f1.len() == f2.len()
    &&& forall|a: int| 0 <= a < f1.len() ==> (#[trigger] f1[a]).subset_of(f2[a])
}

/// The sum of the lengths of the entries.
pub open spec fn total(t: Seq<Vec<Grammer>>) -> int
    decreases t.len(),
{
    if t.len() == 0 {
        0
    } else {
        total(t.drop_last()) + t.last()@.len()
    }
}

pub proof fn lemma_total_update(t: Seq<Vec<Grammer>>, a: int, v: Vec<Grammer>)
    requires
        0 <= a < t.len(),
    ensures
        total(t.update(a, v)) == total(t) - t[a]@.len() + v@.len(),
    decreases t.len(),
{
    let u = t.update(a, v);
    if a == t.len() - 1 {
        assert(u.drop_last() =~= t.drop_last());
    } else {
        assert(u.drop_last() =~= t.drop_last().update(a, v));
        lemma_total_update(t.drop_last(), a, v);
    }
}

pub proof fn lemma_total_bound(t: Seq<Vec<Grammer>>, cap: int)
    requires
        cap >= 0,
        forall|a: int| 0 <= a < t.len() ==> (#[trigger] t[a])@.len() <= cap,
    ensures
        0 <= total(t) <= t.len() * cap,
    decreases t.len(),
{
    if t.len() > 0 {
        let n = t.len() as int;
        lemma_total_bound(t.drop_last(), cap);
        assert(t.last() == t[n - 1]);
        assert((n - 1) * cap + cap == n * cap) by (nonlinear_arith);
    }
}

/// A vector without duplicates whose elements all lie in `u` is no longer than `u`.
pub proof fn lemma_distinct_len_bound(v: Seq<Grammer>, u: Seq<Grammer>)
    requires
        v.no_duplicates(),
        u.no_duplicates(),
        v.to_set().subset_of(u.to_set()),
    ensures
        v.len() <= u.len(),
{
    v.unique_seq_to_set();
    u.unique_seq_to_set();
    vstd::set_lib::lemma_len_subset(v.to_set(), u.to_set());
}

/// Whether `x` is among the elements of `v`.
pub fn contains(v: &Vec<Grammer>, x: Grammer) -> (r: bool)
    ensures
        r == v@.contains(x),
{
    let mut i: usize = 0;
    while i < v.len()
        invariant
            i <= v.len(),
            forall|j: int| 0 <= j < i ==> v@[j] != x,
        decreases v.len() - i,
    {
        if v[i] == x {
            return true;
        }
        i += 1;
    }
    false
}

/// Adds `x` unless it is present; tells whether it was added.
pub fn insert(v: &mut Vec<Grammer>, x: Grammer) -> (added: bool)
    ensures
        added == !old(v)@.contains(x),
        final(v)@ == (if added { old(v)@.push(x) } else { old(v)@ }),
{
    if contains(v, x) {
        false
    } else {
        v.push(x);
        true
    }
}

/// Whether `merge` with `skip_empty` takes `x` over.
pub open spec fn kept(x: Grammer, skip_empty: bool) -> bool {
    !(skip_empty && x == Grammer::Empty)
}

/// Adds each element of `w` that is not yet present, leaving out `Empty` when
/// `skip_empty` holds; tells whether anything was added.
pub fn merge(v: &mut Vec<Grammer>, w: &Vec<Grammer>, skip_empty: bool) -> (changed: bool)
    requires
        old(v)@.no_duplicates(),
    ensures
        final(v)@.no_duplicates(),
        final(v)@.to_set() == old(v)@.to_set().union(
            if skip_empty { w@.to_set().remove(Grammer::Empty) } else { w@.to_set() },
        ),
        changed == (final(v)@ != old(v)@),
        changed == !(if skip_empty { w@.to_set().remove(Grammer::Empty) } else { w@.to_set() }).subset_of(
            old(v)@.to_set(),
        ),
        final(v)@.len() >= old(v)@.len(),
        changed ==> final(v)@.len() > old(v)@.len(),
{
    let ghost start = v@;
    let mut changed = false;
    let mut i: usize = 0;
    while i < w.len()
        invariant
            i <= w.len(),
            start.no_duplicates(),
            v@.no_duplicates(),
            v@.len() >= start.len(),
            v@.subrange(0, start.len() as int) == start,
            changed == (v@ != start),
            changed == (exists|j: int| 0 <= j < i && kept(w@[j], skip_empty) && !start.contains(w@[j])),
            changed ==> v@.len() > start.len(),
            forall|y: Grammer|
                #![trigger v@.contains(y)]
                v@.contains(y) <==> (start.contains(y) || (exists|j: int|
                    0 <= j < i && w@[j] == y && kept(y, skip_empty))),
        decreases w.len() - i,
    {
        let x = w[i];
        let ghost before = v@;
        let ghost was_changed = changed;
        if !(skip_empty && x == Grammer::Empty) {
            if insert(v, x) {
                changed = true;
                assert(v@.subrange(0, start.len() as int) =~= before.subrange(0, start.len() as int));
            }
        }
        assert forall|y: Grammer| v@.contains(y) <==> (start.contains(y) || (exists|j: int|
            0 <= j < i + 1 && w@[j] == y && kept(y, skip_empty))) by {
            if v@.contains(y) {
                if before.contains(y) {
                    if !start.contains(y) {
                        let j = choose|j: int| 0 <= j < i && w@[j] == y && kept(y, skip_empty);
                        assert(0 <= j < i + 1 && w@[j] == y && kept(y, skip_empty));
                    }
                } else {
                    assert(y == x);
                    assert(0 <= i < i + 1 && w@[i as int] == y && kept(y, skip_empty));
                }
            }
            if start.contains(y) {
                assert(before.contains(y));
            }
            if !start.contains(y) && (exists|j: int| 0 <= j < i + 1 && w@[j] == y && kept(y, skip_empty)) {
                let j = choose|j: int| 0 <= j < i + 1 && w@[j] == y && kept(y, skip_empty);
                if j < i {
                    assert(before.contains(y));
                } else {
                    assert(y == x);
                }
            }
        }
        assert(changed == (exists|j: int| 0 <= j < i + 1 && kept(w@[j], skip_empty) && !start.contains(w@[j]))) by {
            if was_changed {
                let j = choose|j: int| 0 <= j < i && kept(w@[j], skip_empty) && !start.contains(w@[j]);
                assert(0 <= j < i + 1 && kept(w@[j], skip_empty) && !start.contains(w@[j]));
            } else if changed {
                assert(!before.contains(x));
                assert(!start.contains(x));
                assert(kept(w@[i as int], skip_empty) && !start.contains(w@[i as int]));
            } else {
                if kept(x, skip_empty) && !start.contains(x) {
                    assert(before.contains(x));
                }
            }
        }
        i += 1;
    }
    assert(changed == !(if skip_empty { w@.to_set().remove(Grammer::Empty) } else { w@.to_set() }).subset_of(
        start.to_set())) by {
        if changed {
            let j = choose|j: int| 0 <= j < w.len() && kept(w@[j], skip_empty) && !start.contains(w@[j]);
            assert(w@.to_set().contains(w@[j]));
            assert((if skip_empty { w@.to_set().remove(Grammer::Empty) } else { w@.to_set() }).contains(w@[j]));
            assert(!start.to_set().contains(w@[j]));
        } else {
            assert forall|y: Grammer| (if skip_empty { w@.to_set().remove(Grammer::Empty) } else { w@.to_set() }).contains(y)
                implies start.to_set().contains(y) by {
                let j = choose|j: int| 0 <= j < w.len() && w@[j] == y;
                assert(kept(w@[j], skip_empty));
                assert(start.contains(w@[j]));
            }
        }
    }
    assert(v@.to_set() =~= start.to_set().union(
        if skip_empty { w@.to_set().remove(Grammer::Empty) } else { w@.to_set() },
    )) by {
        assert forall|y: Grammer| v@.to_set().contains(y) == start.to_set().union(
            if skip_empty { w@.to_set().remove(Grammer::Empty) } else { w@.to_set() },
        ).contains(y) by {
            if w@.contains(y) {
                let j = choose|j: int| 0 <= j < w@.len() && w@[j] == y;
                assert(exists|j: int| 0 <= j < w@.len() && w@[j] == y);
            }
        }
    }
    changed
}

} // verus!
