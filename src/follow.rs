//! FOLLOW sets: for every nonterminal the least set of symbols that may come
//! right after it, closed under every occurrence of it in a production.

use vstd::prelude::*;
use crate::symbol::{Grammer, GrammerIdentifier, GrammerSet, Table, symbol_ok, production_ok, well_formed};
use crate::symset::{same_entries, sets_of, all_distinct, table_le, total, lemma_total_update, lemma_total_bound,
    lemma_distinct_len_bound, contains, merge};
use crate::first::{copy_symbols, symbol_first_of, lemma_first_table_closed, symbol_first, first_table, first_sets, covers, symbol_universe, lemma_first_table_within};

verus! {

broadcast use vstd::seq_lib::group_seq_properties;

/// What may follow an occurrence of a nonterminal that stands just before
/// `p[j]` in a production of `owner`: the FIRST sets of the symbols from `p[j]`
/// up to and including the first one that is not nullable, and the FOLLOW set
/// of `owner` when every symbol to the end is nullable.
pub open spec fn follow_from(
    fi: Seq<Set<Grammer>>,
    fo: Seq<Set<Grammer>>,
    owner: int,
    p: Seq<Grammer>,
    j: int,
) -> Set<Grammer>
    decreases p.len() - j,
{
    if j >= p.len() {
        if 0 <= owner < fo.len() {
            fo[owner]
        } else {
            Set::empty()
        }
    } else if symbol_first(fi, p[j]).contains(Grammer::Empty) {
        symbol_first(fi, p[j]).union(follow_from(fi, fo, owner, p, j + 1))
    } else {
        symbol_first(fi, p[j])
    }
}

/// The symbol at position `i` of production `k` of `b`, when it is a nonterminal,
/// already has in `fo` all that may follow it there.
pub open spec fn occurrence_settled(
    g: Table,
    fi: Seq<Set<Grammer>>,
    fo: Seq<Set<Grammer>>,
    b: int,
    k: int,
    i: int,
) -> bool {
    g[b][k][i] is Grammer ==> follow_from(fi, fo, b, g[b][k], i + 1).subset_of(
        fo[g[b][k][i]->Grammer_0.0 as int],
    )
}

/// Every occurrence of a nonterminal in `g` is settled in `fo`.
pub open spec fn follow_closed(g: Table, fi: Seq<Set<Grammer>>, fo: Seq<Set<Grammer>>) -> bool {
    &&& fo.len() == g.len()
    &&& forall|b: int, k: int, i: int|
        0 <= b < g.len() && 0 <= k < g[b].len() && 0 <= i < g[b][k].len() ==> #[trigger] occurrence_settled(
            g,
            fi,
            fo,
            b,
            k,
            i,
        )
}

/// The FOLLOW sets of the nonterminals of `g`: the least table in which every
/// occurrence is settled.
pub open spec fn follow_table(g: Table) -> Seq<Set<Grammer>> {
    Seq::new(
        g.len(),
        |t: int| Set::new(|x: Grammer| forall|fo: Seq<Set<Grammer>>| #[trigger] follow_closed(g, first_table(g), fo) ==> fo[t].contains(x)),
    )
}

/// One full round from the sets `fo`: each nonterminal keeps its set and gains
/// what may follow each of its occurrences.
pub open spec fn follow_step(g: Table, fi: Seq<Set<Grammer>>, fo: Seq<Set<Grammer>>) -> Seq<Set<Grammer>> {
    Seq::new(
        g.len(),
        |t: int| fo[t].union(Set::new(|x: Grammer| exists|b: int, k: int, i: int|
            0 <= b < g.len() && 0 <= k < g[b].len() && 0 <= i < g[b][k].len()
                && g[b][k][i] is Grammer && g[b][k][i]->Grammer_0.0 == t
                && #[trigger] follow_from(fi, fo, b, g[b][k], i + 1).contains(x))),
    )
}

pub proof fn lemma_follow_from_monotone(
    fi: Seq<Set<Grammer>>,
    fo1: Seq<Set<Grammer>>,
    fo2: Seq<Set<Grammer>>,
    owner: int,
    p: Seq<Grammer>,
    j: int,
)
    requires
        table_le(fo1, fo2),
    ensures
        follow_from(fi, fo1, owner, p, j).subset_of(follow_from(fi, fo2, owner, p, j)),
    decreases p.len() - j,
{
    if j < p.len() {
        lemma_follow_from_monotone(fi, fo1, fo2, owner, p, j + 1);
    }
}

/// The FOLLOW table lies below every table in which all occurrences are settled.
pub proof fn lemma_follow_table_least(g: Table, fo: Seq<Set<Grammer>>)
    requires
        follow_closed(g, first_table(g), fo),
    ensures
        table_le(follow_table(g), fo),
{
}

/// Every occurrence is settled in the FOLLOW table itself.
pub proof fn lemma_follow_table_closed(g: Table)
    requires
        well_formed(g),
    ensures
        follow_closed(g, first_table(g), follow_table(g)),
{
    let fi = first_table(g);
    let t = follow_table(g);
    assert forall|b: int, k: int, i: int|
        0 <= b < g.len() && 0 <= k < g[b].len() && 0 <= i < g[b][k].len() implies #[trigger] occurrence_settled(
            g,
            fi,
            t,
            b,
            k,
            i,
        ) by {
        if g[b][k][i] is Grammer {
            let x0 = g[b][k][i]->Grammer_0.0 as int;
            assert(production_ok(g, g[b][k]));
            assert(symbol_ok(g, g[b][k][i]));
            assert forall|x: Grammer| follow_from(fi, t, b, g[b][k], i + 1).contains(x) implies t[x0].contains(x) by {
                assert forall|fo: Seq<Set<Grammer>>| #[trigger] follow_closed(g, fi, fo) implies fo[x0].contains(x) by {
                    lemma_follow_table_least(g, fo);
                    lemma_follow_from_monotone(fi, t, fo, b, g[b][k], i + 1);
                    assert(occurrence_settled(g, fi, fo, b, k, i));
                }
                assert(t[x0] == Set::new(|y: Grammer| forall|fo: Seq<Set<Grammer>>| #[trigger] follow_closed(g, fi, fo) ==> fo[x0].contains(y)));
            }
        }
    }
}

proof fn lemma_follow_from_within(
    g: Table,
    fo: Seq<Set<Grammer>>,
    u: Set<Grammer>,
    b: int,
    k: int,
    j: int,
)
    requires
        well_formed(g),
        covers(g, u),
        fo.len() == g.len(),
        forall|a: int| 0 <= a < fo.len() ==> (#[trigger] fo[a]).subset_of(u),
        forall|a: int| 0 <= a < g.len() ==> (#[trigger] first_table(g)[a]).subset_of(u),
        0 <= b < g.len(),
        0 <= k < g[b].len(),
        0 <= j,
    ensures
        follow_from(first_table(g), fo, b, g[b][k], j).subset_of(u),
    decreases g[b][k].len() - j,
{
    let p = g[b][k];
    if j < p.len() {
        lemma_follow_from_within(g, fo, u, b, k, j + 1);
        assert(production_ok(g, p));
        assert(symbol_ok(g, p[j]));
        if let Grammer::Grammer(id) = p[j] {
            assert(first_table(g)[id.0 as int].subset_of(u));
        }
        if p[j] is Character {
            assert(u.contains(g[b][k][j]));
        }
    } else {
        assert(fo[b].subset_of(u));
    }
}

/// Every FOLLOW set lies within a set that covers the grammar.
pub proof fn lemma_follow_table_within(g: Table, u: Set<Grammer>)
    requires
        well_formed(g),
        covers(g, u),
    ensures
        forall|t: int| 0 <= t < g.len() ==> (#[trigger] follow_table(g)[t]).subset_of(u),
{
    lemma_first_table_within(g, u);
    let fo = Seq::new(g.len(), |a: int| u);
    assert forall|b: int, k: int, i: int|
        0 <= b < g.len() && 0 <= k < g[b].len() && 0 <= i < g[b][k].len() implies #[trigger] occurrence_settled(
            g,
            first_table(g),
            fo,
            b,
            k,
            i,
        ) by {
        lemma_follow_from_within(g, fo, u, b, k, i + 1);
        if g[b][k][i] is Grammer {
            assert(production_ok(g, g[b][k]));
            assert(symbol_ok(g, g[b][k][i]));
        }
    }
    lemma_follow_table_least(g, fo);
}

/// Once the FOLLOW sets are reached, one more full round adds nothing to any of them.
pub proof fn lemma_follow_fixed_point(g: Table)
    requires
        well_formed(g),
    ensures
        follow_closed(g, first_table(g), follow_table(g)),
        follow_step(g, first_table(g), follow_table(g)) == follow_table(g),
{
    let fi = first_table(g);
    let t = follow_table(g);
    let s = follow_step(g, fi, t);
    lemma_follow_table_closed(g);
    assert forall|a: int| 0 <= a < g.len() implies #[trigger] s[a] == t[a] by {
        assert forall|x: Grammer| s[a].contains(x) implies t[a].contains(x) by {
            if !t[a].contains(x) {
                let (b, k, i) = choose|b: int, k: int, i: int|
                    0 <= b < g.len() && 0 <= k < g[b].len() && 0 <= i < g[b][k].len()
                        && g[b][k][i] is Grammer && g[b][k][i]->Grammer_0.0 == a
                        && #[trigger] follow_from(fi, t, b, g[b][k], i + 1).contains(x);
                assert(occurrence_settled(g, fi, t, b, k, i));
            }
        }
        assert(s[a] =~= t[a]);
    }
    assert(s =~= t);
}

/// Every occurrence that comes before position `i` of production `k` of `b`,
/// in the order of identifiers, then productions, then positions, is settled.
pub open spec fn follow_settled_before(
    g: Table,
    fi: Seq<Set<Grammer>>,
    fo: Seq<Set<Grammer>>,
    b: int,
    k: int,
    i: int,
) -> bool {
    forall|b2: int, k2: int, i2: int|
        0 <= b2 < g.len() && 0 <= k2 < g[b2].len() && 0 <= i2 < g[b2][k2].len() && (b2 < b || (b2 == b && (k2 < k
            || (k2 == k && i2 < i)))) ==> #[trigger] occurrence_settled(g, fi, fo, b2, k2, i2)
}

/// What holds of the entries during a round that started from `start`.
pub open spec fn follow_round(g: Table, start: Seq<Vec<Grammer>>, cur: Seq<Vec<Grammer>>, changed: bool) -> bool {
    &&& cur.len() == g.len()
    &&& all_distinct(cur)
    &&& table_le(sets_of(cur), follow_table(g))
    &&& table_le(sets_of(start), sets_of(cur))
    &&& total(cur) >= total(start)
    &&& changed ==> total(cur) > total(start)
    &&& changed ==> !follow_closed(g, first_table(g), sets_of(start))
    &&& !changed ==> same_entries(cur, start)
}

/// What may follow an occurrence that stands just before `p[start]` in a
/// production of `owner`, reading FIRST sets from `fi` and FOLLOW sets from `fo`.
fn occurrence_follow(
    fi: &Vec<Vec<Grammer>>,
    fo: &Vec<Vec<Grammer>>,
    owner: usize,
    p: &Vec<Grammer>,
    start: usize,
) -> (r: Vec<Grammer>)
    requires
        all_distinct(fi@),
        all_distinct(fo@),
        owner < fo@.len(),
        start <= p@.len(),
        forall|j: int| 0 <= j < p@.len() ==> #[trigger] p@[j] != Grammer::Dot,
        forall|j: int| 0 <= j < p@.len() && (#[trigger] p@[j]) is Grammer ==> p@[j]->Grammer_0.0 < fi@.len(),
    ensures
        r@.no_duplicates(),
        r@.to_set() == follow_from(sets_of(fi@), sets_of(fo@), owner as int, p@, start as int),
{
    let ghost f = sets_of(fi@);
    let ghost o = sets_of(fo@);
    let mut acc: Vec<Grammer> = Vec::new();
    let mut j: usize = start;
    while j < p.len()
        invariant
            start <= j <= p@.len(),
            all_distinct(fi@),
            f == sets_of(fi@),
            o == sets_of(fo@),
            forall|j: int| 0 <= j < p@.len() ==> #[trigger] p@[j] != Grammer::Dot,
            forall|j: int| 0 <= j < p@.len() && (#[trigger] p@[j]) is Grammer ==> p@[j]->Grammer_0.0 < fi@.len(),
            acc@.no_duplicates(),
            follow_from(f, o, owner as int, p@, start as int) == acc@.to_set().union(
                follow_from(f, o, owner as int, p@, j as int),
            ),
        decreases p@.len() - j,
    {
        let h = symbol_first_of(fi, p[j]);
        merge(&mut acc, &h, false);
        if !contains(&h, Grammer::Empty) {
            assert(follow_from(f, o, owner as int, p@, start as int) =~= acc@.to_set());
            return acc;
        }
        assert(follow_from(f, o, owner as int, p@, start as int) =~= acc@.to_set().union(
            follow_from(f, o, owner as int, p@, j + 1),
        ));
        j += 1;
    }
    assert(o[owner as int] == fo@[owner as int]@.to_set());
    merge(&mut acc, &fo[owner], false);
    assert(follow_from(f, o, owner as int, p@, start as int) =~= acc@.to_set());
    acc
}

/// One round over every occurrence of a nonterminal in `g`, in the order of
/// identifiers, productions and positions: adds to the entry of the nonterminal
/// what may follow it there, reading the entries as they stand. Tells whether
/// any entry grew, which happens exactly when the entries were not yet closed.
pub fn follow_pass(g: &GrammerSet, fi: &Vec<Vec<Grammer>>, cur: &mut Vec<Vec<Grammer>>) -> (changed: bool)
    requires
        well_formed(g@),
        fi@.len() == g@.len(),
        all_distinct(fi@),
        sets_of(fi@) == first_table(g@),
        follow_round(g@, old(cur)@, old(cur)@, false),
    ensures
        follow_round(g@, old(cur)@, final(cur)@, changed),
        changed == !follow_closed(g@, first_table(g@), sets_of(old(cur)@)),
{
    let ghost start = cur@;
    let ghost t = follow_table(g@);
    let ghost f = first_table(g@);
    proof {
        lemma_follow_table_closed(g@);
    }
    let mut changed = false;
    let mut b: usize = 0;
    while b < g.rules.len()
        invariant
            b <= g@.len(),
            well_formed(g@),
            fi@.len() == g@.len(),
            all_distinct(fi@),
            sets_of(fi@) == f,
            f == first_table(g@),
            t == follow_table(g@),
            follow_closed(g@, f, t),
            follow_round(g@, start, cur@, changed),
            !changed ==> follow_settled_before(g@, f, sets_of(start), b as int, 0, 0),
        decreases g@.len() - b,
    {
        let mut k: usize = 0;
        while k < g.rules[b].len()
            invariant
                b < g@.len(),
                k <= g@[b as int].len(),
                well_formed(g@),
                fi@.len() == g@.len(),
                all_distinct(fi@),
                sets_of(fi@) == f,
                f == first_table(g@),
                t == follow_table(g@),
                follow_closed(g@, f, t),
                follow_round(g@, start, cur@, changed),
                !changed ==> follow_settled_before(g@, f, sets_of(start), b as int, k as int, 0),
            decreases g@[b as int].len() - k,
        {
            let p = &g.rules[b][k];
            let ghost pv = g@[b as int][k as int];
            assert(p@ == pv);
            assert(production_ok(g@, pv));
            let mut i: usize = 0;
            while i < p.len()
                invariant
                    b < g@.len(),
                    k < g@[b as int].len(),
                    i <= pv.len(),
                    p@ == pv,
                    pv == g@[b as int][k as int],
                    production_ok(g@, pv),
                    well_formed(g@),
                    fi@.len() == g@.len(),
                    all_distinct(fi@),
                    sets_of(fi@) == f,
                    f == first_table(g@),
                    t == follow_table(g@),
                    follow_closed(g@, f, t),
                    follow_round(g@, start, cur@, changed),
                    !changed ==> follow_settled_before(g@, f, sets_of(start), b as int, k as int, i as int),
                decreases pv.len() - i,
            {
                if let Grammer::Grammer(id) = p[i] {
                    assert(symbol_ok(g@, pv[i as int]));
                    let n = cur.len();
                    let x = id.0 as usize;
                    assert forall|j: int| 0 <= j < p@.len() implies #[trigger] p@[j] != Grammer::Dot && (p@[j] is Grammer
                        ==> p@[j]->Grammer_0.0 < fi@.len()) by {
                        assert(symbol_ok(g@, pv[j]));
                    }
                    let gained = occurrence_follow(fi, cur, b, p, i + 1);
                    let ghost before = cur@;
                    let ghost s0 = sets_of(before);
                    let ch = merge(&mut cur[x], &gained, false);
                    proof {
                        let ix = x as int;
                        lemma_total_update(before, ix, cur@[ix]);
                        assert(cur@ == before.update(ix, cur@[ix]));
                        lemma_follow_from_monotone(f, s0, t, b as int, pv, i + 1);
                        assert(occurrence_settled(g@, f, t, b as int, k as int, i as int));
                        assert(s0[ix].subset_of(t[ix]));
                        assert(sets_of(cur@)[ix] == s0[ix].union(gained@.to_set()));
                        assert(table_le(sets_of(cur@), t)) by {
                            assert forall|c: int| 0 <= c < cur@.len() implies (#[trigger] sets_of(cur@)[c]).subset_of(t[c]) by {
                                if c != ix {
                                    assert(sets_of(cur@)[c] == s0[c]);
                                }
                            }
                        }
                        assert(table_le(sets_of(start), sets_of(cur@))) by {
                            assert forall|c: int| 0 <= c < cur@.len() implies (#[trigger] sets_of(start)[c]).subset_of(sets_of(cur@)[c]) by {
                                assert(sets_of(start)[c].subset_of(s0[c]));
                                if c != ix {
                                    assert(sets_of(cur@)[c] == s0[c]);
                                }
                            }
                        }
                        if ch && follow_closed(g@, f, sets_of(start)) {
                            lemma_follow_table_least(g@, sets_of(start));
                            assert forall|c: int| 0 <= c < cur@.len() implies #[trigger] t[c] == s0[c] by {
                                assert(t[c].subset_of(sets_of(start)[c]));
                                assert(sets_of(start)[c].subset_of(s0[c]));
                                assert(s0[c] =~= t[c]);
                            }
                            assert(s0 =~= t);
                        }
                        if !changed && !ch {
                            assert(cur@[ix]@ == before[ix]@);
                            assert(same_entries(cur@, start));
                            assert(s0 =~= sets_of(start));
                            assert(occurrence_settled(g@, f, sets_of(start), b as int, k as int, i as int));
                        }
                    }
                    if ch {
                        changed = true;
                    }
                } else {
                    assert(occurrence_settled(g@, f, sets_of(start), b as int, k as int, i as int));
                }
                i += 1;
            }
            k += 1;
        }
        b += 1;
    }
    changed
}

/// The FOLLOW set of every nonterminal of `g`, indexed by identifier.
pub fn create_follow_set(set: &GrammerSet) -> (r: Vec<Vec<Grammer>>)
    requires
        well_formed(set@),
    ensures
        r@.len() == set@.len(),
        all_distinct(r@),
        sets_of(r@) == follow_table(set@),
{
    let fi = first_sets(set);
    let univ = symbol_universe(set);
    let ghost t = follow_table(set@);
    let ghost cap = univ@.len();
    proof {
        lemma_follow_table_within(set@, univ@.to_set());
    }
    let mut cur: Vec<Vec<Grammer>> = Vec::new();
    let mut i: usize = 0;
    while i < set.rules.len()
        invariant
            i <= set@.len(),
            cur@.len() == i,
            forall|b: int| 0 <= b < i ==> (#[trigger] cur@[b])@ == Seq::<Grammer>::empty(),
        decreases set@.len() - i,
    {
        cur.push(Vec::new());
        i += 1;
    }
    assert(table_le(sets_of(cur@), t)) by {
        assert forall|b: int| 0 <= b < cur@.len() implies (#[trigger] sets_of(cur@)[b]).subset_of(t[b]) by {
            assert(cur@[b]@ == Seq::<Grammer>::empty());
        }
    }
    proof {
        lemma_entries_bound(cur@, t, univ@);
    }
    loop
        invariant
            well_formed(set@),
            fi@.len() == set@.len(),
            all_distinct(fi@),
            sets_of(fi@) == first_table(set@),
            t == follow_table(set@),
            cap == univ@.len(),
            univ@.no_duplicates(),
            forall|a: int| 0 <= a < set@.len() ==> (#[trigger] t[a]).subset_of(univ@.to_set()),
            cur@.len() == set@.len(),
            all_distinct(cur@),
            table_le(sets_of(cur@), t),
            0 <= total(cur@) <= set@.len() * cap,
        ensures
            cur@.len() == set@.len(),
            all_distinct(cur@),
            sets_of(cur@) == t,
        decreases set@.len() * cap - total(cur@),
    {
        let ghost before = cur@;
        assert(follow_round(set@, before, before, false)) by {
            assert(table_le(sets_of(before), sets_of(before)));
        }
        let changed = follow_pass(set, &fi, &mut cur);
        proof {
            lemma_entries_bound(cur@, t, univ@);
        }
        if !changed {
            proof {
                assert(sets_of(cur@) =~= sets_of(before));
                lemma_follow_table_least(set@, sets_of(before));
                assert forall|b: int| 0 <= b < cur@.len() implies #[trigger] sets_of(cur@)[b] == t[b] by {
                    assert(sets_of(cur@)[b] =~= t[b]);
                }
                assert(sets_of(cur@) =~= t);
            }
            break;
        }
    }
    cur
}

proof fn lemma_entries_bound(cur: Seq<Vec<Grammer>>, t: Seq<Set<Grammer>>, univ: Seq<Grammer>)
    requires
        univ.no_duplicates(),
        all_distinct(cur),
        table_le(sets_of(cur), t),
        forall|a: int| 0 <= a < t.len() ==> (#[trigger] t[a]).subset_of(univ.to_set()),
    ensures
        0 <= total(cur) <= cur.len() * univ.len(),
{
    assert forall|a: int| 0 <= a < cur.len() implies (#[trigger] cur[a])@.len() <= univ.len() by {
        assert(sets_of(cur)[a].subset_of(t[a]));
        assert(t[a].subset_of(univ.to_set()));
        lemma_distinct_len_bound(cur[a]@, univ);
    }
    lemma_total_bound(cur, univ.len() as int);
}

/// The closure of an LR item set. Item-set construction is not supported
/// yet: the items come back as they were given, whatever the grammar.
pub fn create_closure_set(set: &GrammerSet, input: &GrammerSet) -> (r: GrammerSet)
    ensures
        r@ == input@,
{
    let mut rules: Vec<Vec<Vec<Grammer>>> = Vec::new();
    let mut a: usize = 0;
    while a < input.rules.len()
        invariant
            a <= input.rules@.len(),
            rules@.len() == a,
            forall|b: int| 0 <= b < a ==> (#[trigger] rules@[b])@.len() == input.rules@[b]@.len() && forall|k: int|
                0 <= k < rules@[b]@.len() ==> (#[trigger] rules@[b]@[k])@ == input.rules@[b]@[k]@,
        decreases input.rules@.len() - a,
    {
        let mut alts: Vec<Vec<Grammer>> = Vec::new();
        let mut k: usize = 0;
        while k < input.rules[a].len()
            invariant
                a < input.rules@.len(),
                k <= input.rules@[a as int]@.len(),
                alts@.len() == k,
                forall|k2: int| 0 <= k2 < k ==> (#[trigger] alts@[k2])@ == input.rules@[a as int]@[k2]@,
            decreases input.rules@[a as int]@.len() - k,
        {
            alts.push(copy_symbols(&input.rules[a][k]));
            k += 1;
        }
        rules.push(alts);
        a += 1;
    }
    let r = GrammerSet { rules };
    assert(r@ =~= input@) by {
        assert forall|b: int| 0 <= b < r@.len() implies #[trigger] r@[b] =~= input@[b] by {}
    }
    r
}

} // verus!
