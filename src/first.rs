//! FIRST sets: for every nonterminal the least set of leading symbols that is
//! closed under its productions, computed by fixed-point iteration.

use vstd::prelude::*;
use crate::symbol::{has_char, terminal, Grammer, GrammerIdentifier, GrammerSet, Table, symbol_ok, production_ok, well_formed};
use crate::symset::{same_entries, sets_of, all_distinct, table_le, total, lemma_total_update, lemma_total_bound,
    lemma_distinct_len_bound, contains, insert, merge};

verus! {

broadcast use vstd::seq_lib::group_seq_properties;

/// FIRST of one symbol, reading the sets of nonterminals from `f`.
pub open spec fn symbol_first(f: Seq<Set<Grammer>>, s: Grammer) -> Set<Grammer> {
    match s {
        Grammer::Empty => set![Grammer::Empty],
        Grammer::Character(c) => set![Grammer::Character(c)],
        Grammer::Grammer(id) => if id.0 < f.len() { f[id.0 as int] } else { Set::empty() },
        Grammer::Dot => Set::empty(),
    }
}

/// FIRST of the symbols `p[i..]`: the leading symbols of each nullable prefix
/// and of the first symbol that is not nullable; `Empty` only when every
/// symbol of the rest is nullable.
pub open spec fn sequence_first(f: Seq<Set<Grammer>>, p: Seq<Grammer>, i: int) -> Set<Grammer>
    decreases p.len() - i,
{
    if i >= p.len() {
        set![Grammer::Empty]
    } else if symbol_first(f, p[i]).contains(Grammer::Empty) {
        symbol_first(f, p[i]).remove(Grammer::Empty).union(sequence_first(f, p, i + 1))
    } else {
        symbol_first(f, p[i])
    }
}

/// `f` gives each nonterminal of `g` at least the FIRST set of each of its productions.
pub open spec fn first_closed(g: Table, f: Seq<Set<Grammer>>) -> bool {
    &&& f.len() == g.len()
    &&& forall|a: int, k: int|
        0 <= a < g.len() && 0 <= k < g[a].len() ==> #[trigger] sequence_first(f, g[a][k], 0).subset_of(f[a])
}

/// The FIRST sets of the nonterminals of `g`: the least table closed under its productions.
pub open spec fn first_table(g: Table) -> Seq<Set<Grammer>> {
    Seq::new(
        g.len(),
        |a: int| Set::new(|x: Grammer| forall|f: Seq<Set<Grammer>>| #[trigger] first_closed(g, f) ==> f[a].contains(x)),
    )
}

/// FIRST of a symbol of `g`.
pub open spec fn first_of(g: Table, s: Grammer) -> Set<Grammer> {
    symbol_first(first_table(g), s)
}

/// What one round over the productions of `g` gives each nonterminal, from the sets in `f`.
pub open spec fn first_step(g: Table, f: Seq<Set<Grammer>>) -> Seq<Set<Grammer>> {
    Seq::new(
        g.len(),
        |a: int| Set::new(|x: Grammer| exists|k: int| 0 <= k < g[a].len() && #[trigger] sequence_first(f, g[a][k], 0).contains(x)),
    )
}

/// `u` holds `Empty` and every character of `g`.
pub open spec fn covers(g: Table, u: Set<Grammer>) -> bool {
    &&& u.contains(Grammer::Empty)
    &&& forall|a: int, k: int, j: int|
        0 <= a < g.len() && 0 <= k < g[a].len() && 0 <= j < g[a][k].len() && (#[trigger] g[a][k][j]) is Character
            ==> u.contains(g[a][k][j])
}

pub proof fn lemma_symbol_first_monotone(f1: Seq<Set<Grammer>>, f2: Seq<Set<Grammer>>, s: Grammer)
    requires
        table_le(f1, f2),
    ensures
        symbol_first(f1, s).subset_of(symbol_first(f2, s)),
{
    if let Grammer::Grammer(id) = s {
        if id.0 < f1.len() {
            assert(f1[id.0 as int].subset_of(f2[id.0 as int]));
        }
    }
}

pub proof fn lemma_sequence_first_monotone(f1: Seq<Set<Grammer>>, f2: Seq<Set<Grammer>>, p: Seq<Grammer>, i: int)
    requires
        table_le(f1, f2),
    ensures
        sequence_first(f1, p, i).subset_of(sequence_first(f2, p, i)),
    decreases p.len() - i,
{
    if i < p.len() {
        lemma_symbol_first_monotone(f1, f2, p[i]);
        lemma_sequence_first_monotone(f1, f2, p, i + 1);
    }
}

/// `Empty` is FIRST of `p[i..]` exactly when every symbol there is nullable.
pub proof fn lemma_sequence_nullable(f: Seq<Set<Grammer>>, p: Seq<Grammer>, i: int)
    requires
        0 <= i <= p.len(),
    ensures
        sequence_first(f, p, i).contains(Grammer::Empty) <==> (forall|j: int|
            i <= j < p.len() ==> #[trigger] symbol_first(f, p[j]).contains(Grammer::Empty)),
    decreases p.len() - i,
{
    if i < p.len() {
        lemma_sequence_nullable(f, p, i + 1);
    }
}

/// The FIRST table lies below every closed table.
pub proof fn lemma_first_table_least(g: Table, f: Seq<Set<Grammer>>)
    requires
        first_closed(g, f),
    ensures
        table_le(first_table(g), f),
{
}

/// The FIRST table is itself closed.
pub proof fn lemma_first_table_closed(g: Table)
    ensures
        first_closed(g, first_table(g)),
{
    let t = first_table(g);
    assert forall|a: int, k: int| 0 <= a < g.len() && 0 <= k < g[a].len() implies #[trigger] sequence_first(
        t,
        g[a][k],
        0,
    ).subset_of(t[a]) by {
        assert forall|x: Grammer| sequence_first(t, g[a][k], 0).contains(x) implies t[a].contains(x) by {
            assert forall|f: Seq<Set<Grammer>>| #[trigger] first_closed(g, f) implies f[a].contains(x) by {
                lemma_first_table_least(g, f);
                lemma_sequence_first_monotone(t, f, g[a][k], 0);
                assert(sequence_first(f, g[a][k], 0).subset_of(f[a]));
            }
            assert(t[a] == Set::new(|y: Grammer| forall|f: Seq<Set<Grammer>>| #[trigger] first_closed(g, f) ==> f[a].contains(y)));
        }
    }
}

/// The FIRST table is the fixed point of a round: each FIRST set is the union
/// of the FIRST sets of the productions.
pub proof fn lemma_first_table_fixed_point(g: Table)
    ensures
        first_step(g, first_table(g)) == first_table(g),
{
    let t = first_table(g);
    let s = first_step(g, t);
    lemma_first_table_closed(g);
    assert(table_le(s, t)) by {
        assert forall|a: int| 0 <= a < s.len() implies (#[trigger] s[a]).subset_of(t[a]) by {
            assert forall|x: Grammer| s[a].contains(x) implies t[a].contains(x) by {
                assert(s[a] == Set::new(|y: Grammer| exists|k: int| 0 <= k < g[a].len() && #[trigger] sequence_first(t, g[a][k], 0).contains(y)));
                let k = choose|k: int| 0 <= k < g[a].len() && #[trigger] sequence_first(t, g[a][k], 0).contains(x);
                assert(sequence_first(t, g[a][k], 0).subset_of(t[a]));
            }
        }
    }
    assert(first_closed(g, s)) by {
        assert forall|a: int, k: int| 0 <= a < g.len() && 0 <= k < g[a].len() implies #[trigger] sequence_first(
            s,
            g[a][k],
            0,
        ).subset_of(s[a]) by {
            lemma_sequence_first_monotone(s, t, g[a][k], 0);
        }
    }
    lemma_first_table_least(g, s);
    assert forall|a: int| 0 <= a < g.len() implies s[a] == t[a] by {
        assert(s[a] =~= t[a]);
    }
    assert(s =~= t);
}

/// Every symbol of `p` is nullable in `g`.
pub open spec fn nullable_production(g: Table, p: Seq<Grammer>) -> bool {
    forall|j: int| 0 <= j < p.len() ==> #[trigger] first_of(g, p[j]).contains(Grammer::Empty)
}

/// A nonterminal derives the empty string (its FIRST set holds `Empty`) exactly
/// when one of its productions consists of nullable symbols only; a production
/// `[Empty]` is one such.
pub proof fn lemma_first_nullable(g: Table, a: int)
    requires
        0 <= a < g.len(),
    ensures
        first_table(g)[a].contains(Grammer::Empty) <==> exists|k: int|
            0 <= k < g[a].len() && #[trigger] nullable_production(g, g[a][k]),
{
    let t = first_table(g);
    lemma_first_table_fixed_point(g);
    assert(t[a] == first_step(g, t)[a]);
    if t[a].contains(Grammer::Empty) {
        let k = choose|k: int| 0 <= k < g[a].len() && #[trigger] sequence_first(t, g[a][k], 0).contains(Grammer::Empty);
        lemma_sequence_nullable(t, g[a][k], 0);
        assert forall|j: int| 0 <= j < g[a][k].len() implies #[trigger] first_of(g, g[a][k][j]).contains(Grammer::Empty) by {
            assert(symbol_first(t, g[a][k][j]).contains(Grammer::Empty));
        }
        assert(nullable_production(g, g[a][k]));
    }
    if exists|k: int| 0 <= k < g[a].len() && #[trigger] nullable_production(g, g[a][k]) {
        let k = choose|k: int| 0 <= k < g[a].len() && #[trigger] nullable_production(g, g[a][k]);
        lemma_sequence_nullable(t, g[a][k], 0);
        assert forall|j: int| 0 <= j < g[a][k].len() implies #[trigger] symbol_first(t, g[a][k][j]).contains(Grammer::Empty) by {
            assert(first_of(g, g[a][k][j]).contains(Grammer::Empty));
        }
        assert(sequence_first(t, g[a][k], 0).contains(Grammer::Empty));
        assert(first_step(g, t)[a].contains(Grammer::Empty));
    }
}

/// The table that gives every nonterminal all of `u` is closed when `u` covers `g`.
pub proof fn lemma_first_table_within(g: Table, u: Set<Grammer>)
    requires
        well_formed(g),
        covers(g, u),
    ensures
        forall|a: int| 0 <= a < g.len() ==> (#[trigger] first_table(g)[a]).subset_of(u),
{
    let f = Seq::new(g.len(), |a: int| u);
    assert forall|a: int, k: int| 0 <= a < g.len() && 0 <= k < g[a].len() implies #[trigger] sequence_first(
        f,
        g[a][k],
        0,
    ).subset_of(f[a]) by {
        lemma_sequence_within(g, f, u, a, k, 0);
    }
    lemma_first_table_least(g, f);
}

proof fn lemma_sequence_within(g: Table, f: Seq<Set<Grammer>>, u: Set<Grammer>, a: int, k: int, i: int)
    requires
        well_formed(g),
        covers(g, u),
        f.len() == g.len(),
        forall|b: int| 0 <= b < f.len() ==> (#[trigger] f[b]).subset_of(u),
        0 <= a < g.len(),
        0 <= k < g[a].len(),
        0 <= i,
    ensures
        sequence_first(f, g[a][k], i).subset_of(u),
    decreases g[a][k].len() - i,
{
    let p = g[a][k];
    if i < p.len() {
        lemma_sequence_within(g, f, u, a, k, i + 1);
        assert(production_ok(g, p));
        assert(symbol_ok(g, p[i]));
        if let Grammer::Grammer(id) = p[i] {
            assert(f[id.0 as int].subset_of(u));
        }
        if p[i] is Character {
            assert(u.contains(g[a][k][i]));
        }
    }
}

/// `Empty` followed by every character of the store as a terminal symbol.
pub fn symbol_universe(g: &GrammerSet) -> (r: Vec<Grammer>)
    ensures
        r@.no_duplicates(),
        covers(g@, r@.to_set()),
        forall|x: Grammer| #[trigger] r@.contains(x) ==> x == Grammer::Empty || (x is Character && has_char(
            g@,
            x->Character_0,
        )),
{
    let chars = g.alphabet();
    let mut r: Vec<Grammer> = Vec::new();
    r.push(Grammer::Empty);
    let mut i: usize = 0;
    while i < chars.len()
        invariant
            i <= chars.len(),
            chars@.no_duplicates(),
            r@.len() == i + 1,
            r@[0] == Grammer::Empty,
            forall|m: int| 0 <= m < i ==> r@[m + 1] == Grammer::Character(chars@[m]),
        decreases chars.len() - i,
    {
        r.push(terminal(chars[i]));
        i += 1;
    }
    assert forall|q: int, q2: int| 0 <= q < r@.len() && 0 <= q2 < r@.len() && q != q2 implies r@[q] != r@[q2] by {
        if q > 0 && q2 > 0 {
            assert(chars@[q - 1] != chars@[q2 - 1]);
        } else if q == 0 {
            assert(r@[q2] == Grammer::Character(chars@[q2 - 1]));
        } else {
            assert(r@[q] == Grammer::Character(chars@[q - 1]));
        }
    }
    assert(r@.contains(r@[0]));
    assert forall|x: Grammer| #[trigger] r@.contains(x) implies x == Grammer::Empty || (x is Character && has_char(
        g@,
        x->Character_0,
    )) by {
        let q = choose|q: int| 0 <= q < r@.len() && r@[q] == x;
        if q > 0 {
            assert(chars@.contains(chars@[q - 1]));
        }
    }
    assert forall|a: int, k: int, j: int|
        0 <= a < g@.len() && 0 <= k < g@[a].len() && 0 <= j < g@[a][k].len() && (#[trigger] g@[a][k][j]) is Character
            implies r@.to_set().contains(g@[a][k][j]) by {
        let c = g@[a][k][j]->Character_0;
        assert(g@[a][k][j] == Grammer::Character(c));
        assert(g@[a][k].contains(Grammer::Character(c)));
        assert(chars@.contains(c));
        let m = choose|m: int| 0 <= m < chars@.len() && chars@[m] == c;
        assert(r@[m + 1] == Grammer::Character(c));
    }
    r
}

/// A copy of a vector of symbols.
pub(crate) fn copy_symbols(v: &Vec<Grammer>) -> (r: Vec<Grammer>)
    ensures
        r@ == v@,
{
    let mut r: Vec<Grammer> = Vec::new();
    let mut i: usize = 0;
    while i < v.len()
        invariant
            i <= v.len(),
            r@ == v@.take(i as int),
        decreases v.len() - i,
    {
        r.push(v[i]);
        i += 1;
        assert(r@ =~= v@.take(i as int));
    }
    assert(v@.take(v.len() as int) =~= v@);
    r
}

/// FIRST of one symbol, with the sets of nonterminals read from `f`.
pub(crate) fn symbol_first_of(f: &Vec<Vec<Grammer>>, s: Grammer) -> (r: Vec<Grammer>)
    requires
        all_distinct(f@),
        s != Grammer::Dot,
        s is Grammer ==> s->Grammer_0.0 < f@.len(),
    ensures
        r@.no_duplicates(),
        r@.to_set() == symbol_first(sets_of(f@), s),
{
    match s {
        Grammer::Grammer(id) => {
            proof {
                assert(f@.len() == f.len());
            }
            let i = id.0 as usize;
            let r = copy_symbols(&f[i]);
            assert(f@[i as int]@.no_duplicates());
            assert(sets_of(f@)[i as int] == f@[i as int]@.to_set());
            assert(symbol_first(sets_of(f@), s) == sets_of(f@)[i as int]);
            r
        },
        _ => {
            let mut r: Vec<Grammer> = Vec::new();
            r.push(s);
            assert(r@.to_set() =~= set![s]);
            r
        },
    }
}

/// FIRST of a production, with the sets of nonterminals read from `f`.
fn production_first(f: &Vec<Vec<Grammer>>, p: &Vec<Grammer>) -> (r: Vec<Grammer>)
    requires
        all_distinct(f@),
        forall|j: int| 0 <= j < p@.len() ==> #[trigger] p@[j] != Grammer::Dot,
        forall|j: int| 0 <= j < p@.len() && (#[trigger] p@[j]) is Grammer ==> p@[j]->Grammer_0.0 < f@.len(),
    ensures
        r@.no_duplicates(),
        r@.to_set() == sequence_first(sets_of(f@), p@, 0),
{
    let ghost t = sets_of(f@);
    let mut acc: Vec<Grammer> = Vec::new();
    let mut i: usize = 0;
    while i < p.len()
        invariant
            i <= p@.len(),
            all_distinct(f@),
            t == sets_of(f@),
            forall|j: int| 0 <= j < p@.len() ==> #[trigger] p@[j] != Grammer::Dot,
            forall|j: int| 0 <= j < p@.len() && (#[trigger] p@[j]) is Grammer ==> p@[j]->Grammer_0.0 < f@.len(),
            acc@.no_duplicates(),
            sequence_first(t, p@, 0) == acc@.to_set().union(sequence_first(t, p@, i as int)),
        decreases p@.len() - i,
    {
        let h = symbol_first_of(f, p[i]);
        if contains(&h, Grammer::Empty) {
            merge(&mut acc, &h, true);
            assert(sequence_first(t, p@, 0) =~= acc@.to_set().union(sequence_first(t, p@, i + 1)));
            i += 1;
        } else {
            merge(&mut acc, &h, false);
            assert(sequence_first(t, p@, 0) =~= acc@.to_set());
            return acc;
        }
    }
    let mut last: Vec<Grammer> = Vec::new();
    last.push(Grammer::Empty);
    assert(last@.to_set() =~= set![Grammer::Empty]);
    merge(&mut acc, &last, false);
    assert(sequence_first(t, p@, 0) =~= acc@.to_set());
    acc
}

/// The productions of `g` from identifier `a` on, or from production `k` of `a`
/// on, already add nothing to the sets of `f`.
pub open spec fn first_settled(g: Table, f: Seq<Set<Grammer>>, a: int, k: int) -> bool {
    &&& forall|a2: int, k2: int|
        0 <= a2 < a && 0 <= k2 < g[a2].len() ==> #[trigger] sequence_first(f, g[a2][k2], 0).subset_of(f[a2])
    &&& forall|k2: int| 0 <= k2 < k ==> #[trigger] sequence_first(f, g[a][k2], 0).subset_of(f[a])
}

/// One round over every production of `g`: adds to the entry of each
/// nonterminal the FIRST set of each of its productions, read from the entries
/// as they stand. Tells whether any entry grew, which happens exactly when the
/// entries were not yet closed under the productions.
pub fn first_pass(g: &GrammerSet, cur: &mut Vec<Vec<Grammer>>) -> (changed: bool)
    requires
        well_formed(g@),
        old(cur)@.len() == g@.len(),
        all_distinct(old(cur)@),
        table_le(sets_of(old(cur)@), first_table(g@)),
    ensures
        final(cur)@.len() == g@.len(),
        all_distinct(final(cur)@),
        table_le(sets_of(final(cur)@), first_table(g@)),
        table_le(sets_of(old(cur)@), sets_of(final(cur)@)),
        changed == !first_closed(g@, sets_of(old(cur)@)),
        !changed ==> same_entries(final(cur)@, old(cur)@),
        changed ==> total(final(cur)@) > total(old(cur)@),
{
    let ghost start = cur@;
    let ghost t = first_table(g@);
    proof {
        lemma_first_table_closed(g@);
    }
    let mut changed = false;
    let mut a: usize = 0;
    while a < g.rules.len()
        invariant
            a <= g@.len(),
            well_formed(g@),
            t == first_table(g@),
            first_closed(g@, t),
            cur@.len() == g@.len(),
            all_distinct(cur@),
            table_le(sets_of(cur@), t),
            table_le(sets_of(start), sets_of(cur@)),
            total(cur@) >= total(start),
            changed ==> total(cur@) > total(start),
            changed ==> !first_closed(g@, sets_of(start)),
            !changed ==> same_entries(cur@, start),
            !changed ==> first_settled(g@, sets_of(start), a as int, 0),
        decreases g@.len() - a,
    {
        let mut k: usize = 0;
        while k < g.rules[a].len()
            invariant
                a < g@.len(),
                k <= g@[a as int].len(),
                well_formed(g@),
                t == first_table(g@),
                first_closed(g@, t),
                cur@.len() == g@.len(),
                all_distinct(cur@),
                table_le(sets_of(cur@), t),
                table_le(sets_of(start), sets_of(cur@)),
                total(cur@) >= total(start),
                changed ==> total(cur@) > total(start),
                changed ==> !first_closed(g@, sets_of(start)),
                !changed ==> same_entries(cur@, start),
                !changed ==> first_settled(g@, sets_of(start), a as int, k as int),
            decreases g@[a as int].len() - k,
        {
            let p = &g.rules[a][k];
            let ghost pv = g@[a as int][k as int];
            assert(p@ == pv);
            assert(production_ok(g@, pv));
            assert forall|j: int| 0 <= j < p@.len() implies #[trigger] p@[j] != Grammer::Dot && (p@[j] is Grammer
                ==> p@[j]->Grammer_0.0 < cur@.len()) by {
                assert(symbol_ok(g@, pv[j]));
            }
            let sf = production_first(cur, p);
            let ghost before = cur@;
            let ghost s0 = sets_of(before);
            let ch = merge(&mut cur[a], &sf, false);
            proof {
                let ia = a as int;
                lemma_total_update(before, ia, cur@[ia]);
                assert(cur@ == before.update(ia, cur@[ia]));
                lemma_sequence_first_monotone(s0, t, pv, 0);
                assert(sequence_first(t, g@[ia][k as int], 0).subset_of(t[ia]));
                assert(sf@.to_set() == sequence_first(s0, pv, 0));
                assert(s0[ia].subset_of(t[ia]));
                assert(sets_of(cur@)[ia] == s0[ia].union(sf@.to_set()));
                assert(table_le(sets_of(cur@), t)) by {
                    assert forall|b: int| 0 <= b < cur@.len() implies (#[trigger] sets_of(cur@)[b]).subset_of(t[b]) by {
                        if b != ia {
                            assert(sets_of(cur@)[b] == s0[b]);
                        }
                    }
                }
                assert(table_le(sets_of(start), sets_of(cur@))) by {
                    assert forall|b: int| 0 <= b < cur@.len() implies (#[trigger] sets_of(start)[b]).subset_of(sets_of(cur@)[b]) by {
                        assert(sets_of(start)[b].subset_of(s0[b]));
                        if b != ia {
                            assert(sets_of(cur@)[b] == s0[b]);
                        }
                    }
                }
                if ch && first_closed(g@, sets_of(start)) {
                    lemma_first_table_least(g@, sets_of(start));
                    assert forall|b: int| 0 <= b < cur@.len() implies #[trigger] t[b] == s0[b] by {
                        assert(t[b].subset_of(sets_of(start)[b]));
                        assert(sets_of(start)[b].subset_of(s0[b]));
                        assert(s0[b] =~= t[b]);
                    }
                    assert(s0 =~= t);
                }
                if !changed && !ch {
                    assert(cur@[ia]@ == before[ia]@);
                    assert(same_entries(cur@, start));
                    assert(s0 =~= sets_of(start));
                }
            }
            if ch {
                changed = true;
            }
            k += 1;
        }
        a += 1;
    }
    changed
}

/// The FIRST sets of every nonterminal of `g`, indexed by identifier.
pub fn first_sets(g: &GrammerSet) -> (r: Vec<Vec<Grammer>>)
    requires
        well_formed(g@),
    ensures
        r@.len() == g@.len(),
        all_distinct(r@),
        sets_of(r@) == first_table(g@),
{
    let univ = symbol_universe(g);
    let ghost t = first_table(g@);
    let ghost cap = univ@.len();
    proof {
        lemma_first_table_within(g@, univ@.to_set());
    }
    let mut cur: Vec<Vec<Grammer>> = Vec::new();
    let mut i: usize = 0;
    while i < g.rules.len()
        invariant
            i <= g@.len(),
            cur@.len() == i,
            forall|b: int| 0 <= b < i ==> (#[trigger] cur@[b])@ == Seq::<Grammer>::empty(),
        decreases g@.len() - i,
    {
        cur.push(Vec::new());
        i += 1;
    }
    assert(table_le(sets_of(cur@), t)) by {
        assert forall|b: int| 0 <= b < cur@.len() implies (#[trigger] sets_of(cur@)[b]).subset_of(t[b]) by {
            assert(cur@[b]@ == Seq::<Grammer>::empty());
        }
    }
    proof {
        lemma_cur_bound(cur@, t, univ@);
    }
    loop
        invariant
            well_formed(g@),
            t == first_table(g@),
            cap == univ@.len(),
            univ@.no_duplicates(),
            forall|a: int| 0 <= a < g@.len() ==> (#[trigger] t[a]).subset_of(univ@.to_set()),
            cur@.len() == g@.len(),
            all_distinct(cur@),
            table_le(sets_of(cur@), t),
            0 <= total(cur@) <= g@.len() * cap,
        ensures
            cur@.len() == g@.len(),
            all_distinct(cur@),
            sets_of(cur@) == t,
        decreases g@.len() * cap - total(cur@),
    {
        let ghost before = cur@;
        let changed = first_pass(g, &mut cur);
        proof {
            lemma_cur_bound(cur@, t, univ@);
        }
        if !changed {
            proof {
                assert(sets_of(cur@) =~= sets_of(before));
                lemma_first_table_least(g@, sets_of(before));
                assert forall|b: int| 0 <= b < cur@.len() implies #[trigger] sets_of(cur@)[b] == t[b] by {
                    assert(sets_of(cur@)[b] =~= t[b]);
                }
                assert(sets_of(cur@) =~= t);
            }
            break;
        }
    }
    cur
}

proof fn lemma_cur_bound(cur: Seq<Vec<Grammer>>, t: Seq<Set<Grammer>>, univ: Seq<Grammer>)
    requires
        univ.no_duplicates(),
        all_distinct(cur),
        table_le(sets_of(cur), t),
        forall|a: int| 0 <= a < t.len() ==> (#[trigger] t[a]).subset_of(univ.to_set()),
    ensures
        0 <= total(cur) <= cur.len() * univ.len(),
{
    assert forall|a: int| 0 <= a < cur.len() implies (#[trigger] cur[a])@.len() <= univ.len() by {
        assert(sets_of(cur)[a].subset_of(t[a]));
        assert(t[a].subset_of(univ.to_set()));
        lemma_distinct_len_bound(cur[a]@, univ);
    }
    lemma_total_bound(cur, univ.len() as int);
}

/// FIRST of one symbol of the store.
pub fn create_first_set(set: &GrammerSet, symbol: &Grammer) -> (r: Vec<Grammer>)
    requires
        well_formed(set@),
        symbol_ok(set@, *symbol),
    ensures
        r@.no_duplicates(),
        r@.to_set() == first_of(set@, *symbol),
{
    let table = first_sets(set);
    symbol_first_of(&table, *symbol)
}

} // verus!
