//! The vocabulary of a normalized grammar and the store that holds its productions.

use vstd::prelude::*;

verus! {

/// Names one nonterminal of a grammar, whether written by the user or introduced
/// while desugaring.
#[derive(Debug, PartialEq, Eq, Hash, Clone, Copy, Structural)]
pub struct GrammerIdentifier(pub u64);

/// One symbol of a production.
#[derive(Debug, PartialEq, Eq, Hash, Clone, Copy, Structural)]
pub enum Grammer {
    /// The zero-length production.
    Empty,
    /// Placeholder reserved for item-set construction; never part of a grammar.
    Dot,
    /// A reference to another nonterminal of the store.
    Grammer(GrammerIdentifier),
    /// A single literal character.
    Character(char),
}

/// The productions of a grammar as a table indexed by nonterminal identifier:
/// `g[id]` lists the alternatives of `id`, each an ordered sequence of symbols.
pub type Table = Seq<Seq<Seq<Grammer>>>;

/// The grammar store: for each identifier below `rules.len()`, its alternatives.
pub struct GrammerSet {
    pub rules: Vec<Vec<Vec<Grammer>>>,
}

impl View for GrammerSet {
    type V = Table;

    open spec fn view(&self) -> Table {
        Seq::new(self.rules@.len(), |i: int| Seq::new(self.rules@[i]@.len(), |k: int| self.rules@[i]@[k]@))
    }
}

/// The identifiers that carry at least one production: the keys of the store.
pub open spec fn keys(g: Table) -> Set<int> {
    Set::new(|id: int| 0 <= id < g.len() && g[id].len() > 0)
}

/// A symbol that may stand in a production of `g`: no placeholder, and no
/// reference outside the table.
pub open spec fn symbol_ok(g: Table, s: Grammer) -> bool {
    match s {
        Grammer::Dot => false,
        Grammer::Grammer(id) => id.0 < g.len(),
        _ => true,
    }
}

/// A production is never empty, and `Empty` stands only as its sole symbol.
pub open spec fn production_ok(g: Table, p: Seq<Grammer>) -> bool {
    &&& p.len() > 0
    &&& forall|j: int| 0 <= j < p.len() ==> symbol_ok(g, #[trigger] p[j])
    &&& p.len() > 1 ==> forall|j: int| 0 <= j < p.len() ==> #[trigger] p[j] != Grammer::Empty
}

/// Every production of the store is well formed.
pub open spec fn well_formed(g: Table) -> bool {
    forall|a: int, k: int| 0 <= a < g.len() && 0 <= k < g[a].len() ==> production_ok(g, #[trigger] g[a][k])
}

/// The terminal symbol that matches `c`.
pub fn terminal(c: char) -> (r: Grammer)
    ensures
        r == Grammer::Character(c),
{
    Grammer::Character(c)
}

/// The character `c` stands in some production of `g`.
pub open spec fn has_char(g: Table, c: char) -> bool {
    exists|a: int, k: int| 0 <= a < g.len() && 0 <= k < g[a].len() && #[trigger] g[a][k].contains(Grammer::Character(c))
}

/// Adds to `r` each character of `p` that it lacks.
fn add_chars(r: &mut Vec<char>, p: &Vec<Grammer>)
    requires
        old(r)@.no_duplicates(),
    ensures
        final(r)@.no_duplicates(),
        forall|c: char| #[trigger] final(r)@.contains(c) <==> (old(r)@.contains(c) || p@.contains(Grammer::Character(c))),
{
    let ghost start = r@;
    let mut j: usize = 0;
    while j < p.len()
        invariant
            j <= p.len(),
            r@.no_duplicates(),
            forall|c: char| #[trigger] r@.contains(c) <==> (start.contains(c) || p@.take(j as int).contains(Grammer::Character(c))),
        decreases p.len() - j,
    {
        let ghost before = r@;
        assert(p@.take(j + 1) == p@.take(j as int).push(p@[j as int]));
        if let Grammer::Character(c) = p[j] {
            let mut found = false;
            let mut m: usize = 0;
            while m < r.len()
                invariant
                    m <= r.len(),
                    r@ == before,
                    found == (exists|q: int| 0 <= q < m && r@[q] == c),
                decreases r.len() - m,
            {
                if r[m] == c {
                    found = true;
                }
                m += 1;
            }
            if !found {
                r.push(c);
                assert forall|q: int, q2: int| 0 <= q < q2 < r@.len() implies r@[q] != r@[q2] by {
                    if q2 == r@.len() - 1 {
                        assert(before[q] != c);
                    } else {
                        assert(before[q] != before[q2]);
                    }
                }
                assert(r@[r@.len() - 1] == c);
            } else {
                assert(before.contains(c));
            }
            assert(r@.contains(c));
        }
        assert forall|c2: char| #[trigger] r@.contains(c2) <==> (start.contains(c2) || p@.take(j + 1).contains(Grammer::Character(c2))) by {
            let t0 = p@.take(j as int);
            let t1 = p@.take(j + 1);
            assert(t1.len() == j + 1);
            assert(t1[j as int] == p@[j as int]);
            if t0.contains(Grammer::Character(c2)) {
                let q = choose|q: int| 0 <= q < t0.len() && t0[q] == Grammer::Character(c2);
                assert(t1[q] == Grammer::Character(c2));
            }
            if r@.contains(c2) && !before.contains(c2) {
                assert(r@ == before.push(p@[j as int]->Character_0));
                assert(c2 == p@[j as int]->Character_0);
                assert(t1[j as int] == Grammer::Character(c2));
            }
            if t1.contains(Grammer::Character(c2)) && !t0.contains(Grammer::Character(c2)) {
                let q = choose|q: int| 0 <= q < t1.len() && t1[q] == Grammer::Character(c2);
                if q < j {
                    assert(t0[q] == Grammer::Character(c2));
                }
                assert(p@[j as int] == Grammer::Character(c2));
            }
            if before.contains(c2) {
                let q = choose|q: int| 0 <= q < before.len() && before[q] == c2;
                assert(r@[q] == c2);
            }
            assert(before.contains(c2) <==> (start.contains(c2) || t0.contains(Grammer::Character(c2))));
            assert(r@.contains(c2) ==> (start.contains(c2) || t1.contains(Grammer::Character(c2))));
            assert((start.contains(c2) || t1.contains(Grammer::Character(c2))) ==> r@.contains(c2));
        }
        j += 1;
    }
    assert(p@.take(p.len() as int) == p@);
}

impl GrammerSet {
    /// The characters that stand in the productions, each once.
    pub fn alphabet(&self) -> (r: Vec<char>)
        ensures
            r@.no_duplicates(),
            forall|c: char| #[trigger] r@.contains(c) <==> has_char(self@, c),
    {
        let mut r: Vec<char> = Vec::new();
        let mut a: usize = 0;
        while a < self.rules.len()
            invariant
                a <= self.rules.len(),
                r@.no_duplicates(),
                forall|c: char| #[trigger] r@.contains(c) <==> (exists|a2: int, k: int|
                    0 <= a2 < a && 0 <= k < self@[a2].len() && #[trigger] self@[a2][k].contains(Grammer::Character(c))),
            decreases self.rules.len() - a,
        {
            let ghost at_a = r@;
            let mut k: usize = 0;
            while k < self.rules[a].len()
                invariant
                    a < self.rules.len(),
                    k <= self.rules[a as int]@.len(),
                    r@.no_duplicates(),
                    forall|c: char| #[trigger] r@.contains(c) <==> (at_a.contains(c) || exists|k2: int|
                        0 <= k2 < k && #[trigger] self@[a as int][k2].contains(Grammer::Character(c))),
                decreases self.rules[a as int]@.len() - k,
            {
                let ghost before = r@;
                add_chars(&mut r, &self.rules[a][k]);
                assert forall|c: char| #[trigger] r@.contains(c) <==> (at_a.contains(c) || exists|k2: int|
                    0 <= k2 < k + 1 && #[trigger] self@[a as int][k2].contains(Grammer::Character(c))) by {
                    assert(self@[a as int][k as int] == self.rules@[a as int]@[k as int]@);
                    if r@.contains(c) && !before.contains(c) {
                        assert(self@[a as int][k as int].contains(Grammer::Character(c)));
                    }
                }
                k += 1;
            }
            assert forall|c: char| #[trigger] r@.contains(c) <==> (exists|a2: int, k: int|
                0 <= a2 < a + 1 && 0 <= k < self@[a2].len() && #[trigger] self@[a2][k].contains(Grammer::Character(c))) by {
                if r@.contains(c) && !at_a.contains(c) {
                    let k2 = choose|k2: int| 0 <= k2 < self.rules[a as int]@.len() && #[trigger] self@[a as int][k2].contains(Grammer::Character(c));
                    assert(0 <= a < a + 1 && 0 <= k2 < self@[a as int].len() && self@[a as int][k2].contains(Grammer::Character(c)));
                }
                if !at_a.contains(c) && (exists|a2: int, k: int|
                    0 <= a2 < a + 1 && 0 <= k < self@[a2].len() && #[trigger] self@[a2][k].contains(Grammer::Character(c))) {
                    let (a2, k2) = choose|a2: int, k: int|
                        0 <= a2 < a + 1 && 0 <= k < self@[a2].len() && #[trigger] self@[a2][k].contains(Grammer::Character(c));
                    assert(a2 == a);
                    assert(exists|k3: int| 0 <= k3 < k && #[trigger] self@[a as int][k3].contains(Grammer::Character(c)));
                }
            }
            a += 1;
        }
        r
    }

    /// An empty store.
    pub fn new() -> (r: GrammerSet)
        ensures
            r@ == Seq::<Seq<Seq<Grammer>>>::empty(),
    {
        let r = GrammerSet { rules: Vec::new() };
        assert(r@ =~= Seq::<Seq<Seq<Grammer>>>::empty());
        r
    }

    /// Opens a slot without productions for a new identifier, and returns it.
    pub fn push_slot(&mut self) -> (id: usize)
        ensures
            id == old(self)@.len(),
            final(self)@ == old(self)@.push(Seq::<Seq<Grammer>>::empty()),
    {
        let id = self.rules.len();
        self.rules.push(Vec::new());
        assert(self@ =~= old(self)@.push(Seq::<Seq<Grammer>>::empty())) by {
            assert forall|i: int| 0 <= i < self@.len() implies #[trigger] self@[i] =~= old(self)@.push(
                Seq::<Seq<Grammer>>::empty(),
            )[i] by {
                if i < id {
                    assert(self.rules@[i] == old(self).rules@[i]);
                }
            }
        }
        id
    }

    /// Appends the production `p` to the alternatives of `id`.
    pub fn push_production(&mut self, id: usize, p: Vec<Grammer>)
        requires
            id < old(self)@.len(),
        ensures
            final(self)@ == old(self)@.update(id as int, old(self)@[id as int].push(p@)),
    {
        let ghost pv = p@;
        self.rules[id].push(p);
        assert(self@ =~= old(self)@.update(id as int, old(self)@[id as int].push(pv))) by {
            assert forall|i: int| 0 <= i < self@.len() implies #[trigger] self@[i] =~= old(self)@.update(
                id as int,
                old(self)@[id as int].push(pv),
            )[i] by {
                if i != id {
                    assert(self.rules@[i] == old(self).rules@[i]);
                }
            }
        }
    }

    /// Number of identifiers that have a slot in the store.
    pub fn len(&self) -> (r: usize)
        ensures
            r == self@.len(),
    {
        self.rules.len()
    }
}

} // verus!
