//! Desugaring of EBNF rule trees into the grammar store, and the annotation
//! of the resulting grammar with its FIRST and FOLLOW sets.

use vstd::prelude::*;
use crate::symbol::{keys, terminal, Grammer, GrammerIdentifier, GrammerSet, Table, symbol_ok, production_ok, well_formed};
use crate::parser::{Definition, Rule};
use crate::symbol::has_char;
use crate::symset::{sets_of, all_distinct};
use crate::first::{first_of, first_sets, first_table, copy_symbols};
use crate::follow::{follow_table, create_follow_set};

verus! {

broadcast use vstd::std_specs::vec::group_vec_axioms;

/// Why a grammar could not be built, as a value.
pub enum BuildFailure {
    UnknownIdentifier(Seq<char>),
    UnsupportedConstruct,
}

/// Why a grammar could not be built.
#[derive(Debug)]
pub enum BuildError {
    /// A rule refers to a name that no definition has.
    UnknownIdentifier(String),
    /// A set difference (`a - b`), which is not supported.
    UnsupportedConstruct,
}

impl View for BuildError {
    type V = BuildFailure;

    open spec fn view(&self) -> BuildFailure {
        match self {
            BuildError::UnknownIdentifier(s) => BuildFailure::UnknownIdentifier(s@),
            BuildError::UnsupportedConstruct => BuildFailure::UnsupportedConstruct,
        }
    }
}

/// The identifier of the definition named `s`: the last definition of that name.
pub open spec fn resolve(names: Seq<Seq<char>>, s: Seq<char>) -> Option<int>
    decreases names.len(),
{
    if names.len() == 0 {
        None
    } else if names.last() == s {
        Some(names.len() - 1)
    } else {
        resolve(names.drop_last(), s)
    }
}

/// The nonterminal symbol of identifier `id`.
pub open spec fn nt(id: int) -> Grammer {
    Grammer::Grammer(GrammerIdentifier(id as u64))
}

/// A production as stored: an empty sequence of symbols becomes `[Empty]`.
pub open spec fn finish(s: Seq<Grammer>) -> Seq<Grammer> {
    if s.len() == 0 {
        seq![Grammer::Empty]
    } else {
        s
    }
}

/// `g` with the production `p` appended to the alternatives of `id`.
pub open spec fn append_production(g: Table, id: int, p: Seq<Grammer>) -> Table {
    g.update(id, g[id].push(p))
}

/// Desugars `r` against the store `g`: the symbols that `r` contributes to the
/// production being built, and the store with the helper nonterminals that
/// `r` introduces. Fresh identifiers are taken from the end of the store.
pub open spec fn desugar(names: Seq<Seq<char>>, r: Rule, g: Table) -> Result<(Seq<Grammer>, Table), BuildFailure>
    decreases r, 0int,
{
    match r {
        Rule::Character(c) => Ok((seq![Grammer::Character(c)], g)),
        Rule::IdentifierRef(s) => match resolve(names, s@) {
            Some(i) => Ok((seq![nt(i)], g)),
            None => Err(BuildFailure::UnknownIdentifier(s@)),
        },
        Rule::Exclude { .. } => Err(BuildFailure::UnsupportedConstruct),
        Rule::Sequence(rs) => desugar_seq(names, rs@, 0, g),
        Rule::Or(rs) => {
            let n = g.len() as int;
            match desugar_alts(names, rs@, 0, n, g.push(seq![])) {
                Ok(g2) => Ok((seq![nt(n)], g2)),
                Err(e) => Err(e),
            }
        },
        Rule::Repeat(x) => {
            let n = g.len() as int;
            match desugar(names, *x, g.push(seq![])) {
                Ok((s, g2)) => Ok((
                    seq![nt(n)],
                    append_production(append_production(g2, n, s.push(nt(n))), n, seq![Grammer::Empty]),
                )),
                Err(e) => Err(e),
            }
        },
        Rule::Option(x) => {
            let n = g.len() as int;
            match desugar(names, *x, g.push(seq![])) {
                Ok((s, g2)) => Ok((
                    seq![nt(n)],
                    append_production(append_production(g2, n, finish(s)), n, seq![Grammer::Empty]),
                )),
                Err(e) => Err(e),
            }
        },
        Rule::Group(x) => {
            let n = g.len() as int;
            match desugar(names, *x, g.push(seq![])) {
                Ok((s, g2)) => Ok((seq![nt(n)], append_production(g2, n, finish(s)))),
                Err(e) => Err(e),
            }
        },
    }
}

/// Desugars the parts `rs[i..]` of a sequence one after the other.
pub open spec fn desugar_seq(names: Seq<Seq<char>>, rs: Seq<Box<Rule>>, i: int, g: Table) -> Result<
    (Seq<Grammer>, Table),
    BuildFailure,
>
    decreases rs, rs.len() - i,
{
    if i < 0 || i >= rs.len() {
        Ok((seq![], g))
    } else {
        match desugar(names, *rs[i], g) {
            Ok((s, g1)) => match desugar_seq(names, rs, i + 1, g1) {
                Ok((s2, g2)) => Ok((s + s2, g2)),
                Err(e) => Err(e),
            },
            Err(e) => Err(e),
        }
    }
}

/// Desugars the alternatives `rs[i..]`, each into a production of `n`.
pub open spec fn desugar_alts(names: Seq<Seq<char>>, rs: Seq<Box<Rule>>, i: int, n: int, g: Table) -> Result<
    Table,
    BuildFailure,
>
    decreases rs, rs.len() - i,
{
    if i < 0 || i >= rs.len() {
        Ok(g)
    } else {
        match desugar(names, *rs[i], g) {
            Ok((s, g1)) => desugar_alts(names, rs, i + 1, n, append_production(g1, n, finish(s))),
            Err(e) => Err(e),
        }
    }
}

/// The names of the definitions, in order.
pub open spec fn definition_names(defs: Seq<Box<Definition>>) -> Seq<Seq<char>> {
    Seq::new(defs.len(), |i: int| defs[i].identifier@)
}

/// The rules of the definitions, in order.
pub open spec fn definition_rules(defs: Seq<Box<Definition>>) -> Seq<Rule> {
    Seq::new(defs.len(), |i: int| *defs[i].rule)
}

/// The identifier under which definition `i` stores its production.
pub open spec fn definition_id(names: Seq<Seq<char>>, i: int) -> int {
    match resolve(names, names[i]) {
        Some(j) => j,
        None => i,
    }
}

/// The store before any definition is desugared: a slot for each named rule,
/// and one more that no rule takes, so that helpers start above it.
pub open spec fn initial_table(n: nat) -> Table {
    Seq::new(n + 1, |i: int| Seq::<Seq<Grammer>>::empty())
}

/// Desugars definition rule `r` into the productions of its identifier `id`:
/// a rule that is an alternation gives each alternative as a production of
/// `id` itself; any other rule gives one production.
pub open spec fn desugar_definition(names: Seq<Seq<char>>, r: Rule, id: int, g: Table) -> Result<Table, BuildFailure> {
    match r {
        Rule::Or(rs) => desugar_alts(names, rs@, 0, id, g),
        _ => match desugar(names, r, g) {
            Ok((s, g1)) => Ok(append_production(g1, id, finish(s))),
            Err(e) => Err(e),
        },
    }
}

/// Desugars the definitions from `i` on, each into the productions of its own identifier.
pub open spec fn build_from(names: Seq<Seq<char>>, rules: Seq<Rule>, i: int, g: Table) -> Result<Table, BuildFailure>
    decreases rules.len() - i,
{
    if i < 0 || i >= rules.len() {
        Ok(g)
    } else {
        match desugar_definition(names, rules[i], definition_id(names, i), g) {
            Ok(g1) => build_from(names, rules, i + 1, g1),
            Err(e) => Err(e),
        }
    }
}

/// The store built from the definitions named `names` with rules `rules`.
pub open spec fn build(names: Seq<Seq<char>>, rules: Seq<Rule>) -> Result<Table, BuildFailure> {
    build_from(names, rules, 0, initial_table(names.len()))
}

/// `acc` put in front of the symbols of a desugaring result.
pub open spec fn prepend(acc: Seq<Grammer>, r: Result<(Seq<Grammer>, Table), BuildFailure>) -> Result<
    (Seq<Grammer>, Table),
    BuildFailure,
> {
    match r {
        Ok((s, g)) => Ok((acc + s, g)),
        Err(e) => Err(e),
    }
}

pub proof fn lemma_resolve(names: Seq<Seq<char>>, s: Seq<char>)
    ensures
        match resolve(names, s) {
            Some(j) => 0 <= j < names.len() && names[j] == s && forall|j2: int| j < j2 < names.len() ==> names[j2] != s,
            None => forall|j2: int| 0 <= j2 < names.len() ==> names[j2] != s,
        },
    decreases names.len(),
{
    if names.len() > 0 {
        let d = names.drop_last();
        lemma_resolve(d, s);
        assert(names.last() == names[names.len() - 1]);
        if names.last() != s {
            assert forall|j2: int| 0 <= j2 < d.len() implies names[j2] == #[trigger] d[j2] by {}
            assert(resolve(names, s) == resolve(d, s));
            if let Some(j) = resolve(d, s) {
                assert(names[j] == d[j]);
                assert forall|j2: int| j < j2 < names.len() implies names[j2] != s by {
                    if j2 < d.len() {
                        assert(names[j2] == d[j2]);
                    }
                }
            } else {
                assert forall|j2: int| 0 <= j2 < names.len() implies names[j2] != s by {
                    if j2 < d.len() {
                        assert(names[j2] == d[j2]);
                    }
                }
            }
        }
    }
}

/// Desugaring only adds slots, and leaves the slots that were there untouched.
pub proof fn lemma_desugar_frame(names: Seq<Seq<char>>, r: Rule, g: Table)
    ensures
        desugar(names, r, g) matches Ok((s, g2)) ==> g2.len() >= g.len() && forall|id: int|
            0 <= id < g.len() ==> #[trigger] g2[id] == g[id],
    decreases r, 0int,
{
    match r {
        Rule::Sequence(rs) => {
            lemma_seq_frame(names, rs@, 0, g);
        },
        Rule::Or(rs) => {
            lemma_alts_frame(names, rs@, 0, g.len() as int, g.push(seq![]));
        },
        Rule::Repeat(x) => {
            lemma_desugar_frame(names, *x, g.push(seq![]));
        },
        Rule::Option(x) => {
            lemma_desugar_frame(names, *x, g.push(seq![]));
        },
        Rule::Group(x) => {
            lemma_desugar_frame(names, *x, g.push(seq![]));
        },
        _ => {},
    }
}

pub proof fn lemma_seq_frame(names: Seq<Seq<char>>, rs: Seq<Box<Rule>>, i: int, g: Table)
    ensures
        desugar_seq(names, rs, i, g) matches Ok((s, g2)) ==> g2.len() >= g.len() && forall|id: int|
            0 <= id < g.len() ==> #[trigger] g2[id] == g[id],
    decreases rs, rs.len() - i,
{
    if 0 <= i < rs.len() {
        lemma_desugar_frame(names, *rs[i], g);
        if let Ok((s, g1)) = desugar(names, *rs[i], g) {
            lemma_seq_frame(names, rs, i + 1, g1);
        }
    }
}

pub proof fn lemma_alts_frame(names: Seq<Seq<char>>, rs: Seq<Box<Rule>>, i: int, n: int, g: Table)
    requires
        0 <= n < g.len(),
    ensures
        desugar_alts(names, rs, i, n, g) matches Ok(g2) ==> g2.len() >= g.len() && forall|id: int|
            0 <= id < g.len() && id != n ==> #[trigger] g2[id] == g[id],
    decreases rs, rs.len() - i,
{
    if 0 <= i < rs.len() {
        lemma_desugar_frame(names, *rs[i], g);
        if let Ok((s, g1)) = desugar(names, *rs[i], g) {
            lemma_alts_frame(names, rs, i + 1, n, append_production(g1, n, finish(s)));
        }
    }
}

/// The symbols `s` may stand in a production of `g`, and none is `Empty`.
pub open spec fn body_ok(g: Table, s: Seq<Grammer>) -> bool {
    forall|j: int| 0 <= j < s.len() ==> symbol_ok(g, #[trigger] s[j]) && s[j] != Grammer::Empty
}

proof fn lemma_body_grow(g: Table, g2: Table, s: Seq<Grammer>)
    requires
        body_ok(g, s),
        g2.len() >= g.len(),
    ensures
        body_ok(g2, s),
{
}

proof fn lemma_finish_ok(g: Table, s: Seq<Grammer>)
    requires
        body_ok(g, s),
    ensures
        production_ok(g, finish(s)),
{
    if s.len() == 0 {
        assert(finish(s)[0] == Grammer::Empty);
    }
}

proof fn lemma_wf_push(g: Table)
    requires
        well_formed(g),
    ensures
        well_formed(g.push(seq![])),
{
    let g1 = g.push(seq![]);
    assert forall|a: int, k: int| 0 <= a < g1.len() && 0 <= k < g1[a].len() implies production_ok(g1, #[trigger] g1[a][k]) by {
        assert(production_ok(g, g[a][k]));
        let p = g[a][k];
        assert forall|j: int| 0 <= j < p.len() implies symbol_ok(g1, #[trigger] p[j]) by {
            assert(symbol_ok(g, p[j]));
        }
    }
}

proof fn lemma_wf_append(g: Table, id: int, p: Seq<Grammer>)
    requires
        well_formed(g),
        0 <= id < g.len(),
        production_ok(g, p),
    ensures
        well_formed(append_production(g, id, p)),
{
    let g1 = append_production(g, id, p);
    assert forall|a: int, k: int| 0 <= a < g1.len() && 0 <= k < g1[a].len() implies production_ok(g1, #[trigger] g1[a][k]) by {
        if a == id && k == g[id].len() {
        } else {
            assert(production_ok(g, g[a][k]));
        }
    }
}

/// What desugaring adds to a well-formed store keeps it well formed, and the
/// symbols it hands back may stand in a production.
pub proof fn lemma_desugar_wf(names: Seq<Seq<char>>, r: Rule, g: Table)
    requires
        well_formed(g),
        names.len() <= g.len(),
    ensures
        match desugar(names, r, g) {
            Ok((s, g2)) => g2.len() <= u64::MAX ==> well_formed(g2) && body_ok(g2, s),
            Err(_) => true,
        },
    decreases r, 0int,
{
    let n = g.len() as int;
    lemma_desugar_frame(names, r, g);
    match r {
        Rule::IdentifierRef(name) => {
            lemma_resolve(names, name@);
        },
        Rule::Sequence(rs) => {
            lemma_seq_wf(names, rs@, 0, g);
        },
        Rule::Or(rs) => {
            lemma_wf_push(g);
            lemma_alts_wf(names, rs@, 0, n, g.push(seq![]));
            lemma_alts_frame(names, rs@, 0, n, g.push(seq![]));
        },
        Rule::Repeat(x) => {
            lemma_wf_push(g);
            lemma_desugar_wf(names, *x, g.push(seq![]));
            lemma_desugar_frame(names, *x, g.push(seq![]));
            if let Ok((s, g2)) = desugar(names, *x, g.push(seq![])) {
                if g2.len() <= u64::MAX {
                    let p = s.push(nt(n));
                    assert(production_ok(g2, p)) by {
                        assert forall|j: int| 0 <= j < p.len() implies symbol_ok(g2, #[trigger] p[j]) by {
                            if j < s.len() {
                                assert(symbol_ok(g2, s[j]));
                            }
                        }
                    }
                    lemma_wf_append(g2, n, p);
                    let g3 = append_production(g2, n, p);
                    assert(production_ok(g3, seq![Grammer::Empty]));
                    lemma_wf_append(g3, n, seq![Grammer::Empty]);
                }
            }
        },
        Rule::Option(x) => {
            lemma_wf_push(g);
            lemma_desugar_wf(names, *x, g.push(seq![]));
            lemma_desugar_frame(names, *x, g.push(seq![]));
            if let Ok((s, g2)) = desugar(names, *x, g.push(seq![])) {
                if g2.len() <= u64::MAX {
                    lemma_finish_ok(g2, s);
                    lemma_wf_append(g2, n, finish(s));
                    let g3 = append_production(g2, n, finish(s));
                    assert(production_ok(g3, seq![Grammer::Empty]));
                    lemma_wf_append(g3, n, seq![Grammer::Empty]);
                }
            }
        },
        Rule::Group(x) => {
            lemma_wf_push(g);
            lemma_desugar_wf(names, *x, g.push(seq![]));
            lemma_desugar_frame(names, *x, g.push(seq![]));
            if let Ok((s, g2)) = desugar(names, *x, g.push(seq![])) {
                if g2.len() <= u64::MAX {
                    lemma_finish_ok(g2, s);
                    lemma_wf_append(g2, n, finish(s));
                }
            }
        },
        _ => {},
    }
}

pub proof fn lemma_seq_wf(names: Seq<Seq<char>>, rs: Seq<Box<Rule>>, i: int, g: Table)
    requires
        well_formed(g),
        names.len() <= g.len(),
    ensures
        match desugar_seq(names, rs, i, g) {
            Ok((s, g2)) => g2.len() <= u64::MAX ==> well_formed(g2) && body_ok(g2, s),
            Err(_) => true,
        },
    decreases rs, rs.len() - i,
{
    if 0 <= i < rs.len() {
        lemma_desugar_wf(names, *rs[i], g);
        lemma_desugar_frame(names, *rs[i], g);
        if let Ok((s, g1)) = desugar(names, *rs[i], g) {
            lemma_seq_frame(names, rs, i + 1, g1);
            if let Ok((s2, g2)) = desugar_seq(names, rs, i + 1, g1) {
                if g2.len() <= u64::MAX {
                    lemma_seq_wf(names, rs, i + 1, g1);
                    lemma_body_grow(g1, g2, s);
                    let t = s + s2;
                    assert forall|j: int| 0 <= j < t.len() implies symbol_ok(g2, #[trigger] t[j]) && t[j] != Grammer::Empty by {
                        if j < s.len() {
                            assert(t[j] == s[j]);
                        } else {
                            assert(t[j] == s2[j - s.len()]);
                        }
                    }
                }
            }
        }
    }
}

pub proof fn lemma_alts_wf(names: Seq<Seq<char>>, rs: Seq<Box<Rule>>, i: int, n: int, g: Table)
    requires
        well_formed(g),
        names.len() <= g.len(),
        0 <= n < g.len(),
    ensures
        match desugar_alts(names, rs, i, n, g) {
            Ok(g2) => g2.len() <= u64::MAX ==> well_formed(g2),
            Err(_) => true,
        },
    decreases rs, rs.len() - i,
{
    if 0 <= i < rs.len() {
        lemma_desugar_wf(names, *rs[i], g);
        lemma_desugar_frame(names, *rs[i], g);
        if let Ok((s, g1)) = desugar(names, *rs[i], g) {
            let g2 = append_production(g1, n, finish(s));
            lemma_alts_frame(names, rs, i + 1, n, g2);
            if let Ok(g3) = desugar_alts(names, rs, i + 1, n, g2) {
                if g3.len() <= u64::MAX {
                    lemma_finish_ok(g1, s);
                    lemma_wf_append(g1, n, finish(s));
                    lemma_alts_wf(names, rs, i + 1, n, g2);
                }
            }
        }
    }
}

/// Desugaring a definition only adds slots, and leaves every slot that was
/// there untouched but that of the definition itself.
pub proof fn lemma_definition_frame(names: Seq<Seq<char>>, r: Rule, id: int, g: Table)
    requires
        0 <= id < g.len(),
    ensures
        desugar_definition(names, r, id, g) matches Ok(g2) ==> g2.len() >= g.len() && forall|x: int|
            0 <= x < g.len() && x != id ==> #[trigger] g2[x] == g[x],
{
    match r {
        Rule::Or(rs) => {
            lemma_alts_frame(names, rs@, 0, id, g);
        },
        _ => {
            lemma_desugar_frame(names, r, g);
        },
    }
}

/// Desugaring a definition into a well-formed store keeps it well formed.
pub proof fn lemma_definition_wf(names: Seq<Seq<char>>, r: Rule, id: int, g: Table)
    requires
        well_formed(g),
        names.len() <= g.len(),
        0 <= id < g.len(),
    ensures
        match desugar_definition(names, r, id, g) {
            Ok(g2) => g2.len() <= u64::MAX ==> well_formed(g2),
            Err(_) => true,
        },
{
    match r {
        Rule::Or(rs) => {
            lemma_alts_wf(names, rs@, 0, id, g);
        },
        _ => {
            lemma_desugar_wf(names, r, g);
            lemma_desugar_frame(names, r, g);
            if let Ok((s, g1)) = desugar(names, r, g) {
                if g1.len() <= u64::MAX {
                    lemma_finish_ok(g1, s);
                    lemma_wf_append(g1, id, finish(s));
                }
            }
        },
    }
}

/// Building from a well-formed store gives a well-formed store.
pub proof fn lemma_build_wf(names: Seq<Seq<char>>, rules: Seq<Rule>, i: int, g: Table)
    requires
        well_formed(g),
        names.len() < g.len(),
        rules.len() == names.len(),
    ensures
        match build_from(names, rules, i, g) {
            Ok(g2) => g2.len() <= u64::MAX ==> well_formed(g2),
            Err(_) => true,
        },
    decreases rules.len() - i,
{
    if 0 <= i < rules.len() {
        lemma_resolve(names, names[i]);
        let id = definition_id(names, i);
        lemma_definition_frame(names, rules[i], id, g);
        lemma_definition_wf(names, rules[i], id, g);
        if let Ok(g1) = desugar_definition(names, rules[i], id, g) {
            lemma_build_grows(names, rules, i + 1, g1);
            if let Ok(g3) = build_from(names, rules, i + 1, g1) {
                if g3.len() <= u64::MAX {
                    lemma_build_wf(names, rules, i + 1, g1);
                }
            }
        }
    }
}

proof fn lemma_build_grows(names: Seq<Seq<char>>, rules: Seq<Rule>, i: int, g: Table)
    requires
        names.len() < g.len(),
        rules.len() == names.len(),
    ensures
        build_from(names, rules, i, g) matches Ok(g2) ==> g2.len() >= g.len(),
    decreases rules.len() - i,
{
    if 0 <= i < rules.len() {
        lemma_resolve(names, names[i]);
        let id = definition_id(names, i);
        lemma_definition_frame(names, rules[i], id, g);
        if let Ok(g1) = desugar_definition(names, rules[i], id, g) {
            lemma_build_grows(names, rules, i + 1, g1);
        }
    }
}

/// Each name of the map resolves to its identifier, and every name that
/// resolves to an identifier below `upto` is in the map.
pub open spec fn map_covers(m: Seq<(String, GrammerIdentifier)>, names: Seq<Seq<char>>, upto: int) -> bool {
    &&& forall|k: int| 0 <= k < m.len() ==> resolve(names, (#[trigger] m[k]).0@) == Some(m[k].1.0 as int)
    &&& forall|s: Seq<char>|
        #![trigger resolve(names, s)]
        resolve(names, s) matches Some(j) && j < upto ==> exists|k: int| 0 <= k < m.len() && (#[trigger] m[k]).0@ == s
}

/// The analysis of a grammar, ready for building parsing tables.
#[derive(Debug, PartialEq, Eq)]
pub struct GrammerAnnotation {
    /// Every character of the grammar, once each.
    pub endchars: Vec<char>,
    /// Every identifier in use: the named rules, then the helpers.
    pub identifiers: Vec<u64>,
    /// FIRST of each terminal of `endchars`, then of each nonterminal of `identifiers`.
    pub first_set: Vec<(Grammer, Vec<Grammer>)>,
    /// FOLLOW of each nonterminal of `identifiers`.
    pub follow_set: Vec<(GrammerIdentifier, Vec<Grammer>)>,
}

/// The identifiers in use in a store of `len` slots built from `named`
/// definitions: all slots but the reserved one at `named`.
pub open spec fn identifier_universe(named: int, len: int) -> Seq<u64> {
    Seq::new((len - 1) as nat, |q: int| (if q < named { q } else { q + 1 }) as u64)
}

/// No name stands twice in the map.
pub open spec fn map_distinct(m: Seq<(String, GrammerIdentifier)>) -> bool {
    forall|k1: int, k2: int| 0 <= k1 < m.len() && 0 <= k2 < m.len() && k1 != k2 ==> (#[trigger] m[k1]).0@ != (#[trigger] m[k2]).0@
}

/// With distinct names, the map pairs each definition's name with its position, in order.
pub open spec fn map_in_order(m: Seq<(String, GrammerIdentifier)>, names: Seq<Seq<char>>) -> bool {
    &&& m.len() == names.len()
    &&& forall|k: int| 0 <= k < m.len() ==> (#[trigger] m[k]).0@ == names[k] && m[k].1 == GrammerIdentifier(k as u64)
}

/// Turns definitions into a grammar store: named rules take identifiers by
/// their position, helpers take fresh identifiers above them.
pub struct Ebnf2Gram {
    pub grammer_set: GrammerSet,
    /// Each defined name with its identifier.
    pub identifier_map: Vec<(String, GrammerIdentifier)>,
    /// How many definitions there are.
    pub named: usize,
    /// The names of the definitions, in order.
    pub names: Ghost<Seq<Seq<char>>>,
}

impl Ebnf2Gram {
    /// The map resolves every name as `resolve` does, and the store has a slot
    /// for each definition and the one reserved after them.
    pub open spec fn inv(&self) -> bool {
        &&& self.named == self.names@.len()
        &&& self.grammer_set@.len() > self.named
        &&& map_covers(self.identifier_map@, self.names@, self.named as int)
        &&& map_distinct(self.identifier_map@)
    }

    /// The identifier of the definition named `s`.
    fn lookup(&self, s: &String) -> (r: Option<GrammerIdentifier>)
        requires
            self.inv(),
        ensures
            match resolve(self.names@, s@) {
                Some(i) => r == Some(GrammerIdentifier(i as u64)),
                None => r is None,
            },
    {
        proof {
            lemma_resolve(self.names@, s@);
        }
        let mut k: usize = 0;
        while k < self.identifier_map.len()
            invariant
                self.inv(),
                k <= self.identifier_map@.len(),
                forall|k2: int| 0 <= k2 < k ==> (#[trigger] self.identifier_map@[k2]).0@ != s@,
            decreases self.identifier_map@.len() - k,
        {
            if self.identifier_map[k].0 == *s {
                assert(resolve(self.names@, self.identifier_map@[k as int].0@) == Some(self.identifier_map@[k as int].1.0 as int));
                return Some(self.identifier_map[k].1);
            }
            k += 1;
        }
        proof {
            if let Some(j) = resolve(self.names@, s@) {
                let k2 = choose|k2: int| 0 <= k2 < self.identifier_map@.len() && (#[trigger] self.identifier_map@[k2]).0@ == s@;
            }
        }
        None
    }

    /// Opens a slot for a fresh identifier.
    fn next_identifier(&mut self) -> (r: usize)
        requires
            old(self).inv(),
        ensures
            final(self).inv(),
            r == old(self).grammer_set@.len(),
            final(self).grammer_set@ == old(self).grammer_set@.push(Seq::<Seq<Grammer>>::empty()),
            final(self).identifier_map@ == old(self).identifier_map@,
            final(self).named == old(self).named,
            final(self).names == old(self).names,
    {
        self.grammer_set.push_slot()
    }

    /// Desugars each of the alternatives `rules` into a production of `n`.
    #[verifier::loop_isolation(false)]
    fn iterate_alternatives(&mut self, rules: &Vec<Box<Rule>>, n: usize) -> (r: Result<(), BuildError>)
        requires
            old(self).inv(),
            n < old(self).grammer_set@.len(),
        ensures
            final(self).inv(),
            final(self).identifier_map@ == old(self).identifier_map@,
            final(self).named == old(self).named,
            final(self).names == old(self).names,
            match desugar_alts(old(self).names@, rules@, 0, n as int, old(self).grammer_set@) {
                Ok(g2) => r is Ok && final(self).grammer_set@ == g2,
                Err(e) => r is Err && r->Err_0@ == e,
            },
        decreases rules, 0int,
    {
        let ghost names = self.names@;
        let ghost g1 = self.grammer_set@;
        let mut i: usize = 0;
        while i < rules.len()
            invariant
                self.inv(),
                self.identifier_map@ == old(self).identifier_map@,
                self.named == old(self).named,
                self.names == old(self).names,
                names == self.names@,
                i <= rules@.len(),
                n < self.grammer_set@.len(),
                desugar_alts(names, rules@, 0, n as int, g1) == desugar_alts(names, rules@, i as int, n as int, self.grammer_set@),
            decreases rules@.len() - i,
        {
            let ghost gi = self.grammer_set@;
            let mut alt: Vec<Grammer> = Vec::new();
            let part = self.iterate(&mut alt, &rules[i]);
            if let Err(e) = part {
                return Err(e);
            }
            proof {
                lemma_desugar_frame(names, *rules@[i as int], gi);
            }
            if alt.len() == 0 {
                alt.push(Grammer::Empty);
            }
            assert(alt@ == finish(desugar(names, *rules@[i as int], gi)->Ok_0.0));
            self.grammer_set.push_production(n, alt);
            i += 1;
        }
        Ok(())
    }

    /// Desugars `rule`, appending its symbols to `grammer` and its helpers to the store.
    #[verifier::loop_isolation(false)]
    fn iterate(&mut self, grammer: &mut Vec<Grammer>, rule: &Rule) -> (r: Result<(), BuildError>)
        requires
            old(self).inv(),
        ensures
            final(self).inv(),
            final(self).identifier_map@ == old(self).identifier_map@,
            final(self).named == old(self).named,
            final(self).names == old(self).names,
            match desugar(old(self).names@, *rule, old(self).grammer_set@) {
                Ok((s, g2)) => r is Ok && final(grammer)@ == old(grammer)@ + s && final(self).grammer_set@ == g2,
                Err(e) => r is Err && r->Err_0@ == e,
            },
            match *rule {
                Rule::Repeat(x) => match desugar(old(self).names@, *x, old(self).grammer_set@.push(seq![])) {
                    Ok((body, _)) => {
                        let n = old(self).grammer_set@.len() as int;
                        &&& r is Ok
                        &&& final(grammer)@ == old(grammer)@.push(nt(n))
                        &&& final(self).grammer_set@[n] == seq![body.push(nt(n)), seq![Grammer::Empty]]
                    },
                    Err(_) => r is Err,
                },
                _ => true,
            },
        decreases rule, 1int,
    {
        let ghost names = self.names@;
        let ghost g0 = self.grammer_set@;
        proof {
            lemma_desugar_frame(names, *rule, g0);
        }
        match rule {
            Rule::Character(c) => {
                grammer.push(terminal(*c));
                Ok(())
            },
            Rule::IdentifierRef(name) => {
                match self.lookup(name) {
                    Some(id) => {
                        grammer.push(Grammer::Grammer(id));
                        Ok(())
                    },
                    None => Err(BuildError::UnknownIdentifier(name.clone())),
                }
            },
            Rule::Exclude { .. } => Err(BuildError::UnsupportedConstruct),
            Rule::Sequence(rules) => {
                let ghost acc0 = grammer@;
                let ghost mut acc: Seq<Grammer> = seq![];
                let mut i: usize = 0;
                while i < rules.len()
                    invariant
                        self.inv(),
                        self.identifier_map@ == old(self).identifier_map@,
                        self.named == old(self).named,
                        self.names == old(self).names,
                        names == self.names@,
                        i <= rules@.len(),
                        grammer@ == acc0 + acc,
                        desugar_seq(names, rules@, 0, g0) == prepend(acc, desugar_seq(names, rules@, i as int, self.grammer_set@)),
                    decreases rules@.len() - i,
                {
                    let ghost gi = self.grammer_set@;
                    let part = self.iterate(grammer, &rules[i]);
                    if let Err(e) = part {
                        return Err(e);
                    }
                    proof {
                        let (s, g1) = desugar(names, *rules@[i as int], gi)->Ok_0;
                        let rest = desugar_seq(names, rules@, i + 1, g1);
                        assert(grammer@ =~= acc0 + (acc + s));
                        if let Ok((s2, g2)) = rest {
                            assert(acc + (s + s2) =~= (acc + s) + s2);
                        }
                        acc = acc + s;
                    }
                    i += 1;
                }
                assert(acc + seq![] =~= acc);
                Ok(())
            },
            Rule::Or(rules) => {
                let n = self.next_identifier();
                match self.iterate_alternatives(rules, n) {
                    Ok(()) => {
                        grammer.push(Grammer::Grammer(GrammerIdentifier(n as u64)));
                        Ok(())
                    },
                    Err(e) => Err(e),
                }
            },
            Rule::Repeat(inner) => {
                let n = self.next_identifier();
                let mut body: Vec<Grammer> = Vec::new();
                let part = self.iterate(&mut body, inner);
                if let Err(e) = part {
                    return Err(e);
                }
                proof {
                    lemma_desugar_frame(names, **inner, g0.push(seq![]));
                    lemma_repeat_encoding(names, *inner, g0);
                }
                let id = GrammerIdentifier(n as u64);
                body.push(Grammer::Grammer(id));
                self.grammer_set.push_production(n, body);
                let mut empty: Vec<Grammer> = Vec::new();
                empty.push(Grammer::Empty);
                self.grammer_set.push_production(n, empty);
                grammer.push(Grammer::Grammer(id));
                Ok(())
            },
            Rule::Option(inner) => {
                let n = self.next_identifier();
                let mut body: Vec<Grammer> = Vec::new();
                let part = self.iterate(&mut body, inner);
                if let Err(e) = part {
                    return Err(e);
                }
                proof {
                    lemma_desugar_frame(names, **inner, g0.push(seq![]));
                }
                if body.len() == 0 {
                    body.push(Grammer::Empty);
                }
                self.grammer_set.push_production(n, body);
                let mut empty: Vec<Grammer> = Vec::new();
                empty.push(Grammer::Empty);
                self.grammer_set.push_production(n, empty);
                grammer.push(Grammer::Grammer(GrammerIdentifier(n as u64)));
                Ok(())
            },
            Rule::Group(inner) => {
                let n = self.next_identifier();
                let mut body: Vec<Grammer> = Vec::new();
                let part = self.iterate(&mut body, inner);
                if let Err(e) = part {
                    return Err(e);
                }
                proof {
                    lemma_desugar_frame(names, **inner, g0.push(seq![]));
                }
                if body.len() == 0 {
                    body.push(Grammer::Empty);
                }
                self.grammer_set.push_production(n, body);
                grammer.push(Grammer::Grammer(GrammerIdentifier(n as u64)));
                Ok(())
            },
        }
    }
    /// Builds the grammar store from the definitions: each named rule gets the
    /// identifier of its position (the last one where a name is defined
    /// twice), and each definition adds its productions to it: one for each
    /// alternative when the whole rule is an alternation, else one.
    pub fn process(base: Vec<Box<Definition>>) -> (r: Result<Ebnf2Gram, BuildError>)
        ensures
            match build(definition_names(base@), definition_rules(base@)) {
                Ok(g) => r matches Ok(b) && b.inv() && b.grammer_set@ == g && b.names@ == definition_names(base@)
                    && well_formed(g) && (definition_names(base@).no_duplicates() ==> map_in_order(
                    b.identifier_map@,
                    definition_names(base@),
                )),
                Err(e) => r matches Err(err) && err@ == e,
            },
    {
        let n = base.len();
        let ghost names = definition_names(base@);
        let ghost rules = definition_rules(base@);
        let mut map: Vec<(String, GrammerIdentifier)> = Vec::new();
        assert forall|s: Seq<char>|
            #![trigger resolve(names, s)]
            resolve(names, s) matches Some(j) && j < 0 implies exists|k: int|
                0 <= k < map@.len() && (#[trigger] map@[k]).0@ == s by {
            lemma_resolve(names, s);
        }
        let mut i: usize = 0;
        while i < n
            invariant
                n == base@.len(),
                names == definition_names(base@),
                i <= n,
                map_covers(map@, names, i as int),
                map_distinct(map@),
                forall|k: int| 0 <= k < map@.len() ==> (#[trigger] map@[k]).1.0 < i,
                names.no_duplicates() ==> map_in_order(map@, names.take(i as int)),
            decreases n - i,
        {
            let mut later = false;
            let mut j: usize = i + 1;
            while j < n
                invariant
                    n == base@.len(),
                    names == definition_names(base@),
                    i < n,
                    i + 1 <= j <= n,
                    later == exists|j2: int| i < j2 < j && names[j2] == names[i as int],
                decreases n - j,
            {
                let ghost was = later;
                if base[j].identifier == base[i].identifier {
                    later = true;
                }
                assert(names[j as int] == base@[j as int].identifier@);
                assert(names[i as int] == base@[i as int].identifier@);
                assert(later == exists|j2: int| i < j2 < j + 1 && names[j2] == names[i as int]) by {
                    if was {
                        let j2 = choose|j2: int| i < j2 < j && names[j2] == names[i as int];
                        assert(i < j2 < j + 1 && names[j2] == names[i as int]);
                    }
                    if names[j as int] == names[i as int] {
                        assert(i < j < j + 1 && names[j as int] == names[i as int]);
                    }
                }
                j += 1;
            }
            proof {
                lemma_resolve(names, names[i as int]);
            }
            if !later {
                let ghost before = map@;
                map.push((base[i].identifier.clone(), GrammerIdentifier(i as u64)));
                proof {
                    assert(resolve(names, names[i as int]) == Some(i as int));
                    assert forall|s: Seq<char>|
                        #![trigger resolve(names, s)]
                        resolve(names, s) matches Some(j) && j < i + 1 implies exists|k: int|
                            0 <= k < map@.len() && (#[trigger] map@[k]).0@ == s by {
                        if resolve(names, s) != Some(i as int) {
                            let k = choose|k: int| 0 <= k < before.len() && (#[trigger] before[k]).0@ == s;
                            assert(map@[k] == before[k]);
                        } else {
                            lemma_resolve(names, s);
                            assert(map@[before.len() as int].0@ == s);
                        }
                    }
                    assert forall|k1: int, k2: int| 0 <= k1 < map@.len() && 0 <= k2 < map@.len() && k1 != k2 implies (
                    #[trigger] map@[k1]).0@ != (#[trigger] map@[k2]).0@ by {
                        if k1 < before.len() && k2 < before.len() {
                            assert(before[k1] == map@[k1] && before[k2] == map@[k2]);
                        } else if k1 < before.len() {
                            assert(before[k1] == map@[k1]);
                            assert(resolve(names, before[k1].0@) == Some(before[k1].1.0 as int));
                        } else {
                            assert(before[k2] == map@[k2]);
                            assert(resolve(names, before[k2].0@) == Some(before[k2].1.0 as int));
                        }
                    }
                    assert forall|k: int| 0 <= k < map@.len() implies (#[trigger] map@[k]).1.0 < i + 1 by {
                        if k < before.len() {
                            assert(before[k] == map@[k]);
                        }
                    }
                    if names.no_duplicates() {
                        assert forall|k: int| 0 <= k < map@.len() implies (#[trigger] map@[k]).0@ == names.take(i + 1)[k]
                            && map@[k].1 == GrammerIdentifier(k as u64) by {
                            if k < before.len() {
                                assert(before[k] == map@[k]);
                                assert(names.take(i as int)[k] == names[k]);
                            }
                        }
                    }
                }
            } else {
                proof {
                    if names.no_duplicates() {
                        let j2 = choose|j2: int| i < j2 < n && names[j2] == names[i as int];
                        assert(false);
                    }
                }
                proof {
                    assert forall|s: Seq<char>|
                        #![trigger resolve(names, s)]
                        resolve(names, s) matches Some(j) && j < i + 1 implies exists|k: int|
                            0 <= k < map@.len() && (#[trigger] map@[k]).0@ == s by {
                        lemma_resolve(names, s);
                    }
                }
            }
            i += 1;
        }
        assert(names.take(n as int) =~= names);
        let mut grammer_set = GrammerSet::new();
        let mut c: usize = 0;
        while c < n
            invariant
                c <= n,
                grammer_set@ == Seq::new(c as nat, |q: int| Seq::<Seq<Grammer>>::empty()),
            decreases n - c,
        {
            grammer_set.push_slot();
            c += 1;
            assert(grammer_set@ =~= Seq::new(c as nat, |q: int| Seq::<Seq<Grammer>>::empty()));
        }
        grammer_set.push_slot();
        assert(grammer_set@ =~= initial_table(names.len()));
        proof {
            assert(rules.len() == names.len());
            lemma_build_wf(names, rules, 0, initial_table(names.len()));
        }
        let mut state = Ebnf2Gram { grammer_set, identifier_map: map, named: n, names: Ghost(names) };
        let mut i: usize = 0;
        while i < n
            invariant
                n == base@.len(),
                names == definition_names(base@),
                rules == definition_rules(base@),
                i <= n,
                state.inv(),
                state.names@ == names,
                names.no_duplicates() ==> map_in_order(state.identifier_map@, names),
                build(names, rules) == build_from(names, rules, i as int, state.grammer_set@),
            decreases n - i,
        {
            let d = &base[i];
            assert(d.identifier@ == names[i as int]);
            proof {
                lemma_resolve(names, names[i as int]);
            }
            let id = state.lookup(&d.identifier).unwrap();
            let ghost gi = state.grammer_set@;
            let x = id.0 as usize;
            if let Rule::Or(alts) = &*d.rule {
                let part = state.iterate_alternatives(alts, x);
                if let Err(e) = part {
                    return Err(e);
                }
            } else {
                let mut grammer: Vec<Grammer> = Vec::new();
                let part = state.iterate(&mut grammer, &d.rule);
                if let Err(e) = part {
                    return Err(e);
                }
                proof {
                    lemma_desugar_frame(names, rules[i as int], gi);
                }
                if grammer.len() == 0 {
                    grammer.push(Grammer::Empty);
                }
                assert(grammer@ == finish(desugar(names, rules[i as int], gi)->Ok_0.0));
                state.grammer_set.push_production(x, grammer);
            }
            i += 1;
        }
        let slots = state.grammer_set.len();
        assert(slots <= u64::MAX);
        Ok(state)
    }
    /// The grammar store.
    pub fn get_grammer_set(&self) -> (r: &GrammerSet)
        ensures
            *r == self.grammer_set,
    {
        &self.grammer_set
    }

    /// Each defined name with its identifier.
    pub fn get_identifier_map(&self) -> (r: &Vec<(String, GrammerIdentifier)>)
        ensures
            *r == self.identifier_map,
    {
        &self.identifier_map
    }

    /// The alphabet, the identifiers in use, FIRST of every terminal and
    /// nonterminal, and FOLLOW of every nonterminal.
    pub fn create_annotations(&self) -> (r: GrammerAnnotation)
        requires
            self.inv(),
            well_formed(self.grammer_set@),
        ensures
            r.endchars@.no_duplicates(),
            forall|c: char| #[trigger] r.endchars@.contains(c) <==> has_char(self.grammer_set@, c),
            r.identifiers@ == identifier_universe(self.named as int, self.grammer_set@.len() as int),
            r.first_set@.len() == r.endchars@.len() + r.identifiers@.len(),
            forall|q: int|
                0 <= q < r.endchars@.len() ==> {
                    let (sym, f) = #[trigger] r.first_set@[q];
                    &&& sym == Grammer::Character(r.endchars@[q])
                    &&& f@.no_duplicates()
                    &&& f@.to_set() == first_of(self.grammer_set@, sym)
                },
            forall|q: int|
                0 <= q < r.identifiers@.len() ==> {
                    let (sym, f) = #[trigger] r.first_set@[r.endchars@.len() + q];
                    &&& sym == Grammer::Grammer(GrammerIdentifier(r.identifiers@[q]))
                    &&& f@.no_duplicates()
                    &&& f@.to_set() == first_of(self.grammer_set@, sym)
                },
            r.follow_set@.len() == r.identifiers@.len(),
            forall|q: int|
                0 <= q < r.identifiers@.len() ==> {
                    let (id, f) = #[trigger] r.follow_set@[q];
                    &&& id == GrammerIdentifier(r.identifiers@[q])
                    &&& f@.no_duplicates()
                    &&& f@.to_set() == follow_table(self.grammer_set@)[id.0 as int]
                },
    {
        let g = &self.grammer_set;
        let ghost gv = g@;
        let endchars = g.alphabet();
        let firsts = first_sets(g);
        let follows = create_follow_set(g);
        let len = g.len();
        let mut identifiers: Vec<u64> = Vec::new();
        let mut id: usize = 0;
        while id < len
            invariant
                len == gv.len(),
                self.named < len,
                id <= len,
                identifiers@ == identifier_universe(self.named as int, id as int + (if id > self.named { 0int } else { 1int })),
            decreases len - id,
        {
            if id != self.named {
                identifiers.push(id as u64);
            }
            id += 1;
            assert(identifiers@ =~= identifier_universe(self.named as int, id as int + (if id > self.named { 0int } else { 1int })));
        }
        let mut first_set: Vec<(Grammer, Vec<Grammer>)> = Vec::new();
        let mut q: usize = 0;
        while q < endchars.len()
            invariant
                q <= endchars@.len(),
                first_set@.len() == q,
                forall|q2: int|
                    0 <= q2 < q ==> {
                        let (sym, f) = #[trigger] first_set@[q2];
                        &&& sym == Grammer::Character(endchars@[q2])
                        &&& f@.no_duplicates()
                        &&& f@.to_set() == first_of(gv, sym)
                    },
            decreases endchars@.len() - q,
        {
            let sym = terminal(endchars[q]);
            let mut f: Vec<Grammer> = Vec::new();
            f.push(sym);
            assert(f@ =~= seq![sym]);
            assert(f@.to_set() =~= first_of(gv, sym)) by {
                assert(f@[0] == sym);
                assert(f@.contains(sym));
                assert(f@.to_set() =~= set![sym]);
            }
            first_set.push((sym, f));
            q += 1;
        }
        let mut q: usize = 0;
        while q < identifiers.len()
            invariant
                self.inv(),
                gv == self.grammer_set@,
                well_formed(gv),
                firsts@.len() == gv.len(),
                all_distinct(firsts@),
                sets_of(firsts@) == first_table(gv),
                identifiers@ == identifier_universe(self.named as int, gv.len() as int),
                q <= identifiers@.len(),
                first_set@.len() == endchars@.len() + q,
                forall|q2: int|
                    0 <= q2 < endchars@.len() ==> {
                        let (sym, f) = #[trigger] first_set@[q2];
                        &&& sym == Grammer::Character(endchars@[q2])
                        &&& f@.no_duplicates()
                        &&& f@.to_set() == first_of(gv, sym)
                    },
                forall|q2: int|
                    0 <= q2 < q ==> {
                        let (sym, f) = #[trigger] first_set@[endchars@.len() + q2];
                        &&& sym == Grammer::Grammer(GrammerIdentifier(identifiers@[q2]))
                        &&& f@.no_duplicates()
                        &&& f@.to_set() == first_of(gv, sym)
                    },
            decreases identifiers@.len() - q,
        {
            let n = firsts.len();
            let id = identifiers[q];
            let ghost v: int = if q < self.named { q as int } else { q + 1 };
            assert(v < n);
            assert(usize::MAX <= u64::MAX);
            assert(identifiers@[q as int] == v as u64);
            assert(id as int == v);
            let x = id as usize;
            assert(x < n);
            let f = copy_symbols(&firsts[x]);
            assert(sets_of(firsts@)[x as int] == firsts@[x as int]@.to_set());
            let ghost before = first_set@;
            first_set.push((Grammer::Grammer(GrammerIdentifier(id)), f));
            assert forall|q2: int| 0 <= q2 < endchars@.len() implies #[trigger] first_set@[q2] == before[q2] by {}
            assert forall|q2: int| 0 <= q2 < q implies #[trigger] first_set@[endchars@.len() + q2] == before[endchars@.len() + q2] by {}
            q += 1;
        }
        let mut follow_set: Vec<(GrammerIdentifier, Vec<Grammer>)> = Vec::new();
        let mut q: usize = 0;
        while q < identifiers.len()
            invariant
                self.inv(),
                gv == self.grammer_set@,
                follows@.len() == gv.len(),
                all_distinct(follows@),
                sets_of(follows@) == follow_table(gv),
                identifiers@ == identifier_universe(self.named as int, gv.len() as int),
                q <= identifiers@.len(),
                follow_set@.len() == q,
                forall|q2: int|
                    0 <= q2 < q ==> {
                        let (id, f) = #[trigger] follow_set@[q2];
                        &&& id == GrammerIdentifier(identifiers@[q2])
                        &&& f@.no_duplicates()
                        &&& f@.to_set() == follow_table(gv)[id.0 as int]
                    },
            decreases identifiers@.len() - q,
        {
            let n = follows.len();
            let id = identifiers[q];
            let ghost v: int = if q < self.named { q as int } else { q + 1 };
            assert(v < n);
            assert(usize::MAX <= u64::MAX);
            assert(identifiers@[q as int] == v as u64);
            assert(id as int == v);
            let x = id as usize;
            assert(x < n);
            let f = copy_symbols(&follows[x]);
            assert(sets_of(follows@)[x as int] == follows@[x as int]@.to_set());
            follow_set.push((GrammerIdentifier(id), f));
            q += 1;
        }
        GrammerAnnotation { endchars, identifiers, first_set, follow_set }
    }
}

/// Desugaring `{x}` opens one fresh identifier `n` and gives it exactly two
/// productions, the desugared `x` followed by `n`, and `[Empty]`; the
/// repetition itself stands for `n` alone. It fails exactly when `x` does.
pub proof fn lemma_repeat_encoding(names: Seq<Seq<char>>, x: Box<Rule>, g: Table)
    ensures
        desugar(names, Rule::Repeat(x), g) is Ok <==> desugar(names, *x, g.push(seq![])) is Ok,
        match desugar(names, *x, g.push(seq![])) {
            Ok((body, _)) => desugar(names, Rule::Repeat(x), g) matches Ok((s, g2)) && s == seq![nt(g.len() as int)]
                && g2.len() > g.len() && g2[g.len() as int] == seq![
                body.push(nt(g.len() as int)),
                seq![Grammer::Empty],
            ],
            Err(_) => true,
        },
{
    let n = g.len() as int;
    let g1 = g.push(seq![]);
    lemma_desugar_frame(names, *x, g1);
    if let Ok((body, gb)) = desugar(names, *x, g1) {
        assert(gb[n] == g1[n]);
        let g2 = append_production(append_production(gb, n, body.push(nt(n))), n, seq![Grammer::Empty]);
        assert(g2[n] =~= seq![body.push(nt(n)), seq![Grammer::Empty]]);
    }
}

/// The rule uses no alternation, repetition, option or grouping.
pub open spec fn plain(r: Rule) -> bool
    decreases r, 0int,
{
    match r {
        Rule::Sequence(rs) => plain_all(rs@, 0),
        Rule::Or(_) | Rule::Repeat(_) | Rule::Option(_) | Rule::Group(_) => false,
        _ => true,
    }
}

/// The rules `rs[i..]` are plain.
pub open spec fn plain_all(rs: Seq<Box<Rule>>, i: int) -> bool
    decreases rs, rs.len() - i,
{
    if i < 0 || i >= rs.len() {
        true
    } else {
        plain(*rs[i]) && plain_all(rs, i + 1)
    }
}

proof fn lemma_plain_desugar(names: Seq<Seq<char>>, r: Rule, g: Table)
    requires
        plain(r),
    ensures
        desugar(names, r, g) matches Ok((s, g2)) ==> g2 == g,
    decreases r, 0int,
{
    if let Rule::Sequence(rs) = r {
        lemma_plain_seq(names, rs@, 0, g);
    }
}

proof fn lemma_plain_seq(names: Seq<Seq<char>>, rs: Seq<Box<Rule>>, i: int, g: Table)
    requires
        plain_all(rs, i),
    ensures
        desugar_seq(names, rs, i, g) matches Ok((s, g2)) ==> g2 == g,
    decreases rs, rs.len() - i,
{
    if 0 <= i < rs.len() {
        lemma_plain_desugar(names, *rs[i], g);
        if let Ok((s, g1)) = desugar(names, *rs[i], g) {
            lemma_plain_seq(names, rs, i + 1, g1);
        }
    }
}

/// Where every name is defined once, each definition stores under its own position.
proof fn lemma_unique_definition_id(names: Seq<Seq<char>>, i: int)
    requires
        names.no_duplicates(),
        0 <= i < names.len(),
    ensures
        definition_id(names, i) == i,
{
    lemma_resolve(names, names[i]);
}

proof fn lemma_plain_build(names: Seq<Seq<char>>, rules: Seq<Rule>, i: int, g: Table)
    requires
        names.no_duplicates(),
        rules.len() == names.len(),
        forall|j: int| 0 <= j < rules.len() ==> #[trigger] plain(rules[j]),
        0 <= i <= rules.len(),
        g.len() == names.len() + 1,
        forall|j: int| 0 <= j < g.len() ==> (#[trigger] g[j]).len() == (if j < i { 1int } else { 0int }),
    ensures
        build_from(names, rules, i, g) matches Ok(g2) ==> g2.len() == names.len() + 1 && forall|j: int|
            0 <= j < g2.len() ==> (#[trigger] g2[j]).len() == (if j < names.len() { 1int } else { 0int }),
    decreases rules.len() - i,
{
    if i < rules.len() {
        lemma_plain_desugar(names, rules[i], g);
        lemma_unique_definition_id(names, i);
        if let Ok((s, g1)) = desugar(names, rules[i], g) {
            assert(!(rules[i] is Or));
            let g2 = append_production(g1, i, finish(s));
            assert forall|j: int| 0 <= j < g2.len() implies (#[trigger] g2[j]).len() == (if j < i + 1 { 1int } else { 0int }) by {
                if j != i {
                    assert(g2[j] == g[j]);
                }
            }
            lemma_plain_build(names, rules, i + 1, g2);
        }
    }
}

/// A grammar of `N` uniquely named rules without alternation, repetition,
/// option or grouping yields a store with exactly `N` keys, each holding
/// exactly one production.
pub proof fn lemma_plain_grammar_keys(names: Seq<Seq<char>>, rules: Seq<Rule>)
    requires
        names.no_duplicates(),
        rules.len() == names.len(),
        forall|j: int| 0 <= j < rules.len() ==> #[trigger] plain(rules[j]),
    ensures
        build(names, rules) matches Ok(g) ==> keys(g) == Set::new(|id: int| 0 <= id < names.len()) && forall|id: int|
            0 <= id < names.len() ==> (#[trigger] g[id]).len() == 1,
{
    lemma_plain_build(names, rules, 0, initial_table(names.len()));
    if let Ok(g) = build(names, rules) {
        assert(keys(g) =~= Set::new(|id: int| 0 <= id < names.len()));
    }
}

/// The identifiers of named rules: where each definition stores its production.
pub open spec fn named_ids(names: Seq<Seq<char>>) -> Set<int> {
    Set::new(|id: int| exists|i: int| 0 <= i < names.len() && definition_id(names, i) == id)
}

/// The identifiers that desugaring opened for helpers in a store of `len`
/// slots built from `n` definitions: every slot past the reserved one.
pub open spec fn helper_ids(n: int, len: int) -> Set<int> {
    Set::new(|id: int| n < id < len)
}

proof fn lemma_build_reserved(names: Seq<Seq<char>>, rules: Seq<Rule>, i: int, g: Table)
    requires
        rules.len() == names.len(),
        names.len() < g.len(),
        g[names.len() as int].len() == 0,
    ensures
        build_from(names, rules, i, g) matches Ok(g2) ==> g2[names.len() as int].len() == 0,
    decreases rules.len() - i,
{
    if 0 <= i < rules.len() {
        lemma_resolve(names, names[i]);
        let id = definition_id(names, i);
        lemma_definition_frame(names, rules[i], id, g);
        if let Ok(g1) = desugar_definition(names, rules[i], id, g) {
            assert(g1[names.len() as int] == g[names.len() as int]);
            lemma_build_reserved(names, rules, i + 1, g1);
        }
    }
}

/// Named rules and helpers never share an identifier: named rules keep the
/// identifiers below the number of definitions, helpers are opened above the
/// slot reserved right after them, and that slot never receives a production.
pub proof fn lemma_fresh_ids_disjoint(names: Seq<Seq<char>>, rules: Seq<Rule>)
    requires
        rules.len() == names.len(),
    ensures
        build(names, rules) matches Ok(g) ==> g.len() > names.len() && named_ids(names).subset_of(
            Set::new(|id: int| 0 <= id < names.len()),
        ) && named_ids(names).disjoint(helper_ids(names.len() as int, g.len() as int))
            && g[names.len() as int].len() == 0,
{
    lemma_build_grows(names, rules, 0, initial_table(names.len()));
    lemma_build_reserved(names, rules, 0, initial_table(names.len()));
    assert forall|id: int| named_ids(names).contains(id) implies 0 <= id < names.len() by {
        let i = choose|i: int| 0 <= i < names.len() && definition_id(names, i) == id;
        lemma_resolve(names, names[i]);
    }
}

} // verus!
