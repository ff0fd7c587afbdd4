use crate::rule_index::{insert_rule, new_rule_map, rule_keys, rule_position};
use crate::symbol::{dollar, dollar_view, epsilon, epsilon_view, views, Symbol, SymbolView};
use indexmap::IndexMap;
use vstd::prelude::*;

verus! {

/// A nonterminal together with its alternatives, in order.
pub struct Production {
    pub lhs: String,
    pub rhs: Vec<Vec<Symbol>>,
}

/// An ordered collection of productions.
pub struct Grammar {
    pub productions: Vec<Production>,
}

/// One alternative of one nonterminal, by symbol index.
pub struct Rule {
    pub lhs: usize,
    pub rhs: Vec<usize>,
}

/// A grammar whose symbols are numbered and whose alternatives are listed
/// once each. Index 0 is `ε` and index 1 is `$`; no alternative holds `ε`.
pub struct IndexedGrammar {
    pub symbols: Vec<Symbol>,
    pub rules: Vec<Rule>,
    /// The rules again, keyed by left-hand side and alternative.
    pub index: IndexMap<(usize, Vec<usize>), ()>,
}

/// A rule as a nonterminal and the symbols of its alternative.
pub type RuleView = (SymbolView, Seq<SymbolView>);

/// The alternative with every `ε` left out.
pub open spec fn strip(s: Seq<SymbolView>) -> Seq<SymbolView>
    decreases s.len(),
{
    if s.len() == 0 {
        s
    } else if s.last() == epsilon_view() {
        strip(s.drop_last())
    } else {
        strip(s.drop_last()).push(s.last())
    }
}

pub open spec fn production_rules(p: Production) -> Seq<RuleView> {
    p.rhs@.map_values(|a: Vec<Symbol>| (SymbolView::Nonterminal(p.lhs@), strip(views(a@))))
}

/// Every alternative of every production, in order.
pub open spec fn flat(ps: Seq<Production>) -> Seq<RuleView>
    decreases ps.len(),
{
    if ps.len() == 0 {
        Seq::empty()
    } else {
        flat(ps.drop_last()) + production_rules(ps.last())
    }
}

/// `acc` followed by the items of `s` that are new, each at its first place.
pub open spec fn dedup_onto(acc: Seq<RuleView>, s: Seq<RuleView>) -> Seq<RuleView>
    decreases s.len(),
{
    if s.len() == 0 {
        acc
    } else {
        let d = dedup_onto(acc, s.drop_last());
        if d.contains(s.last()) {
            d
        } else {
            d.push(s.last())
        }
    }
}

/// The distinct rules of a list of productions, numbered by first occurrence.
pub open spec fn rules_of(ps: Seq<Production>) -> Seq<RuleView> {
    dedup_onto(Seq::empty(), flat(ps))
}

pub open spec fn in_production(p: Production, v: SymbolView) -> bool {
    v == SymbolView::Nonterminal(p.lhs@) || exists|a: int, k: int|
        0 <= a < p.rhs@.len() && 0 <= k < p.rhs@[a]@.len() && #[trigger] p.rhs@[a]@[k]@ == v
}

/// `v` stands somewhere in the productions.
pub open spec fn occurs(ps: Seq<Production>, v: SymbolView) -> bool {
    exists|p: int| 0 <= p < ps.len() && #[trigger] in_production(ps[p], v)
}

pub proof fn lemma_dedup_onto_concat(acc: Seq<RuleView>, s1: Seq<RuleView>, s2: Seq<RuleView>)
    ensures
        dedup_onto(acc, s1 + s2) == dedup_onto(dedup_onto(acc, s1), s2),
    decreases s2.len(),
{
    if s2.len() == 0 {
        assert(s1 + s2 =~= s1);
    } else {
        lemma_dedup_onto_concat(acc, s1, s2.drop_last());
        assert((s1 + s2).drop_last() =~= s1 + s2.drop_last());
    }
}

proof fn lemma_grammar_size_prefix(ps: Seq<Production>, i: int)
    requires
        0 <= i <= ps.len(),
    ensures
        0 <= grammar_size(ps.take(i)) <= grammar_size(ps),
    decreases ps.len(),
{
    if i == ps.len() {
        assert(ps.take(i) =~= ps);
        lemma_grammar_size_nonneg(ps);
    } else {
        lemma_grammar_size_prefix(ps.drop_last(), i);
        assert(ps.drop_last().take(i) =~= ps.take(i));
        lemma_alts_size_nonneg(ps.last().rhs@);
    }
}

proof fn lemma_flat_push(ps: Seq<Production>, p: Production)
    ensures
        flat(ps.push(p)) == flat(ps) + production_rules(p),
{
    assert(ps.push(p).drop_last() =~= ps);
}

/// The index of a symbol in a list of symbols, if it is there.
fn find_symbol(syms: &Vec<Symbol>, s: &Symbol) -> (r: Option<usize>)
    ensures
        match r {
            Some(i) => i < syms@.len() && syms@[i as int]@ == s@,
            None => forall|i: int| 0 <= i < syms@.len() ==> syms@[i]@ != s@,
        },
{
    let mut i: usize = 0;
    while i < syms.len()
        invariant
            i <= syms@.len(),
            forall|j: int| 0 <= j < i ==> syms@[j]@ != s@,
        decreases syms@.len() - i,
    {
        if syms[i].same(s) {
            return Some(i);
        }
        i = i + 1;
    }
    None
}

/// The index of `s` in `syms`, appending it when it is not there.
fn intern(syms: &mut Vec<Symbol>, s: &Symbol) -> (id: usize)
    requires
        views(old(syms)@).no_duplicates(),
        old(syms)@.len() < usize::MAX,
    ensures
        views(final(syms)@).no_duplicates(),
        views(final(syms)@) == views(old(syms)@) || views(final(syms)@) == views(
            old(syms)@,
        ).push(s@),
        views(final(syms)@).contains(s@),
        id < final(syms)@.len(),
        final(syms)@[id as int]@ == s@,
        old(syms)@.len() <= final(syms)@.len() <= old(syms)@.len() + 1,
        forall|i: int| 0 <= i < old(syms)@.len() ==> final(syms)@[i]@ == old(syms)@[i]@,
        forall|v: SymbolView|
            #[trigger] views(final(syms)@).contains(v) <==> (views(old(syms)@).contains(v) || v == s@),
{
    match find_symbol(syms, s) {
        Some(i) => {
            assert(views(syms@)[i as int] == s@);
            i
        },
        None => {
            let ghost before = views(syms@);
            let n = syms.len();
            syms.push(s.duplicate());
            assert(views(syms@) =~= before.push(s@));
            assert(views(syms@)[n as int] == s@);
            assert forall|i: int| 0 <= i < n implies syms@[i]@ == before[i] by {
                assert(views(syms@)[i] == syms@[i]@);
            }
            assert forall|v: SymbolView|
                #[trigger] views(syms@).contains(v) <==> (before.contains(v) || v == s@) by {
                if before.contains(v) {
                    let i = choose|i: int| 0 <= i < before.len() && before[i] == v;
                    assert(views(syms@)[i] == v);
                }
                if views(syms@).contains(v) && v != s@ {
                    let i = choose|i: int| 0 <= i < views(syms@).len() && views(syms@)[i] == v;
                    assert(before[i] == v);
                }
            }
            n
        },
    }
}

impl IndexedGrammar {
    pub open spec fn sym(&self, i: int) -> SymbolView {
        self.symbols@[i]@
    }

    pub open spec fn num_symbols(&self) -> int {
        self.symbols@.len() as int
    }

    pub open spec fn is_term(&self, i: int) -> bool {
        self.sym(i) is Terminal
    }

    pub open spec fn lhs(&self, r: int) -> int {
        self.rules@[r].lhs as int
    }

    pub open spec fn rhs(&self, r: int) -> Seq<usize> {
        self.rules@[r].rhs@
    }

    /// Each rule as its left-hand side and alternative, in order.
    pub open spec fn keys(&self) -> Seq<(usize, Seq<usize>)> {
        Seq::new(self.rules@.len(), |r: int| (self.rules@[r].lhs, self.rules@[r].rhs@))
    }

    pub open spec fn decode_rule(&self, r: int) -> RuleView {
        (self.sym(self.lhs(r)), self.rhs(r).map_values(|x: usize| self.sym(x as int)))
    }

    /// The rules with their symbols written out.
    pub open spec fn decoded(&self) -> Seq<RuleView> {
        Seq::new(self.rules@.len(), |r: int| self.decode_rule(r))
    }

    /// The numbering is sound: `ε` and `$` first, no symbol twice, every
    /// rule over numbered symbols with a nonterminal on its left and no `ε`.
    pub open spec fn wf(&self) -> bool {
        &&& self.symbols@.len() >= 2
        &&& self.sym(0) == epsilon_view()
        &&& self.sym(1) == dollar_view()
        &&& views(self.symbols@).no_duplicates()
        &&& self.symbols@.len() < usize::MAX
        &&& rule_keys(self.index) == self.keys()
        &&& forall|r: int|
            0 <= r < self.rules@.len() ==> 0 <= #[trigger] self.lhs(r) < self.num_symbols()
                && !self.is_term(self.lhs(r))
        &&& forall|r: int, k: int|
            0 <= r < self.rules@.len() && 0 <= k < self.rhs(r).len() ==> 1 <= #[trigger] self.rhs(
                r,
            )[k] < self.num_symbols()
    }
}

/// The number of symbol occurrences in a list of alternatives.
pub open spec fn alts_size(alts: Seq<Vec<Symbol>>) -> int
    decreases alts.len(),
{
    if alts.len() == 0 {
        0
    } else {
        alts_size(alts.drop_last()) + alts.last()@.len()
    }
}

/// The number of symbol occurrences in productions, left-hand sides included.
pub open spec fn grammar_size(ps: Seq<Production>) -> int
    decreases ps.len(),
{
    if ps.len() == 0 {
        0
    } else {
        grammar_size(ps.drop_last()) + 1 + alts_size(ps.last().rhs@)
    }
}

/// `v` stands in `p` as its left-hand side, in an alternative before `a`, or
/// in alternative `a` before position `k`.
pub open spec fn in_production_upto(p: Production, a: int, k: int, v: SymbolView) -> bool {
    v == SymbolView::Nonterminal(p.lhs@) || exists|b: int, j: int|
        0 <= b < p.rhs@.len() && 0 <= j < p.rhs@[b]@.len() && (b < a || (b == a && j < k))
            && #[trigger] p.rhs@[b]@[j]@ == v
}

/// The symbols of `syms` are those of `base` and those that `p` holds up to
/// alternative `a`, position `k`.
pub open spec fn covers(syms: Seq<Symbol>, base: Seq<Symbol>, p: Production, a: int, k: int) -> bool {
    forall|v: SymbolView|
        #[trigger] views(syms).contains(v) <==> (views(base).contains(v) || in_production_upto(p, a, k, v))
}

proof fn lemma_alts_size_prefix(alts: Seq<Vec<Symbol>>, i: int)
    requires
        0 <= i <= alts.len(),
    ensures
        0 <= alts_size(alts.take(i)) <= alts_size(alts),
    decreases alts.len(),
{
    if i == alts.len() {
        assert(alts.take(i) =~= alts);
        lemma_alts_size_nonneg(alts);
    } else {
        lemma_alts_size_prefix(alts.drop_last(), i);
        assert(alts.drop_last().take(i) =~= alts.take(i));
    }
}

proof fn lemma_alts_size_nonneg(alts: Seq<Vec<Symbol>>)
    ensures
        alts_size(alts) >= 0,
    decreases alts.len(),
{
    if alts.len() > 0 {
        lemma_alts_size_nonneg(alts.drop_last());
    }
}

proof fn lemma_grammar_size_nonneg(ps: Seq<Production>)
    ensures
        grammar_size(ps) >= 0,
    decreases ps.len(),
{
    if ps.len() > 0 {
        lemma_grammar_size_nonneg(ps.drop_last());
        lemma_alts_size_nonneg(ps.last().rhs@);
    }
}

impl IndexedGrammar {
    /// Appending symbols keeps a numbering sound.
    proof fn lemma_wf_grow(&self, other: &IndexedGrammar)
        requires
            self.wf(),
            other.rules@ == self.rules@,
            other.index == self.index,
            other.symbols@.len() >= self.symbols@.len(),
            other.symbols@.len() < usize::MAX,
            views(other.symbols@).no_duplicates(),
            forall|i: int| 0 <= i < self.num_symbols() ==> other.sym(i) == self.sym(i),
        ensures
            other.wf(),
    {
        assert forall|r: int| 0 <= r < other.rules@.len() implies 0 <= #[trigger] other.lhs(r) < other.num_symbols()
                && !other.is_term(other.lhs(r)) by {
            assert(self.lhs(r) < self.num_symbols());
        }
        assert forall|r: int, k: int|
            0 <= r < other.rules@.len() && 0 <= k < other.rhs(r).len() implies 1 <= #[trigger] other.rhs(r)[k] < other.num_symbols() by {
            assert(1 <= self.rhs(r)[k] < self.num_symbols());
        }
    }

    /// Two rules decode alike exactly when they have the same indices.
    proof fn lemma_decode_injective(&self, r: int, lhs: usize, ids: Seq<usize>)
        requires
            self.wf(),
            0 <= r < self.rules@.len(),
            lhs < self.num_symbols(),
            forall|k: int| 0 <= k < ids.len() ==> ids[k] < self.num_symbols(),
        ensures
            self.decode_rule(r) == (self.sym(lhs as int), ids.map_values(|x: usize| self.sym(x as int)))
                <==> (self.rules@[r].lhs == lhs && self.rules@[r].rhs@ == ids),
    {
        let vs = views(self.symbols@);
        assert forall|i: int, j: int|
            0 <= i < self.num_symbols() && 0 <= j < self.num_symbols() && self.sym(i) == self.sym(j) implies i == j by {
            assert(vs[i] == self.sym(i) && vs[j] == self.sym(j));
        }
        let a = self.rhs(r).map_values(|x: usize| self.sym(x as int));
        let b = ids.map_values(|x: usize| self.sym(x as int));
        if a == b {
            assert(a.len() == b.len());
            assert forall|k: int| 0 <= k < ids.len() implies self.rhs(r)[k] == ids[k] by {
                assert(a[k] == b[k]);
                assert(self.rhs(r)[k] < self.num_symbols());
            }
            assert(self.rhs(r) =~= ids);
        }
    }

    /// Growing the symbol list at its end leaves the decoded rules as they are.
    proof fn lemma_decoded_stable(&self, other: &IndexedGrammar)
        requires
            self.wf(),
            other.rules@ == self.rules@,
            other.symbols@.len() >= self.symbols@.len(),
            forall|i: int| 0 <= i < self.num_symbols() ==> other.sym(i) == self.sym(i),
        ensures
            other.decoded() == self.decoded(),
    {
        assert forall|r: int| 0 <= r < self.rules@.len() implies other.decode_rule(r) == self.decode_rule(r) by {
            assert(self.lhs(r) < self.num_symbols());
            assert(other.rhs(r).map_values(|x: usize| other.sym(x as int)) =~= self.rhs(r).map_values(|x: usize| self.sym(x as int)));
        }
        assert(other.decoded() =~= self.decoded());
    }

    /// Adds the symbols and the new rules of one production.
    fn add_production(&mut self, p: &Production) -> (idx: Vec<usize>)
        requires
            old(self).wf(),
            old(self).symbols@.len() + 1 + alts_size(p.rhs@) < usize::MAX,
        ensures
            final(self).wf(),
            final(self).decoded() == dedup_onto(old(self).decoded(), production_rules(*p)),
            final(self).symbols@.len() <= old(self).symbols@.len() + 1 + alts_size(p.rhs@),
            forall|i: int| 0 <= i < old(self).num_symbols() ==> final(self).sym(i) == old(self).sym(i),
            forall|v: SymbolView|
                #[trigger] views(final(self).symbols@).contains(v) <==> (views(old(self).symbols@).contains(v)
                    || in_production(*p, v)),
            idx@.len() == p.rhs@.len(),
            forall|b: int|
                0 <= b < idx@.len() ==> #[trigger] idx@[b] < final(self).rules@.len()
                    && final(self).decoded()[idx@[b] as int] == production_rules(*p)[b],
    {
        let mut idx: Vec<usize> = Vec::new();
        let lhs_sym = Symbol::Nonterminal(p.lhs.clone());
        let ghost g0 = *self;
        let lhs = intern(&mut self.symbols, &lhs_sym);
        proof {
            g0.lemma_decoded_stable(self);
            lemma_alts_size_nonneg(p.rhs@);
            g0.lemma_wf_grow(self);
            assert(p.rhs@.take(0) =~= Seq::<Vec<Symbol>>::empty());
            assert(production_rules(*p).take(0) =~= Seq::<RuleView>::empty());
            assert(views(self.symbols@)[lhs as int] == self.sym(lhs as int));
        }
        let mut a: usize = 0;
        while a < p.rhs.len()
            invariant
                self.wf(),
                g0 == *old(self),
                a <= p.rhs@.len(),
                lhs < self.num_symbols(),
                self.sym(lhs as int) == SymbolView::Nonterminal(p.lhs@),
                self.decoded() == dedup_onto(g0.decoded(), production_rules(*p).take(a as int)),
                self.symbols@.len() <= g0.symbols@.len() + 1 + alts_size(p.rhs@.take(a as int)),
                self.symbols@.len() >= g0.symbols@.len(),
                alts_size(p.rhs@.take(a as int)) <= alts_size(p.rhs@),
                g0.symbols@.len() + 1 + alts_size(p.rhs@) < usize::MAX,
                forall|i: int| 0 <= i < g0.num_symbols() ==> self.sym(i) == g0.sym(i),
                covers(self.symbols@, g0.symbols@, *p, a as int, 0),
                idx@.len() == a,
                forall|b: int|
                    0 <= b < idx@.len() ==> #[trigger] idx@[b] < self.rules@.len()
                        && self.decoded()[idx@[b] as int] == production_rules(*p)[b],
            decreases p.rhs@.len() - a,
        {
            let alt = &p.rhs[a];
            let mut ids: Vec<usize> = Vec::new();
            let mut k: usize = 0;
            let ghost g1 = *self;
            proof {
                assert(p.rhs@.take(a as int + 1).drop_last() =~= p.rhs@.take(a as int));
                lemma_alts_size_prefix(p.rhs@, a as int + 1);
                assert(alt@.take(0) =~= Seq::<Symbol>::empty());
                assert(views(alt@.take(0)) =~= Seq::<SymbolView>::empty());
                assert(ids@.map_values(|x: usize| self.sym(x as int)) =~= Seq::<SymbolView>::empty());
                assert(covers(self.symbols@, g0.symbols@, *p, a as int, k as int));
            }
            while k < alt.len()
                invariant
                    self.wf(),
                    g0 == *old(self),
                    alt == p.rhs@[a as int],
                    a < p.rhs@.len(),
                    k <= alt@.len(),
                    lhs < self.num_symbols(),
                    self.rules@ == g1.rules@,
                    self.symbols@.len() >= g1.symbols@.len(),
                    forall|i: int| 0 <= i < g1.num_symbols() ==> self.sym(i) == g1.sym(i),
                    forall|i: int| 0 <= i < g0.num_symbols() ==> g1.sym(i) == g0.sym(i),
                    g1.symbols@.len() >= g0.symbols@.len(),
                    self.symbols@.len() <= g1.symbols@.len() + k,
                    g1.symbols@.len() <= g0.symbols@.len() + 1 + alts_size(p.rhs@.take(a as int)),
                    alts_size(p.rhs@.take(a as int + 1)) <= alts_size(p.rhs@),
                    alts_size(p.rhs@.take(a as int + 1)) == alts_size(p.rhs@.take(a as int)) + alt@.len(),
                    g0.symbols@.len() + 1 + alts_size(p.rhs@) < usize::MAX,
                    forall|j: int| 0 <= j < ids@.len() ==> 1 <= #[trigger] ids@[j] < self.num_symbols(),
                    ids@.map_values(|x: usize| self.sym(x as int)) == strip(views(alt@.take(k as int))),
                    covers(self.symbols@, g0.symbols@, *p, a as int, k as int),
                decreases alt@.len() - k,
            {
                let ghost before = *self;
                let ghost before_ids = ids@;
                proof {
                    assert(views(alt@.take(k as int + 1)).drop_last() =~= views(alt@.take(k as int)));
                    assert(views(alt@.take(k as int + 1)).last() == alt@[k as int]@);
                }
                if !alt[k].is_epsilon() {
                    let id = intern(&mut self.symbols, &alt[k]);
                    proof {
                        if id == 0 {
                            assert(views(self.symbols@)[0] == epsilon_view());
                        }
                    }
                    ids.push(id);
                    proof {
                        before.lemma_wf_grow(self);
                        assert(ids@.map_values(|x: usize| self.sym(x as int)) =~= before_ids.map_values(|x: usize| before.sym(x as int)).push(alt@[k as int]@));
                    }
                } else {
                    proof {
                        assert(views(self.symbols@)[0] == epsilon_view());
                    }
                }
                proof {
                    assert forall|v: SymbolView|
                        in_production_upto(*p, a as int, k as int + 1, v) <==> (in_production_upto(*p, a as int, k as int, v) || v == alt@[k as int]@) by {
                        if v == alt@[k as int]@ {
                            assert(p.rhs@[a as int]@[k as int]@ == v);
                        }
                    }
                    assert(views(self.symbols@).contains(epsilon_view())) by {
                        assert(views(self.symbols@)[0] == epsilon_view());
                    }
                    assert forall|v: SymbolView|
                        #[trigger] views(self.symbols@).contains(v) <==> (views(g0.symbols@).contains(v)
                            || in_production_upto(*p, a as int, k as int + 1, v)) by {
                        assert(views(before.symbols@).contains(v) <==> (views(g0.symbols@).contains(v)
                            || in_production_upto(*p, a as int, k as int, v)));
                    }
                    assert(covers(self.symbols@, g0.symbols@, *p, a as int, k as int + 1));
                }
                k = k + 1;
            }
            proof {
                assert(alt@.take(k as int) =~= alt@);
                g1.lemma_decoded_stable(self);
                assert forall|v: SymbolView|
                    #[trigger] in_production_upto(*p, a as int + 1, 0, v) <==> in_production_upto(*p, a as int, k as int, v) by {
                    if in_production_upto(*p, a as int + 1, 0, v) && v != SymbolView::Nonterminal(p.lhs@) {
                        let (b, j) = choose|b: int, j: int|
                            0 <= b < p.rhs@.len() && 0 <= j < p.rhs@[b]@.len() && (b < a + 1 || (b == a + 1 && j < 0))
                                && #[trigger] p.rhs@[b]@[j]@ == v;
                        assert(0 <= b < p.rhs@.len() && 0 <= j < p.rhs@[b]@.len() && (b < a || (b == a && j < k)) && p.rhs@[b]@[j]@ == v);
                    }
                }
                assert(production_rules(*p).take(a as int + 1).drop_last() =~= production_rules(*p).take(a as int));
                assert(covers(self.symbols@, g0.symbols@, *p, a as int + 1, 0)) by {
                    assert forall|v: SymbolView| #[trigger] views(self.symbols@).contains(v) <==> (views(g0.symbols@).contains(v)
                        || in_production_upto(*p, a as int + 1, 0, v)) by {
                        assert(in_production_upto(*p, a as int + 1, 0, v) <==> in_production_upto(*p, a as int, k as int, v));
                    }
                }
                assert(production_rules(*p).take(a as int + 1).last() == (SymbolView::Nonterminal(p.lhs@), strip(views(alt@))));
            }
            let found = rule_position(&self.index, lhs, &ids);
            proof {
                match found {
                    Some(i) => {
                        assert(self.keys()[i as int] == (lhs, ids@));
                    },
                    None => {
                        assert forall|r: int| 0 <= r < self.rules@.len() implies !(self.rules@[r].lhs == lhs && self.rules@[r].rhs@ == ids@) by {
                            if self.rules@[r].lhs == lhs && self.rules@[r].rhs@ == ids@ {
                                assert(self.keys()[r] == (lhs, ids@));
                            }
                        }
                    },
                }
            }
            proof {
                assert forall|r: int| 0 <= r < self.rules@.len() implies
                    (self.decode_rule(r) == (SymbolView::Nonterminal(p.lhs@), strip(views(alt@))))
                    == (self.rules@[r].lhs == lhs && self.rules@[r].rhs@ == ids@) by {
                    self.lemma_decode_injective(r, lhs, ids@);
                }
            }
            let ghost pre_push = *self;
            match found {
                Some(i) => {
                    proof {
                        assert(self.decoded()[i as int] == self.decode_rule(i as int));
                    }
                    idx.push(i);
                },
                None => {
                    let ghost before = *self;
                    idx.push(self.rules.len());
                    proof {
                        if self.decoded().contains((SymbolView::Nonterminal(p.lhs@), strip(views(alt@)))) {
                            let r = choose|r: int| 0 <= r < self.decoded().len() && self.decoded()[r] == (SymbolView::Nonterminal(p.lhs@), strip(views(alt@)));
                            assert(self.decode_rule(r) == self.decoded()[r]);
                        }
                    }
                    let key = ids.clone();
                    proof {
                        assert(key@ =~= ids@);
                    }
                    let _ = insert_rule(&mut self.index, lhs, key);
                    self.rules.push(Rule { lhs, rhs: ids });
                    proof {
                        let nr = before.rules@.len() as int;
                        assert(self.keys() =~= before.keys().push((lhs, self.rules@[nr].rhs@)));
                        assert forall|r: int| 0 <= r < self.rules@.len() implies 0 <= #[trigger] self.lhs(r) < self.num_symbols()
                                && !self.is_term(self.lhs(r)) by {
                            if r < nr {
                                assert(before.lhs(r) == self.lhs(r));
                            }
                        }
                        assert forall|r: int, k: int|
                            0 <= r < self.rules@.len() && 0 <= k < self.rhs(r).len() implies 1 <= #[trigger] self.rhs(r)[k] < self.num_symbols() by {
                            if r < nr {
                                assert(before.rhs(r) == self.rhs(r));
                            }
                        }
                        assert(self.decoded() =~= before.decoded().push((SymbolView::Nonterminal(p.lhs@), strip(views(alt@))))) by {
                            assert(self.decode_rule(before.rules@.len() as int) == (SymbolView::Nonterminal(p.lhs@), strip(views(alt@))));
                            assert forall|r: int| 0 <= r < before.rules@.len() implies self.decode_rule(r) == before.decode_rule(r) by {}
                        }
                    }
                },
            }
            proof {
                assert forall|b: int| 0 <= b < idx@.len() implies #[trigger] idx@[b] < self.rules@.len()
                        && self.decoded()[idx@[b] as int] == production_rules(*p)[b] by {
                    if b < a {
                        assert(pre_push.decoded()[idx@[b] as int] == production_rules(*p)[b]);
                        assert(self.decoded()[idx@[b] as int] == self.decode_rule(idx@[b] as int));
                        assert(pre_push.decoded()[idx@[b] as int] == pre_push.decode_rule(idx@[b] as int));
                    } else {
                        assert(production_rules(*p)[b] == (SymbolView::Nonterminal(p.lhs@), strip(views(alt@))));
                        assert(self.decoded()[idx@[b] as int] == self.decode_rule(idx@[b] as int));
                    }
                }
            }
            a = a + 1;
        }
        proof {
            assert(production_rules(*p).take(a as int) =~= production_rules(*p));
            assert(p.rhs@.take(a as int) =~= p.rhs@);
            assert forall|v: SymbolView| #[trigger] in_production_upto(*p, a as int, 0, v) <==> in_production(*p, v) by {
                if in_production_upto(*p, a as int, 0, v) && v != SymbolView::Nonterminal(p.lhs@) {
                    let (b, j) = choose|b: int, j: int|
                        0 <= b < p.rhs@.len() && 0 <= j < p.rhs@[b]@.len() && (b < a || (b == a && j < 0))
                            && #[trigger] p.rhs@[b]@[j]@ == v;
                    assert(p.rhs@[b]@[j]@ == v);
                }
                if in_production(*p, v) && v != SymbolView::Nonterminal(p.lhs@) {
                    let (b, j) = choose|b: int, j: int| 0 <= b < p.rhs@.len() && 0 <= j < p.rhs@[b]@.len() && #[trigger] p.rhs@[b]@[j]@ == v;
                    assert(0 <= b < p.rhs@.len() && 0 <= j < p.rhs@[b]@.len() && (b < a || (b == a && j < 0)) && p.rhs@[b]@[j]@ == v);
                }
            }
            assert forall|v: SymbolView|
                #[trigger] views(self.symbols@).contains(v) <==> (views(g0.symbols@).contains(v)
                    || in_production(*p, v)) by {
                assert(views(self.symbols@).contains(v) <==> (views(g0.symbols@).contains(v) || in_production_upto(*p, a as int, 0, v)));
                assert(in_production_upto(*p, a as int, 0, v) <==> in_production(*p, v));
            }
        }
        idx
    }
}

/// Why a grammar was refused.
#[derive(Debug, PartialEq, Eq)]
pub enum GrammarError {
    /// The augmenting production has no alternative or more than one.
    InvalidAugmentation,
    /// FOLLOW was asked of a terminal.
    FollowOfTerminal,
    /// A nonterminal stands in an alternative but has no rule of its own.
    UndefinedNonterminal { symbol: usize },
    /// Two different actions are owed to one cell of the SLR table: the one
    /// placed first and the one that met it, in the row of `state` and the
    /// column of `symbol`.
    Conflict { state: usize, symbol: usize, first: crate::slr::SLRInstruction, second: crate::slr::SLRInstruction },
}

impl IndexedGrammar {
    /// Numbers the symbols of `g` and lists its distinct rules.
    pub fn new(g: &Grammar) -> (r: IndexedGrammar)
        requires
            grammar_size(g.productions@) + 3 < usize::MAX,
        ensures
            r.wf(),
            r.decoded() == rules_of(g.productions@),
            forall|v: SymbolView|
                #[trigger] views(r.symbols@).contains(v) <==> (v == epsilon_view() || v == dollar_view()
                    || occurs(g.productions@, v)),
    {
        let mut r = IndexedGrammar::fresh();
        r.add_productions(&g.productions);
        r
    }

    /// Only `ε` and `$`, and no rule.
    fn fresh() -> (r: IndexedGrammar)
        ensures
            r.starts_fresh(),
    {
        let r = IndexedGrammar { symbols: vec![epsilon(), dollar()], rules: Vec::new(), index: new_rule_map() };
        proof {
            assert(r.keys() =~= Seq::<(usize, Seq<usize>)>::empty());
            assert(epsilon_view() != dollar_view()) by {
                assert(seq!['ε'][0] != seq!['$'][0]);
            }
            assert(views(r.symbols@) =~= seq![epsilon_view(), dollar_view()]);
        }
        r
    }

    spec fn starts_fresh(&self) -> bool {
        &&& self.wf()
        &&& self.symbols@.len() == 2
        &&& self.rules@.len() == 0
    }

    fn add_productions(&mut self, ps: &Vec<Production>)
        requires
            old(self).starts_fresh(),
            grammar_size(ps@) + 3 < usize::MAX,
        ensures
            final(self).wf(),
            final(self).decoded() == rules_of(ps@),
            final(self).symbols@.len() <= 2 + grammar_size(ps@),
            forall|v: SymbolView|
                #[trigger] views(final(self).symbols@).contains(v) <==> (v == epsilon_view() || v == dollar_view()
                    || occurs(ps@, v)),
    {
        let ghost g0 = *self;
        proof {
            assert(self.decoded() =~= Seq::<RuleView>::empty());
            assert(flat(ps@.take(0)) =~= Seq::<RuleView>::empty()) by {
                assert(ps@.take(0) =~= Seq::<Production>::empty());
            }
            assert forall|v: SymbolView|
                #[trigger] views(self.symbols@).contains(v) <==> (v == epsilon_view() || v == dollar_view()
                    || occurs(ps@.take(0), v)) by {
                if views(self.symbols@).contains(v) {
                    let i = choose|i: int| 0 <= i < 2 && views(self.symbols@)[i] == v;
                    assert(self.sym(i) == v);
                }
                if v == epsilon_view() {
                    assert(views(self.symbols@)[0] == v);
                }
                if v == dollar_view() {
                    assert(views(self.symbols@)[1] == v);
                }
            }
        }
        let mut i: usize = 0;
        while i < ps.len()
            invariant
                self.wf(),
                i <= ps@.len(),
                grammar_size(ps@) + 3 < usize::MAX,
                self.decoded() == dedup_onto(Seq::empty(), flat(ps@.take(i as int))),
                self.symbols@.len() <= 2 + grammar_size(ps@.take(i as int)),
                forall|v: SymbolView|
                    #[trigger] views(self.symbols@).contains(v) <==> (v == epsilon_view() || v == dollar_view()
                        || occurs(ps@.take(i as int), v)),
            decreases ps@.len() - i,
        {
            let ghost before = *self;
            proof {
                lemma_grammar_size_prefix(ps@, i as int + 1);
                assert(ps@.take(i as int + 1).drop_last() =~= ps@.take(i as int));
                lemma_alts_size_nonneg(ps@[i as int].rhs@);
            }
            let _ = self.add_production(&ps[i]);
            proof {
                let p = ps@[i as int];
                assert(ps@.take(i as int + 1) =~= ps@.take(i as int).push(p));
                lemma_flat_push(ps@.take(i as int), p);
                lemma_dedup_onto_concat(Seq::empty(), flat(ps@.take(i as int)), production_rules(p));
                assert forall|v: SymbolView|
                    #[trigger] views(self.symbols@).contains(v) <==> (v == epsilon_view() || v == dollar_view()
                        || occurs(ps@.take(i as int + 1), v)) by {
                    assert(views(before.symbols@).contains(v) <==> (v == epsilon_view() || v == dollar_view()
                        || occurs(ps@.take(i as int), v)));
                    if occurs(ps@.take(i as int + 1), v) {
                        let q = choose|q: int| 0 <= q < i + 1 && #[trigger] in_production(ps@.take(i as int + 1)[q], v);
                        if q < i {
                            assert(in_production(ps@.take(i as int)[q], v));
                        }
                    }
                    if occurs(ps@.take(i as int), v) {
                        let q = choose|q: int| 0 <= q < i && #[trigger] in_production(ps@.take(i as int)[q], v);
                        assert(in_production(ps@.take(i as int + 1)[q], v));
                    }
                    if in_production(p, v) {
                        assert(in_production(ps@.take(i as int + 1)[i as int], v));
                    }
                }
            }
            i = i + 1;
        }
        proof {
            assert(ps@.take(i as int) =~= ps@);
        }
    }
}

/// A grammar with an added start production `S' -> S`.
pub struct AugmentedGrammar {
    pub grammar: IndexedGrammar,
    /// The index of the symbol `S'`.
    pub start: usize,
    /// The index of the rule `S' -> S`.
    pub start_rule: usize,
}

impl AugmentedGrammar {
    pub open spec fn wf(&self) -> bool {
        &&& self.grammar.wf()
        &&& self.start < self.grammar.num_symbols()
        &&& self.start_rule < self.grammar.rules@.len()
        &&& self.grammar.lhs(self.start_rule as int) == self.start as int
    }

    /// Indexes `g` with `augmentation` added as its last production. The
    /// augmentation must have exactly one alternative.
    pub fn new(g: &Grammar, augmentation: &Production) -> (r: Result<AugmentedGrammar, GrammarError>)
        requires
            grammar_size(g.productions@) + alts_size(augmentation.rhs@) + 4 < usize::MAX,
        ensures
            augmentation.rhs@.len() != 1 <==> r == Err::<AugmentedGrammar, GrammarError>(GrammarError::InvalidAugmentation),
            augmentation.rhs@.len() == 1 <==> r is Ok,
            r is Ok ==> {
                let a = r->Ok_0;
                &&& a.wf()
                &&& a.grammar.decoded() == rules_of(g.productions@.push(*augmentation))
                &&& a.grammar.sym(a.start as int) == SymbolView::Nonterminal(augmentation.lhs@)
                &&& a.grammar.decoded()[a.start_rule as int] == production_rules(*augmentation)[0]
                &&& forall|v: SymbolView|
                    #[trigger] views(a.grammar.symbols@).contains(v) <==> (v == epsilon_view() || v == dollar_view()
                        || occurs(g.productions@.push(*augmentation), v))
            },
    {
        if augmentation.rhs.len() != 1 {
            return Err(GrammarError::InvalidAugmentation);
        }
        proof {
            lemma_alts_size_nonneg(augmentation.rhs@);
            lemma_grammar_size_nonneg(g.productions@);
        }
        let mut ig = IndexedGrammar::fresh();
        ig.add_productions(&g.productions);
        let idx = ig.add_production(augmentation);
        let start_rule = idx[0];
        let start = ig.rules[start_rule].lhs;
        proof {
            let ps = g.productions@;
            let p = *augmentation;
            assert(ps.push(p).drop_last() =~= ps);
            lemma_dedup_onto_concat(Seq::empty(), flat(ps), production_rules(p));
            assert(ig.decoded()[start_rule as int] == ig.decode_rule(start_rule as int));
            assert(production_rules(p)[0].0 == SymbolView::Nonterminal(p.lhs@));
            assert forall|v: SymbolView|
                #[trigger] views(ig.symbols@).contains(v) <==> (v == epsilon_view() || v == dollar_view()
                    || occurs(ps.push(p), v)) by {
                if occurs(ps.push(p), v) {
                    let q = choose|q: int| 0 <= q < ps.len() + 1 && #[trigger] in_production(ps.push(p)[q], v);
                    if q < ps.len() {
                        assert(in_production(ps[q], v));
                    }
                }
                if occurs(ps, v) {
                    let q = choose|q: int| 0 <= q < ps.len() && #[trigger] in_production(ps[q], v);
                    assert(in_production(ps.push(p)[q], v));
                }
                if in_production(p, v) {
                    assert(in_production(ps.push(p)[ps.len() as int], v));
                }
            }
        }
        Ok(AugmentedGrammar { grammar: ig, start, start_rule })
    }
}

impl IndexedGrammar {
    /// The index of symbol `s`, if the grammar has it.
    pub fn index_of(&self, s: &Symbol) -> (r: Option<usize>)
        ensures
            match r {
                Some(i) => i < self.symbols@.len() && self.sym(i as int) == s@,
                None => forall|i: int| 0 <= i < self.symbols@.len() ==> self.sym(i) != s@,
            },
    {
        find_symbol(&self.symbols, s)
    }

    /// The number of the rule with left-hand side `lhs` and alternative `rhs`,
    /// if the grammar has it.
    pub fn get_index_of(&self, lhs: usize, rhs: &Vec<usize>) -> (r: Option<usize>)
        requires
            self.wf(),
        ensures
            match r {
                Some(i) => i < self.rules@.len() && self.rules@[i as int].lhs == lhs && self.rules@[i as int].rhs@
                    == rhs@,
                None => forall|i: int|
                    0 <= i < self.rules@.len() ==> !(self.rules@[i].lhs == lhs && self.rules@[i].rhs@ == rhs@),
            },
    {
        let r = rule_position(&self.index, lhs, rhs);
        proof {
            if r is None {
                assert forall|i: int| 0 <= i < self.rules@.len() implies !(self.rules@[i].lhs == lhs && self.rules@[i].rhs@ == rhs@) by {
                    if self.rules@[i].lhs == lhs && self.rules@[i].rhs@ == rhs@ {
                        assert(self.keys()[i] == (lhs, rhs@));
                    }
                }
            } else {
                assert(self.keys()[r->Some_0 as int] == (lhs, rhs@));
            }
        }
        r
    }

    /// The symbol with index `i`.
    pub fn symbol(&self, i: usize) -> (r: &Symbol)
        requires
            i < self.symbols@.len(),
        ensures
            r@ == self.sym(i as int),
    {
        &self.symbols[i]
    }

    /// The indices of the grammar's own symbols (every symbol but `ε` and
    /// `$`) whose kind is `terminal`, in increasing order.
    fn indices_of_kind(&self, terminal: bool) -> (r: Vec<usize>)
        requires
            self.wf(),
        ensures
            forall|k: int| 0 <= k < r@.len() ==> 2 <= #[trigger] r@[k] < self.num_symbols() && self.is_term(r@[k] as int) == terminal,
            forall|i: int| 2 <= i < self.num_symbols() && self.is_term(i) == terminal ==> r@.contains(i as usize),
            forall|a: int, b: int| 0 <= a < b < r@.len() ==> r@[a] < r@[b],
    {
        let mut r: Vec<usize> = Vec::new();
        let mut i: usize = 2;
        while i < self.symbols.len()
            invariant
                self.wf(),
                2 <= i <= self.num_symbols(),
                forall|k: int| 0 <= k < r@.len() ==> 2 <= #[trigger] r@[k] < i && self.is_term(r@[k] as int) == terminal,
                forall|j: int| 2 <= j < i && self.is_term(j) == terminal ==> r@.contains(j as usize),
                forall|a: int, b: int| 0 <= a < b < r@.len() ==> r@[a] < r@[b],
            decreases self.num_symbols() - i,
        {
            if self.symbols[i].is_terminal() == terminal {
                let ghost before = r@;
                r.push(i);
                proof {
                    assert forall|j: int| 2 <= j < i + 1 && self.is_term(j) == terminal implies r@.contains(j as usize) by {
                        if j == i {
                            assert(r@[before.len() as int] == i);
                        } else {
                            let m = choose|m: int| 0 <= m < before.len() && before[m] == j as usize;
                            assert(r@[m] == j as usize);
                        }
                    }
                }
            }
            i = i + 1;
        }
        r
    }

    /// The terminals of the grammar, `ε` and `$` left out, by index.
    pub fn terminals(&self) -> (r: Vec<usize>)
        requires
            self.wf(),
        ensures
            forall|k: int| 0 <= k < r@.len() ==> 2 <= #[trigger] r@[k] < self.num_symbols() && self.is_term(r@[k] as int),
            forall|i: int| 2 <= i < self.num_symbols() && self.is_term(i) ==> r@.contains(i as usize),
            forall|a: int, b: int| 0 <= a < b < r@.len() ==> r@[a] < r@[b],
    {
        self.indices_of_kind(true)
    }

    /// The nonterminals of the grammar, by index.
    pub fn nonterminals(&self) -> (r: Vec<usize>)
        requires
            self.wf(),
        ensures
            forall|k: int| 0 <= k < r@.len() ==> 2 <= #[trigger] r@[k] < self.num_symbols() && !self.is_term(r@[k] as int),
            forall|i: int| 2 <= i < self.num_symbols() && !self.is_term(i) ==> r@.contains(i as usize),
            forall|a: int, b: int| 0 <= a < b < r@.len() ==> r@[a] < r@[b],
    {
        self.indices_of_kind(false)
    }

    /// Every symbol of the grammar but `ε` and `$`, each once, in the order
    /// of their indices.
    pub fn symbols(&self) -> (r: Vec<Symbol>)
        requires
            self.wf(),
        ensures
            views(r@) == views(self.symbols@).subrange(2, self.num_symbols()),
    {
        let mut r: Vec<Symbol> = Vec::new();
        let mut i: usize = 2;
        while i < self.symbols.len()
            invariant
                self.wf(),
                2 <= i <= self.num_symbols(),
                views(r@) == views(self.symbols@).subrange(2, i as int),
            decreases self.num_symbols() - i,
        {
            let ghost before = r@;
            r.push(self.symbols[i].duplicate());
            proof {
                assert(views(r@) =~= views(before).push(self.symbols@[i as int]@));
                assert(views(self.symbols@).subrange(2, i as int + 1) =~= views(self.symbols@).subrange(2, i as int).push(self.symbols@[i as int]@));
            }
            i = i + 1;
        }
        r
    }

    /// The number of rules.
    pub fn len(&self) -> (r: usize)
        ensures
            r == self.rules@.len(),
    {
        self.rules.len()
    }
}

impl IndexedGrammar {
    /// Some rule has `y` on its left-hand side.
    pub open spec fn defined(&self, y: usize) -> bool {
        exists|r: int| 0 <= r < self.rules@.len() && #[trigger] self.rules@[r].lhs == y
    }

    /// Nonterminal `y` stands in the alternative of some rule.
    pub open spec fn used(&self, y: usize) -> bool {
        !self.is_term(y as int) && exists|r: int, k: int|
            0 <= r < self.rules@.len() && 0 <= k < self.rhs(r).len() && #[trigger] self.rhs(r)[k] == y
    }

    fn is_defined(&self, y: usize) -> (b: bool)
        ensures
            b == self.defined(y),
    {
        let mut r: usize = 0;
        while r < self.rules.len()
            invariant
                r <= self.rules@.len(),
                forall|q: int| 0 <= q < r ==> #[trigger] self.rules@[q].lhs != y,
            decreases self.rules@.len() - r,
        {
            if self.rules[r].lhs == y {
                return true;
            }
            r = r + 1;
        }
        false
    }

    /// Checks that every nonterminal used in an alternative has a rule; the
    /// other stages read a missing rule as contributing nothing.
    pub fn validate(&self) -> (r: Result<(), GrammarError>)
        requires
            self.wf(),
        ensures
            r is Ok <==> forall|y: usize| #[trigger] self.used(y) ==> self.defined(y),
            r is Err ==> match r->Err_0 {
                GrammarError::UndefinedNonterminal { symbol } => self.used(symbol) && !self.defined(symbol),
                _ => false,
            },
    {
        let mut r: usize = 0;
        while r < self.rules.len()
            invariant
                self.wf(),
                r <= self.rules@.len(),
                forall|q: int, k: int|
                    0 <= q < r && 0 <= k < self.rhs(q).len() && !self.is_term(self.rhs(q)[k] as int) ==> self.defined(
                        #[trigger] self.rhs(q)[k],
                    ),
            decreases self.rules@.len() - r,
        {
            let rhs = &self.rules[r].rhs;
            let mut k: usize = 0;
            while k < rhs.len()
                invariant
                    self.wf(),
                    r < self.rules@.len(),
                    rhs == self.rules@[r as int].rhs,
                    k <= rhs@.len(),
                    forall|q: int, j: int|
                        0 <= q < r && 0 <= j < self.rhs(q).len() && !self.is_term(self.rhs(q)[j] as int) ==> self.defined(
                            #[trigger] self.rhs(q)[j],
                        ),
                    forall|j: int| 0 <= j < k && !self.is_term(rhs@[j] as int) ==> self.defined(#[trigger] rhs@[j]),
                decreases rhs@.len() - k,
            {
                let y = rhs[k];
                proof {
                    assert(1 <= self.rhs(r as int)[k as int] < self.num_symbols());
                }
                if !self.symbols[y].is_terminal() && !self.is_defined(y) {
                    proof {
                        assert(self.rhs(r as int)[k as int] == y);
                        assert(self.used(y));
                    }
                    return Err(GrammarError::UndefinedNonterminal { symbol: y });
                }
                k = k + 1;
            }
            r = r + 1;
        }
        proof {
            assert forall|y: usize| #[trigger] self.used(y) implies self.defined(y) by {
                let (q, j) = choose|q: int, j: int|
                    0 <= q < self.rules@.len() && 0 <= j < self.rhs(q).len() && #[trigger] self.rhs(q)[j] == y;
            }
        }
        Ok(())
    }
}

} // verus!
