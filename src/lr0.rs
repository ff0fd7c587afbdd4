use crate::counting::{lemma_family_bound, pow2};
use crate::grammar::{AugmentedGrammar, IndexedGrammar};
use vstd::prelude::*;

verus! {

/// A rule with a dot: `dot` symbols of its alternative have been matched.
#[derive(Debug, Clone, Copy, PartialEq, Eq, Structural)]
pub struct LR0Item {
    pub rule: usize,
    pub dot: usize,
}

/// A set of items, each listed once.
pub struct LR0ItemSet {
    pub items: Vec<LR0Item>,
}

impl IndexedGrammar {
    /// The item names a rule of the grammar and a dot inside its alternative.
    pub open spec fn valid_item(&self, it: LR0Item) -> bool {
        it.rule < self.rules@.len() && it.dot <= self.rhs(it.rule as int).len()
    }

    /// The dot stands before symbol `x`.
    pub open spec fn expects(&self, it: LR0Item, x: usize) -> bool {
        it.dot < self.rhs(it.rule as int).len() && self.rhs(it.rule as int)[it.dot as int] == x
    }

    /// The dot stands at the end of the alternative.
    pub open spec fn completed(&self, it: LR0Item) -> bool {
        it.dot == self.rhs(it.rule as int).len()
    }
}

/// Every item of `s` whose dot stands before a nonterminal brings in the
/// rules of that nonterminal with the dot at the start.
pub open spec fn closed(g: IndexedGrammar, s: Set<LR0Item>) -> bool {
    forall|it: LR0Item, r: int|
        #![trigger s.contains(it), g.lhs(r)]
        s.contains(it) && g.valid_item(it) && 0 <= r < g.rules@.len() && g.expects(it, g.lhs(r) as usize)
            ==> s.contains(LR0Item { rule: r as usize, dot: 0 })
}

/// `c` is the closure of `s`: the least closed set that holds `s`.
pub open spec fn is_closure(g: IndexedGrammar, s: Set<LR0Item>, c: Set<LR0Item>) -> bool {
    &&& s.subset_of(c)
    &&& closed(g, c)
    &&& forall|t: Set<LR0Item>| #[trigger] closed(g, t) && s.subset_of(t) ==> c.subset_of(t)
}

/// The items of `s` that expect `x`, with the dot moved past it.
pub open spec fn kernel(g: IndexedGrammar, s: Set<LR0Item>, x: usize) -> Set<LR0Item> {
    Set::new(
        |it: LR0Item|
            it.dot >= 1 && s.contains(LR0Item { rule: it.rule, dot: (it.dot - 1) as usize }) && g.expects(
                LR0Item { rule: it.rule, dot: (it.dot - 1) as usize },
                x,
            ),
    )
}

impl LR0Item {
    /// The symbol after the dot, if the dot is not at the end.
    pub fn expect(&self, g: &IndexedGrammar) -> (r: Option<usize>)
        requires
            g.valid_item(*self),
        ensures
            match r {
                Some(x) => g.expects(*self, x),
                None => g.completed(*self),
            },
    {
        let rhs = &g.rules[self.rule].rhs;
        if self.dot < rhs.len() {
            Some(rhs[self.dot])
        } else {
            None
        }
    }
}

impl LR0ItemSet {
    pub open spec fn view_set(&self) -> Set<LR0Item> {
        self.items@.to_set()
    }

    /// No item twice, and every item valid in `g`.
    pub open spec fn wf(&self, g: IndexedGrammar) -> bool {
        &&& self.items@.no_duplicates()
        &&& forall|k: int| 0 <= k < self.items@.len() ==> g.valid_item(#[trigger] self.items@[k])
    }

    pub fn new() -> (r: LR0ItemSet)
        ensures
            r.items@ == Seq::<LR0Item>::empty(),
    {
        LR0ItemSet { items: Vec::new() }
    }

    /// Whether `it` is in the set.
    pub fn contains(&self, it: &LR0Item) -> (r: bool)
        ensures
            r == self.view_set().contains(*it),
    {
        let mut i: usize = 0;
        while i < self.items.len()
            invariant
                i <= self.items@.len(),
                forall|j: int| 0 <= j < i ==> self.items@[j] != *it,
            decreases self.items@.len() - i,
        {
            if self.items[i] == *it {
                proof {
                    assert(self.items@[i as int] == *it);
                }
                return true;
            }
            i = i + 1;
        }
        false
    }

    /// The closure of the set in `g`.
    pub fn closure(&self, g: &IndexedGrammar) -> (r: LR0ItemSet)
        requires
            g.wf(),
            self.wf(*g),
        ensures
            r.wf(*g),
            is_closure(*g, self.view_set(), r.view_set()),
    {
        let s0 = self.items.len();
        let nr = g.rules.len();
        let mut items = self.items.clone();
        proof {
            assert(items@ =~= self.items@);
        }
        let mut i: usize = 0;
        while i < items.len()
            invariant
                g.wf(),
                self.wf(*g),
                nr == g.rules@.len(),
                s0 == self.items@.len(),
                s0 <= items@.len(),
                i <= items@.len(),
                items@.take(s0 as int) == self.items@,
                items@.no_duplicates(),
                forall|k: int| 0 <= k < items@.len() ==> g.valid_item(#[trigger] items@[k]),
                forall|k: int| s0 <= k < items@.len() ==> (#[trigger] items@[k]).dot == 0,
                forall|t: Set<LR0Item>| #[trigger] closed(*g, t) && self.view_set().subset_of(t) ==> items@.to_set().subset_of(t),
                forall|k: int, r: int|
                    #![trigger items@[k], g.lhs(r)]
                    0 <= k < i && 0 <= r < nr && g.expects(items@[k], g.lhs(r) as usize)
                        ==> items@.contains(LR0Item { rule: r as usize, dot: 0 }),
            decreases s0 + nr - i,
        {
            proof {
                let added = items@.subrange(s0 as int, items@.len() as int).map_values(|it: LR0Item| it.rule);
                assert(added.no_duplicates()) by {
                    assert forall|a: int, b: int| 0 <= a < added.len() && 0 <= b < added.len() && a != b implies added[a] != added[b] by {
                        assert(items@[s0 + a] != items@[s0 + b]);
                        assert(items@[s0 + a].dot == 0 && items@[s0 + b].dot == 0);
                    }
                }
                assert forall|k: int| 0 <= k < added.len() implies added[k] < nr by {
                    assert(g.valid_item(items@[s0 + k]));
                }
                crate::rows::lemma_distinct_below(added, nr as int);
            }
            let it = items[i];
            proof {
                assert(g.valid_item(items@[i as int]));
            }
            if let Some(y) = it.expect(g) {
                let mut r: usize = 0;
                while r < nr
                    invariant
                        g.wf(),
                        self.wf(*g),
                        nr == g.rules@.len(),
                        s0 == self.items@.len(),
                        s0 <= items@.len(),
                        i < items@.len(),
                        it == items@[i as int],
                        g.expects(it, y),
                        r <= nr,
                        items@.take(s0 as int) == self.items@,
                        items@.no_duplicates(),
                        forall|k: int| 0 <= k < items@.len() ==> g.valid_item(#[trigger] items@[k]),
                        forall|k: int| s0 <= k < items@.len() ==> (#[trigger] items@[k]).dot == 0,
                        forall|t: Set<LR0Item>| #[trigger] closed(*g, t) && self.view_set().subset_of(t) ==> items@.to_set().subset_of(t),
                        forall|k: int, q: int|
                            #![trigger items@[k], g.lhs(q)]
                            0 <= k < i && 0 <= q < nr && g.expects(items@[k], g.lhs(q) as usize)
                                ==> items@.contains(LR0Item { rule: q as usize, dot: 0 }),
                        forall|q: int|
                            #![trigger g.lhs(q)]
                            0 <= q < r && g.lhs(q) == y ==> items@.contains(LR0Item { rule: q as usize, dot: 0 }),
                    decreases nr - r,
                {
                    if g.rules[r].lhs == y {
                        let fresh = LR0Item { rule: r, dot: 0 };
                        let mut present = false;
                        let mut j: usize = 0;
                        while j < items.len()
                            invariant
                                j <= items@.len(),
                                !present ==> forall|m: int| 0 <= m < j ==> items@[m] != fresh,
                                present ==> items@.contains(fresh),
                            decreases items@.len() - j,
                        {
                            if items[j] == fresh {
                                present = true;
                                proof {
                                    assert(items@[j as int] == fresh);
                                }
                            }
                            j = j + 1;
                        }
                        if !present {
                            let ghost before = items@;
                            items.push(fresh);
                            proof {
                                assert(items@.take(s0 as int) =~= before.take(s0 as int));
                                assert forall|a: int, b: int| 0 <= a < items@.len() && 0 <= b < items@.len() && a != b implies items@[a] != items@[b] by {
                                    if a < before.len() && b < before.len() {
                                        assert(before[a] != before[b]);
                                    }
                                }
                                assert(g.valid_item(fresh));
                                crate::rows::lemma_push_to_set_any(before, fresh);
                                assert forall|x: LR0Item| before.contains(x) implies items@.contains(x) by {
                                    let m = choose|m: int| 0 <= m < before.len() && before[m] == x;
                                    assert(items@[m] == x);
                                }
                                assert forall|t: Set<LR0Item>| #[trigger] closed(*g, t) && self.view_set().subset_of(t) implies items@.to_set().subset_of(t) by {
                                    assert(before.to_set().subset_of(t));
                                    assert(before.to_set().contains(it)) by {
                                        assert(before[i as int] == it);
                                    }
                                    assert(t.contains(it));
                                    assert(g.lhs(r as int) == y);
                                    assert(t.contains(fresh));
                                }
                                assert forall|k: int, q: int|
                                    #![trigger items@[k], g.lhs(q)]
                                    0 <= k < i && 0 <= q < nr && g.expects(items@[k], g.lhs(q) as usize)
                                        implies items@.contains(LR0Item { rule: q as usize, dot: 0 }) by {
                                    assert(items@[k] == before[k]);
                                    assert(before.contains(LR0Item { rule: q as usize, dot: 0 }));
                                }
                                assert forall|q: int|
                                    #![trigger g.lhs(q)]
                                    0 <= q < r + 1 && g.lhs(q) == y implies items@.contains(LR0Item { rule: q as usize, dot: 0 }) by {
                                    if q == r {
                                        assert(items@[before.len() as int] == fresh);
                                    } else {
                                        assert(before.contains(LR0Item { rule: q as usize, dot: 0 }));
                                    }
                                }
                            }
                        }
                    }
                    r = r + 1;
                }
            }
            proof {
                assert forall|k: int, q: int|
                    #![trigger items@[k], g.lhs(q)]
                    0 <= k < i + 1 && 0 <= q < nr && g.expects(items@[k], g.lhs(q) as usize)
                        implies items@.contains(LR0Item { rule: q as usize, dot: 0 }) by {
                    if k == i {
                        assert(items@[k] == it);
                    }
                }
            }
            i = i + 1;
        }
        proof {
            assert(items@.take(s0 as int) == self.items@);
            assert forall|x: LR0Item| self.view_set().contains(x) implies items@.to_set().contains(x) by {
                let k = choose|k: int| 0 <= k < self.items@.len() && self.items@[k] == x;
                assert(items@.take(s0 as int)[k] == x);
            }
            assert forall|x: LR0Item, q: int|
                #![trigger items@.to_set().contains(x), g.lhs(q)]
                items@.to_set().contains(x) && g.valid_item(x) && 0 <= q < g.rules@.len() && g.expects(x, g.lhs(q) as usize)
                    implies items@.to_set().contains(LR0Item { rule: q as usize, dot: 0 }) by {
                let k = choose|k: int| 0 <= k < items@.len() && items@[k] == x;
                assert(items@.contains(LR0Item { rule: q as usize, dot: 0 }));
            }
        }
        LR0ItemSet { items }
    }

    /// The state reached from this one over `x`: the closure of the kernel.
    pub fn goto(&self, g: &IndexedGrammar, x: usize) -> (r: LR0ItemSet)
        requires
            g.wf(),
            self.wf(*g),
        ensures
            r.wf(*g),
            is_closure(*g, kernel(*g, self.view_set(), x), r.view_set()),
    {
        let mut kern: Vec<LR0Item> = Vec::new();
        let mut i: usize = 0;
        while i < self.items.len()
            invariant
                g.wf(),
                self.wf(*g),
                i <= self.items@.len(),
                kern@.no_duplicates(),
                forall|k: int| 0 <= k < kern@.len() ==> g.valid_item(#[trigger] kern@[k]),
                forall|it: LR0Item|
                    #[trigger] kern@.contains(it) <==> (it.dot >= 1 && self.items@.take(i as int).contains(
                        LR0Item { rule: it.rule, dot: (it.dot - 1) as usize },
                    ) && g.expects(LR0Item { rule: it.rule, dot: (it.dot - 1) as usize }, x)),
            decreases self.items@.len() - i,
        {
            let it = self.items[i];
            let ghost before = kern@;
            proof {
                assert(self.items@.take(i as int + 1) =~= self.items@.take(i as int).push(it));
                assert(g.valid_item(self.items@[i as int]));
            }
            let rhs = &g.rules[it.rule].rhs;
            if it.dot < rhs.len() && rhs[it.dot] == x {
                let moved = LR0Item { rule: it.rule, dot: it.dot + 1 };
                proof {
                    assert(!before.contains(moved)) by {
                        if before.contains(moved) {
                            let m = choose|m: int| 0 <= m < i && #[trigger] self.items@.take(i as int)[m] == it;
                            assert(self.items@[m] == self.items@[i as int]);
                        }
                    }
                }
                kern.push(moved);
                proof {
                    assert forall|a: int, b: int| 0 <= a < kern@.len() && 0 <= b < kern@.len() && a != b implies kern@[a] != kern@[b] by {
                        if a < before.len() && b < before.len() {
                            assert(before[a] != before[b]);
                        } else if a < before.len() {
                            assert(before.contains(kern@[a]));
                        } else if b < before.len() {
                            assert(before.contains(kern@[b]));
                        }
                    }
                    crate::rows::lemma_push_to_set_any(before, moved);
                    assert forall|v: LR0Item| #[trigger] kern@.contains(v) <==> (before.contains(v) || v == moved) by {
                        assert(kern@.to_set().contains(v) == kern@.contains(v));
                        assert(before.to_set().contains(v) == before.contains(v));
                    }
                }
            }
            proof {
                assert forall|v: LR0Item| #[trigger] kern@.contains(v) <==> (v.dot >= 1 && self.items@.take(i as int + 1).contains(
                        LR0Item { rule: v.rule, dot: (v.dot - 1) as usize },
                    ) && g.expects(LR0Item { rule: v.rule, dot: (v.dot - 1) as usize }, x)) by {
                    let p = LR0Item { rule: v.rule, dot: (v.dot - 1) as usize };
                    if v.dot >= 1 && self.items@.take(i as int + 1).contains(p) && p != it {
                        let m = choose|m: int| 0 <= m < i + 1 && #[trigger] self.items@.take(i as int + 1)[m] == p;
                        assert(self.items@.take(i as int)[m] == p);
                    }
                    if v.dot >= 1 && self.items@.take(i as int).contains(p) {
                        let m = choose|m: int| 0 <= m < i && #[trigger] self.items@.take(i as int)[m] == p;
                        assert(self.items@.take(i as int + 1)[m] == p);
                    }
                    if v.dot >= 1 && p == it {
                        assert(self.items@.take(i as int + 1)[i as int] == p);
                    }
                }
            }
            i = i + 1;
        }
        proof {
            assert(self.items@.take(i as int) =~= self.items@);
            assert(kern@.to_set() =~= kernel(*g, self.view_set(), x));
        }
        let k = LR0ItemSet { items: kern };
        k.closure(g)
    }
}

/// Closing a closed set changes nothing: the closure of the closure of `s`
/// is the closure of `s`.
pub proof fn lemma_closure_idempotent(g: IndexedGrammar, s: Set<LR0Item>, c: Set<LR0Item>, d: Set<LR0Item>)
    requires
        is_closure(g, s, c),
        is_closure(g, c, d),
    ensures
        d == c,
{
    assert(closed(g, c) && c.subset_of(c));
    assert(d.subset_of(c));
    assert(d =~= c);
}

/// The closure of a set is determined by the set.
pub proof fn lemma_closure_unique(g: IndexedGrammar, s: Set<LR0Item>, c: Set<LR0Item>, d: Set<LR0Item>)
    requires
        is_closure(g, s, c),
        is_closure(g, s, d),
    ensures
        c == d,
{
    assert(c.subset_of(d));
    assert(d.subset_of(c));
    assert(c =~= d);
}

/// All items with a rule below `nr` and a dot below `w`.
pub open spec fn item_universe(nr: int, w: int) -> Set<LR0Item> {
    Set::new(|it: LR0Item| it.rule < nr && it.dot < w)
}

proof fn lemma_item_universe_finite(nr: int, w: int)
    requires
        nr >= 0,
        w > 0,
    ensures
        item_universe(nr, w).finite(),
{
    let s = Seq::new((nr * w) as nat, |k: int| LR0Item { rule: (k / w) as usize, dot: (k % w) as usize });
    assert(nr * w >= 0) by (nonlinear_arith)
        requires
            nr >= 0,
            w > 0,
    ;
    assert forall|it: LR0Item| #[trigger] item_universe(nr, w).contains(it) implies s.to_set().contains(it) by {
        let k = it.rule * w + it.dot;
        assert(0 <= k < nr * w) by (nonlinear_arith)
            requires
                k == it.rule * w + it.dot,
                0 <= it.rule < nr,
                0 <= it.dot < w,
        ;
        vstd::arithmetic::div_mod::lemma_fundamental_div_mod_converse(k, w, it.rule as int, it.dot as int);
        assert(s[k] == it);
    }
    vstd::seq_lib::seq_to_set_is_finite(s);
    vstd::set_lib::lemma_len_subset(item_universe(nr, w), s.to_set());
}

/// Whether two item sets hold the same items.
fn same_items(a: &LR0ItemSet, b: &LR0ItemSet) -> (r: bool)
    requires
        a.items@.no_duplicates(),
        b.items@.no_duplicates(),
    ensures
        r == (a.view_set() == b.view_set()),
{
    proof {
        a.items@.unique_seq_to_set();
        b.items@.unique_seq_to_set();
    }
    if a.items.len() != b.items.len() {
        return false;
    }
    let mut i: usize = 0;
    while i < a.items.len()
        invariant
            i <= a.items@.len(),
            forall|j: int| 0 <= j < i ==> b.view_set().contains(#[trigger] a.items@[j]),
        decreases a.items@.len() - i,
    {
        if !b.contains(&a.items[i]) {
            proof {
                assert(a.view_set().contains(a.items@[i as int]));
            }
            return false;
        }
        i = i + 1;
    }
    proof {
        assert forall|x: LR0Item| a.view_set().contains(x) implies b.view_set().contains(x) by {
            let j = choose|j: int| 0 <= j < a.items@.len() && a.items@[j] == x;
        }
        vstd::seq_lib::seq_to_set_is_finite(a.items@);
        vstd::seq_lib::seq_to_set_is_finite(b.items@);
        vstd::set_lib::lemma_subset_equality(a.view_set(), b.view_set());
    }
    true
}

/// An edge of the automaton: from state `from` over symbol `symbol` to state `to`.
#[derive(Debug, Clone, Copy, PartialEq, Eq, Structural)]
pub struct Transition {
    pub from: usize,
    pub symbol: usize,
    pub to: usize,
}

/// The canonical collection of LR(0) item sets and its goto relation.
pub struct LR0Closure {
    pub closures: Vec<LR0ItemSet>,
    pub transitions: Vec<Transition>,
}

impl LR0Closure {
    pub open spec fn state(&self, i: int) -> Set<LR0Item> {
        self.closures@[i].view_set()
    }

    /// The edge is a goto of the automaton: its target is the closure of the
    /// non-empty kernel of its source over its symbol.
    pub open spec fn edge_ok(&self, g: IndexedGrammar, t: Transition) -> bool {
        &&& t.from < self.closures@.len()
        &&& t.to < self.closures@.len()
        &&& t.symbol < g.num_symbols()
        &&& kernel(g, self.state(t.from as int), t.symbol) != Set::<LR0Item>::empty()
        &&& is_closure(g, kernel(g, self.state(t.from as int), t.symbol), self.state(t.to as int))
    }

    /// State `j` is the target of an edge from an earlier state.
    pub open spec fn reached(&self, j: int) -> bool {
        exists|k: int|
            0 <= k < self.transitions@.len() && (#[trigger] self.transitions@[k]).to == j && self.transitions@[k].from < j
    }

    /// The automaton of `g` started from rule `start_rule`: its first state is
    /// the closure of the start item, every other state is reached from an
    /// earlier one, no state is listed twice, every edge is a goto, each pair
    /// of state and symbol has at most one edge, and every non-empty goto has
    /// its edge.
    pub open spec fn is_automaton(&self, g: IndexedGrammar, start_rule: int) -> bool {
        &&& self.closures@.len() >= 1
        &&& forall|j: int| 1 <= j < self.closures@.len() ==> #[trigger] self.reached(j)
        &&& forall|i: int| 0 <= i < self.closures@.len() ==> (#[trigger] self.closures@[i]).wf(g)
        &&& is_closure(g, set![LR0Item { rule: start_rule as usize, dot: 0 }], self.state(0))
        &&& forall|i: int, j: int|
            0 <= i < self.closures@.len() && 0 <= j < self.closures@.len() && i != j ==> #[trigger] self.state(i)
                != #[trigger] self.state(j)
        &&& forall|k: int| 0 <= k < self.transitions@.len() ==> self.edge_ok(g, #[trigger] self.transitions@[k])
        &&& forall|a: int, b: int|
            0 <= a < self.transitions@.len() && 0 <= b < self.transitions@.len() && a != b
                ==> (#[trigger] self.transitions@[a]).from != (#[trigger] self.transitions@[b]).from
                || self.transitions@[a].symbol != self.transitions@[b].symbol
        &&& forall|i: int, x: int|
            0 <= i < self.closures@.len() && 0 <= x < g.num_symbols() && #[trigger] kernel(g, self.state(i), x as usize)
                != Set::<LR0Item>::empty() ==> exists|k: int|
                0 <= k < self.transitions@.len() && (#[trigger] self.transitions@[k]).from == i
                    && self.transitions@[k].symbol == x
    }
}

/// The longest alternative among the first `k` rules.
pub open spec fn max_rhs(g: IndexedGrammar, k: int) -> int
    decreases k,
{
    if k <= 0 {
        0
    } else {
        let m = max_rhs(g, k - 1);
        let l = g.rhs(k - 1).len() as int;
        if l > m {
            l
        } else {
            m
        }
    }
}

proof fn lemma_max_rhs(g: IndexedGrammar, k: int)
    requires
        0 <= k <= g.rules@.len(),
    ensures
        max_rhs(g, k) >= 0,
        forall|r: int| 0 <= r < k ==> g.rhs(r).len() <= max_rhs(g, k),
    decreases k,
{
    if k > 0 {
        lemma_max_rhs(g, k - 1);
    }
}

/// The closure of a set is empty exactly when the set is.
proof fn lemma_closure_empty(g: IndexedGrammar, s: Set<LR0Item>, c: Set<LR0Item>)
    requires
        is_closure(g, s, c),
    ensures
        (s == Set::<LR0Item>::empty()) <==> (c == Set::<LR0Item>::empty()),
{
    if s == Set::<LR0Item>::empty() {
        assert(closed(g, Set::<LR0Item>::empty()));
        assert(s.subset_of(Set::<LR0Item>::empty()));
        assert(c.subset_of(Set::<LR0Item>::empty()));
        assert(c =~= Set::<LR0Item>::empty());
    }
    if c == Set::<LR0Item>::empty() {
        assert(s =~= Set::<LR0Item>::empty());
    }
}

impl LR0Closure {
    /// Distinct states of valid items are at most `2^|items|`.
    proof fn lemma_states_bound(&self, g: IndexedGrammar, nr: int, w: int)
        requires
            nr == g.rules@.len(),
            w > 0,
            forall|r: int| 0 <= r < nr ==> g.rhs(r).len() < w,
            forall|i: int| 0 <= i < self.closures@.len() ==> (#[trigger] self.closures@[i]).wf(g),
            forall|i: int, j: int|
                0 <= i < self.closures@.len() && 0 <= j < self.closures@.len() && i != j ==> #[trigger] self.state(i)
                    != #[trigger] self.state(j),
        ensures
            self.closures@.len() <= pow2(item_universe(nr, w).len()),
    {
        let sets = self.closures@.map_values(|c: LR0ItemSet| c.view_set());
        assert(sets.no_duplicates()) by {
            assert forall|i: int, j: int| 0 <= i < sets.len() && 0 <= j < sets.len() && i != j implies sets[i] != sets[j] by {
                assert(sets[i] == self.state(i));
                assert(sets[j] == self.state(j));
            }
        }
        sets.unique_seq_to_set();
        vstd::seq_lib::seq_to_set_is_finite(sets);
        lemma_item_universe_finite(nr, w);
        assert forall|st: Set<LR0Item>| #[trigger] sets.to_set().contains(st) implies st.subset_of(item_universe(nr, w)) by {
            let i = choose|i: int| 0 <= i < sets.len() && sets[i] == st;
            assert forall|it: LR0Item| st.contains(it) implies item_universe(nr, w).contains(it) by {
                let k = choose|k: int| 0 <= k < self.closures@[i].items@.len() && self.closures@[i].items@[k] == it;
                assert(g.valid_item(self.closures@[i].items@[k]));
            }
        }
        lemma_family_bound(sets.to_set(), item_universe(nr, w));
    }

    /// The index of a state with the same items as `s`, if there is one.
    fn find_state(&self, s: &LR0ItemSet) -> (r: Option<usize>)
        requires
            s.items@.no_duplicates(),
            forall|i: int| 0 <= i < self.closures@.len() ==> (#[trigger] self.closures@[i]).items@.no_duplicates(),
        ensures
            match r {
                Some(j) => j < self.closures@.len() && self.state(j as int) == s.view_set(),
                None => forall|j: int| 0 <= j < self.closures@.len() ==> self.state(j) != s.view_set(),
            },
    {
        let mut j: usize = 0;
        while j < self.closures.len()
            invariant
                j <= self.closures@.len(),
                s.items@.no_duplicates(),
                forall|i: int| 0 <= i < self.closures@.len() ==> (#[trigger] self.closures@[i]).items@.no_duplicates(),
                forall|i: int| 0 <= i < j ==> self.state(i) != s.view_set(),
            decreases self.closures@.len() - j,
        {
            if same_items(&self.closures[j], s) {
                return Some(j);
            }
            j = j + 1;
        }
        None
    }

    /// Builds the automaton of the augmented grammar: the closure of the start
    /// item, then every non-empty goto of every state over every symbol, each
    /// new set of items becoming a new state, in the order found.
    pub fn new(a: &AugmentedGrammar) -> (r: LR0Closure)
        requires
            a.wf(),
        ensures
            r.is_automaton(a.grammar, a.start_rule as int),
    {
        let g = &a.grammar;
        let n = g.symbols.len();
        let ghost nr = g.rules@.len() as int;
        let ghost w = max_rhs(*g, nr) + 1;
        proof {
            lemma_max_rhs(*g, nr);
        }
        let start = LR0Item { rule: a.start_rule, dot: 0 };
        let kern = LR0ItemSet { items: vec![start] };
        proof {
            assert(kern.items@.no_duplicates());
            assert(kern.view_set() =~= set![start]) by {
                assert(kern.items@[0] == start);
            }
        }
        let s0 = kern.closure(g);
        let mut aut = LR0Closure { closures: Vec::new(), transitions: Vec::new() };
        aut.closures.push(s0);
        proof {
            assert(aut.closures@[0] == s0);
            aut.lemma_states_bound(*g, nr, w);
        }
        let mut i: usize = 0;
        while i < aut.closures.len()
            invariant
                g == &a.grammar,
                a.wf(),
                n == g.num_symbols(),
                nr == g.rules@.len(),
                w == max_rhs(*g, nr) + 1,
                w > 0,
                forall|r: int| 0 <= r < nr ==> g.rhs(r).len() < w,
                i <= aut.closures@.len(),
                aut.closures@.len() >= 1,
                aut.closures@.len() <= pow2(item_universe(nr, w).len()),
                forall|k: int| 0 <= k < aut.closures@.len() ==> (#[trigger] aut.closures@[k]).wf(*g),
                is_closure(*g, set![start], aut.state(0)),
                forall|j: int| 1 <= j < aut.closures@.len() ==> #[trigger] aut.reached(j),
                forall|p: int, q: int|
                    0 <= p < aut.closures@.len() && 0 <= q < aut.closures@.len() && p != q ==> #[trigger] aut.state(p)
                        != #[trigger] aut.state(q),
                forall|k: int| 0 <= k < aut.transitions@.len() ==> aut.edge_ok(*g, #[trigger] aut.transitions@[k]),
                forall|k: int| 0 <= k < aut.transitions@.len() ==> (#[trigger] aut.transitions@[k]).from < i,
                forall|p: int, q: int|
                    0 <= p < aut.transitions@.len() && 0 <= q < aut.transitions@.len() && p != q
                        ==> (#[trigger] aut.transitions@[p]).from != (#[trigger] aut.transitions@[q]).from
                        || aut.transitions@[p].symbol != aut.transitions@[q].symbol,
                forall|p: int, x: int|
                    0 <= p < i && 0 <= x < n && #[trigger] kernel(*g, aut.state(p), x as usize)
                        != Set::<LR0Item>::empty() ==> exists|k: int|
                        0 <= k < aut.transitions@.len() && (#[trigger] aut.transitions@[k]).from == p
                            && aut.transitions@[k].symbol == x,
            decreases pow2(item_universe(nr, w).len()) - i,
        {
            let mut x: usize = 0;
            while x < n
                invariant
                    g == &a.grammar,
                    a.wf(),
                    n == g.num_symbols(),
                    nr == g.rules@.len(),
                    w == max_rhs(*g, nr) + 1,
                    w > 0,
                    forall|r: int| 0 <= r < nr ==> g.rhs(r).len() < w,
                    i < aut.closures@.len(),
                    x <= n,
                    aut.closures@.len() <= pow2(item_universe(nr, w).len()),
                    forall|k: int| 0 <= k < aut.closures@.len() ==> (#[trigger] aut.closures@[k]).wf(*g),
                    is_closure(*g, set![start], aut.state(0)),
                    forall|j: int| 1 <= j < aut.closures@.len() ==> #[trigger] aut.reached(j),
                    forall|p: int, q: int|
                        0 <= p < aut.closures@.len() && 0 <= q < aut.closures@.len() && p != q ==> #[trigger] aut.state(p)
                            != #[trigger] aut.state(q),
                    forall|k: int| 0 <= k < aut.transitions@.len() ==> aut.edge_ok(*g, #[trigger] aut.transitions@[k]),
                    forall|k: int|
                        0 <= k < aut.transitions@.len() ==> (#[trigger] aut.transitions@[k]).from < i || (
                        aut.transitions@[k].from == i && aut.transitions@[k].symbol < x),
                    forall|p: int, q: int|
                        0 <= p < aut.transitions@.len() && 0 <= q < aut.transitions@.len() && p != q
                            ==> (#[trigger] aut.transitions@[p]).from != (#[trigger] aut.transitions@[q]).from
                            || aut.transitions@[p].symbol != aut.transitions@[q].symbol,
                    forall|p: int, y: int|
                        ((0 <= p < i && 0 <= y < n) || (p == i && 0 <= y < x)) && #[trigger] kernel(*g, aut.state(p), y as usize)
                            != Set::<LR0Item>::empty() ==> exists|k: int|
                            0 <= k < aut.transitions@.len() && (#[trigger] aut.transitions@[k]).from == p
                                && aut.transitions@[k].symbol == y,
                decreases n - x,
            {
                let gt = aut.closures[i].goto(g, x);
                proof {
                    lemma_closure_empty(*g, kernel(*g, aut.state(i as int), x), gt.view_set());
                    if gt.items@.len() > 0 {
                        assert(gt.view_set().contains(gt.items@[0]));
                    } else {
                        assert(gt.view_set() =~= Set::<LR0Item>::empty());
                    }
                }
                if gt.items.len() > 0 {
                    let ghost old_aut = aut;
                    let found = aut.find_state(&gt);
                    let to = match found {
                        Some(j) => j,
                        None => {
                            let k = aut.closures.len();
                            aut.closures.push(gt);
                            proof {
                                assert forall|q: int| 0 <= q < k implies aut.state(q) == old_aut.state(q) by {
                                    assert(aut.closures@[q] == old_aut.closures@[q]);
                                }
                                assert(aut.state(k as int) == gt.view_set()) by {
                                    assert(aut.closures@[k as int] == gt);
                                }
                                assert forall|p: int, q: int|
                                    0 <= p < aut.closures@.len() && 0 <= q < aut.closures@.len() && p != q implies #[trigger] aut.state(p)
                                        != #[trigger] aut.state(q) by {
                                    if p < k && q < k {
                                        assert(old_aut.state(p) != old_aut.state(q));
                                    } else if p < k {
                                        assert(old_aut.state(p) != gt.view_set());
                                    } else if q < k {
                                        assert(old_aut.state(q) != gt.view_set());
                                    }
                                }
                                assert forall|m: int| 0 <= m < aut.closures@.len() implies (#[trigger] aut.closures@[m]).wf(*g) by {
                                    if m < k {
                                        assert(aut.closures@[m] == old_aut.closures@[m]);
                                    }
                                }
                                aut.lemma_states_bound(*g, nr, w);
                            }
                            k
                        },
                    };
                    let ghost mid = aut;
                    aut.transitions.push(Transition { from: i, symbol: x, to });
                    proof {
                        let t = Transition { from: i, symbol: x, to };
                        let m = mid.transitions@.len() as int;
                        assert(aut.transitions@[m] == t);
                        assert forall|q: int| 0 <= q < old_aut.closures@.len() implies mid.state(q) == old_aut.state(q) by {
                            assert(mid.closures@[q] == old_aut.closures@[q]);
                        }
                        assert(aut.edge_ok(*g, t));
                        assert forall|k: int| 0 <= k < aut.transitions@.len() implies aut.edge_ok(*g, #[trigger] aut.transitions@[k]) by {
                            if k < m {
                                assert(aut.transitions@[k] == old_aut.transitions@[k]);
                                assert(old_aut.edge_ok(*g, old_aut.transitions@[k]));
                            }
                        }
                        assert forall|p: int, q: int|
                            0 <= p < aut.transitions@.len() && 0 <= q < aut.transitions@.len() && p != q
                                implies (#[trigger] aut.transitions@[p]).from != (#[trigger] aut.transitions@[q]).from
                                || aut.transitions@[p].symbol != aut.transitions@[q].symbol by {
                            if p < m && q < m {
                                assert(aut.transitions@[p] == old_aut.transitions@[p]);
                                assert(aut.transitions@[q] == old_aut.transitions@[q]);
                            } else if p < m {
                                assert(aut.transitions@[p] == old_aut.transitions@[p]);
                            } else if q < m {
                                assert(aut.transitions@[q] == old_aut.transitions@[q]);
                            }
                        }
                        assert forall|k: int|
                            0 <= k < aut.transitions@.len() implies (#[trigger] aut.transitions@[k]).from < i || (
                            aut.transitions@[k].from == i && aut.transitions@[k].symbol < x + 1) by {
                            if k < m {
                                assert(aut.transitions@[k] == old_aut.transitions@[k]);
                            }
                        }
                        assert forall|p: int, y: int|
                            ((0 <= p < i && 0 <= y < n) || (p == i && 0 <= y < x + 1)) && #[trigger] kernel(*g, aut.state(p), y as usize)
                                != Set::<LR0Item>::empty() implies exists|k: int|
                                0 <= k < aut.transitions@.len() && (#[trigger] aut.transitions@[k]).from == p
                                    && aut.transitions@[k].symbol == y by {
                            if p == i && y == x {
                                assert(aut.transitions@[m].from == p);
                            } else {
                                assert(aut.state(p) == old_aut.state(p));
                                let k = choose|k: int|
                                    0 <= k < old_aut.transitions@.len() && (#[trigger] old_aut.transitions@[k]).from == p
                                        && old_aut.transitions@[k].symbol == y;
                                assert(aut.transitions@[k] == old_aut.transitions@[k]);
                            }
                        }
                        assert(aut.state(0) == old_aut.state(0));
                        assert forall|j: int| 1 <= j < aut.closures@.len() implies #[trigger] aut.reached(j) by {
                            if j < old_aut.closures@.len() {
                                assert(old_aut.reached(j));
                                let k0 = choose|k0: int|
                                    0 <= k0 < old_aut.transitions@.len() && (#[trigger] old_aut.transitions@[k0]).to == j && old_aut.transitions@[k0].from < j;
                                assert(aut.transitions@[k0] == old_aut.transitions@[k0]);
                            } else {
                                assert(aut.transitions@[m].to == j);
                            }
                        }
                        assert forall|p: int, q: int|
                            0 <= p < aut.closures@.len() && 0 <= q < aut.closures@.len() && p != q implies #[trigger] aut.state(p)
                                != #[trigger] aut.state(q) by {
                            assert(aut.state(p) == mid.state(p));
                            assert(aut.state(q) == mid.state(q));
                            assert(mid.state(p) != mid.state(q));
                        }
                        assert forall|m2: int| 0 <= m2 < aut.closures@.len() implies (#[trigger] aut.closures@[m2]).wf(*g) by {
                            assert(aut.closures@[m2] == mid.closures@[m2]);
                        }
                    }
                } else {
                    proof {
                        assert forall|p: int, y: int|
                            ((0 <= p < i && 0 <= y < n) || (p == i && 0 <= y < x + 1)) && #[trigger] kernel(*g, aut.state(p), y as usize)
                                != Set::<LR0Item>::empty() implies exists|k: int|
                                0 <= k < aut.transitions@.len() && (#[trigger] aut.transitions@[k]).from == p
                                    && aut.transitions@[k].symbol == y by {
                            if p == i && y == x {
                                assert(false);
                            }
                        }
                    }
                }
                x = x + 1;
            }
            i = i + 1;
        }
        aut
    }
}

impl LR0Closure {
    /// The target of the edge from state `from` over symbol `via`, if any.
    pub fn transition(&self, from: usize, via: usize) -> (r: Option<usize>)
        ensures
            match r {
                Some(j) => exists|k: int|
                    0 <= k < self.transitions@.len() && #[trigger] self.transitions@[k] == Transition { from, symbol: via, to: j },
                None => forall|k: int|
                    0 <= k < self.transitions@.len() ==> !((#[trigger] self.transitions@[k]).from == from
                        && self.transitions@[k].symbol == via),
            },
    {
        let mut k: usize = 0;
        while k < self.transitions.len()
            invariant
                k <= self.transitions@.len(),
                forall|m: int| 0 <= m < k ==> !((#[trigger] self.transitions@[m]).from == from && self.transitions@[m].symbol == via),
            decreases self.transitions@.len() - k,
        {
            let t = self.transitions[k];
            if t.from == from && t.symbol == via {
                proof {
                    assert(self.transitions@[k as int] == Transition { from, symbol: via, to: t.to });
                }
                return Some(t.to);
            }
            k = k + 1;
        }
        None
    }

    /// The number of states.
    pub fn len(&self) -> (r: usize)
        ensures
            r == self.closures@.len(),
    {
        self.closures.len()
    }

    /// The states, in the order in which they were found.
    pub fn closures(&self) -> (r: &Vec<LR0ItemSet>)
        ensures
            r == &self.closures,
    {
        &self.closures
    }
}

/// The states of an automaton, as sets of items.
pub open spec fn state_set(aut: LR0Closure) -> Set<Set<LR0Item>> {
    Set::new(|st: Set<LR0Item>| exists|i: int| 0 <= i < aut.closures@.len() && #[trigger] aut.state(i) == st)
}

/// Every state of `a` is a state of `b`, when both are automata of the same
/// grammar and start rule.
proof fn lemma_state_in_other(g: IndexedGrammar, start_rule: int, a: LR0Closure, b: LR0Closure, i: int)
    requires
        a.is_automaton(g, start_rule),
        b.is_automaton(g, start_rule),
        0 <= i < a.closures@.len(),
    ensures
        exists|j: int| 0 <= j < b.closures@.len() && #[trigger] b.state(j) == a.state(i),
    decreases i,
{
    if i == 0 {
        lemma_closure_unique(g, set![LR0Item { rule: start_rule as usize, dot: 0 }], a.state(0), b.state(0));
        assert(b.state(0) == a.state(0));
    } else {
        assert(a.reached(i));
        let k = choose|k: int| 0 <= k < a.transitions@.len() && (#[trigger] a.transitions@[k]).to == i && a.transitions@[k].from < i;
        let t = a.transitions@[k];
        assert(a.edge_ok(g, t));
        lemma_state_in_other(g, start_rule, a, b, t.from as int);
        let j0 = choose|j0: int| 0 <= j0 < b.closures@.len() && #[trigger] b.state(j0) == a.state(t.from as int);
        let x = t.symbol as int;
        assert(kernel(g, b.state(j0), x as usize) != Set::<LR0Item>::empty());
        let k2 = choose|k2: int|
            0 <= k2 < b.transitions@.len() && (#[trigger] b.transitions@[k2]).from == j0 && b.transitions@[k2].symbol == x;
        let t2 = b.transitions@[k2];
        assert(b.edge_ok(g, t2));
        lemma_closure_unique(g, kernel(g, a.state(t.from as int), t.symbol), a.state(i), b.state(t2.to as int));
        assert(b.state(t2.to as int) == a.state(i));
    }
}

/// Building the automaton is determined by the grammar and the start rule:
/// two automata of them have the same states, as sets of items.
pub proof fn lemma_automaton_unique(g: IndexedGrammar, start_rule: int, a: LR0Closure, b: LR0Closure)
    requires
        a.is_automaton(g, start_rule),
        b.is_automaton(g, start_rule),
    ensures
        state_set(a) == state_set(b),
{
    assert forall|st: Set<LR0Item>| state_set(a).contains(st) implies state_set(b).contains(st) by {
        let i = choose|i: int| 0 <= i < a.closures@.len() && #[trigger] a.state(i) == st;
        lemma_state_in_other(g, start_rule, a, b, i);
    }
    assert forall|st: Set<LR0Item>| state_set(b).contains(st) implies state_set(a).contains(st) by {
        let i = choose|i: int| 0 <= i < b.closures@.len() && #[trigger] b.state(i) == st;
        lemma_state_in_other(g, start_rule, b, a, i);
    }
    assert(state_set(a) =~= state_set(b));
}

/// The edges of an automaton, each as source items, symbol and target items.
pub open spec fn edge_set(aut: LR0Closure) -> Set<(Set<LR0Item>, usize, Set<LR0Item>)> {
    Set::new(
        |e: (Set<LR0Item>, usize, Set<LR0Item>)|
            exists|k: int|
                0 <= k < aut.transitions@.len() && #[trigger] aut.transitions@[k].symbol == e.1 && aut.state(
                    aut.transitions@[k].from as int,
                ) == e.0 && aut.state(aut.transitions@[k].to as int) == e.2,
    )
}

proof fn lemma_edge_in_other(g: IndexedGrammar, start_rule: int, a: LR0Closure, b: LR0Closure, k: int)
    requires
        a.is_automaton(g, start_rule),
        b.is_automaton(g, start_rule),
        0 <= k < a.transitions@.len(),
    ensures
        edge_set(b).contains(
            (
                a.state(a.transitions@[k].from as int),
                a.transitions@[k].symbol,
                a.state(a.transitions@[k].to as int),
            ),
        ),
{
    let t = a.transitions@[k];
    assert(a.edge_ok(g, t));
    lemma_state_in_other(g, start_rule, a, b, t.from as int);
    let j0 = choose|j0: int| 0 <= j0 < b.closures@.len() && #[trigger] b.state(j0) == a.state(t.from as int);
    let x = t.symbol as int;
    assert(kernel(g, b.state(j0), x as usize) != Set::<LR0Item>::empty());
    let k2 = choose|k2: int|
        0 <= k2 < b.transitions@.len() && (#[trigger] b.transitions@[k2]).from == j0 && b.transitions@[k2].symbol == x;
    let t2 = b.transitions@[k2];
    assert(b.edge_ok(g, t2));
    lemma_closure_unique(g, kernel(g, a.state(t.from as int), t.symbol), a.state(t.to as int), b.state(t2.to as int));
    assert(b.transitions@[k2].symbol == t.symbol);
}

/// Two automata of the same grammar and start rule have the same edges,
/// read over the sets of items of their states.
pub proof fn lemma_automaton_edges_unique(g: IndexedGrammar, start_rule: int, a: LR0Closure, b: LR0Closure)
    requires
        a.is_automaton(g, start_rule),
        b.is_automaton(g, start_rule),
    ensures
        edge_set(a) == edge_set(b),
{
    assert forall|e: (Set<LR0Item>, usize, Set<LR0Item>)| edge_set(a).contains(e) implies edge_set(b).contains(e) by {
        let k = choose|k: int|
            0 <= k < a.transitions@.len() && #[trigger] a.transitions@[k].symbol == e.1 && a.state(
                a.transitions@[k].from as int,
            ) == e.0 && a.state(a.transitions@[k].to as int) == e.2;
        lemma_edge_in_other(g, start_rule, a, b, k);
    }
    assert forall|e: (Set<LR0Item>, usize, Set<LR0Item>)| edge_set(b).contains(e) implies edge_set(a).contains(e) by {
        let k = choose|k: int|
            0 <= k < b.transitions@.len() && #[trigger] b.transitions@[k].symbol == e.1 && b.state(
                b.transitions@[k].from as int,
            ) == e.0 && b.state(b.transitions@[k].to as int) == e.2;
        lemma_edge_in_other(g, start_rule, b, a, k);
    }
    assert(edge_set(a) =~= edge_set(b));
}

} // verus!
