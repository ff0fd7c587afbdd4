use crate::first::{vanishes, First};
use crate::grammar::{GrammarError, IndexedGrammar};
use crate::rows::{
    add_into, below, lemma_distinct_below, lemma_total_bound, rows_ok, source_set, table_view, total,
};
use vstd::prelude::*;

verus! {

/// FOLLOW of every symbol, by symbol index; index 1 is `$`. The rows of
/// terminals stay empty.
pub struct Follow {
    pub sets: Vec<Vec<usize>>,
}

/// Every symbol of `rhs` from position `i` on can vanish by `ft`.
pub open spec fn suffix_vanishes(ft: Seq<Set<usize>>, rhs: Seq<usize>, i: int) -> bool {
    forall|j: int| i <= j < rhs.len() ==> #[trigger] vanishes(ft, rhs[j])
}

/// Rules 2 and 3 of FOLLOW hold of rule `r` in `f`, given FIRST `ft`.
pub open spec fn follow_rule_holds(g: IndexedGrammar, ft: Seq<Set<usize>>, f: Seq<Set<usize>>, r: int) -> bool {
    let lhs = g.lhs(r);
    let rhs = g.rhs(r);
    &&& forall|i: int|
        0 <= i < rhs.len() - 1 && !g.is_term(rhs[i] as int) ==> #[trigger] ft[rhs[i + 1] as int].remove(
            0,
        ).subset_of(f[rhs[i] as int])
    &&& forall|i: int|
        0 <= i < rhs.len() && !g.is_term(rhs[i] as int) && #[trigger] suffix_vanishes(ft, rhs, i + 1)
            ==> f[lhs].subset_of(f[rhs[i] as int])
}

/// `f` obeys the rules of FOLLOW for start symbol `start`, given FIRST `ft`.
pub open spec fn follow_closed(g: IndexedGrammar, ft: Seq<Set<usize>>, start: int, f: Seq<Set<usize>>) -> bool {
    &&& f.len() == g.num_symbols()
    &&& f[start].contains(1)
    &&& forall|r: int| 0 <= r < g.rules@.len() ==> #[trigger] follow_rule_holds(g, ft, f, r)
}

/// `f` is FOLLOW of `g`: the least table that obeys the rules.
pub open spec fn is_follow(g: IndexedGrammar, ft: Seq<Set<usize>>, start: int, f: Seq<Set<usize>>) -> bool {
    &&& follow_closed(g, ft, start, f)
    &&& forall|u: Seq<Set<usize>>| #[trigger] follow_closed(g, ft, start, u) ==> below(f, u)
}

impl Follow {
    pub open spec fn view_table(&self) -> Seq<Set<usize>> {
        table_view(self.sets@)
    }

    /// Computes FOLLOW of every nonterminal of `g` from FIRST `first`, by
    /// iterating the rules until no set grows.
    pub fn new(g: &IndexedGrammar, first_table: &First, start: usize) -> (r: Follow)
        requires
            g.wf(),
            rows_ok(first_table.sets@, g.num_symbols()),
            start < g.num_symbols(),
        ensures
            is_follow(*g, first_table.view_table(), start as int, r.view_table()),
            rows_ok(r.sets@, g.num_symbols()),
    {
        let first = &first_table.sets;
        let ghost ft = table_view(first@);
        let n = g.symbols.len();
        let mut sets: Vec<Vec<usize>> = Vec::new();
        let mut x: usize = 0;
        while x < n
            invariant
                x <= n,
                sets@.len() == x,
                forall|z: int| 0 <= z < x ==> (#[trigger] sets@[z])@ == Seq::<usize>::empty(),
            decreases n - x,
        {
            sets.push(Vec::new());
            x = x + 1;
        }
        let d: Vec<usize> = vec![1];
        proof {
            assert(rows_ok(sets@, n as int));
            assert(d@[0] == 1);
        }
        let ghost before = sets@;
        let _ = add_into(&mut sets, start, &d, false);
        proof {
            assert(source_set(d@, false) =~= set![1usize]);
            assert forall|u: Seq<Set<usize>>| #[trigger] follow_closed(*g, ft, start as int, u) implies below(table_view(sets@), u) by {
                assert forall|z: int| 0 <= z < n implies #[trigger] table_view(sets@)[z].subset_of(u[z]) by {
                    if z != start {
                        assert(sets@[z] == before[z]);
                        assert(table_view(sets@)[z] =~= Set::empty());
                    } else {
                        assert(table_view(before)[z] =~= Set::empty());
                    }
                }
            }
        }
        let mut changed = true;
        while changed
            invariant
                g.wf(),
                ft == table_view(first@),
                rows_ok(first@, n as int),
                first == &first_table.sets,
                n == g.num_symbols(),
                start < n,
                rows_ok(sets@, n as int),
                table_view(sets@)[start as int].contains(1),
                forall|u: Seq<Set<usize>>| #[trigger] follow_closed(*g, ft, start as int, u) ==> below(table_view(sets@), u),
                !changed ==> follow_closed(*g, ft, start as int, table_view(sets@)),
            decreases n * n + 1 - total(sets@) + if changed { 1int } else { 0int },
        {
            proof {
                assert forall|z: int| 0 <= z < n implies (#[trigger] sets@[z])@.len() <= n by {
                    lemma_distinct_below(sets@[z]@, n as int);
                }
                lemma_total_bound(sets@, n as int);
            }
            let ghost pass_start = sets@;
            changed = false;
            let mut r: usize = 0;
            while r < g.rules.len()
                invariant
                    g.wf(),
                    ft == table_view(first@),
                    rows_ok(first@, n as int),
                    first == &first_table.sets,
                    n == g.num_symbols(),
                    start < n,
                    r <= g.rules@.len(),
                    rows_ok(sets@, n as int),
                    table_view(sets@)[start as int].contains(1),
                    forall|u: Seq<Set<usize>>| #[trigger] follow_closed(*g, ft, start as int, u) ==> below(table_view(sets@), u),
                    total(sets@) >= total(pass_start),
                    changed ==> total(sets@) > total(pass_start),
                    !changed ==> sets@ == pass_start,
                    !changed ==> forall|q: int| 0 <= q < r ==> #[trigger] follow_rule_holds(*g, ft, table_view(sets@), q),
                decreases g.rules@.len() - r,
            {
                let lhs = g.rules[r].lhs;
                let rhs = &g.rules[r].rhs;
                proof {
                    assert(g.lhs(r as int) < n);
                }
                let ghost rule_start = sets@;
                // a symbol followed by another receives what the other begins with
                let mut i: usize = 0;
                while i < rhs.len() && i + 1 < rhs.len()
                    invariant
                        g.wf(),
                        ft == table_view(first@),
                        rows_ok(first@, n as int),
                        first == &first_table.sets,
                        n == g.num_symbols(),
                        r < g.rules@.len(),
                        lhs == g.rules@[r as int].lhs,
                        rhs == g.rules@[r as int].rhs,
                        lhs < n,
                        start < n,
                        i <= rhs@.len(),
                        rows_ok(sets@, n as int),
                        table_view(sets@)[start as int].contains(1),
                        forall|u: Seq<Set<usize>>| #[trigger] follow_closed(*g, ft, start as int, u) ==> below(table_view(sets@), u),
                        total(sets@) >= total(rule_start),
                        total(rule_start) >= total(pass_start),
                        changed ==> total(sets@) > total(pass_start),
                        !changed ==> sets@ == pass_start,
                        !changed ==> forall|q: int| 0 <= q < r ==> #[trigger] follow_rule_holds(*g, ft, table_view(sets@), q),
                        !changed ==> forall|j: int| 0 <= j < i && j < rhs@.len() - 1 && !g.is_term(rhs@[j] as int)
                            ==> #[trigger] ft[rhs@[j + 1] as int].remove(0).subset_of(table_view(sets@)[rhs@[j] as int]),
                    decreases rhs@.len() - i,
                {
                    let y = rhs[i];
                    let z = rhs[i + 1];
                    proof {
                        assert(1 <= g.rhs(r as int)[i as int] < n);
                        assert(1 <= g.rhs(r as int)[i as int + 1] < n);
                    }
                    if !g.symbols[y].is_terminal() {
                        let ghost before = sets@;
                        let grew = add_into(&mut sets, y, &first[z], true);
                        proof {
                            let tb = table_view(before);
                            let ta = table_view(sets@);
                            assert(source_set(first@[z as int]@, true) == ft[z as int].remove(0));
                            assert forall|w: int| 0 <= w < n implies #[trigger] tb[w].subset_of(ta[w]) by {
                                if w != y {
                                    assert(sets@[w] == before[w]);
                                }
                            }
                            assert(tb[start as int].subset_of(ta[start as int]));
                            assert forall|u: Seq<Set<usize>>| #[trigger] follow_closed(*g, ft, start as int, u) implies below(ta, u) by {
                                assert(below(tb, u));
                                assert(follow_rule_holds(*g, ft, u, r as int));
                                assert(ft[rhs@[i as int + 1] as int].remove(0).subset_of(u[rhs@[i as int] as int]));
                                assert forall|w: int| 0 <= w < n implies #[trigger] ta[w].subset_of(u[w]) by {
                                    assert(tb[w].subset_of(u[w]));
                                    if w != y {
                                        assert(sets@[w] == before[w]);
                                    }
                                }
                            }
                            if !grew {
                                assert(ft[z as int].remove(0).subset_of(ta[y as int]));
                            }
                        }
                        changed = changed || grew;
                    }
                    i = i + 1;
                }
                // the symbols of a vanishing tail receive FOLLOW of the left-hand side
                let mut k: usize = rhs.len();
                let mut go = true;
                while k > 0
                    invariant_except_break
                        go,
                        suffix_vanishes(ft, rhs@, k as int),
                    invariant
                        g.wf(),
                        ft == table_view(first@),
                        rows_ok(first@, n as int),
                        first == &first_table.sets,
                        n == g.num_symbols(),
                        r < g.rules@.len(),
                        lhs == g.rules@[r as int].lhs,
                        rhs == g.rules@[r as int].rhs,
                        lhs < n,
                        start < n,
                        k <= rhs@.len(),
                        rows_ok(sets@, n as int),
                        table_view(sets@)[start as int].contains(1),
                        forall|u: Seq<Set<usize>>| #[trigger] follow_closed(*g, ft, start as int, u) ==> below(table_view(sets@), u),
                        total(sets@) >= total(pass_start),
                        changed ==> total(sets@) > total(pass_start),
                        !changed ==> sets@ == pass_start,
                        !changed ==> forall|q: int| 0 <= q < r ==> #[trigger] follow_rule_holds(*g, ft, table_view(sets@), q),
                        !changed ==> forall|j: int| 0 <= j < rhs@.len() - 1 && !g.is_term(rhs@[j] as int)
                            ==> #[trigger] ft[rhs@[j + 1] as int].remove(0).subset_of(table_view(sets@)[rhs@[j] as int]),
                        !changed ==> forall|j: int| k <= j < rhs@.len() && !g.is_term(rhs@[j] as int) && #[trigger] suffix_vanishes(ft, rhs@, j + 1)
                            ==> table_view(sets@)[lhs as int].subset_of(table_view(sets@)[rhs@[j] as int]),
                    ensures
                        !go ==> 0 <= k < rhs@.len() && !vanishes(ft, rhs@[k as int]) && (!changed ==> forall|j: int| k <= j < rhs@.len() && !g.is_term(rhs@[j] as int) && #[trigger] suffix_vanishes(ft, rhs@, j + 1)
                            ==> table_view(sets@)[lhs as int].subset_of(table_view(sets@)[rhs@[j] as int])),
                        go ==> k == 0,
                    decreases k,
                {
                    k = k - 1;
                    let y = rhs[k];
                    proof {
                        assert(1 <= g.rhs(r as int)[k as int] < n);
                    }
                    if !g.symbols[y].is_terminal() {
                        let src = sets[lhs].clone();
                        proof {
                            assert(src@ =~= sets@[lhs as int]@);
                        }
                        let ghost before = sets@;
                        let grew = add_into(&mut sets, y, &src, false);
                        proof {
                            let tb = table_view(before);
                            let ta = table_view(sets@);
                            assert forall|w: int| 0 <= w < n implies #[trigger] tb[w].subset_of(ta[w]) by {
                                if w != y {
                                    assert(sets@[w] == before[w]);
                                }
                            }
                            assert(tb[start as int].subset_of(ta[start as int]));
                            assert forall|u: Seq<Set<usize>>| #[trigger] follow_closed(*g, ft, start as int, u) implies below(ta, u) by {
                                assert(below(tb, u));
                                assert(follow_rule_holds(*g, ft, u, r as int));
                                assert(suffix_vanishes(ft, rhs@, k as int + 1));
                                assert(u[lhs as int].subset_of(u[rhs@[k as int] as int]));
                                assert(tb[lhs as int].subset_of(u[lhs as int]));
                                assert forall|w: int| 0 <= w < n implies #[trigger] ta[w].subset_of(u[w]) by {
                                    assert(tb[w].subset_of(u[w]));
                                    if w != y {
                                        assert(sets@[w] == before[w]);
                                    }
                                }
                            }
                            if !grew {
                                assert(ta[lhs as int].subset_of(ta[y as int]));
                            }
                        }
                        changed = changed || grew;
                    }
                    proof {
                        if !changed {
                            assert(suffix_vanishes(ft, rhs@, k as int + 1));
                        }
                    }
                    if !first_table.produce_epsilon(y) {
                        go = false;
                        break;
                    }
                    proof {
                        assert forall|j: int| k <= j < rhs@.len() implies #[trigger] vanishes(ft, rhs@[j]) by {
                            if j == k {
                                assert(first@[y as int]@.contains(0));
                            }
                        }
                    }
                }
                proof {
                    if !changed {
                        let t = table_view(sets@);
                        assert forall|j: int| 0 <= j < rhs@.len() && !g.is_term(rhs@[j] as int) && #[trigger] suffix_vanishes(ft, rhs@, j + 1)
                            implies t[lhs as int].subset_of(t[rhs@[j] as int]) by {
                            if j < k {
                                assert(vanishes(ft, rhs@[k as int]));
                            }
                        }
                        assert(follow_rule_holds(*g, ft, t, r as int));
                    }
                }
                r = r + 1;
            }
            proof {
                assert forall|z: int| 0 <= z < n implies (#[trigger] sets@[z])@.len() <= n by {
                    lemma_distinct_below(sets@[z]@, n as int);
                }
                lemma_total_bound(sets@, n as int);
            }
        }
        Follow { sets }
    }
}

/// FOLLOW of the start symbol always holds `$`.
pub proof fn lemma_follow_of_start(g: IndexedGrammar, ft: Seq<Set<usize>>, start: int, f: Seq<Set<usize>>)
    requires
        is_follow(g, ft, start, f),
    ensures
        f[start].contains(1),
{
}

/// FOLLOW is determined by the grammar, FIRST and the start symbol: two
/// computations agree.
pub proof fn lemma_follow_unique(
    g: IndexedGrammar,
    ft: Seq<Set<usize>>,
    start: int,
    f1: Seq<Set<usize>>,
    f2: Seq<Set<usize>>,
)
    requires
        is_follow(g, ft, start, f1),
        is_follow(g, ft, start, f2),
    ensures
        f1 == f2,
{
    assert(below(f1, f2));
    assert(below(f2, f1));
    assert forall|x: int| 0 <= x < f1.len() implies #[trigger] f1[x] == f2[x] by {
        assert(f1[x].subset_of(f2[x]));
        assert(f2[x].subset_of(f1[x]));
        assert(f1[x] =~= f2[x]);
    }
    assert(f1 =~= f2);
}

impl Follow {
    /// FOLLOW of symbol `x`; an error for a terminal.
    pub fn follow_of(&self, g: &IndexedGrammar, x: usize) -> (r: Result<&Vec<usize>, GrammarError>)
        requires
            g.wf(),
            x < g.num_symbols(),
            self.sets@.len() == g.num_symbols(),
        ensures
            g.is_term(x as int) <==> r == Err::<&Vec<usize>, GrammarError>(GrammarError::FollowOfTerminal),
            !g.is_term(x as int) <==> r is Ok,
            r is Ok ==> *r->Ok_0 == self.sets@[x as int],
    {
        if g.symbols[x].is_terminal() {
            Err(GrammarError::FollowOfTerminal)
        } else {
            Ok(&self.sets[x])
        }
    }
}

} // verus!
