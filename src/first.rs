use crate::grammar::IndexedGrammar;
use crate::rows::{
    add_into, below, lemma_distinct_below, lemma_total_bound, row_contains, rows_ok, source_set,
    table_view, total,
};
use vstd::prelude::*;

verus! {

/// FIRST of every symbol, by symbol index; index 0 (`ε`) marks a symbol that
/// can vanish.
pub struct First {
    pub sets: Vec<Vec<usize>>,
}

/// `ε` is in the set of `y`.
pub open spec fn vanishes(t: Seq<Set<usize>>, y: usize) -> bool {
    t[y as int].contains(0)
}

/// Every symbol of `rhs` before position `i` can vanish.
pub open spec fn prefix_vanishes(t: Seq<Set<usize>>, rhs: Seq<usize>, i: int) -> bool {
    forall|j: int| 0 <= j < i ==> #[trigger] vanishes(t, rhs[j])
}

/// Rules 3 to 5 hold of rule `r` in `t`.
pub open spec fn first_rule_holds(g: IndexedGrammar, t: Seq<Set<usize>>, r: int) -> bool {
    let lhs = g.lhs(r);
    let rhs = g.rhs(r);
    &&& forall|i: int|
        0 <= i < rhs.len() && #[trigger] prefix_vanishes(t, rhs, i) ==> t[rhs[i] as int].remove(
            0,
        ).subset_of(t[lhs])
    &&& prefix_vanishes(t, rhs, rhs.len() as int) ==> t[lhs].contains(0)
}

/// `t` obeys the rules of FIRST: each terminal begins itself, and every rule
/// passes on what its symbols begin with.
pub open spec fn first_closed(g: IndexedGrammar, t: Seq<Set<usize>>) -> bool {
    &&& t.len() == g.num_symbols()
    &&& forall|x: int| 0 <= x < t.len() && g.is_term(x) ==> #[trigger] t[x].contains(x as usize)
    &&& forall|r: int| 0 <= r < g.rules@.len() ==> #[trigger] first_rule_holds(g, t, r)
}

/// `t` is FIRST of `g`: the least table that obeys the rules.
pub open spec fn is_first(g: IndexedGrammar, t: Seq<Set<usize>>) -> bool {
    &&& first_closed(g, t)
    &&& forall|u: Seq<Set<usize>>| #[trigger] first_closed(g, u) ==> below(t, u)
}

impl First {
    /// Whether `ε` is in FIRST of symbol `x`: whether `x` can vanish.
    pub fn produce_epsilon(&self, x: usize) -> (r: bool)
        requires
            x < self.sets@.len(),
        ensures
            r == vanishes(self.view_table(), x),
    {
        row_contains(&self.sets[x], 0)
    }

    pub open spec fn view_table(&self) -> Seq<Set<usize>> {
        table_view(self.sets@)
    }

    /// Computes FIRST of every symbol of `g` by iterating the rules until no
    /// set grows.
    pub fn new(g: &IndexedGrammar) -> (r: First)
        requires
            g.wf(),
        ensures
            is_first(*g, r.view_table()),
            rows_ok(r.sets@, g.num_symbols()),
    {
        let n = g.symbols.len();
        let mut sets: Vec<Vec<usize>> = Vec::new();
        let mut x: usize = 0;
        while x < n
            invariant
                x <= n,
                n == g.num_symbols(),
                g.wf(),
                sets@.len() == x,
                forall|z: int| 0 <= z < x ==> (#[trigger] sets@[z])@ == if g.is_term(z) {
                    seq![z as usize]
                } else {
                    Seq::<usize>::empty()
                },
            decreases n - x,
        {
            if g.symbols[x].is_terminal() {
                sets.push(vec![x]);
            } else {
                sets.push(Vec::new());
            }
            x = x + 1;
        }
        proof {
            assert(rows_ok(sets@, n as int)) by {
                assert forall|z: int| 0 <= z < n implies (#[trigger] sets@[z])@.no_duplicates() by {
                    if g.is_term(z) {
                        assert(sets@[z]@ == seq![z as usize]);
                    }
                }
            }
            assert forall|u: Seq<Set<usize>>| #[trigger] first_closed(*g, u) implies below(table_view(sets@), u) by {
                assert forall|z: int| 0 <= z < n implies #[trigger] table_view(sets@)[z].subset_of(u[z]) by {
                    if g.is_term(z) {
                        assert(sets@[z]@ == seq![z as usize]);
                        assert(table_view(sets@)[z] =~= set![z as usize]) by {
                            assert(sets@[z]@[0] == z as usize);
                        }
                    } else {
                        assert(table_view(sets@)[z] =~= Set::empty());
                    }
                }
            }
            assert forall|z: int| 0 <= z < n && g.is_term(z) implies #[trigger] table_view(sets@)[z].contains(z as usize) by {
                assert(sets@[z]@[0] == z as usize);
            }
        }
        let mut changed = true;
        while changed
            invariant
                g.wf(),
                n == g.num_symbols(),
                rows_ok(sets@, n as int),
                forall|z: int| 0 <= z < n && g.is_term(z) ==> #[trigger] table_view(sets@)[z].contains(z as usize),
                forall|u: Seq<Set<usize>>| #[trigger] first_closed(*g, u) ==> below(table_view(sets@), u),
                !changed ==> first_closed(*g, table_view(sets@)),
            decreases n * n + 1 - total(sets@) + if changed { 1int } else { 0int },
        {
            proof {
                assert forall|z: int| 0 <= z < n implies (#[trigger] sets@[z])@.len() <= n by {
                    lemma_distinct_below(sets@[z]@, n as int);
                }
                lemma_total_bound(sets@, n as int);
            }
            let ghost pass_start = sets@;
            changed = false;
            let mut r: usize = 0;
            while r < g.rules.len()
                invariant
                    g.wf(),
                    n == g.num_symbols(),
                    r <= g.rules@.len(),
                    rows_ok(sets@, n as int),
                    forall|z: int| 0 <= z < n && g.is_term(z) ==> #[trigger] table_view(sets@)[z].contains(z as usize),
                    forall|u: Seq<Set<usize>>| #[trigger] first_closed(*g, u) ==> below(table_view(sets@), u),
                    total(sets@) >= total(pass_start),
                    changed ==> total(sets@) > total(pass_start),
                    !changed ==> sets@ == pass_start,
                    !changed ==> forall|q: int| 0 <= q < r ==> #[trigger] first_rule_holds(*g, table_view(sets@), q),
                decreases g.rules@.len() - r,
            {
                let lhs = g.rules[r].lhs;
                let rhs = &g.rules[r].rhs;
                let ghost rule_start = sets@;
                let mut i: usize = 0;
                let mut all = true;
                proof {
                    assert(g.lhs(r as int) < n);
                }
                while i < rhs.len()
                    invariant_except_break
                        all,
                    invariant
                        g.wf(),
                        n == g.num_symbols(),
                        r < g.rules@.len(),
                        lhs == g.rules@[r as int].lhs,
                        rhs == g.rules@[r as int].rhs,
                        lhs < n,
                        i <= rhs@.len(),
                        rows_ok(sets@, n as int),
                        forall|z: int| 0 <= z < n && g.is_term(z) ==> #[trigger] table_view(sets@)[z].contains(z as usize),
                        forall|u: Seq<Set<usize>>| #[trigger] first_closed(*g, u) ==> below(table_view(sets@), u),
                        total(sets@) >= total(rule_start),
                        total(rule_start) >= total(pass_start),
                        changed ==> total(sets@) > total(pass_start),
                        !changed ==> sets@ == pass_start,
                        !changed ==> forall|q: int| 0 <= q < r ==> #[trigger] first_rule_holds(*g, table_view(sets@), q),
                        !changed ==> prefix_vanishes(table_view(sets@), rhs@, i as int),
                        !changed ==> forall|j: int| 0 <= j < i ==> table_view(sets@)[rhs@[j] as int].remove(0).subset_of(
                            table_view(sets@)[lhs as int]),
                        prefix_vanishes(table_view(sets@), rhs@, i as int),
                    ensures
                        all ==> i == rhs@.len(),
                        !all ==> i < rhs@.len() && !vanishes(table_view(sets@), rhs@[i as int]),
                        !all && !changed ==> table_view(sets@)[rhs@[i as int] as int].remove(0).subset_of(
                            table_view(sets@)[lhs as int]),
                    decreases rhs@.len() - i,
                {
                    let y = rhs[i];
                    proof {
                        assert(1 <= g.rhs(r as int)[i as int] < n);
                    }
                    let src = sets[y].clone();
                    proof {
                        assert(src@ =~= sets@[y as int]@);
                    }
                    let ghost before = sets@;
                    let grew = add_into(&mut sets, lhs, &src, true);
                    proof {
                        let tb = table_view(before);
                        let ta = table_view(sets@);
                        assert(ta[lhs as int] == tb[lhs as int].union(tb[y as int].remove(0)));
                        assert forall|z: int| 0 <= z < n && z != lhs implies #[trigger] ta[z] == tb[z] by {
                            assert(sets@[z] == before[z]);
                        }
                        assert forall|z: int| 0 <= z < n implies #[trigger] tb[z].subset_of(ta[z]) by {
                            if z != lhs {
                                assert(ta[z] == tb[z]);
                            }
                        }
                        assert forall|u: Seq<Set<usize>>| #[trigger] first_closed(*g, u) implies below(ta, u) by {
                            assert(below(tb, u));
                            assert(first_rule_holds(*g, u, r as int));
                            assert(prefix_vanishes(u, g.rhs(r as int), i as int)) by {
                                assert forall|j: int| 0 <= j < i implies #[trigger] vanishes(u, g.rhs(r as int)[j]) by {
                                    assert(vanishes(tb, rhs@[j]));
                                    assert(tb[rhs@[j] as int].subset_of(u[rhs@[j] as int]));
                                }
                            }
                            assert(tb[y as int].subset_of(u[y as int]));
                            assert(tb[lhs as int].subset_of(u[lhs as int]));
                            assert forall|z: int| 0 <= z < n implies #[trigger] ta[z].subset_of(u[z]) by {
                                if z != lhs {
                                    assert(ta[z] == tb[z]);
                                    assert(tb[z].subset_of(u[z]));
                                }
                            }
                        }
                        assert forall|z: int| 0 <= z < n && g.is_term(z) implies #[trigger] ta[z].contains(z as usize) by {
                            assert(tb[z].contains(z as usize));
                            assert(tb[z].subset_of(ta[z]));
                        }
                        assert forall|j: int| 0 <= j < i implies #[trigger] vanishes(ta, rhs@[j]) by {
                            assert(vanishes(tb, rhs@[j]));
                            assert(tb[rhs@[j] as int].subset_of(ta[rhs@[j] as int]));
                        }
                    }
                    proof {
                        if !grew {
                            assert(table_view(sets@)[y as int].remove(0).subset_of(table_view(sets@)[lhs as int]));
                        }
                    }
                    changed = changed || grew;
                    let v = row_contains(&sets[y], 0);
                    if !v {
                        all = false;
                        break;
                    }
                    proof {
                        assert(vanishes(table_view(sets@), y));
                        assert forall|j: int| 0 <= j < i + 1 implies #[trigger] vanishes(table_view(sets@), rhs@[j]) by {
                            if j == i {
                                assert(rhs@[j] == y);
                            }
                        }
                    }
                    i = i + 1;
                }
                if all {
                    let e: Vec<usize> = vec![0];
                    let ghost before = sets@;
                    let grew = add_into(&mut sets, lhs, &e, false);
                    proof {
                        let tb = table_view(before);
                        let ta = table_view(sets@);
                        assert(source_set(e@, false) =~= set![0usize]) by {
                            assert(e@[0] == 0);
                        }
                        assert(i == rhs@.len());
                        assert forall|z: int| 0 <= z < n implies #[trigger] tb[z].subset_of(ta[z]) by {
                            if z != lhs {
                                assert(sets@[z] == before[z]);
                            }
                        }
                        assert forall|u: Seq<Set<usize>>| #[trigger] first_closed(*g, u) implies below(ta, u) by {
                            assert(below(tb, u));
                            assert(first_rule_holds(*g, u, r as int));
                            assert(prefix_vanishes(u, g.rhs(r as int), i as int)) by {
                                assert forall|j: int| 0 <= j < i implies #[trigger] vanishes(u, g.rhs(r as int)[j]) by {
                                    assert(vanishes(tb, rhs@[j]));
                                    assert(tb[rhs@[j] as int].subset_of(u[rhs@[j] as int]));
                                }
                            }
                            assert forall|z: int| 0 <= z < n implies #[trigger] ta[z].subset_of(u[z]) by {
                                if z != lhs {
                                    assert(sets@[z] == before[z]);
                                    assert(tb[z].subset_of(u[z]));
                                } else {
                                    assert(tb[z].subset_of(u[z]));
                                }
                            }
                        }
                        assert forall|z: int| 0 <= z < n && g.is_term(z) implies #[trigger] ta[z].contains(z as usize) by {
                            assert(tb[z].contains(z as usize));
                            assert(tb[z].subset_of(ta[z]));
                        }
                        if !grew && !changed {
                            assert(ta[lhs as int].contains(0));
                            assert forall|j: int| 0 <= j < rhs@.len() && #[trigger] prefix_vanishes(ta, rhs@, j) implies
                                ta[rhs@[j] as int].remove(0).subset_of(ta[lhs as int]) by {
                                assert(ta == tb);
                            }
                            assert(first_rule_holds(*g, ta, r as int));
                        }
                    }
                    changed = changed || grew;
                }
                proof {
                    if !all && !changed {
                        let t = table_view(sets@);
                        assert forall|j: int| 0 <= j < rhs@.len() && #[trigger] prefix_vanishes(t, rhs@, j) implies
                            t[rhs@[j] as int].remove(0).subset_of(t[lhs as int]) by {
                            if j > i {
                                assert(vanishes(t, rhs@[i as int]));
                            } else if j < i {
                                assert(t[rhs@[j] as int].remove(0).subset_of(t[lhs as int]));
                            }
                        }
                        assert(!prefix_vanishes(t, rhs@, rhs@.len() as int)) by {
                            if prefix_vanishes(t, rhs@, rhs@.len() as int) {
                                assert(vanishes(t, rhs@[i as int]));
                            }
                        }
                        assert(first_rule_holds(*g, t, r as int));
                    }
                }
                r = r + 1;
            }
            proof {
                assert forall|z: int| 0 <= z < n implies (#[trigger] sets@[z])@.len() <= n by {
                    lemma_distinct_below(sets@[z]@, n as int);
                }
                lemma_total_bound(sets@, n as int);
                if !changed {
                    assert(first_closed(*g, table_view(sets@)));
                }
            }
        }
        First { sets }
    }
}

/// FIRST of a terminal is that terminal alone.
pub proof fn lemma_first_of_terminal(g: IndexedGrammar, t: Seq<Set<usize>>, x: int)
    requires
        g.wf(),
        is_first(g, t),
        0 <= x < g.num_symbols(),
        g.is_term(x),
    ensures
        t[x] == set![x as usize],
{
    let u = t.update(x, set![x as usize]);
    assert forall|y: int| 0 <= y < t.len() implies #[trigger] u[y].subset_of(t[y]) by {
        if y == x {
            assert(t[x].contains(x as usize));
        }
    }
    assert forall|r: int| 0 <= r < g.rules@.len() implies #[trigger] first_rule_holds(g, u, r) by {
        assert(first_rule_holds(g, t, r));
        let lhs = g.lhs(r);
        let rhs = g.rhs(r);
        assert(lhs != x);
        assert(u[lhs] == t[lhs]);
        assert forall|i: int| 0 <= i < rhs.len() && #[trigger] prefix_vanishes(u, rhs, i) implies u[rhs[i] as int].remove(0).subset_of(u[lhs]) by {
            assert(1 <= rhs[i] < g.num_symbols());
            assert forall|j: int| 0 <= j < i implies #[trigger] vanishes(t, rhs[j]) by {
                assert(vanishes(u, rhs[j]));
                assert(1 <= rhs[j] < g.num_symbols());
                assert(u[rhs[j] as int].subset_of(t[rhs[j] as int]));
            }
            assert(prefix_vanishes(t, rhs, i));
            assert(u[rhs[i] as int].subset_of(t[rhs[i] as int]));
        }
        if prefix_vanishes(u, rhs, rhs.len() as int) {
            assert forall|j: int| 0 <= j < rhs.len() implies #[trigger] vanishes(t, rhs[j]) by {
                assert(vanishes(u, rhs[j]));
                assert(1 <= rhs[j] < g.num_symbols());
                assert(u[rhs[j] as int].subset_of(t[rhs[j] as int]));
            }
            assert(prefix_vanishes(t, rhs, rhs.len() as int));
        }
    }
    assert(first_closed(g, u));
    assert(below(t, u));
    assert(t[x].subset_of(u[x]));
    assert(t[x] =~= set![x as usize]);
}

/// For every rule `N -> Y1 .. Yk`: FIRST(N) holds FIRST(Yi) without `ε` for
/// the first `Yi` that cannot vanish (and for every `Yi` before it), and
/// holds `ε` when every `Yi` can vanish.
pub proof fn lemma_first_covers_rule(g: IndexedGrammar, t: Seq<Set<usize>>, r: int, i: int)
    requires
        is_first(g, t),
        0 <= r < g.rules@.len(),
        0 <= i <= g.rhs(r).len(),
        prefix_vanishes(t, g.rhs(r), i),
    ensures
        i < g.rhs(r).len() ==> t[g.rhs(r)[i] as int].remove(0).subset_of(t[g.lhs(r)]),
        i == g.rhs(r).len() ==> t[g.lhs(r)].contains(0),
{
    assert(first_rule_holds(g, t, r));
}

/// FIRST is determined by the grammar alone: two computations agree.
pub proof fn lemma_first_unique(g: IndexedGrammar, t1: Seq<Set<usize>>, t2: Seq<Set<usize>>)
    requires
        is_first(g, t1),
        is_first(g, t2),
    ensures
        t1 == t2,
{
    assert(below(t1, t2));
    assert(below(t2, t1));
    assert forall|x: int| 0 <= x < t1.len() implies #[trigger] t1[x] == t2[x] by {
        assert(t1[x].subset_of(t2[x]));
        assert(t2[x].subset_of(t1[x]));
        assert(t1[x] =~= t2[x]);
    }
    assert(t1 =~= t2);
}

} // verus!
