use crate::first::{is_first, First};
use crate::follow::{is_follow, Follow};
use crate::grammar::{AugmentedGrammar, Grammar, GrammarError, IndexedGrammar, Production, alts_size, grammar_size};
use crate::lr0::{kernel, state_set, LR0Closure, LR0Item, lemma_closure_unique};
use crate::rows::{rows_ok, table_view};
use crate::table::Table;
use vstd::prelude::*;

verus! {

/// One cell of an SLR table.
#[derive(Debug, Clone, Copy, PartialEq, Eq, Structural)]
pub enum SLRInstruction {
    Reduce(usize),
    Shift(usize),
    Goto(usize),
    Empty,
}

/// Shift over a terminal, goto over a nonterminal.
pub open spec fn move_action(g: IndexedGrammar, x: usize, to: usize) -> SLRInstruction {
    if g.is_term(x as int) {
        SLRInstruction::Shift(to)
    } else {
        SLRInstruction::Goto(to)
    }
}

/// Item `it` of state `s` asks for action `a` over symbol `x`: a completed
/// item reduces by its rule over each symbol of FOLLOW of its left-hand side;
/// any other item shifts or goes to the target of the edge over the symbol
/// after its dot.
pub open spec fn item_demands(
    g: IndexedGrammar,
    aut: LR0Closure,
    fol: Seq<Set<usize>>,
    s: int,
    it: LR0Item,
    x: usize,
    a: SLRInstruction,
) -> bool {
    ||| (g.completed(it) && fol[g.lhs(it.rule as int)].contains(x) && a == SLRInstruction::Reduce(it.rule))
    ||| (g.expects(it, x) && exists|k: int|
        0 <= k < aut.transitions@.len() && (#[trigger] aut.transitions@[k]).from == s && aut.transitions@[k].symbol == x
            && a == move_action(g, x, aut.transitions@[k].to))
}

/// Some item of state `s` asks for action `a` over symbol `x`.
pub open spec fn demands(g: IndexedGrammar, aut: LR0Closure, fol: Seq<Set<usize>>, s: int, x: usize, a: SLRInstruction) -> bool {
    exists|it: LR0Item| #[trigger] aut.state(s).contains(it) && item_demands(g, aut, fol, s, it, x, a)
}

/// No cell is asked for two different actions: the grammar is SLR(1).
pub open spec fn conflict_free(g: IndexedGrammar, aut: LR0Closure, fol: Seq<Set<usize>>) -> bool {
    forall|s: int, x: usize, a: SLRInstruction, b: SLRInstruction|
        0 <= s < aut.closures@.len() && #[trigger] demands(g, aut, fol, s, x, a) && #[trigger] demands(g, aut, fol, s, x, b)
            ==> a == b
}

/// Each filled cell holds an action that its state asks for, and each action
/// that a state asks for is in its cell.
pub open spec fn table_matches(
    g: IndexedGrammar,
    aut: LR0Closure,
    fol: Seq<Set<usize>>,
    m: Map<(usize, usize), SLRInstruction>,
) -> bool {
    &&& forall|k: (usize, usize)| #[trigger] m.contains_key(k) ==> k.0 < aut.closures@.len() && demands(g, aut, fol, k.0 as int, k.1, m[k])
    &&& forall|s: int, x: usize, a: SLRInstruction|
        0 <= s < aut.closures@.len() && #[trigger] demands(g, aut, fol, s, x, a) ==> m.contains_key((s as usize, x))
            && m[(s as usize, x)] == a
}

/// An SLR(1) parsing table: one row per state of the LR(0) automaton.
pub struct SLRTable {
    pub grammar: AugmentedGrammar,
    pub states: usize,
    pub table: Table<SLRInstruction>,
}

/// FIRST, FOLLOW and the LR(0) automaton of an augmented grammar, from which
/// the SLR table is assembled.
pub struct SLRTableBuilder {
    pub grammar: AugmentedGrammar,
    pub first: First,
    pub follow: Follow,
    pub closure: LR0Closure,
}

impl SLRTableBuilder {
    pub open spec fn wf(&self) -> bool {
        let g = self.grammar.grammar;
        &&& self.grammar.wf()
        &&& is_first(g, self.first.view_table())
        &&& rows_ok(self.first.sets@, g.num_symbols())
        &&& is_follow(g, self.first.view_table(), self.grammar.start as int, self.follow.view_table())
        &&& rows_ok(self.follow.sets@, g.num_symbols())
        &&& self.closure.is_automaton(g, self.grammar.start_rule as int)
    }

    /// Indexes the grammar with its augmentation, then computes FIRST, FOLLOW
    /// from the augmentation's left-hand side, and the LR(0) automaton.
    pub fn new(grammar: &Grammar, augmentation: &Production) -> (r: Result<SLRTableBuilder, GrammarError>)
        requires
            grammar_size(grammar.productions@) + alts_size(augmentation.rhs@) + 4 < usize::MAX,
        ensures
            augmentation.rhs@.len() != 1 <==> r == Err::<SLRTableBuilder, GrammarError>(GrammarError::InvalidAugmentation),
            augmentation.rhs@.len() == 1 <==> r is Ok,
            r is Ok ==> r->Ok_0.wf(),
    {
        let a = match AugmentedGrammar::new(grammar, augmentation) {
            Ok(a) => a,
            Err(e) => {
                return Err(e);
            },
        };
        let first = First::new(&a.grammar);
        let follow = Follow::new(&a.grammar, &first, a.start);
        let closure = LR0Closure::new(&a);
        Ok(SLRTableBuilder { grammar: a, first, follow, closure })
    }
}

/// Puts action `a` in cell (`s`, `x`), or reports the different action that
/// is there already.
fn place(table: &mut Table<SLRInstruction>, s: usize, x: usize, a: SLRInstruction) -> (r: Result<(), GrammarError>)
    requires
        old(table).wf(),
    ensures
        final(table).wf(),
        r is Ok ==> final(table).view_map() == old(table).view_map().insert((s, x), a) && (old(table).view_map().contains_key((s, x)) ==> old(table).view_map()[(s, x)] == a),
        r is Err ==> final(table).view_map() == old(table).view_map() && old(table).view_map().contains_key((s, x))
            && old(table).view_map()[(s, x)] != a && r == Err::<(), GrammarError>(GrammarError::Conflict {
                state: s,
                symbol: x,
                first: old(table).view_map()[(s, x)],
                second: a,
            }),
{
    match table.get(&s, &x) {
        Some(b) => {
            if *b != a {
                let first = *b;
                return Err(GrammarError::Conflict { state: s, symbol: x, first, second: a });
            }
        },
        None => {},
    }
    table.set(s, x, a);
    Ok(())
}

impl SLRTableBuilder {
    /// Assembles the SLR table: shift or goto for every item with a symbol
    /// after its dot, reduce over FOLLOW for every completed item. Fails on
    /// the first cell that would receive two different actions.
    pub fn build(self) -> (r: Result<SLRTable, GrammarError>)
        requires
            self.wf(),
        ensures
            r is Ok <==> conflict_free(self.grammar.grammar, self.closure, self.follow.view_table()),
            r is Ok ==> r->Ok_0.states == self.closure.closures@.len() && r->Ok_0.table.wf() && table_matches(
                self.grammar.grammar,
                self.closure,
                self.follow.view_table(),
                r->Ok_0.table.view_map(),
            ),
            r is Err ==> match r->Err_0 {
                GrammarError::Conflict { state, symbol, first, second } => state < self.closure.closures@.len()
                    && first != second && demands(self.grammar.grammar, self.closure, self.follow.view_table(), state as int, symbol, first)
                    && demands(self.grammar.grammar, self.closure, self.follow.view_table(), state as int, symbol, second),
                _ => false,
            },
    {
        let g = &self.grammar.grammar;
        let aut = &self.closure;
        let ghost fol = self.follow.view_table();
        let mut table: Table<SLRInstruction> = Table::new();
        let ns = aut.closures.len();
        let mut s: usize = 0;
        while s < ns
            invariant
                self.wf(),
                g == &self.grammar.grammar,
                aut == &self.closure,
                fol == self.follow.view_table(),
                ns == aut.closures@.len(),
                s <= ns,
                table.wf(),
                forall|k: (usize, usize)| #[trigger] table.view_map().contains_key(k) ==> k.0 < ns && demands(*g, *aut, fol, k.0 as int, k.1, table.view_map()[k]),
                forall|p: int, j: int, x: usize, a: SLRInstruction|
                    0 <= p < s && 0 <= j < aut.closures@[p].items@.len() && #[trigger] item_demands(*g, *aut, fol, p, aut.closures@[p].items@[j], x, a)
                        ==> table.view_map().contains_key((p as usize, x)) && table.view_map()[(p as usize, x)] == a,
            decreases ns - s,
        {
            let items = &aut.closures[s].items;
            let mut k: usize = 0;
            while k < items.len()
                invariant
                    self.wf(),
                    g == &self.grammar.grammar,
                    aut == &self.closure,
                    fol == self.follow.view_table(),
                    ns == aut.closures@.len(),
                    s < ns,
                    items == aut.closures@[s as int].items,
                    k <= items@.len(),
                    table.wf(),
                    forall|q: (usize, usize)| #[trigger] table.view_map().contains_key(q) ==> q.0 < ns && demands(*g, *aut, fol, q.0 as int, q.1, table.view_map()[q]),
                    forall|p: int, j: int, x: usize, a: SLRInstruction|
                        ((0 <= p < s && 0 <= j < aut.closures@[p].items@.len()) || (p == s && 0 <= j < k)) && #[trigger] item_demands(*g, *aut, fol, p, aut.closures@[p].items@[j], x, a)
                            ==> table.view_map().contains_key((p as usize, x)) && table.view_map()[(p as usize, x)] == a,
                decreases items@.len() - k,
            {
                let it = items[k];
                proof {
                    assert(aut.closures@[s as int].wf(*g));
                    assert(g.valid_item(items@[k as int]));
                    assert(aut.state(s as int).contains(it)) by {
                        assert(items@[k as int] == it);
                    }
                }
                let rule = &g.rules[it.rule];
                if it.dot == rule.rhs.len() {
                    let lhs = rule.lhs;
                    proof {
                        assert(g.lhs(it.rule as int) < g.num_symbols());
                    }
                    let fl = &self.follow.sets[lhs];
                    let act = SLRInstruction::Reduce(it.rule);
                    let mut e: usize = 0;
                    while e < fl.len()
                        invariant
                            self.wf(),
                            g == &self.grammar.grammar,
                            aut == &self.closure,
                            fol == self.follow.view_table(),
                            ns == aut.closures@.len(),
                            s < ns,
                            items == aut.closures@[s as int].items,
                            k < items@.len(),
                            it == items@[k as int],
                            aut.state(s as int).contains(it),
                            g.completed(it),
                            lhs == g.lhs(it.rule as int),
                            lhs < g.num_symbols(),
                            fl == self.follow.sets@[lhs as int],
                            act == SLRInstruction::Reduce(it.rule),
                            e <= fl@.len(),
                            table.wf(),
                            forall|q: (usize, usize)| #[trigger] table.view_map().contains_key(q) ==> q.0 < ns && demands(*g, *aut, fol, q.0 as int, q.1, table.view_map()[q]),
                            forall|p: int, j: int, x: usize, a: SLRInstruction|
                                ((0 <= p < s && 0 <= j < aut.closures@[p].items@.len()) || (p == s && 0 <= j < k)) && #[trigger] item_demands(*g, *aut, fol, p, aut.closures@[p].items@[j], x, a)
                                    ==> table.view_map().contains_key((p as usize, x)) && table.view_map()[(p as usize, x)] == a,
                            forall|m: int| 0 <= m < e ==> table.view_map().contains_key((s, #[trigger] fl@[m])) && table.view_map()[(s, fl@[m])] == act,
                        decreases fl@.len() - e,
                    {
                        let x = fl[e];
                        proof {
                            assert(fol[lhs as int].contains(x)) by {
                                assert(fl@[e as int] == x);
                            }
                            assert(item_demands(*g, *aut, fol, s as int, it, x, act));
                            assert(demands(*g, *aut, fol, s as int, x, act));
                        }
                        let ghost before = table.view_map();
                        match place(&mut table, s, x, act) {
                            Ok(()) => {},
                            Err(err) => {
                                proof {
                                    assert(demands(*g, *aut, fol, s as int, x, before[(s, x)]));
                                }
                                return Err(err);
                            },
                        }
                        proof {
                            assert forall|q: (usize, usize)| #[trigger] table.view_map().contains_key(q) implies q.0 < ns && demands(*g, *aut, fol, q.0 as int, q.1, table.view_map()[q]) by {
                                if q != (s, x) {
                                    assert(before.contains_key(q));
                                }
                            }
                        }
                        e = e + 1;
                    }
                    proof {
                        assert forall|p: int, j: int, x: usize, a: SLRInstruction|
                            ((0 <= p < s && 0 <= j < aut.closures@[p].items@.len()) || (p == s && 0 <= j < k + 1)) && #[trigger] item_demands(*g, *aut, fol, p, aut.closures@[p].items@[j], x, a)
                                implies table.view_map().contains_key((p as usize, x)) && table.view_map()[(p as usize, x)] == a by {
                            if p == s && j == k {
                                assert(!g.expects(it, x));
                                assert(fol[lhs as int].contains(x));
                                let m = choose|m: int| 0 <= m < fl@.len() && fl@[m] == x;
                                assert(table.view_map().contains_key((s, fl@[m])));
                            }
                        }
                    }
                } else {
                    let y = rule.rhs[it.dot];
                    proof {
                        assert(g.expects(it, y));
                        let nk = LR0Item { rule: it.rule, dot: (it.dot + 1) as usize };
                        assert(crate::lr0::kernel(*g, aut.state(s as int), y).contains(nk));
                        assert(1 <= g.rhs(it.rule as int)[it.dot as int] < g.num_symbols());
                    }
                    match aut.transition(s, y) {
                        Some(to) => {
                            let act = if g.symbols[y].is_terminal() {
                                SLRInstruction::Shift(to)
                            } else {
                                SLRInstruction::Goto(to)
                            };
                            proof {
                                let m = choose|m: int| 0 <= m < aut.transitions@.len() && #[trigger] aut.transitions@[m] == crate::lr0::Transition { from: s, symbol: y, to };
                                assert(aut.transitions@[m].from == s);
                                assert(item_demands(*g, *aut, fol, s as int, it, y, act));
                                assert(demands(*g, *aut, fol, s as int, y, act));
                            }
                            let ghost before = table.view_map();
                            match place(&mut table, s, y, act) {
                                Ok(()) => {},
                                Err(err) => {
                                    proof {
                                        assert(demands(*g, *aut, fol, s as int, y, before[(s, y)]));
                                    }
                                    return Err(err);
                                },
                            }
                            proof {
                                assert forall|q: (usize, usize)| #[trigger] table.view_map().contains_key(q) implies q.0 < ns && demands(*g, *aut, fol, q.0 as int, q.1, table.view_map()[q]) by {
                                    if q != (s, y) {
                                        assert(before.contains_key(q));
                                    }
                                }
                                assert forall|p: int, j: int, x: usize, a: SLRInstruction|
                                    ((0 <= p < s && 0 <= j < aut.closures@[p].items@.len()) || (p == s && 0 <= j < k + 1)) && #[trigger] item_demands(*g, *aut, fol, p, aut.closures@[p].items@[j], x, a)
                                        implies table.view_map().contains_key((p as usize, x)) && table.view_map()[(p as usize, x)] == a by {
                                    if p == s && j == k {
                                        assert(!g.completed(it));
                                        assert(x == y);
                                        let m = choose|m: int|
                                            0 <= m < aut.transitions@.len() && (#[trigger] aut.transitions@[m]).from == s && aut.transitions@[m].symbol == x
                                                && a == move_action(*g, x, aut.transitions@[m].to);
                                        let m2 = choose|m2: int| 0 <= m2 < aut.transitions@.len() && #[trigger] aut.transitions@[m2] == crate::lr0::Transition { from: s, symbol: y, to };
                                        if m != m2 {
                                            assert(aut.transitions@[m].from != aut.transitions@[m2].from || aut.transitions@[m].symbol != aut.transitions@[m2].symbol);
                                        }
                                    } else {
                                        assert(before.contains_key((p as usize, x)));
                                    }
                                }
                            }
                        },
                        None => {
                            proof {
                                let nk = LR0Item { rule: it.rule, dot: (it.dot + 1) as usize };
                                let kx = crate::lr0::kernel(*g, aut.state(s as int), (y as int) as usize);
                                assert(kx.contains(nk));
                                assert(kx != Set::<LR0Item>::empty());
                                let m = choose|m: int|
                                    0 <= m < aut.transitions@.len() && (#[trigger] aut.transitions@[m]).from == s as int
                                        && aut.transitions@[m].symbol == y as int;
                                assert(false);
                            }
                        },
                    }
                }
                k = k + 1;
            }
            s = s + 1;
        }
        proof {
            let m = table.view_map();
            assert forall|p: int, x: usize, a: SLRInstruction|
                0 <= p < ns && #[trigger] demands(*g, *aut, fol, p, x, a) implies m.contains_key((p as usize, x)) && m[(p as usize, x)] == a by {
                let it = choose|it: LR0Item| #[trigger] aut.state(p).contains(it) && item_demands(*g, *aut, fol, p, it, x, a);
                let j = choose|j: int| 0 <= j < aut.closures@[p].items@.len() && aut.closures@[p].items@[j] == it;
                assert(item_demands(*g, *aut, fol, p, aut.closures@[p].items@[j], x, a));
            }
            assert(table_matches(*g, *aut, fol, m));
        }
        Ok(SLRTable { grammar: self.grammar, states: ns, table })
    }
}

/// `s` without its surrounding double quotes, when it has them.
pub open spec fn unquoted(s: Seq<char>) -> Seq<char> {
    if s.len() >= 2 && s[0] == '"' && s[s.len() - 1] == '"' {
        s.subrange(1, s.len() - 1)
    } else {
        s
    }
}

/// Removes one pair of surrounding double quotes.
pub fn strip_quotes(s: &str) -> (r: &str)
    ensures
        r@ == unquoted(s@),
{
    let n = s.unicode_len();
    if n >= 2 && s.get_char(0) == '"' && s.get_char(n - 1) == '"' {
        s.substring_char(1, n - 1)
    } else {
        s
    }
}

impl SLRTable {
    /// The action in the cell of state `state` and symbol `symbol`; `Empty`
    /// where there is none.
    pub fn cell(&self, state: usize, symbol: usize) -> (r: SLRInstruction)
        requires
            self.table.wf(),
        ensures
            self.table.view_map().contains_key((state, symbol)) ==> r == self.table.view_map()[(state, symbol)],
            !self.table.view_map().contains_key((state, symbol)) ==> r == SLRInstruction::Empty,
    {
        match self.table.get(&state, &symbol) {
            Some(a) => *a,
            None => SLRInstruction::Empty,
        }
    }
}

/// Placement of reduce actions: in a state with the completed item
/// `A -> alpha .`, every symbol of FOLLOW(A) holds the reduce by that rule, and
/// a symbol whose cell holds that reduce is in FOLLOW(A).
pub proof fn lemma_reduce_placement(
    g: IndexedGrammar,
    aut: LR0Closure,
    fol: Seq<Set<usize>>,
    m: Map<(usize, usize), SLRInstruction>,
    s: int,
    it: LR0Item,
    x: usize,
)
    requires
        table_matches(g, aut, fol, m),
        0 <= s < aut.closures@.len(),
        aut.state(s).contains(it),
        g.completed(it),
    ensures
        fol[g.lhs(it.rule as int)].contains(x) ==> m.contains_key((s as usize, x)) && m[(s as usize, x)]
            == SLRInstruction::Reduce(it.rule),
        m.contains_key((s as usize, x)) && m[(s as usize, x)] == SLRInstruction::Reduce(it.rule) ==> fol[g.lhs(
            it.rule as int,
        )].contains(x),
{
    if fol[g.lhs(it.rule as int)].contains(x) {
        assert(item_demands(g, aut, fol, s, it, x, SLRInstruction::Reduce(it.rule)));
        assert(demands(g, aut, fol, s, x, SLRInstruction::Reduce(it.rule)));
    }
    if m.contains_key((s as usize, x)) && m[(s as usize, x)] == SLRInstruction::Reduce(it.rule) {
        let k = (s as usize, x);
        assert(demands(g, aut, fol, k.0 as int, k.1, m[k]));
        let it2 = choose|it2: LR0Item| #[trigger] aut.state(s).contains(it2) && item_demands(g, aut, fol, s, it2, x, SLRInstruction::Reduce(it.rule));
        assert(it2.rule == it.rule);
    }
}

/// The table is determined by the automaton and FOLLOW: two tables that
/// match them are the same.
pub proof fn lemma_table_unique(
    g: IndexedGrammar,
    aut: LR0Closure,
    fol: Seq<Set<usize>>,
    m1: Map<(usize, usize), SLRInstruction>,
    m2: Map<(usize, usize), SLRInstruction>,
)
    requires
        table_matches(g, aut, fol, m1),
        table_matches(g, aut, fol, m2),
    ensures
        m1 == m2,
{
    assert forall|k: (usize, usize)| #[trigger] m1.contains_key(k) implies m2.contains_key(k) && m2[k] == m1[k] by {
        assert(demands(g, aut, fol, k.0 as int, k.1, m1[k]));
    }
    assert forall|k: (usize, usize)| #[trigger] m2.contains_key(k) implies m1.contains_key(k) by {
        assert(demands(g, aut, fol, k.0 as int, k.1, m2[k]));
    }
    assert(m1 =~= m2);
}

/// Two actions are the same once states are read as their sets of items:
/// equal reduces, or shifts (gotos) to states with the same items.
pub open spec fn same_action(a1: LR0Closure, a2: LR0Closure, p: SLRInstruction, q: SLRInstruction) -> bool {
    match (p, q) {
        (SLRInstruction::Reduce(r1), SLRInstruction::Reduce(r2)) => r1 == r2,
        (SLRInstruction::Shift(t1), SLRInstruction::Shift(t2)) => t1 < a1.closures@.len() && t2 < a2.closures@.len()
            && a1.state(t1 as int) == a2.state(t2 as int),
        (SLRInstruction::Goto(t1), SLRInstruction::Goto(t2)) => t1 < a1.closures@.len() && t2 < a2.closures@.len()
            && a1.state(t1 as int) == a2.state(t2 as int),
        (SLRInstruction::Empty, SLRInstruction::Empty) => true,
        _ => false,
    }
}

/// What `m1` holds in a cell of state `i` of `a1`, `m2` holds in the cell of a
/// state of `a2` with the same items, up to the numbering of states.
proof fn lemma_cell_in_other(
    g: IndexedGrammar,
    start_rule: int,
    fol: Seq<Set<usize>>,
    a1: LR0Closure,
    m1: Map<(usize, usize), SLRInstruction>,
    a2: LR0Closure,
    m2: Map<(usize, usize), SLRInstruction>,
    i: int,
    j: int,
    x: usize,
)
    requires
        g.wf(),
        a1.is_automaton(g, start_rule),
        a2.is_automaton(g, start_rule),
        table_matches(g, a1, fol, m1),
        table_matches(g, a2, fol, m2),
        0 <= i < a1.closures@.len(),
        0 <= j < a2.closures@.len(),
        a1.state(i) == a2.state(j),
        m1.contains_key((i as usize, x)),
    ensures
        m2.contains_key((j as usize, x)),
        same_action(a1, a2, m1[(i as usize, x)], m2[(j as usize, x)]),
{
    let k = (i as usize, x);
    let a = m1[k];
    assert(a1.closures.len() == a1.closures@.len());
    assert(k.0 as int == i);
    assert(demands(g, a1, fol, k.0 as int, k.1, m1[k]));
    assert(demands(g, a1, fol, i, x, a));
    let it = choose|it: LR0Item| #[trigger] a1.state(i).contains(it) && item_demands(g, a1, fol, i, it, x, a);
    assert(a2.state(j).contains(it));
    if g.completed(it) && fol[g.lhs(it.rule as int)].contains(x) && a == SLRInstruction::Reduce(it.rule) {
        assert(item_demands(g, a2, fol, j, it, x, a));
        assert(demands(g, a2, fol, j, x, a));
    } else {
        let k1 = choose|k1: int|
            0 <= k1 < a1.transitions@.len() && (#[trigger] a1.transitions@[k1]).from == i && a1.transitions@[k1].symbol == x
                && a == move_action(g, x, a1.transitions@[k1].to);
        let t1 = a1.transitions@[k1];
        assert(a1.edge_ok(g, t1));
        assert(g.expects(it, x));
        assert(g.rules@[it.rule as int].rhs.len() == g.rhs(it.rule as int).len());
        let nk = LR0Item { rule: it.rule, dot: (it.dot + 1) as usize };
        assert(LR0Item { rule: nk.rule, dot: (nk.dot - 1) as usize } == it);
        let kx = kernel(g, a2.state(j), (x as int) as usize);
        assert(kx.contains(nk));
        assert(kx != Set::<LR0Item>::empty());
        let k2 = choose|k2: int|
            0 <= k2 < a2.transitions@.len() && (#[trigger] a2.transitions@[k2]).from == j && a2.transitions@[k2].symbol == x as int;
        let t2 = a2.transitions@[k2];
        assert(a2.edge_ok(g, t2));
        lemma_closure_unique(g, kernel(g, a1.state(i), x), a1.state(t1.to as int), a2.state(t2.to as int));
        let b = move_action(g, x, t2.to);
        assert(item_demands(g, a2, fol, j, it, x, b));
        assert(demands(g, a2, fol, j, x, b));
        assert(m2[(j as usize, x)] == b);
    }
}

/// Computing the SLR table twice from one grammar gives the same table. Two
/// builds have FIRST, FOLLOW, automata and tables that meet their contracts;
/// then their automata have the same states, and states with the same items
/// have the same cells, up to the numbering of states.
pub proof fn lemma_tables_agree(
    g: IndexedGrammar,
    start: int,
    start_rule: int,
    t1: Seq<Set<usize>>,
    f1: Seq<Set<usize>>,
    a1: LR0Closure,
    m1: Map<(usize, usize), SLRInstruction>,
    t2: Seq<Set<usize>>,
    f2: Seq<Set<usize>>,
    a2: LR0Closure,
    m2: Map<(usize, usize), SLRInstruction>,
)
    requires
        g.wf(),
        is_first(g, t1),
        is_first(g, t2),
        is_follow(g, t1, start, f1),
        is_follow(g, t2, start, f2),
        a1.is_automaton(g, start_rule),
        a2.is_automaton(g, start_rule),
        table_matches(g, a1, f1, m1),
        table_matches(g, a2, f2, m2),
    ensures
        state_set(a1) == state_set(a2),
        forall|i: int, j: int, x: usize|
            #![trigger a1.state(i), a2.state(j), m1.contains_key((i as usize, x))]
            #![trigger a1.state(i), a2.state(j), m2.contains_key((j as usize, x))]
            0 <= i < a1.closures@.len() && 0 <= j < a2.closures@.len() && a1.state(i) == a2.state(j)
                ==> (m1.contains_key((i as usize, x)) <==> m2.contains_key((j as usize, x))) && (m1.contains_key(
                (i as usize, x),
            ) ==> same_action(a1, a2, m1[(i as usize, x)], m2[(j as usize, x)])),
{
    crate::first::lemma_first_unique(g, t1, t2);
    crate::follow::lemma_follow_unique(g, t1, start, f1, f2);
    crate::lr0::lemma_automaton_unique(g, start_rule, a1, a2);
    assert forall|i: int, j: int, x: usize|
        #![trigger a1.state(i), a2.state(j), m1.contains_key((i as usize, x))]
        #![trigger a1.state(i), a2.state(j), m2.contains_key((j as usize, x))]
        0 <= i < a1.closures@.len() && 0 <= j < a2.closures@.len() && a1.state(i) == a2.state(j)
            implies (m1.contains_key((i as usize, x)) <==> m2.contains_key((j as usize, x))) && (m1.contains_key(
            (i as usize, x),
        ) ==> same_action(a1, a2, m1[(i as usize, x)], m2[(j as usize, x)])) by {
        if m1.contains_key((i as usize, x)) {
            lemma_cell_in_other(g, start_rule, f1, a1, m1, a2, m2, i, j, x);
        }
        if m2.contains_key((j as usize, x)) {
            lemma_cell_in_other(g, start_rule, f1, a2, m2, a1, m1, j, i, x);
        }
    }
}

} // verus!
