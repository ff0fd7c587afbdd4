use context_free::grammar::{AugmentedGrammar, Grammar, GrammarError, Production};
use context_free::lr0::{LR0Closure, LR0Item, LR0ItemSet};
use context_free::slr::{strip_quotes, SLRInstruction, SLRTableBuilder};
use context_free::symbol::Symbol;
use context_free::table::Table;
use std::str::FromStr;

fn symbol(t: &bnf::Term) -> Symbol {
    match t {
        bnf::Term::Terminal(s) => Symbol::Terminal(s.clone()),
        bnf::Term::Nonterminal(s) => Symbol::Nonterminal(s.clone()),
    }
}

fn production(p: &bnf::Production) -> Production {
    let lhs = match &p.lhs {
        bnf::Term::Terminal(s) | bnf::Term::Nonterminal(s) => s.clone(),
    };
    Production {
        lhs,
        rhs: p
            .rhs_iter()
            .map(|e| e.terms_iter().map(symbol).collect())
            .collect(),
    }
}

fn parse(text: &str) -> Grammar {
    let g = bnf::Grammar::from_str(text).unwrap();
    Grammar {
        productions: g.productions_iter().map(production).collect(),
    }
}

fn augmentation(text: &str) -> Production {
    production(&bnf::Production::from_str(text).unwrap())
}

const EXPRESSIONS: &str = r#"
        <E'> ::= <E>
        <E> ::= <E> '+' <T> | <T>
        <T> ::= <T> '*' <F> | <F>
        <F> ::= '(' <E> ')' | 'id'
        "#;

fn expressions() -> AugmentedGrammar {
    AugmentedGrammar::new(&parse(EXPRESSIONS), &augmentation("<E'> ::= <E>")).unwrap()
}

fn id(a: &AugmentedGrammar, s: Symbol) -> usize {
    a.grammar.index_of(&s).unwrap()
}

fn rule(a: &AugmentedGrammar, lhs: &str, rhs: &[Symbol]) -> usize {
    let l = id(a, Symbol::nonterminal(lhs));
    let r: Vec<usize> = rhs.iter().map(|s| id(a, s.duplicate())).collect();
    a.grammar
        .rules
        .iter()
        .position(|x| x.lhs == l && x.rhs == r)
        .unwrap()
}

fn nt(name: &str) -> Symbol {
    Symbol::nonterminal(name)
}

fn t(name: &str) -> Symbol {
    Symbol::terminal(name)
}

#[test]
fn builder_it_works() {
    let a = expressions();
    assert_eq!(LR0Closure::new(&a).closures().len(), 12);
}

#[test]
fn object_clause() {
    let g = parse(
        r#"
        <S> ::= <O> 'v' <C>
        <O> ::= 'n'
        <C> ::= <S>
        <C> ::= 'n'
        "#,
    );
    let a = AugmentedGrammar::new(&g, &augmentation("<S'> ::= <S>")).unwrap();
    assert_eq!(LR0Closure::new(&a).closures().len(), 8);
}

#[test]
fn more_items() {
    let a = expressions();
    let set = LR0ItemSet {
        items: vec![
            LR0Item { rule: rule(&a, "E'", &[nt("E")]), dot: 1 },
            LR0Item { rule: rule(&a, "E", &[nt("E"), t("+"), nt("T")]), dot: 1 },
        ],
    };
    assert_eq!(set.closure(&a.grammar).items.len(), 2);
}

#[test]
fn goto() {
    let a = expressions();
    let start = LR0ItemSet { items: vec![LR0Item { rule: rule(&a, "E'", &[nt("E")]), dot: 0 }] };
    let i0 = start.closure(&a.grammar);
    assert_eq!(i0.items.len(), 7);
    for (s, count) in [
        (nt("E"), 2usize),
        (nt("T"), 2),
        (nt("F"), 1),
        (t("("), 7),
        (t("id"), 1),
        (nt("E'"), 0),
        (t("+"), 0),
        (t("*"), 0),
        (t(")"), 0),
    ] {
        assert_eq!(i0.goto(&a.grammar, id(&a, s)).items.len(), count);
    }
}

#[test]
fn closure_twice_is_the_same() {
    let a = expressions();
    let start = LR0ItemSet { items: vec![LR0Item { rule: rule(&a, "E'", &[nt("E")]), dot: 0 }] };
    let once = start.closure(&a.grammar);
    let twice = once.closure(&a.grammar);
    assert_eq!(once.items.len(), twice.items.len());
    for it in &twice.items {
        assert!(once.contains(it));
    }
}

#[test]
fn productions() {
    let a = expressions();
    assert_eq!(a.grammar.len(), 7);
}

#[test]
fn term_productions() {
    let a = expressions();
    let e = id(&a, nt("E"));
    assert_eq!(a.grammar.rules.iter().filter(|r| r.lhs == e).count(), 2);
}

#[test]
fn states_are_distinct() {
    let a = expressions();
    let aut = LR0Closure::new(&a);
    let states = aut.closures();
    for i in 0..states.len() {
        for j in 0..states.len() {
            if i != j {
                let same = states[i].items.len() == states[j].items.len()
                    && states[i].items.iter().all(|x| states[j].contains(x));
                assert!(!same);
            }
        }
    }
}

#[test]
fn transitions_of_first_state() {
    let a = expressions();
    let aut = LR0Closure::new(&a);
    let e = id(&a, nt("E"));
    let plus = id(&a, t("+"));
    assert!(aut.transition(0, e).is_some());
    assert!(aut.transition(0, plus).is_none());
    let to = aut.transition(0, e).unwrap();
    assert!(aut.transition(to, plus).is_some());
}

#[test]
fn automaton_twice_is_the_same() {
    let a = expressions();
    let x = LR0Closure::new(&a);
    let y = LR0Closure::new(&a);
    assert_eq!(x.len(), y.len());
    assert_eq!(x.transitions, y.transitions);
}

#[test]
fn invalid_augmentation() {
    let g = parse(EXPRESSIONS);
    let two = augmentation("<E'> ::= <E> | <T>");
    assert!(matches!(AugmentedGrammar::new(&g, &two), Err(GrammarError::InvalidAugmentation)));
    assert!(matches!(SLRTableBuilder::new(&g, &two), Err(GrammarError::InvalidAugmentation)));
    let none = Production { lhs: "E'".to_string(), rhs: vec![] };
    assert!(matches!(AugmentedGrammar::new(&g, &none), Err(GrammarError::InvalidAugmentation)));
}

#[test]
fn slr_table_of_expressions() {
    let g = parse(EXPRESSIONS);
    let builder = SLRTableBuilder::new(&g, &augmentation("<E'> ::= <E>")).ok().unwrap();
    let a = &builder.grammar;
    let e = id(a, nt("E"));
    let idt = id(a, t("id"));
    let plus = id(a, t("+"));
    let close = id(a, t(")"));
    let star = id(a, t("*"));
    let to_e = builder.closure.transition(0, e).unwrap();
    let to_id = builder.closure.transition(0, idt).unwrap();
    let rule_f_id = rule(a, "F", &[t("id")]);
    let rule_start = rule(a, "E'", &[nt("E")]);
    let table = builder.build().ok().unwrap();
    assert_eq!(table.states, 12);
    assert_eq!(table.cell(0, e), SLRInstruction::Goto(to_e));
    assert_eq!(table.cell(0, idt), SLRInstruction::Shift(to_id));
    assert_eq!(table.cell(0, plus), SLRInstruction::Empty);
    // F -> id . reduces over FOLLOW(F) = { +, *, ), $ } and nowhere else
    for x in [plus, star, close, 1] {
        assert_eq!(table.cell(to_id, x), SLRInstruction::Reduce(rule_f_id));
    }
    assert_eq!(table.cell(to_id, idt), SLRInstruction::Empty);
    assert_eq!(table.cell(to_e, 1), SLRInstruction::Reduce(rule_start));
    assert_eq!(rule_start, 0);
}

#[test]
fn slr_table_twice_is_the_same() {
    let g = parse(EXPRESSIONS);
    let aug = augmentation("<E'> ::= <E>");
    let x = SLRTableBuilder::new(&g, &aug).ok().unwrap().build().ok().unwrap();
    let y = SLRTableBuilder::new(&g, &aug).ok().unwrap().build().ok().unwrap();
    let n = x.grammar.grammar.symbols.len();
    for s in 0..x.states {
        for c in 0..n {
            assert_eq!(x.cell(s, c), y.cell(s, c));
        }
    }
}

#[test]
fn ambiguous_grammar_conflicts() {
    let g = parse(
        r#"
        <S> ::= <E>
        <E> ::= <E> '+' <E> | 'id'
        "#,
    );
    let builder = SLRTableBuilder::new(&g, &augmentation("<S> ::= <E>")).ok().unwrap();
    match builder.build() {
        Err(GrammarError::Conflict { first, second, .. }) => assert_ne!(first, second),
        _ => panic!("expected a conflict"),
    }
}

#[test]
fn strip_quotes_removes_one_pair() {
    assert_eq!(strip_quotes("\"id\""), "id");
    assert_eq!(strip_quotes("<E>"), "<E>");
    assert_eq!(strip_quotes("\""), "\"");
    assert_eq!(strip_quotes("\"\""), "");
}

#[test]
fn symbol_text() {
    assert_eq!(t("id").to_text(), "\"id\"");
    assert_eq!(nt("E").to_text(), "<E>");
    assert_eq!(strip_quotes(&t("+").to_text()), "+");
}

#[test]
fn table_get_and_set() {
    let mut table: Table<u32> = Table::new();
    assert_eq!(table.get(&0, &1), None);
    table.set(0, 1, 7);
    table.set(2, 1, 8);
    table.set(0, 1, 9);
    assert_eq!(table.get(&0, &1), Some(&9));
    assert_eq!(table.get(&2, &1), Some(&8));
    assert_eq!(table.get(&1, &0), None);
}

fn texts_of(a: &AugmentedGrammar, ids: &[usize]) -> Vec<String> {
    let mut v: Vec<String> = ids.iter().map(|&i| a.grammar.symbol(i).to_text()).collect();
    v.sort();
    v
}

#[test]
fn canonical_follow_sets() {
    let g = parse(EXPRESSIONS);
    let builder = SLRTableBuilder::new(&g, &augmentation("<E'> ::= <E>")).ok().unwrap();
    let a = &builder.grammar;
    let follow = &builder.follow.sets;
    assert_eq!(texts_of(a, &follow[id(a, nt("E"))]), vec!["\"$\"", "\")\"", "\"+\""]);
    assert_eq!(texts_of(a, &follow[id(a, nt("T"))]), vec!["\"$\"", "\")\"", "\"*\"", "\"+\""]);
    assert_eq!(texts_of(a, &follow[id(a, nt("F"))]), vec!["\"$\"", "\")\"", "\"*\"", "\"+\""]);
    assert_eq!(builder.closure.len(), 12);
}

#[test]
fn rule_numbers_follow_the_grammar() {
    let a = expressions();
    let e = id(&a, nt("E"));
    let t_ = id(&a, nt("T"));
    let plus = id(&a, t("+"));
    assert_eq!(a.grammar.get_index_of(id(&a, nt("E'")), &vec![e]), Some(0));
    assert_eq!(a.grammar.get_index_of(e, &vec![e, plus, t_]), Some(1));
    assert_eq!(a.grammar.get_index_of(e, &vec![t_]), Some(2));
    assert_eq!(a.grammar.get_index_of(e, &vec![plus]), None);
    assert_eq!(a.start_rule, 0);
}

#[test]
fn augmentation_outside_the_grammar_is_added_last() {
    let g = parse(
        r#"
        <E> ::= <E> '+' <T> | <T>
        <T> ::= 'id'
        "#,
    );
    let a = AugmentedGrammar::new(&g, &augmentation("<S> ::= <E>")).unwrap();
    assert_eq!(a.start_rule, 3);
    assert_eq!(a.grammar.symbol(a.start), &nt("S"));
    let table = SLRTableBuilder::new(&g, &augmentation("<S> ::= <E>")).ok().unwrap().build().ok().unwrap();
    let e = table.grammar.grammar.index_of(&nt("E")).unwrap();
    let to = 1;
    assert_eq!(table.cell(0, e), SLRInstruction::Goto(to));
    assert_eq!(table.cell(to, 1), SLRInstruction::Reduce(3));
}

#[test]
fn item_expectation() {
    let a = expressions();
    let r = rule(&a, "E", &[nt("E"), t("+"), nt("T")]);
    assert_eq!(LR0Item { rule: r, dot: 1 }.expect(&a.grammar), Some(id(&a, t("+"))));
    assert_eq!(LR0Item { rule: r, dot: 3 }.expect(&a.grammar), None);
}

#[test]
fn epsilon_alternative_reduces() {
    let g = parse(
        r#"
        <S> ::= <A> 'x'
        <A> ::= 'a' | 'ε'
        "#,
    );
    let builder = SLRTableBuilder::new(&g, &augmentation("<Z> ::= <S>")).ok().unwrap();
    let a = &builder.grammar;
    let empty = rule(a, "A", &[]);
    let x = id(a, t("x"));
    assert!(builder.first.produce_epsilon(id(a, nt("A"))));
    let table = builder.build().ok().unwrap();
    assert_eq!(table.cell(0, x), SLRInstruction::Reduce(empty));
}
