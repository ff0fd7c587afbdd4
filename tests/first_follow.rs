use context_free::first::First;
use context_free::follow::Follow;
use context_free::grammar::{Grammar, GrammarError, IndexedGrammar, Production};
use context_free::symbol::Symbol;
use std::collections::HashSet;
use std::str::FromStr;

fn symbol(t: &bnf::Term) -> Symbol {
    match t {
        bnf::Term::Terminal(s) => Symbol::Terminal(s.clone()),
        bnf::Term::Nonterminal(s) => Symbol::Nonterminal(s.clone()),
    }
}

fn production(p: &bnf::Production) -> Production {
    let lhs = match &p.lhs {
        bnf::Term::Terminal(s) | bnf::Term::Nonterminal(s) => s.clone(),
    };
    Production {
        lhs,
        rhs: p
            .rhs_iter()
            .map(|e| e.terms_iter().map(symbol).collect())
            .collect(),
    }
}

fn parse(text: &str) -> Grammar {
    let g = bnf::Grammar::from_str(text).unwrap();
    Grammar {
        productions: g.productions_iter().map(production).collect(),
    }
}

fn epsilon_grammar() -> IndexedGrammar {
    IndexedGrammar::new(&parse(
        r#"
        <E> ::= <T> <E'>
        <E'> ::= '+' <T> <E'> | 'ε'
        <T> ::= <F> <T'>
        <T'> ::= '*' <F> <T'> | 'ε'
        <F> ::= '(' <E> ')' | 'id'
        "#,
    ))
}

fn id(g: &IndexedGrammar, s: Symbol) -> usize {
    g.index_of(&s).unwrap()
}

fn nt(name: &str) -> Symbol {
    Symbol::nonterminal(name)
}

fn t(name: &str) -> Symbol {
    Symbol::terminal(name)
}

fn names(g: &IndexedGrammar, ids: &[usize]) -> HashSet<String> {
    ids.iter().map(|&i| g.symbol(i).to_text()).collect()
}

fn texts(items: &[&str]) -> HashSet<String> {
    items.iter().map(|s| s.to_string()).collect()
}

#[test]
fn first_symbols() {
    let g = epsilon_grammar();
    let found: HashSet<String> = g.symbols().iter().map(|s| s.text().clone()).collect();
    let expected: HashSet<String> = ["+", "*", "(", ")", "id", "F", "E", "E'", "T'", "T"]
        .iter()
        .map(|s| s.to_string())
        .collect();
    assert_eq!(found, expected);
}

#[test]
fn first_produce_epsilon() {
    let g = epsilon_grammar();
    let first = First::new(&g);
    assert!(first.produce_epsilon(id(&g, nt("E'"))));
    assert!(first.produce_epsilon(id(&g, nt("T'"))));
    assert!(!first.produce_epsilon(id(&g, nt("T"))));
    assert!(!first.produce_epsilon(id(&g, nt("E"))));
}

#[test]
fn first_first() {
    let g = epsilon_grammar();
    let first = First::new(&g);
    for (x, set) in first.sets.iter().enumerate() {
        if g.symbol(x).is_terminal() {
            assert_eq!(set.len(), 1);
        } else {
            assert_eq!(set.len(), 2);
        }
    }
}

#[test]
fn builder_first() {
    let g = epsilon_grammar();
    let first = First::new(&g);
    for x in g.terminals() {
        assert_eq!(first.sets[x].len(), 1);
    }
    for x in g.nonterminals() {
        assert_eq!(first.sets[x].len(), 2);
    }
}

#[test]
fn first_of_terminal_is_itself() {
    let g = epsilon_grammar();
    let first = First::new(&g);
    for x in g.terminals() {
        assert_eq!(first.sets[x], vec![x]);
    }
}

#[test]
fn first_of_epsilon_nonterminal() {
    let g = epsilon_grammar();
    let first = First::new(&g);
    let e2 = &first.sets[id(&g, nt("E'"))];
    assert_eq!(names(&g, e2), texts(&["\"ε\"", "\"+\""]));
    let f = &first.sets[id(&g, nt("F"))];
    assert_eq!(names(&g, f), texts(&["\"(\"", "\"id\""]));
    let e = &first.sets[id(&g, nt("E"))];
    assert_eq!(names(&g, e), texts(&["\"(\"", "\"id\""]));
}

#[test]
fn first_of_alternation_has_no_epsilon() {
    let g = IndexedGrammar::new(&parse(
        r#"
        <P> ::= <Q> 'id' <R>
        <Q> ::= '∃' | '∀'
        <R> ::= <E> '=' <E>
        <E> ::= <T> <E'>
        <E'> ::= '+' <T> <E'> | 'ε'
        <T> ::= '(' <E> ')' | 'id'
        "#,
    ));
    let first = First::new(&g);
    let q = &first.sets[id(&g, nt("Q"))];
    assert_eq!(names(&g, q), texts(&["\"∃\"", "\"∀\""]));
    let p = &first.sets[id(&g, nt("P"))];
    assert_eq!(names(&g, p), texts(&["\"∃\"", "\"∀\""]));
}

#[test]
fn first_twice_is_the_same() {
    let g = epsilon_grammar();
    let a = First::new(&g);
    let b = First::new(&g);
    assert_eq!(a.sets, b.sets);
}

#[test]
fn follow_it_works() {
    let g = epsilon_grammar();
    let first = First::new(&g);
    let start = id(&g, nt("E"));
    let follow = Follow::new(&g, &first, start);
    assert_eq!(follow.sets[id(&g, nt("E"))].len(), 2);
    assert_eq!(follow.sets[id(&g, nt("E'"))].len(), 2);
    assert_eq!(follow.sets[id(&g, nt("T"))].len(), 3);
    assert_eq!(follow.sets[id(&g, nt("T'"))].len(), 3);
    assert_eq!(follow.sets[id(&g, nt("F"))].len(), 4);
}

#[test]
fn follow_builder_it_works() {
    let g = epsilon_grammar();
    let first = First::new(&g);
    let start = Symbol::Nonterminal("E".to_string());
    let follow = Follow::new(&g, &first, id(&g, start));
    assert_eq!(follow.sets[id(&g, nt("E"))].len(), 2);
    assert_eq!(follow.sets[id(&g, nt("E'"))].len(), 2);
    assert_eq!(follow.sets[id(&g, nt("T"))].len(), 3);
    assert_eq!(follow.sets[id(&g, nt("T'"))].len(), 3);
    assert_eq!(follow.sets[id(&g, nt("F"))].len(), 4);
}

#[test]
fn follow_sets_of_epsilon_grammar() {
    let g = epsilon_grammar();
    let first = First::new(&g);
    let start = id(&g, nt("E"));
    let follow = Follow::new(&g, &first, start);
    assert_eq!(names(&g, &follow.sets[id(&g, nt("E"))]), texts(&["\")\"", "\"$\""]));
    assert_eq!(names(&g, &follow.sets[id(&g, nt("T"))]), texts(&["\"+\"", "\")\"", "\"$\""]));
    assert_eq!(
        names(&g, &follow.sets[id(&g, nt("F"))]),
        texts(&["\"+\"", "\"*\"", "\")\"", "\"$\""])
    );
}

#[test]
fn follow_of_start_holds_dollar() {
    let g = IndexedGrammar::new(&parse(
        r#"
        <P> ::= <Q> 'id' <R>
        <Q> ::= '∃' | '∀'
        <R> ::= <E> '=' <E>
        <E> ::= <T> <E'>
        <E'> ::= '+' <T> <E'> | 'ε'
        <T> ::= '(' <E> ')' | 'id'
        "#,
    ));
    let first = First::new(&g);
    let start = id(&g, nt("P"));
    let follow = Follow::new(&g, &first, start);
    assert!(follow.sets[start].contains(&1));
    assert_eq!(names(&g, &follow.sets[start]), texts(&["\"$\""]));
    assert_eq!(names(&g, &follow.sets[id(&g, nt("Q"))]), texts(&["\"id\""]));
    assert_eq!(names(&g, &follow.sets[id(&g, nt("E"))]), texts(&["\"=\"", "\"$\"", "\")\""]));
}

#[test]
fn follow_of_terminal_is_an_error() {
    let g = epsilon_grammar();
    let first = First::new(&g);
    let follow = Follow::new(&g, &first, id(&g, nt("E")));
    assert_eq!(follow.follow_of(&g, id(&g, t("+"))), Err(GrammarError::FollowOfTerminal));
    assert_eq!(follow.follow_of(&g, id(&g, nt("E"))).unwrap().len(), 2);
}

#[test]
fn follow_twice_is_the_same() {
    let g = epsilon_grammar();
    let first = First::new(&g);
    let a = Follow::new(&g, &first, id(&g, nt("E")));
    let b = Follow::new(&g, &first, id(&g, nt("E")));
    assert_eq!(a.sets, b.sets);
}

#[test]
fn count_symbols() {
    let g = IndexedGrammar::new(&parse(
        r#"
        <P> ::= <Q> 'id' <R>
        <Q> ::= '∃' | '∀'
        <R> ::= <E> '=' <E>
        <E> ::= <E> '+' <T> | <T>
        <T> ::= '(' <E> ')' | 'id'
        "#,
    ));
    assert_eq!(g.symbols().len(), 12);
    assert_eq!(g.terminals().len(), 7);
    assert_eq!(g.nonterminals().len(), 5);
}

#[test]
fn repeated_alternatives_are_one_rule() {
    let g = IndexedGrammar::new(&parse(
        r#"
        <S> ::= 'a' | 'a'
        <S> ::= 'a' | 'b'
        "#,
    ));
    assert_eq!(g.len(), 2);
}

#[test]
fn undefined_nonterminal_is_reported() {
    let g = IndexedGrammar::new(&parse(
        r#"
        <S> ::= <A> 'x' | <B>
        <A> ::= 'a'
        "#,
    ));
    let b = id(&g, nt("B"));
    assert_eq!(g.validate(), Err(GrammarError::UndefinedNonterminal { symbol: b }));
    assert_eq!(epsilon_grammar().validate(), Ok(()));
}
