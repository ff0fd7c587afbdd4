use vstd::prelude::*;

verus! {

/// A grammar symbol: a terminal or a nonterminal, compared by tag and text.
#[derive(Debug)]
pub enum Symbol {
    Terminal(String),
    Nonterminal(String),
}

/// The mathematical value of a [`Symbol`].
pub enum SymbolView {
    Terminal(Seq<char>),
    Nonterminal(Seq<char>),
}

impl View for Symbol {
    type V = SymbolView;

    open spec fn view(&self) -> SymbolView {
        match self {
            Symbol::Terminal(s) => SymbolView::Terminal(s@),
            Symbol::Nonterminal(s) => SymbolView::Nonterminal(s@),
        }
    }
}

/// The reserved terminal that stands for the empty string.
pub open spec fn epsilon_view() -> SymbolView {
    SymbolView::Terminal(seq!['ε'])
}

/// The reserved terminal that stands for the end of input.
pub open spec fn dollar_view() -> SymbolView {
    SymbolView::Terminal(seq!['$'])
}

pub open spec fn views(s: Seq<Symbol>) -> Seq<SymbolView> {
    s.map_values(|x: Symbol| x@)
}

pub open spec fn is_terminal_view(s: SymbolView) -> bool {
    s is Terminal
}

/// The reserved terminal `ε`.
pub fn epsilon() -> (r: Symbol)
    ensures
        r@ == epsilon_view(),
{
    let text = "ε";
    proof {
        reveal_strlit("ε");
    }
    assert(text@ =~= seq!['ε']);
    Symbol::Terminal(String::from_str(text))
}

/// The reserved terminal `$`.
pub fn dollar() -> (r: Symbol)
    ensures
        r@ == dollar_view(),
{
    let text = "$";
    proof {
        reveal_strlit("$");
    }
    assert(text@ =~= seq!['$']);
    Symbol::Terminal(String::from_str(text))
}

impl Symbol {
    pub fn terminal(text: &str) -> (r: Symbol)
        ensures
            r@ == SymbolView::Terminal(text@),
    {
        Symbol::Terminal(String::from_str(text))
    }

    pub fn nonterminal(text: &str) -> (r: Symbol)
        ensures
            r@ == SymbolView::Nonterminal(text@),
    {
        Symbol::Nonterminal(String::from_str(text))
    }

    pub fn is_terminal(&self) -> (r: bool)
        ensures
            r == is_terminal_view(self@),
    {
        match self {
            Symbol::Terminal(_) => true,
            Symbol::Nonterminal(_) => false,
        }
    }

    /// Whether two symbols have the same tag and the same text.
    pub fn same(&self, other: &Symbol) -> (r: bool)
        ensures
            r == (self@ == other@),
    {
        match (self, other) {
            (Symbol::Terminal(a), Symbol::Terminal(b)) => a.eq(b),
            (Symbol::Nonterminal(a), Symbol::Nonterminal(b)) => a.eq(b),
            _ => false,
        }
    }

    /// Whether this is the reserved `ε`.
    pub fn is_epsilon(&self) -> (r: bool)
        ensures
            r == (self@ == epsilon_view()),
    {
        let e = epsilon();
        self.same(&e)
    }

    /// A copy with the same tag and text.
    pub fn duplicate(&self) -> (r: Symbol)
        ensures
            r@ == self@,
    {
        match self {
            Symbol::Terminal(s) => Symbol::Terminal(s.clone()),
            Symbol::Nonterminal(s) => Symbol::Nonterminal(s.clone()),
        }
    }

    /// The text of the symbol without its tag.
    pub fn text(&self) -> (r: &String)
        ensures
            r@ == match self@ {
                SymbolView::Terminal(s) => s,
                SymbolView::Nonterminal(s) => s,
            },
    {
        match self {
            Symbol::Terminal(s) => s,
            Symbol::Nonterminal(s) => s,
        }
    }
}

/// The written form of a symbol: `<name>` for a nonterminal, `"text"` for a
/// terminal.
pub open spec fn text_view(s: SymbolView) -> Seq<char> {
    match s {
        SymbolView::Terminal(t) => seq!['"'] + t + seq!['"'],
        SymbolView::Nonterminal(t) => seq!['<'] + t + seq!['>'],
    }
}

impl Symbol {
    /// The written form of the symbol.
    pub fn to_text(&self) -> (r: String)
        ensures
            r@ == text_view(self@),
    {
        proof {
            reveal_strlit("\"");
            reveal_strlit("<");
            reveal_strlit(">");
        }
        match self {
            Symbol::Terminal(t) => {
                let open = String::from_str("\"");
                let body = open.concat(t.as_str());
                body.concat("\"")
            },
            Symbol::Nonterminal(t) => {
                let open = String::from_str("<");
                let body = open.concat(t.as_str());
                body.concat(">")
            },
        }
    }
}

impl PartialEq for Symbol {
    fn eq(&self, other: &Symbol) -> (r: bool) {
        self.same(other)
    }
}

impl vstd::std_specs::cmp::PartialEqSpecImpl for Symbol {
    open spec fn obeys_eq_spec() -> bool {
        true
    }

    open spec fn eq_spec(&self, other: &Symbol) -> bool {
        self@ == other@
    }
}

impl Eq for Symbol {
}

} // verus!
