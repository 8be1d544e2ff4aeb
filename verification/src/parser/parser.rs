//! A table-driven recursive-descent parser.

use vstd::prelude::*;
use crate::text::{decimal, push_char, append_str, append_usize};
use crate::parser::token::{Token, TokenType, token_type_name, token_type_text};
use crate::parser::grammar::Production;
use crate::parser::utils::{is_terminal, is_terminal_spec};
use crate::parser::ll1::{LL1Table, table_cell, has_row, views, find_key, find_row, copy_strings,
    lemma_table_first, lemma_cell_at_first, lemma_cell_at_missing, cell_at};
use crate::parser::cst::{DerivationNode, DerivView, tree_view, forest_view};

verus! {

/// Rust's `{:?}` rendering of a list of strings.
pub uninterp spec fn strings_debug_text(v: Seq<Seq<char>>) -> Seq<char>;

/// Renders a list of strings as `{:?}` does (std's `Debug` for `Vec<String>`): in brackets,
/// each string quoted with its special characters escaped, separated by `, `. The contract
/// names this text and does not spell out the escaping.
#[verifier::external_body]
pub(crate) fn debug_strings(v: &Vec<String>) -> (s: String)
    ensures
        s@ == strings_debug_text(views(v@)),
{
    format!("{:?}", v)
}

/// The message for running out of tokens.
pub open spec fn end_error(pos: int) -> Seq<char> {
    "Unexpected end of input at position "@ + decimal(pos as nat)
}

/// The message for a token that is not the expected terminal.
pub open spec fn mismatch_error(expected: Seq<char>, found: (TokenType, Seq<char>, usize, usize)) -> Seq<char> {
    "Syntax Error: Expected '"@ + expected + "', but found '"@ + token_type_name(found.0) + "' (lexeme: '"@
        + found.1 + "') at line "@ + decimal(found.2 as nat) + ", column "@ + decimal(found.3 as nat)
}

/// The message for a lookahead with no table entry.
pub open spec fn unexpected_error(found: (TokenType, Seq<char>, usize, usize), expected: Seq<Seq<char>>) -> Seq<char> {
    "Syntax Error at line "@ + decimal(found.2 as nat) + ", column "@ + decimal(found.3 as nat)
        + ": Unexpected token '"@ + token_type_name(found.0) + "'. Expected one of: "@ + strings_debug_text(expected)
}

/// The message for a nonterminal without a table row.
pub open spec fn no_production_error(symbol: Seq<char>) -> Seq<char> {
    "No production found for non-terminal: "@ + symbol
}

/// The lookaheads of the table's row for `a`, in order; none without a row.
pub open spec fn row_keys(table: Seq<(String, Vec<(String, Vec<String>)>)>, a: Seq<char>) -> Seq<Seq<char>>
    decreases table.len(),
{
    if table.len() == 0 {
        seq![]
    } else if table[0].0@ == a {
        table[0].1@.map_values(|c: (String, Vec<String>)| c.0@)
    } else {
        row_keys(table.subrange(1, table.len() as int), a)
    }
}

/// Where recovery resumes: just past the first `;` or synchronising token at or after `pos`,
/// or the end of the tokens.
pub open spec fn sync_pos(tokens: Seq<Token>, sync: Seq<TokenType>, pos: int) -> int
    decreases tokens.len() - pos,
{
    if pos < 0 || pos >= tokens.len() {
        pos
    } else if tokens[pos].token_type == TokenType::SEMICOLON || sync.contains(tokens[pos].token_type) {
        pos + 1
    } else {
        sync_pos(tokens, sync, pos + 1)
    }
}

/// Expanding `symbol` at position `pos`: the tree or the error, and the position after it;
/// `None` when `fuel` nested expansions do not suffice.
pub open spec fn expand_spec(
    tokens: Seq<Token>,
    table: Seq<(String, Vec<(String, Vec<String>)>)>,
    grammar: Seq<Production>,
    recovery: bool,
    pos: int,
    symbol: Seq<char>,
    fuel: nat,
) -> Option<(Result<DerivView, Seq<char>>, int)>
    decreases fuel, 0nat,
{
    if fuel == 0 {
        None
    } else if symbol == "ε"@ {
        Some((Ok(DerivView::Node("ε"@, seq![], None)), pos))
    } else if pos < 0 || pos >= tokens.len() {
        Some((Err(end_error(pos)), pos))
    } else if is_terminal_spec(grammar, symbol) {
        if token_type_name(tokens[pos].token_type) == symbol {
            Some((Ok(DerivView::Node(symbol, seq![], Some(tokens[pos].view_tuple()))), pos + 1))
        } else {
            Some((Err(mismatch_error(symbol, tokens[pos].view_tuple())), pos))
        }
    } else if !has_row(table, symbol) {
        Some((Err(no_production_error(symbol)), pos))
    } else {
        match table_cell(table, symbol, token_type_name(tokens[pos].token_type)) {
            None => Some((Err(unexpected_error(tokens[pos].view_tuple(), row_keys(table, symbol))), pos)),
            Some(rhs) => match expand_seq(tokens, table, grammar, recovery, pos, rhs, seq![], (fuel - 1) as nat) {
                None => None,
                Some((r, p2)) => Some((
                    match r {
                        Ok(children) => Ok(DerivView::Node(symbol, children, None)),
                        Err(e) => Err(e),
                    },
                    p2,
                )),
            },
        }
    }
}

/// Expanding the symbols `syms` in turn from `pos`, after the children `done`: the children
/// or the first error not recovered from, and the position after them. With recovery, a
/// failed symbol becomes an `ERROR` child and parsing resumes past the next `;`.
pub open spec fn expand_seq(
    tokens: Seq<Token>,
    table: Seq<(String, Vec<(String, Vec<String>)>)>,
    grammar: Seq<Production>,
    recovery: bool,
    pos: int,
    syms: Seq<Seq<char>>,
    done: Seq<DerivView>,
    fuel: nat,
) -> Option<(Result<Seq<DerivView>, Seq<char>>, int)>
    decreases fuel, syms.len(),
{
    if syms.len() == 0 {
        Some((Ok(done), pos))
    } else {
        match expand_spec(tokens, table, grammar, recovery, pos, syms[0], fuel) {
            None => None,
            Some((Ok(child), p2)) => expand_seq(tokens, table, grammar, recovery, p2, syms.drop_first(), done.push(child), fuel),
            Some((Err(e), p2)) => if recovery {
                expand_seq(tokens, table, grammar, recovery, sync_pos(tokens, seq![], p2), syms.drop_first(),
                    done.push(DerivView::Node("ERROR"@, seq![], None)), fuel)
            } else {
                Some((Err(e), p2))
            },
        }
    }
}

/// A parser over a token list, driven by an LL(1) table of a grammar, optionally recovering
/// from errors.
pub struct Parser {
    tokens: Vec<Token>,
    pos: usize,
    table: LL1Table,
    grammar: Vec<Production>,
    start_symbol: String,
    error_recovery: bool,
}

impl Parser {
    /// The tokens.
    pub closed spec fn tokens_view(&self) -> Seq<Token> {
        self.tokens@
    }

    /// The position of the next token.
    pub closed spec fn pos_view(&self) -> int {
        self.pos as int
    }

    /// The parse table.
    pub closed spec fn table_view(&self) -> Seq<(String, Vec<(String, Vec<String>)>)> {
        self.table@
    }

    /// The grammar's productions.
    pub closed spec fn grammar_view(&self) -> Seq<Production> {
        self.grammar@
    }

    /// The start symbol.
    pub closed spec fn start_view(&self) -> Seq<char> {
        self.start_symbol@
    }

    /// Whether errors are recovered from.
    pub closed spec fn recovery_view(&self) -> bool {
        self.error_recovery
    }

    /// Expanding `symbol` from the current position (see `expand_spec`).
    pub open spec fn expansion(&self, symbol: Seq<char>, fuel: nat) -> Option<(Result<DerivView, Seq<char>>, int)> {
        expand_spec(self.tokens_view(), self.table_view(), self.grammar_view(), self.recovery_view(),
            self.pos_view(), symbol, fuel)
    }

    /// Parsing from the current position terminates: some number of nested expansions
    /// suffices.
    pub open spec fn parse_terminates(&self) -> bool {
        exists|fuel: nat| #[trigger] self.expansion(self.start_view(), fuel) is Some
    }

    /// What parsing gives: the tree or the error, and the position after it.
    pub open spec fn parse_outcome(&self) -> (Result<DerivView, Seq<char>>, int) {
        self.expansion(self.start_view(), choose|fuel: nat| #[trigger] self.expansion(self.start_view(), fuel) is Some).unwrap()
    }

    /// A parser at the first token, without error recovery.
    pub fn new(tokens: Vec<Token>, table: LL1Table, grammar: Vec<Production>, start: &str) -> (p: Self)
        ensures
            p.tokens_view() == tokens@,
            p.table_view() == table@,
            p.grammar_view() == grammar@,
            p.start_view() == start@,
            p.pos_view() == 0,
            !p.recovery_view(),
    {
        Parser { tokens, pos: 0, table, grammar, start_symbol: String::from_str(start), error_recovery: false }
    }

    /// The same parser, recovering from errors or not as `enable` says.
    pub fn with_error_recovery(self, enable: bool) -> (p: Self)
        ensures
            p.tokens_view() == self.tokens_view(),
            p.table_view() == self.table_view(),
            p.grammar_view() == self.grammar_view(),
            p.start_view() == self.start_view(),
            p.pos_view() == self.pos_view(),
            p.recovery_view() == enable,
    {
        let mut p = self;
        p.error_recovery = enable;
        p
    }

    /// The message for a token that is not the expected terminal.
    fn format_error(&self, expected: &str, found: &Token) -> (s: String)
        ensures
            s@ == mismatch_error(expected@, found.view_tuple()),
    {
        let mut s = String::new();
        append_str(&mut s, "Syntax Error: Expected '");
        append_str(&mut s, expected);
        append_str(&mut s, "', but found '");
        let name = token_type_text(found.token_type);
        append_str(&mut s, name.as_str());
        append_str(&mut s, "' (lexeme: '");
        append_str(&mut s, found.lexeme.as_str());
        append_str(&mut s, "') at line ");
        append_usize(&mut s, found.line);
        append_str(&mut s, ", column ");
        append_usize(&mut s, found.column);
        assert(s@ =~= mismatch_error(expected@, found.view_tuple()));
        s
    }

    /// The lookaheads of the row for `non_terminal`; none without a row.
    fn get_expected_tokens(&self, non_terminal: &String) -> (v: Vec<String>)
        ensures
            views(v@) == row_keys(self.table@, non_terminal@),
    {
        let ghost all = self.table@;
        let mut i: usize = 0;
        assert(all.subrange(0, all.len() as int) =~= all);
        while i < self.table.len()
            invariant
                all == self.table@,
                i <= all.len(),
                row_keys(all, non_terminal@) == row_keys(all.subrange(i as int, all.len() as int), non_terminal@),
            decreases all.len() - i,
        {
            let ghost rest = all.subrange(i as int, all.len() as int);
            assert(rest[0] == all[i as int]);
            if self.table[i].0 == *non_terminal {
                let row = &self.table[i].1;
                let mut keys: Vec<String> = Vec::new();
                let mut k: usize = 0;
                while k < row.len()
                    invariant
                        k <= row@.len(),
                        keys@.len() == k,
                        views(keys@) == row@.take(k as int).map_values(|c: (String, Vec<String>)| c.0@),
                    decreases row@.len() - k,
                {
                    let ghost before = keys@;
                    keys.push(row[k].0.clone());
                    assert forall|j: int| 0 <= j < keys@.len() implies views(keys@)[j]
                        == row@.take(k + 1).map_values(|c: (String, Vec<String>)| c.0@)[j] by {
                        if j < k {
                            assert(keys@[j] == before[j]);
                            assert(views(before)[j] == row@.take(k as int).map_values(|c: (String, Vec<String>)| c.0@)[j]);
                        }
                    }
                    assert(views(keys@) =~= row@.take(k + 1).map_values(|c: (String, Vec<String>)| c.0@));
                    k += 1;
                }
                assert(row@.take(row@.len() as int) =~= row@);
                return keys;
            }
            assert(rest.subrange(1, rest.len() as int) =~= all.subrange(i + 1, all.len() as int));
            i += 1;
        }
        let keys: Vec<String> = Vec::new();
        assert(views(keys@) =~= Seq::<Seq<char>>::empty());
        keys
    }

    /// Skips tokens up to and including the next `;` or token of `sync_tokens`, or to the end.
    fn synchronize(&mut self, sync_tokens: &Vec<TokenType>)
        requires
            old(self).pos <= old(self).tokens@.len(),
        ensures
            final(self).tokens == old(self).tokens,
            final(self).table == old(self).table,
            final(self).grammar == old(self).grammar,
            final(self).start_symbol == old(self).start_symbol,
            final(self).error_recovery == old(self).error_recovery,
            final(self).pos == sync_pos(old(self).tokens@, sync_tokens@, old(self).pos as int),
            final(self).pos <= final(self).tokens@.len(),
    {
        let ghost p0 = self.pos as int;
        let mut stop = false;
        while !stop && self.pos < self.tokens.len()
            invariant
                self.tokens == old(self).tokens,
                self.table == old(self).table,
                self.grammar == old(self).grammar,
                self.start_symbol == old(self).start_symbol,
                self.error_recovery == old(self).error_recovery,
                self.pos <= self.tokens@.len(),
                stop ==> sync_pos(self.tokens@, sync_tokens@, p0) == self.pos as int,
                !stop ==> sync_pos(self.tokens@, sync_tokens@, p0) == sync_pos(self.tokens@, sync_tokens@, self.pos as int),
            decreases self.tokens@.len() - self.pos + (if stop { 0int } else { 1int }),
        {
            let tt = self.tokens[self.pos].token_type;
            let mut listed = false;
            let mut k: usize = 0;
            while k < sync_tokens.len()
                invariant
                    k <= sync_tokens@.len(),
                    listed == sync_tokens@.take(k as int).contains(tt),
                decreases sync_tokens@.len() - k,
            {
                if sync_tokens[k] == tt {
                    listed = true;
                }
                proof {
                    let t1 = sync_tokens@.take(k + 1);
                    assert(t1 =~= sync_tokens@.take(k as int).push(sync_tokens@[k as int]));
                    if sync_tokens@.take(k as int).contains(tt) {
                        let j = choose|j: int| 0 <= j < k && sync_tokens@.take(k as int)[j] == tt;
                        assert(t1[j] == tt);
                    }
                    if sync_tokens@[k as int] == tt {
                        assert(t1[k as int] == tt);
                    }
                }
                k += 1;
            }
            assert(sync_tokens@.take(sync_tokens@.len() as int) =~= sync_tokens@);
            if tt == TokenType::SEMICOLON || listed {
                self.pos = self.pos + 1;
                stop = true;
            } else {
                self.pos = self.pos + 1;
            }
        }
    }
}

/// The lookaheads of the first row for `a` are those of row `r` when `r` is that row.
pub proof fn lemma_row_keys_first(table: Seq<(String, Vec<(String, Vec<String>)>)>, r: int, a: Seq<char>)
    requires
        0 <= r < table.len(),
        table[r].0@ == a,
        forall|j: int| 0 <= j < r ==> (#[trigger] table[j]).0@ != a,
    ensures
        row_keys(table, a) == table[r].1@.map_values(|c: (String, Vec<String>)| c.0@),
    decreases r,
{
    if r > 0 {
        let rest = table.subrange(1, table.len() as int);
        assert forall|j: int| 0 <= j < r - 1 implies (#[trigger] rest[j]).0@ != a by {
            assert(rest[j] == table[j + 1]);
        }
        assert(rest[r - 1] == table[r]);
        lemma_row_keys_first(rest, r - 1, a);
    }
}

impl Parser {
    /// Expands `symbol` from the current position (see `expand_spec`).
    fn expand(&mut self, symbol: &String, Ghost(fuel): Ghost<nat>) -> (r: Result<DerivationNode, String>)
        requires
            old(self).pos <= old(self).tokens@.len(),
            old(self).expansion(symbol@, fuel) is Some,
        ensures
            final(self).tokens == old(self).tokens,
            final(self).table == old(self).table,
            final(self).grammar == old(self).grammar,
            final(self).start_symbol == old(self).start_symbol,
            final(self).error_recovery == old(self).error_recovery,
            final(self).pos <= final(self).tokens@.len(),
            match r {
                Ok(n) => old(self).expansion(symbol@, fuel)
                    == Some((Ok::<DerivView, Seq<char>>(tree_view(n)), final(self).pos as int)),
                Err(e) => old(self).expansion(symbol@, fuel)
                    == Some((Err::<DerivView, Seq<char>>(e@), final(self).pos as int)),
            },
        decreases fuel,
    {
        let eps = String::from_str("ε");
        if *symbol == eps {
            return Ok(DerivationNode::new("ε"));
        }
        if self.pos >= self.tokens.len() {
            let mut msg = String::new();
            append_str(&mut msg, "Unexpected end of input at position ");
            append_usize(&mut msg, self.pos);
            assert(msg@ =~= end_error(self.pos as int));
            return Err(msg);
        }
        if is_terminal(symbol.as_str(), self.grammar.as_slice()) {
            let tts = token_type_text(self.tokens[self.pos].token_type);
            if tts == *symbol {
                let node = DerivationNode::with_token(symbol.as_str(), self.tokens[self.pos].duplicate());
                self.pos = self.pos + 1;
                return Ok(node);
            } else {
                return Err(self.format_error(symbol.as_str(), &self.tokens[self.pos]));
            }
        }
        let lookahead = token_type_text(self.tokens[self.pos].token_type);
        match find_row(&self.table, symbol) {
            None => {
                let mut msg = String::new();
                append_str(&mut msg, "No production found for non-terminal: ");
                append_str(&mut msg, symbol.as_str());
                assert(msg@ =~= no_production_error(symbol@));
                Err(msg)
            },
            Some(ri) => {
                proof {
                    lemma_table_first(self.table@, ri as int, symbol@, lookahead@);
                }
                match find_key(&self.table[ri].1, &lookahead) {
                    None => {
                        proof {
                            lemma_cell_at_missing(self.table@[ri as int].1@, lookahead@);
                            lemma_row_keys_first(self.table@, ri as int, symbol@);
                        }
                        let expected = self.get_expected_tokens(symbol);
                        let current = &self.tokens[self.pos];
                        let mut msg = String::new();
                        append_str(&mut msg, "Syntax Error at line ");
                        append_usize(&mut msg, current.line);
                        append_str(&mut msg, ", column ");
                        append_usize(&mut msg, current.column);
                        append_str(&mut msg, ": Unexpected token '");
                        let name = token_type_text(current.token_type);
                        append_str(&mut msg, name.as_str());
                        append_str(&mut msg, "'. Expected one of: ");
                        let listed = debug_strings(&expected);
                        append_str(&mut msg, listed.as_str());
                        assert(msg@ =~= unexpected_error(current.view_tuple(), row_keys(self.table@, symbol@)));
                        Err(msg)
                    },
                    Some(ci) => {
                        proof {
                            lemma_cell_at_first(self.table@[ri as int].1@, ci as int, lookahead@);
                        }
                        let production = copy_strings(&self.table[ri].1[ci].1);
                        let ghost rhs = views(production@);
                        let ghost toks = self.tokens@;
                        let ghost tab = self.table@;
                        let ghost gram = self.grammar@;
                        let ghost rec = self.error_recovery;
                        let ghost f1 = (fuel - 1) as nat;
                        let mut node = DerivationNode::new(symbol.as_str());
                        assert(forest_view(node.children@) =~= Seq::<DerivView>::empty());
                        assert(has_row(tab, symbol@));
                        assert(table_cell(tab, symbol@, token_type_name(toks[self.pos as int].token_type)) == Some(rhs));
                        assert(rhs.subrange(0, rhs.len() as int) =~= rhs);
                        let mut k: usize = 0;
                        while k < production.len()
                            invariant
                                self.tokens == old(self).tokens,
                                self.table == old(self).table,
                                self.grammar == old(self).grammar,
                                self.start_symbol == old(self).start_symbol,
                                self.error_recovery == old(self).error_recovery,
                                toks == self.tokens@,
                                tab == self.table@,
                                gram == self.grammar@,
                                rec == self.error_recovery,
                                self.pos <= self.tokens@.len(),
                                fuel >= 1,
                                f1 == fuel - 1,
                                rhs == views(production@),
                                k <= production@.len(),
                                node.symbol@ == symbol@,
                                node.token is None,
                                expand_seq(toks, tab, gram, rec, old(self).pos as int, rhs, seq![], f1)
                                    == expand_seq(toks, tab, gram, rec, self.pos as int, rhs.subrange(k as int, rhs.len() as int),
                                        forest_view(node.children@), f1),
                                expand_seq(toks, tab, gram, rec, old(self).pos as int, rhs, seq![], f1) is Some,
                                old(self).expansion(symbol@, fuel) == (match expand_seq(toks, tab, gram, rec, old(self).pos as int, rhs, seq![], f1) {
                                    None => None,
                                    Some((r, p2)) => Some((
                                        match r {
                                            Ok(children) => Ok(DerivView::Node(symbol@, children, None)),
                                            Err(e) => Err(e),
                                        },
                                        p2,
                                    )),
                                }),
                            decreases production@.len() - k,
                        {
                            let ghost syms = rhs.subrange(k as int, rhs.len() as int);
                            assert(syms[0] == production@[k as int]@);
                            assert(syms.drop_first() =~= rhs.subrange(k + 1, rhs.len() as int));
                            let ghost pk = self.pos as int;
                            match self.expand(&production[k], Ghost(f1)) {
                                Ok(child) => {
                                    node.add_child(child);
                                },
                                Err(e) => {
                                    if self.error_recovery {
                                        let none: Vec<TokenType> = Vec::new();
                                        self.synchronize(&none);
                                        assert(none@ =~= Seq::<TokenType>::empty());
                                        node.add_child(DerivationNode::new("ERROR"));
                                    } else {
                                        assert(expand_seq(toks, tab, gram, rec, pk, syms, forest_view(node.children@), f1)
                                            == Some((Err::<Seq<DerivView>, Seq<char>>(e@), self.pos as int)));
                                        return Err(e);
                                    }
                                },
                            }
                            k += 1;
                        }
                        Ok(node)
                    },
                }
            },
        }
    }

    /// Parses from the current position: the derivation tree of the start symbol, or the
    /// first error not recovered from (see `expand_spec`).
    pub fn parse(&mut self) -> (r: Result<DerivationNode, String>)
        requires
            old(self).parse_terminates(),
            old(self).pos_view() <= old(self).tokens_view().len(),
        ensures
            match r {
                Ok(n) => old(self).parse_outcome() == (Ok::<DerivView, Seq<char>>(tree_view(n)), final(self).pos_view()),
                Err(e) => old(self).parse_outcome() == (Err::<DerivView, Seq<char>>(e@), final(self).pos_view()),
            },
    {
        let start = self.start_symbol.clone();
        let ghost fuel = choose|fuel: nat| #[trigger] self.expansion(self.start_view(), fuel) is Some;
        self.expand(&start, Ghost(fuel))
    }
}

/// The tokens at the leaves of a tree, in order.
pub open spec fn tree_tokens(t: DerivView) -> Seq<(TokenType, Seq<char>, usize, usize)>
    decreases t,
{
    match t {
        DerivView::Node(_, kids, tok) => match tok {
            Some(x) => seq![x] + forest_tokens(kids),
            None => forest_tokens(kids),
        },
    }
}

/// The tokens at the leaves of a list of trees, in order.
pub open spec fn forest_tokens(kids: Seq<DerivView>) -> Seq<(TokenType, Seq<char>, usize, usize)>
    decreases kids,
{
    if kids.len() == 0 {
        seq![]
    } else {
        forest_tokens(kids.subrange(0, kids.len() - 1)) + tree_tokens(kids[kids.len() - 1])
    }
}

/// The tokens from position `a` to `b` (excluded), as plain values.
pub open spec fn token_views(tokens: Seq<Token>, a: int, b: int) -> Seq<(TokenType, Seq<char>, usize, usize)> {
    tokens.subrange(a, b).map_values(|t: Token| t.view_tuple())
}

/// Without recovery, an expansion that succeeds holds at its leaves the tokens it went over.
proof fn lemma_expand_yield(
    tokens: Seq<Token>,
    table: Seq<(String, Vec<(String, Vec<String>)>)>,
    grammar: Seq<Production>,
    pos: int,
    symbol: Seq<char>,
    fuel: nat,
)
    requires
        0 <= pos <= tokens.len(),
    ensures
        expand_spec(tokens, table, grammar, false, pos, symbol, fuel) matches Some((Ok(t), p2))
            ==> pos <= p2 <= tokens.len() && tree_tokens(t) == token_views(tokens, pos, p2),
    decreases fuel, 0nat,
{
    if fuel > 0 && symbol != "ε"@ && 0 <= pos < tokens.len() && !is_terminal_spec(grammar, symbol) && has_row(table, symbol) {
        match table_cell(table, symbol, token_type_name(tokens[pos].token_type)) {
            Some(rhs) => {
                lemma_seq_yield(tokens, table, grammar, pos, rhs, seq![], (fuel - 1) as nat);
                assert(forest_tokens(Seq::<DerivView>::empty()) =~= Seq::empty());
                match expand_seq(tokens, table, grammar, false, pos, rhs, seq![], (fuel - 1) as nat) {
                    Some((Ok(kids), p2)) => {
                        assert(forest_tokens(kids) =~= token_views(tokens, pos, p2));
                    },
                    _ => {},
                }
            },
            None => {},
        }
    } else if fuel > 0 && symbol != "ε"@ && 0 <= pos < tokens.len() && is_terminal_spec(grammar, symbol) {
        assert(token_views(tokens, pos, pos + 1) =~= seq![tokens[pos].view_tuple()]);
        assert(forest_tokens(Seq::<DerivView>::empty()) =~= Seq::empty());
    } else if fuel > 0 && symbol == "ε"@ {
        assert(token_views(tokens, pos, pos) =~= Seq::empty());
        assert(forest_tokens(Seq::<DerivView>::empty()) =~= Seq::empty());
    }
}

/// Without recovery, expanding symbols in turn that succeeds adds at the leaves the tokens it
/// went over.
proof fn lemma_seq_yield(
    tokens: Seq<Token>,
    table: Seq<(String, Vec<(String, Vec<String>)>)>,
    grammar: Seq<Production>,
    pos: int,
    syms: Seq<Seq<char>>,
    done: Seq<DerivView>,
    fuel: nat,
)
    requires
        0 <= pos <= tokens.len(),
    ensures
        expand_seq(tokens, table, grammar, false, pos, syms, done, fuel) matches Some((Ok(kids), p2))
            ==> pos <= p2 <= tokens.len() && forest_tokens(kids) == forest_tokens(done) + token_views(tokens, pos, p2),
    decreases fuel, syms.len(),
{
    if syms.len() == 0 {
        assert(token_views(tokens, pos, pos) =~= Seq::empty());
        assert(forest_tokens(done) + token_views(tokens, pos, pos) =~= forest_tokens(done));
    } else {
        lemma_expand_yield(tokens, table, grammar, pos, syms[0], fuel);
        match expand_spec(tokens, table, grammar, false, pos, syms[0], fuel) {
            Some((Ok(child), p1)) => {
                lemma_seq_yield(tokens, table, grammar, p1, syms.drop_first(), done.push(child), fuel);
                match expand_seq(tokens, table, grammar, false, p1, syms.drop_first(), done.push(child), fuel) {
                    Some((Ok(kids), p2)) => {
                        let d2 = done.push(child);
                        assert(d2.subrange(0, d2.len() - 1) =~= done);
                        assert(forest_tokens(d2) == forest_tokens(done) + tree_tokens(child));
                        assert(token_views(tokens, pos, p2) =~= token_views(tokens, pos, p1) + token_views(tokens, p1, p2));
                        assert(forest_tokens(kids) =~= forest_tokens(done) + token_views(tokens, pos, p2));
                    },
                    _ => {},
                }
            },
            _ => {},
        }
    }
}

/// The grammar symbol at the root of a derivation tree.
pub open spec fn root_symbol(t: DerivView) -> Seq<char> {
    match t {
        DerivView::Node(s, _, _) => s,
    }
}

/// The children `kids` are the children `done` followed by one child per symbol of `syms`,
/// in order: each has that symbol at its root (or, with recovery, is an `ERROR` leaf standing
/// for a symbol that failed), and an `ε` symbol gives an `ε` leaf.
pub open spec fn follows_symbols(kids: Seq<DerivView>, done: Seq<DerivView>, syms: Seq<Seq<char>>, recovery: bool) -> bool {
    &&& kids.len() == done.len() + syms.len()
    &&& kids.subrange(0, done.len() as int) == done
    &&& forall|j: int| done.len() <= j < kids.len() ==> {
        &&& root_symbol(#[trigger] kids[j]) == syms[j - done.len()]
            || (recovery && kids[j] == DerivView::Node("ERROR"@, seq![], None))
        &&& syms[j - done.len()] == "ε"@ ==> kids[j] == DerivView::Node("ε"@, seq![], None)
    }
}

/// A tree that expanding `symbol` gives has `symbol` at its root; for `ε` it is an `ε` leaf.
proof fn lemma_expand_root(
    tokens: Seq<Token>,
    table: Seq<(String, Vec<(String, Vec<String>)>)>,
    grammar: Seq<Production>,
    recovery: bool,
    pos: int,
    symbol: Seq<char>,
    fuel: nat,
)
    ensures
        expand_spec(tokens, table, grammar, recovery, pos, symbol, fuel) matches Some((Ok(t), _))
            ==> root_symbol(t) == symbol && (symbol == "ε"@ ==> t == DerivView::Node("ε"@, seq![], None)),
{
}

/// Expanding symbols in turn that succeeds adds one child per symbol, in order (see
/// `follows_symbols`).
proof fn lemma_seq_follows(
    tokens: Seq<Token>,
    table: Seq<(String, Vec<(String, Vec<String>)>)>,
    grammar: Seq<Production>,
    recovery: bool,
    pos: int,
    syms: Seq<Seq<char>>,
    done: Seq<DerivView>,
    fuel: nat,
)
    ensures
        expand_seq(tokens, table, grammar, recovery, pos, syms, done, fuel) matches Some((Ok(kids), _))
            ==> follows_symbols(kids, done, syms, recovery),
    decreases syms.len(),
{
    if syms.len() == 0 {
        assert(done.subrange(0, done.len() as int) =~= done);
    } else {
        lemma_expand_root(tokens, table, grammar, recovery, pos, syms[0], fuel);
        let d = done.len() as int;
        match expand_spec(tokens, table, grammar, recovery, pos, syms[0], fuel) {
            None => {},
            Some((r, p2)) => {
                let (child, p3) = match r {
                    Ok(c) => (c, p2),
                    Err(_) => (DerivView::Node("ERROR"@, seq![], None), sync_pos(tokens, seq![], p2)),
                };
                if r is Ok || recovery {
                    let d2 = done.push(child);
                    lemma_seq_follows(tokens, table, grammar, recovery, p3, syms.drop_first(), d2, fuel);
                    match expand_seq(tokens, table, grammar, recovery, p3, syms.drop_first(), d2, fuel) {
                        Some((Ok(kids), _)) => {
                            assert(kids[d] == kids.subrange(0, d + 1)[d]);
                            assert(kids.subrange(0, d) =~= kids.subrange(0, d + 1).subrange(0, d));
                            assert(d2.subrange(0, d) =~= done);
                        },
                        _ => {},
                    }
                }
            },
        }
    }
}

/// Expanding a nonterminal that succeeds reads the lookahead's entry in the table and gives a
/// node for the nonterminal whose children follow the chosen right-hand side: one child per
/// symbol, in order, each with that symbol at its root (or, with recovery, an `ERROR` leaf for
/// a symbol that failed); an `ε` symbol there gives an `ε` leaf.
pub proof fn lemma_expansion_follows_production(
    tokens: Seq<Token>,
    table: Seq<(String, Vec<(String, Vec<String>)>)>,
    grammar: Seq<Production>,
    recovery: bool,
    pos: int,
    symbol: Seq<char>,
    fuel: nat,
)
    requires
        symbol != "ε"@,
        !is_terminal_spec(grammar, symbol),
        expand_spec(tokens, table, grammar, recovery, pos, symbol, fuel) matches Some((Ok(_), _)),
    ensures
        0 <= pos < tokens.len(),
        table_cell(table, symbol, token_type_name(tokens[pos].token_type)) matches Some(rhs)
            && expand_spec(tokens, table, grammar, recovery, pos, symbol, fuel)
                matches Some((Ok(DerivView::Node(s, kids, tok)), _))
            && s == symbol && tok is None && follows_symbols(kids, seq![], rhs, recovery),
{
    match table_cell(table, symbol, token_type_name(tokens[pos].token_type)) {
        Some(rhs) => {
            lemma_seq_follows(tokens, table, grammar, recovery, pos, rhs, seq![], (fuel - 1) as nat);
        },
        None => {},
    }
}

impl Parser {
    /// Without error recovery, a tree that parsing gives holds at its leaves, in order, exactly
    /// the tokens parsing went over.
    pub proof fn lemma_parse_yields_tokens(&self)
        requires
            self.parse_terminates(),
            self.pos_view() <= self.tokens_view().len(),
            !self.recovery_view(),
        ensures
            self.parse_outcome() matches (Ok(t), end) ==> self.pos_view() <= end <= self.tokens_view().len()
                && tree_tokens(t) == token_views(self.tokens_view(), self.pos_view(), end),
    {
        let fuel = choose|fuel: nat| #[trigger] self.expansion(self.start_view(), fuel) is Some;
        assert(self.pos_view() >= 0);
        lemma_expand_yield(self.tokens_view(), self.table_view(), self.grammar_view(), self.pos_view(),
            self.start_view(), fuel);
    }
}

} // verus!
