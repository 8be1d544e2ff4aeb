//! Derivation trees built by the parser.

use vstd::prelude::*;
use crate::parser::token::{Token, TokenType};
use crate::text::{push_char, append_str};

verus! {

/// A derivation tree as plain values: symbol, children, and the token of a leaf (kind,
/// text, line, column).
pub enum DerivView {
    Node(Seq<char>, Seq<DerivView>, Option<(TokenType, Seq<char>, usize, usize)>),
}

/// A node of a derivation tree: the grammar symbol, its children in order, and for a
/// matched terminal the token.
#[derive(Debug)]
pub struct DerivationNode {
    pub symbol: String,
    pub children: Vec<DerivationNode>,
    pub token: Option<Token>,
}

/// The token of a leaf as plain values.
pub open spec fn token_view(t: Option<Token>) -> Option<(TokenType, Seq<char>, usize, usize)> {
    match t {
        Some(tok) => Some(tok.view_tuple()),
        None => None,
    }
}

/// A derivation tree as plain values.
pub open spec fn tree_view(n: DerivationNode) -> DerivView
    decreases n,
{
    DerivView::Node(n.symbol@, forest_view(n.children@), token_view(n.token))
}

/// A list of derivation trees as plain values.
pub open spec fn forest_view(cs: Seq<DerivationNode>) -> Seq<DerivView>
    decreases cs,
{
    if cs.len() == 0 {
        seq![]
    } else {
        forest_view(cs.subrange(0, cs.len() - 1)).push(tree_view(cs[cs.len() - 1]))
    }
}

impl DerivationNode {
    /// A node for `symbol` with no children and no token.
    pub fn new(symbol: &str) -> (n: Self)
        ensures
            tree_view(n) == DerivView::Node(symbol@, seq![], None),
    {
        let n = DerivationNode { symbol: String::from_str(symbol), children: Vec::new(), token: None };
        assert(forest_view(n.children@) =~= Seq::<DerivView>::empty());
        n
    }

    /// A leaf for `symbol` holding the token it matched.
    pub fn with_token(symbol: &str, token: Token) -> (n: Self)
        ensures
            tree_view(n) == DerivView::Node(symbol@, seq![], Some(token.view_tuple())),
    {
        let n = DerivationNode { symbol: String::from_str(symbol), children: Vec::new(), token: Some(token) };
        assert(forest_view(n.children@) =~= Seq::<DerivView>::empty());
        n
    }

    /// Sets the token of this node.
    pub fn set_token(&mut self, token: Token)
        ensures
            final(self).symbol == old(self).symbol,
            final(self).children@ == old(self).children@,
            token_view(final(self).token) == Some(token.view_tuple()),
    {
        self.token = Some(token);
    }

    /// Appends a child.
    pub fn add_child(&mut self, child: DerivationNode)
        ensures
            final(self).symbol == old(self).symbol,
            final(self).token == old(self).token,
            final(self).children@ == old(self).children@.push(child),
            forest_view(final(self).children@) == forest_view(old(self).children@).push(tree_view(child)),
    {
        let ghost before = self.children@;
        self.children.push(child);
        assert(self.children@.subrange(0, self.children@.len() - 1) =~= before);
    }

    /// Whether this node holds a token.
    pub fn is_terminal(&self) -> (b: bool)
        ensures
            b == self.token is Some,
    {
        self.token.is_some()
    }
}

/// `depth` levels of indentation, two spaces each.
pub open spec fn indent(depth: nat) -> Seq<char> {
    Seq::new(2 * depth, |i: int| ' ')
}

/// The line of one node: its symbol, and for a leaf `-> 'text'` with the token's text.
pub open spec fn node_line(symbol: Seq<char>, tok: Option<(TokenType, Seq<char>, usize, usize)>) -> Seq<char> {
    match tok {
        Some(t) => symbol + " -> '"@ + t.1 + "'\n"@,
        None => symbol + "\n"@,
    }
}

/// A tree as text: its node's line, indented by `depth`, then its children one level deeper.
pub open spec fn tree_text(t: DerivView, depth: nat) -> Seq<char>
    decreases t,
{
    match t {
        DerivView::Node(symbol, kids, tok) => indent(depth) + node_line(symbol, tok) + forest_text(kids, depth + 1),
    }
}

/// A list of trees as text, one after the other, each indented by `depth`.
pub open spec fn forest_text(kids: Seq<DerivView>, depth: nat) -> Seq<char>
    decreases kids,
{
    if kids.len() == 0 {
        seq![]
    } else {
        forest_text(kids.subrange(0, kids.len() - 1), depth) + tree_text(kids[kids.len() - 1], depth)
    }
}

impl DerivationNode {
    /// The tree as text (see `tree_text`): one line per node, children indented two spaces
    /// more than their parent.
    pub fn to_string(&self) -> (s: String)
        ensures
            s@ == tree_text(tree_view(*self), 0),
    {
        let mut out = String::new();
        let start = String::new();
        assert(start@ =~= indent(0));
        self.render(&start, &mut out, Ghost(0));
        assert(out@ =~= tree_text(tree_view(*self), 0));
        out
    }

    /// Appends the tree as text at indentation `depth`, whose spaces are `prefix`.
    fn render(&self, prefix: &String, out: &mut String, Ghost(depth): Ghost<nat>)
        requires
            prefix@ == indent(depth),
        ensures
            final(out)@ == old(out)@ + tree_text(tree_view(*self), depth),
        decreases self,
    {
        let ghost start = out@;
        append_str(out, prefix.as_str());
        append_str(out, self.symbol.as_str());
        match &self.token {
            Some(tok) => {
                append_str(out, " -> '");
                append_str(out, tok.lexeme.as_str());
                append_str(out, "'\n");
            },
            None => {
                append_str(out, "\n");
            },
        }
        let ghost head = out@;
        assert(head =~= start + indent(depth) + node_line(self.symbol@, token_view(self.token)));
        let mut deeper = prefix.clone();
        append_str(&mut deeper, "  ");
        proof {
            reveal_strlit("  ");
            assert(deeper@ =~= indent(depth + 1));
        }
        let mut i: usize = 0;
        assert(forest_view(self.children@.subrange(0, 0)) =~= Seq::<DerivView>::empty());
        while i < self.children.len()
            invariant
                i <= self.children@.len(),
                deeper@ == indent(depth + 1),
                out@ == head + forest_text(forest_view(self.children@.subrange(0, i as int)), depth + 1),
            decreases self.children@.len() - i,
        {
            let ghost before = out@;
            self.children[i].render(&deeper, out, Ghost(depth + 1));
            proof {
                let sub = self.children@.subrange(0, i + 1);
                assert(sub.subrange(0, sub.len() - 1) =~= self.children@.subrange(0, i as int));
                assert(forest_view(sub) == forest_view(self.children@.subrange(0, i as int)).push(tree_view(self.children@[i as int])));
                let fv = forest_view(sub);
                assert(fv.subrange(0, fv.len() - 1) =~= forest_view(self.children@.subrange(0, i as int)));
            }
            i += 1;
        }
        assert(self.children@.subrange(0, self.children@.len() as int) =~= self.children@);
    }
}

} // verus!
