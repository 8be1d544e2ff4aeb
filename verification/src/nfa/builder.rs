//! Thompson-style construction of an automaton from a regular-expression tree.

use vstd::prelude::*;
use crate::text::{is_alphanumeric, char_alphanumeric};
use crate::regex::node::{RegexChar, RegexEscape, RegexBinOp, RegexUnOp, RegexClass, AstNodeKind, AstNodeImpl, escape_char};
use crate::regex::model::{RegexTree, ClassModel};
use crate::regex::scan::{byte_range, low_byte, expand_ranges, push_byte_range};
use crate::regex::alphabet::{alphabet, alphabet_chars, contains_char};
use crate::nfa::state::{StateId, State, Edge, NFAFragment, edges_of, states_wf};

verus! {

/// The transitions of every state, by state number.
pub type Graph = Seq<Seq<Edge>>;

/// Adds one transition to a state.
pub open spec fn add_edge(g: Graph, from: StateId, e: Edge) -> Graph {
    g.update(from.0 as int, g[from.0 as int].push(e))
}

/// Adds the same transition to each state of a list, in order.
pub open spec fn add_from_all(g: Graph, srcs: Seq<StateId>, e: Edge) -> Graph
    decreases srcs.len(),
{
    if srcs.len() == 0 {
        g
    } else {
        add_edge(add_from_all(g, srcs.drop_last(), e), srcs.last(), e)
    }
}

/// Adds two transitions to each state of a list, in order.
pub open spec fn add_pair_from_all(g: Graph, srcs: Seq<StateId>, e1: Edge, e2: Edge) -> Graph
    decreases srcs.len(),
{
    if srcs.len() == 0 {
        g
    } else {
        add_edge(add_edge(add_pair_from_all(g, srcs.drop_last(), e1, e2), srcs.last(), e1), srcs.last(), e2)
    }
}

/// Transitions on each label, all to one target.
pub open spec fn labelled(labels: Seq<RegexChar>, to: StateId) -> Seq<Edge> {
    labels.map_values(|l: RegexChar| (Some(l), to))
}

/// Which characters of a list are kept as literals.
pub enum Keep {
    NotDigit,
    NotWord,
    NotSpace,
    InAlphabet,
    NotExcludedBy(ClassModel),
}

/// Whether a character's byte lies in the byte range of `r`.
pub open spec fn in_byte_range(r: (char, char), c: char) -> bool {
    low_byte(r.0) <= (c as u32 as int) && (c as u32 as int) <= low_byte(r.1)
}

/// Whether a character's byte lies in the byte range of some range of a list.
pub open spec fn in_ranges(rs: Seq<(char, char)>, c: char) -> bool {
    exists|k: int| 0 <= k < rs.len() && in_byte_range(#[trigger] rs[k], c)
}

/// Whether a negated class excludes a character of the alphabet.
pub open spec fn excluded_by(inner: ClassModel, c: char) -> bool {
    match inner {
        ClassModel::CharSet(cs) => cs.contains(RegexChar::Literal(c)),
        ClassModel::Ranges(rs) => in_ranges(rs, c),
        ClassModel::Mixed { ranges, singles } => singles.contains(RegexChar::Literal(c)) || in_ranges(ranges, c),
        ClassModel::Negated(_) => false,
        ClassModel::Dot => c != '\n',
    }
}

/// White space as the lexer knows it.
pub open spec fn is_lexer_space(c: char) -> bool {
    c == ' ' || c == '\t' || c == '\n' || c == '\r'
}

/// Whether `k` keeps character `c`.
pub open spec fn keeps(k: Keep, c: char) -> bool {
    match k {
        Keep::NotDigit => !(48 <= (c as u32) && (c as u32) <= 57),
        Keep::NotWord => !char_alphanumeric(c) && c != '_',
        Keep::NotSpace => !is_lexer_space(c),
        Keep::InAlphabet => alphabet().contains(c),
        Keep::NotExcludedBy(inner) => !excluded_by(inner, c),
    }
}

/// One more character of a prefix: its literal is appended exactly when it is kept.
pub proof fn lemma_literals_step(s: Seq<char>, i: int, k: Keep)
    requires
        0 <= i < s.len(),
    ensures
        literals_where(s.take(i + 1), k) == if keeps(k, s[i]) {
            literals_where(s.take(i), k).push(RegexChar::Literal(s[i]))
        } else {
            literals_where(s.take(i), k)
        },
{
    let t = s.take(i + 1);
    assert(t.drop_last() =~= s.take(i));
    assert(t.last() == s[i]);
}

/// The literals of the characters of `s` that `k` keeps, in order.
pub open spec fn literals_where(s: Seq<char>, k: Keep) -> Seq<RegexChar>
    decreases s.len(),
{
    if s.len() == 0 {
        seq![]
    } else {
        let r = literals_where(s.drop_last(), k);
        if keeps(k, s.last()) { r.push(RegexChar::Literal(s.last())) } else { r }
    }
}

/// The labels of the transitions a one-character node gets: the class escapes expand to
/// their characters (over the alphabet where they are negated), other escapes to the
/// character they stand for, and every other character stands for itself.
pub open spec fn char_labels(c: RegexChar) -> Seq<RegexChar> {
    match c {
        RegexChar::Escape(RegexEscape::Digit) => byte_range(low_byte('0'), low_byte('9')),
        RegexChar::Escape(RegexEscape::NotDigit) => literals_where(alphabet(), Keep::NotDigit),
        RegexChar::Escape(RegexEscape::Word) => byte_range(low_byte('a'), low_byte('z')) + byte_range(low_byte('A'), low_byte('Z'))
            + byte_range(low_byte('0'), low_byte('9')) + seq![RegexChar::Literal('_')],
        RegexChar::Escape(RegexEscape::NotWord) => literals_where(alphabet(), Keep::NotWord),
        RegexChar::Escape(RegexEscape::Space) => literals_where(seq![' ', '\t', '\n', '\r'], Keep::InAlphabet),
        RegexChar::Escape(RegexEscape::NotSpace) => literals_where(alphabet(), Keep::NotSpace),
        RegexChar::Escape(e) => match escape_char(e) {
            Some(lc) => seq![RegexChar::Literal(lc)],
            None => seq![c],
        },
        _ => seq![c],
    }
}

/// The labels of the transitions a class node gets: a set gives its characters, ranges give
/// every character of each range, a mix gives its singles and then its ranges, a negation
/// gives every alphabet character the inner class does not exclude, and the dot gives "any".
pub open spec fn class_labels(c: ClassModel) -> Seq<RegexChar> {
    match c {
        ClassModel::CharSet(cs) => cs,
        ClassModel::Ranges(rs) => expand_ranges(rs),
        ClassModel::Mixed { ranges, singles } => singles + expand_ranges(ranges),
        ClassModel::Negated(inner) => literals_where(alphabet(), Keep::NotExcludedBy(*inner)),
        ClassModel::Dot => seq![RegexChar::Any],
    }
}

/// Two new states, the first with a transition on each label to the second.
pub open spec fn leaf_spec(g: Graph, labels: Seq<RegexChar>) -> (Graph, StateId, Seq<StateId>) {
    let s = StateId(g.len() as usize);
    let a = StateId((g.len() + 1) as usize);
    (g.push(labelled(labels, a)).push(seq![]), s, seq![a])
}

/// Whether a tree is the start anchor.
pub open spec fn is_start(t: RegexTree) -> bool {
    t matches RegexTree::Char(RegexChar::Start)
}

/// Whether a tree is the end anchor.
pub open spec fn is_end(t: RegexTree) -> bool {
    t matches RegexTree::Char(RegexChar::End)
}

/// The states, start and accepting states that building a tree adds to graph `g`.
pub open spec fn build_spec(t: RegexTree, g: Graph) -> (Graph, StateId, Seq<StateId>)
    decreases t,
{
    match t {
        RegexTree::Char(c) => leaf_spec(g, char_labels(c)),
        RegexTree::Class(cm) => leaf_spec(g, class_labels(cm)),
        RegexTree::Group(e) => build_spec(*e, g),
        RegexTree::UnOp(op, e) => {
            let (g1, s, acc) = build_spec(*e, g);
            match op {
                RegexUnOp::Star => {
                    let st = StateId(g1.len() as usize);
                    let g2 = add_pair_from_all(g1.push(seq![]), acc, (None, s), (None, st));
                    (add_edge(g2, st, (None, s)), st, seq![st])
                },
                RegexUnOp::Plus => (add_from_all(g1, acc, (None, s)), s, acc),
                RegexUnOp::Optional => {
                    let st = StateId(g1.len() as usize);
                    (add_edge(g1.push(seq![]), st, (None, s)), st, acc.push(st))
                },
            }
        },
        RegexTree::BinOp(RegexBinOp::Or, l, r) => {
            let (g1, s1, a1) = build_spec(*l, g);
            let (g2, s2, a2) = build_spec(*r, g1);
            let st = StateId(g2.len() as usize);
            (add_edge(add_edge(g2.push(seq![]), st, (None, s1)), st, (None, s2)), st, a1 + a2)
        },
        RegexTree::BinOp(RegexBinOp::Concat, l, r) => {
            if is_start(*l) {
                match *r {
                    RegexTree::BinOp(RegexBinOp::Concat, il, ir) if is_end(*ir) => {
                        let (g1, s1, a1) = build_spec(*il, g);
                        let st = StateId(g1.len() as usize);
                        let en = StateId((g1.len() + 1) as usize);
                        let g2 = add_edge(g1.push(seq![]).push(seq![]), st, (Some(RegexChar::Start), s1));
                        (add_from_all(g2, a1, (Some(RegexChar::End), en)), st, seq![en])
                    },
                    _ => {
                        let (g1, s1, a1) = build_spec(*r, g);
                        let ds = StateId(g1.len() as usize);
                        let da = StateId((g1.len() + 1) as usize);
                        let st = StateId((g1.len() + 2) as usize);
                        let g2 = add_edge(add_edge(g1.push(seq![]).push(seq![]), ds, (Some(RegexChar::Any), da)), da, (Some(RegexChar::Any), da));
                        let g3 = add_edge(g2.push(seq![]), st, (Some(RegexChar::Start), s1));
                        (add_from_all(g3, a1, (None, ds)), st, a1.push(da))
                    },
                }
            } else if is_end(*r) {
                let (g1, s1, a1) = build_spec(*l, g);
                let ds = StateId(g1.len() as usize);
                let en = StateId((g1.len() + 1) as usize);
                let g2 = add_edge(add_edge(g1.push(seq![]), ds, (Some(RegexChar::Any), ds)), ds, (None, s1));
                (add_pair_from_all(g2.push(seq![]), a1, (Some(RegexChar::End), en), (None, ds)), ds, seq![en])
            } else {
                let (g1, s1, a1) = build_spec(*l, g);
                let (g2, s2, a2) = build_spec(*r, g1);
                (add_from_all(g2, a1, (None, s2)), s1, a2)
            }
        },
    }
}

/// The number of nodes of a tree.
pub open spec fn tree_size(t: RegexTree) -> nat
    decreases t,
{
    match t {
        RegexTree::Char(_) => 1,
        RegexTree::Class(_) => 1,
        RegexTree::Group(e) => 1 + tree_size(*e),
        RegexTree::UnOp(_, e) => 1 + tree_size(*e),
        RegexTree::BinOp(_, l, r) => 1 + tree_size(*l) + tree_size(*r),
    }
}

/// Builds automaton pieces, numbering new states in order (the next number is the number
/// of states so far).
pub struct NFABuilder {
    pub states: Vec<State>,
}

/// The literals of the characters of `s` that are not decimal digits.
fn literals_not_digit(s: &Vec<char>) -> (out: Vec<RegexChar>)
    ensures
        out@ == literals_where(s@, Keep::NotDigit),
{
    let mut out: Vec<RegexChar> = Vec::new();
    let mut i: usize = 0;
    while i < s.len()
        invariant
            i <= s@.len(),
            out@ == literals_where(s@.take(i as int), Keep::NotDigit),
        decreases s@.len() - i,
    {
        let c = s[i];
        proof {
            lemma_literals_step(s@, i as int, Keep::NotDigit);
        }
        if !(48 <= (c as u32) && (c as u32) <= 57) {
            out.push(RegexChar::Literal(c));
        }
        i += 1;
    }
    assert(s@.take(s@.len() as int) =~= s@);
    out
}

/// The literals of the characters of `s` that are neither alphanumeric nor `_`.
fn literals_not_word(s: &Vec<char>) -> (out: Vec<RegexChar>)
    ensures
        out@ == literals_where(s@, Keep::NotWord),
{
    let mut out: Vec<RegexChar> = Vec::new();
    let mut i: usize = 0;
    while i < s.len()
        invariant
            i <= s@.len(),
            out@ == literals_where(s@.take(i as int), Keep::NotWord),
        decreases s@.len() - i,
    {
        let c = s[i];
        proof {
            lemma_literals_step(s@, i as int, Keep::NotWord);
        }
        if !is_alphanumeric(c) && c != '_' {
            out.push(RegexChar::Literal(c));
        }
        i += 1;
    }
    assert(s@.take(s@.len() as int) =~= s@);
    out
}

/// The literals of the characters of `s` that are not white space.
fn literals_not_space(s: &Vec<char>) -> (out: Vec<RegexChar>)
    ensures
        out@ == literals_where(s@, Keep::NotSpace),
{
    let mut out: Vec<RegexChar> = Vec::new();
    let mut i: usize = 0;
    while i < s.len()
        invariant
            i <= s@.len(),
            out@ == literals_where(s@.take(i as int), Keep::NotSpace),
        decreases s@.len() - i,
    {
        let c = s[i];
        proof {
            lemma_literals_step(s@, i as int, Keep::NotSpace);
        }
        if !(c == ' ' || c == '\t' || c == '\n' || c == '\r') {
            out.push(RegexChar::Literal(c));
        }
        i += 1;
    }
    assert(s@.take(s@.len() as int) =~= s@);
    out
}

/// The literals of the characters of `s` that belong to the alphabet.
fn literals_in_alphabet(s: &Vec<char>) -> (out: Vec<RegexChar>)
    ensures
        out@ == literals_where(s@, Keep::InAlphabet),
{
    let alpha = alphabet_chars();
    let mut out: Vec<RegexChar> = Vec::new();
    let mut i: usize = 0;
    while i < s.len()
        invariant
            i <= s@.len(),
            alpha@ == alphabet(),
            out@ == literals_where(s@.take(i as int), Keep::InAlphabet),
        decreases s@.len() - i,
    {
        let c = s[i];
        proof {
            lemma_literals_step(s@, i as int, Keep::InAlphabet);
        }
        if contains_char(&alpha, c) {
            out.push(RegexChar::Literal(c));
        }
        i += 1;
    }
    assert(s@.take(s@.len() as int) =~= s@);
    out
}

/// Whether a character's byte lies in one of the ranges.
fn in_some_range(rs: &Vec<(char, char)>, c: char) -> (b: bool)
    ensures
        b == in_ranges(rs@, c),
{
    let code: u32 = c as u32;
    let mut i: usize = 0;
    while i < rs.len()
        invariant
            i <= rs@.len(),
            code == c as u32,
            forall|k: int| 0 <= k < i ==> !in_byte_range(#[trigger] rs@[k], c),
        decreases rs@.len() - i,
    {
        let (a, b) = rs[i];
        let lo: u32 = a as u32 % 256;
        let hi: u32 = b as u32 % 256;
        if lo <= code && code <= hi {
            assert(in_byte_range(rs@[i as int], c));
            return true;
        }
        i += 1;
    }
    false
}

/// Whether a set holds the literal of a character.
fn holds_literal(cs: &Vec<RegexChar>, c: char) -> (b: bool)
    ensures
        b == cs@.contains(RegexChar::Literal(c)),
{
    let mut i: usize = 0;
    while i < cs.len()
        invariant
            i <= cs@.len(),
            forall|k: int| 0 <= k < i ==> cs@[k] != RegexChar::Literal(c),
        decreases cs@.len() - i,
    {
        if cs[i] == RegexChar::Literal(c) {
            return true;
        }
        i += 1;
    }
    false
}

/// Whether the inner class of a negation excludes a character.
fn excludes(inner: &RegexClass, c: char) -> (b: bool)
    ensures
        b == excluded_by(inner.model(), c),
{
    match inner {
        RegexClass::CharSet(cs) => {
            assert(inner.model() == ClassModel::CharSet(cs@));
            let r = holds_literal(cs, c);
            assert(r == excluded_by(inner.model(), c));
            r
        },
        RegexClass::Ranges(rs) => {
            assert(inner.model() == ClassModel::Ranges(rs@));
            let r = in_some_range(rs, c);
            assert(r == excluded_by(inner.model(), c));
            r
        },
        RegexClass::Mixed { ranges, singles } => {
            assert(inner.model() == ClassModel::Mixed { ranges: ranges@, singles: singles@ });
            let a = holds_literal(singles, c);
            let b = in_some_range(ranges, c);
            assert((a || b) == excluded_by(inner.model(), c));
            a || b
        },
        RegexClass::Negated(x) => {
            assert(inner.model() == ClassModel::Negated(Box::new((**x).model())));
            false
        },
        RegexClass::Dot => {
            assert(inner.model() == ClassModel::Dot);
            c != '\n'
        },
    }
}

/// The literals of the characters of `s` that a negated class's inner class does not exclude.
fn literals_not_excluded(s: &Vec<char>, inner: &RegexClass) -> (out: Vec<RegexChar>)
    ensures
        out@ == literals_where(s@, Keep::NotExcludedBy(inner.model())),
{
    let mut out: Vec<RegexChar> = Vec::new();
    let mut i: usize = 0;
    while i < s.len()
        invariant
            i <= s@.len(),
            out@ == literals_where(s@.take(i as int), Keep::NotExcludedBy(inner.model())),
        decreases s@.len() - i,
    {
        let c = s[i];
        proof {
            lemma_literals_step(s@, i as int, Keep::NotExcludedBy(inner.model()));
        }
        if !excludes(inner, c) {
            out.push(RegexChar::Literal(c));
        }
        i += 1;
    }
    assert(s@.take(s@.len() as int) =~= s@);
    out
}

/// The labels of a one-character node.
fn char_labels_of(c: RegexChar) -> (v: Vec<RegexChar>)
    ensures
        v@ == char_labels(c),
{
    let mut v: Vec<RegexChar> = Vec::new();
    match c {
        RegexChar::Escape(RegexEscape::Digit) => {
            push_byte_range(&mut v, '0', '9');
        },
        RegexChar::Escape(RegexEscape::NotDigit) => {
            let alpha = alphabet_chars();
            v = literals_not_digit(&alpha);
        },
        RegexChar::Escape(RegexEscape::Word) => {
            push_byte_range(&mut v, 'a', 'z');
            push_byte_range(&mut v, 'A', 'Z');
            push_byte_range(&mut v, '0', '9');
            v.push(RegexChar::Literal('_'));
        },
        RegexChar::Escape(RegexEscape::NotWord) => {
            let alpha = alphabet_chars();
            v = literals_not_word(&alpha);
        },
        RegexChar::Escape(RegexEscape::Space) => {
            let four = vec![' ', '\t', '\n', '\r'];
            assert(four@ =~= seq![' ', '\t', '\n', '\r']);
            v = literals_in_alphabet(&four);
        },
        RegexChar::Escape(RegexEscape::NotSpace) => {
            let alpha = alphabet_chars();
            v = literals_not_space(&alpha);
        },
        RegexChar::Escape(e) => {
            match e.as_char() {
                Some(lc) => v.push(RegexChar::Literal(lc)),
                None => v.push(c),
            }
        },
        _ => {
            v.push(c);
        },
    }
    assert(v@ =~= char_labels(c));
    v
}

/// The labels of a class node.
fn class_labels_of(c: &RegexClass) -> (v: Vec<RegexChar>)
    ensures
        v@ == class_labels(c.model()),
{
    let mut v: Vec<RegexChar> = Vec::new();
    match c {
        RegexClass::CharSet(cs) => {
            let mut i: usize = 0;
            while i < cs.len()
                invariant
                    i <= cs@.len(),
                    v@ == cs@.take(i as int),
                decreases cs@.len() - i,
            {
                v.push(cs[i]);
                i += 1;
                assert(v@ =~= cs@.take(i as int));
            }
            assert(cs@.take(cs@.len() as int) =~= cs@);
        },
        RegexClass::Ranges(rs) => {
            push_ranges(&mut v, rs);
        },
        RegexClass::Mixed { ranges, singles } => {
            let mut i: usize = 0;
            while i < singles.len()
                invariant
                    i <= singles@.len(),
                    v@ == singles@.take(i as int),
                decreases singles@.len() - i,
            {
                v.push(singles[i]);
                i += 1;
                assert(v@ =~= singles@.take(i as int));
            }
            assert(singles@.take(singles@.len() as int) =~= singles@);
            push_ranges(&mut v, ranges);
        },
        RegexClass::Negated(inner) => {
            let alpha = alphabet_chars();
            v = literals_not_excluded(&alpha, &**inner);
        },
        RegexClass::Dot => {
            v.push(RegexChar::Any);
        },
    }
    assert(v@ =~= class_labels(c.model()));
    v
}

/// Appends the characters of each range, in order.
fn push_ranges(v: &mut Vec<RegexChar>, rs: &Vec<(char, char)>)
    ensures
        final(v)@ == old(v)@ + expand_ranges(rs@),
{
    let ghost start = v@;
    let mut j: usize = 0;
    while j < rs.len()
        invariant
            j <= rs@.len(),
            v@ == start + expand_ranges(rs@.take(j as int)),
        decreases rs@.len() - j,
    {
        let (a, b) = rs[j];
        push_byte_range(v, a, b);
        proof {
            assert(rs@.take(j + 1).drop_last() =~= rs@.take(j as int));
        }
        j = j + 1;
    }
    assert(rs@.take(rs@.len() as int) =~= rs@);
}

/// The states already present keep their final marks, and every state added after them is
/// not final.
pub open spec fn finals_kept(before: Seq<State>, after: Seq<State>) -> bool {
    &&& before.len() <= after.len()
    &&& forall|i: int| 0 <= i < before.len() ==> (#[trigger] after[i]).is_final == before[i].is_final
    &&& forall|i: int| before.len() <= i < after.len() ==> !(#[trigger] after[i]).is_final
}

impl NFABuilder {
    /// Builder invariant: states are numbered by position, and transitions lead to existing
    /// states.
    pub open spec fn wf(&self) -> bool {
        states_wf(self.states@)
    }

    /// The transitions of every state.
    pub open spec fn graph(&self) -> Graph {
        edges_of(self.states@)
    }

    /// An empty builder.
    pub fn new() -> (b: Self)
        ensures
            b.wf(),
            b.states@.len() == 0,
    {
        NFABuilder { states: Vec::new() }
    }

    /// Adds a fresh state with no transitions and returns its number.
    pub fn new_state(&mut self) -> (id: StateId)
        requires
            old(self).wf(),
            old(self).states@.len() < usize::MAX,
        ensures
            final(self).wf(),
            finals_kept(old(self).states@, final(self).states@),
            id == StateId(old(self).states@.len() as usize),
            final(self).graph() == old(self).graph().push(seq![]),
            final(self).states@.len() == old(self).states@.len() + 1,
    {
        let id = self.states.len();
        let state = State::new(id);
        let sid = state.id;
        self.states.push(state);
        proof {
            assert(self.graph() =~= old(self).graph().push(seq![]));
        }
        sid
    }

    /// Adds one transition between existing states.
    fn add(&mut self, from: StateId, input: Option<RegexChar>, to: StateId)
        requires
            old(self).wf(),
            from.0 < old(self).states@.len(),
            to.0 < old(self).states@.len(),
        ensures
            final(self).wf(),
            finals_kept(old(self).states@, final(self).states@),
            final(self).states@.len() == old(self).states@.len(),
            final(self).graph() == add_edge(old(self).graph(), from, (input, to)),
    {
        self.states[from.0].add_transition(input, to);
        proof {
            assert(self.graph() =~= add_edge(old(self).graph(), from, (input, to)));
            assert forall|i: int, k: int|
                0 <= i < self.states@.len() && 0 <= k < self.states@[i].transitions@.len()
                    implies (#[trigger] self.states@[i].transitions@[k]).1.0 < self.states@.len() by {
                if i != from.0 as int {
                    assert(self.states@[i] == old(self).states@[i]);
                } else if k < old(self).states@[i].transitions@.len() {
                    assert(self.states@[i].transitions@[k] == old(self).states@[i].transitions@[k]);
                }
            }
        }
    }

    /// Adds the same transition to each listed state.
    fn add_from_each(&mut self, srcs: &Vec<StateId>, input: Option<RegexChar>, to: StateId)
        requires
            old(self).wf(),
            forall|i: int| 0 <= i < srcs@.len() ==> (#[trigger] srcs@[i]).0 < old(self).states@.len(),
            to.0 < old(self).states@.len(),
        ensures
            final(self).wf(),
            finals_kept(old(self).states@, final(self).states@),
            final(self).states@.len() == old(self).states@.len(),
            final(self).graph() == add_from_all(old(self).graph(), srcs@, (input, to)),
            forall|k: int| 0 <= k < old(self).states@.len() && (forall|j: int| 0 <= j < srcs@.len() ==> (#[trigger] srcs@[j]).0 != k)
                ==> #[trigger] final(self).graph()[k] == old(self).graph()[k],
    {
        let mut i: usize = 0;
        while i < srcs.len()
            invariant
                self.wf(),
                finals_kept(old(self).states@, self.states@),
                i <= srcs@.len(),
                self.states@.len() == old(self).states@.len(),
                forall|j: int| 0 <= j < srcs@.len() ==> (#[trigger] srcs@[j]).0 < old(self).states@.len(),
                to.0 < old(self).states@.len(),
                self.graph() == add_from_all(old(self).graph(), srcs@.take(i as int), (input, to)),
                forall|k: int| 0 <= k < old(self).states@.len() && (forall|j: int| 0 <= j < srcs@.len() ==> (#[trigger] srcs@[j]).0 != k)
                    ==> #[trigger] self.graph()[k] == old(self).graph()[k],
            decreases srcs@.len() - i,
        {
            self.add(srcs[i], input, to);
            proof {
                assert(srcs@.take(i + 1).drop_last() =~= srcs@.take(i as int));
            }
            i += 1;
        }
        assert(srcs@.take(srcs@.len() as int) =~= srcs@);
    }

    /// Adds two transitions to each listed state.
    fn add_pair_from_each(
        &mut self,
        srcs: &Vec<StateId>,
        in1: Option<RegexChar>,
        to1: StateId,
        in2: Option<RegexChar>,
        to2: StateId,
    )
        requires
            old(self).wf(),
            forall|i: int| 0 <= i < srcs@.len() ==> (#[trigger] srcs@[i]).0 < old(self).states@.len(),
            to1.0 < old(self).states@.len(),
            to2.0 < old(self).states@.len(),
        ensures
            final(self).wf(),
            finals_kept(old(self).states@, final(self).states@),
            final(self).states@.len() == old(self).states@.len(),
            final(self).graph() == add_pair_from_all(old(self).graph(), srcs@, (in1, to1), (in2, to2)),
            forall|k: int| 0 <= k < old(self).states@.len() && (forall|j: int| 0 <= j < srcs@.len() ==> (#[trigger] srcs@[j]).0 != k)
                ==> #[trigger] final(self).graph()[k] == old(self).graph()[k],
    {
        let mut i: usize = 0;
        while i < srcs.len()
            invariant
                self.wf(),
                finals_kept(old(self).states@, self.states@),
                i <= srcs@.len(),
                self.states@.len() == old(self).states@.len(),
                forall|j: int| 0 <= j < srcs@.len() ==> (#[trigger] srcs@[j]).0 < old(self).states@.len(),
                to1.0 < old(self).states@.len(),
                to2.0 < old(self).states@.len(),
                self.graph() == add_pair_from_all(old(self).graph(), srcs@.take(i as int), (in1, to1), (in2, to2)),
                forall|k: int| 0 <= k < old(self).states@.len() && (forall|j: int| 0 <= j < srcs@.len() ==> (#[trigger] srcs@[j]).0 != k)
                    ==> #[trigger] self.graph()[k] == old(self).graph()[k],
            decreases srcs@.len() - i,
        {
            self.add(srcs[i], in1, to1);
            self.add(srcs[i], in2, to2);
            proof {
                assert(srcs@.take(i + 1).drop_last() =~= srcs@.take(i as int));
            }
            i += 1;
        }
        assert(srcs@.take(srcs@.len() as int) =~= srcs@);
    }

    /// Two new states, the first with a transition on each label to the second.
    fn leaf(&mut self, labels: &Vec<RegexChar>) -> (f: NFAFragment)
        requires
            old(self).wf(),
            old(self).states@.len() + 2 <= usize::MAX,
        ensures
            final(self).wf(),
            finals_kept(old(self).states@, final(self).states@),
            (final(self).graph(), f.start, f.accepts@) == leaf_spec(old(self).graph(), labels@),
            final(self).states@.len() == old(self).states@.len() + 2,
    {
        let start = self.new_state();
        let accept = self.new_state();
        let ghost g0 = self.graph();
        proof {
            assert(labelled(labels@.take(0), accept) =~= Seq::<Edge>::empty());
            assert(g0.update(start.0 as int, labelled(labels@.take(0), accept)) =~= g0);
        }
        let mut i: usize = 0;
        while i < labels.len()
            invariant
                self.wf(),
                finals_kept(old(self).states@, self.states@),
                i <= labels@.len(),
                self.states@.len() == old(self).states@.len() + 2,
                start.0 == old(self).states@.len(),
                accept.0 == old(self).states@.len() + 1,
                g0 == old(self).graph().push(seq![]).push(seq![]),
                self.graph() == g0.update(start.0 as int, labelled(labels@.take(i as int), accept)),
            decreases labels@.len() - i,
        {
            self.add(start, Some(labels[i]), accept);
            i += 1;
            proof {
                assert(labelled(labels@.take(i as int), accept) =~= labelled(labels@.take(i - 1), accept).push((Some(labels@[i - 1]), accept)));
                assert(self.graph() =~= g0.update(start.0 as int, labelled(labels@.take(i as int), accept)));
            }
        }
        proof {
            assert(labels@.take(labels@.len() as int) =~= labels@);
            assert(self.graph() =~= old(self).graph().push(labelled(labels@, accept)).push(seq![]));
        }
        let accepts = vec![accept];
        assert(accepts@ =~= seq![accept]);
        NFAFragment { start, accepts }
    }

    /// Recursively builds the automaton piece of a tree node, adding its states to the
    /// builder: a character or class becomes two states joined by one transition per label;
    /// concatenation joins the accepting states of the left piece to the start of the right
    /// one by empty transitions (with the special forms `^...$`, `^...` and `...$` for the
    /// anchors); alternation adds a start with empty transitions to both pieces; `*`, `+` and
    /// `?` add the usual loops and bypasses.
    pub fn build(&mut self, node: &AstNodeImpl) -> (f: NFAFragment)
        requires
            old(self).wf(),
            old(self).states@.len() + 3 * tree_size(node.model()) <= usize::MAX,
        ensures
            final(self).wf(),
            finals_kept(old(self).states@, final(self).states@),
            (final(self).graph(), f.start, f.accepts@) == build_spec(node.model(), old(self).graph()),
            old(self).states@.len() <= final(self).states@.len() <= old(self).states@.len() + 3 * tree_size(node.model()),
            old(self).states@.len() <= f.start.0 < final(self).states@.len(),
            old(self).states@.len() + 2 <= final(self).states@.len(),
            forall|k: int| 0 <= k < old(self).states@.len() ==> #[trigger] final(self).graph()[k] == old(self).graph()[k],
            f.accepts@.len() > 0,
            forall|i: int| 0 <= i < f.accepts@.len() ==>
                old(self).states@.len() <= (#[trigger] f.accepts@[i]).0 < final(self).states@.len(),
        decreases node, 1nat,
    {
        match &node.kind {
            AstNodeKind::RegexChar(c) => {
                let labels = char_labels_of(*c);
                self.leaf(&labels)
            },
            AstNodeKind::Class(class) => {
                let labels = class_labels_of(class);
                self.leaf(&labels)
            },
            AstNodeKind::Group(g) => {
                self.build(&g.expr)
            },
            AstNodeKind::UnOp { op, expr } => {
                let frag = self.build(expr);
                match op {
                    RegexUnOp::Star => {
                        let start = self.new_state();
                        self.add_pair_from_each(&frag.accepts, None, frag.start, None, start);
                        self.add(start, None, frag.start);
                        let accepts = vec![start];
                        assert(accepts@ =~= seq![start]);
                        NFAFragment { start, accepts }
                    },
                    RegexUnOp::Plus => {
                        self.add_from_each(&frag.accepts, None, frag.start);
                        NFAFragment { start: frag.start, accepts: frag.accepts }
                    },
                    RegexUnOp::Optional => {
                        let start = self.new_state();
                        self.add(start, None, frag.start);
                        let mut accepts = frag.accepts;
                        accepts.push(start);
                        NFAFragment { start, accepts }
                    },
                }
            },
            AstNodeKind::BinOp { op, left, right } => {
                match op {
                    RegexBinOp::Or => {
                        let lf = self.build(left);
                        let rf = self.build(right);
                        let start = self.new_state();
                        self.add(start, None, lf.start);
                        self.add(start, None, rf.start);
                        let mut accepts = lf.accepts;
                        let mut more = rf.accepts;
                        accepts.append(&mut more);
                        NFAFragment { start, accepts }
                    },
                    RegexBinOp::Concat => self.build_concat(node),
                }
            },
        }
    }

    /// The concatenation case of `build`.
    fn build_concat(&mut self, node: &AstNodeImpl) -> (f: NFAFragment)
        requires
            old(self).wf(),
            node.model() matches RegexTree::BinOp(RegexBinOp::Concat, _, _),
            old(self).states@.len() + 3 * tree_size(node.model()) <= usize::MAX,
        ensures
            final(self).wf(),
            finals_kept(old(self).states@, final(self).states@),
            (final(self).graph(), f.start, f.accepts@) == build_spec(node.model(), old(self).graph()),
            old(self).states@.len() <= final(self).states@.len() <= old(self).states@.len() + 3 * tree_size(node.model()),
            old(self).states@.len() <= f.start.0 < final(self).states@.len(),
            old(self).states@.len() + 2 <= final(self).states@.len(),
            forall|k: int| 0 <= k < old(self).states@.len() ==> #[trigger] final(self).graph()[k] == old(self).graph()[k],
            f.accepts@.len() > 0,
            forall|i: int| 0 <= i < f.accepts@.len() ==>
                old(self).states@.len() <= (#[trigger] f.accepts@[i]).0 < final(self).states@.len(),
        decreases node, 0nat,
    {
        let (left, right) = match &node.kind {
            AstNodeKind::BinOp { left, right, op } => {
                assert(node.model() == RegexTree::BinOp(*op, Box::new((**left).model()), Box::new((**right).model())));
                (left, right)
            },
            _ => {
                assert(false);
                return NFAFragment { start: StateId(0), accepts: Vec::new() };
            },
        };
        if let AstNodeKind::RegexChar(RegexChar::Start) = left.kind {
            if let AstNodeKind::BinOp { op: RegexBinOp::Concat, left: inner_left, right: inner_right } = &right.kind {
                if let AstNodeKind::RegexChar(RegexChar::End) = inner_right.kind {
                    proof {
                        assert(right.model() == RegexTree::BinOp(RegexBinOp::Concat, Box::new(inner_left.model()), Box::new(inner_right.model())));
                        assert(tree_size(right.model()) == 1 + tree_size(inner_left.model()) + tree_size(inner_right.model()));
                        assert(is_end(inner_right.model()));
                        assert(is_start(left.model()));
                    }
                    let inner = self.build(inner_left);
                    let start = self.new_state();
                    let end = self.new_state();
                    self.add(start, Some(RegexChar::Start), inner.start);
                    self.add_from_each(&inner.accepts, Some(RegexChar::End), end);
                    let accepts = vec![end];
                    assert(accepts@ =~= seq![end]);
                    return NFAFragment { start, accepts };
                }
            }
            proof {
                assert(is_start(left.model()));
                assert(!(right.model() matches RegexTree::BinOp(RegexBinOp::Concat, _, ir) && is_end(*ir)));
            }
            let rf = self.build(right);
            let dot_start = self.new_state();
            let dot_accept = self.new_state();
            self.add(dot_start, Some(RegexChar::Any), dot_accept);
            self.add(dot_accept, Some(RegexChar::Any), dot_accept);
            let start = self.new_state();
            self.add(start, Some(RegexChar::Start), rf.start);
            self.add_from_each(&rf.accepts, None, dot_start);
            let mut accepts = rf.accepts;
            accepts.push(dot_accept);
            NFAFragment { start, accepts }
        } else if let AstNodeKind::RegexChar(RegexChar::End) = right.kind {
            proof {
                assert(!is_start(left.model()));
                assert(is_end(right.model()));
            }
            let lf = self.build(left);
            let dot_start = self.new_state();
            self.add(dot_start, Some(RegexChar::Any), dot_start);
            self.add(dot_start, None, lf.start);
            let end = self.new_state();
            self.add_pair_from_each(&lf.accepts, Some(RegexChar::End), end, None, dot_start);
            let accepts = vec![end];
            assert(accepts@ =~= seq![end]);
            NFAFragment { start: dot_start, accepts }
        } else {
            proof {
                assert(!is_start(left.model()));
                assert(!is_end(right.model()));
            }
            let lf = self.build(left);
            let rf = self.build(right);
            self.add_from_each(&lf.accepts, None, rf.start);
            NFAFragment { start: lf.start, accepts: rf.accepts }
        }
    }
}

} // verus!
