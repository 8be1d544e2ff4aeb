//! Parser from the text of a regular expression to its syntax tree.

use vstd::prelude::*;
use crate::text::{chars_of, is_white_space};
use crate::nfa::language::{lang, leaf_lang, lemma_cat_split};
use crate::nfa::builder::char_labels;
use crate::nfa::simulator::label_matches;
use crate::regex::node::{RegexChar, RegexEscape, RegexBinOp, RegexUnOp, RegexGroup, AstNodeKind, AstNodeImpl, escape_of};
use crate::regex::model::RegexTree;
use crate::regex::scan::{
    trim, trim_start, trim_end, top_level, top_level_from, concat_from, concat_point, close_from, class_spec, is_postfix, lemma_trim_len,
    lemma_trim_start_len, lemma_top_level_bound, lemma_concat_bound, lemma_close_bound,
    skip_space_forward, skip_space_backward, top_level_in, concat_point_in, close_in, parse_class_in,
};

verus! {

/// An optional tree, taken by its model.
pub open spec fn opt_model(r: Option<AstNodeImpl>) -> Option<RegexTree> {
    match r {
        Some(n) => Some(n.model()),
        None => None,
    }
}

/// The postfix operator a character denotes.
pub open spec fn postfix_op(c: char) -> RegexUnOp {
    if c == '*' { RegexUnOp::Star } else if c == '+' { RegexUnOp::Plus } else { RegexUnOp::Optional }
}

/// The tree the parser gives for a text: the text is trimmed; empty text has no tree; `^`
/// and `$` alone are the anchors; a top-level `|` splits into an alternation, else the first
/// implicit concatenation point splits into a concatenation; otherwise one factor (a class,
/// a group, an escape or a literal) is read, optionally followed by a postfix operator, and
/// whatever text remains is concatenated after it.
pub open spec fn parse_spec(s: Seq<char>) -> Option<RegexTree>
    decreases s.len(),
{
    let t = trim(s);
    if t.len() == 0 {
        None
    } else if t.len() == 1 && t[0] == '^' {
        Some(RegexTree::Char(RegexChar::Start))
    } else if t.len() == 1 && t[0] == '$' {
        Some(RegexTree::Char(RegexChar::End))
    } else if top_level(t, '|') is Some {
        let idx = top_level(t, '|').unwrap();
        proof {
            lemma_trim_len(s);
            lemma_top_level_bound(t, '|', 0, 0);
        }
        match (parse_spec(t.subrange(0, idx)), parse_spec(t.subrange(idx + 1, t.len() as int))) {
            (Some(l), Some(r)) => Some(RegexTree::BinOp(RegexBinOp::Or, Box::new(l), Box::new(r))),
            _ => None,
        }
    } else if concat_point(t) is Some {
        let idx = concat_point(t).unwrap();
        proof {
            lemma_trim_len(s);
            lemma_concat_bound(t, 1, 0, 0);
        }
        match (parse_spec(t.subrange(0, idx)), parse_spec(t.subrange(idx, t.len() as int))) {
            (Some(l), Some(r)) => Some(RegexTree::BinOp(RegexBinOp::Concat, Box::new(l), Box::new(r))),
            _ => None,
        }
    } else {
        proof {
            lemma_trim_len(s);
        }
        let fac: Option<(RegexTree, int)> = if t[0] == '[' {
            match close_from(t, '[', ']', 0, 0) {
                Some(idx) => Some((RegexTree::Class(class_spec(t.subrange(1, idx))), idx + 1)),
                None => None,
            }
        } else if t[0] == '(' {
            match close_from(t, '(', ')', 0, 0) {
                Some(idx) => {
                    proof {
                        lemma_close_bound(t, '(', ')', 1, 1);
                    }
                    match parse_spec(t.subrange(1, idx)) {
                        Some(e) => Some((RegexTree::Group(Box::new(e)), idx + 1)),
                        None => None,
                    }
                },
                None => None,
            }
        } else if t[0] == '\\' && t.len() >= 2 {
            match escape_of(t[1]) {
                Some(e) => Some((RegexTree::Char(RegexChar::Escape(e)), 2)),
                None => Some((RegexTree::Char(RegexChar::Literal(t[1])), 2)),
            }
        } else {
            Some((RegexTree::Char(RegexChar::Literal(t[0])), 1))
        };
        match fac {
            None => None,
            Some((f, k)) => {
                proof {
                    lemma_close_bound(t, '[', ']', 1, 1);
                    lemma_close_bound(t, '(', ')', 1, 1);
                    lemma_trim_start_len(t.subrange(k, t.len() as int));
                }
                let rest = trim_start(t.subrange(k, t.len() as int));
                if rest.len() > 0 && is_postfix(rest[0]) {
                    let u = RegexTree::UnOp(postfix_op(rest[0]), Box::new(f));
                    proof {
                        lemma_trim_start_len(rest.subrange(1, rest.len() as int));
                    }
                    let after = trim_start(rest.subrange(1, rest.len() as int));
                    if after.len() > 0 {
                        match parse_spec(after) {
                            Some(r) => Some(RegexTree::BinOp(RegexBinOp::Concat, Box::new(u), Box::new(r))),
                            None => None,
                        }
                    } else {
                        Some(u)
                    }
                } else if rest.len() > 0 {
                    match parse_spec(rest) {
                        Some(r) => Some(RegexTree::BinOp(RegexBinOp::Concat, Box::new(f), Box::new(r))),
                        None => None,
                    }
                } else {
                    Some(f)
                }
            },
        }
    }
}

/// A character with no meaning of its own to the parser: not white space, not `|`, a backslash,
/// a parenthesis or bracket, a postfix operator or an anchor.
pub open spec fn ordinary_char(c: char) -> bool {
    !is_white_space(c) && c != '|' && c != '\\' && c != '(' && c != ')' && c != '[' && c != ']'
        && c != '*' && c != '+' && c != '?' && c != '^' && c != '$'
}

/// An ordinary character alone is the literal for itself.
proof fn lemma_parse_literal(c: char)
    requires
        ordinary_char(c),
    ensures
        parse_spec(seq![c]) == Some(RegexTree::Char(RegexChar::Literal(c))),
{
    let t = seq![c];
    assert(trim_start(t) == t);
    assert(trim_end(t) == t);
    assert(top_level_from(t, '|', 1, 0) is None);
    assert(top_level(t, '|') is None);
    assert(concat_point(t) is None);
    assert(t.subrange(1, 1) =~= Seq::<char>::empty());
    assert(trim_start(t.subrange(1, 1)) =~= Seq::<char>::empty());
}

/// A postfix operator applies to the factor it follows: for every ordinary character `c`,
/// `c?` is zero or one `c` (`Optional`), `c*` is zero or more (`Star`) and `c+` one or more
/// (`Plus`).
pub proof fn lemma_postfix_operators(c: char)
    requires
        ordinary_char(c),
    ensures
        parse_spec(seq![c, '?']) == Some(RegexTree::UnOp(RegexUnOp::Optional, Box::new(RegexTree::Char(RegexChar::Literal(c))))),
        parse_spec(seq![c, '*']) == Some(RegexTree::UnOp(RegexUnOp::Star, Box::new(RegexTree::Char(RegexChar::Literal(c))))),
        parse_spec(seq![c, '+']) == Some(RegexTree::UnOp(RegexUnOp::Plus, Box::new(RegexTree::Char(RegexChar::Literal(c))))),
{
    lemma_parse_postfix(c, '?');
    lemma_parse_postfix(c, '*');
    lemma_parse_postfix(c, '+');
}

/// An ordinary character followed by a postfix operator is that operator applied to it.
proof fn lemma_parse_postfix(c: char, op: char)
    requires
        ordinary_char(c),
        is_postfix(op),
    ensures
        parse_spec(seq![c, op]) == Some(RegexTree::UnOp(postfix_op(op), Box::new(RegexTree::Char(RegexChar::Literal(c))))),
{
    let t = seq![c, op];
    assert(trim_start(t) == t);
    assert(trim_end(t) == t);
    assert(top_level_from(t, '|', 2, 0) is None);
    assert(top_level_from(t, '|', 1, 0) is None);
    assert(top_level(t, '|') is None);
    assert(concat_from(t, 2, 0, 0) is None);
    assert(concat_point(t) is None);
    let rest = t.subrange(1, 2);
    assert(rest =~= seq![op]);
    assert(trim_start(rest) == rest);
    assert(rest.subrange(1, 1) =~= Seq::<char>::empty());
    assert(trim_start(rest.subrange(1, 1)) =~= Seq::<char>::empty());
}

/// The postfix operator binds only the factor just before it: for ordinary characters `a`
/// and `b`, `ab?` is `a` followed by zero or one `b`, and it stands for exactly the texts `a`
/// and `ab`.
pub proof fn lemma_postfix_binds_last_factor(a: char, b: char)
    requires
        ordinary_char(a),
        ordinary_char(b),
    ensures
        parse_spec(seq![a, b, '?']) == Some(RegexTree::BinOp(RegexBinOp::Concat,
            Box::new(RegexTree::Char(RegexChar::Literal(a))),
            Box::new(RegexTree::UnOp(RegexUnOp::Optional, Box::new(RegexTree::Char(RegexChar::Literal(b))))))),
        forall|w: Seq<char>| lang(parse_spec(seq![a, b, '?']).unwrap(), w) <==> (w == seq![a] || w == seq![a, b]),
{
    let t = seq![a, b, '?'];
    assert(trim_start(t) == t);
    assert(trim_end(t) == t);
    assert(top_level_from(t, '|', 3, 0) is None);
    assert(top_level_from(t, '|', 2, 0) is None);
    assert(top_level_from(t, '|', 1, 0) is None);
    assert(top_level(t, '|') is None);
    assert(concat_point(t) == Some(1int));
    assert(t.subrange(0, 1) =~= seq![a]);
    assert(t.subrange(1, 3) =~= seq![b, '?']);
    lemma_parse_literal(a);
    lemma_parse_postfix(b, '?');
    let la = RegexTree::Char(RegexChar::Literal(a));
    let lb = RegexTree::Char(RegexChar::Literal(b));
    let ob = RegexTree::UnOp(RegexUnOp::Optional, Box::new(lb));
    let tree = RegexTree::BinOp(RegexBinOp::Concat, Box::new(la), Box::new(ob));
    assert(parse_spec(t) == Some(tree));
    assert forall|w: Seq<char>| lang(tree, w) <==> (w == seq![a] || w == seq![a, b]) by {
        lemma_cat_split(RegexBinOp::Concat, la, ob, w, 0);
        lemma_lang_literal(a);
        lemma_lang_literal(b);
        if w =~= seq![a] {
            assert(w.subrange(0, 1) =~= seq![a]);
            assert(w.subrange(1, 1) =~= Seq::<char>::empty());
            assert(lang(la, w.subrange(0, 1)) && lang(ob, w.subrange(1, w.len() as int)));
        } else if w =~= seq![a, b] {
            assert(w.subrange(0, 1) =~= seq![a]);
            assert(w.subrange(1, 2) =~= seq![b]);
            assert(lang(lb, seq![b]));
            assert(lang(ob, w.subrange(1, 2)));
            assert(lang(la, w.subrange(0, 1)) && lang(ob, w.subrange(1, w.len() as int)));
        }
        if lang(tree, w) {
            let j = choose|j: int| 0 <= j <= w.len() && #[trigger] lang(la, w.subrange(0, j))
                && lang(ob, w.subrange(j, w.len() as int));
            assert(w.subrange(0, j) =~= seq![a]);
            assert(j == 1);
            let r = w.subrange(1, w.len() as int);
            if r.len() == 0 {
                assert(w =~= seq![a]);
            } else {
                assert(lang(ob, r));
                assert(lang(lb, r));
                assert(r =~= seq![b]);
                assert(w =~= seq![a, b]);
            }
        }
    }
}

/// The literal for `c` stands for exactly the one-character text `c`.
proof fn lemma_lang_literal(c: char)
    ensures
        forall|w: Seq<char>| lang(RegexTree::Char(RegexChar::Literal(c)), w) <==> w =~= seq![c],
{
    assert forall|w: Seq<char>| lang(RegexTree::Char(RegexChar::Literal(c)), w) <==> w =~= seq![c] by {
        let labels = seq![RegexChar::Literal(c)];
        assert(char_labels(RegexChar::Literal(c)) == labels);
        if w =~= seq![c] {
            assert(label_matches(Some(labels[0]), w[0]));
            assert(leaf_lang(labels, w));
        }
    }
}

/// A leaf node.
fn leaf_node(c: RegexChar) -> (n: AstNodeImpl)
    ensures
        n.model() == RegexTree::Char(c),
{
    AstNodeImpl { kind: AstNodeKind::RegexChar(c) }
}

/// A binary node.
fn bin_node(op: RegexBinOp, l: AstNodeImpl, r: AstNodeImpl) -> (n: AstNodeImpl)
    ensures
        n.model() == RegexTree::BinOp(op, Box::new(l.model()), Box::new(r.model())),
{
    AstNodeImpl { kind: AstNodeKind::BinOp { op, left: Box::new(l), right: Box::new(r) } }
}

/// Reads the rest after a factor ending at `k` within `cs[..b]`.
fn finish_factor(cs: &Vec<char>, f: AstNodeImpl, k: usize, b: usize) -> (r: Option<AstNodeImpl>)
    requires
        k <= b <= cs@.len(),
    ensures
        ({
            let rest = trim_start(cs@.subrange(k as int, b as int));
            opt_model(r) == if rest.len() > 0 && is_postfix(rest[0]) {
                let u = RegexTree::UnOp(postfix_op(rest[0]), Box::new(f.model()));
                let after = trim_start(rest.subrange(1, rest.len() as int));
                if after.len() > 0 {
                    match parse_spec(after) {
                        Some(r) => Some(RegexTree::BinOp(RegexBinOp::Concat, Box::new(u), Box::new(r))),
                        None => None,
                    }
                } else {
                    Some(u)
                }
            } else if rest.len() > 0 {
                match parse_spec(rest) {
                    Some(r) => Some(RegexTree::BinOp(RegexBinOp::Concat, Box::new(f.model()), Box::new(r))),
                    None => None,
                }
            } else {
                Some(f.model())
            }
        }),
    decreases b - k + 1, 0nat,
{
    let ra = skip_space_forward(cs, k, b);
    let ghost rest = cs@.subrange(ra as int, b as int);
    if ra < b && (cs[ra] == '*' || cs[ra] == '+' || cs[ra] == '?') {
        let c = cs[ra];
        let op = if c == '*' { RegexUnOp::Star } else if c == '+' { RegexUnOp::Plus } else { RegexUnOp::Optional };
        let u = AstNodeImpl { kind: AstNodeKind::UnOp { op, expr: Box::new(f) } };
        let aa = skip_space_forward(cs, ra + 1, b);
        assert(rest.subrange(1, rest.len() as int) =~= cs@.subrange(ra + 1, b as int));
        if aa < b {
            match parse_in(cs, aa, b) {
                Some(r) => Some(bin_node(RegexBinOp::Concat, u, r)),
                None => None,
            }
        } else {
            Some(u)
        }
    } else if ra < b {
        match parse_in(cs, ra, b) {
            Some(r) => Some(bin_node(RegexBinOp::Concat, f, r)),
            None => None,
        }
    } else {
        Some(f)
    }
}

/// Parses the regular expression held in `cs[lo..hi]`.
pub fn parse_in(cs: &Vec<char>, lo: usize, hi: usize) -> (r: Option<AstNodeImpl>)
    requires
        lo <= hi <= cs@.len(),
    ensures
        opt_model(r) == parse_spec(cs@.subrange(lo as int, hi as int)),
    decreases hi - lo, 1nat,
{
    let ghost s = cs@.subrange(lo as int, hi as int);
    let a = skip_space_forward(cs, lo, hi);
    let b = skip_space_backward(cs, a, hi);
    let ghost t = cs@.subrange(a as int, b as int);
    assert(trim(s) == t);
    if a == b {
        return None;
    }
    if b - a == 1 && cs[a] == '^' {
        return Some(leaf_node(RegexChar::Start));
    }
    if b - a == 1 && cs[a] == '$' {
        return Some(leaf_node(RegexChar::End));
    }
    match top_level_in(cs, a, b, '|') {
        Some(idx) => {
            proof {
                lemma_top_level_bound(t, '|', 0, 0);
                assert(t.subrange(0, idx as int) =~= cs@.subrange(a as int, a + idx));
                assert(t.subrange(idx + 1, t.len() as int) =~= cs@.subrange(a + idx + 1, b as int));
            }
            let l = match parse_in(cs, a, a + idx) {
                Some(l) => l,
                None => return None,
            };
            let r = match parse_in(cs, a + idx + 1, b) {
                Some(r) => r,
                None => return None,
            };
            return Some(bin_node(RegexBinOp::Or, l, r));
        },
        None => {},
    }
    match concat_point_in(cs, a, b) {
        Some(idx) => {
            proof {
                lemma_concat_bound(t, 1, 0, 0);
                assert(t.subrange(0, idx as int) =~= cs@.subrange(a as int, a + idx));
                assert(t.subrange(idx as int, t.len() as int) =~= cs@.subrange(a + idx, b as int));
            }
            let l = match parse_in(cs, a, a + idx) {
                Some(l) => l,
                None => return None,
            };
            let r = match parse_in(cs, a + idx, b) {
                Some(r) => r,
                None => return None,
            };
            return Some(bin_node(RegexBinOp::Concat, l, r));
        },
        None => {},
    }
    let first = cs[a];
    if first == '[' {
        match close_in(cs, a, b, '[', ']') {
            Some(idx) => {
                proof {
                    lemma_close_bound(t, '[', ']', 1, 1);
                    assert(t.subrange(1, idx as int) =~= cs@.subrange(a + 1, a + idx));
                    assert(t.subrange(idx + 1, t.len() as int) =~= cs@.subrange(a + idx + 1, b as int));
                }
                let class = parse_class_in(cs, a + 1, a + idx);
                let f = AstNodeImpl { kind: AstNodeKind::Class(class) };
                finish_factor(cs, f, a + idx + 1, b)
            },
            None => None,
        }
    } else if first == '(' {
        match close_in(cs, a, b, '(', ')') {
            Some(idx) => {
                proof {
                    lemma_close_bound(t, '(', ')', 1, 1);
                    assert(t.subrange(1, idx as int) =~= cs@.subrange(a + 1, a + idx));
                    assert(t.subrange(idx + 1, t.len() as int) =~= cs@.subrange(a + idx + 1, b as int));
                }
                match parse_in(cs, a + 1, a + idx) {
                    Some(e) => {
                        let f = AstNodeImpl { kind: AstNodeKind::Group(RegexGroup::new(Box::new(e))) };
                        finish_factor(cs, f, a + idx + 1, b)
                    },
                    None => None,
                }
            },
            None => None,
        }
    } else if first == '\\' && b - a >= 2 {
        proof {
            assert(t.subrange(2, t.len() as int) =~= cs@.subrange(a + 2, b as int));
        }
        let next = cs[a + 1];
        let f = match RegexEscape::from_char(next) {
            Some(esc) => leaf_node(RegexChar::Escape(esc)),
            None => leaf_node(RegexChar::Literal(next)),
        };
        finish_factor(cs, f, a + 2, b)
    } else {
        proof {
            assert(t.subrange(1, t.len() as int) =~= cs@.subrange(a + 1, b as int));
        }
        let f = leaf_node(RegexChar::Literal(first));
        finish_factor(cs, f, a + 1, b)
    }
}

/// Parses a regular expression into its syntax tree: alternation `|` binds loosest, then
/// implicit concatenation, then the postfix operators `*`, `+`, `?`; classes `[...]`,
/// groups `(...)`, escapes `\x` and literals are the factors. Surrounding white space is
/// ignored. Returns `None` for an empty text and for unbalanced brackets or parentheses.
pub fn parse_regex(input: &str) -> (r: Option<AstNodeImpl>)
    ensures
        opt_model(r) == parse_spec(input@),
{
    let cs = chars_of(input);
    assert(cs@.subrange(0, cs@.len() as int) =~= input@);
    parse_in(&cs, 0, cs.len())
}

} // verus!
