//! Building the automata of token specifications.

use vstd::prelude::*;
use crate::regex::node::{RegexChar, escape_of};
use crate::regex::model::RegexTree;
use crate::regex::scan::{
    trim, trim_start, top_level, concat_point, close_from, class_spec, is_postfix, lemma_trim_len,
    lemma_trim_start_len, lemma_top_level_bound, lemma_concat_bound, lemma_close_bound,
};
use crate::regex::parser::{parse_spec, parse_regex};
use crate::nfa::builder::{tree_size, build_spec};
use crate::nfa::state::{StateId, edges_of};
use crate::nfa::nfa::NFA;
use crate::generator::TokenSpec;

verus! {

/// A leaf is one node.
proof fn lemma_leaf_size(c: RegexChar)
    ensures
        tree_size(RegexTree::Char(c)) == 1,
{
}

/// A binary node counts itself and its operands.
proof fn lemma_bin_size(op: crate::regex::node::RegexBinOp, l: RegexTree, r: RegexTree)
    ensures
        tree_size(RegexTree::BinOp(op, Box::new(l), Box::new(r))) == 1 + tree_size(l) + tree_size(r),
{
}

/// A unary node counts itself and its operand.
proof fn lemma_un_size(op: crate::regex::node::RegexUnOp, e: RegexTree)
    ensures
        tree_size(RegexTree::UnOp(op, Box::new(e))) == 1 + tree_size(e),
{
}

/// A tree the parser gives has fewer than twice as many nodes as the text has characters.
pub proof fn lemma_parse_size(s: Seq<char>)
    ensures
        parse_spec(s) matches Some(tr) ==> tree_size(tr) + 1 <= 2 * s.len(),
    decreases s.len(),
{
    let t = trim(s);
    lemma_trim_len(s);
    if t.len() == 0 {
    } else if t.len() == 1 && (t[0] == '^' || t[0] == '$') {
        lemma_leaf_size(RegexChar::Start);
        lemma_leaf_size(RegexChar::End);
    } else if top_level(t, '|') is Some {
        let idx = top_level(t, '|').unwrap();
        lemma_top_level_bound(t, '|', 0, 0);
        lemma_parse_size(t.subrange(0, idx));
        lemma_parse_size(t.subrange(idx + 1, t.len() as int));
        if let (Some(l), Some(r)) = (parse_spec(t.subrange(0, idx)), parse_spec(t.subrange(idx + 1, t.len() as int))) {
            lemma_bin_size(crate::regex::node::RegexBinOp::Or, l, r);
        }
    } else if concat_point(t) is Some {
        let idx = concat_point(t).unwrap();
        lemma_concat_bound(t, 1, 0, 0);
        lemma_parse_size(t.subrange(0, idx));
        lemma_parse_size(t.subrange(idx, t.len() as int));
        if let (Some(l), Some(r)) = (parse_spec(t.subrange(0, idx)), parse_spec(t.subrange(idx, t.len() as int))) {
            lemma_bin_size(crate::regex::node::RegexBinOp::Concat, l, r);
        }
    } else {
        lemma_close_bound(t, '[', ']', 0, 0);
        lemma_close_bound(t, '(', ')', 0, 0);
        lemma_close_bound(t, '[', ']', 1, 1);
        lemma_close_bound(t, '(', ')', 1, 1);
        if t[0] == '(' {
            if let Some(idx) = close_from(t, '(', ')', 0, 0) {
                assert(close_from(t, '(', ')', 0, 0) == close_from(t, '(', ')', 1, 1));
                assert(1 <= idx);
                lemma_parse_size(t.subrange(1, idx));
                if let Some(e) = parse_spec(t.subrange(1, idx)) {
                    assert(tree_size(RegexTree::Group(Box::new(e))) == 1 + tree_size(e));
                    assert(tree_size(e) + 1 <= 2 * (idx - 1));
                }
            }
        }
        if t[0] == '[' {
            if let Some(idx) = close_from(t, '[', ']', 0, 0) {
                assert(0 <= idx);
            }
        }
        let fac: Option<(RegexTree, int)> = if t[0] == '[' {
            match close_from(t, '[', ']', 0, 0) {
                Some(idx) => Some((RegexTree::Class(class_spec(t.subrange(1, idx))), idx + 1)),
                None => None,
            }
        } else if t[0] == '(' {
            match close_from(t, '(', ')', 0, 0) {
                Some(idx) => match parse_spec(t.subrange(1, idx)) {
                    Some(e) => Some((RegexTree::Group(Box::new(e)), idx + 1)),
                    None => None,
                },
                None => None,
            }
        } else if t[0] == '\\' && t.len() >= 2 {
            match escape_of(t[1]) {
                Some(e) => Some((RegexTree::Char(RegexChar::Escape(e)), 2)),
                None => Some((RegexTree::Char(RegexChar::Literal(t[1])), 2)),
            }
        } else {
            Some((RegexTree::Char(RegexChar::Literal(t[0])), 1))
        };
        match fac {
            None => {},
            Some((f, k)) => {
                if t[0] == '[' {
                    assert(f is Class);
                    assert(tree_size(f) == 1);
                } else if t[0] == '(' {
                    assert(f is Group);
                } else {
                    assert(f is Char);
                    let c = f->Char_0;
                    assert(f == RegexTree::Char(c));
                    lemma_leaf_size(c);
                }
                assert(tree_size(f) + 1 <= 2 * k);
                assert(k <= t.len());
                lemma_trim_start_len(t.subrange(k, t.len() as int));
                let rest = trim_start(t.subrange(k, t.len() as int));
                if rest.len() > 0 && is_postfix(rest[0]) {
                    lemma_trim_start_len(rest.subrange(1, rest.len() as int));
                    let after = trim_start(rest.subrange(1, rest.len() as int));
                    let u = RegexTree::UnOp(crate::regex::parser::postfix_op(rest[0]), Box::new(f));
                    lemma_un_size(crate::regex::parser::postfix_op(rest[0]), f);
                    if after.len() > 0 {
                        lemma_parse_size(after);
                        if let Some(r) = parse_spec(after) {
                            lemma_bin_size(crate::regex::node::RegexBinOp::Concat, u, r);
                        }
                    }
                } else if rest.len() > 0 {
                    lemma_parse_size(rest);
                    if let Some(r) = parse_spec(rest) {
                        lemma_bin_size(crate::regex::node::RegexBinOp::Concat, f, r);
                    }
                }
            },
        }
    }
}


/// The token specifications whose regular expression parses, as (name, tree), in order.
pub open spec fn parsed_specs(specs: Seq<TokenSpec>) -> Seq<(Seq<char>, RegexTree)>
    decreases specs.len(),
{
    if specs.len() == 0 {
        seq![]
    } else {
        let rest = parsed_specs(specs.drop_last());
        match parse_spec(specs.last().regex@) {
            Some(t) => rest.push((specs.last().name@, t)),
            None => rest,
        }
    }
}

/// The automata of the token specifications whose regular expression parses, each with the
/// token's name and its priority: its position among those, so that earlier specifications
/// take precedence. Specifications whose expression does not parse are left out.
pub fn build_nfas(specs: &Vec<TokenSpec>) -> (nfas: Vec<(NFA, String, usize)>)
    requires
        forall|i: int| 0 <= i < specs@.len() ==> (#[trigger] specs@[i]).regex@.len() <= usize::MAX / 6,
    ensures
        nfas@.len() == parsed_specs(specs@).len(),
        forall|k: int| 0 <= k < nfas@.len() ==> {
            &&& (#[trigger] nfas@[k]).0.wf()
            &&& nfas@[k].1@ == parsed_specs(specs@)[k].0
            &&& nfas@[k].2 == k
            &&& (edges_of(nfas@[k].0.states@), nfas@[k].0.start, nfas@[k].0.accepts@)
                == build_spec(parsed_specs(specs@)[k].1, seq![])
        },
{
    let mut nfas: Vec<(NFA, String, usize)> = Vec::new();
    let mut priority: usize = 0;
    let mut i: usize = 0;
    while i < specs.len()
        invariant
            i <= specs@.len(),
            forall|j: int| 0 <= j < specs@.len() ==> (#[trigger] specs@[j]).regex@.len() <= usize::MAX / 6,
            priority == nfas@.len(),
            priority <= i,
            nfas@.len() == parsed_specs(specs@.take(i as int)).len(),
            forall|k: int| 0 <= k < nfas@.len() ==> {
                &&& (#[trigger] nfas@[k]).0.wf()
                &&& nfas@[k].1@ == parsed_specs(specs@.take(i as int))[k].0
                &&& nfas@[k].2 == k
                &&& (edges_of(nfas@[k].0.states@), nfas@[k].0.start, nfas@[k].0.accepts@)
                    == build_spec(parsed_specs(specs@.take(i as int))[k].1, seq![])
            },
        decreases specs@.len() - i,
    {
        let spec = &specs[i];
        let ghost t1 = specs@.take(i + 1);
        assert(t1.drop_last() =~= specs@.take(i as int));
        assert(t1.last() == specs@[i as int]);
        let ghost before = nfas@;
        match parse_regex(spec.regex.as_str()) {
            Some(ast) => {
                proof {
                    lemma_parse_size(spec.regex@);
                }
                let nfa = NFA::from_ast(&ast);
                nfas.push((nfa, spec.name.clone(), priority));
                priority += 1;
                proof {
                    assert forall|k: int| 0 <= k < nfas@.len() implies {
                        &&& (#[trigger] nfas@[k]).0.wf()
                        &&& nfas@[k].1@ == parsed_specs(t1)[k].0
                        &&& nfas@[k].2 == k
                        &&& (edges_of(nfas@[k].0.states@), nfas@[k].0.start, nfas@[k].0.accepts@)
                            == build_spec(parsed_specs(t1)[k].1, seq![])
                    } by {
                        if k < before.len() {
                            assert(nfas@[k] == before[k]);
                        }
                    }
                }
            },
            None => {},
        }
        i += 1;
    }
    assert(specs@.take(specs@.len() as int) =~= specs@);
    nfas
}

} // verus!
