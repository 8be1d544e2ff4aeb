//! The simulator's sets of states and paths through the transitions agree: where no
//! transition is on an anchor, the states reached after a text are exactly the ends of the
//! paths that read it from the start state.

use vstd::prelude::*;
use crate::regex::node::RegexChar;
use crate::nfa::state::{StateId, State, edges_of};
use crate::nfa::builder::Graph;
use crate::nfa::closure::{eps_step, eps_path, eps_reach, eps_closure, eps_closed, move_set,
    lemma_path_extend, lemma_closure_characterized, lemma_closed_contains_path};
use crate::nfa::simulator::{label_matches, lets_through, char_move, start_states, run, final_states, accepts_text};
use crate::nfa::language::{trace_ok, accepts_in, lemma_trace_cons, lemma_trace_concat, lemma_trace_split,
    plain, no_anchor, lemma_build_frame, lemma_add_edge, lemma_add_from_all,
    lemma_add_pair_from_all, lemma_plain_not_anchor};
use crate::nfa::builder::{build_spec, tree_size, char_labels, class_labels, labelled, add_edge, add_from_all,
    add_pair_from_all};
use crate::regex::model::RegexTree;
use crate::regex::node::{RegexBinOp, RegexUnOp};

verus! {

/// No transition of the graph is on the start or the end anchor.
pub open spec fn anchor_free(g: Graph) -> bool {
    forall|x: int, k: int| 0 <= x < g.len() && 0 <= k < g[x].len() ==>
        (#[trigger] g[x][k]).0 != Some(RegexChar::Start) && g[x][k].0 != Some(RegexChar::End)
}

/// A path of empty transitions is a trace reading nothing.
pub proof fn lemma_eps_path_trace(g: Seq<State>, p: Seq<StateId>)
    requires
        eps_path(g, p),
    ensures
        exists|tr: Seq<int>| #[trigger] trace_ok(edges_of(g), p[0], seq![], p.last(), tr),
    decreases p.len(),
{
    let eg = edges_of(g);
    if p.len() == 1 {
        assert(trace_ok(eg, p[0], seq![], p.last(), seq![]));
    } else {
        let rest = p.drop_first();
        assert forall|i: int| 0 <= i < rest.len() - 1 implies eps_step(g, #[trigger] rest[i], rest[i + 1]) by {
            assert(rest[i] == p[i + 1]);
            assert(rest[i + 1] == p[i + 2]);
            assert(eps_step(g, p[i + 1], p[i + 2]));
        }
        lemma_eps_path_trace(g, rest);
        let tr = choose|tr: Seq<int>| #[trigger] trace_ok(eg, rest[0], seq![], rest.last(), tr);
        assert(eps_step(g, p[0], p[1]));
        let k = choose|k: int| 0 <= k < g[p[0].0 as int].transitions@.len()
            && g[p[0].0 as int].transitions@[k] == (None::<RegexChar>, p[1]);
        assert(eg[p[0].0 as int] == g[p[0].0 as int].transitions@);
        assert(rest[0] == p[1]);
        assert(rest.last() == p.last());
        lemma_trace_cons(eg, p[0], k, seq![], p.last(), tr);
    }
}

/// A trace reading nothing follows empty transitions only.
pub proof fn lemma_trace_eps_reach(g: Seq<State>, p: StateId, q: StateId, tr: Seq<int>)
    requires
        trace_ok(edges_of(g), p, seq![], q, tr),
    ensures
        eps_reach(g, set![p], q),
    decreases tr.len(),
{
    let eg = edges_of(g);
    if tr.len() == 0 {
        let pp = seq![p];
        assert(eps_path(g, pp));
        assert(set![p].contains(pp[0]));
    } else {
        let k = tr[0];
        let e = eg[p.0 as int][k];
        assert(e.0 is None);
        lemma_trace_eps_reach(g, e.1, q, tr.drop_first());
        let pp = choose|pp: Seq<StateId>| #[trigger] eps_path(g, pp) && set![e.1].contains(pp[0]) && pp.last() == q;
        let np = seq![p] + pp;
        assert(eg[p.0 as int] == g[p.0 as int].transitions@);
        assert(g[p.0 as int].transitions@[k] == (None::<RegexChar>, e.1));
        assert(g[p.0 as int].has_edge(None, e.1));
        assert forall|i: int| 0 <= i < np.len() - 1 implies eps_step(g, #[trigger] np[i], np[i + 1]) by {
            if i == 0 {
                assert(np[0] == p);
                assert(np[1] == pp[0]);
            } else {
                assert(np[i] == pp[i - 1]);
                assert(np[i + 1] == pp[i]);
                assert(eps_step(g, pp[i - 1], pp[i]));
            }
        }
        assert(eps_path(g, np));
        assert(np[0] == p);
        assert(np.last() == pp.last());
        assert(set![p].contains(np[0]));
    }
}

/// A closure is closed under empty transitions.
pub proof fn lemma_closure_closed(g: Seq<State>, x: Set<StateId>)
    ensures
        eps_closed(g, eps_closure(g, x)),
{
    assert forall|s: StateId, t: StateId| eps_closure(g, x).contains(s) && #[trigger] eps_step(g, s, t)
        implies eps_closure(g, x).contains(t) by {
        let p = choose|p: Seq<StateId>| #[trigger] eps_path(g, p) && x.contains(p[0]) && p.last() == s;
        lemma_path_extend(g, p, t);
        assert(eps_path(g, p.push(t)));
    }
}

/// The states the automaton starts in are closed under empty transitions.
proof fn lemma_start_closed(g: Seq<State>, start: StateId)
    ensures
        eps_closed(g, start_states(g, start)),
{
    let c0 = eps_closure(g, set![start]);
    let c1 = eps_closure(g, move_set(g, c0, RegexChar::Start));
    lemma_closure_closed(g, set![start]);
    lemma_closure_closed(g, move_set(g, c0, RegexChar::Start));
    assert forall|s: StateId, t: StateId| (c0 + c1).contains(s) && #[trigger] eps_step(g, s, t)
        implies (c0 + c1).contains(t) by {
        if c0.contains(s) {
            assert(c0.contains(t));
        } else {
            assert(c1.contains(t));
        }
    }
}

/// The states reached after a text are closed under empty transitions.
pub proof fn lemma_run_closed(g: Seq<State>, start: StateId, w: Seq<char>)
    ensures
        eps_closed(g, run(g, start, w)),
{
    if w.len() == 0 {
        lemma_start_closed(g, start);
    } else {
        lemma_closure_closed(g, char_move(g, run(g, start, w.drop_last()), w.last()));
    }
}

/// From a closed set holding `m`, a trace reading one character `c` from `m` ends in the
/// closure of what `c` moves the set to.
pub proof fn lemma_step_complete(g: Seq<State>, s: Set<StateId>, m: StateId, c: char, q: StateId, tr: Seq<int>)
    requires
        eps_closed(g, s),
        s.contains(m),
        trace_ok(edges_of(g), m, seq![c], q, tr),
    ensures
        eps_closure(g, char_move(g, s, c)).contains(q),
    decreases tr.len(),
{
    let eg = edges_of(g);
    let k = tr[0];
    let e = eg[m.0 as int][k];
    assert(eg[m.0 as int] == g[m.0 as int].transitions@);
    match e.0 {
        None => {
            assert(g[m.0 as int].transitions@[k] == (None::<RegexChar>, e.1));
            assert(g[m.0 as int].has_edge(None, e.1));
            assert(eps_step(g, m, e.1));
            lemma_step_complete(g, s, e.1, c, q, tr.drop_first());
        },
        Some(l) => {
            assert(seq![c].drop_first() =~= Seq::<char>::empty());
            assert(seq![c][0] == c);
            assert(label_matches(Some(l), c));
            assert(lets_through(g[m.0 as int], c, e.1));
            assert(char_move(g, s, c).contains(e.1));
            lemma_trace_eps_reach(g, e.1, q, tr.drop_first());
            let pp = choose|pp: Seq<StateId>| #[trigger] eps_path(g, pp) && set![e.1].contains(pp[0]) && pp.last() == q;
            assert(char_move(g, s, c).contains(pp[0]));
            assert(eps_reach(g, char_move(g, s, c), q));
        },
    }
}

/// The end of every trace reading `w` from a state the automaton starts in is among the
/// states reached after `w`.
pub proof fn lemma_run_complete(g: Seq<State>, start: StateId, w: Seq<char>, p: StateId, q: StateId, tr: Seq<int>)
    requires
        start_states(g, start).contains(p),
        trace_ok(edges_of(g), p, w, q, tr),
    ensures
        run(g, start, w).contains(q),
    decreases w.len(),
{
    let eg = edges_of(g);
    if w.len() == 0 {
        assert(w =~= Seq::<char>::empty());
        lemma_trace_eps_reach(g, p, q, tr);
        let pp = choose|pp: Seq<StateId>| #[trigger] eps_path(g, pp) && set![p].contains(pp[0]) && pp.last() == q;
        lemma_start_closed(g, start);
        lemma_closed_contains_path(g, start_states(g, start), pp);
    } else {
        let pre = w.drop_last();
        let c = w.last();
        assert(w =~= pre + seq![c]);
        lemma_trace_split(eg, p, pre, seq![c], q, tr);
        let (m, t1, t2) = choose|m: StateId, t1: Seq<int>, t2: Seq<int>| #[trigger] trace_ok(eg, p, pre, m, t1) && #[trigger] trace_ok(eg, m, seq![c], q, t2);
        lemma_run_complete(g, start, pre, p, m, t1);
        lemma_run_closed(g, start, pre);
        lemma_step_complete(g, run(g, start, pre), m, c, q, t2);
    }
}

/// No transition of the graph is on `sym`.
pub open spec fn no_edge_on(g: Graph, sym: RegexChar) -> bool {
    forall|x: int, k: int| 0 <= x < g.len() && 0 <= k < g[x].len() ==> (#[trigger] g[x][k]).0 != Some(sym)
}

/// Without transitions on `sym`, nothing is reached on it.
pub proof fn lemma_no_move(g: Seq<State>, x: Set<StateId>, sym: RegexChar)
    requires
        no_edge_on(edges_of(g), sym),
    ensures
        move_set(g, x, sym) == Set::<StateId>::empty(),
{
    let eg = edges_of(g);
    assert forall|t: StateId| !move_set(g, x, sym).contains(t) by {
        if move_set(g, x, sym).contains(t) {
            let s = choose|s: StateId| x.contains(s) && 0 <= s.0 < g.len() && #[trigger] g[s.0 as int].has_edge(Some(sym), t);
            let k = choose|k: int| 0 <= k < g[s.0 as int].transitions@.len() && g[s.0 as int].transitions@[k] == (Some(sym), t);
            assert(eg[s.0 as int] == g[s.0 as int].transitions@);
            assert(eg[s.0 as int][k].0 == Some(sym));
        }
    }
    assert(move_set(g, x, sym) =~= Set::<StateId>::empty());
}

/// Without start-anchor transitions, the automaton starts in the closure of its start state.
pub proof fn lemma_start_without_anchor(g: Seq<State>, start: StateId)
    requires
        no_edge_on(edges_of(g), RegexChar::Start),
    ensures
        start_states(g, start) == eps_closure(g, set![start]),
{
    let c0 = eps_closure(g, set![start]);
    lemma_no_move(g, c0, RegexChar::Start);
    assert(eps_closure(g, move_set(g, c0, RegexChar::Start)) =~= Set::<StateId>::empty());
    assert(start_states(g, start) =~= c0);
}

/// Every state reached after `w` ends some trace reading `w` from a state the automaton
/// starts in.
pub proof fn lemma_run_sound(g: Seq<State>, start: StateId, w: Seq<char>, q: StateId)
    requires
        run(g, start, w).contains(q),
    ensures
        exists|p: StateId, tr: Seq<int>| start_states(g, start).contains(p) && #[trigger] trace_ok(edges_of(g), p, w, q, tr),
    decreases w.len(),
{
    let eg = edges_of(g);
    if w.len() == 0 {
        assert(trace_ok(eg, q, w, q, seq![]));
    } else {
        let pre = w.drop_last();
        let c = w.last();
        let r = run(g, start, pre);
        let pp = choose|pp: Seq<StateId>| #[trigger] eps_path(g, pp) && char_move(g, r, c).contains(pp[0]) && pp.last() == q;
        let b = pp[0];
        let s = choose|s: StateId| r.contains(s) && 0 <= s.0 < g.len() && #[trigger] lets_through(g[s.0 as int], c, b);
        let k = choose|k: int| 0 <= k < g[s.0 as int].transitions@.len() && (#[trigger] g[s.0 as int].transitions@[k]).1 == b
            && label_matches(g[s.0 as int].transitions@[k].0, c);
        lemma_run_sound(g, start, pre, s);
        let (p, t1) = choose|p: StateId, tr: Seq<int>| start_states(g, start).contains(p) && #[trigger] trace_ok(eg, p, pre, s, tr);
        lemma_eps_path_trace(g, pp);
        let t3 = choose|tr: Seq<int>| #[trigger] trace_ok(eg, b, seq![], q, tr);
        assert(eg[s.0 as int] == g[s.0 as int].transitions@);
        let lab = eg[s.0 as int][k].0;
        assert(lab is Some) by {
            if lab is None {
                assert(!label_matches(lab, c));
            }
        }
        assert(seq![c].drop_first() =~= Seq::<char>::empty());
        assert(seq![c][0] == c);
        lemma_trace_cons(eg, s, k, seq![c], q, t3);
        lemma_trace_concat(eg, p, pre, s, t1, seq![c], q, seq![k] + t3);
        assert(pre + seq![c] =~= w);
        assert(trace_ok(eg, p, w, q, t1 + (seq![k] + t3)));
    }
}

/// After the end of the text the automaton is in the states reached, and in the closure of
/// what an end-anchor transition reaches from them.
pub proof fn lemma_final_split(g: Seq<State>, r: Set<StateId>)
    requires
        eps_closed(g, r),
    ensures
        final_states(g, r) == r + eps_closure(g, move_set(g, r, RegexChar::End)),
{
    assert forall|t: StateId| r.contains(t) implies eps_reach(g, r, t) by {
        let p = seq![t];
        assert(eps_path(g, p));
    }
    lemma_closure_characterized(g, r, r);
    let m = move_set(g, r, RegexChar::End);
    let u = r + m;
    let f = final_states(g, r);
    assert(f == eps_closure(g, u));
    assert forall|t: StateId| f.contains(t) implies (r + eps_closure(g, m)).contains(t) by {
        let pp = choose|pp: Seq<StateId>| #[trigger] eps_path(g, pp) && u.contains(pp[0]) && pp.last() == t;
        if r.contains(pp[0]) {
            lemma_closed_contains_path(g, r, pp);
        } else {
            assert(m.contains(pp[0]));
            assert(eps_reach(g, m, t));
        }
    }
    assert forall|t: StateId| (r + eps_closure(g, m)).contains(t) implies f.contains(t) by {
        if r.contains(t) {
            let p = seq![t];
            assert(eps_path(g, p));
            assert(u.contains(p[0]));
        } else {
            let pp = choose|pp: Seq<StateId>| #[trigger] eps_path(g, pp) && m.contains(pp[0]) && pp.last() == t;
            assert(u.contains(pp[0]));
        }
    }
    assert(f =~= r + eps_closure(g, m));
}

/// With no transition on an anchor, the simulator accepts a text exactly when some trace
/// reads it from the start state to an accepting state.
pub proof fn lemma_accepts_text_paths(g: Seq<State>, start: StateId, acc: Seq<StateId>, w: Seq<char>)
    requires
        anchor_free(edges_of(g)),
    ensures
        accepts_text(g, start, acc, w) == accepts_in(edges_of(g), start, acc, w),
{
    let eg = edges_of(g);
    let r = run(g, start, w);
    assert(no_edge_on(eg, RegexChar::Start));
    assert(no_edge_on(eg, RegexChar::End));
    lemma_run_closed(g, start, w);
    lemma_final_split(g, r);
    lemma_no_move(g, r, RegexChar::End);
    assert(eps_closure(g, Set::<StateId>::empty()) =~= Set::<StateId>::empty());
    assert(final_states(g, r) =~= r);
    lemma_start_without_anchor(g, start);
    if accepts_text(g, start, acc, w) {
        let s = choose|s: StateId| #[trigger] final_states(g, r).contains(s) && acc.contains(s);
        lemma_run_sound(g, start, w, s);
        let (p, t2) = choose|p: StateId, tr: Seq<int>| start_states(g, start).contains(p) && #[trigger] trace_ok(eg, p, w, s, tr);
        let pp = choose|pp: Seq<StateId>| #[trigger] eps_path(g, pp) && set![start].contains(pp[0]) && pp.last() == p;
        lemma_eps_path_trace(g, pp);
        let t1 = choose|tr: Seq<int>| #[trigger] trace_ok(eg, pp[0], seq![], pp.last(), tr);
        lemma_trace_concat(eg, start, seq![], p, t1, w, s, t2);
        assert(Seq::<char>::empty() + w =~= w);
        let i = choose|i: int| 0 <= i < acc.len() && acc[i] == s;
        assert(trace_ok(eg, start, w, acc[i], t1 + t2));
    }
    if accepts_in(eg, start, acc, w) {
        let (i, tr) = choose|i: int, tr: Seq<int>| 0 <= i < acc.len() && #[trigger] trace_ok(eg, start, w, acc[i], tr);
        let p0 = seq![start];
        assert(eps_path(g, p0));
        assert(set![start].contains(p0[0]));
        assert(start_states(g, start).contains(start));
        lemma_run_complete(g, start, w, start, acc[i], tr);
        assert(final_states(g, r).contains(acc[i]));
        assert(acc.contains(acc[i]));
    }
}

/// A leaf's transitions are on its labels; none is an anchor when the labels are not.
proof fn lemma_leaf_anchor_free(g: Graph, labels: Seq<RegexChar>)
    requires
        anchor_free(g),
        no_anchor(labels),
    ensures
        anchor_free(g.push(labelled(labels, StateId((g.len() + 1) as usize))).push(seq![])),
{
    let a = StateId((g.len() + 1) as usize);
    let h = g.push(labelled(labels, a)).push(seq![]);
    assert forall|x: int, k: int| 0 <= x < h.len() && 0 <= k < h[x].len() implies
        (#[trigger] h[x][k]).0 != Some(RegexChar::Start) && h[x][k].0 != Some(RegexChar::End) by {
        if x == g.len() {
            assert(h[x] == labelled(labels, a));
            assert(h[x][k] == (Some(labels[k]), a));
            assert(labels.contains(labels[k]));
        } else {
            assert(x < g.len());
            assert(h[x] == g[x]);
        }
    }
}

/// Adding an empty transition keeps a graph free of anchor transitions.
proof fn lemma_add_edge_anchor_free(g: Graph, from: StateId, to: StateId)
    requires
        anchor_free(g),
        0 <= from.0 < g.len(),
    ensures
        anchor_free(add_edge(g, from, (None, to))),
{
    lemma_add_edge(g, from, (None, to));
    let h = add_edge(g, from, (None, to));
    assert forall|x: int, k: int| 0 <= x < h.len() && 0 <= k < h[x].len() implies
        (#[trigger] h[x][k]).0 != Some(RegexChar::Start) && h[x][k].0 != Some(RegexChar::End) by {
        if x == from.0 && k == g[x].len() {
            assert(h[x][k] == (None::<RegexChar>, to));
        } else if x == from.0 {
            assert(h[x][k] == g[x][k]);
        } else {
            assert(h[x] == g[x]);
        }
    }
}

/// Adding an empty transition to each state of a list keeps a graph free of anchor
/// transitions.
proof fn lemma_add_from_all_anchor_free(g: Graph, srcs: Seq<StateId>, to: StateId)
    requires
        anchor_free(g),
        g.len() <= usize::MAX,
        forall|i: int| 0 <= i < srcs.len() ==> 0 <= (#[trigger] srcs[i]).0 < g.len(),
    ensures
        anchor_free(add_from_all(g, srcs, (None, to))),
{
    lemma_add_from_all(g, srcs, (None, to));
    let h = add_from_all(g, srcs, (None, to));
    assert forall|x: int, k: int| 0 <= x < h.len() && 0 <= k < h[x].len() implies
        (#[trigger] h[x][k]).0 != Some(RegexChar::Start) && h[x][k].0 != Some(RegexChar::End) by {
        if k < g[x].len() {
            assert(h[x][k] == g[x][k]);
        } else {
            assert(h[x][k] == (None::<RegexChar>, to));
        }
    }
}

/// Adding two empty transitions to each state of a list keeps a graph free of anchor
/// transitions.
proof fn lemma_add_pair_anchor_free(g: Graph, srcs: Seq<StateId>, t1: StateId, t2: StateId)
    requires
        anchor_free(g),
        g.len() <= usize::MAX,
        forall|i: int| 0 <= i < srcs.len() ==> 0 <= (#[trigger] srcs[i]).0 < g.len(),
    ensures
        anchor_free(add_pair_from_all(g, srcs, (None, t1), (None, t2))),
{
    lemma_add_pair_from_all(g, srcs, (None, t1), (None, t2));
    let h = add_pair_from_all(g, srcs, (None, t1), (None, t2));
    assert forall|x: int, k: int| 0 <= x < h.len() && 0 <= k < h[x].len() implies
        (#[trigger] h[x][k]).0 != Some(RegexChar::Start) && h[x][k].0 != Some(RegexChar::End) by {
        if k < g[x].len() {
            assert(h[x][k] == g[x][k]);
        } else {
            assert(h[x][k] == (None::<RegexChar>, t1) || h[x][k] == (None::<RegexChar>, t2));
        }
    }
}

/// A graph with one more state, without transitions, is free of anchor transitions if the
/// first one is.
proof fn lemma_push_anchor_free(g: Graph)
    requires
        anchor_free(g),
    ensures
        anchor_free(g.push(seq![])),
{
    let h = g.push(seq![]);
    assert forall|x: int, k: int| 0 <= x < h.len() && 0 <= k < h[x].len() implies
        (#[trigger] h[x][k]).0 != Some(RegexChar::Start) && h[x][k].0 != Some(RegexChar::End) by {
        assert(x < g.len());
        assert(h[x] == g[x]);
    }
}

/// Building a plain tree adds no transition on an anchor.
pub proof fn lemma_build_anchor_free(t: RegexTree, g: Graph)
    requires
        plain(t),
        anchor_free(g),
        g.len() + 3 * tree_size(t) <= usize::MAX,
    ensures
        anchor_free(build_spec(t, g).0),
    decreases t,
{
    match t {
        RegexTree::Char(c) => lemma_leaf_anchor_free(g, char_labels(c)),
        RegexTree::Class(cm) => lemma_leaf_anchor_free(g, class_labels(cm)),
        RegexTree::Group(e) => lemma_build_anchor_free(*e, g),
        RegexTree::UnOp(op, e) => {
            lemma_build_anchor_free(*e, g);
            lemma_build_frame(*e, g);
            let (g1, s, acc) = build_spec(*e, g);
            let st = StateId(g1.len() as usize);
            match op {
                RegexUnOp::Star => {
                    lemma_push_anchor_free(g1);
                    lemma_add_pair_anchor_free(g1.push(seq![]), acc, s, st);
                    lemma_add_pair_from_all(g1.push(seq![]), acc, (None, s), (None, st));
                    lemma_add_edge_anchor_free(add_pair_from_all(g1.push(seq![]), acc, (None, s), (None, st)), st, s);
                },
                RegexUnOp::Plus => {
                    lemma_add_from_all_anchor_free(g1, acc, s);
                },
                RegexUnOp::Optional => {
                    lemma_push_anchor_free(g1);
                    lemma_add_edge_anchor_free(g1.push(seq![]), st, s);
                },
            }
        },
        RegexTree::BinOp(op, l, r) => {
            lemma_build_anchor_free(*l, g);
            lemma_build_frame(*l, g);
            let (g1, s1, a1) = build_spec(*l, g);
            lemma_build_anchor_free(*r, g1);
            lemma_build_frame(*r, g1);
            let (g2, s2, a2) = build_spec(*r, g1);
            match op {
                RegexBinOp::Or => {
                    let st = StateId(g2.len() as usize);
                    lemma_push_anchor_free(g2);
                    lemma_add_edge_anchor_free(g2.push(seq![]), st, s1);
                    lemma_add_edge(g2.push(seq![]), st, (None, s1));
                    lemma_add_edge_anchor_free(add_edge(g2.push(seq![]), st, (None, s1)), st, s2);
                },
                RegexBinOp::Concat => {
                    lemma_plain_not_anchor(*l);
                    lemma_plain_not_anchor(*r);
                    assert forall|i: int| 0 <= i < a1.len() implies 0 <= (#[trigger] a1[i]).0 < g2.len() by {
                        assert(a1[i].0 < g1.len());
                    }
                    lemma_add_from_all_anchor_free(g2, a1, s2);
                },
            }
        },
    }
}

} // verus!
