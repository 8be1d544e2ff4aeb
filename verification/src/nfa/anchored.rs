//! Patterns with anchors: what a whole pattern matches when it begins with `^`, ends with
//! `$`, or both, and the proof that the automaton built from a pattern accepts exactly that.

use vstd::prelude::*;
use crate::regex::node::{RegexChar, RegexBinOp, AstNodeImpl};
use crate::regex::model::RegexTree;
use crate::nfa::state::{StateId, State, Edge, edges_of};
use crate::nfa::builder::{Graph, build_spec, tree_size, add_edge, add_from_all, is_start, is_end};
use crate::nfa::closure::{eps_step, eps_path, eps_closure, move_set};
use crate::nfa::simulator::{label_matches, start_states, run, final_states, accepts_text};
use crate::nfa::language::{trace_ok, plain, lang, grown_at, extends, inert,
    lemma_trace_cons, lemma_trace_concat, lemma_trace_extends, lemma_trace_leaves, lemma_trace_stays,
    lemma_build_frame, lemma_build_lang, lemma_add_edge, lemma_add_from_all};
use crate::nfa::run_paths::{no_edge_on, lemma_eps_path_trace, lemma_run_complete, lemma_run_sound,
    lemma_run_closed, lemma_final_split, lemma_build_anchor_free, lemma_no_move,
    lemma_accepts_text_paths};
use crate::nfa::language::{has_extra, lemma_plain_not_anchor};
use crate::nfa::nfa::NFA;
use crate::nfa::tail::{end_tail, tail_lang, lemma_tail_pattern, lemma_prefix_tail_pattern};

verus! {

/// A state whose only transition is on the start anchor, to `s1`.
pub open spec fn anchor_entry(g: Seq<State>, st: StateId, s1: StateId) -> bool {
    0 <= st.0 < g.len() && g[st.0 as int].transitions@ == seq![(Some(RegexChar::Start), s1)]
}

/// The automaton starting at such a state starts there and in the closure of `s1`.
proof fn lemma_start_at_entry(g: Seq<State>, st: StateId, s1: StateId)
    requires
        anchor_entry(g, st, s1),
    ensures
        start_states(g, st) == set![st] + eps_closure(g, set![s1]),
{
    let c0 = eps_closure(g, set![st]);
    let tr = g[st.0 as int].transitions@;
    assert forall|t: StateId| c0.contains(t) implies t == st by {
        let p = choose|p: Seq<StateId>| #[trigger] eps_path(g, p) && set![st].contains(p[0]) && p.last() == t;
        if p.len() > 1 {
            assert(eps_step(g, p[0], p[1]));
            let k = choose|k: int| 0 <= k < tr.len() && tr[k] == (None::<RegexChar>, p[1]);
            assert(tr[k] == tr[0]);
        }
    }
    let one = seq![st];
    assert(eps_path(g, one));
    assert(set![st].contains(one[0]));
    assert(c0 =~= set![st]);
    let m = move_set(g, c0, RegexChar::Start);
    assert(tr[0] == (Some(RegexChar::Start), s1));
    assert(g[st.0 as int].has_edge(Some(RegexChar::Start), s1));
    assert forall|t: StateId| m.contains(t) implies t == s1 by {
        let s = choose|s: StateId| c0.contains(s) && 0 <= s.0 < g.len() && #[trigger] g[s.0 as int].has_edge(Some(RegexChar::Start), t);
        assert(s == st);
        let k = choose|k: int| 0 <= k < tr.len() && tr[k] == (Some(RegexChar::Start), t);
        assert(k == 0);
    }
    assert(m.contains(s1));
    assert(m =~= set![s1]);
}

/// With the start state an anchor entry to `s1`, a state reached after `w` is the start
/// state itself (before any character) or ends a trace reading `w` from `s1`.
pub proof fn lemma_run_from_entry(g: Seq<State>, st: StateId, s1: StateId, w: Seq<char>, q: StateId)
    requires
        anchor_entry(g, st, s1),
        run(g, st, w).contains(q),
    ensures
        (q == st && w.len() == 0) || exists|tr: Seq<int>| #[trigger] trace_ok(edges_of(g), s1, w, q, tr),
{
    let eg = edges_of(g);
    lemma_start_at_entry(g, st, s1);
    lemma_run_sound(g, st, w, q);
    let (p, t2) = choose|p: StateId, tr: Seq<int>| start_states(g, st).contains(p) && #[trigger] trace_ok(eg, p, w, q, tr);
    if p == st {
        assert(eg[st.0 as int] == g[st.0 as int].transitions@);
        if t2.len() > 0 {
            assert(t2[0] == 0);
            assert(!label_matches(Some(RegexChar::Start), w[0]));
        }
    } else {
        assert(eps_closure(g, set![s1]).contains(p));
        let pp = choose|pp: Seq<StateId>| #[trigger] eps_path(g, pp) && set![s1].contains(pp[0]) && pp.last() == p;
        lemma_eps_path_trace(g, pp);
        let t1 = choose|tr: Seq<int>| #[trigger] trace_ok(eg, pp[0], seq![], pp.last(), tr);
        lemma_trace_concat(eg, s1, seq![], p, t1, w, q, t2);
        assert(Seq::<char>::empty() + w =~= w);
        assert(trace_ok(eg, s1, w, q, t1 + t2));
    }
}

/// `s1` is among the states an automaton starting at an anchor entry to `s1` starts in.
pub proof fn lemma_entry_target_starts(g: Seq<State>, st: StateId, s1: StateId)
    requires
        anchor_entry(g, st, s1),
    ensures
        start_states(g, st).contains(s1),
{
    lemma_start_at_entry(g, st, s1);
    let one = seq![s1];
    assert(eps_path(g, one));
    assert(set![s1].contains(one[0]));
}

/// Growing a graph on all its states only at the end extends it.
pub proof fn lemma_grown_extends(g: Graph, h: Graph, acc: Seq<StateId>)
    requires
        grown_at(g, h, 0, g.len() as int, acc),
    ensures
        extends(g, h),
{
}

/// The automaton of `^e$`: the texts of `e`, exactly.
proof fn lemma_pattern_exact(il: RegexTree, g: Seq<State>, w: Seq<char>)
    requires
        plain(il),
        3 * tree_size(il) + 2 <= usize::MAX,
        ({
            let t = RegexTree::BinOp(RegexBinOp::Concat, Box::new(RegexTree::Char(RegexChar::Start)),
                Box::new(RegexTree::BinOp(RegexBinOp::Concat, Box::new(il), Box::new(RegexTree::Char(RegexChar::End)))));
            edges_of(g) == build_spec(t, seq![]).0
        }),
    ensures
        ({
            let t = RegexTree::BinOp(RegexBinOp::Concat, Box::new(RegexTree::Char(RegexChar::Start)),
                Box::new(RegexTree::BinOp(RegexBinOp::Concat, Box::new(il), Box::new(RegexTree::Char(RegexChar::End)))));
            accepts_text(g, build_spec(t, seq![]).1, build_spec(t, seq![]).2, w) == lang(il, w)
        }),
{
    let t = RegexTree::BinOp(RegexBinOp::Concat, Box::new(RegexTree::Char(RegexChar::Start)),
        Box::new(RegexTree::BinOp(RegexBinOp::Concat, Box::new(il), Box::new(RegexTree::Char(RegexChar::End)))));
    let g0 = Seq::<Seq<crate::nfa::state::Edge>>::empty();
    assert(seq![] =~= g0);
    lemma_build_frame(il, g0);
    lemma_build_anchor_free(il, g0);
    let (g1, s1, a1) = build_spec(il, g0);
    let n1 = g1.len() as int;
    let st = StateId(n1 as usize);
    let en = StateId((n1 + 1) as usize);
    let gp = g1.push(seq![]).push(seq![]);
    lemma_add_edge(gp, st, (Some(RegexChar::Start), s1));
    let g2 = add_edge(gp, st, (Some(RegexChar::Start), s1));
    lemma_add_from_all(g2, a1, (Some(RegexChar::End), en));
    let eg = add_from_all(g2, a1, (Some(RegexChar::End), en));
    assert(is_start(RegexTree::Char(RegexChar::Start)));
    assert(is_end(RegexTree::Char(RegexChar::End)));
    assert(build_spec(t, g0) == (eg, st, seq![en]));
    assert(edges_of(g) == eg);
    let acc = seq![en];
    // the shape of the automaton
    assert(eg[n1] =~= seq![(Some(RegexChar::Start), s1)]) by {
        assert(g2[n1] == seq![(Some(RegexChar::Start), s1)]);
        if eg[n1].len() > g2[n1].len() {
            let i = choose|i: int| 0 <= i < a1.len() && a1[i] == st;
            assert(a1[i].0 < n1);
        }
    }
    assert(g[st.0 as int].transitions@ == eg[n1]);
    assert(anchor_entry(g, st, s1));
    assert(grown_at(g1, eg, 0, n1, a1)) by {
        assert forall|x: int| 0 <= x < n1 implies g1[x].len() <= (#[trigger] eg[x]).len() by {
            assert(g2[x] == g1[x]);
        }
        assert forall|x: int, k: int| 0 <= x < n1 && 0 <= k < g1[x].len() implies (#[trigger] eg[x][k]) == g1[x][k] by {
            assert(g2[x] == g1[x]);
        }
        assert forall|x: int| 0 <= x < n1 && g1[x].len() < (#[trigger] eg[x]).len() implies a1.contains(StateId(x as usize)) by {
            assert(g2[x] == g1[x]);
        }
        assert forall|x: int, k: int| 0 <= x < n1 && g1[x].len() <= k < eg[x].len() implies
            (#[trigger] eg[x][k]).0 is None || inert(eg[x][k].0) by {
            assert(g2[x] == g1[x]);
        }
    }
    lemma_grown_extends(g1, eg, a1);
    lemma_run_closed(g, st, w);
    let r = run(g, st, w);
    lemma_final_split(g, r);
    if accepts_text(g, st, acc, w) {
        let s = choose|s: StateId| #[trigger] final_states(g, r).contains(s) && acc.contains(s);
        assert(s == en);
        if r.contains(en) {
            lemma_run_from_entry(g, st, s1, w, en);
            let tr = choose|tr: Seq<int>| #[trigger] trace_ok(eg, s1, w, en, tr);
            lemma_trace_leaves(g1, eg, 0, n1, a1, s1, w, en, tr);
            if trace_ok(g1, s1, w, en, tr) {
                lemma_trace_stays(g1, g1, 0, n1, s1, w, en, tr);
            }
        } else {
            let m = move_set(g, r, RegexChar::End);
            assert(eps_closure(g, m).contains(en));
            let pp = choose|pp: Seq<StateId>| #[trigger] eps_path(g, pp) && m.contains(pp[0]) && pp.last() == en;
            let x = choose|x: StateId| r.contains(x) && 0 <= x.0 < g.len() && #[trigger] g[x.0 as int].has_edge(Some(RegexChar::End), pp[0]);
            let k = choose|k: int| 0 <= k < g[x.0 as int].transitions@.len() && g[x.0 as int].transitions@[k] == (Some(RegexChar::End), pp[0]);
            assert(eg[x.0 as int] == g[x.0 as int].transitions@);
            lemma_run_from_entry(g, st, s1, w, x);
            if x == st {
                assert(eg[n1][k] == eg[n1][0]);
            } else {
                let tr = choose|tr: Seq<int>| #[trigger] trace_ok(eg, s1, w, x, tr);
                lemma_trace_leaves(g1, eg, 0, n1, a1, s1, w, x, tr);
                assert(trace_ok(g1, s1, w, x, tr));
                lemma_trace_stays(g1, g1, 0, n1, s1, w, x, tr);
                let xi = x.0 as int;
                if k < g1[xi].len() {
                    assert(eg[xi][k] == g1[xi][k]);
                    assert(g1[xi][k].0 == Some(RegexChar::End));
                }
                assert(a1.contains(x));
                let i = choose|i: int| 0 <= i < a1.len() && a1[i] == x;
                assert(trace_ok(g1, s1, w, a1[i], tr));
                lemma_build_lang(il, g0, w);
            }
        }
    }
    if lang(il, w) {
        lemma_build_lang(il, g0, w);
        let (i, tr) = choose|i: int, tr: Seq<int>| 0 <= i < a1.len() && #[trigger] trace_ok(g1, s1, w, a1[i], tr);
        lemma_trace_extends(g1, eg, s1, w, a1[i], tr);
        lemma_entry_target_starts(g, st, s1);
        lemma_run_complete(g, st, w, s1, a1[i], tr);
        let a = a1[i];
        assert(crate::nfa::language::has_extra(g2, eg, a.0 as int, (Some(RegexChar::End), en)));
        let kk = choose|kk: int| g2[a.0 as int].len() <= kk < eg[a.0 as int].len() && #[trigger] eg[a.0 as int][kk] == (Some(RegexChar::End), en);
        assert(g[a.0 as int].transitions@[kk] == (Some(RegexChar::End), en));
        assert(g[a.0 as int].has_edge(Some(RegexChar::End), en));
        let m = move_set(g, r, RegexChar::End);
        assert(m.contains(en));
        let one = seq![en];
        assert(eps_path(g, one));
        assert(m.contains(one[0]));
        assert(eps_closure(g, m).contains(en));
        assert(final_states(g, r).contains(en));
        assert(acc.contains(en));
    }
}

/// No character of the text is a line feed.
pub open spec fn no_newline(v: Seq<char>) -> bool {
    forall|i: int| 0 <= i < v.len() ==> #[trigger] v[i] != '\n'
}

/// A state with a dot transition back to itself reads, in a loop, every text without a line
/// feed.
pub proof fn lemma_any_loop(eg: Graph, x: StateId, idx: int, v: Seq<char>)
    requires
        0 <= x.0 < eg.len(),
        0 <= idx < eg[x.0 as int].len(),
        eg[x.0 as int][idx] == (Some(RegexChar::Any), x),
        no_newline(v),
    ensures
        exists|tr: Seq<int>| #[trigger] trace_ok(eg, x, v, x, tr),
    decreases v.len(),
{
    if v.len() == 0 {
        assert(trace_ok(eg, x, v, x, seq![]));
    } else {
        assert(v[0] != '\n');
        assert forall|i: int| 0 <= i < v.drop_first().len() implies #[trigger] v.drop_first()[i] != '\n' by {
            assert(v.drop_first()[i] == v[i + 1]);
        }
        lemma_any_loop(eg, x, idx, v.drop_first());
        let tr = choose|tr: Seq<int>| #[trigger] trace_ok(eg, x, v.drop_first(), x, tr);
        lemma_trace_cons(eg, x, idx, v, x, tr);
    }
}

/// From the two dot states of the `^e` construction, which lead on the dot only to the second,
/// every trace reads a text without a line feed.
proof fn lemma_dot_trace(eg: Graph, ds: StateId, da: StateId, p: StateId, w: Seq<char>, q: StateId, tr: Seq<int>)
    requires
        0 <= ds.0 < eg.len(),
        0 <= da.0 < eg.len(),
        eg[ds.0 as int] == seq![(Some(RegexChar::Any), da)],
        eg[da.0 as int] == seq![(Some(RegexChar::Any), da)],
        p == ds || p == da,
        trace_ok(eg, p, w, q, tr),
    ensures
        no_newline(w),
    decreases tr.len(),
{
    if tr.len() > 0 {
        assert(tr[0] == 0);
        assert(eg[p.0 as int][0] == (Some(RegexChar::Any), da));
        assert(w[0] != '\n');
        lemma_dot_trace(eg, ds, da, da, w.drop_first(), q, tr.drop_first());
        assert forall|i: int| 0 <= i < w.len() implies #[trigger] w[i] != '\n' by {
            if i > 0 {
                assert(w[i] == w.drop_first()[i - 1]);
            }
        }
    }
}

/// A state outside the list keeps its transitions when transitions are added to each state
/// of the list.
pub proof fn lemma_outside_unchanged(g: Graph, srcs: Seq<StateId>, e: Edge, x: int, lim: int)
    requires
        g.len() <= usize::MAX,
        forall|i: int| 0 <= i < srcs.len() ==> 0 <= (#[trigger] srcs[i]).0 < lim,
        lim <= x < g.len(),
    ensures
        add_from_all(g, srcs, e)[x] == g[x],
{
    lemma_add_from_all(g, srcs, e);
    let h = add_from_all(g, srcs, e);
    if h[x].len() > g[x].len() {
        let i = choose|i: int| 0 <= i < srcs.len() && srcs[i] == StateId(x as usize);
        assert(srcs[i].0 < lim);
    }
    assert(h[x] =~= g[x]);
}

/// The automaton of `^e` (where `e` does not end with `$`): a text of `e` followed by any
/// characters other than a line feed.
proof fn lemma_pattern_prefix(r: RegexTree, g: Seq<State>, w: Seq<char>)
    requires
        plain(r),
        3 * tree_size(r) + 3 <= usize::MAX,
        ({
            let t = RegexTree::BinOp(RegexBinOp::Concat, Box::new(RegexTree::Char(RegexChar::Start)), Box::new(r));
            edges_of(g) == build_spec(t, seq![]).0
        }),
    ensures
        ({
            let t = RegexTree::BinOp(RegexBinOp::Concat, Box::new(RegexTree::Char(RegexChar::Start)), Box::new(r));
            accepts_text(g, build_spec(t, seq![]).1, build_spec(t, seq![]).2, w)
                == exists|k: int| 0 <= k <= w.len() && #[trigger] lang(r, w.subrange(0, k))
                    && no_newline(w.subrange(k, w.len() as int))
        }),
{
    let t = RegexTree::BinOp(RegexBinOp::Concat, Box::new(RegexTree::Char(RegexChar::Start)), Box::new(r));
    let g0 = Seq::<Seq<Edge>>::empty();
    assert(seq![] =~= g0);
    lemma_build_frame(r, g0);
    lemma_build_anchor_free(r, g0);
    let (g1, s1, a1) = build_spec(r, g0);
    let n1 = g1.len() as int;
    let ds = StateId(n1 as usize);
    let da = StateId((n1 + 1) as usize);
    let st = StateId((n1 + 2) as usize);
    let gp = g1.push(seq![]).push(seq![]);
    lemma_add_edge(gp, ds, (Some(RegexChar::Any), da));
    let gq = add_edge(gp, ds, (Some(RegexChar::Any), da));
    lemma_add_edge(gq, da, (Some(RegexChar::Any), da));
    let g2 = add_edge(gq, da, (Some(RegexChar::Any), da));
    lemma_add_edge(g2.push(seq![]), st, (Some(RegexChar::Start), s1));
    let g3 = add_edge(g2.push(seq![]), st, (Some(RegexChar::Start), s1));
    lemma_add_from_all(g3, a1, (None, ds));
    let eg = add_from_all(g3, a1, (None, ds));
    let acc = a1.push(da);
    assert(is_start(RegexTree::Char(RegexChar::Start)));
    match r {
        RegexTree::BinOp(RegexBinOp::Concat, il, ir) => {
            lemma_plain_not_anchor(*ir);
        },
        _ => {},
    }
    assert(build_spec(t, g0) == (eg, st, acc));
    assert(edges_of(g) == eg);
    // the shape of the automaton
    assert forall|i: int| 0 <= i < a1.len() implies 0 <= (#[trigger] a1[i]).0 < n1 by {}
    lemma_outside_unchanged(g3, a1, (None, ds), n1, n1);
    lemma_outside_unchanged(g3, a1, (None, ds), n1 + 1, n1);
    lemma_outside_unchanged(g3, a1, (None, ds), n1 + 2, n1);
    assert(eg[n1] =~= seq![(Some(RegexChar::Any), da)]);
    assert(eg[n1 + 1] =~= seq![(Some(RegexChar::Any), da)]);
    assert(eg[n1 + 2] =~= seq![(Some(RegexChar::Start), s1)]);
    assert(g[st.0 as int].transitions@ == eg[n1 + 2]);
    assert(anchor_entry(g, st, s1));
    assert(grown_at(g1, eg, 0, n1, a1)) by {
        assert forall|x: int| 0 <= x < n1 implies #[trigger] g3[x] == g1[x] by {
            assert(g2[x] == g1[x]);
        }
    }
    lemma_grown_extends(g1, eg, a1);
    assert(no_edge_on(eg, RegexChar::End)) by {
        assert forall|x: int, k: int| 0 <= x < eg.len() && 0 <= k < eg[x].len() implies (#[trigger] eg[x][k]).0 != Some(RegexChar::End) by {
            if x < n1 {
                assert(g3[x] == g1[x]);
                if k < g1[x].len() {
                    assert(eg[x][k] == g1[x][k]);
                }
            }
        }
    }
    let r0 = run(g, st, w);
    lemma_run_closed(g, st, w);
    lemma_final_split(g, r0);
    lemma_no_move(g, r0, RegexChar::End);
    assert(eps_closure(g, Set::<StateId>::empty()) =~= Set::<StateId>::empty());
    assert(final_states(g, r0) =~= r0);
    if accepts_text(g, st, acc, w) {
        let s = choose|s: StateId| #[trigger] final_states(g, r0).contains(s) && acc.contains(s);
        let j = choose|j: int| 0 <= j < acc.len() && acc[j] == s;
        lemma_run_from_entry(g, st, s1, w, s);
        if s == st {
            if j < a1.len() {
                assert(acc[j] == a1[j]);
            }
        } else {
            let tr = choose|tr: Seq<int>| #[trigger] trace_ok(eg, s1, w, s, tr);
            lemma_trace_leaves(g1, eg, 0, n1, a1, s1, w, s, tr);
            if trace_ok(g1, s1, w, s, tr) {
                lemma_trace_stays(g1, g1, 0, n1, s1, w, s, tr);
                assert(j < a1.len());
                assert(acc[j] == a1[j]);
                assert(trace_ok(g1, s1, w, a1[j], tr));
                lemma_build_lang(r, g0, w);
                assert(w.subrange(0, w.len() as int) =~= w);
                assert(lang(r, w.subrange(0, w.len() as int)));
                assert(w.subrange(w.len() as int, w.len() as int) =~= Seq::<char>::empty());
                assert(no_newline(w.subrange(w.len() as int, w.len() as int)));
            } else {
                let (w1, a, t1, k2, w2, t2) = choose|w1: Seq<char>, a: StateId, t1: Seq<int>, k2: int, w2: Seq<char>, t2: Seq<int>|
                    #![trigger trace_ok(g1, s1, w1, a, t1), trace_ok(eg, eg[a.0 as int][k2].1, w2, s, t2)]
                    w == w1 + w2 && a1.contains(a) && 0 <= a.0 < n1 && trace_ok(g1, s1, w1, a, t1)
                    && g1[a.0 as int].len() <= k2 < eg[a.0 as int].len()
                    && eg[a.0 as int][k2].0 is None && trace_ok(eg, eg[a.0 as int][k2].1, w2, s, t2) && t2.len() < tr.len();
                let i = choose|i: int| 0 <= i < a1.len() && a1[i] == a;
                assert(trace_ok(g1, s1, w1, a1[i], t1));
                lemma_build_lang(r, g0, w1);
                assert(w.subrange(0, w1.len() as int) =~= w1);
                assert(lang(r, w.subrange(0, w1.len() as int)));
                assert(eg[a.0 as int][k2].1 == ds);
                lemma_dot_trace(eg, ds, da, ds, w2, s, t2);
                assert(w.subrange(w1.len() as int, w.len() as int) =~= w2);
            }
        }
    }
    if exists|k: int| 0 <= k <= w.len() && #[trigger] lang(r, w.subrange(0, k))
        && no_newline(w.subrange(k, w.len() as int)) {
        let k = choose|k: int| 0 <= k <= w.len() && #[trigger] lang(r, w.subrange(0, k))
            && no_newline(w.subrange(k, w.len() as int));
        let u = w.subrange(0, k);
        let v = w.subrange(k, w.len() as int);
        lemma_build_lang(r, g0, u);
        let (i, tu) = choose|i: int, tr: Seq<int>| 0 <= i < a1.len() && #[trigger] trace_ok(g1, s1, u, a1[i], tr);
        let a = a1[i];
        lemma_trace_extends(g1, eg, s1, u, a, tu);
        lemma_entry_target_starts(g, st, s1);
        if k == w.len() {
            assert(u =~= w);
            lemma_run_complete(g, st, w, s1, a, tu);
            assert(acc[i] == a);
            assert(acc.contains(a));
            assert(final_states(g, r0).contains(a));
        } else {
            assert(has_extra(g3, eg, a.0 as int, (None, ds)));
            let kk = choose|kk: int| g3[a.0 as int].len() <= kk < eg[a.0 as int].len() && #[trigger] eg[a.0 as int][kk] == (None::<RegexChar>, ds);
            assert forall|i: int| 0 <= i < v.drop_first().len() implies #[trigger] v.drop_first()[i] != '\n' by {
                assert(v.drop_first()[i] == v[i + 1]);
            }
            lemma_any_loop(eg, da, 0, v.drop_first());
            let tl = choose|tr: Seq<int>| #[trigger] trace_ok(eg, da, v.drop_first(), da, tr);
            assert(v[0] != '\n');
            lemma_trace_cons(eg, ds, 0, v, da, tl);
            lemma_trace_cons(eg, a, kk, v, da, seq![0int] + tl);
            lemma_trace_concat(eg, s1, u, a, tu, v, da, seq![kk] + (seq![0int] + tl));
            assert(u + v =~= w);
            lemma_run_complete(g, st, w, s1, da, tu + (seq![kk] + (seq![0int] + tl)));
            assert(acc[a1.len() as int] == da);
            assert(acc.contains(da));
            assert(final_states(g, r0).contains(da));
        }
    }
}

/// The texts a whole pattern matches: for `^e$` the texts of `e`; for `^e` a text of `e`
/// followed by any characters other than a line feed, or, where `e` is itself a tail ending
/// with `$`, what the tail reads; for a tail (`e$`, or `e` followed by a tail) what it reads
/// with its `$` at the end of the text (see `tail_lang`); for any other pattern the texts of
/// its language.
pub open spec fn pattern_lang(t: RegexTree, w: Seq<char>) -> bool {
    match t {
        RegexTree::BinOp(RegexBinOp::Concat, l, r) => {
            if is_start(*l) {
                match *r {
                    RegexTree::BinOp(RegexBinOp::Concat, il, ir) if is_end(*ir) => lang(*il, w),
                    _ => if end_tail(*r) {
                        tail_lang(*r, w)
                    } else {
                        exists|k: int| 0 <= k <= w.len() && #[trigger] lang(*r, w.subrange(0, k))
                            && no_newline(w.subrange(k, w.len() as int))
                    },
                }
            } else if end_tail(t) {
                tail_lang(t, w)
            } else {
                lang(t, w)
            }
        },
        _ => lang(t, w),
    }
}

/// A pattern whose anchors are at most a leading `^` and one `$` ending its right spine of
/// concatenations, in the places `pattern_lang` reads them.
pub open spec fn pattern_plain(t: RegexTree) -> bool {
    match t {
        RegexTree::BinOp(RegexBinOp::Concat, l, r) => {
            if is_start(*l) {
                match *r {
                    RegexTree::BinOp(RegexBinOp::Concat, il, ir) if is_end(*ir) => plain(*il),
                    _ => plain(*r) || end_tail(*r),
                }
            } else {
                plain(t) || end_tail(t)
            }
        },
        _ => plain(t),
    }
}

/// The automaton of a pattern without anchors accepts exactly the texts of its language.
proof fn lemma_pattern_plain_tree(t: RegexTree, g: Seq<State>, start: StateId, acc: Seq<StateId>, w: Seq<char>)
    requires
        plain(t),
        3 * tree_size(t) <= usize::MAX,
        (edges_of(g), start, acc) == build_spec(t, seq![]),
    ensures
        accepts_text(g, start, acc, w) == lang(t, w),
{
    let g0 = Seq::<Seq<Edge>>::empty();
    assert(seq![] =~= g0);
    lemma_build_lang(t, g0, w);
    lemma_build_anchor_free(t, g0);
    lemma_accepts_text_paths(g, start, acc, w);
}

/// Thompson's construction is correct: the automaton built from a regular expression
/// accepts a text exactly when the pattern matches it (see `pattern_lang`), for every
/// pattern whose anchors are at most a leading `^` and a `$` ending its right spine.
pub proof fn lemma_nfa_accepts_pattern(ast: AstNodeImpl, nfa: NFA, w: Seq<char>)
    requires
        pattern_plain(ast.model()),
        3 * tree_size(ast.model()) <= usize::MAX,
        (edges_of(nfa.states@), nfa.start, nfa.accepts@) == build_spec(ast.model(), seq![]),
    ensures
        accepts_text(nfa.states@, nfa.start, nfa.accepts@, w) == pattern_lang(ast.model(), w),
{
    let t = ast.model();
    let g = nfa.states@;
    match t {
        RegexTree::BinOp(RegexBinOp::Concat, l, r) => {
            if is_start(*l) {
                assert(*l == RegexTree::Char(RegexChar::Start));
                match *r {
                    RegexTree::BinOp(RegexBinOp::Concat, il, ir) if is_end(*ir) => {
                        assert(*ir == RegexTree::Char(RegexChar::End));
                        assert(tree_size(*r) == 1 + tree_size(*il) + tree_size(*ir));
                        lemma_pattern_exact(*il, g, w);
                    },
                    _ => {
                        if end_tail(*r) {
                            lemma_prefix_tail_pattern(*r, g, w);
                        } else {
                            lemma_pattern_prefix(*r, g, w);
                        }
                    },
                }
            } else if end_tail(t) {
                lemma_tail_pattern(t, g, w);
            } else {
                lemma_pattern_plain_tree(t, g, nfa.start, nfa.accepts@, w);
            }
        },
        _ => lemma_pattern_plain_tree(t, g, nfa.start, nfa.accepts@, w),
    }
}

} // verus!
