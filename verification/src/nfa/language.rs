//! The language of a regular-expression tree, and paths through the transitions of an
//! automaton under construction: the automaton built from a tree accepts exactly the texts of
//! the tree's language.

use vstd::prelude::*;
use crate::regex::node::RegexChar;
use crate::nfa::state::{StateId, Edge};
use crate::nfa::builder::{Graph, build_spec, tree_size, char_labels, class_labels, leaf_spec, labelled,
    add_edge, add_from_all, add_pair_from_all, is_start, is_end};
use crate::regex::model::RegexTree;
use crate::regex::node::{RegexBinOp, RegexUnOp};
use crate::nfa::simulator::label_matches;

verus! {

/// Taking, from `p`, the transitions numbered `tr` in turn reads `w` and ends at `q`: an empty
/// transition reads nothing, a labelled one reads one character its label lets through.
pub open spec fn trace_ok(g: Graph, p: StateId, w: Seq<char>, q: StateId, tr: Seq<int>) -> bool
    decreases tr.len(),
{
    if tr.len() == 0 {
        p == q && w.len() == 0
    } else {
        let k = tr[0];
        &&& 0 <= p.0 < g.len()
        &&& 0 <= k < g[p.0 as int].len()
        &&& match g[p.0 as int][k].0 {
            None => trace_ok(g, g[p.0 as int][k].1, w, q, tr.drop_first()),
            Some(l) => w.len() > 0 && label_matches(Some(l), w[0])
                && trace_ok(g, g[p.0 as int][k].1, w.drop_first(), q, tr.drop_first()),
        }
    }
}

/// Reading `w` can lead from `p` to `q`.
pub open spec fn path(g: Graph, p: StateId, w: Seq<char>, q: StateId) -> bool {
    exists|tr: Seq<int>| #[trigger] trace_ok(g, p, w, q, tr)
}

/// One more step at the front of a trace.
pub proof fn lemma_trace_cons(g: Graph, p: StateId, k: int, w: Seq<char>, q: StateId, tr: Seq<int>)
    requires
        0 <= p.0 < g.len(),
        0 <= k < g[p.0 as int].len(),
        g[p.0 as int][k].0 is None ==> trace_ok(g, g[p.0 as int][k].1, w, q, tr),
        g[p.0 as int][k].0 is Some ==> w.len() > 0 && label_matches(g[p.0 as int][k].0, w[0])
            && trace_ok(g, g[p.0 as int][k].1, w.drop_first(), q, tr),
    ensures
        trace_ok(g, p, w, q, seq![k] + tr),
{
    let t = seq![k] + tr;
    assert(t.drop_first() =~= tr);
    assert(t[0] == k);
}

/// Traces one after the other read one word after the other.
pub proof fn lemma_trace_concat(g: Graph, p: StateId, w1: Seq<char>, m: StateId, t1: Seq<int>, w2: Seq<char>, q: StateId, t2: Seq<int>)
    requires
        trace_ok(g, p, w1, m, t1),
        trace_ok(g, m, w2, q, t2),
    ensures
        trace_ok(g, p, w1 + w2, q, t1 + t2),
    decreases t1.len(),
{
    if t1.len() == 0 {
        assert(w1 + w2 =~= w2);
        assert(t1 + t2 =~= t2);
    } else {
        let k = t1[0];
        let e = g[p.0 as int][k];
        assert((t1 + t2).drop_first() =~= t1.drop_first() + t2);
        match e.0 {
            None => {
                lemma_trace_concat(g, e.1, w1, m, t1.drop_first(), w2, q, t2);
            },
            Some(l) => {
                lemma_trace_concat(g, e.1, w1.drop_first(), m, t1.drop_first(), w2, q, t2);
                assert((w1 + w2).drop_first() =~= w1.drop_first() + w2);
                assert((w1 + w2)[0] == w1[0]);
            },
        }
    }
}

/// A trace reading `w1` then `w2` passes, between them, through some state.
pub proof fn lemma_trace_split(g: Graph, p: StateId, w1: Seq<char>, w2: Seq<char>, q: StateId, tr: Seq<int>)
    requires
        trace_ok(g, p, w1 + w2, q, tr),
    ensures
        exists|m: StateId, t1: Seq<int>, t2: Seq<int>| #[trigger] trace_ok(g, p, w1, m, t1) && #[trigger] trace_ok(g, m, w2, q, t2),
    decreases tr.len(),
{
    if w1.len() == 0 {
        assert(w1 + w2 =~= w2);
        assert(trace_ok(g, p, w1, p, seq![]));
    } else {
        assert(tr.len() > 0);
        let k = tr[0];
        let e = g[p.0 as int][k];
        match e.0 {
            None => {
                lemma_trace_split(g, e.1, w1, w2, q, tr.drop_first());
                let (m, t1, t2) = choose|m: StateId, t1: Seq<int>, t2: Seq<int>| #[trigger] trace_ok(g, e.1, w1, m, t1) && #[trigger] trace_ok(g, m, w2, q, t2);
                lemma_trace_cons(g, p, k, w1, m, t1);
            },
            Some(l) => {
                assert((w1 + w2).drop_first() =~= w1.drop_first() + w2);
                assert((w1 + w2)[0] == w1[0]);
                lemma_trace_split(g, e.1, w1.drop_first(), w2, q, tr.drop_first());
                let (m, t1, t2) = choose|m: StateId, t1: Seq<int>, t2: Seq<int>| #[trigger] trace_ok(g, e.1, w1.drop_first(), m, t1) && #[trigger] trace_ok(g, m, w2, q, t2);
                lemma_trace_cons(g, p, k, w1, m, t1);
            },
        }
    }
}

/// `h` holds every state of `g` with at least its transitions, in the same order.
pub open spec fn extends(g: Graph, h: Graph) -> bool {
    &&& g.len() <= h.len()
    &&& forall|x: int| 0 <= x < g.len() ==> g[x].len() <= (#[trigger] h[x]).len()
    &&& forall|x: int, k: int| 0 <= x < g.len() && 0 <= k < g[x].len() ==> (#[trigger] h[x][k]) == g[x][k]
}

/// A trace through `g` is one through any graph that extends it.
pub proof fn lemma_trace_extends(g: Graph, h: Graph, p: StateId, w: Seq<char>, q: StateId, tr: Seq<int>)
    requires
        trace_ok(g, p, w, q, tr),
        extends(g, h),
    ensures
        trace_ok(h, p, w, q, tr),
    decreases tr.len(),
{
    if tr.len() > 0 {
        let k = tr[0];
        let e = g[p.0 as int][k];
        assert(h[p.0 as int][k] == e);
        match e.0 {
            None => lemma_trace_extends(g, h, e.1, w, q, tr.drop_first()),
            Some(_) => lemma_trace_extends(g, h, e.1, w.drop_first(), q, tr.drop_first()),
        }
    }
}

/// `extends` chains.
pub proof fn lemma_extends_trans(a: Graph, b: Graph, c: Graph)
    requires
        extends(a, b),
        extends(b, c),
    ensures
        extends(a, c),
{
    assert forall|x: int, k: int| 0 <= x < a.len() && 0 <= k < a[x].len() implies (#[trigger] c[x][k]) == a[x][k] by {
        assert(b[x][k] == a[x][k]);
        assert(c[x][k] == b[x][k]);
    }
    assert forall|x: int| 0 <= x < a.len() implies a[x].len() <= (#[trigger] c[x]).len() by {
        assert(a[x].len() <= b[x].len());
        assert(b[x].len() <= c[x].len());
    }
}

/// The states `lo` to `hi` (excluded) only have transitions among themselves.
pub open spec fn closed(g: Graph, lo: int, hi: int) -> bool {
    &&& 0 <= lo <= hi <= g.len()
    &&& forall|x: int, k: int| lo <= x < hi && 0 <= k < g[x].len() ==> lo <= (#[trigger] g[x][k]).1.0 < hi
}

/// A label no character passes: the start or the end anchor.
pub open spec fn inert(l: Option<RegexChar>) -> bool {
    l == Some(RegexChar::Start) || l == Some(RegexChar::End)
}

/// On the states `lo` to `hi` (excluded), `h` has the transitions of `g` followed, only for
/// the states of `acc`, by further transitions, each empty or on an anchor.
pub open spec fn grown_at(g: Graph, h: Graph, lo: int, hi: int, acc: Seq<StateId>) -> bool {
    &&& hi <= g.len()
    &&& hi <= h.len()
    &&& forall|x: int| lo <= x < hi ==> g[x].len() <= (#[trigger] h[x]).len()
    &&& forall|x: int, k: int| lo <= x < hi && 0 <= k < g[x].len() ==> (#[trigger] h[x][k]) == g[x][k]
    &&& forall|x: int| lo <= x < hi && g[x].len() < (#[trigger] h[x]).len() ==> acc.contains(StateId(x as usize))
    &&& forall|x: int, k: int| lo <= x < hi && g[x].len() <= k < h[x].len() ==> (#[trigger] h[x][k]).0 is None || inert(h[x][k].0)
}

/// A trace through `h` from a state of a region closed in `g`, where `h` adds only empty or
/// anchor transitions out of the states of `acc`, either is a trace through `g`, or goes
/// through `g` to a state of `acc`, takes one of the added empty transitions, and goes on
/// through `h`.
pub proof fn lemma_trace_leaves(g: Graph, h: Graph, lo: int, hi: int, acc: Seq<StateId>, p: StateId, w: Seq<char>, q: StateId, tr: Seq<int>)
    requires
        closed(g, lo, hi),
        grown_at(g, h, lo, hi, acc),
        lo <= p.0 < hi,
        trace_ok(h, p, w, q, tr),
    ensures
        trace_ok(g, p, w, q, tr) || exists|w1: Seq<char>, a: StateId, t1: Seq<int>, k: int, w2: Seq<char>, t2: Seq<int>|
            #![trigger trace_ok(g, p, w1, a, t1), trace_ok(h, h[a.0 as int][k].1, w2, q, t2)]
            w == w1 + w2 && acc.contains(a) && lo <= a.0 < hi && trace_ok(g, p, w1, a, t1)
            && g[a.0 as int].len() <= k < h[a.0 as int].len()
            && h[a.0 as int][k].0 is None && trace_ok(h, h[a.0 as int][k].1, w2, q, t2) && t2.len() < tr.len(),
    decreases tr.len(),
{
    if tr.len() > 0 {
        let k = tr[0];
        let x = p.0 as int;
        let e = h[x][k];
        if k < g[x].len() {
            assert(g[x][k] == e);
            assert(lo <= e.1.0 < hi);
            let w_next = if e.0 is None { w } else { w.drop_first() };
            lemma_trace_leaves(g, h, lo, hi, acc, e.1, w_next, q, tr.drop_first());
            if trace_ok(g, e.1, w_next, q, tr.drop_first()) {
                lemma_trace_cons(g, p, k, w, q, tr.drop_first());
                assert(seq![k] + tr.drop_first() =~= tr);
            } else {
                let (w1, a, t1, k2, w2, t2) = choose|w1: Seq<char>, a: StateId, t1: Seq<int>, k2: int, w2: Seq<char>, t2: Seq<int>|
                    #![trigger trace_ok(g, e.1, w1, a, t1), trace_ok(h, h[a.0 as int][k2].1, w2, q, t2)]
                    w_next == w1 + w2 && acc.contains(a) && lo <= a.0 < hi && trace_ok(g, e.1, w1, a, t1)
                    && g[a.0 as int].len() <= k2 < h[a.0 as int].len()
                    && h[a.0 as int][k2].0 is None && trace_ok(h, h[a.0 as int][k2].1, w2, q, t2) && t2.len() < tr.drop_first().len();
                match e.0 {
                    None => {
                        lemma_trace_cons(g, p, k, w1, a, t1);
                        assert(trace_ok(g, p, w1, a, seq![k] + t1));
                    },
                    Some(_) => {
                        let w1b = seq![w[0]] + w1;
                        assert(w1b.drop_first() =~= w1);
                        assert(w.len() > 0);
                        assert(w.drop_first() == w1 + w2);
                        assert(w =~= seq![w[0]] + w.drop_first());
                        assert(w1b + w2 =~= seq![w[0]] + (w1 + w2));
                        assert(w =~= w1b + w2);
                        lemma_trace_cons(g, p, k, w1b, a, t1);
                        assert(trace_ok(g, p, w1b, a, seq![k] + t1));
                    },
                }
            }
        } else {
            assert(acc.contains(p));
            assert(e.0 is None) by {
                if e.0 is Some {
                    assert(inert(e.0));
                    assert(!label_matches(e.0, w[0]));
                }
            }
            assert(trace_ok(g, p, seq![], p, seq![]));
            assert(w =~= Seq::<char>::empty() + w);
            assert(trace_ok(h, h[x][k].1, w, q, tr.drop_first()));
        }
    }
}

/// A trace through `h` from a state of a region closed in `g`, where `h` has the same
/// transitions there, stays in the region and is a trace through `g`.
pub proof fn lemma_trace_stays(g: Graph, h: Graph, lo: int, hi: int, p: StateId, w: Seq<char>, q: StateId, tr: Seq<int>)
    requires
        closed(g, lo, hi),
        hi <= h.len(),
        forall|x: int| lo <= x < hi ==> (#[trigger] h[x]) == g[x],
        lo <= p.0 < hi,
        trace_ok(h, p, w, q, tr),
    ensures
        trace_ok(g, p, w, q, tr),
        lo <= q.0 < hi,
    decreases tr.len(),
{
    if tr.len() > 0 {
        let k = tr[0];
        let x = p.0 as int;
        assert(h[x] == g[x]);
        let e = g[x][k];
        assert(lo <= e.1.0 < hi);
        match e.0 {
            None => lemma_trace_stays(g, h, lo, hi, e.1, w, q, tr.drop_first()),
            Some(_) => lemma_trace_stays(g, h, lo, hi, e.1, w.drop_first(), q, tr.drop_first()),
        }
    }
}

/// Labels that are neither the start nor the end anchor.
pub open spec fn no_anchor(labels: Seq<RegexChar>) -> bool {
    !labels.contains(RegexChar::Start) && !labels.contains(RegexChar::End)
}

/// A tree none of whose characters or classes is an anchor.
pub open spec fn plain(t: RegexTree) -> bool
    decreases t,
{
    match t {
        RegexTree::Char(c) => no_anchor(char_labels(c)),
        RegexTree::Class(cm) => no_anchor(class_labels(cm)),
        RegexTree::Group(e) => plain(*e),
        RegexTree::UnOp(_, e) => plain(*e),
        RegexTree::BinOp(_, l, r) => plain(*l) && plain(*r),
    }
}

/// Adding one transition keeps the other states and appends to one.
pub proof fn lemma_add_edge(g: Graph, from: StateId, e: Edge)
    requires
        0 <= from.0 < g.len(),
    ensures
        add_edge(g, from, e).len() == g.len(),
        add_edge(g, from, e)[from.0 as int] == g[from.0 as int].push(e),
        forall|x: int| 0 <= x < g.len() && x != from.0 ==> #[trigger] add_edge(g, from, e)[x] == g[x],
{
}

/// State `x` has, after its transitions in `g`, the transition `e` in `h`.
pub open spec fn has_extra(g: Graph, h: Graph, x: int, e: Edge) -> bool {
    exists|k: int| g[x].len() <= k < h[x].len() && #[trigger] h[x][k] == e
}

/// Adding a transition to each state of a list appends copies of it to those states only,
/// and to each of them at least once.
pub proof fn lemma_add_from_all(g: Graph, srcs: Seq<StateId>, e: Edge)
    requires
        g.len() <= usize::MAX,
        forall|i: int| 0 <= i < srcs.len() ==> 0 <= (#[trigger] srcs[i]).0 < g.len(),
    ensures
        ({
            let h = add_from_all(g, srcs, e);
            &&& h.len() == g.len()
            &&& forall|x: int| 0 <= x < g.len() ==> g[x].len() <= (#[trigger] h[x]).len()
            &&& forall|x: int, k: int| 0 <= x < g.len() && 0 <= k < g[x].len() ==> (#[trigger] h[x][k]) == g[x][k]
            &&& forall|x: int, k: int| 0 <= x < g.len() && g[x].len() <= k < h[x].len() ==> (#[trigger] h[x][k]) == e
            &&& forall|x: int| 0 <= x < g.len() && g[x].len() < (#[trigger] h[x]).len() ==> srcs.contains(StateId(x as usize))
            &&& forall|i: int| 0 <= i < srcs.len() ==> has_extra(g, h, (#[trigger] srcs[i]).0 as int, e)
        }),
    decreases srcs.len(),
{
    if srcs.len() > 0 {
        let rest = srcs.drop_last();
        let a = srcs.last();
        lemma_add_from_all(g, rest, e);
        let h0 = add_from_all(g, rest, e);
        let h = add_from_all(g, srcs, e);
        lemma_add_edge(h0, a, e);
        assert(h == add_edge(h0, a, e));
        assert forall|x: int| 0 <= x < g.len() implies g[x].len() <= (#[trigger] h[x]).len() by {
            if x != a.0 {
                assert(h[x] == h0[x]);
            }
        }
        assert forall|x: int, k: int| 0 <= x < g.len() && 0 <= k < g[x].len() implies (#[trigger] h[x][k]) == g[x][k] by {
            if x == a.0 {
                assert(h[x][k] == h0[x][k]);
            } else {
                assert(h[x] == h0[x]);
            }
        }
        assert forall|x: int, k: int| 0 <= x < g.len() && g[x].len() <= k < h[x].len() implies (#[trigger] h[x][k]) == e by {
            if x == a.0 {
                if k < h0[x].len() {
                    assert(h[x][k] == h0[x][k]);
                }
            } else {
                assert(h[x] == h0[x]);
            }
        }
        assert forall|x: int| 0 <= x < g.len() && g[x].len() < (#[trigger] h[x]).len() implies srcs.contains(StateId(x as usize)) by {
            if x == a.0 {
                assert(srcs[srcs.len() - 1] == a);
                assert(StateId(x as usize) == a);
            } else {
                assert(h[x] == h0[x]);
                assert(rest.contains(StateId(x as usize)));
                let j = choose|j: int| 0 <= j < rest.len() && rest[j] == StateId(x as usize);
                assert(srcs[j] == rest[j]);
            }
        }
        assert forall|i: int| 0 <= i < srcs.len() implies has_extra(g, h, (#[trigger] srcs[i]).0 as int, e) by {
            let y = srcs[i].0 as int;
            if i == srcs.len() - 1 {
                let k = h0[y].len() as int;
                assert(h[y][k] == e);
            } else {
                assert(rest[i] == srcs[i]);
                assert(has_extra(g, h0, rest[i].0 as int, e));
                let k = choose|k: int| g[y].len() <= k < h0[y].len() && #[trigger] h0[y][k] == e;
                if y == a.0 {
                    assert(h[y][k] == h0[y][k]);
                } else {
                    assert(h[y] == h0[y]);
                }
            }
        }
    }
}

/// Adding two transitions to each state of a list appends copies of them to those states
/// only, and both to each of them.
pub proof fn lemma_add_pair_from_all(g: Graph, srcs: Seq<StateId>, e1: Edge, e2: Edge)
    requires
        g.len() <= usize::MAX,
        forall|i: int| 0 <= i < srcs.len() ==> 0 <= (#[trigger] srcs[i]).0 < g.len(),
    ensures
        ({
            let h = add_pair_from_all(g, srcs, e1, e2);
            &&& h.len() == g.len()
            &&& forall|x: int| 0 <= x < g.len() ==> g[x].len() <= (#[trigger] h[x]).len()
            &&& forall|x: int, k: int| 0 <= x < g.len() && 0 <= k < g[x].len() ==> (#[trigger] h[x][k]) == g[x][k]
            &&& forall|x: int, k: int| 0 <= x < g.len() && g[x].len() <= k < h[x].len() ==> (#[trigger] h[x][k]) == e1 || h[x][k] == e2
            &&& forall|x: int| 0 <= x < g.len() && g[x].len() < (#[trigger] h[x]).len() ==> srcs.contains(StateId(x as usize))
            &&& forall|i: int| 0 <= i < srcs.len() ==> has_extra(g, h, (#[trigger] srcs[i]).0 as int, e1)
            &&& forall|i: int| 0 <= i < srcs.len() ==> has_extra(g, h, (#[trigger] srcs[i]).0 as int, e2)
        }),
    decreases srcs.len(),
{
    if srcs.len() > 0 {
        let rest = srcs.drop_last();
        let a = srcs.last();
        lemma_add_pair_from_all(g, rest, e1, e2);
        let h0 = add_pair_from_all(g, rest, e1, e2);
        let h1 = add_edge(h0, a, e1);
        let h = add_pair_from_all(g, srcs, e1, e2);
        lemma_add_edge(h0, a, e1);
        lemma_add_edge(h1, a, e2);
        assert(h == add_edge(h1, a, e2));
        assert forall|x: int| 0 <= x < g.len() implies g[x].len() <= (#[trigger] h[x]).len() by {
            if x != a.0 {
                assert(h[x] == h0[x]);
            }
        }
        assert forall|x: int, k: int| 0 <= x < g.len() && 0 <= k < g[x].len() implies (#[trigger] h[x][k]) == g[x][k] by {
            if x == a.0 {
                assert(h[x][k] == h0[x][k]);
            } else {
                assert(h[x] == h0[x]);
            }
        }
        assert forall|x: int| 0 <= x < g.len() && g[x].len() < (#[trigger] h[x]).len() implies srcs.contains(StateId(x as usize)) by {
            if x == a.0 {
                assert(srcs[srcs.len() - 1] == a);
                assert(StateId(x as usize) == a);
            } else {
                assert(h[x] == h0[x]);
                assert(rest.contains(StateId(x as usize)));
                let j = choose|j: int| 0 <= j < rest.len() && rest[j] == StateId(x as usize);
                assert(srcs[j] == rest[j]);
            }
        }
        assert forall|x: int, k: int| 0 <= x < g.len() && g[x].len() <= k < h[x].len() implies (#[trigger] h[x][k]) == e1 || h[x][k] == e2 by {
            if x == a.0 {
                if k < h0[x].len() {
                    assert(h[x][k] == h0[x][k]);
                }
            } else {
                assert(h[x] == h0[x]);
            }
        }
        assert forall|i: int| 0 <= i < srcs.len() implies has_extra(g, h, (#[trigger] srcs[i]).0 as int, e1) by {
            let y = srcs[i].0 as int;
            if i == srcs.len() - 1 {
                let k = h0[y].len() as int;
                assert(h[y][k] == e1);
            } else {
                assert(rest[i] == srcs[i]);
                assert(has_extra(g, h0, rest[i].0 as int, e1));
                let k = choose|k: int| g[y].len() <= k < h0[y].len() && #[trigger] h0[y][k] == e1;
                if y == a.0 {
                    assert(h[y][k] == h0[y][k]);
                } else {
                    assert(h[y] == h0[y]);
                }
            }
        }
        assert forall|i: int| 0 <= i < srcs.len() implies has_extra(g, h, (#[trigger] srcs[i]).0 as int, e2) by {
            let y = srcs[i].0 as int;
            if i == srcs.len() - 1 {
                let k = h0[y].len() + 1int;
                assert(h[y][k] == e2);
            } else {
                assert(rest[i] == srcs[i]);
                assert(has_extra(g, h0, rest[i].0 as int, e2));
                let k = choose|k: int| g[y].len() <= k < h0[y].len() && #[trigger] h0[y][k] == e2;
                if y == a.0 {
                    assert(h[y][k] == h0[y][k]);
                } else {
                    assert(h[y] == h0[y]);
                }
            }
        }
    }
}

/// What building a tree on `g` gives: new states after those of `g` (at most three per node),
/// the states of `g` untouched, a start and accepting states among the new ones, and
/// transitions from the new states only to new states.
pub open spec fn frame_ok(t: RegexTree, g: Graph) -> bool {
    let (g1, s, a) = build_spec(t, g);
    &&& g.len() < g1.len() <= g.len() + 3 * tree_size(t)
    &&& forall|x: int| 0 <= x < g.len() ==> #[trigger] g1[x] == g[x]
    &&& g.len() <= s.0 < g1.len()
    &&& forall|i: int| 0 <= i < a.len() ==> g.len() <= (#[trigger] a[i]).0 < g1.len()
    &&& closed(g1, g.len() as int, g1.len() as int)
}

/// A plain tree is not an anchor.
pub proof fn lemma_plain_not_anchor(t: RegexTree)
    requires
        plain(t),
    ensures
        !is_start(t),
        !is_end(t),
{
    match t {
        RegexTree::Char(c) => {
            if c == RegexChar::Start {
                assert(char_labels(c) == seq![c]);
                assert(char_labels(c)[0] == RegexChar::Start);
            }
            if c == RegexChar::End {
                assert(char_labels(c) == seq![c]);
                assert(char_labels(c)[0] == RegexChar::End);
            }
        },
        _ => {},
    }
}

/// Building a plain tree keeps to its frame (see `frame_ok`).
pub proof fn lemma_build_frame(t: RegexTree, g: Graph)
    requires
        plain(t),
        g.len() + 3 * tree_size(t) <= usize::MAX,
    ensures
        frame_ok(t, g),
    decreases t,
{
    let n = g.len() as int;
    match t {
        RegexTree::Char(c) => {
            let (g1, s, a) = build_spec(t, g);
            assert(g1 == g.push(labelled(char_labels(c), StateId((n + 1) as usize))).push(seq![]));
            assert forall|x: int, k: int| n <= x < g1.len() && 0 <= k < g1[x].len() implies n <= (#[trigger] g1[x][k]).1.0 < g1.len() by {
                assert(x == n);
            }
        },
        RegexTree::Class(cm) => {
            let (g1, s, a) = build_spec(t, g);
            assert(g1 == g.push(labelled(class_labels(cm), StateId((n + 1) as usize))).push(seq![]));
            assert forall|x: int, k: int| n <= x < g1.len() && 0 <= k < g1[x].len() implies n <= (#[trigger] g1[x][k]).1.0 < g1.len() by {
                assert(x == n);
            }
        },
        RegexTree::Group(e) => {
            lemma_build_frame(*e, g);
        },
        RegexTree::UnOp(op, e) => {
            lemma_build_frame(*e, g);
            let (g1, s, acc) = build_spec(*e, g);
            let m = g1.len() as int;
            match op {
                RegexUnOp::Star => {
                    let st = StateId(m as usize);
                    let gp = g1.push(seq![]);
                    lemma_add_pair_from_all(gp, acc, (None, s), (None, st));
                    let g2 = add_pair_from_all(gp, acc, (None, s), (None, st));
                    lemma_add_edge(g2, st, (None, s));
                    let g3 = add_edge(g2, st, (None, s));
                    assert forall|x: int| 0 <= x < n implies #[trigger] g3[x] == g[x] by {
                        assert(gp[x] == g1[x]);
                        assert(g2[x].len() == gp[x].len()) by {
                            if g2[x].len() > gp[x].len() {
                                assert(acc.contains(StateId(x as usize)));
                                let i = choose|i: int| 0 <= i < acc.len() && acc[i] == StateId(x as usize);
                                assert(acc[i].0 >= n);
                            }
                        }
                        assert(g2[x] =~= gp[x]);
                    }
                    assert forall|x: int, k: int| n <= x < g3.len() && 0 <= k < g3[x].len() implies n <= (#[trigger] g3[x][k]).1.0 < g3.len() by {
                        if x == m {
                            if k < g2[x].len() {
                                assert(g2[x][k] == (None::<RegexChar>, s) || g2[x][k] == (None::<RegexChar>, st));
                            }
                        } else if k < gp[x].len() {
                            assert(g3[x][k] == g2[x][k]);
                            assert(g2[x][k] == gp[x][k]);
                            assert(gp[x][k] == g1[x][k]);
                        } else {
                            assert(g3[x][k] == g2[x][k]);
                        }
                    }
                },
                RegexUnOp::Plus => {
                    lemma_add_from_all(g1, acc, (None, s));
                    let g2 = add_from_all(g1, acc, (None, s));
                    assert forall|x: int| 0 <= x < n implies #[trigger] g2[x] == g[x] by {
                        assert(g2[x].len() == g1[x].len()) by {
                            if g2[x].len() > g1[x].len() {
                                assert(acc.contains(StateId(x as usize)));
                                let i = choose|i: int| 0 <= i < acc.len() && acc[i] == StateId(x as usize);
                                assert(acc[i].0 >= n);
                            }
                        }
                        assert(g2[x] =~= g1[x]);
                    }
                    assert forall|x: int, k: int| n <= x < g2.len() && 0 <= k < g2[x].len() implies n <= (#[trigger] g2[x][k]).1.0 < g2.len() by {
                        if k < g1[x].len() {
                            assert(g2[x][k] == g1[x][k]);
                        }
                    }
                },
                RegexUnOp::Optional => {
                    let st = StateId(m as usize);
                    let gp = g1.push(seq![]);
                    lemma_add_edge(gp, st, (None, s));
                    let g2 = add_edge(gp, st, (None, s));
                    assert forall|x: int| 0 <= x < n implies #[trigger] g2[x] == g[x] by {
                        assert(gp[x] == g1[x]);
                    }
                    assert forall|x: int, k: int| n <= x < g2.len() && 0 <= k < g2[x].len() implies n <= (#[trigger] g2[x][k]).1.0 < g2.len() by {
                        if x < m {
                            assert(g2[x] == gp[x]);
                            assert(gp[x] == g1[x]);
                        }
                    }
                },
            }
        },
        RegexTree::BinOp(op, l, r) => {
            lemma_build_frame(*l, g);
            let (g1, s1, a1) = build_spec(*l, g);
            lemma_build_frame(*r, g1);
            let (g2, s2, a2) = build_spec(*r, g1);
            let m1 = g1.len() as int;
            let m2 = g2.len() as int;
            match op {
                RegexBinOp::Or => {
                    let st = StateId(m2 as usize);
                    let gp = g2.push(seq![]);
                    lemma_add_edge(gp, st, (None, s1));
                    let gq = add_edge(gp, st, (None, s1));
                    lemma_add_edge(gq, st, (None, s2));
                    let g3 = add_edge(gq, st, (None, s2));
                    assert forall|x: int| 0 <= x < n implies #[trigger] g3[x] == g[x] by {
                        assert(gp[x] == g2[x]);
                        assert(g2[x] == g1[x]);
                    }
                    assert forall|i: int| 0 <= i < (a1 + a2).len() implies n <= (#[trigger] (a1 + a2)[i]).0 < g3.len() by {
                        if i < a1.len() {
                            assert((a1 + a2)[i] == a1[i]);
                        } else {
                            assert((a1 + a2)[i] == a2[i - a1.len()]);
                        }
                    }
                    assert forall|x: int, k: int| n <= x < g3.len() && 0 <= k < g3[x].len() implies n <= (#[trigger] g3[x][k]).1.0 < g3.len() by {
                        if x < m1 {
                            assert(g3[x] == g1[x]);
                        } else if x < m2 {
                            assert(g3[x] == g2[x]);
                        }
                    }
                },
                RegexBinOp::Concat => {
                    lemma_plain_not_anchor(*l);
                    lemma_plain_not_anchor(*r);
                    lemma_add_from_all(g2, a1, (None, s2));
                    let g3 = add_from_all(g2, a1, (None, s2));
                    assert forall|x: int| 0 <= x < n implies #[trigger] g3[x] == g[x] by {
                        assert(g3[x].len() == g2[x].len()) by {
                            if g3[x].len() > g2[x].len() {
                                assert(a1.contains(StateId(x as usize)));
                                let i = choose|i: int| 0 <= i < a1.len() && a1[i] == StateId(x as usize);
                                assert(a1[i].0 >= n);
                            }
                        }
                        assert(g3[x] =~= g2[x]);
                        assert(g2[x] == g1[x]);
                    }
                    assert forall|x: int, k: int| n <= x < g3.len() && 0 <= k < g3[x].len() implies n <= (#[trigger] g3[x][k]).1.0 < g3.len() by {
                        if k < g2[x].len() {
                            assert(g3[x][k] == g2[x][k]);
                            if x < m1 {
                                assert(g2[x] == g1[x]);
                            }
                        }
                    }
                },
            }
        },
    }
}

/// The texts a leaf with labels `labels` stands for: one character that some label lets
/// through.
pub open spec fn leaf_lang(labels: Seq<RegexChar>, w: Seq<char>) -> bool {
    w.len() == 1 && exists|i: int| 0 <= i < labels.len() && #[trigger] label_matches(Some(labels[i]), w[0])
}

/// The language of a tree: the texts it stands for. A character or class stands for one
/// character its labels let through; alternation for either side; concatenation for a text
/// of the left followed by one of the right (see `cat_split`); `*` for any number of texts of
/// its operand (see `star_lang`), `+` for one or more (see `plus_split`), `?` for none or one.
pub open spec fn lang(t: RegexTree, w: Seq<char>) -> bool
    decreases t, w.len() + 1, 2int, 0int,
{
    match t {
        RegexTree::Char(c) => leaf_lang(char_labels(c), w),
        RegexTree::Class(cm) => leaf_lang(class_labels(cm), w),
        RegexTree::Group(e) => lang(*e, w),
        RegexTree::UnOp(RegexUnOp::Star, e) => star_lang(*e, w),
        RegexTree::UnOp(RegexUnOp::Plus, e) => plus_split(t, w, 0),
        RegexTree::UnOp(RegexUnOp::Optional, e) => w.len() == 0 || lang(*e, w),
        RegexTree::BinOp(RegexBinOp::Or, l, r) => lang(*l, w) || lang(*r, w),
        RegexTree::BinOp(RegexBinOp::Concat, l, r) => cat_split(t, w, 0),
    }
}

/// For a binary tree: `w` splits, at some position from `k` on, into a text of the left
/// operand followed by one of the right.
pub open spec fn cat_split(t: RegexTree, w: Seq<char>, k: int) -> bool
    decreases t, w.len() + 1, 1int, w.len() - k + 1,
{
    match t {
        RegexTree::BinOp(_, l, r) => if k < 0 || k > w.len() {
            false
        } else {
            (lang(*l, w.subrange(0, k)) && lang(*r, w.subrange(k, w.len() as int))) || cat_split(t, w, k + 1)
        },
        _ => false,
    }
}

/// For a unary tree: `w` splits, at some position from `k` on, into a text of the operand
/// followed by texts of the operand's star.
pub open spec fn plus_split(t: RegexTree, w: Seq<char>, k: int) -> bool
    decreases t, w.len() + 1, 1int, w.len() - k + 1,
{
    match t {
        RegexTree::UnOp(_, e) => if k < 0 || k > w.len() {
            false
        } else {
            (lang(*e, w.subrange(0, k)) && star_lang(*e, w.subrange(k, w.len() as int))) || plus_split(t, w, k + 1)
        },
        _ => false,
    }
}

/// The texts made of any number of texts of the language of `e`, one after the other: the
/// empty text, or a nonempty text of the language followed by texts of the star.
pub open spec fn star_lang(e: RegexTree, w: Seq<char>) -> bool
    decreases e, w.len() + 1, 3int, 0int,
{
    w.len() == 0 || star_split(e, w, 1)
}

/// `w` splits, at some position from `k` (at least 1) on, into a nonempty text of the
/// language of `e` followed by texts of the star.
pub open spec fn star_split(e: RegexTree, w: Seq<char>, k: int) -> bool
    decreases e, w.len() + 1, 2int, w.len() - k + 1,
{
    if k < 1 || k > w.len() {
        false
    } else {
        (lang(e, w.subrange(0, k)) && star_lang(e, w.subrange(k, w.len() as int))) || star_split(e, w, k + 1)
    }
}

/// Some path reads `w` from `s` to a state of `acc`.
pub open spec fn accepts_in(g: Graph, s: StateId, acc: Seq<StateId>, w: Seq<char>) -> bool {
    exists|i: int, tr: Seq<int>| 0 <= i < acc.len() && #[trigger] trace_ok(g, s, w, acc[i], tr)
}

/// A graph whose first states are those of `g`, unchanged, extends it.
pub proof fn lemma_extends_same(g: Graph, h: Graph)
    requires
        g.len() <= h.len(),
        forall|x: int| 0 <= x < g.len() ==> #[trigger] h[x] == g[x],
    ensures
        extends(g, h),
{
    assert forall|x: int, k: int| 0 <= x < g.len() && 0 <= k < g[x].len() implies (#[trigger] h[x][k]) == g[x][k] by {
        assert(h[x] == g[x]);
    }
}

/// Adding a transition extends a graph.
pub proof fn lemma_extends_add_edge(g: Graph, from: StateId, e: Edge)
    requires
        0 <= from.0 < g.len(),
    ensures
        extends(g, add_edge(g, from, e)),
{
    lemma_add_edge(g, from, e);
    let h = add_edge(g, from, e);
    assert forall|x: int, k: int| 0 <= x < g.len() && 0 <= k < g[x].len() implies (#[trigger] h[x][k]) == g[x][k] by {
        if x != from.0 {
            assert(h[x] == g[x]);
        }
    }
}

/// Adding a state extends a graph.
pub proof fn lemma_extends_push(g: Graph, es: Seq<Edge>)
    ensures
        extends(g, g.push(es)),
{
    lemma_extends_same(g, g.push(es));
}

/// `cat_split` from `k` holds exactly when some split at or after `k` works.
pub proof fn lemma_cat_split(op: RegexBinOp, l: RegexTree, r: RegexTree, w: Seq<char>, k: int)
    requires
        0 <= k,
    ensures
        cat_split(RegexTree::BinOp(op, Box::new(l), Box::new(r)), w, k) <==> exists|j: int| k <= j <= w.len()
            && #[trigger] lang(l, w.subrange(0, j)) && lang(r, w.subrange(j, w.len() as int)),
    decreases w.len() - k + 1,
{
    let t = RegexTree::BinOp(op, Box::new(l), Box::new(r));
    if k <= w.len() {
        lemma_cat_split(op, l, r, w, k + 1);
        if lang(l, w.subrange(0, k)) && lang(r, w.subrange(k, w.len() as int)) {
            assert(cat_split(t, w, k));
        }
    }
}

/// `plus_split` from `k` holds exactly when some split at or after `k` works.
pub proof fn lemma_plus_split(op: RegexUnOp, e: RegexTree, w: Seq<char>, k: int)
    requires
        0 <= k,
    ensures
        plus_split(RegexTree::UnOp(op, Box::new(e)), w, k) <==> exists|j: int| k <= j <= w.len()
            && #[trigger] lang(e, w.subrange(0, j)) && star_lang(e, w.subrange(j, w.len() as int)),
    decreases w.len() - k + 1,
{
    let t = RegexTree::UnOp(op, Box::new(e));
    if k <= w.len() {
        lemma_plus_split(op, e, w, k + 1);
        if lang(e, w.subrange(0, k)) && star_lang(e, w.subrange(k, w.len() as int)) {
            assert(plus_split(t, w, k));
        }
    }
}

/// `star_split` from `k` holds exactly when some split at or after `k` works.
pub proof fn lemma_star_split(e: RegexTree, w: Seq<char>, k: int)
    requires
        1 <= k,
    ensures
        star_split(e, w, k) <==> exists|j: int| k <= j <= w.len()
            && #[trigger] lang(e, w.subrange(0, j)) && star_lang(e, w.subrange(j, w.len() as int)),
    decreases w.len() - k + 1,
{
    if k <= w.len() {
        lemma_star_split(e, w, k + 1);
        if lang(e, w.subrange(0, k)) && star_lang(e, w.subrange(k, w.len() as int)) {
            assert(star_split(e, w, k));
        }
    }
}

/// A text of the language followed by texts of the star is a text of the star.
pub proof fn lemma_star_cons(e: RegexTree, x: Seq<char>, y: Seq<char>)
    requires
        lang(e, x),
        star_lang(e, y),
    ensures
        star_lang(e, x + y),
{
    let w = x + y;
    if x.len() == 0 {
        assert(w =~= y);
    } else {
        let k = x.len() as int;
        assert(w.subrange(0, k) =~= x);
        assert(w.subrange(k, w.len() as int) =~= y);
        lemma_star_split(e, w, 1);
        assert(lang(e, w.subrange(0, k)) && star_lang(e, w.subrange(k, w.len() as int)));
    }
}

/// The automaton of a leaf reads exactly the one-character texts some label lets through.
pub proof fn lemma_lang_leaf(labels: Seq<RegexChar>, g: Graph, w: Seq<char>)
    requires
        g.len() + 2 <= usize::MAX,
    ensures
        leaf_lang(labels, w) == accepts_in(leaf_spec(g, labels).0, leaf_spec(g, labels).1, leaf_spec(g, labels).2, w),
{
    let (g1, s, acc) = leaf_spec(g, labels);
    let n = g.len() as int;
    let a = StateId((n + 1) as usize);
    assert(g1[n] == labelled(labels, a));
    assert(g1[n + 1] == Seq::<Edge>::empty());
    if leaf_lang(labels, w) {
        let i = choose|i: int| 0 <= i < labels.len() && #[trigger] label_matches(Some(labels[i]), w[0]);
        assert(g1[n][i] == (Some(labels[i]), a));
        assert(w.drop_first() =~= Seq::<char>::empty());
        assert(trace_ok(g1, a, w.drop_first(), a, seq![]));
        lemma_trace_cons(g1, s, i, w, a, seq![]);
        assert(seq![i] + Seq::<int>::empty() =~= seq![i]);
        assert(acc[0] == a);
        assert(trace_ok(g1, s, w, acc[0], seq![i]));
    }
    if accepts_in(g1, s, acc, w) {
        let (i, tr) = choose|i: int, tr: Seq<int>| 0 <= i < acc.len() && #[trigger] trace_ok(g1, s, w, acc[i], tr);
        assert(acc[i] == a);
        assert(tr.len() > 0);
        let k = tr[0];
        assert(g1[n][k] == (Some(labels[k]), a));
        let rest = tr.drop_first();
        assert(trace_ok(g1, a, w.drop_first(), a, rest));
        if rest.len() > 0 {
            assert(g1[a.0 as int].len() == 0);
        }
        assert(w.drop_first().len() == 0);
        assert(label_matches(Some(labels[k]), w[0]));
    }
}

/// The graph a tree is built into extends the one it is built on.
pub proof fn lemma_frame_extends(t: RegexTree, g: Graph)
    requires
        frame_ok(t, g),
    ensures
        extends(g, build_spec(t, g).0),
{
    lemma_extends_same(g, build_spec(t, g).0);
}

/// Two region facts about building the right operand after the left one: the left states
/// keep their transitions and stay closed.
pub proof fn lemma_left_region(l: RegexTree, r: RegexTree, g: Graph)
    requires
        frame_ok(l, g),
        frame_ok(r, build_spec(l, g).0),
    ensures
        ({
            let (g1, s1, a1) = build_spec(l, g);
            let g2 = build_spec(r, g1).0;
            &&& forall|x: int| 0 <= x < g1.len() ==> #[trigger] g2[x] == g1[x]
            &&& closed(g1, g.len() as int, g1.len() as int)
            &&& extends(g1, g2)
        }),
{
    let g1 = build_spec(l, g).0;
    lemma_frame_extends(r, g1);
}

/// The automaton of an alternation reads what either operand reads.
pub proof fn lemma_lang_or(l: RegexTree, r: RegexTree, g: Graph, w: Seq<char>)
    requires
        frame_ok(l, g),
        frame_ok(r, build_spec(l, g).0),
        build_spec(r, build_spec(l, g).0).0.len() < usize::MAX,
        forall|v: Seq<char>| #[trigger] lang(l, v) == accepts_in(build_spec(l, g).0, build_spec(l, g).1, build_spec(l, g).2, v),
        forall|v: Seq<char>| #[trigger] lang(r, v) == accepts_in(build_spec(r, build_spec(l, g).0).0,
            build_spec(r, build_spec(l, g).0).1, build_spec(r, build_spec(l, g).0).2, v),
    ensures
        (lang(l, w) || lang(r, w)) == ({
            let t = RegexTree::BinOp(RegexBinOp::Or, Box::new(l), Box::new(r));
            accepts_in(build_spec(t, g).0, build_spec(t, g).1, build_spec(t, g).2, w)
        }),
{
    let t = RegexTree::BinOp(RegexBinOp::Or, Box::new(l), Box::new(r));
    let (g1, s1, a1) = build_spec(l, g);
    let (g2, s2, a2) = build_spec(r, g1);
    let n = g.len() as int;
    let m1 = g1.len() as int;
    let m2 = g2.len() as int;
    let st = StateId(m2 as usize);
    let gp = g2.push(seq![]);
    let gq = add_edge(gp, st, (None, s1));
    let g3 = add_edge(gq, st, (None, s2));
    assert(build_spec(t, g) == (g3, st, a1 + a2));
    lemma_left_region(l, r, g);
    lemma_add_edge(gp, st, (None, s1));
    lemma_add_edge(gq, st, (None, s2));
    assert(g3[m2] == seq![(None::<RegexChar>, s1), (None::<RegexChar>, s2)]);
    assert forall|x: int| 0 <= x < m2 implies #[trigger] g3[x] == g2[x] by {
        assert(gp[x] == g2[x]);
    }
    lemma_extends_push(g2, seq![]);
    lemma_extends_add_edge(gp, st, (None, s1));
    lemma_extends_add_edge(gq, st, (None, s2));
    lemma_extends_trans(g2, gp, gq);
    lemma_extends_trans(g2, gq, g3);
    lemma_extends_trans(g1, g2, g3);
    let acc = a1 + a2;
    if lang(l, w) {
        let (i, tr) = choose|i: int, tr: Seq<int>| 0 <= i < a1.len() && #[trigger] trace_ok(g1, s1, w, a1[i], tr);
        lemma_trace_extends(g1, g3, s1, w, a1[i], tr);
        lemma_trace_cons(g3, st, 0, w, a1[i], tr);
        assert(acc[i] == a1[i]);
        assert(trace_ok(g3, st, w, acc[i], seq![0int] + tr));
    }
    if lang(r, w) {
        let (i, tr) = choose|i: int, tr: Seq<int>| 0 <= i < a2.len() && #[trigger] trace_ok(g2, s2, w, a2[i], tr);
        lemma_trace_extends(g2, g3, s2, w, a2[i], tr);
        lemma_trace_cons(g3, st, 1, w, a2[i], tr);
        assert(acc[a1.len() + i] == a2[i]);
        assert(trace_ok(g3, st, w, acc[a1.len() + i], seq![1int] + tr));
    }
    if accepts_in(g3, st, acc, w) {
        let (i, tr) = choose|i: int, tr: Seq<int>| 0 <= i < acc.len() && #[trigger] trace_ok(g3, st, w, acc[i], tr);
        let a = acc[i];
        if i < a1.len() {
            assert(a == a1[i]);
        } else {
            assert(a == a2[i - a1.len()]);
        }
        assert(n <= a.0 < m2);
        assert(tr.len() > 0);
        let k = tr[0];
        let rest = tr.drop_first();
        if k == 0 {
            assert forall|x: int| n <= x < m1 implies #[trigger] g3[x] == g1[x] by {
                assert(g3[x] == g2[x]);
            }
            lemma_trace_stays(g1, g3, n, m1, s1, w, a, rest);
            if i >= a1.len() {
                assert(m1 <= a2[i - a1.len()].0);
            }
            assert(trace_ok(g1, s1, w, a1[i], rest));
            assert(accepts_in(g1, s1, a1, w));
        } else {
            assert(k == 1);
            assert forall|x: int| m1 <= x < m2 implies #[trigger] g3[x] == g2[x] by {}
            lemma_trace_stays(g2, g3, m1, m2, s2, w, a, rest);
            if i < a1.len() {
                assert(a1[i].0 < m1);
            }
            assert(trace_ok(g2, s2, w, a2[i - a1.len()], rest));
            assert(accepts_in(g2, s2, a2, w));
        }
    }
}

/// The automaton of a concatenation reads a text of the left operand followed by one of the
/// right.
pub proof fn lemma_lang_concat(l: RegexTree, r: RegexTree, g: Graph, w: Seq<char>)
    requires
        plain(l),
        plain(r),
        frame_ok(l, g),
        frame_ok(r, build_spec(l, g).0),
        build_spec(r, build_spec(l, g).0).0.len() <= usize::MAX,
        forall|v: Seq<char>| #[trigger] lang(l, v) == accepts_in(build_spec(l, g).0, build_spec(l, g).1, build_spec(l, g).2, v),
        forall|v: Seq<char>| #[trigger] lang(r, v) == accepts_in(build_spec(r, build_spec(l, g).0).0,
            build_spec(r, build_spec(l, g).0).1, build_spec(r, build_spec(l, g).0).2, v),
    ensures
        ({
            let t = RegexTree::BinOp(RegexBinOp::Concat, Box::new(l), Box::new(r));
            lang(t, w) == accepts_in(build_spec(t, g).0, build_spec(t, g).1, build_spec(t, g).2, w)
        }),
{
    let t = RegexTree::BinOp(RegexBinOp::Concat, Box::new(l), Box::new(r));
    let (g1, s1, a1) = build_spec(l, g);
    let (g2, s2, a2) = build_spec(r, g1);
    let n = g.len() as int;
    let m1 = g1.len() as int;
    let m2 = g2.len() as int;
    lemma_plain_not_anchor(l);
    lemma_plain_not_anchor(r);
    let g3 = add_from_all(g2, a1, (None, s2));
    assert(build_spec(t, g) == (g3, s1, a2));
    lemma_left_region(l, r, g);
    lemma_add_from_all(g2, a1, (None, s2));
    lemma_cat_split(RegexBinOp::Concat, l, r, w, 0);
    assert(extends(g2, g3));
    lemma_extends_trans(g1, g2, g3);
    if lang(t, w) {
        let j = choose|j: int| 0 <= j <= w.len() && #[trigger] lang(l, w.subrange(0, j)) && lang(r, w.subrange(j, w.len() as int));
        let w1 = w.subrange(0, j);
        let w2 = w.subrange(j, w.len() as int);
        let (i1, t1) = choose|i: int, tr: Seq<int>| 0 <= i < a1.len() && #[trigger] trace_ok(g1, s1, w1, a1[i], tr);
        let (i2, t2) = choose|i: int, tr: Seq<int>| 0 <= i < a2.len() && #[trigger] trace_ok(g2, s2, w2, a2[i], tr);
        lemma_trace_extends(g1, g3, s1, w1, a1[i1], t1);
        lemma_trace_extends(g2, g3, s2, w2, a2[i2], t2);
        let x = a1[i1].0 as int;
        assert(has_extra(g2, g3, x, (None, s2)));
        let k = choose|k: int| g2[x].len() <= k < g3[x].len() && #[trigger] g3[x][k] == (None::<RegexChar>, s2);
        lemma_trace_cons(g3, a1[i1], k, w2, a2[i2], t2);
        lemma_trace_concat(g3, s1, w1, a1[i1], t1, w2, a2[i2], seq![k] + t2);
        assert(w1 + w2 =~= w);
        assert(trace_ok(g3, s1, w, a2[i2], t1 + (seq![k] + t2)));
    }
    if accepts_in(g3, s1, a2, w) {
        let (i, tr) = choose|i: int, tr: Seq<int>| 0 <= i < a2.len() && #[trigger] trace_ok(g3, s1, w, a2[i], tr);
        let a = a2[i];
        assert(m1 <= a.0 < m2);
        assert(grown_at(g1, g3, n, m1, a1)) by {
            assert forall|x: int| n <= x < m1 implies g1[x].len() <= (#[trigger] g3[x]).len() by {
                assert(g2[x] == g1[x]);
            }
            assert forall|x: int, k: int| n <= x < m1 && 0 <= k < g1[x].len() implies (#[trigger] g3[x][k]) == g1[x][k] by {
                assert(g2[x] == g1[x]);
            }
            assert forall|x: int| n <= x < m1 && g1[x].len() < (#[trigger] g3[x]).len() implies a1.contains(StateId(x as usize)) by {
                assert(g2[x] == g1[x]);
            }
            assert forall|x: int, k: int| n <= x < m1 && g1[x].len() <= k < g3[x].len() implies (#[trigger] g3[x][k]).0 is None by {
                assert(g2[x] == g1[x]);
            }
        }
        lemma_trace_leaves(g1, g3, n, m1, a1, s1, w, a, tr);
        if trace_ok(g1, s1, w, a, tr) {
            assert forall|x: int| n <= x < m1 implies #[trigger] g1[x] == g1[x] by {}
            lemma_trace_stays(g1, g1, n, m1, s1, w, a, tr);
            assert(false);
        } else {
            let (w1, a0, t1, k, w2, t2) = choose|w1: Seq<char>, a0: StateId, t1: Seq<int>, k: int, w2: Seq<char>, t2: Seq<int>|
                #![trigger trace_ok(g1, s1, w1, a0, t1), trace_ok(g3, g3[a0.0 as int][k].1, w2, a, t2)]
                w == w1 + w2 && a1.contains(a0) && n <= a0.0 < m1 && trace_ok(g1, s1, w1, a0, t1)
                && g1[a0.0 as int].len() <= k < g3[a0.0 as int].len()
                && trace_ok(g3, g3[a0.0 as int][k].1, w2, a, t2) && t2.len() < tr.len();
            let x = a0.0 as int;
            assert(g2[x] == g1[x]);
            assert(g3[x][k] == (None::<RegexChar>, s2));
            assert forall|y: int| m1 <= y < m2 implies #[trigger] g3[y] == g2[y] by {
                if g2[y].len() < g3[y].len() {
                    assert(a1.contains(StateId(y as usize)));
                    let q = choose|q: int| 0 <= q < a1.len() && a1[q] == StateId(y as usize);
                    assert(a1[q].0 < m1);
                }
                assert(g3[y].len() == g2[y].len());
                assert forall|k2: int| 0 <= k2 < g3[y].len() implies g3[y][k2] == g2[y][k2] by {
                    assert(g3[y][k2] == g2[y][k2]);
                }
                assert(g3[y] =~= g2[y]);
            }
            lemma_trace_stays(g2, g3, m1, m2, s2, w2, a, t2);
            assert(accepts_in(g2, s2, a2, w2));
            let q = choose|q: int| 0 <= q < a1.len() && a1[q] == a0;
            assert(trace_ok(g1, s1, w1, a1[q], t1));
            assert(accepts_in(g1, s1, a1, w1));
            let j = w1.len() as int;
            assert(w.subrange(0, j) =~= w1);
            assert(w.subrange(j, w.len() as int) =~= w2);
            assert(lang(l, w.subrange(0, j)));
        }
    }
}

/// The automaton of an option reads the empty text and what its operand reads.
pub proof fn lemma_lang_optional(e: RegexTree, g: Graph, w: Seq<char>)
    requires
        frame_ok(e, g),
        build_spec(e, g).0.len() < usize::MAX,
        forall|v: Seq<char>| #[trigger] lang(e, v) == accepts_in(build_spec(e, g).0, build_spec(e, g).1, build_spec(e, g).2, v),
    ensures
        ({
            let t = RegexTree::UnOp(RegexUnOp::Optional, Box::new(e));
            lang(t, w) == accepts_in(build_spec(t, g).0, build_spec(t, g).1, build_spec(t, g).2, w)
        }),
{
    let t = RegexTree::UnOp(RegexUnOp::Optional, Box::new(e));
    let (g1, s, acc) = build_spec(e, g);
    let n = g.len() as int;
    let m = g1.len() as int;
    let st = StateId(m as usize);
    let gp = g1.push(seq![]);
    let g2 = add_edge(gp, st, (None, s));
    let acc2 = acc.push(st);
    assert(build_spec(t, g) == (g2, st, acc2));
    lemma_add_edge(gp, st, (None, s));
    assert(g2[m] == seq![(None::<RegexChar>, s)]);
    assert forall|x: int| n <= x < m implies #[trigger] g2[x] == g1[x] by {
        assert(gp[x] == g1[x]);
    }
    lemma_extends_push(g1, seq![]);
    lemma_extends_add_edge(gp, st, (None, s));
    lemma_extends_trans(g1, gp, g2);
    if lang(t, w) {
        if w.len() == 0 {
            assert(acc2[acc.len() as int] == st);
            assert(trace_ok(g2, st, w, acc2[acc.len() as int], seq![]));
        } else {
            assert(lang(e, w));
            assert(accepts_in(g1, s, acc, w));
            let (i, tr) = choose|i: int, tr: Seq<int>| 0 <= i < acc.len() && #[trigger] trace_ok(g1, s, w, acc[i], tr);
            lemma_trace_extends(g1, g2, s, w, acc[i], tr);
            lemma_trace_cons(g2, st, 0, w, acc[i], tr);
            assert(acc2[i] == acc[i]);
            assert(trace_ok(g2, st, w, acc2[i], seq![0int] + tr));
        }
    }
    if accepts_in(g2, st, acc2, w) {
        let (i, tr) = choose|i: int, tr: Seq<int>| 0 <= i < acc2.len() && #[trigger] trace_ok(g2, st, w, acc2[i], tr);
        if tr.len() > 0 {
            let k = tr[0];
            assert(k == 0);
            lemma_trace_stays(g1, g2, n, m, s, w, acc2[i], tr.drop_first());
            assert(i < acc.len());
            assert(acc2[i] == acc[i]);
            assert(accepts_in(g1, s, acc, w));
            assert(lang(e, w));
        } else {
            assert(w.len() == 0);
        }
        assert(lang(t, w));
    }
}

/// What the proofs about `+` and `*` over a tree `e` built on `g` assume: the frame of the
/// build, room for one more state, and that the built automaton reads the language of `e`.
pub open spec fn unop_ready(e: RegexTree, g: Graph) -> bool {
    &&& frame_ok(e, g)
    &&& build_spec(e, g).0.len() < usize::MAX
    &&& forall|v: Seq<char>| #[trigger] lang(e, v) == accepts_in(build_spec(e, g).0, build_spec(e, g).1, build_spec(e, g).2, v)
}

/// The automaton of `e+` reads a text of `e` followed by texts of `e*`.
pub proof fn lemma_plus_fwd(e: RegexTree, g: Graph, u: Seq<char>, v: Seq<char>)
    requires
        unop_ready(e, g),
        lang(e, u),
        star_lang(e, v),
    ensures
        accepts_in(add_from_all(build_spec(e, g).0, build_spec(e, g).2, (None, build_spec(e, g).1)),
            build_spec(e, g).1, build_spec(e, g).2, u + v),
    decreases v.len(),
{
    let (g1, s, acc) = build_spec(e, g);
    let g2 = add_from_all(g1, acc, (None, s));
    lemma_add_from_all(g1, acc, (None, s));
    assert(extends(g1, g2));
    assert(accepts_in(g1, s, acc, u));
    let (i, t1) = choose|i: int, tr: Seq<int>| 0 <= i < acc.len() && #[trigger] trace_ok(g1, s, u, acc[i], tr);
    lemma_trace_extends(g1, g2, s, u, acc[i], t1);
    if v.len() == 0 {
        assert(u + v =~= u);
        assert(trace_ok(g2, s, u + v, acc[i], t1));
    } else {
        assert(star_split(e, v, 1));
        lemma_star_split(e, v, 1);
        let j = choose|j: int| 1 <= j <= v.len() && #[trigger] lang(e, v.subrange(0, j)) && star_lang(e, v.subrange(j, v.len() as int));
        let v1 = v.subrange(0, j);
        let v2 = v.subrange(j, v.len() as int);
        lemma_plus_fwd(e, g, v1, v2);
        assert(v1 + v2 =~= v);
        let (i2, t2) = choose|i2: int, tr: Seq<int>| 0 <= i2 < acc.len() && #[trigger] trace_ok(g2, s, v, acc[i2], tr);
        let x = acc[i].0 as int;
        assert(has_extra(g1, g2, x, (None, s)));
        let k = choose|k: int| g1[x].len() <= k < g2[x].len() && #[trigger] g2[x][k] == (None::<RegexChar>, s);
        lemma_trace_cons(g2, acc[i], k, v, acc[i2], t2);
        lemma_trace_concat(g2, s, u, acc[i], t1, v, acc[i2], seq![k] + t2);
        assert(trace_ok(g2, s, u + v, acc[i2], t1 + (seq![k] + t2)));
    }
}

/// What the automaton of `e+` reads is a text of `e` followed by texts of `e*`.
pub proof fn lemma_plus_back(e: RegexTree, g: Graph, w: Seq<char>, i: int, tr: Seq<int>)
    requires
        unop_ready(e, g),
        0 <= i < build_spec(e, g).2.len(),
        trace_ok(add_from_all(build_spec(e, g).0, build_spec(e, g).2, (None, build_spec(e, g).1)),
            build_spec(e, g).1, w, build_spec(e, g).2[i], tr),
    ensures
        exists|j: int| 0 <= j <= w.len() && #[trigger] lang(e, w.subrange(0, j)) && star_lang(e, w.subrange(j, w.len() as int)),
    decreases tr.len(),
{
    let (g1, s, acc) = build_spec(e, g);
    let g2 = add_from_all(g1, acc, (None, s));
    let n = g.len() as int;
    let m = g1.len() as int;
    lemma_add_from_all(g1, acc, (None, s));
    assert(grown_at(g1, g2, n, m, acc));
    lemma_trace_leaves(g1, g2, n, m, acc, s, w, acc[i], tr);
    if trace_ok(g1, s, w, acc[i], tr) {
        assert(accepts_in(g1, s, acc, w));
        let j = w.len() as int;
        assert(w.subrange(0, j) =~= w);
        assert(w.subrange(j, w.len() as int) =~= Seq::<char>::empty());
        assert(lang(e, w.subrange(0, j)));
    } else {
        let (w1, a0, t1, k, w2, t2) = choose|w1: Seq<char>, a0: StateId, t1: Seq<int>, k: int, w2: Seq<char>, t2: Seq<int>|
            #![trigger trace_ok(g1, s, w1, a0, t1), trace_ok(g2, g2[a0.0 as int][k].1, w2, acc[i], t2)]
            w == w1 + w2 && acc.contains(a0) && n <= a0.0 < m && trace_ok(g1, s, w1, a0, t1)
            && g1[a0.0 as int].len() <= k < g2[a0.0 as int].len()
            && trace_ok(g2, g2[a0.0 as int][k].1, w2, acc[i], t2) && t2.len() < tr.len();
        assert(g2[a0.0 as int][k] == (None::<RegexChar>, s));
        lemma_plus_back(e, g, w2, i, t2);
        let j2 = choose|j: int| 0 <= j <= w2.len() && #[trigger] lang(e, w2.subrange(0, j)) && star_lang(e, w2.subrange(j, w2.len() as int));
        lemma_star_cons(e, w2.subrange(0, j2), w2.subrange(j2, w2.len() as int));
        assert(w2.subrange(0, j2) + w2.subrange(j2, w2.len() as int) =~= w2);
        let q = choose|q: int| 0 <= q < acc.len() && acc[q] == a0;
        assert(trace_ok(g1, s, w1, acc[q], t1));
        assert(accepts_in(g1, s, acc, w1));
        let j = w1.len() as int;
        assert(w.subrange(0, j) =~= w1);
        assert(w.subrange(j, w.len() as int) =~= w2);
        assert(lang(e, w.subrange(0, j)));
    }
}

/// The automaton of `e+` reads exactly the texts of `e+`.
pub proof fn lemma_lang_plus(e: RegexTree, g: Graph, w: Seq<char>)
    requires
        unop_ready(e, g),
    ensures
        ({
            let t = RegexTree::UnOp(RegexUnOp::Plus, Box::new(e));
            lang(t, w) == accepts_in(build_spec(t, g).0, build_spec(t, g).1, build_spec(t, g).2, w)
        }),
{
    let t = RegexTree::UnOp(RegexUnOp::Plus, Box::new(e));
    let (g1, s, acc) = build_spec(e, g);
    let g2 = add_from_all(g1, acc, (None, s));
    assert(build_spec(t, g) == (g2, s, acc));
    lemma_plus_split(RegexUnOp::Plus, e, w, 0);
    if lang(t, w) {
        let j = choose|j: int| 0 <= j <= w.len() && #[trigger] lang(e, w.subrange(0, j)) && star_lang(e, w.subrange(j, w.len() as int));
        lemma_plus_fwd(e, g, w.subrange(0, j), w.subrange(j, w.len() as int));
        assert(w.subrange(0, j) + w.subrange(j, w.len() as int) =~= w);
    }
    if accepts_in(g2, s, acc, w) {
        let (i, tr) = choose|i: int, tr: Seq<int>| 0 <= i < acc.len() && #[trigger] trace_ok(g2, s, w, acc[i], tr);
        lemma_plus_back(e, g, w, i, tr);
    }
}

/// The graph of `e*` built on `g`: a new start state, empty transitions from each accepting
/// state of `e` back to its start and to the new state, and from the new state to the start.
pub open spec fn star_graph(e: RegexTree, g: Graph) -> Graph {
    let (g1, s, acc) = build_spec(e, g);
    let st = StateId(g1.len() as usize);
    add_edge(add_pair_from_all(g1.push(seq![]), acc, (None, s), (None, st)), st, (None, s))
}

/// Shape of the graph of `e*`: the new state's only transition goes to the start, the states
/// of `e` have their transitions from the build of `e` followed, for the accepting ones, by
/// empty transitions to the start or the new state, and each accepting state has both.
pub proof fn lemma_star_shape(e: RegexTree, g: Graph)
    requires
        unop_ready(e, g),
    ensures
        ({
            let (g1, s, acc) = build_spec(e, g);
            let m = g1.len() as int;
            let st = StateId(m as usize);
            let g3 = star_graph(e, g);
            &&& g3.len() == m + 1
            &&& g3[m] == seq![(None::<RegexChar>, s)]
            &&& grown_at(g1, g3, g.len() as int, m, acc)
            &&& forall|x: int, k: int| g.len() <= x < m && g1[x].len() <= k < g3[x].len()
                ==> (#[trigger] g3[x][k]) == (None::<RegexChar>, s) || g3[x][k] == (None::<RegexChar>, st)
            &&& forall|i: int| 0 <= i < acc.len() ==> has_extra(g1, g3, (#[trigger] acc[i]).0 as int, (None, st))
            &&& extends(g1, g3)
        }),
{
    let (g1, s, acc) = build_spec(e, g);
    let n = g.len() as int;
    let m = g1.len() as int;
    let st = StateId(m as usize);
    let gp = g1.push(seq![]);
    let g2 = add_pair_from_all(gp, acc, (None, s), (None, st));
    let g3 = add_edge(g2, st, (None, s));
    lemma_add_pair_from_all(gp, acc, (None, s), (None, st));
    lemma_add_edge(g2, st, (None, s));
    assert(g2[m].len() == 0) by {
        if g2[m].len() > gp[m].len() {
            assert(acc.contains(StateId(m as usize)));
            let q = choose|q: int| 0 <= q < acc.len() && acc[q] == StateId(m as usize);
            assert(acc[q].0 < m);
        }
    }
    assert(g3[m] =~= seq![(None::<RegexChar>, s)]);
    assert forall|x: int| n <= x < m implies #[trigger] g3[x] == g2[x] by {}
    assert forall|x: int| 0 <= x < m implies #[trigger] gp[x] == g1[x] by {}
    assert(grown_at(g1, g3, n, m, acc)) by {
        assert forall|x: int, k: int| n <= x < m && g1[x].len() <= k < g3[x].len() implies (#[trigger] g3[x][k]).0 is None by {
            assert(g3[x][k] == g2[x][k]);
        }
        assert forall|x: int| n <= x < m implies g1[x].len() <= (#[trigger] g3[x]).len() by {}
        assert forall|x: int, k: int| n <= x < m && 0 <= k < g1[x].len() implies (#[trigger] g3[x][k]) == g1[x][k] by {
            assert(g3[x][k] == g2[x][k]);
        }
    }
    assert forall|i: int| 0 <= i < acc.len() implies has_extra(g1, g3, (#[trigger] acc[i]).0 as int, (None, st)) by {
        let x = acc[i].0 as int;
        assert(has_extra(gp, g2, x, (None, st)));
        let k = choose|k: int| gp[x].len() <= k < g2[x].len() && #[trigger] g2[x][k] == (None::<RegexChar>, st);
        assert(g3[x][k] == g2[x][k]);
    }
    lemma_extends_push(g1, seq![]);
    assert(extends(gp, g2));
    lemma_extends_add_edge(g2, st, (None, s));
    lemma_extends_trans(g1, gp, g2);
    lemma_extends_trans(g1, g2, g3);
}

/// The automaton of `e*` goes from its new state back to it over the texts of `e*`.
pub proof fn lemma_star_fwd(e: RegexTree, g: Graph, w: Seq<char>)
    requires
        unop_ready(e, g),
        star_lang(e, w),
    ensures
        exists|tr: Seq<int>| #[trigger] trace_ok(star_graph(e, g), StateId(build_spec(e, g).0.len() as usize), w,
            StateId(build_spec(e, g).0.len() as usize), tr),
    decreases w.len(),
{
    let (g1, s, acc) = build_spec(e, g);
    let m = g1.len() as int;
    let st = StateId(m as usize);
    let g3 = star_graph(e, g);
    lemma_star_shape(e, g);
    if w.len() == 0 {
        assert(trace_ok(g3, st, w, st, seq![]));
    } else {
        assert(star_split(e, w, 1));
        lemma_star_split(e, w, 1);
        let j = choose|j: int| 1 <= j <= w.len() && #[trigger] lang(e, w.subrange(0, j)) && star_lang(e, w.subrange(j, w.len() as int));
        let w1 = w.subrange(0, j);
        let w2 = w.subrange(j, w.len() as int);
        lemma_star_fwd(e, g, w2);
        let t_rest = choose|tr: Seq<int>| #[trigger] trace_ok(g3, st, w2, st, tr);
        assert(accepts_in(g1, s, acc, w1));
        let (i, t1) = choose|i: int, tr: Seq<int>| 0 <= i < acc.len() && #[trigger] trace_ok(g1, s, w1, acc[i], tr);
        lemma_trace_extends(g1, g3, s, w1, acc[i], t1);
        let x = acc[i].0 as int;
        assert(has_extra(g1, g3, x, (None, st)));
        let k = choose|k: int| g1[x].len() <= k < g3[x].len() && #[trigger] g3[x][k] == (None::<RegexChar>, st);
        lemma_trace_cons(g3, acc[i], k, w2, st, t_rest);
        lemma_trace_concat(g3, s, w1, acc[i], t1, w2, st, seq![k] + t_rest);
        assert(w1 + w2 =~= w);
        lemma_trace_cons(g3, st, 0, w, st, t1 + (seq![k] + t_rest));
    }
}

/// What the automaton of `e*` reads from its new state, or from the start of `e`, back to its
/// new state is a text of `e*`.
pub proof fn lemma_star_back(e: RegexTree, g: Graph, p: StateId, w: Seq<char>, tr: Seq<int>)
    requires
        unop_ready(e, g),
        p == build_spec(e, g).1 || p == StateId(build_spec(e, g).0.len() as usize),
        trace_ok(star_graph(e, g), p, w, StateId(build_spec(e, g).0.len() as usize), tr),
    ensures
        star_lang(e, w),
    decreases tr.len(),
{
    let (g1, s, acc) = build_spec(e, g);
    let n = g.len() as int;
    let m = g1.len() as int;
    let st = StateId(m as usize);
    let g3 = star_graph(e, g);
    lemma_star_shape(e, g);
    if p == st {
        if tr.len() == 0 {
            assert(w.len() == 0);
        } else {
            assert(tr[0] == 0);
            lemma_star_back(e, g, s, w, tr.drop_first());
        }
    } else {
        assert(n <= s.0 < m);
        lemma_trace_leaves(g1, g3, n, m, acc, s, w, st, tr);
        if trace_ok(g1, s, w, st, tr) {
            assert forall|x: int| n <= x < m implies #[trigger] g1[x] == g1[x] by {}
            lemma_trace_stays(g1, g1, n, m, s, w, st, tr);
            assert(false);
        } else {
            let (w1, a0, t1, k, w2, t2) = choose|w1: Seq<char>, a0: StateId, t1: Seq<int>, k: int, w2: Seq<char>, t2: Seq<int>|
                #![trigger trace_ok(g1, s, w1, a0, t1), trace_ok(g3, g3[a0.0 as int][k].1, w2, st, t2)]
                w == w1 + w2 && acc.contains(a0) && n <= a0.0 < m && trace_ok(g1, s, w1, a0, t1)
                && g1[a0.0 as int].len() <= k < g3[a0.0 as int].len()
                && trace_ok(g3, g3[a0.0 as int][k].1, w2, st, t2) && t2.len() < tr.len();
            let x = a0.0 as int;
            assert(g3[x][k] == (None::<RegexChar>, s) || g3[x][k] == (None::<RegexChar>, st));
            lemma_star_back(e, g, g3[x][k].1, w2, t2);
            let q = choose|q: int| 0 <= q < acc.len() && acc[q] == a0;
            assert(trace_ok(g1, s, w1, acc[q], t1));
            assert(accepts_in(g1, s, acc, w1));
            assert(lang(e, w1));
            lemma_star_cons(e, w1, w2);
        }
    }
}

/// The automaton of `e*` reads exactly the texts of `e*`.
pub proof fn lemma_lang_star(e: RegexTree, g: Graph, w: Seq<char>)
    requires
        unop_ready(e, g),
    ensures
        ({
            let t = RegexTree::UnOp(RegexUnOp::Star, Box::new(e));
            lang(t, w) == accepts_in(build_spec(t, g).0, build_spec(t, g).1, build_spec(t, g).2, w)
        }),
{
    let t = RegexTree::UnOp(RegexUnOp::Star, Box::new(e));
    let (g1, s, acc) = build_spec(e, g);
    let st = StateId(g1.len() as usize);
    assert(build_spec(t, g) == (star_graph(e, g), st, seq![st]));
    let g3 = star_graph(e, g);
    if lang(t, w) {
        assert(star_lang(e, w));
        lemma_star_fwd(e, g, w);
        let tr = choose|tr: Seq<int>| #[trigger] trace_ok(g3, st, w, st, tr);
        assert(seq![st][0] == st);
        assert(trace_ok(g3, st, w, seq![st][0], tr));
    }
    if accepts_in(g3, st, seq![st], w) {
        let (i, tr) = choose|i: int, tr: Seq<int>| 0 <= i < seq![st].len() && #[trigger] trace_ok(g3, st, w, seq![st][i], tr);
        assert(seq![st][i] == st);
        lemma_star_back(e, g, st, w, tr);
        assert(lang(t, w));
    }
}

/// The automaton built from a plain tree on top of `g` accepts from its start state, at one
/// of its accepting states, exactly the texts of the tree's language.
pub proof fn lemma_build_lang(t: RegexTree, g: Graph, w: Seq<char>)
    requires
        plain(t),
        g.len() + 3 * tree_size(t) <= usize::MAX,
    ensures
        lang(t, w) == accepts_in(build_spec(t, g).0, build_spec(t, g).1, build_spec(t, g).2, w),
    decreases t,
{
    match t {
        RegexTree::Char(c) => {
            lemma_lang_leaf(char_labels(c), g, w);
        },
        RegexTree::Class(cm) => {
            lemma_lang_leaf(class_labels(cm), g, w);
        },
        RegexTree::Group(e) => {
            lemma_build_lang(*e, g, w);
        },
        RegexTree::UnOp(op, e) => {
            lemma_build_frame(*e, g);
            assert forall|v: Seq<char>| #[trigger] lang(*e, v) == accepts_in(build_spec(*e, g).0, build_spec(*e, g).1, build_spec(*e, g).2, v) by {
                lemma_build_lang(*e, g, v);
            }
            assert(unop_ready(*e, g));
            match op {
                RegexUnOp::Star => lemma_lang_star(*e, g, w),
                RegexUnOp::Plus => lemma_lang_plus(*e, g, w),
                RegexUnOp::Optional => lemma_lang_optional(*e, g, w),
            }
        },
        RegexTree::BinOp(op, l, r) => {
            lemma_build_frame(*l, g);
            let g1 = build_spec(*l, g).0;
            lemma_build_frame(*r, g1);
            assert forall|v: Seq<char>| #[trigger] lang(*l, v) == accepts_in(build_spec(*l, g).0, build_spec(*l, g).1, build_spec(*l, g).2, v) by {
                lemma_build_lang(*l, g, v);
            }
            assert forall|v: Seq<char>| #[trigger] lang(*r, v) == accepts_in(build_spec(*r, g1).0, build_spec(*r, g1).1, build_spec(*r, g1).2, v) by {
                lemma_build_lang(*r, g1, v);
            }
            match op {
                RegexBinOp::Or => lemma_lang_or(*l, *r, g, w),
                RegexBinOp::Concat => lemma_lang_concat(*l, *r, g, w),
            }
        },
    }
}

} // verus!

