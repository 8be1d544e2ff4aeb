//! Trees that end with `$` along their right spine of concatenations (how `ab$` is read:
//! `a` followed by `b$`): what they read when `$` is read at the end of the text, and the
//! shape of the automaton built from them.

use vstd::prelude::*;
use crate::regex::node::{RegexChar, RegexBinOp};
use crate::regex::model::RegexTree;
use crate::nfa::state::{StateId, State, Edge, edges_of};
use crate::nfa::closure::{eps_path, eps_closure, move_set};
use crate::nfa::simulator::{label_matches, start_states, run, final_states, accepts_text};
use crate::nfa::builder::{Graph, build_spec, tree_size, add_edge, add_from_all, add_pair_from_all, is_start, is_end};
use crate::nfa::language::{trace_ok, accepts_in, plain, lang, closed, grown_at, extends, lemma_trace_cons,
    lemma_trace_concat, lemma_trace_extends, lemma_trace_leaves, lemma_trace_stays, lemma_build_frame,
    lemma_build_lang, lemma_add_edge, lemma_add_from_all, lemma_add_pair_from_all, lemma_plain_not_anchor, has_extra};
use crate::nfa::run_paths::{anchor_free, no_edge_on, lemma_build_anchor_free, lemma_start_without_anchor, lemma_run_closed,
    lemma_final_split, lemma_run_sound, lemma_run_complete, lemma_eps_path_trace};
use crate::nfa::anchored::{no_newline, lemma_any_loop, lemma_grown_extends, anchor_entry, lemma_run_from_entry,
    lemma_entry_target_starts, lemma_outside_unchanged};

verus! {

/// A tree that ends, along its right spine of concatenations, with `$`, and has no other
/// anchor: `e$`, or `e` followed by such a tree.
pub open spec fn end_tail(t: RegexTree) -> bool
    decreases t,
{
    match t {
        RegexTree::BinOp(RegexBinOp::Concat, l, r) => plain(*l) && (is_end(*r) || end_tail(*r)),
        _ => false,
    }
}

/// What such a tree reads when its `$` is read at the end of the text: for `e$` one or more
/// blocks, each a run of characters other than a line feed followed by a text of `e` (see
/// `dot_blocks`); for `e` followed by a tail, a text of `e` followed by what the tail reads
/// (see `tail_split`).
pub open spec fn tail_lang(t: RegexTree, w: Seq<char>) -> bool
    decreases t, 1int, 0int,
{
    match t {
        RegexTree::BinOp(RegexBinOp::Concat, l, r) => if is_end(*r) {
            dot_blocks(*l, w)
        } else {
            tail_split(t, w, 0)
        },
        _ => false,
    }
}

/// A block: a run of characters other than a line feed followed by a text of `e`.
pub open spec fn dot_block(e: RegexTree, v: Seq<char>) -> bool {
    exists|k: int| 0 <= k <= v.len() && no_newline(v.subrange(0, k)) && #[trigger] lang(e, v.subrange(k, v.len() as int))
}

/// One or more blocks one after the other: `w` is a block, or splits, at some position from
/// 1 on (see `blocks_split`), into a block followed by blocks.
pub open spec fn dot_blocks(e: RegexTree, w: Seq<char>) -> bool
    decreases w.len(), 1int, 0int,
{
    dot_block(e, w) || blocks_split(e, w, 1)
}

/// `w` splits, at some position from `j` on and before its end, into a block followed by
/// blocks.
pub open spec fn blocks_split(e: RegexTree, w: Seq<char>, j: int) -> bool
    decreases w.len(), 0int, w.len() - j + 1,
{
    if j < 1 || j >= w.len() {
        false
    } else {
        (dot_block(e, w.subrange(0, j)) && dot_blocks(e, w.subrange(j, w.len() as int))) || blocks_split(e, w, j + 1)
    }
}

/// `blocks_split` from `j` holds exactly when some split at or after `j` works.
pub proof fn lemma_blocks_split(e: RegexTree, w: Seq<char>, j: int)
    requires
        1 <= j,
    ensures
        blocks_split(e, w, j) <==> exists|m: int| j <= m < w.len()
            && #[trigger] dot_block(e, w.subrange(0, m)) && dot_blocks(e, w.subrange(m, w.len() as int)),
    decreases w.len() - j + 1,
{
    if j < w.len() {
        lemma_blocks_split(e, w, j + 1);
        if dot_block(e, w.subrange(0, j)) && dot_blocks(e, w.subrange(j, w.len() as int)) {
            assert(blocks_split(e, w, j));
        }
    }
}

/// Blocks followed by blocks are blocks.
pub proof fn lemma_blocks_concat(e: RegexTree, x: Seq<char>, y: Seq<char>)
    requires
        dot_blocks(e, x),
        dot_blocks(e, y),
    ensures
        dot_blocks(e, x + y),
    decreases x.len(),
{
    lemma_blocks_split(e, x, 1);
    lemma_blocks_split(e, x + y, 1);
    if y.len() == 0 {
        assert(x + y =~= x);
    } else if x.len() == 0 {
        assert(x + y =~= y);
    } else if dot_block(e, x) {
        let j = x.len() as int;
        assert((x + y).subrange(0, j) =~= x);
        assert((x + y).subrange(j, (x + y).len() as int) =~= y);
    } else {
        let m = choose|m: int| 1 <= m < x.len() && #[trigger] dot_block(e, x.subrange(0, m)) && dot_blocks(e, x.subrange(m, x.len() as int));
        lemma_blocks_concat(e, x.subrange(m, x.len() as int), y);
        assert((x + y).subrange(0, m) =~= x.subrange(0, m));
        assert((x + y).subrange(m, (x + y).len() as int) =~= x.subrange(m, x.len() as int) + y);
    }
}

/// A character other than a line feed before blocks joins the first block.
pub proof fn lemma_blocks_prepend(e: RegexTree, c: char, x: Seq<char>)
    requires
        dot_blocks(e, x),
        c != '\n',
    ensures
        dot_blocks(e, seq![c] + x),
    decreases x.len(),
{
    let cx = seq![c] + x;
    lemma_blocks_split(e, x, 1);
    lemma_blocks_split(e, cx, 1);
    if dot_block(e, x) {
        let k = choose|k: int| 0 <= k <= x.len() && no_newline(x.subrange(0, k)) && #[trigger] lang(e, x.subrange(k, x.len() as int));
        assert(cx.subrange(k + 1, cx.len() as int) =~= x.subrange(k, x.len() as int));
        assert forall|i: int| 0 <= i < cx.subrange(0, k + 1).len() implies #[trigger] cx.subrange(0, k + 1)[i] != '\n' by {
            if i > 0 {
                assert(cx.subrange(0, k + 1)[i] == x.subrange(0, k)[i - 1]);
            }
        }
        assert(dot_block(e, cx));
    } else {
        let m = choose|m: int| 1 <= m < x.len() && #[trigger] dot_block(e, x.subrange(0, m)) && dot_blocks(e, x.subrange(m, x.len() as int));
        let x0 = x.subrange(0, m);
        let k = choose|k: int| 0 <= k <= x0.len() && no_newline(x0.subrange(0, k)) && #[trigger] lang(e, x0.subrange(k, x0.len() as int));
        let c0 = cx.subrange(0, m + 1);
        assert(c0 =~= seq![c] + x0);
        assert(c0.subrange(k + 1, c0.len() as int) =~= x0.subrange(k, x0.len() as int));
        assert forall|i: int| 0 <= i < c0.subrange(0, k + 1).len() implies #[trigger] c0.subrange(0, k + 1)[i] != '\n' by {
            if i > 0 {
                assert(c0.subrange(0, k + 1)[i] == x0.subrange(0, k)[i - 1]);
            }
        }
        assert(dot_block(e, c0));
        assert(cx.subrange(m + 1, cx.len() as int) =~= x.subrange(m, x.len() as int));
    }
}

/// What a trace from the looping state back to it reads: nothing but characters other than a
/// line feed, or blocks followed by such characters.
pub open spec fn back_to_loop(e: RegexTree, u: Seq<char>) -> bool {
    exists|m: int| 0 <= m <= u.len() && #[trigger] blocks_or_empty(e, u.subrange(0, m))
        && no_newline(u.subrange(m, u.len() as int))
}

/// Nothing, or blocks.
pub open spec fn blocks_or_empty(e: RegexTree, x: Seq<char>) -> bool {
    x.len() == 0 || dot_blocks(e, x)
}

/// For a concatenation: `w` splits, at some position from `k` on, into a text of the left
/// operand followed by what the right operand reads as a tail.
pub open spec fn tail_split(t: RegexTree, w: Seq<char>, k: int) -> bool
    decreases t, 0int, w.len() - k + 1,
{
    match t {
        RegexTree::BinOp(_, l, r) => if k < 0 || k > w.len() {
            false
        } else {
            (lang(*l, w.subrange(0, k)) && tail_lang(*r, w.subrange(k, w.len() as int))) || tail_split(t, w, k + 1)
        },
        _ => false,
    }
}

/// `tail_split` from `k` holds exactly when some split at or after `k` works.
pub proof fn lemma_tail_split(l: RegexTree, r: RegexTree, w: Seq<char>, k: int)
    requires
        0 <= k,
    ensures
        tail_split(RegexTree::BinOp(RegexBinOp::Concat, Box::new(l), Box::new(r)), w, k) <==> exists|j: int| k <= j <= w.len()
            && #[trigger] lang(l, w.subrange(0, j)) && tail_lang(r, w.subrange(j, w.len() as int)),
    decreases w.len() - k + 1,
{
    let t = RegexTree::BinOp(RegexBinOp::Concat, Box::new(l), Box::new(r));
    if k <= w.len() {
        lemma_tail_split(l, r, w, k + 1);
        if lang(l, w.subrange(0, k)) && tail_lang(r, w.subrange(k, w.len() as int)) {
            assert(tail_split(t, w, k));
        }
    }
}

/// The states of the automaton built from a tail that have a transition on `$`: the
/// accepting states of the operand of the innermost `$`.
pub open spec fn end_srcs(t: RegexTree, g: Graph) -> Seq<StateId>
    decreases t,
{
    match t {
        RegexTree::BinOp(RegexBinOp::Concat, l, r) => if is_end(*r) {
            build_spec(*l, g).2
        } else {
            end_srcs(*r, build_spec(*l, g).0)
        },
        _ => seq![],
    }
}

/// State `x` has a transition on `$` to `en`.
pub open spec fn has_end_edge(h: Graph, x: StateId, en: StateId) -> bool {
    exists|k: int| 0 <= k < h[x.0 as int].len() && #[trigger] h[x.0 as int][k] == (Some(RegexChar::End), en)
}

/// What building a tail on `g` gives: new states after those of `g`, which keep their
/// transitions, leading only to new states; one accepting state, without transitions and
/// entered only on `$`; transitions on `$` only from the states of `end_srcs`, each with one
/// to the accepting state; and no transition on `^`.
pub open spec fn tail_frame(t: RegexTree, g: Graph) -> bool {
    let (h, s, acc) = build_spec(t, g);
    let es = end_srcs(t, g);
    let n = g.len() as int;
    &&& n < h.len() <= n + 3 * tree_size(t)
    &&& forall|x: int| 0 <= x < n ==> #[trigger] h[x] == g[x]
    &&& n <= s.0 < h.len()
    &&& acc.len() == 1
    &&& n <= acc[0].0 < h.len()
    &&& s != acc[0]
    &&& forall|i: int| 0 <= i < es.len() ==> n <= (#[trigger] es[i]).0 < h.len()
    &&& closed(h, n, h.len() as int)
    &&& h[acc[0].0 as int] == Seq::<Edge>::empty()
    &&& forall|x: int, k: int| n <= x < h.len() && 0 <= k < h[x].len() && (#[trigger] h[x][k]).0 == Some(RegexChar::End)
            ==> es.contains(StateId(x as usize)) && h[x][k].1 == acc[0]
    &&& forall|i: int| 0 <= i < es.len() ==> #[trigger] has_end_edge(h, es[i], acc[0])
    &&& forall|x: int, k: int| 0 <= x < h.len() && 0 <= k < h[x].len() && (#[trigger] h[x][k]).1 == acc[0]
            ==> h[x][k].0 == Some(RegexChar::End)
    &&& forall|x: int, k: int| n <= x < h.len() && 0 <= k < h[x].len() ==> (#[trigger] h[x][k]).0 != Some(RegexChar::Start)
}

/// A character other than a line feed in front of what a trace back to the loop reads.
proof fn lemma_back_prepend(e: RegexTree, c: char, u: Seq<char>)
    requires
        back_to_loop(e, u),
        c != '\n',
    ensures
        back_to_loop(e, seq![c] + u),
{
    let cu = seq![c] + u;
    let m = choose|m: int| 0 <= m <= u.len() && #[trigger] blocks_or_empty(e, u.subrange(0, m))
        && no_newline(u.subrange(m, u.len() as int));
    if m == 0 {
        assert forall|i: int| 0 <= i < cu.subrange(0, cu.len() as int).len() implies #[trigger] cu.subrange(0, cu.len() as int)[i] != '\n' by {
            if i > 0 {
                assert(cu.subrange(0, cu.len() as int)[i] == u.subrange(0, u.len() as int)[i - 1]);
            }
        }
        assert(cu.subrange(0, cu.len() as int) =~= cu);
        assert(no_newline(cu.subrange(0, cu.len() as int)));
        assert(blocks_or_empty(e, cu.subrange(0, 0)));
    } else {
        lemma_blocks_prepend(e, c, u.subrange(0, m));
        assert(cu.subrange(0, m + 1) =~= seq![c] + u.subrange(0, m));
        assert(cu.subrange(m + 1, cu.len() as int) =~= u.subrange(m, u.len() as int));
        assert(blocks_or_empty(e, cu.subrange(0, m + 1)));
    }
}

/// Blocks in front of what a trace back to the loop reads.
proof fn lemma_back_after_blocks(e: RegexTree, x: Seq<char>, u: Seq<char>)
    requires
        dot_blocks(e, x),
        back_to_loop(e, u),
    ensures
        back_to_loop(e, x + u),
{
    let xu = x + u;
    let m = choose|m: int| 0 <= m <= u.len() && #[trigger] blocks_or_empty(e, u.subrange(0, m))
        && no_newline(u.subrange(m, u.len() as int));
    let n = x.len() + m;
    if m == 0 {
        assert(xu.subrange(0, n) =~= x);
    } else {
        lemma_blocks_concat(e, x, u.subrange(0, m));
        assert(xu.subrange(0, n) =~= x + u.subrange(0, m));
    }
    assert(xu.subrange(n, xu.len() as int) =~= u.subrange(m, u.len() as int));
    assert(blocks_or_empty(e, xu.subrange(0, n)));
}

/// In the automaton of `e$`, a trace from the looping state `ds` that ends there reads what a
/// trace back to the loop reads; one that ends among the states of `e` reads, after such a
/// prefix, the rest from the start of `e` through `e`'s own transitions.
pub proof fn lemma_suffix_trace(e: RegexTree, g1: Graph, eg: Graph, lo: int, a1: Seq<StateId>, s1: StateId, w: Seq<char>, q: StateId, tr: Seq<int>)
    requires
        closed(g1, lo, g1.len() as int),
        grown_at(g1, eg, lo, g1.len() as int, a1),
        g1.len() < eg.len() <= usize::MAX,
        lo <= s1.0 < g1.len(),
        eg[g1.len() as int] == seq![(Some(RegexChar::Any), StateId(g1.len() as usize)), (None::<RegexChar>, s1)],
        forall|x: int, k: int| lo <= x < g1.len() && g1[x].len() <= k < eg[x].len() && (#[trigger] eg[x][k]).0 is None
            ==> eg[x][k].1 == StateId(g1.len() as usize),
        forall|v: Seq<char>| #[trigger] lang(e, v) == accepts_in(g1, s1, a1, v),
        trace_ok(eg, StateId(g1.len() as usize), w, q, tr),
    ensures
        q == StateId(g1.len() as usize) ==> back_to_loop(e, w),
        lo <= q.0 < g1.len() ==> exists|k: int, t: Seq<int>| 0 <= k <= w.len()
            && back_to_loop(e, w.subrange(0, k)) && #[trigger] trace_ok(g1, s1, w.subrange(k, w.len() as int), q, t),
    decreases tr.len(),
{
    let n1 = g1.len() as int;
    let ds = StateId(n1 as usize);
    let empty = Seq::<char>::empty();
    assert(no_newline(empty));
    assert(empty.subrange(0, 0) =~= empty);
    assert(blocks_or_empty(e, empty.subrange(0, 0)));
    assert(back_to_loop(e, empty));
    if tr.len() == 0 {
        assert(w =~= empty);
    } else {
        let kk = tr[0];
        let rest = tr.drop_first();
        if kk == 0 {
            let w1 = w.drop_first();
            assert(w[0] != '\n');
            assert(w =~= seq![w[0]] + w1);
            lemma_suffix_trace(e, g1, eg, lo, a1, s1, w1, q, rest);
            if q == ds {
                lemma_back_prepend(e, w[0], w1);
            }
            if lo <= q.0 < n1 {
                let (k, t) = choose|k: int, t: Seq<int>| 0 <= k <= w1.len()
                    && back_to_loop(e, w1.subrange(0, k)) && #[trigger] trace_ok(g1, s1, w1.subrange(k, w1.len() as int), q, t);
                lemma_back_prepend(e, w[0], w1.subrange(0, k));
                assert(w.subrange(0, k + 1) =~= seq![w[0]] + w1.subrange(0, k));
                assert(w1.subrange(k, w1.len() as int) =~= w.subrange(k + 1, w.len() as int));
                assert(trace_ok(g1, s1, w.subrange(k + 1, w.len() as int), q, t));
            }
        } else {
            assert(kk == 1);
            lemma_trace_leaves(g1, eg, lo, n1, a1, s1, w, q, rest);
            if trace_ok(g1, s1, w, q, rest) {
                lemma_trace_stays(g1, g1, lo, n1, s1, w, q, rest);
                assert(w.subrange(0, w.len() as int) =~= w);
                assert(w.subrange(0, 0) =~= empty);
                assert(trace_ok(g1, s1, w.subrange(0, w.len() as int), q, rest));
            } else {
                let (w1, a, t1, k2, w2, t2) = choose|w1: Seq<char>, a: StateId, t1: Seq<int>, k2: int, w2: Seq<char>, t2: Seq<int>|
                    #![trigger trace_ok(g1, s1, w1, a, t1), trace_ok(eg, eg[a.0 as int][k2].1, w2, q, t2)]
                    w == w1 + w2 && a1.contains(a) && lo <= a.0 < n1 && trace_ok(g1, s1, w1, a, t1)
                    && g1[a.0 as int].len() <= k2 < eg[a.0 as int].len()
                    && eg[a.0 as int][k2].0 is None && trace_ok(eg, eg[a.0 as int][k2].1, w2, q, t2) && t2.len() < rest.len();
                assert(eg[a.0 as int][k2].1 == ds);
                let i = choose|i: int| 0 <= i < a1.len() && a1[i] == a;
                assert(trace_ok(g1, s1, w1, a1[i], t1));
                assert(lang(e, w1));
                assert(w1.subrange(0, 0) =~= empty);
                assert(w1.subrange(0, w1.len() as int) =~= w1);
                assert(dot_block(e, w1));
                assert(dot_blocks(e, w1));
                lemma_suffix_trace(e, g1, eg, lo, a1, s1, w2, q, t2);
                if q == ds {
                    lemma_back_after_blocks(e, w1, w2);
                }
                if lo <= q.0 < n1 {
                    let (k, t) = choose|k: int, t: Seq<int>| 0 <= k <= w2.len()
                        && back_to_loop(e, w2.subrange(0, k)) && #[trigger] trace_ok(g1, s1, w2.subrange(k, w2.len() as int), q, t);
                    lemma_back_after_blocks(e, w1, w2.subrange(0, k));
                    assert(w.subrange(0, w1.len() + k) =~= w1 + w2.subrange(0, k));
                    assert(w2.subrange(k, w2.len() as int) =~= w.subrange(w1.len() + k, w.len() as int));
                    assert(trace_ok(g1, s1, w.subrange(w1.len() + k, w.len() as int), q, t));
                }
            }
        }
    }
}

/// In the automaton of `e$`, blocks lead from the looping state to an accepting state of `e`.
proof fn lemma_blocks_trace(e: RegexTree, g1: Graph, h: Graph, a1: Seq<StateId>, s1: StateId, v: Seq<char>)
    requires
        g1.len() < h.len() <= usize::MAX,
        extends(g1, h),
        h[g1.len() as int] == seq![(Some(RegexChar::Any), StateId(g1.len() as usize)), (None::<RegexChar>, s1)],
        forall|i: int| 0 <= i < a1.len() ==> 0 <= (#[trigger] a1[i]).0 < g1.len()
            && exists|k: int| 0 <= k < h[a1[i].0 as int].len() && h[a1[i].0 as int][k] == (None::<RegexChar>, StateId(g1.len() as usize)),
        forall|x: Seq<char>| #[trigger] lang(e, x) == accepts_in(g1, s1, a1, x),
        dot_blocks(e, v),
    ensures
        accepts_in(h, StateId(g1.len() as usize), a1, v),
    decreases v.len(),
{
    let ds = StateId(g1.len() as usize);
    lemma_blocks_split(e, v, 1);
    let (u0, rest) = if dot_block(e, v) {
        (v, Seq::<char>::empty())
    } else {
        let m = choose|m: int| 1 <= m < v.len() && #[trigger] dot_block(e, v.subrange(0, m)) && dot_blocks(e, v.subrange(m, v.len() as int));
        (v.subrange(0, m), v.subrange(m, v.len() as int))
    };
    // the first block
    let k = choose|k: int| 0 <= k <= u0.len() && no_newline(u0.subrange(0, k)) && #[trigger] lang(e, u0.subrange(k, u0.len() as int));
    let u = u0.subrange(0, k);
    let x = u0.subrange(k, u0.len() as int);
    let (i, tx) = choose|i: int, tr: Seq<int>| 0 <= i < a1.len() && #[trigger] trace_ok(g1, s1, x, a1[i], tr);
    lemma_trace_extends(g1, h, s1, x, a1[i], tx);
    lemma_any_loop(h, ds, 0, u);
    let tu = choose|tr: Seq<int>| #[trigger] trace_ok(h, ds, u, ds, tr);
    lemma_trace_cons(h, ds, 1, x, a1[i], tx);
    lemma_trace_concat(h, ds, u, ds, tu, x, a1[i], seq![1int] + tx);
    assert(u + x =~= u0);
    let t0 = tu + (seq![1int] + tx);
    if dot_block(e, v) {
        assert(trace_ok(h, ds, v, a1[i], t0));
    } else {
        lemma_blocks_trace(e, g1, h, a1, s1, rest);
        let (i2, t2) = choose|i2: int, tr: Seq<int>| 0 <= i2 < a1.len() && #[trigger] trace_ok(h, ds, rest, a1[i2], tr);
        let a = a1[i];
        let kk = choose|kk: int| 0 <= kk < h[a.0 as int].len() && h[a.0 as int][kk] == (None::<RegexChar>, ds);
        lemma_trace_cons(h, a, kk, rest, a1[i2], t2);
        lemma_trace_concat(h, ds, u0, a, t0, rest, a1[i2], seq![kk] + t2);
        assert(u0 + rest =~= v);
        assert(trace_ok(h, ds, v, a1[i2], t0 + (seq![kk] + t2)));
    }
}

/// In the automaton of `e$`, what a trace from the looping state to an accepting state of
/// `e` reads is blocks.
proof fn lemma_loop_reads_blocks(l: RegexTree, g1: Graph, h: Graph, n: int, a1: Seq<StateId>, s1: StateId, v: Seq<char>, a: StateId, tr: Seq<int>)
    requires
        closed(g1, n, g1.len() as int),
        grown_at(g1, h, n, g1.len() as int, a1),
        g1.len() < h.len() <= usize::MAX,
        n <= s1.0 < g1.len(),
        n <= a.0 < g1.len(),
        a1.contains(a),
        h[g1.len() as int] == seq![(Some(RegexChar::Any), StateId(g1.len() as usize)), (None::<RegexChar>, s1)],
        forall|x: int, k: int| n <= x < g1.len() && g1[x].len() <= k < h[x].len() && (#[trigger] h[x][k]).0 is None
            ==> h[x][k].1 == StateId(g1.len() as usize),
        forall|x: Seq<char>| #[trigger] lang(l, x) == accepts_in(g1, s1, a1, x),
        trace_ok(h, StateId(g1.len() as usize), v, a, tr),
    ensures
        dot_blocks(l, v),
{
    lemma_suffix_trace(l, g1, h, n, a1, s1, v, a, tr);
    let (k, t2) = choose|k: int, t2: Seq<int>| 0 <= k <= v.len() && back_to_loop(l, v.subrange(0, k))
        && #[trigger] trace_ok(g1, s1, v.subrange(k, v.len() as int), a, t2);
    let x = v.subrange(k, v.len() as int);
    let i = choose|i: int| 0 <= i < a1.len() && a1[i] == a;
    assert(trace_ok(g1, s1, x, a1[i], t2));
    assert(lang(l, x));
    let pre = v.subrange(0, k);
    let m = choose|m: int| 0 <= m <= pre.len() && #[trigger] blocks_or_empty(l, pre.subrange(0, m))
        && no_newline(pre.subrange(m, pre.len() as int));
    // the last block: the run after the blocks, then the text of `e`
    let last = v.subrange(m, v.len() as int);
    assert(last.subrange(0, k - m) =~= pre.subrange(m, pre.len() as int));
    assert(last.subrange(k - m, last.len() as int) =~= x);
    assert(dot_block(l, last));
    lemma_blocks_split(l, last, 1);
    assert(dot_blocks(l, last));
    if m == 0 {
        assert(last =~= v);
    } else {
        assert(pre.subrange(0, m) =~= v.subrange(0, m));
        lemma_blocks_concat(l, v.subrange(0, m), last);
        assert(v.subrange(0, m) + last =~= v);
    }
}

/// Building `e$` on a graph gives the shape of `tail_frame`, and its automaton reads, from its
/// start to a state with a transition on `$`, exactly any characters followed by a text of
/// `e`.
proof fn lemma_tail_base(l: RegexTree, g: Graph)
    requires
        plain(l),
        anchor_free(g),
        closed(g, 0, g.len() as int),
        g.len() + 3 * tree_size(l) + 6 <= usize::MAX,
    ensures
        ({
            let t = RegexTree::BinOp(RegexBinOp::Concat, Box::new(l), Box::new(RegexTree::Char(RegexChar::End)));
            &&& tail_frame(t, g)
            &&& forall|v: Seq<char>| #[trigger] tail_lang(t, v) == accepts_in(build_spec(t, g).0, build_spec(t, g).1, end_srcs(t, g), v)
        }),
{
    let t = RegexTree::BinOp(RegexBinOp::Concat, Box::new(l), Box::new(RegexTree::Char(RegexChar::End)));
    let n = g.len() as int;
    lemma_build_frame(l, g);
    lemma_build_anchor_free(l, g);
    lemma_plain_not_anchor(l);
    let (g1, s1, a1) = build_spec(l, g);
    let n1 = g1.len() as int;
    let ds = StateId(n1 as usize);
    let en = StateId((n1 + 1) as usize);
    let gp = g1.push(seq![]);
    lemma_add_edge(gp, ds, (Some(RegexChar::Any), ds));
    let ga = add_edge(gp, ds, (Some(RegexChar::Any), ds));
    lemma_add_edge(ga, ds, (None, s1));
    let g2 = add_edge(ga, ds, (None, s1));
    let g2p = g2.push(seq![]);
    assert forall|i: int| 0 <= i < a1.len() implies 0 <= (#[trigger] a1[i]).0 < g2p.len() by {}
    lemma_add_pair_from_all(g2p, a1, (Some(RegexChar::End), en), (None, ds));
    let h = add_pair_from_all(g2p, a1, (Some(RegexChar::End), en), (None, ds));
    assert(is_end(RegexTree::Char(RegexChar::End)));
    assert(build_spec(t, g) == (h, ds, seq![en]));
    assert(end_srcs(t, g) == a1);
    // the shape of the automaton
    assert forall|x: int| 0 <= x < n1 implies #[trigger] g2p[x] == g1[x] by {
        assert(g2[x] == g1[x]);
    }
    assert forall|x: int| 0 <= x < h.len() && !(n <= x < n1) implies #[trigger] h[x] == g2p[x] by {
        if h[x].len() > g2p[x].len() {
            let i = choose|i: int| 0 <= i < a1.len() && a1[i] == StateId(x as usize);
            assert(n <= a1[i].0 < n1);
        }
        assert(h[x] =~= g2p[x]);
    }
    assert(h[n1] =~= seq![(Some(RegexChar::Any), ds), (None::<RegexChar>, s1)]) by {
        assert(h[n1] == g2p[n1]);
        assert(g2p[n1] == g2[n1]);
    }
    assert(h[n1 + 1] =~= Seq::<Edge>::empty()) by {
        assert(h[n1 + 1] == g2p[n1 + 1]);
    }
    assert(grown_at(g1, h, n, n1, a1));
    assert(extends(g1, h)) by {
        assert forall|x: int| 0 <= x < g1.len() implies g1[x].len() <= (#[trigger] h[x]).len() by {}
        assert forall|x: int, k: int| 0 <= x < g1.len() && 0 <= k < g1[x].len() implies (#[trigger] h[x][k]) == g1[x][k] by {}
    }
    assert forall|x: int, k: int| n <= x < n1 && g1[x].len() <= k < h[x].len() && (#[trigger] h[x][k]).0 is None
        implies h[x][k].1 == ds by {}
    // the frame
    assert forall|x: int| 0 <= x < n implies #[trigger] h[x] == g[x] by {
        assert(h[x] == g2p[x]);
    }
    assert(closed(h, n, h.len() as int)) by {
        assert forall|x: int, k: int| n <= x < h.len() && 0 <= k < h[x].len() implies n <= (#[trigger] h[x][k]).1.0 < h.len() by {
            if x < n1 && k < g1[x].len() {
                assert(h[x][k] == g1[x][k]);
            }
        }
    }
    assert forall|x: int, k: int| n <= x < h.len() && 0 <= k < h[x].len() && (#[trigger] h[x][k]).0 == Some(RegexChar::End)
        implies a1.contains(StateId(x as usize)) && h[x][k].1 == en by {
        if x < n1 && k < g1[x].len() {
            assert(h[x][k] == g1[x][k]);
        }
    }
    assert forall|i: int| 0 <= i < a1.len() implies #[trigger] has_end_edge(h, a1[i], en) by {
        assert(has_extra(g2p, h, a1[i].0 as int, (Some(RegexChar::End), en)));
    }
    assert forall|x: int, k: int| 0 <= x < h.len() && 0 <= k < h[x].len() && (#[trigger] h[x][k]).1 == en
        implies h[x][k].0 == Some(RegexChar::End) by {
        if x < n {
            assert(h[x] == g[x]);
        } else if x < n1 && k < g1[x].len() {
            assert(h[x][k] == g1[x][k]);
        }
    }
    assert forall|x: int, k: int| n <= x < h.len() && 0 <= k < h[x].len() implies (#[trigger] h[x][k]).0 != Some(RegexChar::Start) by {
        if x < n1 && k < g1[x].len() {
            assert(h[x][k] == g1[x][k]);
        }
    }
    assert(tail_frame(t, g));
    // what it reads
    assert forall|v: Seq<char>| #[trigger] lang(l, v) == accepts_in(g1, s1, a1, v) by {
        lemma_build_lang(l, g, v);
    }
    assert forall|i: int| 0 <= i < a1.len() implies 0 <= (#[trigger] a1[i]).0 < g1.len()
        && exists|k: int| 0 <= k < h[a1[i].0 as int].len() && h[a1[i].0 as int][k] == (None::<RegexChar>, ds) by {
        assert(has_extra(g2p, h, a1[i].0 as int, (None, ds)));
    }
    assert forall|v: Seq<char>| #[trigger] tail_lang(t, v) == accepts_in(h, ds, a1, v) by {
        if tail_lang(t, v) {
            lemma_blocks_trace(l, g1, h, a1, s1, v);
        }
        if accepts_in(h, ds, a1, v) {
            let (i, tr) = choose|i: int, tr: Seq<int>| 0 <= i < a1.len() && #[trigger] trace_ok(h, ds, v, a1[i], tr);
            lemma_loop_reads_blocks(l, g1, h, n, a1, s1, v, a1[i], tr);
        }
    }
}

/// Building a tail on a graph gives the shape of `tail_frame`, and its automaton reads, from
/// its start to a state with a transition on `$`, exactly what the tail reads.
pub proof fn lemma_tail_build(t: RegexTree, g: Graph)
    requires
        end_tail(t),
        anchor_free(g),
        closed(g, 0, g.len() as int),
        g.len() + 3 * tree_size(t) <= usize::MAX,
    ensures
        tail_frame(t, g),
        forall|v: Seq<char>| #[trigger] tail_lang(t, v) == accepts_in(build_spec(t, g).0, build_spec(t, g).1, end_srcs(t, g), v),
    decreases t,
{
    match t {
        RegexTree::BinOp(RegexBinOp::Concat, l, r) => {
            if is_end(*r) {
                assert(*r == RegexTree::Char(RegexChar::End));
                assert(tree_size(*r) == 1);
                lemma_tail_base(*l, g);
            } else {
                let n = g.len() as int;
                lemma_build_frame(*l, g);
                lemma_build_anchor_free(*l, g);
                lemma_plain_not_anchor(*l);
                let (g1, s1, a1) = build_spec(*l, g);
                let m1 = g1.len() as int;
                assert(closed(g1, 0, m1)) by {
                    assert forall|x: int, k: int| 0 <= x < m1 && 0 <= k < g1[x].len() implies 0 <= (#[trigger] g1[x][k]).1.0 < m1 by {
                        if x < n {
                            assert(g1[x] == g[x]);
                        }
                    }
                }
                lemma_tail_build(*r, g1);
                let (g2, s2, acc2) = build_spec(*r, g1);
                let m2 = g2.len() as int;
                let en = acc2[0];
                let es = end_srcs(*r, g1);
                assert forall|i: int| 0 <= i < a1.len() implies 0 <= (#[trigger] a1[i]).0 < g2.len() by {}
                lemma_add_from_all(g2, a1, (None, s2));
                let h = add_from_all(g2, a1, (None, s2));
                assert(build_spec(t, g) == (h, s1, acc2));
                assert(end_srcs(t, g) == es);
                // the shape of the automaton
                assert forall|x: int| 0 <= x < h.len() && !(n <= x < m1) implies #[trigger] h[x] == g2[x] by {
                    if h[x].len() > g2[x].len() {
                        let i = choose|i: int| 0 <= i < a1.len() && a1[i] == StateId(x as usize);
                        assert(n <= a1[i].0 < m1);
                    }
                    assert(h[x] =~= g2[x]);
                }
                assert forall|x: int| 0 <= x < m1 implies #[trigger] g2[x] == g1[x] by {}
                assert(extends(g2, h));
                assert(extends(g1, h)) by {
                    assert forall|x: int| 0 <= x < g1.len() implies g1[x].len() <= (#[trigger] h[x]).len() by {
                        assert(g2[x] == g1[x]);
                    }
                    assert forall|x: int, k: int| 0 <= x < g1.len() && 0 <= k < g1[x].len() implies (#[trigger] h[x][k]) == g1[x][k] by {
                        assert(g2[x] == g1[x]);
                    }
                }
                assert(grown_at(g1, h, n, m1, a1)) by {
                    assert forall|x: int| n <= x < m1 implies g1[x].len() <= (#[trigger] h[x]).len() by {
                        assert(g2[x] == g1[x]);
                    }
                    assert forall|x: int, k: int| n <= x < m1 && 0 <= k < g1[x].len() implies (#[trigger] h[x][k]) == g1[x][k] by {
                        assert(g2[x] == g1[x]);
                    }
                    assert forall|x: int| n <= x < m1 && g1[x].len() < (#[trigger] h[x]).len() implies a1.contains(StateId(x as usize)) by {
                        assert(g2[x] == g1[x]);
                    }
                    assert forall|x: int, k: int| n <= x < m1 && g1[x].len() <= k < h[x].len() implies
                        (#[trigger] h[x][k]).0 is None || crate::nfa::language::inert(h[x][k].0) by {
                        assert(g2[x] == g1[x]);
                    }
                }
                // the frame
                assert forall|x: int| 0 <= x < n implies #[trigger] h[x] == g[x] by {
                    assert(h[x] == g2[x]);
                    assert(g2[x] == g1[x]);
                }
                assert(closed(h, n, m2)) by {
                    assert forall|x: int, k: int| n <= x < m2 && 0 <= k < h[x].len() implies n <= (#[trigger] h[x][k]).1.0 < m2 by {
                        if x < m1 {
                            assert(g2[x] == g1[x]);
                            if k < g1[x].len() {
                                assert(h[x][k] == g1[x][k]);
                            }
                        } else {
                            assert(h[x] == g2[x]);
                        }
                    }
                }
                assert(h[en.0 as int] == g2[en.0 as int]);
                assert forall|x: int, k: int| n <= x < m2 && 0 <= k < h[x].len() && (#[trigger] h[x][k]).0 == Some(RegexChar::End)
                    implies es.contains(StateId(x as usize)) && h[x][k].1 == en by {
                    if x < m1 {
                        assert(g2[x] == g1[x]);
                        if k < g1[x].len() {
                            assert(h[x][k] == g1[x][k]);
                        }
                    } else {
                        assert(h[x] == g2[x]);
                    }
                }
                assert forall|i: int| 0 <= i < es.len() implies #[trigger] has_end_edge(h, es[i], en) by {
                    assert(h[es[i].0 as int] == g2[es[i].0 as int]);
                    assert(has_end_edge(g2, es[i], en));
                }
                assert forall|x: int, k: int| 0 <= x < m2 && 0 <= k < h[x].len() && (#[trigger] h[x][k]).1 == en
                    implies h[x][k].0 == Some(RegexChar::End) by {
                    if x < n {
                        assert(h[x] == g[x]);
                    } else if x < m1 {
                        assert(g2[x] == g1[x]);
                        if k < g1[x].len() {
                            assert(h[x][k] == g1[x][k]);
                        }
                    } else {
                        assert(h[x] == g2[x]);
                    }
                }
                assert forall|x: int, k: int| n <= x < m2 && 0 <= k < h[x].len() implies (#[trigger] h[x][k]).0 != Some(RegexChar::Start) by {
                    if x < m1 {
                        assert(g2[x] == g1[x]);
                        if k < g1[x].len() {
                            assert(h[x][k] == g1[x][k]);
                        }
                    } else {
                        assert(h[x] == g2[x]);
                    }
                }
                assert(tail_frame(t, g));
                // what it reads
                assert forall|v: Seq<char>| #[trigger] tail_lang(t, v) == accepts_in(h, s1, es, v) by {
                    lemma_tail_split(*l, *r, v, 0);
                    if tail_lang(t, v) {
                        let j = choose|j: int| 0 <= j <= v.len() && #[trigger] lang(*l, v.subrange(0, j)) && tail_lang(*r, v.subrange(j, v.len() as int));
                        let v1 = v.subrange(0, j);
                        let v2 = v.subrange(j, v.len() as int);
                        lemma_build_lang(*l, g, v1);
                        let (i1, t1) = choose|i: int, tr: Seq<int>| 0 <= i < a1.len() && #[trigger] trace_ok(g1, s1, v1, a1[i], tr);
                        assert(accepts_in(g2, s2, es, v2));
                        let (i2, t2) = choose|i: int, tr: Seq<int>| 0 <= i < es.len() && #[trigger] trace_ok(g2, s2, v2, es[i], tr);
                        lemma_trace_extends(g1, h, s1, v1, a1[i1], t1);
                        lemma_trace_extends(g2, h, s2, v2, es[i2], t2);
                        let x = a1[i1].0 as int;
                        assert(has_extra(g2, h, x, (None, s2)));
                        let k = choose|k: int| g2[x].len() <= k < h[x].len() && #[trigger] h[x][k] == (None::<RegexChar>, s2);
                        lemma_trace_cons(h, a1[i1], k, v2, es[i2], t2);
                        lemma_trace_concat(h, s1, v1, a1[i1], t1, v2, es[i2], seq![k] + t2);
                        assert(v1 + v2 =~= v);
                        assert(trace_ok(h, s1, v, es[i2], t1 + (seq![k] + t2)));
                    }
                    if accepts_in(h, s1, es, v) {
                        let (i, tr) = choose|i: int, tr: Seq<int>| 0 <= i < es.len() && #[trigger] trace_ok(h, s1, v, es[i], tr);
                        let a = es[i];
                        assert(m1 <= a.0 < m2);
                        lemma_trace_leaves(g1, h, n, m1, a1, s1, v, a, tr);
                        if trace_ok(g1, s1, v, a, tr) {
                            lemma_trace_stays(g1, g1, n, m1, s1, v, a, tr);
                        } else {
                            let (v1, a0, t1, k, v2, t2) = choose|v1: Seq<char>, a0: StateId, t1: Seq<int>, k: int, v2: Seq<char>, t2: Seq<int>|
                                #![trigger trace_ok(g1, s1, v1, a0, t1), trace_ok(h, h[a0.0 as int][k].1, v2, a, t2)]
                                v == v1 + v2 && a1.contains(a0) && n <= a0.0 < m1 && trace_ok(g1, s1, v1, a0, t1)
                                && g1[a0.0 as int].len() <= k < h[a0.0 as int].len()
                                && h[a0.0 as int][k].0 is None && trace_ok(h, h[a0.0 as int][k].1, v2, a, t2) && t2.len() < tr.len();
                            let x = a0.0 as int;
                            assert(g2[x] == g1[x]);
                            assert(h[x][k] == (None::<RegexChar>, s2));
                            assert forall|y: int| m1 <= y < m2 implies #[trigger] h[y] == g2[y] by {}
                            lemma_trace_stays(g2, h, m1, m2, s2, v2, a, t2);
                            assert(trace_ok(g2, s2, v2, es[i], t2));
                            assert(tail_lang(*r, v2));
                            let q = choose|q: int| 0 <= q < a1.len() && a1[q] == a0;
                            assert(trace_ok(g1, s1, v1, a1[q], t1));
                            lemma_build_lang(*l, g, v1);
                            let j = v1.len() as int;
                            assert(v.subrange(0, j) =~= v1);
                            assert(v.subrange(j, v.len() as int) =~= v2);
                            assert(lang(*l, v.subrange(0, j)));
                        }
                    }
                }
            }
        },
        _ => {},
    }
}

/// No trace from elsewhere ends at a state entered only on `$`.
proof fn lemma_no_trace_into(h: Graph, en: StateId, p: StateId, w: Seq<char>, q: StateId, tr: Seq<int>)
    requires
        forall|x: int, k: int| 0 <= x < h.len() && 0 <= k < h[x].len() && (#[trigger] h[x][k]).1 == en
            ==> h[x][k].0 == Some(RegexChar::End),
        p != en,
        trace_ok(h, p, w, q, tr),
    ensures
        q != en,
    decreases tr.len(),
{
    if tr.len() > 0 {
        let k = tr[0];
        let e = h[p.0 as int][k];
        if e.1 == en {
            assert(e.0 == Some(RegexChar::End));
            assert(!label_matches(e.0, w[0]));
        }
        match e.0 {
            None => lemma_no_trace_into(h, en, e.1, w, q, tr.drop_first()),
            Some(_) => lemma_no_trace_into(h, en, e.1, w.drop_first(), q, tr.drop_first()),
        }
    }
}

/// The automaton of a tail accepts exactly what the tail reads.
pub proof fn lemma_tail_pattern(t: RegexTree, g: Seq<State>, w: Seq<char>)
    requires
        end_tail(t),
        3 * tree_size(t) <= usize::MAX,
        edges_of(g) == build_spec(t, seq![]).0,
    ensures
        accepts_text(g, build_spec(t, seq![]).1, build_spec(t, seq![]).2, w) == tail_lang(t, w),
{
    let g0 = Seq::<Seq<Edge>>::empty();
    assert(seq![] =~= g0);
    lemma_tail_build(t, g0);
    let (h, s, acc) = build_spec(t, g0);
    let es = end_srcs(t, g0);
    let en = acc[0];
    assert(acc =~= seq![en]);
    assert(no_edge_on(h, RegexChar::Start));
    lemma_start_without_anchor(g, s);
    let r0 = run(g, s, w);
    lemma_run_closed(g, s, w);
    lemma_final_split(g, r0);
    assert forall|q: StateId| r0.contains(q) implies exists|tr: Seq<int>| #[trigger] trace_ok(h, s, w, q, tr) by {
        lemma_run_sound(g, s, w, q);
        let (p, t2) = choose|p: StateId, tr: Seq<int>| start_states(g, s).contains(p) && #[trigger] trace_ok(h, p, w, q, tr);
        let pp = choose|pp: Seq<StateId>| #[trigger] eps_path(g, pp) && set![s].contains(pp[0]) && pp.last() == p;
        lemma_eps_path_trace(g, pp);
        let t1 = choose|tr: Seq<int>| #[trigger] trace_ok(h, pp[0], seq![], pp.last(), tr);
        lemma_trace_concat(h, s, seq![], p, t1, w, q, t2);
        assert(Seq::<char>::empty() + w =~= w);
        assert(trace_ok(h, s, w, q, t1 + t2));
    }
    if accepts_text(g, s, acc, w) {
        let x = choose|x: StateId| #[trigger] final_states(g, r0).contains(x) && acc.contains(x);
        assert(x == en);
        if r0.contains(en) {
            let tr = choose|tr: Seq<int>| #[trigger] trace_ok(h, s, w, en, tr);
            lemma_no_trace_into(h, en, s, w, en, tr);
        } else {
            let m = move_set(g, r0, RegexChar::End);
            assert(eps_closure(g, m).contains(en));
            let pp = choose|pp: Seq<StateId>| #[trigger] eps_path(g, pp) && m.contains(pp[0]) && pp.last() == en;
            let y = choose|y: StateId| r0.contains(y) && 0 <= y.0 < g.len() && #[trigger] g[y.0 as int].has_edge(Some(RegexChar::End), pp[0]);
            let k = choose|k: int| 0 <= k < g[y.0 as int].transitions@.len() && g[y.0 as int].transitions@[k] == (Some(RegexChar::End), pp[0]);
            assert(h[y.0 as int] == g[y.0 as int].transitions@);
            assert(h[y.0 as int][k].0 == Some(RegexChar::End));
            assert(es.contains(y));
            let i = choose|i: int| 0 <= i < es.len() && es[i] == y;
            let tr = choose|tr: Seq<int>| #[trigger] trace_ok(h, s, w, y, tr);
            assert(trace_ok(h, s, w, es[i], tr));
        }
    }
    if tail_lang(t, w) {
        let (i, tr) = choose|i: int, tr: Seq<int>| 0 <= i < es.len() && #[trigger] trace_ok(h, s, w, es[i], tr);
        let one = seq![s];
        assert(eps_path(g, one));
        assert(set![s].contains(one[0]));
        lemma_run_complete(g, s, w, s, es[i], tr);
        assert(has_end_edge(h, es[i], en));
        let k = choose|k: int| 0 <= k < h[es[i].0 as int].len() && #[trigger] h[es[i].0 as int][k] == (Some(RegexChar::End), en);
        assert(g[es[i].0 as int].transitions@[k] == (Some(RegexChar::End), en));
        assert(g[es[i].0 as int].has_edge(Some(RegexChar::End), en));
        let m = move_set(g, r0, RegexChar::End);
        assert(m.contains(en));
        let one2 = seq![en];
        assert(eps_path(g, one2));
        assert(m.contains(one2[0]));
        assert(eps_closure(g, m).contains(en));
        assert(final_states(g, r0).contains(en));
        assert(acc.contains(en));
    }
}

/// The automaton of `^` followed by a tail (other than `e$` itself) accepts exactly what the
/// tail reads: the characters the `^` construction would allow after the tail can only follow
/// its `$`, which is read at the end.
pub proof fn lemma_prefix_tail_pattern(r: RegexTree, g: Seq<State>, w: Seq<char>)
    requires
        end_tail(r),
        (match r {
            RegexTree::BinOp(_, _, ir) => !is_end(*ir),
            _ => true,
        }),
        3 * tree_size(r) + 3 <= usize::MAX,
        ({
            let t = RegexTree::BinOp(RegexBinOp::Concat, Box::new(RegexTree::Char(RegexChar::Start)), Box::new(r));
            edges_of(g) == build_spec(t, seq![]).0
        }),
    ensures
        ({
            let t = RegexTree::BinOp(RegexBinOp::Concat, Box::new(RegexTree::Char(RegexChar::Start)), Box::new(r));
            accepts_text(g, build_spec(t, seq![]).1, build_spec(t, seq![]).2, w) == tail_lang(r, w)
        }),
{
    let t = RegexTree::BinOp(RegexBinOp::Concat, Box::new(RegexTree::Char(RegexChar::Start)), Box::new(r));
    let g0 = Seq::<Seq<Edge>>::empty();
    assert(seq![] =~= g0);
    lemma_tail_build(r, g0);
    let (g1, s1, a1) = build_spec(r, g0);
    let es = end_srcs(r, g0);
    let en = a1[0];
    let n1 = g1.len() as int;
    let ds = StateId(n1 as usize);
    let da = StateId((n1 + 1) as usize);
    let st = StateId((n1 + 2) as usize);
    let gp = g1.push(seq![]).push(seq![]);
    lemma_add_edge(gp, ds, (Some(RegexChar::Any), da));
    let gq = add_edge(gp, ds, (Some(RegexChar::Any), da));
    lemma_add_edge(gq, da, (Some(RegexChar::Any), da));
    let g2 = add_edge(gq, da, (Some(RegexChar::Any), da));
    lemma_add_edge(g2.push(seq![]), st, (Some(RegexChar::Start), s1));
    let g3 = add_edge(g2.push(seq![]), st, (Some(RegexChar::Start), s1));
    assert forall|i: int| 0 <= i < a1.len() implies 0 <= (#[trigger] a1[i]).0 < n1 by {
        assert(i == 0);
    }
    lemma_add_from_all(g3, a1, (None, ds));
    let h = add_from_all(g3, a1, (None, ds));
    let acc = a1.push(da);
    assert(is_start(RegexTree::Char(RegexChar::Start)));
    assert(build_spec(t, g0) == (h, st, acc));
    assert(edges_of(g) == h);
    // the shape of the automaton
    lemma_outside_unchanged(g3, a1, (None, ds), n1 + 2, n1);
    assert(h[n1 + 2] =~= seq![(Some(RegexChar::Start), s1)]);
    assert(g[st.0 as int].transitions@ == h[n1 + 2]);
    assert(anchor_entry(g, st, s1));
    assert forall|x: int| 0 <= x < n1 implies #[trigger] g3[x] == g1[x] by {
        assert(g2[x] == g1[x]);
    }
    assert(grown_at(g1, h, 0, n1, a1));
    lemma_grown_extends(g1, h, a1);
    assert forall|x: int| 0 <= x < n1 && x != en.0 implies #[trigger] h[x] == g1[x] by {
        if h[x].len() > g3[x].len() {
            let i = choose|i: int| 0 <= i < a1.len() && a1[i] == StateId(x as usize);
            assert(i == 0);
        }
        assert(h[x] =~= g3[x]);
    }
    // every state reached is the start state or ends a trace through the tail's automaton,
    // short of its accepting state
    assert forall|q: StateId| #[trigger] run(g, st, w).contains(q) implies
        (q == st && w.len() == 0) || (q.0 < n1 && q != en && exists|tr: Seq<int>| #[trigger] trace_ok(g1, s1, w, q, tr)) by {
        lemma_run_from_entry(g, st, s1, w, q);
        if !(q == st && w.len() == 0) {
            let tr = choose|tr: Seq<int>| #[trigger] trace_ok(h, s1, w, q, tr);
            lemma_trace_leaves(g1, h, 0, n1, a1, s1, w, q, tr);
            if trace_ok(g1, s1, w, q, tr) {
                lemma_trace_stays(g1, g1, 0, n1, s1, w, q, tr);
                lemma_no_trace_into(g1, en, s1, w, q, tr);
            } else {
                let (w1, a, t1, k2, w2, t2) = choose|w1: Seq<char>, a: StateId, t1: Seq<int>, k2: int, w2: Seq<char>, t2: Seq<int>|
                    #![trigger trace_ok(g1, s1, w1, a, t1), trace_ok(h, h[a.0 as int][k2].1, w2, q, t2)]
                    w == w1 + w2 && a1.contains(a) && 0 <= a.0 < n1 && trace_ok(g1, s1, w1, a, t1)
                    && g1[a.0 as int].len() <= k2 < h[a.0 as int].len()
                    && h[a.0 as int][k2].0 is None && trace_ok(h, h[a.0 as int][k2].1, w2, q, t2) && t2.len() < tr.len();
                assert(a == en);
                lemma_no_trace_into(g1, en, s1, w1, a, t1);
            }
        }
    }
    let r0 = run(g, st, w);
    lemma_run_closed(g, st, w);
    lemma_final_split(g, r0);
    if accepts_text(g, st, acc, w) {
        let x = choose|x: StateId| #[trigger] final_states(g, r0).contains(x) && acc.contains(x);
        let j = choose|j: int| 0 <= j < acc.len() && acc[j] == x;
        assert(x == en || x == da);
        if r0.contains(x) {
            assert(x.0 < n1 || x == st);
        } else {
            let m = move_set(g, r0, RegexChar::End);
            assert(eps_closure(g, m).contains(x));
            let pp = choose|pp: Seq<StateId>| #[trigger] eps_path(g, pp) && m.contains(pp[0]) && pp.last() == x;
            let y = choose|y: StateId| r0.contains(y) && 0 <= y.0 < g.len() && #[trigger] g[y.0 as int].has_edge(Some(RegexChar::End), pp[0]);
            let k = choose|k: int| 0 <= k < g[y.0 as int].transitions@.len() && g[y.0 as int].transitions@[k] == (Some(RegexChar::End), pp[0]);
            assert(h[y.0 as int] == g[y.0 as int].transitions@);
            if y == st {
                assert(h[n1 + 2][k] == h[n1 + 2][0]);
            } else {
                assert(y.0 < n1 && y != en);
                assert(h[y.0 as int] == g1[y.0 as int]);
                assert(g1[y.0 as int][k].0 == Some(RegexChar::End));
                assert(es.contains(y));
                let i = choose|i: int| 0 <= i < es.len() && es[i] == y;
                let tr = choose|tr: Seq<int>| #[trigger] trace_ok(g1, s1, w, y, tr);
                assert(trace_ok(g1, s1, w, es[i], tr));
                assert(accepts_in(g1, s1, es, w));
            }
        }
    }
    if tail_lang(r, w) {
        let (i, tr) = choose|i: int, tr: Seq<int>| 0 <= i < es.len() && #[trigger] trace_ok(g1, s1, w, es[i], tr);
        lemma_trace_extends(g1, h, s1, w, es[i], tr);
        lemma_entry_target_starts(g, st, s1);
        lemma_run_complete(g, st, w, s1, es[i], tr);
        assert(has_end_edge(g1, es[i], en));
        let k = choose|k: int| 0 <= k < g1[es[i].0 as int].len() && #[trigger] g1[es[i].0 as int][k] == (Some(RegexChar::End), en);
        assert(h[es[i].0 as int][k] == (Some(RegexChar::End), en));
        assert(g[es[i].0 as int].transitions@[k] == (Some(RegexChar::End), en));
        assert(g[es[i].0 as int].has_edge(Some(RegexChar::End), en));
        let m = move_set(g, r0, RegexChar::End);
        assert(m.contains(en));
        let one = seq![en];
        assert(eps_path(g, one));
        assert(m.contains(one[0]));
        assert(eps_closure(g, m).contains(en));
        assert(final_states(g, r0).contains(en));
        assert(acc[0] == en);
        assert(acc.contains(en));
    }
}

} // verus!
