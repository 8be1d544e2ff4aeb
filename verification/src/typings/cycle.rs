//! Inheritance cycles: a depth-first walk down the children links of the type tree, which
//! rewrites each child's depth from its parent's and reports a type met again on the way.

use vstd::prelude::*;
use crate::typings::types_ast::TypeAST;
use crate::typings::types_node::{TypeNode, TypeNodeModel, opt_str};
use crate::parser::ll1::{views, copy_strings};

verus! {

/// The names of the types, in order.
pub open spec fn node_names(nodes: Seq<TypeNode>) -> Seq<Seq<char>> {
    nodes.map_values(|n: TypeNode| n.name@)
}

/// The children's names of each type, in order.
pub open spec fn node_children(nodes: Seq<TypeNode>) -> Seq<Seq<Seq<char>>> {
    nodes.map_values(|n: TypeNode| views(n.children@))
}

/// The depth of each type, in order.
pub open spec fn node_depths(nodes: Seq<TypeNode>) -> Seq<int> {
    nodes.map_values(|n: TypeNode| n.depth as int)
}

/// `b` is `a` with, at most, other depths.
pub open spec fn same_but_depth(a: Seq<TypeNode>, b: Seq<TypeNode>) -> bool {
    &&& a.len() == b.len()
    &&& forall|j: int| 0 <= j < a.len() ==> (#[trigger] b[j]).model() == TypeNodeModel { depth: b[j].depth, ..a[j].model() }
}

/// Position `i` holds the first occurrence of `name`.
pub open spec fn is_first(names: Seq<Seq<char>>, name: Seq<char>, i: int) -> bool {
    &&& 0 <= i < names.len()
    &&& names[i] == name
    &&& forall|j: int| 0 <= j < i ==> names[j] != name
}

/// The position of the first occurrence of `name`, if any.
pub open spec fn first_index(names: Seq<Seq<char>>, name: Seq<char>) -> Option<int> {
    if exists|i: int| is_first(names, name, i) {
        Some(choose|i: int| is_first(names, name, i))
    } else {
        None
    }
}

/// The walk from `name` with `path` on the stack, over the names `names` and children `kids`
/// of the types, from depths `depths`: the depths after it and the type met again, if any;
/// nothing when a depth leaves `i32`. A type met again is reported at once; a type not in the
/// tree ends the walk there; otherwise each child in turn gets its parent's depth plus one
/// (when it is in the tree) and is walked from.
pub open spec fn visit(names: Seq<Seq<char>>, kids: Seq<Seq<Seq<char>>>, depths: Seq<int>, name: Seq<char>,
    path: Seq<Seq<char>>, fuel: nat) -> Option<(Seq<int>, Option<Seq<char>>)>
    decreases fuel, 0int, 0int,
{
    if path.contains(name) {
        Some((depths, Some(name)))
    } else {
        match first_index(names, name) {
            None => Some((depths, None)),
            Some(i) => if fuel == 0 {
                Some((depths, None))
            } else {
                visit_children(names, kids, depths, kids[i], 0, depths[i], path.push(name), (fuel - 1) as nat)
            },
        }
    }
}

/// The walk over `children` from the `k`-th on, whose parent had depth `pd`.
pub open spec fn visit_children(names: Seq<Seq<char>>, kids: Seq<Seq<Seq<char>>>, depths: Seq<int>,
    children: Seq<Seq<char>>, k: int, pd: int, path: Seq<Seq<char>>, fuel: nat) -> Option<(Seq<int>, Option<Seq<char>>)>
    decreases fuel, 1int, children.len() - k,
{
    if k < 0 || k >= children.len() {
        Some((depths, None))
    } else {
        let c = children[k];
        let set = match first_index(names, c) {
            Some(j) => if pd + 1 <= i32::MAX { Some(depths.update(j, pd + 1)) } else { None },
            None => Some(depths),
        };
        match set {
            None => None,
            Some(d1) => match visit(names, kids, d1, c, path, fuel) {
                None => None,
                Some((d2, Some(x))) => Some((d2, Some(x))),
                Some((d2, None)) => visit_children(names, kids, d2, children, k + 1, pd, path, fuel),
            },
        }
    }
}

/// The walks from each type in turn, from the `k`-th on, until one meets a type again.
pub open spec fn cycle_search(names: Seq<Seq<char>>, kids: Seq<Seq<Seq<char>>>, depths: Seq<int>, k: int)
    -> Option<(Seq<int>, Option<Seq<char>>)>
    decreases names.len() - k,
{
    if k < 0 || k >= names.len() {
        Some((depths, None))
    } else {
        match visit(names, kids, depths, names[k], seq![], names.len()) {
            None => None,
            Some((d, Some(x))) => Some((d, Some(x))),
            Some((d, None)) => cycle_search(names, kids, d, k + 1),
        }
    }
}

/// `b` is listed among the children of the first type named `a`.
pub open spec fn child_link(names: Seq<Seq<char>>, kids: Seq<Seq<Seq<char>>>, a: Seq<char>, b: Seq<char>) -> bool {
    match first_index(names, a) {
        Some(i) => kids[i].contains(b),
        None => false,
    }
}

/// Each name of `w` after the first is a child of the one before.
pub open spec fn is_walk(names: Seq<Seq<char>>, kids: Seq<Seq<Seq<char>>>, w: Seq<Seq<char>>) -> bool {
    forall|i: int| 0 <= i < w.len() - 1 ==> #[trigger] child_link(names, kids, w[i], w[i + 1])
}

/// Going down children links from `x`, one comes back to `x`.
pub open spec fn on_cycle(names: Seq<Seq<char>>, kids: Seq<Seq<Seq<char>>>, x: Seq<char>) -> bool {
    exists|w: Seq<Seq<char>>| #![trigger is_walk(names, kids, w)]
        w.len() >= 2 && w[0] == x && w[w.len() - 1] == x && is_walk(names, kids, w)
}

/// The result of a walk, when it reports a type.
pub open spec fn reported(r: Option<(Seq<int>, Option<Seq<char>>)>) -> Option<Seq<char>> {
    match r {
        Some((_, found)) => found,
        None => None,
    }
}

/// A walk whose stack is a walk down children links, and whose start is a child of the top
/// of the stack, reports only types on a cycle.
proof fn lemma_visit_reports_cycle(names: Seq<Seq<char>>, kids: Seq<Seq<Seq<char>>>, depths: Seq<int>,
    name: Seq<char>, path: Seq<Seq<char>>, fuel: nat)
    requires
        is_walk(names, kids, path),
        path.len() > 0 ==> child_link(names, kids, path[path.len() - 1], name),
    ensures
        reported(visit(names, kids, depths, name, path, fuel)) matches Some(x) ==> on_cycle(names, kids, x),
    decreases fuel, 0int, 0int,
{
    if path.contains(name) {
        let m = choose|m: int| 0 <= m < path.len() && path[m] == name;
        let w = path.subrange(m, path.len() as int).push(name);
        assert forall|i: int| 0 <= i < w.len() - 1 implies #[trigger] child_link(names, kids, w[i], w[i + 1]) by {
            if i < w.len() - 2 {
                assert(w[i] == path[m + i] && w[i + 1] == path[m + i + 1]);
                assert(child_link(names, kids, path[m + i], path[m + i + 1]));
            } else {
                assert(w[i] == path[path.len() - 1] && w[i + 1] == name);
            }
        }
        assert(is_walk(names, kids, w));
    } else {
        match first_index(names, name) {
            None => {},
            Some(i) => if fuel > 0 {
                let p2 = path.push(name);
                assert forall|j: int| 0 <= j < p2.len() - 1 implies #[trigger] child_link(names, kids, p2[j], p2[j + 1]) by {
                    if j < path.len() - 1 {
                        assert(p2[j] == path[j] && p2[j + 1] == path[j + 1]);
                        assert(child_link(names, kids, path[j], path[j + 1]));
                    }
                }
                assert forall|k: int| 0 <= k < kids[i].len() implies child_link(names, kids, p2[p2.len() - 1], #[trigger] kids[i][k]) by {
                    assert(kids[i].contains(kids[i][k]));
                }
                lemma_children_report_cycle(names, kids, depths, kids[i], 0, depths[i], p2, (fuel - 1) as nat);
            },
        }
    }
}

/// The walk over the children of the top of the stack reports only types on a cycle.
proof fn lemma_children_report_cycle(names: Seq<Seq<char>>, kids: Seq<Seq<Seq<char>>>, depths: Seq<int>,
    children: Seq<Seq<char>>, k: int, pd: int, path: Seq<Seq<char>>, fuel: nat)
    requires
        is_walk(names, kids, path),
        path.len() > 0,
        forall|c: int| 0 <= c < children.len() ==> child_link(names, kids, path[path.len() - 1], #[trigger] children[c]),
    ensures
        reported(visit_children(names, kids, depths, children, k, pd, path, fuel)) matches Some(x)
            ==> on_cycle(names, kids, x),
    decreases fuel, 1int, children.len() - k,
{
    if 0 <= k < children.len() {
        let c = children[k];
        let set = match first_index(names, c) {
            Some(j) => if pd + 1 <= i32::MAX { Some(depths.update(j, pd + 1)) } else { None },
            None => Some(depths),
        };
        match set {
            None => {},
            Some(d1) => {
                lemma_visit_reports_cycle(names, kids, d1, c, path, fuel);
                match visit(names, kids, d1, c, path, fuel) {
                    Some((d2, None)) => {
                        lemma_children_report_cycle(names, kids, d2, children, k + 1, pd, path, fuel);
                    },
                    _ => {},
                }
            },
        }
    }
}

/// The walks from the `k`-th type on report only types on a cycle.
proof fn lemma_search_reports_cycle(names: Seq<Seq<char>>, kids: Seq<Seq<Seq<char>>>, depths: Seq<int>, k: int)
    ensures
        reported(cycle_search(names, kids, depths, k)) matches Some(x) ==> on_cycle(names, kids, x),
    decreases names.len() - k,
{
    if 0 <= k < names.len() {
        lemma_visit_reports_cycle(names, kids, depths, names[k], seq![], names.len());
        match visit(names, kids, depths, names[k], seq![], names.len()) {
            Some((d, None)) => {
                lemma_search_reports_cycle(names, kids, d, k + 1);
            },
            _ => {},
        }
    }
}

/// A type that the cycle search reports lies on an inheritance cycle: going down children
/// links from it, one comes back to it.
pub proof fn lemma_reported_type_is_on_cycle(nodes: Seq<TypeNode>, x: Seq<char>)
    requires
        reported(cycle_search(node_names(nodes), node_children(nodes), node_depths(nodes), 0)) == Some(x),
    ensures
        on_cycle(node_names(nodes), node_children(nodes), x),
{
    lemma_search_reports_cycle(node_names(nodes), node_children(nodes), node_depths(nodes), 0);
}

/// The depths with which the walk over `children` from the `k`-th on started the walk from the
/// `m`-th child, when that walk over the children reported nothing.
proof fn lemma_children_quiet(names: Seq<Seq<char>>, kids: Seq<Seq<Seq<char>>>, depths: Seq<int>,
    children: Seq<Seq<char>>, k: int, pd: int, path: Seq<Seq<char>>, fuel: nat, m: int) -> (d: Seq<int>)
    requires
        visit_children(names, kids, depths, children, k, pd, path, fuel) matches Some((_, None)),
        0 <= k <= m < children.len(),
    ensures
        visit(names, kids, d, children[m], path, fuel) matches Some((_, None)),
    decreases children.len() - k,
{
    let c = children[k];
    let set = match first_index(names, c) {
        Some(j) => if pd + 1 <= i32::MAX { Some(depths.update(j, pd + 1)) } else { None },
        None => Some(depths),
    };
    let d1 = set.unwrap();
    if m == k {
        d1
    } else {
        let d2 = visit(names, kids, d1, c, path, fuel).unwrap().0;
        lemma_children_quiet(names, kids, d2, children, k + 1, pd, path, fuel, m)
    }
}

/// The depths with which the search from the `k`-th type on started the walk from the `m`-th
/// type, when that search reported nothing.
proof fn lemma_search_quiet(names: Seq<Seq<char>>, kids: Seq<Seq<Seq<char>>>, depths: Seq<int>, k: int, m: int)
    -> (d: Seq<int>)
    requires
        cycle_search(names, kids, depths, k) matches Some((_, None)),
        0 <= k <= m < names.len(),
    ensures
        visit(names, kids, d, names[m], seq![], names.len()) matches Some((_, None)),
    decreases names.len() - k,
{
    if m == k {
        depths
    } else {
        let d2 = visit(names, kids, depths, names[k], seq![], names.len()).unwrap().0;
        lemma_search_quiet(names, kids, d2, k + 1, m)
    }
}

/// A walk down children links from `name`, no longer than the fuel reaches, ends neither on
/// the stack nor on a type it passed, when the walk from `name` reported nothing.
proof fn lemma_visit_quiet(names: Seq<Seq<char>>, kids: Seq<Seq<Seq<char>>>, depths: Seq<int>,
    name: Seq<char>, path: Seq<Seq<char>>, fuel: nat, w: Seq<Seq<char>>)
    requires
        visit(names, kids, depths, name, path, fuel) matches Some((_, None)),
        1 <= w.len() <= fuel + 1,
        w[0] == name,
        is_walk(names, kids, w),
    ensures
        !(path + w.drop_last()).contains(w.last()),
    decreases fuel,
{
    if w.len() == 1 {
        assert(path + w.drop_last() =~= path);
    } else {
        assert(child_link(names, kids, w[0], w[1]));
        let i = first_index(names, name).unwrap();
        assert(kids[i].contains(w[1]));
        let m = choose|m: int| 0 <= m < kids[i].len() && kids[i][m] == w[1];
        let d = lemma_children_quiet(names, kids, depths, kids[i], 0, depths[i], path.push(name),
            (fuel - 1) as nat, m);
        let w2 = w.subrange(1, w.len() as int);
        assert forall|j: int| 0 <= j < w2.len() - 1 implies #[trigger] child_link(names, kids, w2[j], w2[j + 1]) by {
            let a = j + 1;
            assert(child_link(names, kids, w[a], w[a + 1]));
            assert(w2[j] == w[a] && w2[j + 1] == w[a + 1]);
        }
        lemma_visit_quiet(names, kids, d, w[1], path.push(name), (fuel - 1) as nat, w2);
        assert(path + w.drop_last() =~= path.push(name) + w2.drop_last());
    }
}

/// The first position `r` from `j` on whose name already came before it.
proof fn lemma_first_repeat(w: Seq<Seq<char>>, j: int) -> (r: int)
    requires
        1 <= j < w.len(),
        w.take(j).no_duplicates(),
        w.take(w.len() - 1).contains(w.last()),
    ensures
        j <= r < w.len(),
        w.take(r).no_duplicates(),
        w.take(r).contains(w[r]),
    decreases w.len() - j,
{
    if w.take(j).contains(w[j]) {
        j
    } else {
        let p = w.take(j + 1);
        assert(p =~= w.take(j).push(w[j]));
        assert forall|a: int, b: int| 0 <= a < p.len() && 0 <= b < p.len() && a != b implies p[a] != p[b] by {
            if a < j && b < j {
                assert(w.take(j)[a] != w.take(j)[b]);
            } else if a == j {
                assert(w.take(j)[b] == p[b]);
            } else {
                assert(w.take(j)[a] == p[a]);
            }
        }
        lemma_first_repeat(w, j + 1)
    }
}

/// A cycle search that reports nothing leaves no type on an inheritance cycle.
proof fn lemma_quiet_search_no_cycle(names: Seq<Seq<char>>, kids: Seq<Seq<Seq<char>>>, depths: Seq<int>, x: Seq<char>)
    requires
        cycle_search(names, kids, depths, 0) matches Some((_, None)),
    ensures
        !on_cycle(names, kids, x),
{
    broadcast use vstd::seq_lib::seq_to_set_is_finite;
    if on_cycle(names, kids, x) {
        let w = choose|w: Seq<Seq<char>>| #![trigger is_walk(names, kids, w)]
            w.len() >= 2 && w[0] == x && w[w.len() - 1] == x && is_walk(names, kids, w);
        assert(w.take(w.len() - 1)[0] == x);
        assert(w.take(w.len() - 1).contains(w.last()));
        assert(w.take(1).no_duplicates());
        let r = lemma_first_repeat(w, 1);
        let u = w.take(r + 1);
        assert forall|j: int| 0 <= j < u.len() - 1 implies #[trigger] child_link(names, kids, u[j], u[j + 1]) by {
            assert(child_link(names, kids, w[j], w[j + 1]));
        }
        let p = w.take(r);
        assert forall|a: Seq<char>| p.to_set().contains(a) implies names.to_set().contains(a) by {
            let j = choose|j: int| 0 <= j < p.len() && p[j] == a;
            assert(child_link(names, kids, w[j], w[j + 1]));
            let i = first_index(names, w[j]).unwrap();
            assert(names[i] == a);
        }
        p.unique_seq_to_set();
        names.lemma_cardinality_of_set();
        vstd::set_lib::lemma_len_subset(p.to_set(), names.to_set());
        assert(child_link(names, kids, w[0], w[1]));
        let i0 = first_index(names, x).unwrap();
        let d = lemma_search_quiet(names, kids, depths, 0, i0);
        lemma_visit_quiet(names, kids, d, x, seq![], names.len(), u);
        assert(seq![] + u.drop_last() =~= p);
    }
}

/// The cycle search reports a type exactly when some type lies on an inheritance cycle, and
/// the type it reports lies on one.
pub proof fn lemma_cycle_reported_iff(nodes: Seq<TypeNode>)
    requires
        cycle_search(node_names(nodes), node_children(nodes), node_depths(nodes), 0) is Some,
    ensures
        reported(cycle_search(node_names(nodes), node_children(nodes), node_depths(nodes), 0)) is None
            <==> forall|x: Seq<char>| !#[trigger] on_cycle(node_names(nodes), node_children(nodes), x),
        reported(cycle_search(node_names(nodes), node_children(nodes), node_depths(nodes), 0)) matches Some(x)
            ==> on_cycle(node_names(nodes), node_children(nodes), x),
{
    let names = node_names(nodes);
    let kids = node_children(nodes);
    let depths = node_depths(nodes);
    lemma_search_reports_cycle(names, kids, depths, 0);
    if reported(cycle_search(names, kids, depths, 0)) is None {
        assert forall|x: Seq<char>| !#[trigger] on_cycle(names, kids, x) by {
            lemma_quiet_search_no_cycle(names, kids, depths, x);
        }
    }
}

/// The first occurrence found is the one `first_index` gives.
proof fn lemma_first_index(names: Seq<Seq<char>>, name: Seq<char>, i: int)
    requires
        is_first(names, name, i),
    ensures
        first_index(names, name) == Some(i),
{
    let c = choose|k: int| is_first(names, name, k);
    assert(is_first(names, name, c));
    if c < i {
        assert(names[c] != name);
    }
    if i < c {
        assert(names[i] != name);
    }
}

/// A name that does not occur has no first occurrence.
proof fn lemma_no_index(names: Seq<Seq<char>>, name: Seq<char>)
    requires
        forall|j: int| 0 <= j < names.len() ==> names[j] != name,
    ensures
        first_index(names, name) is None,
{
    if exists|i: int| is_first(names, name, i) {
        let c = choose|k: int| is_first(names, name, k);
        assert(names[c] == name);
    }
}

/// A stack of distinct names, all of them names of types, is no longer than the list of types.
proof fn lemma_path_bound(path: Seq<Seq<char>>, names: Seq<Seq<char>>)
    requires
        path.no_duplicates(),
        forall|x: Seq<char>| path.contains(x) ==> names.contains(x),
    ensures
        path.len() <= names.len(),
{
    broadcast use vstd::seq_lib::seq_to_set_is_finite;
    path.unique_seq_to_set();
    assert(path.to_set().subset_of(names.to_set()));
    vstd::set_lib::lemma_len_subset(path.to_set(), names.to_set());
    names.lemma_cardinality_of_set();
}

/// Changing depths twice changes depths only.
proof fn lemma_same_but_depth_trans(a: Seq<TypeNode>, b: Seq<TypeNode>, c: Seq<TypeNode>)
    requires
        same_but_depth(a, b),
        same_but_depth(b, c),
    ensures
        same_but_depth(a, c),
{
    assert forall|j: int| 0 <= j < a.len() implies (#[trigger] c[j]).model()
        == (TypeNodeModel { depth: c[j].depth, ..a[j].model() }) by {
        assert(c[j].model() == TypeNodeModel { depth: c[j].depth, ..b[j].model() });
        assert(b[j].model() == TypeNodeModel { depth: b[j].depth, ..a[j].model() });
    }
}

/// Whether `name` is on the stack.
fn on_stack(stack: &Vec<String>, name: &String) -> (b: bool)
    ensures
        b == views(stack@).contains(name@),
{
    let mut i: usize = 0;
    while i < stack.len()
        invariant
            i <= stack@.len(),
            forall|j: int| 0 <= j < i ==> views(stack@)[j] != name@,
        decreases stack@.len() - i,
    {
        if stack[i] == *name {
            assert(views(stack@)[i as int] == name@);
            return true;
        }
        i += 1;
    }
    false
}

/// The position of the first type named `name`, if any.
fn position(nodes: &Vec<TypeNode>, name: &String) -> (r: Option<usize>)
    ensures
        match r {
            None => first_index(node_names(nodes@), name@) is None,
            Some(i) => i < nodes@.len() && first_index(node_names(nodes@), name@) == Some(i as int),
        },
{
    let ghost names = node_names(nodes@);
    let mut i: usize = 0;
    while i < nodes.len()
        invariant
            i <= nodes@.len(),
            names == node_names(nodes@),
            forall|j: int| 0 <= j < i ==> names[j] != name@,
        decreases nodes@.len() - i,
    {
        if nodes[i].name == *name {
            proof {
                lemma_first_index(names, name@, i as int);
            }
            return Some(i);
        }
        i += 1;
    }
    proof {
        lemma_no_index(names, name@);
    }
    None
}

/// Sets the depth of the `j`-th type.
fn set_depth(nodes: &mut Vec<TypeNode>, j: usize, d: i32)
    requires
        j < old(nodes)@.len(),
    ensures
        final(nodes)@.len() == old(nodes)@.len(),
        final(nodes)@[j as int].depth == d,
        final(nodes)@[j as int].model() == (TypeNodeModel { depth: d, ..old(nodes)@[j as int].model() }),
        forall|k: int| 0 <= k < old(nodes)@.len() && k != j ==> final(nodes)@[k] == old(nodes)@[k],
{
    nodes[j].depth = d;
}

impl TypeAST {
    /// The walk from `node_name` with `visited` on the stack (see `visit`).
    fn helper(&mut self, node_name: String, visited: &mut Vec<String>) -> (r: Option<String>)
        requires
            views(old(visited)@).no_duplicates(),
            forall|x: Seq<char>| views(old(visited)@).contains(x) ==> node_names(old(self).nodes@).contains(x),
            (visit(node_names(old(self).nodes@), node_children(old(self).nodes@), node_depths(old(self).nodes@),
                node_name@, views(old(visited)@), (old(self).nodes@.len() - old(visited)@.len()) as nat) is Some),
        ensures
            same_but_depth(old(self).nodes@, final(self).nodes@),
            final(self).root == old(self).root,
            visit(node_names(old(self).nodes@), node_children(old(self).nodes@), node_depths(old(self).nodes@),
                node_name@, views(old(visited)@), (old(self).nodes@.len() - old(visited)@.len()) as nat)
                == Some((node_depths(final(self).nodes@), opt_str(r))),
            r is None ==> final(visited)@ == old(visited)@,
        decreases old(self).nodes@.len() - old(visited)@.len(),
    {
        let ghost names = node_names(self.nodes@);
        let ghost kids = node_children(self.nodes@);
        let ghost path = views(visited@);
        let ghost fuel = (self.nodes@.len() - visited@.len()) as nat;
        if on_stack(visited, &node_name) {
            return Some(node_name);
        }
        let found = position(&self.nodes, &node_name);
        match found {
            None => None,
            Some(i) => {
                proof {
                    assert(names[i as int] == node_name@);
                    assert forall|x: Seq<char>| path.push(node_name@).contains(x) implies names.contains(x) by {
                        if x == node_name@ {
                            assert(names[i as int] == x);
                        } else {
                            let w = choose|w: int| 0 <= w < path.push(node_name@).len() && path.push(node_name@)[w] == x;
                            assert(path[w] == x);
                            assert(views(old(visited)@).contains(x));
                        }
                    }
                    lemma_path_bound(path.push(node_name@), names);
                }
                visited.push(node_name.clone());
                let ghost pushed = visited@;
                proof {
                    assert(views(visited@) =~= path.push(node_name@));
                }
                let parent_depth = self.nodes[i].depth;
                let children = copy_strings(&self.nodes[i].children);
                let ghost cs = views(children@);
                let ghost whole = visit(names, kids, node_depths(self.nodes@), node_name@, path, fuel);
                let ghost orig = self.nodes@;
                assert(cs == kids[i as int]);
                assert(node_depths(orig)[i as int] == parent_depth as int);
                assert(whole == visit_children(names, kids, node_depths(self.nodes@), cs, 0,
                    parent_depth as int, path.push(node_name@), (fuel - 1) as nat));
                let mut k: usize = 0;
                while k < children.len()
                    invariant
                        k <= children@.len(),
                        cs == views(children@),
                        fuel >= 1,
                        names == node_names(orig),
                        kids == node_children(orig),
                        same_but_depth(orig, self.nodes@),
                        self.root == old(self).root,
                        orig == old(self).nodes@,
                        views(visited@) == path.push(node_name@),
                        views(visited@).no_duplicates(),
                        forall|x: Seq<char>| views(visited@).contains(x) ==> names.contains(x),
                        visited@ == pushed,
                        old(visited)@.len() + 1 <= old(self).nodes@.len(),
                        self.nodes@.len() == old(self).nodes@.len(),
                        fuel == old(self).nodes@.len() - old(visited)@.len(),
                        pushed == old(visited)@.push(pushed.last()),
                        whole is Some,
                        whole == visit(node_names(old(self).nodes@), node_children(old(self).nodes@),
                            node_depths(old(self).nodes@), node_name@, views(old(visited)@), fuel),
                        whole == visit_children(names, kids, node_depths(self.nodes@), cs, k as int,
                            parent_depth as int, path.push(node_name@), (fuel - 1) as nat),
                    decreases children@.len() - k,
                {
                    let child = children[k].clone();
                    let ghost before = self.nodes@;
                    proof {
                        assert(node_names(before) =~= names);
                        assert(cs[k as int] == child@);
                    }
                    match position(&self.nodes, &child) {
                        Some(j) => {
                            set_depth(&mut self.nodes, j, parent_depth + 1);
                            proof {
                                assert(node_depths(self.nodes@) =~= node_depths(before).update(j as int, parent_depth + 1));
                            }
                        },
                        None => {},
                    }
                    proof {
                        assert(node_names(self.nodes@) =~= names);
                        assert(node_children(self.nodes@) =~= kids);
                    }
                    let ghost mid = self.nodes@;
                    proof {
                        assert(visit(names, kids, node_depths(self.nodes@), child@, path.push(node_name@), (fuel - 1) as nat) is Some);
                        assert(self.nodes@.len() - visited@.len() == fuel - 1);
                    }
                    let sub = self.helper(child, visited);
                    proof {
                        assert(same_but_depth(before, mid));
                        lemma_same_but_depth_trans(orig, before, mid);
                        lemma_same_but_depth_trans(orig, mid, self.nodes@);
                    }
                    match sub {
                        Some(c) => {
                            assert(whole == Some((node_depths(self.nodes@), Some(c@))));
                            return Some(c);
                        },
                        None => {},
                    }
                    k += 1;
                }
                visited.pop();
                proof {
                    assert(visited@ =~= old(visited)@);
                }
                None
            },
        }
    }
}

impl TypeAST {
    /// Looks for an inheritance cycle: walks down from each type in turn (see `cycle_search`),
    /// rewriting the children's depths on the way, and returns the first type met again on a
    /// walk, if any.
    pub fn inheritance_cicle(&mut self) -> (r: Option<String>)
        requires
            (cycle_search(node_names(old(self).nodes@), node_children(old(self).nodes@),
                node_depths(old(self).nodes@), 0) is Some),
        ensures
            same_but_depth(old(self).nodes@, final(self).nodes@),
            final(self).root == old(self).root,
            cycle_search(node_names(old(self).nodes@), node_children(old(self).nodes@),
                node_depths(old(self).nodes@), 0) == Some((node_depths(final(self).nodes@), opt_str(r))),
    {
        let mut visited: Vec<String> = Vec::new();
        let ghost orig = self.nodes@;
        let ghost names = node_names(orig);
        let ghost kids = node_children(orig);
        let ghost whole = cycle_search(names, kids, node_depths(orig), 0);
        assert(same_but_depth(orig, self.nodes@));
        let mut k: usize = 0;
        while k < self.nodes.len()
            invariant
                orig == old(self).nodes@,
                names == node_names(orig),
                kids == node_children(orig),
                same_but_depth(orig, self.nodes@),
                self.root == old(self).root,
                visited@.len() == 0,
                k <= self.nodes@.len(),
                whole == cycle_search(names, kids, node_depths(orig), 0),
                whole is Some,
                whole == cycle_search(names, kids, node_depths(self.nodes@), k as int),
            decreases orig.len() - k,
        {
            let name = self.nodes[k].name.clone();
            proof {
                assert(node_names(self.nodes@) =~= names);
                assert(node_children(self.nodes@) =~= kids);
                assert(names[k as int] == name@);
                assert(views(visited@) =~= Seq::<Seq<char>>::empty());
            }
            if !on_stack(&visited, &name) {
                let ghost before = self.nodes@;
                let found = self.helper(name, &mut visited);
                proof {
                    lemma_same_but_depth_trans(orig, before, self.nodes@);
                }
                match found {
                    Some(c) => {
                        return Some(c);
                    },
                    None => {},
                }
            }
            k += 1;
        }
        None
    }
}

} // verus!
