//! The tree of types: the root type, the types by name, and lookups along inheritance.

use vstd::prelude::*;
use crate::typings::function_def::{FunctionDef, FunctionParams, params_model};
use crate::typings::types_node::{TypeNode, TypeNodeModel, FnModel, assoc, lemma_assoc_update, lemma_assoc_push,
    opt_str, vars_model, methods_model};
use crate::parser::ll1::views;

verus! {

/// The tree of types: the root type and the types, looked up by name (first entry).
pub struct TypeAST {
    pub root: TypeNode,
    pub nodes: Vec<TypeNode>,
}

/// The types as plain values keyed by name.
pub open spec fn keyed(nodes: Seq<TypeNode>) -> Seq<(Seq<char>, TypeNodeModel)> {
    nodes.map_values(|n: TypeNode| (n.name@, n.model()))
}

/// The type named `name`, if any.
pub open spec fn lookup(nodes: Seq<TypeNode>, name: Seq<char>) -> Option<TypeNodeModel> {
    assoc(keyed(nodes), name)
}

/// The parent of a type, if it has one and it is in the tree.
pub open spec fn parent_of(nodes: Seq<TypeNode>, n: TypeNodeModel) -> Option<TypeNodeModel> {
    match n.parent {
        Some(p) => lookup(nodes, p),
        None => None,
    }
}

/// Following parents from `n` ends (at a type without parent or whose parent is not in the
/// tree) within `fuel` steps.
pub open spec fn chain_ends(nodes: Seq<TypeNode>, n: TypeNodeModel, fuel: nat) -> bool
    decreases fuel,
{
    match parent_of(nodes, n) {
        None => true,
        Some(p) => fuel > 0 && chain_ends(nodes, p, (fuel - 1) as nat),
    }
}

/// A type with no parameters, attributes, methods or children.
pub open spec fn basic_type(name: Seq<char>, depth: i32, parent: Option<Seq<char>>, children: Seq<Seq<char>>) -> TypeNodeModel {
    TypeNodeModel { name, depth, params: seq![], parent, children, variables: seq![], methods: seq![] }
}

/// The position of the first type named `name`, if any.
fn find_node(nodes: &Vec<TypeNode>, name: &String) -> (r: Option<usize>)
    ensures
        match r {
            None => forall|j: int| 0 <= j < nodes@.len() ==> (#[trigger] nodes@[j]).name@ != name@,
            Some(i) => i < nodes@.len() && nodes@[i as int].name@ == name@
                && forall|j: int| 0 <= j < i ==> (#[trigger] nodes@[j]).name@ != name@,
        },
{
    let mut i: usize = 0;
    while i < nodes.len()
        invariant
            i <= nodes@.len(),
            forall|j: int| 0 <= j < i ==> (#[trigger] nodes@[j]).name@ != name@,
        decreases nodes@.len() - i,
    {
        if nodes[i].name == *name {
            return Some(i);
        }
        i += 1;
    }
    None
}

/// The first type named `name` is the one at position `i`.
pub proof fn lemma_lookup_first(nodes: Seq<TypeNode>, i: int, name: Seq<char>)
    requires
        0 <= i < nodes.len(),
        nodes[i].name@ == name,
        forall|j: int| 0 <= j < i ==> (#[trigger] nodes[j]).name@ != name,
    ensures
        lookup(nodes, name) == Some(nodes[i].model()),
    decreases i,
{
    let kv = keyed(nodes);
    if i > 0 {
        let rest = nodes.subrange(1, nodes.len() as int);
        assert(keyed(rest) =~= kv.subrange(1, kv.len() as int));
        assert forall|j: int| 0 <= j < i - 1 implies (#[trigger] rest[j]).name@ != name by {
            assert(rest[j] == nodes[j + 1]);
        }
        assert(rest[i - 1] == nodes[i]);
        lemma_lookup_first(rest, i - 1, name);
        assert(kv[0].0 == nodes[0].name@);
    } else {
        assert(kv[0] == (nodes[0].name@, nodes[0].model()));
    }
}

/// Without a type named `name`, looking it up gives nothing.
pub proof fn lemma_lookup_missing(nodes: Seq<TypeNode>, name: Seq<char>)
    requires
        forall|j: int| 0 <= j < nodes.len() ==> (#[trigger] nodes[j]).name@ != name,
    ensures
        lookup(nodes, name) is None,
    decreases nodes.len(),
{
    let kv = keyed(nodes);
    if nodes.len() > 0 {
        let rest = nodes.subrange(1, nodes.len() as int);
        assert(keyed(rest) =~= kv.subrange(1, kv.len() as int));
        assert forall|j: int| 0 <= j < rest.len() implies (#[trigger] rest[j]).name@ != name by {
            assert(rest[j] == nodes[j + 1]);
        }
        lemma_lookup_missing(rest, name);
        assert(kv[0].0 == nodes[0].name@);
    }
}

/// Puts a type in the list: replaces the first type of its name, or adds it.
fn insert_node(nodes: &mut Vec<TypeNode>, node: TypeNode)
    ensures
        forall|k: Seq<char>| #[trigger] lookup(final(nodes)@, k)
            == if k == node.name@ { Some(node.model()) } else { lookup(old(nodes)@, k) },
{
    let ghost kv = keyed(nodes@);
    let ghost key = node.name@;
    let ghost value = node.model();
    match find_node(nodes, &node.name) {
        Some(i) => {
            nodes.set(i, node);
            proof {
                assert forall|j: int| 0 <= j < i implies (#[trigger] kv[j]).0 != key by {
                    assert(kv[j].0 == old(nodes)@[j].name@);
                }
                assert(kv[i as int].0 == key);
                lemma_assoc_update(kv, i as int, key, value);
                assert(keyed(nodes@) =~= kv.update(i as int, (key, value)));
            }
        },
        None => {
            nodes.push(node);
            proof {
                assert forall|j: int| 0 <= j < kv.len() implies (#[trigger] kv[j]).0 != key by {
                    assert(kv[j].0 == old(nodes)@[j].name@);
                }
                lemma_assoc_push(kv, key, value);
                assert(keyed(nodes@) =~= kv.push((key, value)));
            }
        },
    }
}

/// The depth a new type gets: one more than its parent's, or 0 without a parent in the tree.
pub open spec fn new_depth(nodes: Seq<TypeNode>, parent: Option<Seq<char>>) -> int {
    match parent {
        Some(p) => match lookup(nodes, p) {
            Some(pm) => pm.depth + 1,
            None => 0,
        },
        None => 0,
    }
}

/// The parent, when in the tree, is not at the greatest depth.
pub open spec fn depth_fits(nodes: Seq<TypeNode>, parent: Option<Seq<char>>) -> bool {
    match parent {
        Some(p) => match lookup(nodes, p) {
            Some(pm) => pm.depth < i32::MAX,
            None => true,
        },
        None => true,
    }
}

impl TypeAST {
    /// Adds type `type_name` with its parameters, parent, attributes and methods: its depth
    /// is one more than its parent's, or 0 when it has none in the tree; it is recorded as a
    /// child of its parent when the parent is in the tree, or of the root when it has no
    /// parent; and it replaces any type of the same name.
    pub fn add_type(
        &mut self,
        name: String,
        params: Vec<FunctionParams>,
        parent_name: Option<String>,
        variables: Vec<(String, String)>,
        methods: Vec<(String, FunctionDef)>,
    )
        requires
            depth_fits(old(self).nodes@, opt_str(parent_name)),
        ensures
            forall|k: Seq<char>| #[trigger] lookup(final(self).nodes@, k) == if k == name@ {
                Some(TypeNodeModel {
                    name: name@,
                    depth: new_depth(old(self).nodes@, opt_str(parent_name)) as i32,
                    params: params_model(params@),
                    parent: opt_str(parent_name),
                    children: seq![],
                    variables: vars_model(variables@),
                    methods: methods_model(methods@),
                })
            } else if opt_str(parent_name) == Some(k) && lookup(old(self).nodes@, k) is Some {
                Some(TypeNodeModel {
                    children: lookup(old(self).nodes@, k).unwrap().children.push(name@),
                    ..lookup(old(self).nodes@, k).unwrap()
                })
            } else {
                lookup(old(self).nodes@, k)
            },
            parent_name is None ==> final(self).root.model().children == old(self).root.model().children.push(name@),
            parent_name is Some ==> final(self).root == old(self).root,
            final(self).root.name == old(self).root.name,
            final(self).root.depth == old(self).root.depth,
            final(self).root.params == old(self).root.params,
            final(self).root.parent == old(self).root.parent,
            final(self).root.variables == old(self).root.variables,
            final(self).root.methods == old(self).root.methods,
    {
        let ghost old_nodes = self.nodes@;
        let mut depth: i32 = 0;
        let mut parent_index: Option<usize> = None;
        match &parent_name {
            Some(pn) => {
                match find_node(&self.nodes, pn) {
                    Some(i) => {
                        proof {
                            lemma_lookup_first(self.nodes@, i as int, pn@);
                        }
                        depth = self.nodes[i].depth + 1;
                        parent_index = Some(i);
                    },
                    None => {
                        proof {
                            lemma_lookup_missing(self.nodes@, pn@);
                        }
                    },
                }
            },
            None => {},
        }
        let no_children: Vec<String> = Vec::new();
        assert(views(no_children@) =~= Seq::<Seq<char>>::empty());
        let new_node = TypeNode::new(name.clone(), params, depth, parent_name, no_children, variables, methods);
        match parent_index {
            Some(i) => {
                let ghost before = self.nodes@;
                self.nodes[i].add_child(name.clone());
                proof {
                    let pn = opt_str(new_node.parent).unwrap();
                    assert forall|j: int| 0 <= j < self.nodes@.len() && j != i implies #[trigger] self.nodes@[j] == before[j] by {}
                    let kv0 = keyed(before);
                    assert forall|j: int| 0 <= j < i implies (#[trigger] kv0[j]).0 != pn by {
                        assert(kv0[j].0 == before[j].name@);
                    }
                    assert(kv0[i as int].0 == pn);
                    lemma_assoc_update(kv0, i as int, pn, self.nodes@[i as int].model());
                    assert(keyed(self.nodes@) =~= kv0.update(i as int, (pn, self.nodes@[i as int].model())));
                    assert(self.nodes@[i as int].model() == TypeNodeModel {
                        children: before[i as int].model().children.push(name@),
                        ..before[i as int].model()
                    });
                }
            },
            None => {
                if new_node.parent.is_none() {
                    self.root.add_child(name.clone());
                }
            },
        }
        let ghost mid = self.nodes@;
        insert_node(&mut self.nodes, new_node);
    }

    /// The type named `name`, copied, if any.
    pub fn get_type(&self, name: &str) -> (r: Option<TypeNode>)
        ensures
            match r {
                Some(n) => lookup(self.nodes@, name@) == Some(n.model()),
                None => lookup(self.nodes@, name@) is None,
            },
    {
        let key = String::from_str(name);
        match find_node(&self.nodes, &key) {
            Some(i) => {
                proof {
                    lemma_lookup_first(self.nodes@, i as int, name@);
                }
                Some(self.nodes[i].duplicate())
            },
            None => {
                proof {
                    lemma_lookup_missing(self.nodes@, name@);
                }
                None
            },
        }
    }
}

/// The names of the basic types, other than `Object`.
pub open spec fn basic_names() -> Seq<Seq<char>> {
    seq!["String"@, "Number"@, "Boolean"@, "Unknown"@]
}

/// The basic type names differ from each other.
pub proof fn lemma_basic_names_distinct()
    ensures
        "Object"@ != "String"@,
        "Object"@ != "Number"@,
        "Object"@ != "Boolean"@,
        "Object"@ != "Unknown"@,
        "String"@ != "Number"@,
        "String"@ != "Boolean"@,
        "String"@ != "Unknown"@,
        "Number"@ != "Boolean"@,
        "Number"@ != "Unknown"@,
        "Boolean"@ != "Unknown"@,
{
    reveal_strlit("Object");
    reveal_strlit("String");
    reveal_strlit("Number");
    reveal_strlit("Boolean");
    reveal_strlit("Unknown");
    assert("Object"@[0] == 'O');
    assert("String"@[0] == 'S');
    assert("Number"@[0] == 'N');
    assert("Boolean"@[0] == 'B');
    assert("Unknown"@[0] == 'U');
}

impl TypeAST {
    /// The tree of the basic types: the root `Object` (no children of its own), and the types
    /// `Object` (depth 0, children `String`, `Number`, `Boolean`, `Unknown`) and those four
    /// (depth 1, parent `Object`).
    pub fn new() -> (t: Self)
        ensures
            t.root.model() == basic_type("Object"@, 0, None, seq![]),
            lookup(t.nodes@, "Object"@) == Some(basic_type("Object"@, 0, None, basic_names())),
            forall|i: int| 0 <= i < 4 ==> lookup(t.nodes@, #[trigger] basic_names()[i])
                == Some(basic_type(basic_names()[i], 1, Some("Object"@), seq![])),
            forall|k: Seq<char>| k != "Object"@ && !basic_names().contains(k) ==> #[trigger] lookup(t.nodes@, k) is None,
    {
        let no_params: Vec<FunctionParams> = Vec::new();
        let no_children: Vec<String> = Vec::new();
        let no_vars: Vec<(String, String)> = Vec::new();
        let no_methods: Vec<(String, FunctionDef)> = Vec::new();
        proof {
            assert(params_model(no_params@) =~= Seq::empty());
            assert(views(no_children@) =~= Seq::empty());
            assert(vars_model(no_vars@) =~= Seq::empty());
            assert(methods_model(no_methods@) =~= Seq::empty());
        }
        let root = TypeNode::new(String::from_str("Object"), no_params, 0, None, no_children, no_vars, no_methods);
        let mut nodes: Vec<TypeNode> = Vec::new();
        nodes.push(root.duplicate());
        let mut tree = TypeAST { root, nodes };
        proof {
            assert(keyed(tree.nodes@) =~= seq![("Object"@, basic_type("Object"@, 0, None, seq![]))]);
            assert forall|k: Seq<char>| #[trigger] lookup(tree.nodes@, k) == if k == "Object"@ {
                Some(basic_type("Object"@, 0, None, seq![])) } else { None::<TypeNodeModel> } by {
                let kv = keyed(tree.nodes@);
                assert(kv.subrange(1, kv.len() as int) =~= Seq::<(Seq<char>, TypeNodeModel)>::empty());
                assert(assoc(kv.subrange(1, kv.len() as int), k) is None);
            }
            lemma_basic_names_distinct();
        }
        tree.add_basic("String");
        tree.add_basic("Number");
        tree.add_basic("Boolean");
        tree.add_basic("Unknown");
        proof {
            lemma_basic_names_distinct();
            assert(basic_names()[0] == "String"@);
            assert(basic_names()[1] == "Number"@);
            assert(basic_names()[2] == "Boolean"@);
            assert(basic_names()[3] == "Unknown"@);
            assert(seq!["String"@, "Number"@, "Boolean"@, "Unknown"@] =~= basic_names());
            assert(Seq::<Seq<char>>::empty().push("String"@).push("Number"@).push("Boolean"@).push("Unknown"@)
                =~= basic_names());
            assert forall|k: Seq<char>| k != "Object"@ && !basic_names().contains(k) implies #[trigger] lookup(tree.nodes@, k) is None by {
                if k == "String"@ { assert(basic_names()[0] == k); }
                if k == "Number"@ { assert(basic_names()[1] == k); }
                if k == "Boolean"@ { assert(basic_names()[2] == k); }
                if k == "Unknown"@ { assert(basic_names()[3] == k); }
            }
        }
        tree
    }

    /// Adds a basic type, child of `Object`, with no parameters or members.
    fn add_basic(&mut self, name: &str)
        requires
            lookup(old(self).nodes@, "Object"@) matches Some(m) && m.depth == 0,
        ensures
            final(self).root == old(self).root,
            forall|k: Seq<char>| #[trigger] lookup(final(self).nodes@, k) == if k == name@ {
                Some(basic_type(name@, 1, Some("Object"@), seq![]))
            } else if k == "Object"@ {
                Some(TypeNodeModel {
                    children: lookup(old(self).nodes@, k).unwrap().children.push(name@),
                    ..lookup(old(self).nodes@, k).unwrap()
                })
            } else {
                lookup(old(self).nodes@, k)
            },
    {
        let no_params: Vec<FunctionParams> = Vec::new();
        let no_vars: Vec<(String, String)> = Vec::new();
        let no_methods: Vec<(String, FunctionDef)> = Vec::new();
        proof {
            assert(params_model(no_params@) =~= Seq::empty());
            assert(vars_model(no_vars@) =~= Seq::empty());
            assert(methods_model(no_methods@) =~= Seq::empty());
        }
        self.add_type(String::from_str(name), no_params, Some(String::from_str("Object")), no_vars, no_methods);
    }
}

/// Following parents from `n` ends after finitely many steps.
pub open spec fn finite_chain(nodes: Seq<TypeNode>, n: TypeNodeModel) -> bool {
    exists|f: nat| #[trigger] chain_ends(nodes, n, f)
}

/// A number of steps within which following parents from `n` ends.
pub open spec fn chain_fuel(nodes: Seq<TypeNode>, n: TypeNodeModel) -> nat {
    choose|f: nat| #[trigger] chain_ends(nodes, n, f)
}

/// Some type on the parent chain of `n` (within `fuel` steps), `n` included, is named `name`.
pub open spec fn in_chain(nodes: Seq<TypeNode>, name: Seq<char>, n: TypeNodeModel, fuel: nat) -> bool
    decreases fuel,
{
    n.name == name || match parent_of(nodes, n) {
        Some(p) => fuel > 0 && in_chain(nodes, name, p, (fuel - 1) as nat),
        None => false,
    }
}

/// The method `m` as found from the type named `name` upwards: in the type itself, else in
/// its parent, and so on; nothing when a type on the way is not in the tree.
pub open spec fn method_lookup(nodes: Seq<TypeNode>, name: Seq<char>, m: Seq<char>, fuel: nat) -> Option<FnModel>
    decreases fuel,
{
    match lookup(nodes, name) {
        None => None,
        Some(n) => match assoc(n.methods, m) {
            Some(f) => Some(f),
            None => match n.parent {
                None => None,
                Some(p) => if fuel == 0 { None } else { method_lookup(nodes, p, m, (fuel - 1) as nat) },
            },
        },
    }
}

/// The first of a list's entries named `key` is the one at `i`: that is what the list maps
/// `key` to.
proof fn lemma_assoc_first<V>(v: Seq<(Seq<char>, V)>, i: int, key: Seq<char>)
    requires
        0 <= i < v.len(),
        v[i].0 == key,
        forall|j: int| 0 <= j < i ==> (#[trigger] v[j]).0 != key,
    ensures
        assoc(v, key) == Some(v[i].1),
    decreases i,
{
    if i > 0 {
        let rv = v.subrange(1, v.len() as int);
        assert(v[0].0 != key);
        assert forall|j: int| 0 <= j < i - 1 implies (#[trigger] rv[j]).0 != key by {
            assert(rv[j] == v[j + 1]);
        }
        lemma_assoc_first(rv, i - 1, key);
        assert(rv[i - 1] == v[i]);
    }
}

/// A type's own method comes before any it inherits: when the type named `name` is in the
/// tree and the first of its own methods named `m` is its `i`-th, looking `m` up from `name`
/// gives exactly that method, however far up the search may go. A subtype's method
/// overrides its parent's, and the parent is not consulted.
pub proof fn lemma_own_method_overrides(nodes: Seq<TypeNode>, name: Seq<char>, m: Seq<char>, i: int, fuel: nat)
    requires
        lookup(nodes, name) matches Some(n) && 0 <= i < n.methods.len() && n.methods[i].0 == m
            && forall|j: int| 0 <= j < i ==> (#[trigger] n.methods[j]).0 != m,
    ensures
        method_lookup(nodes, name, m, fuel) == Some(lookup(nodes, name).unwrap().methods[i].1),
{
    let n = lookup(nodes, name).unwrap();
    lemma_assoc_first(n.methods, i, m);
}

/// Only a type without a method named `m` of its own hands the search on: looking `m` up
/// from such a type gives what looking it up from its parent gives (with one step less), and
/// nothing when it has no parent.
pub proof fn lemma_inherited_method(nodes: Seq<TypeNode>, name: Seq<char>, m: Seq<char>, fuel: nat)
    requires
        lookup(nodes, name) matches Some(n) && forall|j: int| 0 <= j < n.methods.len() ==> (#[trigger] n.methods[j]).0 != m,
    ensures
        method_lookup(nodes, name, m, fuel + 1) == match lookup(nodes, name).unwrap().parent {
            Some(p) => method_lookup(nodes, p, m, fuel),
            None => None,
        },
{
    let n = lookup(nodes, name).unwrap();
    lemma_assoc_absent(n.methods, m);
}

/// A list with no entry named `key` maps it to nothing.
proof fn lemma_assoc_absent<V>(v: Seq<(Seq<char>, V)>, key: Seq<char>)
    requires
        forall|j: int| 0 <= j < v.len() ==> (#[trigger] v[j]).0 != key,
    ensures
        assoc(v, key) is None,
    decreases v.len(),
{
    if v.len() > 0 {
        let rv = v.subrange(1, v.len() as int);
        assert(v[0].0 != key);
        assert forall|j: int| 0 <= j < rv.len() implies (#[trigger] rv[j]).0 != key by {
            assert(rv[j] == v[j + 1]);
        }
        lemma_assoc_absent(rv, key);
    }
}

/// Climbing from `n` while it is deeper than `d`: the type reached and the steps left, or
/// nothing when a parent is missing on the way.
pub open spec fn lift(nodes: Seq<TypeNode>, n: TypeNodeModel, d: i32, fuel: nat) -> Option<(TypeNodeModel, nat)>
    decreases fuel,
{
    if n.depth <= d {
        Some((n, fuel))
    } else {
        match parent_of(nodes, n) {
            None => None,
            Some(p) => if fuel == 0 { None } else { lift(nodes, p, d, (fuel - 1) as nat) },
        }
    }
}

/// Climbing from `a` and `b` together until their names agree: the type reached, or nothing
/// when one of them has no parent in the tree first.
pub open spec fn climb_both(nodes: Seq<TypeNode>, a: TypeNodeModel, b: TypeNodeModel, fuel: nat) -> Option<TypeNodeModel>
    decreases fuel,
{
    if a.name == b.name {
        Some(a)
    } else {
        match (parent_of(nodes, a), parent_of(nodes, b)) {
            (Some(pa), Some(pb)) => if fuel == 0 { None } else { climb_both(nodes, pa, pb, (fuel - 1) as nat) },
            _ => None,
        }
    }
}

/// The common ancestor found for `n1` and `n2`: the deeper one climbs to the other's depth,
/// then both climb together until their names agree; nothing (meaning the root) when a parent
/// is missing on the way.
pub open spec fn lca_spec(nodes: Seq<TypeNode>, n1: TypeNodeModel, n2: TypeNodeModel, f1: nat, f2: nat) -> Option<TypeNodeModel> {
    match lift(nodes, n1, n2.depth, f1) {
        None => None,
        Some((a, g1)) => match lift(nodes, n2, a.depth, f2) {
            None => None,
            Some((b, _)) => climb_both(nodes, a, b, g1),
        },
    }
}

/// Climbing keeps ancestors: what is on the chain of the type reached is on the chain of the
/// type climbed from, and the steps left bound the rest of the chain.
proof fn lemma_lift_keeps_ancestors(nodes: Seq<TypeNode>, n: TypeNodeModel, d: i32, f: nat, x: Seq<char>)
    requires
        lift(nodes, n, d, f) is Some,
    ensures
        ({
            let (a, g) = lift(nodes, n, d, f).unwrap();
            &&& g <= f
            &&& in_chain(nodes, x, a, g) ==> in_chain(nodes, x, n, f)
            &&& chain_ends(nodes, n, f) ==> chain_ends(nodes, a, g)
        }),
    decreases f,
{
    if n.depth > d {
        let p = parent_of(nodes, n).unwrap();
        lemma_lift_keeps_ancestors(nodes, p, d, (f - 1) as nat, x);
    }
}

/// Climbing both together ends at a type on the chains of both, within the steps given.
proof fn lemma_climb_common(nodes: Seq<TypeNode>, a: TypeNodeModel, b: TypeNodeModel, g: nat)
    requires
        climb_both(nodes, a, b, g) is Some,
    ensures
        in_chain(nodes, climb_both(nodes, a, b, g).unwrap().name, a, g),
        in_chain(nodes, climb_both(nodes, a, b, g).unwrap().name, b, g),
    decreases g,
{
    if a.name != b.name {
        let pa = parent_of(nodes, a).unwrap();
        let pb = parent_of(nodes, b).unwrap();
        lemma_climb_common(nodes, pa, pb, (g - 1) as nat);
    }
}

/// What is on a chain within some steps is on it within the steps the chain takes to end.
proof fn lemma_chain_fuel_enough(nodes: Seq<TypeNode>, x: Seq<char>, n: TypeNodeModel, f: nat, f0: nat)
    requires
        chain_ends(nodes, n, f0),
        in_chain(nodes, x, n, f),
    ensures
        in_chain(nodes, x, n, f0),
    decreases f,
{
    if n.name != x {
        let p = parent_of(nodes, n).unwrap();
        lemma_chain_fuel_enough(nodes, x, p, (f - 1) as nat, (f0 - 1) as nat);
    }
}

/// The common ancestor that `find_lca` finds, when it is not the root it falls back to, is an
/// ancestor of both types as `is_ancestor` sees them.
pub proof fn lemma_lca_is_common_ancestor(nodes: Seq<TypeNode>, n1: TypeNodeModel, n2: TypeNodeModel)
    requires
        finite_chain(nodes, n1),
        finite_chain(nodes, n2),
    ensures
        lca_spec(nodes, n1, n2, chain_fuel(nodes, n1), chain_fuel(nodes, n2)) matches Some(m) ==> {
            &&& in_chain(nodes, m.name, n1, chain_fuel(nodes, n1))
            &&& in_chain(nodes, m.name, n2, chain_fuel(nodes, n2))
        },
{
    let f1 = chain_fuel(nodes, n1);
    let f2 = chain_fuel(nodes, n2);
    assert(chain_ends(nodes, n1, f1));
    assert(chain_ends(nodes, n2, f2));
    if let Some(m) = lca_spec(nodes, n1, n2, f1, f2) {
        let (a, g1) = lift(nodes, n1, n2.depth, f1).unwrap();
        let (b, g2) = lift(nodes, n2, a.depth, f2).unwrap();
        lemma_climb_common(nodes, a, b, g1);
        lemma_lift_keeps_ancestors(nodes, n1, n2.depth, f1, m.name);
        lemma_lift_keeps_ancestors(nodes, n2, a.depth, f2, m.name);
        lemma_chain_fuel_enough(nodes, m.name, b, g1, g2);
    }
}

/// A type found by name carries that name.
pub proof fn lemma_lookup_name(nodes: Seq<TypeNode>, name: Seq<char>)
    ensures
        lookup(nodes, name) matches Some(m) ==> m.name == name,
    decreases nodes.len(),
{
    let kv = keyed(nodes);
    if nodes.len() > 0 {
        let rest = nodes.subrange(1, nodes.len() as int);
        assert(keyed(rest) =~= kv.subrange(1, kv.len() as int));
        assert(kv[0] == (nodes[0].name@, nodes[0].model()));
        lemma_lookup_name(rest, name);
    }
}

/// The type is the one its name looks up in the tree.
pub open spec fn in_tree(nodes: Seq<TypeNode>, n: TypeNodeModel) -> bool {
    lookup(nodes, n.name) == Some(n)
}

/// Every type of the tree whose parent is in the tree lies one level below that parent.
pub open spec fn depths_consistent(nodes: Seq<TypeNode>) -> bool {
    forall|n: TypeNodeModel| in_tree(nodes, n) && (#[trigger] parent_of(nodes, n)) is Some
        ==> parent_of(nodes, n).unwrap().depth == n.depth - 1
}

/// A parent found in the tree is a type of the tree.
proof fn lemma_parent_in_tree(nodes: Seq<TypeNode>, n: TypeNodeModel)
    ensures
        parent_of(nodes, n) matches Some(p) ==> in_tree(nodes, p),
{
    if let Some(q) = n.parent {
        lemma_lookup_name(nodes, q);
    }
}

/// Climbing from `n` reaches `n` itself or a type of the tree.
proof fn lemma_lift_in_tree(nodes: Seq<TypeNode>, n: TypeNodeModel, d: i32, f: nat)
    ensures
        lift(nodes, n, d, f) matches Some((a, _)) ==> (a == n || in_tree(nodes, a)),
    decreases f,
{
    if n.depth > d {
        if let Some(p) = parent_of(nodes, n) {
            if f > 0 {
                lemma_parent_in_tree(nodes, n);
                lemma_lift_in_tree(nodes, p, d, (f - 1) as nat);
            }
        }
    }
}

/// Climbing two types together ends at the first of them or at a type of the tree.
proof fn lemma_climb_in_tree(nodes: Seq<TypeNode>, a: TypeNodeModel, b: TypeNodeModel, g: nat)
    ensures
        climb_both(nodes, a, b, g) matches Some(m) ==> (m == a || in_tree(nodes, m)),
    decreases g,
{
    if a.name != b.name {
        if let (Some(pa), Some(pb)) = (parent_of(nodes, a), parent_of(nodes, b)) {
            if g > 0 {
                lemma_parent_in_tree(nodes, a);
                lemma_climb_in_tree(nodes, pa, pb, (g - 1) as nat);
            }
        }
    }
}

/// The common ancestor found for two types is the first of them, the second, or a type of
/// the tree.
pub proof fn lemma_lca_in_tree(nodes: Seq<TypeNode>, n1: TypeNodeModel, n2: TypeNodeModel, f1: nat, f2: nat)
    ensures
        lca_spec(nodes, n1, n2, f1, f2) matches Some(m) ==> (m == n1 || m == n2 || in_tree(nodes, m)),
{
    lemma_lift_in_tree(nodes, n1, n2.depth, f1);
    if let Some((a, g1)) = lift(nodes, n1, n2.depth, f1) {
        lemma_lift_in_tree(nodes, n2, a.depth, f2);
        if let Some((b, _)) = lift(nodes, n2, a.depth, f2) {
            lemma_climb_in_tree(nodes, a, b, g1);
        }
    }
}

/// What is on a chain within some steps is on it within more steps.
proof fn lemma_in_chain_more(nodes: Seq<TypeNode>, x: Seq<char>, n: TypeNodeModel, f: nat, f2: nat)
    requires
        in_chain(nodes, x, n, f),
        f <= f2,
    ensures
        in_chain(nodes, x, n, f2),
    decreases f,
{
    if n.name != x {
        let p = parent_of(nodes, n).unwrap();
        lemma_in_chain_more(nodes, x, p, (f - 1) as nat, (f2 - 1) as nat);
    }
}

/// A chain that ends within some steps ends within more steps.
proof fn lemma_chain_ends_more(nodes: Seq<TypeNode>, n: TypeNodeModel, f: nat, f2: nat)
    requires
        chain_ends(nodes, n, f),
        f <= f2,
    ensures
        chain_ends(nodes, n, f2),
    decreases f,
{
    if let Some(p) = parent_of(nodes, n) {
        lemma_chain_ends_more(nodes, p, (f - 1) as nat, (f2 - 1) as nat);
    }
}

/// With consistent depths, a name on the chain of a type of the tree names a type of the
/// tree no deeper than it, and strictly higher unless it is the type's own name.
proof fn lemma_chain_depth(nodes: Seq<TypeNode>, x: Seq<char>, n: TypeNodeModel, f: nat)
    requires
        depths_consistent(nodes),
        in_tree(nodes, n),
        in_chain(nodes, x, n, f),
    ensures
        lookup(nodes, x) is Some,
        lookup(nodes, x).unwrap().depth <= n.depth,
        x != n.name ==> lookup(nodes, x).unwrap().depth < n.depth,
    decreases f,
{
    if n.name != x {
        let p = parent_of(nodes, n).unwrap();
        assert(parent_of(nodes, n) is Some);
        lemma_parent_in_tree(nodes, n);
        lemma_chain_depth(nodes, x, p, (f - 1) as nat);
    }
}

/// With consistent depths, climbing a type of the tree towards depth `d` reaches a type of
/// the tree at depth `d` (or the type itself, when it is not deeper), and keeps on the chain
/// every name of a type no deeper than `d`.
proof fn lemma_lift_exact(nodes: Seq<TypeNode>, n: TypeNodeModel, d: i32, f: nat, x: Seq<char>)
    requires
        depths_consistent(nodes),
        in_tree(nodes, n),
        lift(nodes, n, d, f) is Some,
        in_chain(nodes, x, n, f),
        lookup(nodes, x) is Some,
        lookup(nodes, x).unwrap().depth <= d,
    ensures
        ({
            let (a, g) = lift(nodes, n, d, f).unwrap();
            &&& in_tree(nodes, a)
            &&& a.depth == if n.depth <= d { n.depth } else { d }
            &&& in_chain(nodes, x, a, g)
        }),
    decreases f,
{
    if n.depth > d {
        lemma_chain_depth(nodes, x, n, f);
        let p = parent_of(nodes, n).unwrap();
        assert(parent_of(nodes, n) is Some);
        lemma_parent_in_tree(nodes, n);
        lemma_lift_exact(nodes, p, d, (f - 1) as nat, x);
    }
}

/// With consistent depths, climbing two types of the tree at the same depth together ends at
/// a type whose chain holds every name on both their chains.
proof fn lemma_climb_least(nodes: Seq<TypeNode>, a: TypeNodeModel, b: TypeNodeModel, g: nat, gb: nat, x: Seq<char>)
    requires
        depths_consistent(nodes),
        in_tree(nodes, a),
        in_tree(nodes, b),
        a.depth == b.depth,
        climb_both(nodes, a, b, g) is Some,
        chain_ends(nodes, a, g),
        in_chain(nodes, x, a, g),
        in_chain(nodes, x, b, gb),
    ensures
        in_chain(nodes, x, climb_both(nodes, a, b, g).unwrap(), g),
        chain_ends(nodes, climb_both(nodes, a, b, g).unwrap(), g),
    decreases g,
{
    if a.name != b.name {
        lemma_chain_depth(nodes, x, a, g);
        lemma_chain_depth(nodes, x, b, gb);
        let pa = parent_of(nodes, a).unwrap();
        let pb = parent_of(nodes, b).unwrap();
        assert(parent_of(nodes, a) is Some && parent_of(nodes, b) is Some);
        lemma_parent_in_tree(nodes, a);
        lemma_parent_in_tree(nodes, b);
        let g1 = (g - 1) as nat;
        lemma_climb_least(nodes, pa, pb, g1, (gb - 1) as nat, x);
        let m = climb_both(nodes, pa, pb, g1).unwrap();
        lemma_in_chain_more(nodes, x, m, g1, g);
        lemma_chain_ends_more(nodes, m, g1, g);
    }
}

/// With depths that follow the parents (each type of the tree one level below its parent),
/// the common ancestor that `find_lca` finds for two types of the tree, when it is not the
/// root it falls back to, is the closest one: every name that `is_ancestor` sees above both
/// types is above it too.
pub proof fn lemma_lca_is_least(nodes: Seq<TypeNode>, n1: TypeNodeModel, n2: TypeNodeModel, x: Seq<char>)
    requires
        depths_consistent(nodes),
        in_tree(nodes, n1),
        in_tree(nodes, n2),
        finite_chain(nodes, n1),
        finite_chain(nodes, n2),
        in_chain(nodes, x, n1, chain_fuel(nodes, n1)),
        in_chain(nodes, x, n2, chain_fuel(nodes, n2)),
    ensures
        lca_spec(nodes, n1, n2, chain_fuel(nodes, n1), chain_fuel(nodes, n2)) matches Some(m) ==> {
            &&& finite_chain(nodes, m)
            &&& in_chain(nodes, x, m, chain_fuel(nodes, m))
        },
{
    let f1 = chain_fuel(nodes, n1);
    let f2 = chain_fuel(nodes, n2);
    assert(chain_ends(nodes, n1, f1));
    assert(chain_ends(nodes, n2, f2));
    if let Some(m) = lca_spec(nodes, n1, n2, f1, f2) {
        lemma_chain_depth(nodes, x, n1, f1);
        lemma_chain_depth(nodes, x, n2, f2);
        let (a, g1) = lift(nodes, n1, n2.depth, f1).unwrap();
        lemma_lift_exact(nodes, n1, n2.depth, f1, x);
        lemma_lift_keeps_ancestors(nodes, n1, n2.depth, f1, x);
        let (b, g2) = lift(nodes, n2, a.depth, f2).unwrap();
        lemma_lift_exact(nodes, n2, a.depth, f2, x);
        lemma_climb_least(nodes, a, b, g1, g2, x);
        assert(chain_ends(nodes, m, g1));
        assert(finite_chain(nodes, m));
        let fm = chain_fuel(nodes, m);
        assert(chain_ends(nodes, m, fm));
        lemma_chain_fuel_enough(nodes, x, m, g1, fm);
    }
}

/// The common ancestor found for a type and itself is that type.
pub proof fn lemma_lca_of_itself(nodes: Seq<TypeNode>, n: TypeNodeModel, f1: nat, f2: nat)
    ensures
        lca_spec(nodes, n, n, f1, f2) == Some(n),
{
}

/// With depths that follow the parents, the common ancestor `find_lca` finds for two types
/// of the tree does not depend on their order, when neither search falls back to the root.
pub proof fn lemma_lca_symmetric(nodes: Seq<TypeNode>, n1: TypeNodeModel, n2: TypeNodeModel)
    requires
        depths_consistent(nodes),
        in_tree(nodes, n1),
        in_tree(nodes, n2),
        finite_chain(nodes, n1),
        finite_chain(nodes, n2),
        lca_spec(nodes, n1, n2, chain_fuel(nodes, n1), chain_fuel(nodes, n2)) is Some,
        lca_spec(nodes, n2, n1, chain_fuel(nodes, n2), chain_fuel(nodes, n1)) is Some,
    ensures
        lca_spec(nodes, n1, n2, chain_fuel(nodes, n1), chain_fuel(nodes, n2)).unwrap().name
            == lca_spec(nodes, n2, n1, chain_fuel(nodes, n2), chain_fuel(nodes, n1)).unwrap().name,
{
    let f1 = chain_fuel(nodes, n1);
    let f2 = chain_fuel(nodes, n2);
    let m1 = lca_spec(nodes, n1, n2, f1, f2).unwrap();
    let m2 = lca_spec(nodes, n2, n1, f2, f1).unwrap();
    lemma_lca_is_common_ancestor(nodes, n1, n2);
    lemma_lca_is_common_ancestor(nodes, n2, n1);
    lemma_lca_is_least(nodes, n2, n1, m1.name);
    lemma_lca_is_least(nodes, n1, n2, m2.name);
    lemma_lca_in_tree(nodes, n1, n2, f1, f2);
    lemma_lca_in_tree(nodes, n2, n1, f2, f1);
    assert(in_tree(nodes, m1));
    assert(in_tree(nodes, m2));
    lemma_chain_depth(nodes, m1.name, m2, chain_fuel(nodes, m2));
    lemma_chain_depth(nodes, m2.name, m1, chain_fuel(nodes, m1));
}

/// The parent of a type, looked up, with what it takes to know it.
fn parent_index(nodes: &Vec<TypeNode>, n: &TypeNode) -> (r: Option<usize>)
    ensures
        match r {
            None => parent_of(nodes@, n.model()) is None,
            Some(i) => i < nodes@.len() && parent_of(nodes@, n.model()) == Some(nodes@[i as int].model()),
        },
{
    match &n.parent {
        Some(p) => match find_node(nodes, p) {
            Some(i) => {
                proof {
                    lemma_lookup_first(nodes@, i as int, p@);
                }
                Some(i)
            },
            None => {
                proof {
                    lemma_lookup_missing(nodes@, p@);
                }
                None
            },
        },
        None => None,
    }
}

impl TypeAST {
    /// Whether `ancestor`'s name is that of `descendant` or of a type on its parent chain
    /// (see `in_chain`).
    pub fn is_ancestor(&self, ancestor: &TypeNode, descendant: &TypeNode) -> (b: bool)
        requires
            finite_chain(self.nodes@, descendant.model()),
        ensures
            b == in_chain(self.nodes@, ancestor.name@, descendant.model(),
                chain_fuel(self.nodes@, descendant.model())),
    {
        let ghost f0 = chain_fuel(self.nodes@, descendant.model());
        let ghost target = in_chain(self.nodes@, ancestor.name@, descendant.model(), f0);
        let ghost mut g = f0;
        let mut current: &TypeNode = descendant;
        loop
            invariant
                f0 == chain_fuel(self.nodes@, descendant.model()),
                target == in_chain(self.nodes@, ancestor.name@, descendant.model(), f0),
                chain_ends(self.nodes@, current.model(), g),
                target == in_chain(self.nodes@, ancestor.name@, current.model(), g),
            decreases g,
        {
            if current.name == ancestor.name {
                assert(in_chain(self.nodes@, ancestor.name@, current.model(), g));
                return true;
            }
            match parent_index(&self.nodes, current) {
                Some(i) => {
                    current = &self.nodes[i];
                    proof {
                        g = (g - 1) as nat;
                    }
                },
                None => {
                    assert(!in_chain(self.nodes@, ancestor.name@, current.model(), g));
                    return false;
                },
            }
        }
    }

    /// The closest common ancestor of two types (see `lca_spec`), copied; the root when a
    /// parent is missing on the way.
    pub fn find_lca(&self, type1: &TypeNode, type2: &TypeNode) -> (r: TypeNode)
        requires
            finite_chain(self.nodes@, type1.model()),
            finite_chain(self.nodes@, type2.model()),
        ensures
            r.model() == match lca_spec(self.nodes@, type1.model(), type2.model(),
                chain_fuel(self.nodes@, type1.model()), chain_fuel(self.nodes@, type2.model())) {
                Some(m) => m,
                None => self.root.model(),
            },
    {
        let ghost f1 = chain_fuel(self.nodes@, type1.model());
        let ghost f2 = chain_fuel(self.nodes@, type2.model());
        let ghost answer = lca_spec(self.nodes@, type1.model(), type2.model(), f1, f2);
        let ghost mut g1 = f1;
        let mut node1: &TypeNode = type1;
        while node1.depth > type2.depth
            invariant
                f1 == chain_fuel(self.nodes@, type1.model()),
                f2 == chain_fuel(self.nodes@, type2.model()),
                answer == lca_spec(self.nodes@, type1.model(), type2.model(), f1, f2),
                chain_ends(self.nodes@, node1.model(), g1),
                lift(self.nodes@, type1.model(), type2.depth, f1) == lift(self.nodes@, node1.model(), type2.depth, g1),
            decreases g1,
        {
            match parent_index(&self.nodes, node1) {
                Some(i) => {
                    node1 = &self.nodes[i];
                    proof {
                        g1 = (g1 - 1) as nat;
                    }
                },
                None => {
                    assert(lift(self.nodes@, node1.model(), type2.depth, g1) is None);
                    return self.root.duplicate();
                },
            }
        }
        let ghost mut g2 = f2;
        let mut node2: &TypeNode = type2;
        assert(answer == match lift(self.nodes@, node2.model(), node1.depth, g2) {
            None => None,
            Some((b, _)) => climb_both(self.nodes@, node1.model(), b, g1),
        });
        while node2.depth > node1.depth
            invariant
                f1 == chain_fuel(self.nodes@, type1.model()),
                f2 == chain_fuel(self.nodes@, type2.model()),
                answer == lca_spec(self.nodes@, type1.model(), type2.model(), f1, f2),
                chain_ends(self.nodes@, node1.model(), g1),
                chain_ends(self.nodes@, node2.model(), g2),
                answer == match lift(self.nodes@, node2.model(), node1.depth, g2) {
                    None => None,
                    Some((b, _)) => climb_both(self.nodes@, node1.model(), b, g1),
                },
            decreases g2,
        {
            match parent_index(&self.nodes, node2) {
                Some(i) => {
                    node2 = &self.nodes[i];
                    proof {
                        g2 = (g2 - 1) as nat;
                    }
                },
                None => {
                    assert(lift(self.nodes@, node2.model(), node1.depth, g2) is None);
                    return self.root.duplicate();
                },
            }
        }
        assert(answer == climb_both(self.nodes@, node1.model(), node2.model(), g1));
        while node1.name != node2.name
            invariant
                f1 == chain_fuel(self.nodes@, type1.model()),
                f2 == chain_fuel(self.nodes@, type2.model()),
                answer == lca_spec(self.nodes@, type1.model(), type2.model(), f1, f2),
                chain_ends(self.nodes@, node1.model(), g1),
                answer == climb_both(self.nodes@, node1.model(), node2.model(), g1),
            decreases g1,
        {
            let p1 = parent_index(&self.nodes, node1);
            let p2 = parent_index(&self.nodes, node2);
            match (p1, p2) {
                (Some(i), Some(j)) => {
                    node1 = &self.nodes[i];
                    node2 = &self.nodes[j];
                    proof {
                        g1 = (g1 - 1) as nat;
                    }
                },
                _ => {
                    assert(answer is None);
                    return self.root.duplicate();
                },
            }
        }
        node1.duplicate()
    }

    /// The method `method_name` as found from type `node_name` upwards (see
    /// `method_lookup`), copied.
    pub fn find_method(&mut self, node_name: String, method_name: String) -> (r: Option<Box<FunctionDef>>)
        requires
            lookup(old(self).nodes@, node_name@) matches Some(n) ==> finite_chain(old(self).nodes@, n),
        ensures
            *final(self) == *old(self),
            match r {
                Some(f) => method_lookup(old(self).nodes@, node_name@, method_name@,
                    chain_fuel(old(self).nodes@, lookup(old(self).nodes@, node_name@).unwrap())) == Some(f.model()),
                None => lookup(old(self).nodes@, node_name@) matches Some(n) ==> method_lookup(old(self).nodes@,
                    node_name@, method_name@, chain_fuel(old(self).nodes@, n)) is None,
            },
    {
        let ghost f0 = match lookup(self.nodes@, node_name@) {
            Some(n) => chain_fuel(self.nodes@, n),
            None => 0,
        };
        self.find_method_from(&node_name, &method_name, Ghost(f0))
    }

    /// The method as found from type `node_name` upwards, within `fuel` steps.
    fn find_method_from(&self, node_name: &String, method_name: &String, Ghost(fuel): Ghost<nat>) -> (r: Option<Box<FunctionDef>>)
        requires
            lookup(self.nodes@, node_name@) matches Some(n) ==> chain_ends(self.nodes@, n, fuel),
        ensures
            match r {
                Some(f) => method_lookup(self.nodes@, node_name@, method_name@, fuel) == Some(f.model()),
                None => method_lookup(self.nodes@, node_name@, method_name@, fuel) is None,
            },
        decreases fuel, (if lookup(self.nodes@, node_name@) is Some { 1nat } else { 0nat }),
    {
        match find_node(&self.nodes, node_name) {
            None => {
                proof {
                    lemma_lookup_missing(self.nodes@, node_name@);
                }
                None
            },
            Some(i) => {
                proof {
                    lemma_lookup_first(self.nodes@, i as int, node_name@);
                }
                let node = &self.nodes[i];
                let ghost ms = methods_model(node.methods@);
                let mut k: usize = 0;
                assert(ms.subrange(0, ms.len() as int) =~= ms);
                while k < node.methods.len()
                    invariant
                        k <= node.methods@.len(),
                        ms == methods_model(node.methods@),
                        ms == node.model().methods,
                        lookup(self.nodes@, node_name@) == Some(node.model()),
                        assoc(ms, method_name@) == assoc(ms.subrange(k as int, ms.len() as int), method_name@),
                    decreases node.methods@.len() - k,
                {
                    let ghost rest = ms.subrange(k as int, ms.len() as int);
                    assert(rest[0] == ms[k as int]);
                    if node.methods[k].0 == *method_name {
                        let found = node.methods[k].1.duplicate();
                        proof {
                            assert(ms[k as int] == (node.methods@[k as int].0@, node.methods@[k as int].1.model()));
                            assert(assoc(rest, method_name@) == Some(found.model()));
                        }
                        return Some(Box::new(found));
                    }
                    assert(rest.subrange(1, rest.len() as int) =~= ms.subrange(k + 1, ms.len() as int));
                    k += 1;
                }
                match &node.parent {
                    None => None,
                    Some(p) => {
                        let ghost next: nat = if fuel > 0 { (fuel - 1) as nat } else { 0 };
                        proof {
                            assert(parent_of(self.nodes@, node.model()) == lookup(self.nodes@, p@));
                        }
                        self.find_method_from(p, method_name, Ghost(next))
                    },
                }
            },
        }
    }
}

} // verus!
