//! A node of the type tree: a type with its parent, children, attributes and methods.

use vstd::prelude::*;
use crate::typings::function_def::{FunctionDef, FunctionParams, params_model, copy_params};
use crate::parser::ll1::{views, copy_strings};

verus! {

/// A function definition as plain values: name, parameters, return type.
pub type FnModel = (Seq<char>, Seq<(Seq<char>, Seq<char>)>, Seq<char>);

/// A type node as plain values.
pub struct TypeNodeModel {
    pub name: Seq<char>,
    pub depth: i32,
    pub params: Seq<(Seq<char>, Seq<char>)>,
    pub parent: Option<Seq<char>>,
    pub children: Seq<Seq<char>>,
    pub variables: Seq<(Seq<char>, Seq<char>)>,
    pub methods: Seq<(Seq<char>, FnModel)>,
}

/// A type: its name, its depth in the hierarchy, its parameters, its parent's name, its
/// children's names, its attributes (name and type) and its methods (name and definition).
#[derive(Debug)]
pub struct TypeNode {
    pub name: String,
    pub depth: i32,
    pub params: Vec<FunctionParams>,
    pub parent: Option<String>,
    pub children: Vec<String>,
    pub variables: Vec<(String, String)>,
    pub methods: Vec<(String, FunctionDef)>,
}

/// An optional string as plain characters.
pub open spec fn opt_str(o: Option<String>) -> Option<Seq<char>> {
    match o {
        Some(s) => Some(s@),
        None => None,
    }
}

/// Attributes as plain values.
pub open spec fn vars_model(v: Seq<(String, String)>) -> Seq<(Seq<char>, Seq<char>)> {
    v.map_values(|e: (String, String)| (e.0@, e.1@))
}

/// Methods as plain values.
pub open spec fn methods_model(v: Seq<(String, FunctionDef)>) -> Seq<(Seq<char>, FnModel)> {
    v.map_values(|e: (String, FunctionDef)| (e.0@, e.1.model()))
}

/// The value recorded for `key` (its first entry), if any.
pub open spec fn assoc<V>(v: Seq<(Seq<char>, V)>, key: Seq<char>) -> Option<V>
    decreases v.len(),
{
    if v.len() == 0 {
        None
    } else if v[0].0 == key {
        Some(v[0].1)
    } else {
        assoc(v.subrange(1, v.len() as int), key)
    }
}

/// Replacing the first entry for `key` replaces what `key` maps to and nothing else.
pub proof fn lemma_assoc_update<V>(v: Seq<(Seq<char>, V)>, i: int, key: Seq<char>, x: V)
    requires
        0 <= i < v.len(),
        v[i].0 == key,
        forall|j: int| 0 <= j < i ==> (#[trigger] v[j]).0 != key,
    ensures
        forall|k: Seq<char>| #[trigger] assoc(v.update(i, (key, x)), k) == if k == key { Some(x) } else { assoc(v, k) },
    decreases i,
{
    assert forall|k: Seq<char>| #[trigger] assoc(v.update(i, (key, x)), k) == if k == key { Some(x) } else { assoc(v, k) } by {
        lemma_assoc_update_at(v, i, key, x, k);
    }
}

proof fn lemma_assoc_update_at<V>(v: Seq<(Seq<char>, V)>, i: int, key: Seq<char>, x: V, k: Seq<char>)
    requires
        0 <= i < v.len(),
        v[i].0 == key,
        forall|j: int| 0 <= j < i ==> (#[trigger] v[j]).0 != key,
    ensures
        assoc(v.update(i, (key, x)), k) == if k == key { Some(x) } else { assoc(v, k) },
    decreases i,
{
    let w = v.update(i, (key, x));
    if i > 0 {
        let rv = v.subrange(1, v.len() as int);
        let rw = w.subrange(1, w.len() as int);
        assert(rw =~= rv.update(i - 1, (key, x)));
        assert forall|j: int| 0 <= j < i - 1 implies (#[trigger] rv[j]).0 != key by {
            assert(rv[j] == v[j + 1]);
        }
        lemma_assoc_update_at(rv, i - 1, key, x, k);
        assert(w[0] == v[0]);
    } else {
        assert(w.subrange(1, w.len() as int) =~= v.subrange(1, v.len() as int));
        assert(w[0] == (key, x));
    }
}

/// Adding an entry for a new key maps that key and nothing else.
pub proof fn lemma_assoc_push<V>(v: Seq<(Seq<char>, V)>, key: Seq<char>, x: V)
    requires
        forall|j: int| 0 <= j < v.len() ==> (#[trigger] v[j]).0 != key,
    ensures
        forall|k: Seq<char>| #[trigger] assoc(v.push((key, x)), k) == if k == key { Some(x) } else { assoc(v, k) },
{
    assert forall|k: Seq<char>| #[trigger] assoc(v.push((key, x)), k) == if k == key { Some(x) } else { assoc(v, k) } by {
        lemma_assoc_push_at(v, key, x, k);
    }
}

proof fn lemma_assoc_push_at<V>(v: Seq<(Seq<char>, V)>, key: Seq<char>, x: V, k: Seq<char>)
    requires
        forall|j: int| 0 <= j < v.len() ==> (#[trigger] v[j]).0 != key,
    ensures
        assoc(v.push((key, x)), k) == if k == key { Some(x) } else { assoc(v, k) },
    decreases v.len(),
{
    let w = v.push((key, x));
    if v.len() > 0 {
        let rv = v.subrange(1, v.len() as int);
        assert(w.subrange(1, w.len() as int) =~= rv.push((key, x)));
        assert forall|j: int| 0 <= j < rv.len() implies (#[trigger] rv[j]).0 != key by {
            assert(rv[j] == v[j + 1]);
        }
        lemma_assoc_push_at(rv, key, x, k);
        assert(w[0] == v[0]);
    } else {
        assert(w.subrange(1, w.len() as int) =~= Seq::<(Seq<char>, V)>::empty());
        assert(assoc(w.subrange(1, w.len() as int), k) is None);
    }
}

impl TypeNode {
    /// The node as plain values.
    pub open spec fn model(&self) -> TypeNodeModel {
        TypeNodeModel {
            name: self.name@,
            depth: self.depth,
            params: params_model(self.params@),
            parent: opt_str(self.parent),
            children: views(self.children@),
            variables: vars_model(self.variables@),
            methods: methods_model(self.methods@),
        }
    }

    /// A node with the given name, parameters, depth, parent, children, attributes and
    /// methods.
    pub fn new(
        name: String,
        params: Vec<FunctionParams>,
        depth: i32,
        parent: Option<String>,
        children: Vec<String>,
        variables: Vec<(String, String)>,
        methods: Vec<(String, FunctionDef)>,
    ) -> (n: Self)
        ensures
            n.model() == (TypeNodeModel {
                name: name@,
                depth,
                params: params_model(params@),
                parent: opt_str(parent),
                children: views(children@),
                variables: vars_model(variables@),
                methods: methods_model(methods@),
            }),
    {
        TypeNode { name, params, depth, parent, children, variables, methods }
    }

    /// Adds a child's name.
    pub fn add_child(&mut self, child_name: String)
        ensures
            final(self).model().children == old(self).model().children.push(child_name@),
            final(self).name == old(self).name,
            final(self).depth == old(self).depth,
            final(self).params == old(self).params,
            final(self).parent == old(self).parent,
            final(self).variables == old(self).variables,
            final(self).methods == old(self).methods,
    {
        let ghost before = self.children@;
        self.children.push(child_name);
        assert(views(self.children@) =~= views(before).push(self.children@.last()@));
    }

    /// Sets the parent's name.
    pub fn set_parent(&mut self, parent_name: String)
        ensures
            final(self).model().parent == Some(parent_name@),
            final(self).name == old(self).name,
            final(self).depth == old(self).depth,
            final(self).params == old(self).params,
            final(self).children == old(self).children,
            final(self).variables == old(self).variables,
            final(self).methods == old(self).methods,
    {
        self.parent = Some(parent_name);
    }

    /// Sets attribute `name` to type `variable`, replacing its former type.
    pub fn add_variable(&mut self, name: String, variable: Box<String>)
        ensures
            final(self).name == old(self).name,
            final(self).depth == old(self).depth,
            final(self).params == old(self).params,
            final(self).parent == old(self).parent,
            final(self).children == old(self).children,
            final(self).methods == old(self).methods,
            forall|k: Seq<char>| #[trigger] assoc(final(self).model().variables, k)
                == if k == name@ { Some(variable@) } else { assoc(old(self).model().variables, k) },
    {
        let ghost old_vars = vars_model(self.variables@);
        let mut i: usize = 0;
        while i < self.variables.len()
            invariant
                i <= self.variables@.len(),
                old_vars == vars_model(self.variables@),
                self.variables == old(self).variables,
                self.name == old(self).name,
                self.depth == old(self).depth,
                self.params == old(self).params,
                self.parent == old(self).parent,
                self.children == old(self).children,
                self.methods == old(self).methods,
                forall|j: int| 0 <= j < i ==> (#[trigger] self.variables@[j]).0@ != name@,
            decreases self.variables@.len() - i,
        {
            if self.variables[i].0 == name {
                let ghost key = name@;
                let ghost value = variable@;
                self.variables.set(i, (name, *variable));
                proof {
                    assert forall|j: int| 0 <= j < i implies (#[trigger] old_vars[j]).0 != key by {
                        assert(old_vars[j].0 == self.variables@[j].0@);
                    }
                    lemma_assoc_update(old_vars, i as int, key, value);
                    assert(vars_model(self.variables@) =~= old_vars.update(i as int, (key, value)));
                }
                return;
            }
            i += 1;
        }
        let ghost key = name@;
        let ghost value = variable@;
        self.variables.push((name, *variable));
        proof {
            assert forall|j: int| 0 <= j < old_vars.len() implies (#[trigger] old_vars[j]).0 != key by {
                assert(old_vars[j].0 == old(self).variables@[j].0@);
            }
            lemma_assoc_push(old_vars, key, value);
            assert(vars_model(self.variables@) =~= old_vars.push((key, value)));
        }
    }

    /// Sets method `name` to `method`, replacing its former definition.
    pub fn add_method(&mut self, name: String, method: Box<FunctionDef>)
        ensures
            final(self).name == old(self).name,
            final(self).depth == old(self).depth,
            final(self).params == old(self).params,
            final(self).parent == old(self).parent,
            final(self).children == old(self).children,
            final(self).variables == old(self).variables,
            forall|k: Seq<char>| #[trigger] assoc(final(self).model().methods, k)
                == if k == name@ { Some(method.model()) } else { assoc(old(self).model().methods, k) },
    {
        let ghost old_ms = methods_model(self.methods@);
        let mut i: usize = 0;
        while i < self.methods.len()
            invariant
                i <= self.methods@.len(),
                old_ms == methods_model(self.methods@),
                self.methods == old(self).methods,
                self.name == old(self).name,
                self.depth == old(self).depth,
                self.params == old(self).params,
                self.parent == old(self).parent,
                self.children == old(self).children,
                self.variables == old(self).variables,
                forall|j: int| 0 <= j < i ==> (#[trigger] self.methods@[j]).0@ != name@,
            decreases self.methods@.len() - i,
        {
            if self.methods[i].0 == name {
                let ghost key = name@;
                let ghost value = method.model();
                self.methods.set(i, (name, *method));
                proof {
                    assert forall|j: int| 0 <= j < i implies (#[trigger] old_ms[j]).0 != key by {
                        assert(old_ms[j].0 == self.methods@[j].0@);
                    }
                    lemma_assoc_update(old_ms, i as int, key, value);
                    assert(methods_model(self.methods@) =~= old_ms.update(i as int, (key, value)));
                }
                return;
            }
            i += 1;
        }
        let ghost key = name@;
        let ghost value = method.model();
        self.methods.push((name, *method));
        proof {
            assert forall|j: int| 0 <= j < old_ms.len() implies (#[trigger] old_ms[j]).0 != key by {
                assert(old_ms[j].0 == old(self).methods@[j].0@);
            }
            lemma_assoc_push(old_ms, key, value);
            assert(methods_model(self.methods@) =~= old_ms.push((key, value)));
        }
    }

    /// A copy of method `method_name`, if the type defines it.
    pub fn get_method(&mut self, method_name: &String) -> (r: Option<Box<FunctionDef>>)
        ensures
            final(self).model() == old(self).model(),
            match r {
                Some(m) => assoc(old(self).model().methods, method_name@) == Some(m.model()),
                None => assoc(old(self).model().methods, method_name@) is None,
            },
    {
        let ghost ms = methods_model(self.methods@);
        let mut i: usize = 0;
        assert(ms.subrange(0, ms.len() as int) =~= ms);
        while i < self.methods.len()
            invariant
                i <= self.methods@.len(),
                ms == methods_model(self.methods@),
                self.model() == old(self).model(),
                assoc(ms, method_name@) == assoc(ms.subrange(i as int, ms.len() as int), method_name@),
            decreases self.methods@.len() - i,
        {
            let ghost rest = ms.subrange(i as int, ms.len() as int);
            assert(rest[0] == ms[i as int]);
            if self.methods[i].0 == *method_name {
                return Some(Box::new(self.methods[i].1.duplicate()));
            }
            assert(rest.subrange(1, rest.len() as int) =~= ms.subrange(i + 1, ms.len() as int));
            i += 1;
        }
        None
    }

    /// Whether the type has an attribute named `name`.
    pub fn has_variable(&self, name: &String) -> (b: bool)
        ensures
            b == assoc(self.model().variables, name@) is Some,
    {
        let ghost vs = vars_model(self.variables@);
        let mut i: usize = 0;
        assert(vs.subrange(0, vs.len() as int) =~= vs);
        while i < self.variables.len()
            invariant
                i <= self.variables@.len(),
                vs == vars_model(self.variables@),
                vs == self.model().variables,
                assoc(vs, name@) == assoc(vs.subrange(i as int, vs.len() as int), name@),
            decreases self.variables@.len() - i,
        {
            let ghost rest = vs.subrange(i as int, vs.len() as int);
            assert(rest[0] == vs[i as int]);
            if self.variables[i].0 == *name {
                return true;
            }
            assert(rest.subrange(1, rest.len() as int) =~= vs.subrange(i + 1, vs.len() as int));
            i += 1;
        }
        false
    }

    /// A copy of this node.
    pub fn duplicate(&self) -> (r: TypeNode)
        ensures
            r.model() == self.model(),
    {
        let mut variables: Vec<(String, String)> = Vec::new();
        let mut i: usize = 0;
        while i < self.variables.len()
            invariant
                i <= self.variables@.len(),
                variables@.len() == i,
                vars_model(variables@) == vars_model(self.variables@.take(i as int)),
            decreases self.variables@.len() - i,
        {
            let ghost before = variables@;
            variables.push((self.variables[i].0.clone(), self.variables[i].1.clone()));
            assert forall|j: int| 0 <= j < variables@.len() implies vars_model(variables@)[j]
                == vars_model(self.variables@.take(i + 1))[j] by {
                if j < i {
                    assert(variables@[j] == before[j]);
                    assert(vars_model(before)[j] == vars_model(self.variables@.take(i as int))[j]);
                }
            }
            assert(vars_model(variables@) =~= vars_model(self.variables@.take(i + 1)));
            i += 1;
        }
        assert(self.variables@.take(self.variables@.len() as int) =~= self.variables@);
        let mut methods: Vec<(String, FunctionDef)> = Vec::new();
        let mut k: usize = 0;
        while k < self.methods.len()
            invariant
                k <= self.methods@.len(),
                methods@.len() == k,
                methods_model(methods@) == methods_model(self.methods@.take(k as int)),
            decreases self.methods@.len() - k,
        {
            let ghost before = methods@;
            methods.push((self.methods[k].0.clone(), self.methods[k].1.duplicate()));
            assert forall|j: int| 0 <= j < methods@.len() implies methods_model(methods@)[j]
                == methods_model(self.methods@.take(k + 1))[j] by {
                if j < k {
                    assert(methods@[j] == before[j]);
                    assert(methods_model(before)[j] == methods_model(self.methods@.take(k as int))[j]);
                }
            }
            assert(methods_model(methods@) =~= methods_model(self.methods@.take(k + 1)));
            k += 1;
        }
        assert(self.methods@.take(self.methods@.len() as int) =~= self.methods@);
        let parent = match &self.parent {
            Some(p) => Some(p.clone()),
            None => None,
        };
        TypeNode {
            name: self.name.clone(),
            depth: self.depth,
            params: copy_params(&self.params),
            parent,
            children: copy_strings(&self.children),
            variables,
            methods,
        }
    }
}

} // verus!
