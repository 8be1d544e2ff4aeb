//! Function definitions as the type hierarchy records them: name, parameters and return
//! type.

use vstd::prelude::*;

verus! {

/// A parameter: its name and its declared type.
#[derive(Debug)]
pub struct FunctionParams {
    pub name: String,
    pub signature: String,
}

/// A function or method definition: name, parameters and return type.
#[derive(Debug)]
pub struct FunctionDef {
    pub name: String,
    pub params: Vec<FunctionParams>,
    pub return_type: String,
}

/// Parameters as plain values.
pub open spec fn params_model(v: Seq<FunctionParams>) -> Seq<(Seq<char>, Seq<char>)> {
    v.map_values(|p: FunctionParams| (p.name@, p.signature@))
}

impl FunctionDef {
    /// The definition as plain values.
    pub open spec fn model(&self) -> (Seq<char>, Seq<(Seq<char>, Seq<char>)>, Seq<char>) {
        (self.name@, params_model(self.params@), self.return_type@)
    }

    /// A copy of this definition.
    pub fn duplicate(&self) -> (r: FunctionDef)
        ensures
            r.model() == self.model(),
    {
        FunctionDef { name: self.name.clone(), params: copy_params(&self.params), return_type: self.return_type.clone() }
    }
}

/// A copy of a parameter list.
pub fn copy_params(v: &Vec<FunctionParams>) -> (r: Vec<FunctionParams>)
    ensures
        params_model(r@) == params_model(v@),
{
    let mut r: Vec<FunctionParams> = Vec::new();
    let mut i: usize = 0;
    while i < v.len()
        invariant
            i <= v@.len(),
            r@.len() == i,
            params_model(r@) == params_model(v@.take(i as int)),
        decreases v@.len() - i,
    {
        let ghost before = r@;
        r.push(FunctionParams { name: v[i].name.clone(), signature: v[i].signature.clone() });
        assert forall|j: int| 0 <= j < r@.len() implies params_model(r@)[j] == params_model(v@.take(i + 1))[j] by {
            if j < i {
                assert(r@[j] == before[j]);
                assert(params_model(before)[j] == params_model(v@.take(i as int))[j]);
            }
        }
        assert(params_model(r@) =~= params_model(v@.take(i + 1)));
        i += 1;
    }
    assert(v@.take(v@.len() as int) =~= v@);
    r
}

} // verus!
