//! The parsed interface of an FMU: its scalar variables, enough to resolve a
//! role binding by name.

use vstd::prelude::*;

verus! {

/// An FMI value reference -- the numeric handle an FMU addresses a variable by.
pub type ValueReference = u32;

/// The coordinate frame an FMU emits its pose in.
#[derive(Debug, Clone, Copy, PartialEq, Eq, Structural)]
pub enum FmuFrame {
    /// Already the sim's Y-up frame.
    SimYUp,
    /// x forward, y left, z up (right-handed, z-up).
    OcdZUp,
}

impl Default for FmuFrame {
    /// The sim's own frame.
    fn default() -> (f: Self)
        ensures
            f == FmuFrame::SimYUp,
    {
        FmuFrame::SimYUp
    }
}

/// FMI variable causality -- who drives a variable.
#[derive(Debug, Clone, Copy, PartialEq, Eq, Structural)]
pub enum Causality {
    Parameter,
    CalculatedParameter,
    Input,
    Output,
    Local,
    Independent,
    Dependent,
    StructuralParameter,
}

/// The FMI base type of a variable.
#[derive(Debug, Clone, Copy, PartialEq, Eq, Structural)]
pub enum BaseType {
    Float32,
    Float64,
    Int8,
    UInt8,
    Int16,
    UInt16,
    Int32,
    UInt32,
    Int64,
    UInt64,
    Boolean,
    String,
    Binary,
    Clock,
}

/// One scalar variable from an FMU's model description.
#[derive(Debug, Clone, PartialEq, Eq)]
pub struct Variable {
    pub name: String,
    pub value_reference: ValueReference,
    pub causality: Causality,
    pub base_type: BaseType,
}

/// The parsed interface of an FMU: its variables, in declaration order.
#[derive(Debug, Clone, PartialEq, Eq)]
pub struct ModelDescription {
    variables: Vec<Variable>,
}

/// The first variable in `vars` whose name is `name`, if any.
pub open spec fn find_variable(vars: Seq<Variable>, name: Seq<char>) -> Option<Variable>
    decreases vars.len(),
{
    if vars.len() == 0 {
        None
    } else if vars[0].name@ == name {
        Some(vars[0])
    } else {
        find_variable(vars.drop_first(), name)
    }
}

/// `find_variable` agrees with a direct statement: it returns the variable at
/// the smallest index carrying that name, and `None` when no variable does.
pub proof fn lemma_find_variable(vars: Seq<Variable>, name: Seq<char>)
    ensures
        find_variable(vars, name) is None <==> (forall|i: int| 0 <= i < vars.len() ==> vars[i].name@ != name),
        find_variable(vars, name) is Some ==> exists|i: int|
            0 <= i < vars.len() && vars[i] == find_variable(vars, name)->0 && vars[i].name@ == name
                && (forall|j: int| 0 <= j < i ==> vars[j].name@ != name),
    decreases vars.len(),
{
    if vars.len() > 0 {
        lemma_find_variable(vars.drop_first(), name);
        if vars[0].name@ != name {
            assert forall|i: int| 1 <= i < vars.len() implies vars[i] == vars.drop_first()[i - 1] by {}
            if find_variable(vars.drop_first(), name) is Some {
                let k = choose|k: int| 0 <= k < vars.len() - 1 && vars.drop_first()[k] == find_variable(vars.drop_first(), name)->0
                    && vars.drop_first()[k].name@ == name
                    && (forall|j: int| 0 <= j < k ==> vars.drop_first()[j].name@ != name);
                assert(vars[k + 1] == vars.drop_first()[k]);
                assert forall|j: int| 0 <= j < k + 1 implies vars[j].name@ != name by {
                    if j > 0 {
                        assert(vars[j] == vars.drop_first()[j - 1]);
                    }
                }
            } else {
                assert forall|i: int| 0 <= i < vars.len() implies vars[i].name@ != name by {
                    if i > 0 {
                        assert(vars[i] == vars.drop_first()[i - 1]);
                    }
                }
            }
        }
    }
}

impl ModelDescription {
    /// The variables, in declaration order.
    pub closed spec fn spec_variables(&self) -> Seq<Variable> {
        self.variables@
    }

    /// The description holding exactly the vector `variables`.
    pub closed spec fn spec_new(variables: Vec<Variable>) -> Self {
        ModelDescription { variables }
    }

    /// A model description holding exactly `variables`, in order.
    pub fn new(variables: Vec<Variable>) -> (md: Self)
        ensures
            md == Self::spec_new(variables),
            md.spec_variables() == variables@,
    {
        Self { variables }
    }

    /// A description is determined by the vector it is built from: equal
    /// vectors give equal descriptions and different vectors different ones,
    /// and its variables are that vector's elements.
    pub proof fn lemma_new_determined(vs: Vec<Variable>, ws: Vec<Variable>)
        ensures
            (Self::spec_new(vs) == Self::spec_new(ws)) <==> vs == ws,
            Self::spec_new(vs).spec_variables() == vs@,
    {
        if Self::spec_new(vs) == Self::spec_new(ws) {
            assert(Self::spec_new(vs).variables == Self::spec_new(ws).variables);
        }
    }

    /// An empty description describes the same (no) variables whether it is
    /// made by `default` or by `new` from an empty vector.
    pub proof fn lemma_default_is_new_empty(d: Self, e: Vec<Variable>)
        requires
            d.spec_variables() == Seq::<Variable>::empty(),
            e@ == Seq::<Variable>::empty(),
        ensures
            d.spec_variables() == Self::spec_new(e).spec_variables(),
    {
    }

    /// The first variable with this name, if any. A linear scan: model
    /// descriptions are small and this runs once at load.
    pub fn variable(&self, name: &str) -> (r: Option<&Variable>)
        ensures
            r matches Some(v) ==> Some(*v) == find_variable(self.spec_variables(), name@),
            r is None <==> find_variable(self.spec_variables(), name@) is None,
    {
        let key: String = name.to_owned();
        let n = self.variables.len();
        let mut i: usize = 0;
        assert(self.variables@.skip(0) =~= self.variables@);
        while i < n
            invariant
                n == self.variables@.len(),
                i <= n,
                key@ == name@,
                find_variable(self.variables@, name@) == find_variable(self.variables@.skip(i as int), name@),
            decreases n - i,
        {
            let v = &self.variables[i];
            assert(self.variables@.skip(i as int)[0] == self.variables@[i as int]);
            assert(self.variables@.skip(i as int).drop_first() =~= self.variables@.skip(i + 1));
            if v.name == key {
                return Some(v);
            }
            i = i + 1;
        }
        assert(self.variables@.skip(i as int).len() == 0);
        None
    }

    /// Every variable, in declaration order.
    pub fn variables(&self) -> (r: &[Variable])
        ensures
            r@ == self.spec_variables(),
    {
        self.variables.as_slice()
    }
}

impl Default for ModelDescription {
    /// A description with no variables.
    fn default() -> (md: Self)
        ensures
            md.spec_variables() == Seq::<Variable>::empty(),
    {
        ModelDescription { variables: Vec::new() }
    }
}

} // verus!
