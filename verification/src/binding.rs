//! Role binding for an FMU vehicle: every role a scenario names (driver
//! inputs, ground inputs, pose outputs) is resolved to the value reference
//! of the FMU variable it names, checking that the variable exists, faces the
//! right way, is a `Float64`, and that no two roles share one variable.

use vstd::prelude::*;
use crate::model::{find_variable, BaseType, Causality, ModelDescription, ValueReference, Variable};

verus! {

/// The driver-actuator inputs every FMU vehicle exposes, named by the FMU's
/// own variable names. `bank` (road superelevation) is optional.
#[derive(Debug, Clone, PartialEq, Eq)]
pub struct InputBinding {
    pub steer: String,
    pub throttle: String,
    pub brake: String,
    pub bank: Option<String>,
}

/// Optional ground inputs; a role the FMU does not expose stays `None`.
#[derive(Debug, Clone, Default, PartialEq, Eq)]
pub struct GroundBinding {
    pub height: Option<String>,
    pub normal_z: Option<String>,
    pub friction: Option<String>,
}

/// The pose outputs; `roll`/`pitch` are optional (a planar FMU has neither).
#[derive(Debug, Clone, PartialEq, Eq)]
pub struct OutputBinding {
    pub x: String,
    pub y: String,
    pub z: String,
    pub yaw: String,
    pub roll: Option<String>,
    pub pitch: Option<String>,
}

/// A scenario's role -> variable-name map for an FMU vehicle.
#[derive(Debug, Clone, PartialEq, Eq)]
pub struct BindingSpec {
    pub inputs: InputBinding,
    pub ground: GroundBinding,
    pub outputs: OutputBinding,
}

/// Resolved driver inputs.
#[derive(Debug, Clone, Copy, PartialEq, Eq, Structural)]
pub struct ResolvedInputs {
    pub steer: ValueReference,
    pub throttle: ValueReference,
    pub brake: ValueReference,
    pub bank: Option<ValueReference>,
}

/// Resolved ground inputs; unbound roles stay `None`.
#[derive(Debug, Clone, Copy, Default, PartialEq, Eq, Structural)]
pub struct ResolvedGround {
    pub height: Option<ValueReference>,
    pub normal_z: Option<ValueReference>,
    pub friction: Option<ValueReference>,
}

/// Resolved pose outputs.
#[derive(Debug, Clone, Copy, PartialEq, Eq, Structural)]
pub struct ResolvedOutputs {
    pub x: ValueReference,
    pub y: ValueReference,
    pub z: ValueReference,
    pub yaw: ValueReference,
    pub roll: Option<ValueReference>,
    pub pitch: Option<ValueReference>,
}

/// A binding with every role resolved to its value reference.
#[derive(Debug, Clone, Copy, PartialEq, Eq, Structural)]
pub struct ResolvedBinding {
    pub inputs: ResolvedInputs,
    pub ground: ResolvedGround,
    pub outputs: ResolvedOutputs,
}

/// Why a binding could not be resolved against a model description.
#[derive(Debug, Clone, PartialEq, Eq)]
pub enum BindError {
    /// A role names a variable the FMU does not declare.
    UnknownVariable { role: String, name: String },
    /// A named variable exists but faces the wrong way.
    WrongCausality { role: String, name: String, expected: Causality, actual: Causality },
    /// Two distinct roles resolved to the same FMU variable.
    DuplicateVariable { first_role: String, second_role: String, name: String, vr: ValueReference },
    /// A role names a variable that is not `Float64`.
    WrongBaseType { role: String, name: String, actual: BaseType },
}

/// `BindError` with its strings taken as character sequences.
pub enum BindErrorView {
    UnknownVariable { role: Seq<char>, name: Seq<char> },
    WrongCausality { role: Seq<char>, name: Seq<char>, expected: Causality, actual: Causality },
    DuplicateVariable { first_role: Seq<char>, second_role: Seq<char>, name: Seq<char>, vr: ValueReference },
    WrongBaseType { role: Seq<char>, name: Seq<char>, actual: BaseType },
}

impl View for BindError {
    type V = BindErrorView;

    open spec fn view(&self) -> BindErrorView {
        match self {
            BindError::UnknownVariable { role, name } => BindErrorView::UnknownVariable { role: role@, name: name@ },
            BindError::WrongCausality { role, name, expected, actual } => BindErrorView::WrongCausality {
                role: role@,
                name: name@,
                expected: *expected,
                actual: *actual,
            },
            BindError::DuplicateVariable { first_role, second_role, name, vr } => BindErrorView::DuplicateVariable {
                first_role: first_role@,
                second_role: second_role@,
                name: name@,
                vr: *vr,
            },
            BindError::WrongBaseType { role, name, actual } => BindErrorView::WrongBaseType {
                role: role@,
                name: name@,
                actual: *actual,
            },
        }
    }
}

/// A result with its error taken by view.
pub open spec fn result_view<T>(r: Result<T, BindError>) -> Result<T, BindErrorView> {
    match r {
        Ok(t) => Ok(t),
        Err(e) => Err(e@),
    }
}

/// What resolving one role named `name` against `vars` gives: the variable's
/// value reference, or why it cannot be used (unknown, then wrong causality,
/// then wrong base type).
pub open spec fn role_outcome(vars: Seq<Variable>, role: Seq<char>, name: Seq<char>, expected: Causality) -> Result<ValueReference, BindErrorView> {
    match find_variable(vars, name) {
        None => Err(BindErrorView::UnknownVariable { role, name }),
        Some(v) => if v.causality != expected {
            Err(BindErrorView::WrongCausality { role, name, expected, actual: v.causality })
        } else if v.base_type != BaseType::Float64 {
            Err(BindErrorView::WrongBaseType { role, name, actual: v.base_type })
        } else {
            Ok(v.value_reference)
        },
    }
}

/// One role in resolution order: its name for messages, the variable it
/// names (`None` = unbound optional role), and the causality it needs.
pub struct RoleSlot {
    pub role: Seq<char>,
    pub name: Option<Seq<char>>,
    pub expected: Causality,
}

pub open spec fn slot(role: Seq<char>, name: Option<Seq<char>>, expected: Causality) -> RoleSlot {
    RoleSlot { role, name, expected }
}

pub open spec fn opt_view(name: Option<String>) -> Option<Seq<char>> {
    match name {
        Some(n) => Some(n@),
        None => None,
    }
}

/// The roles in the order they are resolved: driver inputs, ground inputs,
/// then the pose outputs.
pub open spec fn resolve_order(s: BindingSpec) -> Seq<RoleSlot> {
    seq![
        slot("steer"@, Some(s.inputs.steer@), Causality::Input),
        slot("throttle"@, Some(s.inputs.throttle@), Causality::Input),
        slot("brake"@, Some(s.inputs.brake@), Causality::Input),
        slot("bank"@, opt_view(s.inputs.bank), Causality::Input),
        slot("ground.height"@, opt_view(s.ground.height), Causality::Input),
        slot("ground.normal_z"@, opt_view(s.ground.normal_z), Causality::Input),
        slot("ground.friction"@, opt_view(s.ground.friction), Causality::Input),
        slot("x"@, Some(s.outputs.x@), Causality::Output),
        slot("y"@, Some(s.outputs.y@), Causality::Output),
        slot("z"@, Some(s.outputs.z@), Causality::Output),
        slot("yaw"@, Some(s.outputs.yaw@), Causality::Output),
        slot("roll"@, opt_view(s.outputs.roll), Causality::Output),
        slot("pitch"@, opt_view(s.outputs.pitch), Causality::Output),
    ]
}

/// The error resolving this slot gives, if it is bound and fails.
pub open spec fn slot_error(vars: Seq<Variable>, sl: RoleSlot) -> Option<BindErrorView> {
    match sl.name {
        None => None,
        Some(n) => match role_outcome(vars, sl.role, n, sl.expected) {
            Err(e) => Some(e),
            Ok(_) => None,
        },
    }
}

/// The value reference a slot resolves to, `None` when it is unbound.
pub open spec fn slot_vr(vars: Seq<Variable>, sl: RoleSlot) -> Option<ValueReference> {
    match sl.name {
        None => None,
        Some(n) => match role_outcome(vars, sl.role, n, sl.expected) {
            Ok(vr) => Some(vr),
            Err(_) => None,
        },
    }
}

/// The error of the first slot at or after `i` that fails, if any.
pub open spec fn first_slot_error(vars: Seq<Variable>, slots: Seq<RoleSlot>, i: int) -> Option<BindErrorView>
    decreases slots.len() - i,
{
    if i < 0 || i >= slots.len() {
        None
    } else {
        match slot_error(vars, slots[i]) {
            Some(e) => Some(e),
            None => first_slot_error(vars, slots, i + 1),
        }
    }
}

/// The binding every role resolves to (meaningful when none fails).
pub open spec fn resolved_binding(s: BindingSpec, vars: Seq<Variable>) -> ResolvedBinding {
    let o = resolve_order(s);
    ResolvedBinding {
        inputs: ResolvedInputs {
            steer: slot_vr(vars, o[0]).unwrap(),
            throttle: slot_vr(vars, o[1]).unwrap(),
            brake: slot_vr(vars, o[2]).unwrap(),
            bank: slot_vr(vars, o[3]),
        },
        ground: ResolvedGround {
            height: slot_vr(vars, o[4]),
            normal_z: slot_vr(vars, o[5]),
            friction: slot_vr(vars, o[6]),
        },
        outputs: ResolvedOutputs {
            x: slot_vr(vars, o[7]).unwrap(),
            y: slot_vr(vars, o[8]).unwrap(),
            z: slot_vr(vars, o[9]).unwrap(),
            yaw: slot_vr(vars, o[10]).unwrap(),
            roll: slot_vr(vars, o[11]),
            pitch: slot_vr(vars, o[12]),
        },
    }
}

/// A bound role as the duplicate check sees it.
pub struct BoundRole {
    pub role: Seq<char>,
    pub name: Seq<char>,
    pub vr: ValueReference,
}

pub open spec fn bound(role: Seq<char>, name: Seq<char>, vr: ValueReference) -> BoundRole {
    BoundRole { role, name, vr }
}

/// An optional role, present only when both its name and value reference are.
pub open spec fn opt_bound(role: Seq<char>, name: Option<String>, vr: Option<ValueReference>) -> Seq<BoundRole> {
    match (name, vr) {
        (Some(n), Some(v)) => seq![bound(role, n@, v)],
        _ => seq![],
    }
}

/// The bound roles in the order the duplicate check compares them: the
/// required driver inputs, the bound optional roles, then the required pose.
pub open spec fn check_order(s: BindingSpec, r: ResolvedBinding) -> Seq<BoundRole> {
    seq![
        bound("steer"@, s.inputs.steer@, r.inputs.steer),
        bound("throttle"@, s.inputs.throttle@, r.inputs.throttle),
        bound("brake"@, s.inputs.brake@, r.inputs.brake),
    ]
        + opt_bound("bank"@, s.inputs.bank, r.inputs.bank)
        + opt_bound("ground.height"@, s.ground.height, r.ground.height)
        + opt_bound("ground.normal_z"@, s.ground.normal_z, r.ground.normal_z)
        + opt_bound("ground.friction"@, s.ground.friction, r.ground.friction)
        + opt_bound("roll"@, s.outputs.roll, r.outputs.roll)
        + opt_bound("pitch"@, s.outputs.pitch, r.outputs.pitch)
        + seq![
        bound("x"@, s.outputs.x@, r.outputs.x),
        bound("y"@, s.outputs.y@, r.outputs.y),
        bound("z"@, s.outputs.z@, r.outputs.z),
        bound("yaw"@, s.outputs.yaw@, r.outputs.yaw),
    ]
}

/// No two entries before `(i, j)` (lexicographically) share a value reference.
pub open spec fn no_duplicate_before(b: Seq<BoundRole>, i: int, j: int) -> bool {
    forall|p: int, q: int|
        #![trigger b[p], b[q]]
        0 <= p < q < b.len() && (p < i || (p == i && q < j)) ==> b[p].vr != b[q].vr
}

/// `(i, j)` is the first pair (by `i`, then `j`) of entries sharing a value
/// reference.
pub open spec fn is_first_duplicate(b: Seq<BoundRole>, i: int, j: int) -> bool {
    0 <= i < j < b.len() && b[i].vr == b[j].vr && no_duplicate_before(b, i, j)
}

/// Every bound role has its own value reference.
pub open spec fn all_distinct(b: Seq<BoundRole>) -> bool {
    forall|p: int, q: int| #![trigger b[p], b[q]] 0 <= p < q < b.len() ==> b[p].vr != b[q].vr
}

/// The duplicate error for the first shared pair, if any.
pub open spec fn duplicate_error(b: Seq<BoundRole>) -> Option<BindErrorView> {
    if all_distinct(b) {
        None
    } else {
        let (i, j) = choose|i: int, j: int| is_first_duplicate(b, i, j);
        Some(BindErrorView::DuplicateVariable {
            first_role: b[i].role,
            second_role: b[j].role,
            name: b[j].name,
            vr: b[j].vr,
        })
    }
}

/// What resolving the whole spec gives: the first failing role's error;
/// otherwise the first shared variable; otherwise the resolved binding.
pub open spec fn spec_resolve(s: BindingSpec, vars: Seq<Variable>) -> Result<ResolvedBinding, BindErrorView> {
    match first_slot_error(vars, resolve_order(s), 0) {
        Some(e) => Err(e),
        None => match duplicate_error(check_order(s, resolved_binding(s, vars))) {
            Some(e) => Err(e),
            None => Ok(resolved_binding(s, vars)),
        },
    }
}

/// There is at most one first duplicate pair.
pub proof fn lemma_first_duplicate_unique(b: Seq<BoundRole>, i: int, j: int, i2: int, j2: int)
    requires
        is_first_duplicate(b, i, j),
        is_first_duplicate(b, i2, j2),
    ensures
        i == i2 && j == j2,
{
    if i < i2 || (i == i2 && j < j2) {
        assert(b[i].vr != b[j].vr);
    } else if i2 < i || (i == i2 && j2 < j) {
        assert(b[i2].vr != b[j2].vr);
    }
}


/// When no slot at or after `i` fails, none does.
proof fn lemma_no_slot_error(vars: Seq<Variable>, slots: Seq<RoleSlot>, i: int)
    requires
        0 <= i,
        first_slot_error(vars, slots, i) is None,
    ensures
        forall|k: int| i <= k < slots.len() ==> slot_error(vars, #[trigger] slots[k]) is None,
    decreases slots.len() - i,
{
    if i < slots.len() {
        lemma_no_slot_error(vars, slots, i + 1);
    }
}

/// A resolved binding gives every role its own variable of the right kind:
/// each bound role's value reference is that of the variable it names, which
/// faces the role's direction and is a `Float64`; and no two bound roles
/// share a value reference.
pub proof fn lemma_resolved_binding_is_sound(s: BindingSpec, vars: Seq<Variable>, r: ResolvedBinding)
    requires
        spec_resolve(s, vars) == Ok::<ResolvedBinding, BindErrorView>(r),
    ensures
        all_distinct(check_order(s, r)),
        r == resolved_binding(s, vars),
        forall|k: int| 0 <= k < 13 && (#[trigger] resolve_order(s)[k]).name is Some ==> {
            let v = find_variable(vars, resolve_order(s)[k].name->0);
            &&& v is Some
            &&& slot_vr(vars, resolve_order(s)[k]) == Some(v->0.value_reference)
            &&& v->0.causality == resolve_order(s)[k].expected
            &&& v->0.base_type == BaseType::Float64
        },
{
    lemma_no_slot_error(vars, resolve_order(s), 0);
    assert(resolve_order(s).len() == 13);
}

/// Resolve one role named `name`, expecting `expected` causality.
fn resolve(md: &ModelDescription, role: &str, name: &str, expected: Causality) -> (r: Result<ValueReference, BindError>)
    ensures
        result_view(r) == role_outcome(md.spec_variables(), role@, name@, expected),
{
    match md.variable(name) {
        None => Err(BindError::UnknownVariable { role: role.to_owned(), name: name.to_owned() }),
        Some(var) => {
            if var.causality != expected {
                Err(BindError::WrongCausality {
                    role: role.to_owned(),
                    name: name.to_owned(),
                    expected,
                    actual: var.causality,
                })
            } else if var.base_type != BaseType::Float64 {
                Err(BindError::WrongBaseType { role: role.to_owned(), name: name.to_owned(), actual: var.base_type })
            } else {
                Ok(var.value_reference)
            }
        },
    }
}

/// Resolve an optional role: unbound stays unbound.
fn resolve_opt(md: &ModelDescription, role: &str, name: &Option<String>, expected: Causality) -> (r: Result<Option<ValueReference>, BindError>)
    ensures
        r matches Err(e) ==> slot_error(md.spec_variables(), slot(role@, opt_view(*name), expected)) == Some(e@),
        r matches Ok(v) ==> slot_error(md.spec_variables(), slot(role@, opt_view(*name), expected)) is None
            && v == slot_vr(md.spec_variables(), slot(role@, opt_view(*name), expected)),
{
    match name {
        Some(n) => {
            let vr = resolve(md, role, n.as_str(), expected)?;
            Ok(Some(vr))
        },
        None => Ok(None),
    }
}

/// One bound role as the duplicate check holds it.
struct BoundEntry<'a> {
    role: &'a str,
    name: &'a str,
    vr: ValueReference,
}

spec fn entry_view<'a>(e: BoundEntry<'a>) -> BoundRole {
    bound(e.role@, e.name@, e.vr)
}

/// Append an optional role when both its name and value reference are bound.
fn push_opt<'a>(entries: &mut Vec<BoundEntry<'a>>, role: &'a str, name: &'a Option<String>, vr: Option<ValueReference>)
    ensures
        final(entries)@.map_values(|e: BoundEntry<'a>| entry_view(e)) == old(entries)@.map_values(
            |e: BoundEntry<'a>| entry_view(e),
        ) + opt_bound(role@, *name, vr),
{
    let ghost before = entries@;
    match name {
        Some(n) => match vr {
            Some(v) => {
                entries.push(BoundEntry { role, name: n.as_str(), vr: v });
                assert(entries@.map_values(|e: BoundEntry<'a>| entry_view(e)) =~= before.map_values(
                    |e: BoundEntry<'a>| entry_view(e),
                ) + opt_bound(role@, *name, vr));
            },
            None => {
                assert(entries@.map_values(|e: BoundEntry<'a>| entry_view(e)) =~= before.map_values(
                    |e: BoundEntry<'a>| entry_view(e),
                ) + opt_bound(role@, *name, vr));
            },
        },
        None => {
            assert(entries@.map_values(|e: BoundEntry<'a>| entry_view(e)) =~= before.map_values(
                |e: BoundEntry<'a>| entry_view(e),
            ) + opt_bound(role@, *name, vr));
        },
    }
}

/// Append a required role.
fn push_req<'a>(entries: &mut Vec<BoundEntry<'a>>, role: &'a str, name: &'a String, vr: ValueReference)
    ensures
        final(entries)@.map_values(|e: BoundEntry<'a>| entry_view(e)) == old(entries)@.map_values(
            |e: BoundEntry<'a>| entry_view(e),
        ).push(bound(role@, name@, vr)),
{
    let ghost before = entries@;
    entries.push(BoundEntry { role, name: name.as_str(), vr });
    assert(entries@.map_values(|e: BoundEntry<'a>| entry_view(e)) =~= before.map_values(
        |e: BoundEntry<'a>| entry_view(e),
    ).push(bound(role@, name@, vr)));
}

impl BindingSpec {
    /// Resolve every role to its value reference, checking the named variable
    /// exists, its causality matches the role's direction (driver and ground
    /// inputs are `Input`, pose outputs `Output`) and it is a `Float64`; then
    /// reject two roles sharing one variable.
    pub fn resolve(&self, md: &ModelDescription) -> (r: Result<ResolvedBinding, BindError>)
        ensures
            result_view(r) == spec_resolve(*self, md.spec_variables()),
            r matches Ok(b) ==> forall|i: int, j: int|
                0 <= i < 13 && 0 <= j < 13 && i != j && (#[trigger] role_vrs(b)[i]) is Some && (
                #[trigger] role_vrs(b)[j]) is Some ==> role_vrs(b)[i] != role_vrs(b)[j],
    {
        let ghost vars = md.spec_variables();
        let ghost o = resolve_order(*self);
        let steer = match resolve(md, "steer", self.inputs.steer.as_str(), Causality::Input) {
            Ok(v) => v,
            Err(e) => {
                assert(o[0] == slot("steer"@, Some(self.inputs.steer@), Causality::Input));
                return Err(e);
            },
        };
        assert(o[0] == slot("steer"@, Some(self.inputs.steer@), Causality::Input));
        assert(first_slot_error(vars, o, 0) == first_slot_error(vars, o, 1));
        let throttle = match resolve(md, "throttle", self.inputs.throttle.as_str(), Causality::Input) {
            Ok(v) => v,
            Err(e) => {
                assert(o[1] == slot("throttle"@, Some(self.inputs.throttle@), Causality::Input));
                return Err(e);
            },
        };
        assert(o[1] == slot("throttle"@, Some(self.inputs.throttle@), Causality::Input));
        assert(first_slot_error(vars, o, 0) == first_slot_error(vars, o, 2));
        let brake = match resolve(md, "brake", self.inputs.brake.as_str(), Causality::Input) {
            Ok(v) => v,
            Err(e) => {
                assert(o[2] == slot("brake"@, Some(self.inputs.brake@), Causality::Input));
                return Err(e);
            },
        };
        assert(o[2] == slot("brake"@, Some(self.inputs.brake@), Causality::Input));
        assert(first_slot_error(vars, o, 0) == first_slot_error(vars, o, 3));
        let bank = match resolve_opt(md, "bank", &self.inputs.bank, Causality::Input) {
            Ok(v) => v,
            Err(e) => {
                assert(o[3] == slot("bank"@, opt_view(self.inputs.bank), Causality::Input));
                return Err(e);
            },
        };
        assert(o[3] == slot("bank"@, opt_view(self.inputs.bank), Causality::Input));
        assert(first_slot_error(vars, o, 0) == first_slot_error(vars, o, 4));
        let height = match resolve_opt(md, "ground.height", &self.ground.height, Causality::Input) {
            Ok(v) => v,
            Err(e) => {
                assert(o[4] == slot("ground.height"@, opt_view(self.ground.height), Causality::Input));
                return Err(e);
            },
        };
        assert(o[4] == slot("ground.height"@, opt_view(self.ground.height), Causality::Input));
        assert(first_slot_error(vars, o, 0) == first_slot_error(vars, o, 5));
        let normal_z = match resolve_opt(md, "ground.normal_z", &self.ground.normal_z, Causality::Input) {
            Ok(v) => v,
            Err(e) => {
                assert(o[5] == slot("ground.normal_z"@, opt_view(self.ground.normal_z), Causality::Input));
                return Err(e);
            },
        };
        assert(o[5] == slot("ground.normal_z"@, opt_view(self.ground.normal_z), Causality::Input));
        assert(first_slot_error(vars, o, 0) == first_slot_error(vars, o, 6));
        let friction = match resolve_opt(md, "ground.friction", &self.ground.friction, Causality::Input) {
            Ok(v) => v,
            Err(e) => {
                assert(o[6] == slot("ground.friction"@, opt_view(self.ground.friction), Causality::Input));
                return Err(e);
            },
        };
        assert(o[6] == slot("ground.friction"@, opt_view(self.ground.friction), Causality::Input));
        assert(first_slot_error(vars, o, 0) == first_slot_error(vars, o, 7));
        let x = match resolve(md, "x", self.outputs.x.as_str(), Causality::Output) {
            Ok(v) => v,
            Err(e) => {
                assert(o[7] == slot("x"@, Some(self.outputs.x@), Causality::Output));
                return Err(e);
            },
        };
        assert(o[7] == slot("x"@, Some(self.outputs.x@), Causality::Output));
        assert(first_slot_error(vars, o, 0) == first_slot_error(vars, o, 8));
        let y = match resolve(md, "y", self.outputs.y.as_str(), Causality::Output) {
            Ok(v) => v,
            Err(e) => {
                assert(o[8] == slot("y"@, Some(self.outputs.y@), Causality::Output));
                return Err(e);
            },
        };
        assert(o[8] == slot("y"@, Some(self.outputs.y@), Causality::Output));
        assert(first_slot_error(vars, o, 0) == first_slot_error(vars, o, 9));
        let z = match resolve(md, "z", self.outputs.z.as_str(), Causality::Output) {
            Ok(v) => v,
            Err(e) => {
                assert(o[9] == slot("z"@, Some(self.outputs.z@), Causality::Output));
                return Err(e);
            },
        };
        assert(o[9] == slot("z"@, Some(self.outputs.z@), Causality::Output));
        assert(first_slot_error(vars, o, 0) == first_slot_error(vars, o, 10));
        let yaw = match resolve(md, "yaw", self.outputs.yaw.as_str(), Causality::Output) {
            Ok(v) => v,
            Err(e) => {
                assert(o[10] == slot("yaw"@, Some(self.outputs.yaw@), Causality::Output));
                return Err(e);
            },
        };
        assert(o[10] == slot("yaw"@, Some(self.outputs.yaw@), Causality::Output));
        assert(first_slot_error(vars, o, 0) == first_slot_error(vars, o, 11));
        let roll = match resolve_opt(md, "roll", &self.outputs.roll, Causality::Output) {
            Ok(v) => v,
            Err(e) => {
                assert(o[11] == slot("roll"@, opt_view(self.outputs.roll), Causality::Output));
                return Err(e);
            },
        };
        assert(o[11] == slot("roll"@, opt_view(self.outputs.roll), Causality::Output));
        assert(first_slot_error(vars, o, 0) == first_slot_error(vars, o, 12));
        let pitch = match resolve_opt(md, "pitch", &self.outputs.pitch, Causality::Output) {
            Ok(v) => v,
            Err(e) => {
                assert(o[12] == slot("pitch"@, opt_view(self.outputs.pitch), Causality::Output));
                return Err(e);
            },
        };
        assert(o[12] == slot("pitch"@, opt_view(self.outputs.pitch), Causality::Output));
        assert(first_slot_error(vars, o, 0) == first_slot_error(vars, o, 13));
        let resolved = ResolvedBinding {
            inputs: ResolvedInputs { steer, throttle, brake, bank },
            ground: ResolvedGround { height, normal_z, friction },
            outputs: ResolvedOutputs { x, y, z, yaw, roll, pitch },
        };
        assert(first_slot_error(vars, o, 13) is None);
        assert(resolved == resolved_binding(*self, vars));
        match self.check_no_duplicates(&resolved) {
            Ok(()) => {
                proof {
                    lemma_bound_roles_are_distinct(*self, vars, resolved);
                }
                Ok(resolved)
            },
            Err(e) => Err(e),
        }
    }

    /// Reject two distinct roles binding the same variable. The roles are
    /// compared in a fixed order, so the reported pair is deterministic: the
    /// first pair by first role, then by second role.
    pub fn check_no_duplicates(&self, r: &ResolvedBinding) -> (res: Result<(), BindError>)
        ensures
            result_view(res) == match duplicate_error(check_order(*self, *r)) {
                Some(e) => Err(e),
                None => Ok::<(), BindErrorView>(()),
            },
            res is Ok ==> (r.inputs.bank is Some <==> self.inputs.bank is Some) && (r.ground.height is Some
                <==> self.ground.height is Some) && (r.ground.normal_z is Some <==> self.ground.normal_z is Some) && (
            r.ground.friction is Some <==> self.ground.friction is Some) && (r.outputs.roll is Some
                <==> self.outputs.roll is Some) && (r.outputs.pitch is Some <==> self.outputs.pitch is Some)
                ==> forall|i: int, j: int|
                0 <= i < 13 && 0 <= j < 13 && i != j && (#[trigger] role_vrs(*r)[i]) is Some && (
                #[trigger] role_vrs(*r)[j]) is Some ==> role_vrs(*r)[i] != role_vrs(*r)[j],
    {
        let mut entries: Vec<BoundEntry> = Vec::new();
        push_req(&mut entries, "steer", &self.inputs.steer, r.inputs.steer);
        push_req(&mut entries, "throttle", &self.inputs.throttle, r.inputs.throttle);
        push_req(&mut entries, "brake", &self.inputs.brake, r.inputs.brake);
        let ghost b0 = entries@.map_values(|e: BoundEntry| entry_view(e));
        push_opt(&mut entries, "bank", &self.inputs.bank, r.inputs.bank);
        push_opt(&mut entries, "ground.height", &self.ground.height, r.ground.height);
        push_opt(&mut entries, "ground.normal_z", &self.ground.normal_z, r.ground.normal_z);
        push_opt(&mut entries, "ground.friction", &self.ground.friction, r.ground.friction);
        push_opt(&mut entries, "roll", &self.outputs.roll, r.outputs.roll);
        push_opt(&mut entries, "pitch", &self.outputs.pitch, r.outputs.pitch);
        let ghost b1 = entries@.map_values(|e: BoundEntry| entry_view(e));
        push_req(&mut entries, "x", &self.outputs.x, r.outputs.x);
        push_req(&mut entries, "y", &self.outputs.y, r.outputs.y);
        push_req(&mut entries, "z", &self.outputs.z, r.outputs.z);
        push_req(&mut entries, "yaw", &self.outputs.yaw, r.outputs.yaw);
        let ghost b = entries@.map_values(|e: BoundEntry| entry_view(e));
        assert(b0 =~= seq![
            bound("steer"@, self.inputs.steer@, r.inputs.steer),
            bound("throttle"@, self.inputs.throttle@, r.inputs.throttle),
            bound("brake"@, self.inputs.brake@, r.inputs.brake),
        ]);
        assert(b =~= b1 + seq![
            bound("x"@, self.outputs.x@, r.outputs.x),
            bound("y"@, self.outputs.y@, r.outputs.y),
            bound("z"@, self.outputs.z@, r.outputs.z),
            bound("yaw"@, self.outputs.yaw@, r.outputs.yaw),
        ]);
        assert(b =~= check_order(*self, *r));
        let n = entries.len();
        let mut i: usize = 0;
        while i < n
            invariant
                n == entries@.len(),
                b == entries@.map_values(|e: BoundEntry| entry_view(e)),
                b == check_order(*self, *r),
                i <= n,
                forall|p: int, q: int| #![trigger b[p], b[q]] 0 <= p < q < b.len() && p < i ==> b[p].vr != b[q].vr,
            decreases n - i,
        {
            let mut j: usize = i + 1;
            while j < n
                invariant
                    n == entries@.len(),
                    b == entries@.map_values(|e: BoundEntry| entry_view(e)),
                    b == check_order(*self, *r),
                    i < n,
                    i + 1 <= j <= n,
                    no_duplicate_before(b, i as int, j as int),
                decreases n - j,
            {
                if entries[i].vr == entries[j].vr {
                    proof {
                        assert(is_first_duplicate(b, i as int, j as int));
                        let (i2, j2) = choose|i2: int, j2: int| is_first_duplicate(b, i2, j2);
                        lemma_first_duplicate_unique(b, i as int, j as int, i2, j2);
                        assert(!all_distinct(b));
                        assert(b[i as int] == entry_view(entries@[i as int]));
                        assert(b[j as int] == entry_view(entries@[j as int]));
                    }
                    return Err(BindError::DuplicateVariable {
                        first_role: entries[i].role.to_owned(),
                        second_role: entries[j].role.to_owned(),
                        name: entries[j].name.to_owned(),
                        vr: entries[j].vr,
                    });
                }
                j = j + 1;
            }
            i = i + 1;
        }
        assert(all_distinct(b));
        proof {
            if (r.inputs.bank is Some <==> self.inputs.bank is Some) && (r.ground.height is Some
                <==> self.ground.height is Some) && (r.ground.normal_z is Some <==> self.ground.normal_z is Some) && (
            r.ground.friction is Some <==> self.ground.friction is Some) && (r.outputs.roll is Some
                <==> self.outputs.roll is Some) && (r.outputs.pitch is Some <==> self.outputs.pitch is Some) {
                lemma_distinct_checked_roles(*self, *r);
            }
        }
        Ok(())
    }
}

/// Every role's resolved value reference, one entry per role (required
/// inputs, the optional bank and ground roles, optional roll and pitch, then
/// the required pose); an optional role that is not bound has none.
pub open spec fn role_vrs(r: ResolvedBinding) -> Seq<Option<ValueReference>> {
    seq![
        Some(r.inputs.steer),
        Some(r.inputs.throttle),
        Some(r.inputs.brake),
        r.inputs.bank,
        r.ground.height,
        r.ground.normal_z,
        r.ground.friction,
        r.outputs.roll,
        r.outputs.pitch,
        Some(r.outputs.x),
        Some(r.outputs.y),
        Some(r.outputs.z),
        Some(r.outputs.yaw),
    ]
}

/// An optional role is bound in a successful resolution exactly when the
/// spec names it.
proof fn lemma_optional_roles_bound_iff_named(s: BindingSpec, vars: Seq<Variable>, r: ResolvedBinding)
    requires
        spec_resolve(s, vars) == Ok::<ResolvedBinding, BindErrorView>(r),
    ensures
        r.inputs.bank is Some <==> s.inputs.bank is Some,
        r.ground.height is Some <==> s.ground.height is Some,
        r.ground.normal_z is Some <==> s.ground.normal_z is Some,
        r.ground.friction is Some <==> s.ground.friction is Some,
        r.outputs.roll is Some <==> s.outputs.roll is Some,
        r.outputs.pitch is Some <==> s.outputs.pitch is Some,
{
    lemma_resolved_binding_is_sound(s, vars, r);
    let o = resolve_order(s);
    assert(o[3].name == opt_view(s.inputs.bank));
    assert(o[4].name == opt_view(s.ground.height));
    assert(o[5].name == opt_view(s.ground.normal_z));
    assert(o[6].name == opt_view(s.ground.friction));
    assert(o[11].name == opt_view(s.outputs.roll));
    assert(o[12].name == opt_view(s.outputs.pitch));
}

/// Where role `k` of `role_vrs` stands in the checked list when it is bound.
spec fn role_index(s: BindingSpec, r: ResolvedBinding, k: int) -> int {
    let l1 = opt_bound("bank"@, s.inputs.bank, r.inputs.bank).len() as int;
    let l2 = opt_bound("ground.height"@, s.ground.height, r.ground.height).len() as int;
    let l3 = opt_bound("ground.normal_z"@, s.ground.normal_z, r.ground.normal_z).len() as int;
    let l4 = opt_bound("ground.friction"@, s.ground.friction, r.ground.friction).len() as int;
    let l5 = opt_bound("roll"@, s.outputs.roll, r.outputs.roll).len() as int;
    let l6 = opt_bound("pitch"@, s.outputs.pitch, r.outputs.pitch).len() as int;
    if k < 3 {
        k
    } else if k == 3 {
        3
    } else if k == 4 {
        3 + l1
    } else if k == 5 {
        3 + l1 + l2
    } else if k == 6 {
        3 + l1 + l2 + l3
    } else if k == 7 {
        3 + l1 + l2 + l3 + l4
    } else if k == 8 {
        3 + l1 + l2 + l3 + l4 + l5
    } else {
        3 + l1 + l2 + l3 + l4 + l5 + l6 + (k - 9)
    }
}

/// Each bound role sits at its index in the checked list, and bound roles
/// appear there in `role_vrs` order.
#[verifier::rlimit(50)]
proof fn lemma_role_positions(s: BindingSpec, r: ResolvedBinding)
    requires
        r.inputs.bank is Some <==> s.inputs.bank is Some,
        r.ground.height is Some <==> s.ground.height is Some,
        r.ground.normal_z is Some <==> s.ground.normal_z is Some,
        r.ground.friction is Some <==> s.ground.friction is Some,
        r.outputs.roll is Some <==> s.outputs.roll is Some,
        r.outputs.pitch is Some <==> s.outputs.pitch is Some,
    ensures
        forall|k: int|
            0 <= k < 13 && (#[trigger] role_vrs(r)[k]) is Some ==> 0 <= role_index(s, r, k) < check_order(s, r).len()
                && check_order(s, r)[role_index(s, r, k)].vr == role_vrs(r)[k]->0,
        forall|i: int, j: int|
            0 <= i < j < 13 && (#[trigger] role_vrs(r)[i]) is Some && (#[trigger] role_vrs(r)[j]) is Some ==> role_index(
                s,
                r,
                i,
            ) < role_index(s, r, j),
{
    let v = role_vrs(r);
    let b = check_order(s, r);
    let a0: Seq<BoundRole> = seq![
        bound("steer"@, s.inputs.steer@, r.inputs.steer),
        bound("throttle"@, s.inputs.throttle@, r.inputs.throttle),
        bound("brake"@, s.inputs.brake@, r.inputs.brake),
    ];
    let p1 = opt_bound("bank"@, s.inputs.bank, r.inputs.bank);
    let p2 = opt_bound("ground.height"@, s.ground.height, r.ground.height);
    let p3 = opt_bound("ground.normal_z"@, s.ground.normal_z, r.ground.normal_z);
    let p4 = opt_bound("ground.friction"@, s.ground.friction, r.ground.friction);
    let p5 = opt_bound("roll"@, s.outputs.roll, r.outputs.roll);
    let p6 = opt_bound("pitch"@, s.outputs.pitch, r.outputs.pitch);
    let tail: Seq<BoundRole> = seq![
        bound("x"@, s.outputs.x@, r.outputs.x),
        bound("y"@, s.outputs.y@, r.outputs.y),
        bound("z"@, s.outputs.z@, r.outputs.z),
        bound("yaw"@, s.outputs.yaw@, r.outputs.yaw),
    ];
    let q1 = a0 + p1;
    let q2 = q1 + p2;
    let q3 = q2 + p3;
    let q4 = q3 + p4;
    let q5 = q4 + p5;
    let q6 = q5 + p6;
    assert(b == q6 + tail);
    assert(p1.len() == (if v[3] is Some { 1int } else { 0int }));
    assert(p2.len() == (if v[4] is Some { 1int } else { 0int }));
    assert(p3.len() == (if v[5] is Some { 1int } else { 0int }));
    assert(p4.len() == (if v[6] is Some { 1int } else { 0int }));
    assert(p5.len() == (if v[7] is Some { 1int } else { 0int }));
    assert(p6.len() == (if v[8] is Some { 1int } else { 0int }));
    assert(b[0] == a0[0] && b[1] == a0[1] && b[2] == a0[2]);
    if v[3] is Some {
        assert(b[3] == p1[0]);
    }
    if v[4] is Some {
        assert(b[q1.len() as int] == p2[0]);
    }
    if v[5] is Some {
        assert(b[q2.len() as int] == p3[0]);
    }
    if v[6] is Some {
        assert(b[q3.len() as int] == p4[0]);
    }
    if v[7] is Some {
        assert(b[q4.len() as int] == p5[0]);
    }
    if v[8] is Some {
        assert(b[q5.len() as int] == p6[0]);
    }
    assert(b[q6.len() as int] == tail[0]);
    assert(b[q6.len() as int + 1] == tail[1]);
    assert(b[q6.len() as int + 2] == tail[2]);
    assert(b[q6.len() as int + 3] == tail[3]);
}

/// When the checked list has no shared value reference and each optional
/// role is bound exactly when named, no two bound roles share one.
proof fn lemma_distinct_checked_roles(s: BindingSpec, r: ResolvedBinding)
    requires
        all_distinct(check_order(s, r)),
        r.inputs.bank is Some <==> s.inputs.bank is Some,
        r.ground.height is Some <==> s.ground.height is Some,
        r.ground.normal_z is Some <==> s.ground.normal_z is Some,
        r.ground.friction is Some <==> s.ground.friction is Some,
        r.outputs.roll is Some <==> s.outputs.roll is Some,
        r.outputs.pitch is Some <==> s.outputs.pitch is Some,
    ensures
        forall|i: int, j: int|
            0 <= i < 13 && 0 <= j < 13 && i != j && (#[trigger] role_vrs(r)[i]) is Some && (#[trigger] role_vrs(r)[j])
                is Some ==> role_vrs(r)[i] != role_vrs(r)[j],
{
    lemma_role_positions(s, r);
    let v = role_vrs(r);
    let b = check_order(s, r);
    assert forall|i: int, j: int|
        0 <= i < 13 && 0 <= j < 13 && i != j && (#[trigger] v[i]) is Some && (#[trigger] v[j]) is Some implies v[i]
            != v[j] by {
        let lo = if i < j { i } else { j };
        let hi = if i < j { j } else { i };
        assert(v[lo] is Some && v[hi] is Some);
        assert(role_index(s, r, lo) < role_index(s, r, hi));
        assert(b[role_index(s, r, lo)].vr != b[role_index(s, r, hi)].vr);
    }
}

/// A successful binding gives every role its own FMU variable: an optional
/// role is bound exactly when the spec names it, and no two bound roles --
/// required or optional, inputs, ground or outputs -- share a value
/// reference.
pub proof fn lemma_bound_roles_are_distinct(s: BindingSpec, vars: Seq<Variable>, r: ResolvedBinding)
    requires
        spec_resolve(s, vars) == Ok::<ResolvedBinding, BindErrorView>(r),
    ensures
        r.inputs.bank is Some <==> s.inputs.bank is Some,
        r.ground.height is Some <==> s.ground.height is Some,
        r.ground.normal_z is Some <==> s.ground.normal_z is Some,
        r.ground.friction is Some <==> s.ground.friction is Some,
        r.outputs.roll is Some <==> s.outputs.roll is Some,
        r.outputs.pitch is Some <==> s.outputs.pitch is Some,
        role_vrs(r).len() == 13,
        forall|i: int, j: int|
            0 <= i < 13 && 0 <= j < 13 && i != j && (#[trigger] role_vrs(r)[i]) is Some && (#[trigger] role_vrs(r)[j])
                is Some ==> role_vrs(r)[i] != role_vrs(r)[j],
{
    lemma_resolved_binding_is_sound(s, vars, r);
    lemma_optional_roles_bound_iff_named(s, vars, r);
    lemma_distinct_checked_roles(s, r);
}

} // verus!
