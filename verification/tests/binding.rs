use swarm::binding::{
    BindError, BindingSpec, GroundBinding, InputBinding, OutputBinding, ResolvedOutputs,
};
use swarm::model::{BaseType, Causality, ModelDescription, Variable};

fn var(name: &str, vr: u32, causality: Causality) -> Variable {
    var_typed(name, vr, causality, BaseType::Float64)
}

fn var_typed(name: &str, vr: u32, causality: Causality, base_type: BaseType) -> Variable {
    Variable {
        name: name.into(),
        value_reference: vr,
        causality,
        base_type,
    }
}

fn spec() -> BindingSpec {
    BindingSpec {
        inputs: InputBinding {
            steer: "delta".into(),
            throttle: "ax".into(),
            brake: "brk".into(),
            bank: None,
        },
        ground: GroundBinding {
            height: Some("z_road".into()),
            ..Default::default()
        },
        outputs: OutputBinding {
            x: "X".into(),
            y: "Y".into(),
            z: "Z".into(),
            yaw: "psi".into(),
            roll: None,
            pitch: None,
        },
    }
}

fn full_md() -> ModelDescription {
    ModelDescription::new(vec![
        var("delta", 1, Causality::Input),
        var("ax", 2, Causality::Input),
        var("brk", 3, Causality::Input),
        var("z_road", 4, Causality::Input),
        var("X", 10, Causality::Output),
        var("Y", 11, Causality::Output),
        var("Z", 12, Causality::Output),
        var("psi", 13, Causality::Output),
    ])
}

#[test]
fn resolves_names_to_value_references() {
    let r = spec().resolve(&full_md()).expect("resolve");
    assert_eq!(r.inputs.steer, 1);
    assert_eq!(r.inputs.throttle, 2);
    assert_eq!(r.inputs.brake, 3);
    assert_eq!(r.ground.height, Some(4));
    assert_eq!(r.ground.normal_z, None);
    assert_eq!(
        r.outputs,
        ResolvedOutputs {
            x: 10,
            y: 11,
            z: 12,
            yaw: 13,
            roll: None,
            pitch: None,
        }
    );
    assert_eq!(r.inputs.bank, None);
}

#[test]
fn unknown_variable_is_rejected() {
    let md = ModelDescription::new(
        full_md()
            .variables()
            .iter()
            .filter(|v| v.name != "delta")
            .cloned()
            .collect(),
    );
    let err = spec().resolve(&md).unwrap_err();
    assert_eq!(
        err,
        BindError::UnknownVariable {
            role: "steer".into(),
            name: "delta".into(),
        }
    );
}

#[test]
fn an_output_role_pointed_at_an_input_is_rejected() {
    let md = ModelDescription::new(vec![
        var("delta", 1, Causality::Input),
        var("ax", 2, Causality::Input),
        var("brk", 3, Causality::Input),
        var("z_road", 4, Causality::Input),
        var("X", 10, Causality::Input),
        var("Y", 11, Causality::Output),
        var("Z", 12, Causality::Output),
        var("psi", 13, Causality::Output),
    ]);
    let err = spec().resolve(&md).unwrap_err();
    assert_eq!(
        err,
        BindError::WrongCausality {
            role: "x".into(),
            name: "X".into(),
            expected: Causality::Output,
            actual: Causality::Input,
        }
    );
}

#[test]
fn a_ground_role_must_be_input_causality() {
    let md = ModelDescription::new(vec![
        var("delta", 1, Causality::Input),
        var("ax", 2, Causality::Input),
        var("brk", 3, Causality::Input),
        var("z_road", 4, Causality::Output),
        var("X", 10, Causality::Output),
        var("Y", 11, Causality::Output),
        var("Z", 12, Causality::Output),
        var("psi", 13, Causality::Output),
    ]);
    let err = spec().resolve(&md).unwrap_err();
    assert_eq!(
        err,
        BindError::WrongCausality {
            role: "ground.height".into(),
            name: "z_road".into(),
            expected: Causality::Input,
            actual: Causality::Output,
        }
    );
}

#[test]
fn two_roles_binding_the_same_variable_are_rejected() {
    let mut spec = spec();
    spec.outputs.z = "Y".into();
    let err = spec.resolve(&full_md()).unwrap_err();
    assert_eq!(
        err,
        BindError::DuplicateVariable {
            first_role: "y".into(),
            second_role: "z".into(),
            name: "Y".into(),
            vr: 11,
        }
    );
}

#[test]
fn a_role_bound_to_a_non_float64_variable_is_rejected() {
    let md = ModelDescription::new(vec![
        var_typed("delta", 1, Causality::Input, BaseType::Int32),
        var("ax", 2, Causality::Input),
        var("brk", 3, Causality::Input),
        var("z_road", 4, Causality::Input),
        var("X", 10, Causality::Output),
        var("Y", 11, Causality::Output),
        var("Z", 12, Causality::Output),
        var("psi", 13, Causality::Output),
    ]);
    let err = spec().resolve(&md).unwrap_err();
    assert_eq!(
        err,
        BindError::WrongBaseType {
            role: "steer".into(),
            name: "delta".into(),
            actual: BaseType::Int32,
        }
    );
}

#[test]
fn every_optional_role_resolves_when_named() {
    let mut spec = spec();
    spec.inputs.bank = Some("bank".into());
    spec.ground.normal_z = Some("nz".into());
    spec.ground.friction = Some("mu".into());
    spec.outputs.roll = Some("phi".into());
    spec.outputs.pitch = Some("theta".into());
    let mut vars = full_md().variables().to_vec();
    vars.push(var("bank", 5, Causality::Input));
    vars.push(var("nz", 6, Causality::Input));
    vars.push(var("mu", 7, Causality::Input));
    vars.push(var("phi", 14, Causality::Output));
    vars.push(var("theta", 15, Causality::Output));
    let r = spec.resolve(&ModelDescription::new(vars)).expect("resolve");
    assert_eq!(r.inputs.bank, Some(5));
    assert_eq!(r.ground.normal_z, Some(6));
    assert_eq!(r.ground.friction, Some(7));
    assert_eq!(r.outputs.roll, Some(14));
    assert_eq!(r.outputs.pitch, Some(15));
}

#[test]
fn resolved_value_references_are_pairwise_distinct() {
    let r = spec().resolve(&full_md()).expect("resolve");
    let mut all = vec![
        r.inputs.steer,
        r.inputs.throttle,
        r.inputs.brake,
        r.outputs.x,
        r.outputs.y,
        r.outputs.z,
        r.outputs.yaw,
    ];
    all.extend(r.ground.height);
    let n = all.len();
    all.sort();
    all.dedup();
    assert_eq!(all.len(), n);
}

#[test]
fn the_first_failing_role_in_binding_order_is_reported() {
    // Both `brk` (an input role) and `psi` (an output role) are missing; the
    // input role comes first.
    let md = ModelDescription::new(vec![
        var("delta", 1, Causality::Input),
        var("ax", 2, Causality::Input),
        var("z_road", 4, Causality::Input),
        var("X", 10, Causality::Output),
        var("Y", 11, Causality::Output),
        var("Z", 12, Causality::Output),
    ]);
    let err = spec().resolve(&md).unwrap_err();
    assert_eq!(
        err,
        BindError::UnknownVariable {
            role: "brake".into(),
            name: "brk".into(),
        }
    );
}

#[test]
fn an_unknown_variable_is_reported_before_a_shared_one() {
    // `throttle` shares `delta` with `steer`, and `yaw` names nothing. Every
    // role is resolved before shared variables are looked for, so the
    // missing one is what is reported.
    let mut spec = spec();
    spec.inputs.throttle = "delta".into();
    spec.outputs.yaw = "nothing".into();
    let err = spec.resolve(&full_md()).unwrap_err();
    assert_eq!(
        err,
        BindError::UnknownVariable {
            role: "yaw".into(),
            name: "nothing".into(),
        }
    );
}

#[test]
fn variable_lookup_finds_the_first_declaration() {
    let md = ModelDescription::new(vec![
        var("a", 1, Causality::Input),
        var("a", 2, Causality::Output),
    ]);
    assert_eq!(md.variable("a").map(|v| v.value_reference), Some(1));
    assert!(md.variable("b").is_none());
    assert_eq!(md.variables().len(), 2);
}

#[test]
fn the_duplicate_check_reports_the_first_shared_pair() {
    let mut shared = spec();
    shared.inputs.brake = "ax".into();
    shared.outputs.yaw = "delta".into();
    let r = swarm::binding::ResolvedBinding {
        inputs: swarm::binding::ResolvedInputs {
            steer: 1,
            throttle: 2,
            brake: 2,
            bank: None,
        },
        ground: swarm::binding::ResolvedGround {
            height: Some(4),
            normal_z: None,
            friction: None,
        },
        outputs: ResolvedOutputs {
            x: 10,
            y: 11,
            z: 12,
            yaw: 1,
            roll: None,
            pitch: None,
        },
    };
    // (steer, yaw) shares 1 and (throttle, brake) shares 2; steer comes first.
    assert_eq!(
        shared.check_no_duplicates(&r),
        Err(BindError::DuplicateVariable {
            first_role: "steer".into(),
            second_role: "yaw".into(),
            name: "delta".into(),
            vr: 1,
        })
    );
    let distinct = spec().resolve(&full_md()).expect("resolve");
    assert_eq!(spec().check_no_duplicates(&distinct), Ok(()));
}

#[test]
fn an_empty_description_has_no_variables() {
    assert!(ModelDescription::default().variables().is_empty());
    assert_eq!(ModelDescription::default(), ModelDescription::new(Vec::new()));
}
