use swarm::model::FmuFrame;
use swarm::protocol::{
    AgentId, Embodiment, FmuConfig, FmuGround, FmuInputs, FmuOutputs, LaneDirection, LaneKind,
    Pace, SensorSource, GROUND_TRUTH_SENSOR,
};

#[test]
fn omitted_pace_is_realtime() {
    assert_eq!(Pace::default(), Pace::Realtime);
    assert_ne!(Pace::Realtime, Pace::Afap);
}

#[test]
fn an_fmu_pose_defaults_to_the_sim_frame() {
    assert_eq!(FmuFrame::default(), FmuFrame::SimYUp);
}

#[test]
fn the_ground_truth_device_name_is_reserved() {
    assert_eq!(GROUND_TRUTH_SENSOR, "ground_truth");
    assert_ne!(SensorSource::GroundTruth, SensorSource::Simulated);
}

#[test]
fn fmu_config_holds_names_only() {
    let config = FmuConfig {
        path: "fmus/VanDerPol.fmu".into(),
        inputs: FmuInputs {
            steer: "delta".into(),
            throttle: "ax".into(),
            brake: "brk".into(),
        },
        ground: FmuGround {
            height: "z_road".into(),
            normal_z: "n_z".into(),
            friction: None,
        },
        outputs: FmuOutputs {
            x: "X".into(),
            y: "Y".into(),
            z: "Z".into(),
            yaw: "psi".into(),
        },
    };
    assert_eq!(config.clone(), config);
    assert_eq!(config.ground.friction, None);
    assert_eq!(AgentId("car-1".into()), AgentId("car-1".into()));
    assert_ne!(Embodiment::CarLike, Embodiment::FmuVehicle);
    assert_ne!(LaneDirection::Forward, LaneDirection::Backward);
    assert_eq!(LaneKind::Driving, LaneKind::Driving);
}
