//! The float-free parts of the agent/scenario wire protocol: agent identity,
//! lane descriptions handed to agents, embodiments, sensor sources, FMU
//! bindings and pacing.

use vstd::prelude::*;

verus! {

/// An agent's identity: its roster name.
#[derive(Debug, Clone, PartialEq, Eq, Hash)]
pub struct AgentId(pub String);

/// Travel direction of a lane handed to an agent, relative to its
/// centerline's order.
#[derive(Debug, Clone, Copy, PartialEq, Eq, Structural)]
pub enum LaneDirection {
    Forward,
    Backward,
}

/// What a lane handed to an agent is for.
#[derive(Debug, Clone, Copy, PartialEq, Eq, Structural)]
pub enum LaneKind {
    Driving,
}

/// The movement model an agent's entity is embodied with.
#[derive(Debug, Clone, Copy, PartialEq, Eq, Structural)]
pub enum Embodiment {
    /// Free horizontal movement in any direction.
    Holonomic,
    /// Forward-only thrust, bounded turn rate, lateral grip.
    CarLike,
    /// Single-track dynamics with tire slip.
    FullVehicle,
    /// Four ray-cast wheels on spring-damper suspension.
    RaycastVehicle,
    /// Dynamics computed by an external FMI 3.0 co-simulation FMU.
    FmuVehicle,
}

/// The reserved device name every agent can read ground truth from without
/// declaring a sensor. A scenario sensor may not reuse it.
pub const GROUND_TRUTH_SENSOR: &'static str = "ground_truth";

/// The driver-actuator inputs an FMU vehicle exposes, by the FMU's own
/// variable names.
#[derive(Debug, Clone, PartialEq, Eq)]
pub struct FmuInputs {
    pub steer: String,
    pub throttle: String,
    pub brake: String,
}

/// The ground inputs the FMU reads the road through; `friction` is the one
/// optional role.
#[derive(Debug, Clone, PartialEq, Eq)]
pub struct FmuGround {
    pub height: String,
    pub normal_z: String,
    pub friction: Option<String>,
}

/// The pose outputs read back from the FMU each tick.
#[derive(Debug, Clone, PartialEq, Eq)]
pub struct FmuOutputs {
    pub x: String,
    pub y: String,
    pub z: String,
    pub yaw: String,
}

/// A scenario's role -> variable-name map for an FMU vehicle, plus the path
/// of the `.fmu` archive.
#[derive(Debug, Clone, PartialEq, Eq)]
pub struct FmuConfig {
    pub path: String,
    pub inputs: FmuInputs,
    pub ground: FmuGround,
    pub outputs: FmuOutputs,
}

/// Whether a device perceives ground truth or an impaired simulation of it.
#[derive(Debug, Clone, Copy, PartialEq, Eq, Structural)]
pub enum SensorSource {
    GroundTruth,
    Simulated,
}

/// How fast sim-time advances relative to wall-clock.
#[derive(Debug, Clone, Copy, PartialEq, Eq, Structural)]
pub enum Pace {
    /// One sim-second per real second.
    Realtime,
    /// As fast as possible; sim-time is unchanged, wall-clock decoupled.
    Afap,
}

impl Default for Pace {
    /// Real time, which live viewing needs.
    fn default() -> (p: Self)
        ensures
            p == Pace::Realtime,
    {
        Pace::Realtime
    }
}

} // verus!
