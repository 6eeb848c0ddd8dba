//! Verified core of a small agent-driving sandbox: FMU variable binding,
//! reading OpenDRIVE documents (text clean-up, XML tree queries, decimal ids,
//! road/lane links, junctions, driving lanes and their order), road-network
//! connectivity, shortest-path read-back, surface-mesh topology, reflex
//! arbitration, the perception handshake and connection registry, the
//! deterministic noise generator, and the float-free wire enums.

pub mod model;
pub mod binding;
pub mod perceive;
pub mod lanes;
pub mod links;
pub mod xml;
pub mod opendrive;
pub mod route;
pub mod mesh;
pub mod reflex;
pub mod perception;
pub mod protocol;
