use swarm::perception::{
    handshake_accepted, AgentRegistry, AgentToServer, DetectionKind, Hello, PerceptionEvent,
    PROTOCOL_VERSION,
};

fn hello(name: &str, version: u32) -> Hello {
    Hello {
        agent_name: name.to_string(),
        protocol_version: version,
    }
}

#[test]
fn a_matching_version_is_registered_and_announced() {
    let mut registry: AgentRegistry<&str> = AgentRegistry::new();
    let event = registry.register_hello(hello("car-1", PROTOCOL_VERSION), "queue-a", 0);
    assert_eq!(
        event,
        Some(PerceptionEvent::AgentConnected {
            name: "car-1".to_string()
        })
    );
    assert_eq!(registry.get(&"car-1".to_string()), Some(&"queue-a"));
    assert_eq!(registry.len(), 1);
}

#[test]
fn wrong_protocol_version_is_dropped() {
    let mut registry: AgentRegistry<&str> = AgentRegistry::new();
    assert!(!handshake_accepted(&hello("car-1", PROTOCOL_VERSION + 1)));
    let event = registry.register_hello(hello("car-1", PROTOCOL_VERSION + 1), "queue-a", 0);
    assert_eq!(event, None);
    assert_eq!(registry.get(&"car-1".to_string()), None);
    assert_eq!(registry.len(), 0);
}

#[test]
fn a_frame_for_another_name_is_not_delivered() {
    let mut registry: AgentRegistry<u32> = AgentRegistry::new();
    registry.insert("car-1".to_string(), 1, 0);
    assert_eq!(registry.get(&"car-2".to_string()), None);
    assert_eq!(registry.get(&"car-1".to_string()), Some(&1));
}

#[test]
fn a_stale_cleanup_keeps_the_reconnected_agent() {
    let mut registry: AgentRegistry<u32> = AgentRegistry::new();
    registry.insert("car-1".to_string(), 10, 1);
    // The agent reconnects under the same name before the old task cleans up.
    registry.insert("car-1".to_string(), 20, 2);
    assert_eq!(registry.len(), 1);
    let event = registry.disconnect("car-1".to_string(), 1);
    assert_eq!(
        event,
        PerceptionEvent::AgentDisconnected {
            name: "car-1".to_string()
        }
    );
    assert_eq!(registry.get(&"car-1".to_string()), Some(&20));
    // The current connection's own cleanup removes it.
    assert!(registry.evict_if_current(&"car-1".to_string(), 2));
    assert_eq!(registry.get(&"car-1".to_string()), None);
    assert!(!registry.evict_if_current(&"car-1".to_string(), 2));
}

#[test]
fn names_are_kept_apart() {
    let mut registry: AgentRegistry<u32> = AgentRegistry::new();
    registry.insert("a".to_string(), 1, 1);
    registry.insert("b".to_string(), 2, 2);
    registry.insert("c".to_string(), 3, 3);
    assert!(registry.evict_if_current(&"b".to_string(), 2));
    assert_eq!(registry.get(&"a".to_string()), Some(&1));
    assert_eq!(registry.get(&"b".to_string()), None);
    assert_eq!(registry.get(&"c".to_string()), Some(&3));
    assert_eq!(registry.len(), 2);
}

#[test]
fn the_handshake_carries_a_hello() {
    let AgentToServer::Hello(h) = AgentToServer::Hello(hello("x", 1));
    assert_eq!(h.agent_name, "x");
    assert_eq!(PROTOCOL_VERSION, 1);
    assert_ne!(DetectionKind::Agent, DetectionKind::Static);
}
