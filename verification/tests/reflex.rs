use swarm::reflex::{arbitrate, Operator, ReflexAction, RuleState};

fn rule(active: bool, action: ReflexAction, priority: i32) -> RuleState {
    RuleState {
        active,
        priority,
        action,
    }
}

#[test]
fn higher_priority_wins_when_both_active() {
    let rules = [
        rule(true, ReflexAction::Brake, 1),
        rule(true, ReflexAction::StopAndHold, 5),
    ];
    assert_eq!(arbitrate(&rules), Some(ReflexAction::StopAndHold));
}

#[test]
fn equal_priority_ties_broken_by_registration_order() {
    let rules = [
        rule(true, ReflexAction::Brake, 5),
        rule(true, ReflexAction::StopAndHold, 5),
    ];
    assert_eq!(arbitrate(&rules), Some(ReflexAction::Brake));
}

#[test]
fn no_action_when_nothing_active() {
    let rules = [rule(false, ReflexAction::Brake, 0)];
    assert_eq!(arbitrate(&rules), None);
    assert_eq!(arbitrate(&[]), None);
}

#[test]
fn an_inactive_rule_never_wins_whatever_its_priority() {
    let rules = [
        rule(false, ReflexAction::StopAndHold, i32::MAX),
        rule(true, ReflexAction::Brake, i32::MIN),
        rule(false, ReflexAction::StopAndHold, 100),
    ];
    assert_eq!(arbitrate(&rules), Some(ReflexAction::Brake));
}

#[test]
fn a_later_higher_priority_rule_overrides_an_earlier_tie() {
    let rules = [
        rule(true, ReflexAction::Brake, 2),
        rule(true, ReflexAction::Brake, 2),
        rule(true, ReflexAction::StopAndHold, 3),
        rule(true, ReflexAction::Brake, 3),
    ];
    assert_eq!(arbitrate(&rules), Some(ReflexAction::StopAndHold));
    let _ = Operator::LessThan;
}
