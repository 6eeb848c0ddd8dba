use std::collections::HashMap;
use swarm::lanes::LaneId;
use swarm::route::reconstruct;

#[test]
fn the_path_is_read_back_in_drive_order() {
    let prev: HashMap<usize, usize> = HashMap::from([(1, 0), (2, 1), (3, 2), (5, 9)]);
    assert_eq!(
        reconstruct(&prev, LaneId(0), LaneId(3)),
        vec![LaneId(0), LaneId(1), LaneId(2), LaneId(3)]
    );
}

#[test]
fn start_equal_to_goal_is_a_one_lane_path() {
    let prev: HashMap<usize, usize> = HashMap::new();
    assert_eq!(reconstruct(&prev, LaneId(4), LaneId(4)), vec![LaneId(4)]);
}

#[test]
fn the_walk_stops_the_first_time_it_meets_the_start() {
    // A ring 0 -> 1 -> 2 -> 0: walking back from 2 reaches 0 after two steps.
    let prev: HashMap<usize, usize> = HashMap::from([(0, 2), (1, 0), (2, 1)]);
    assert_eq!(
        reconstruct(&prev, LaneId(0), LaneId(2)),
        vec![LaneId(0), LaneId(1), LaneId(2)]
    );
}
