use swarm::lanes::{Direction, LaneId};
use swarm::links::{Contact, ElemType};
use swarm::opendrive::{
    center_outward, contact_of, driving_lanes, junctions, lane_change_neighbors, lane_link,
    parse_i32, road_link, travel_direction, LaneCandidate,
};
use swarm::xml::parse_document;

#[test]
fn decimal_ids_parse_like_str_parse() {
    for text in [
        "0", "7", "-1", "+12", "007", "-0", "2147483647", "-2147483648", "", "-", "+", "1a",
        " 1", "1 ", "--1", "+-1", "2147483648", "-2147483649", "99999999999999999999", "٣",
    ] {
        assert_eq!(parse_i32(text), text.parse::<i32>().ok(), "for {text:?}");
    }
}

#[test]
fn decimal_ids_exact_values() {
    assert_eq!(parse_i32("-3"), Some(-3));
    assert_eq!(parse_i32("+42"), Some(42));
    assert_eq!(parse_i32("2147483647"), Some(i32::MAX));
    assert_eq!(parse_i32("-2147483648"), Some(i32::MIN));
    assert_eq!(parse_i32("2147483648"), None);
    assert_eq!(parse_i32("x"), None);
}

const ROAD: &str = r#"<OpenDRIVE>
  <road id="10" length="5">
    <link>
      <predecessor elementType="junction" elementId="J1"/>
      <successor elementType="road" elementId="11" contactPoint="end"/>
    </link>
    <link><successor elementType="road" elementId="99"/></link>
    <lanes><laneSection s="0">
      <left>
        <lane id="2" type="driving"><link><predecessor id="2"/><successor id="3"/></link></lane>
        <lane id="1" type="sidewalk"/>
        <lane id="1" type="driving"/>
      </left>
      <center><lane id="0" type="none"/></center>
      <right>
        <lane id="-1" type="driving"><link><successor id="x"/></link></lane>
        <lane id="oops" type="driving"/>
        <lane id="-2" type="driving"><link><predecessor id="-2"/></link></lane>
      </right>
    </laneSection></lanes>
  </road>
  <junction id="J1">
    <connection incomingRoad="10" connectingRoad="12" contactPoint="end">
      <laneLink from="-1" to="-1"/><laneLink from="bad" to="-2"/><laneLink from="-2" to="-3"/>
    </connection>
    <connection incomingRoad="10"><laneLink from="1" to="1"/></connection>
  </junction>
  <junction><connection incomingRoad="1" connectingRoad="2"/></junction>
</OpenDRIVE>"#;

#[test]
fn road_links_read_the_first_link_element() {
    let tree = parse_document(ROAD).expect("parse");
    let root = tree.root_element().unwrap();
    let road = tree.child(root, "road").unwrap();
    let (pred, succ) = road_link(&tree, road);
    let pred = pred.expect("predecessor");
    assert_eq!(pred.elem, ElemType::Junction);
    assert_eq!(pred.id, "J1");
    assert_eq!(pred.contact, Contact::Start);
    let succ = succ.expect("successor");
    assert_eq!(succ.elem, ElemType::Road);
    assert_eq!(succ.id, "11");
    assert_eq!(succ.contact, Contact::End);
}

#[test]
fn a_road_without_link_has_no_targets() {
    let tree = parse_document(r#"<OpenDRIVE><road id="1"><link><successor elementType="road"/></link></road><road id="2"/></OpenDRIVE>"#)
        .expect("parse");
    let roads = tree.children_named(tree.root_element().unwrap(), "road");
    let (p, s) = road_link(&tree, roads[0]);
    assert!(p.is_none());
    assert!(s.is_none(), "a target without an elementId is no target");
    let (p, s) = road_link(&tree, roads[1]);
    assert!(p.is_none() && s.is_none());
}

#[test]
fn contact_point_end_is_the_only_end() {
    let tree = parse_document(r#"<r><a contactPoint="end"/><a contactPoint="End"/><a/></r>"#).expect("parse");
    let all = tree.children_named(tree.root_element().unwrap(), "a");
    assert_eq!(contact_of(&tree, all[0]), Contact::End);
    assert_eq!(contact_of(&tree, all[1]), Contact::Start);
    assert_eq!(contact_of(&tree, all[2]), Contact::Start);
}

#[test]
fn driving_lanes_of_a_section() {
    let tree = parse_document(ROAD).expect("parse");
    let root = tree.root_element().unwrap();
    let road = tree.child(root, "road").unwrap();
    let lanes = tree.child(road, "lanes").unwrap();
    let section = tree.child(lanes, "laneSection").unwrap();
    let found = driving_lanes(&tree, section);
    let ids: Vec<i32> = found.iter().map(|c| c.od_id).collect();
    assert_eq!(ids, vec![2, 1, -1, -2]);
    assert_eq!(
        (found[0].pred_link, found[0].succ_link),
        (Some(2), Some(3))
    );
    assert_eq!((found[2].pred_link, found[2].succ_link), (None, None));
    assert_eq!((found[3].pred_link, found[3].succ_link), (Some(-2), None));
    let LaneCandidate { node, .. } = found[0];
    assert_eq!(lane_link(&tree, node), (Some(2), Some(3)));
}

#[test]
fn junction_connections_skip_what_they_cannot_read() {
    let tree = parse_document(ROAD).expect("parse");
    let all = junctions(&tree, tree.root_element().unwrap());
    assert_eq!(all.len(), 1, "a junction without an id is skipped");
    let (id, conns) = &all[0];
    assert_eq!(id, "J1");
    assert_eq!(conns.len(), 1, "a connection without a connecting road is skipped");
    assert_eq!(conns[0].incoming_road, "10");
    assert_eq!(conns[0].connecting_road, "12");
    assert_eq!(conns[0].contact, Contact::End);
    assert_eq!(conns[0].lane_links, vec![(-1, -1), (-2, -3)]);
}

#[test]
fn lanes_are_ordered_center_outward_per_side() {
    let ids = [-2, 3, 1, -1, 0, 1, -3, 2];
    assert_eq!(center_outward(&ids, true), vec![2, 5, 7, 1]);
    assert_eq!(center_outward(&ids, false), vec![3, 0, 6]);
    assert!(center_outward(&[], true).is_empty());
    assert_eq!(center_outward(&[i32::MIN, -1], false), vec![1, 0]);
}

#[test]
fn left_lanes_run_backward() {
    assert_eq!(travel_direction(1), Direction::Backward);
    assert_eq!(travel_direction(-1), Direction::Forward);
    assert_eq!(travel_direction(0), Direction::Forward);
}

#[test]
fn consecutive_lanes_are_neighbors() {
    let emitted = [LaneId(7), LaneId(3), LaneId(9)];
    let n = lane_change_neighbors(&emitted);
    assert_eq!(n[0], vec![LaneId(3)]);
    assert_eq!(n[1], vec![LaneId(7), LaneId(9)]);
    assert_eq!(n[2], vec![LaneId(3)]);
    assert_eq!(lane_change_neighbors(&[LaneId(1)]), vec![Vec::<LaneId>::new()]);
    assert!(lane_change_neighbors(&[]).is_empty());
    // Symmetric: b is a's neighbor exactly when a is b's.
    for a in 0..3 {
        for b in 0..3 {
            assert_eq!(n[a].contains(&emitted[b]), n[b].contains(&emitted[a]));
        }
    }
}
