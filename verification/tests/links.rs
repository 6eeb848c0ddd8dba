use swarm::lanes::LaneId;
use swarm::links::{LaneAdjacency, RoadInfo, Topology};
use swarm::opendrive::{
    center_outward, driving_lanes, junctions, lane_change_neighbors, road_link, travel_direction,
};
use swarm::xml::{parse_document, ImportError, XmlTree};

/// A document's lanes as connectivity sees them: each lane's resolved
/// successors and predecessors, and its lane-change neighbors.
struct Imported {
    adjacency: Vec<LaneAdjacency>,
    neighbors: Vec<Vec<LaneId>>,
}

/// Whether a lane has a width record with a usable `a` coefficient; a
/// driving lane without one cannot be sampled, so it is not imported.
fn has_width(tree: &XmlTree, lane: usize) -> bool {
    tree.children_named(lane, "width").into_iter().any(|w| {
        tree.attribute(w, "a")
            .and_then(|a| a.parse::<f64>().ok())
            .is_some_and(|a| a.is_finite())
    })
}

/// The connectivity of an OpenDRIVE document: every road registered with its
/// links and section count, its sections' driving lanes that have a width
/// registered center outward (left side, then right) with their lane-change
/// neighbors, then junctions read and everything resolved.
fn import(xml: &str) -> Result<Imported, ImportError> {
    let tree = parse_document(xml)?;
    let root = tree.root_element().expect("root element");
    let mut topo = Topology::new();
    let mut neighbors: Vec<Vec<LaneId>> = Vec::new();
    for road in tree.children_named(root, "road") {
        let id = tree.attribute(road, "id").cloned().unwrap_or_default();
        let Some(lanes) = tree.child(road, "lanes") else {
            continue;
        };
        let sections = tree.children_named(lanes, "laneSection");
        let (predecessor, successor) = road_link(&tree, road);
        topo.insert_road(
            id.clone(),
            RoadInfo {
                sections: sections.len(),
                predecessor,
                successor,
            },
        );
        for (i, section) in sections.iter().enumerate() {
            let candidates: Vec<_> = driving_lanes(&tree, *section)
                .into_iter()
                .filter(|c| has_width(&tree, c.node))
                .collect();
            let ids: Vec<i32> = candidates.iter().map(|c| c.od_id).collect();
            for left in [true, false] {
                let mut emitted = Vec::new();
                for k in center_outward(&ids, left) {
                    let c = candidates[k];
                    emitted.push(topo.register_lane(
                        id.clone(),
                        i,
                        c.od_id,
                        travel_direction(c.od_id),
                        c.succ_link,
                        c.pred_link,
                    ));
                }
                neighbors.extend(lane_change_neighbors(&emitted));
            }
        }
    }
    let adjacency = topo.finish(junctions(&tree, root))?;
    Ok(Imported {
        adjacency,
        neighbors,
    })
}

fn connectivity(xml: &str) -> Vec<LaneAdjacency> {
    import(xml).expect("import").adjacency
}

const TWO_SECTION_LINKED: &str = r#"<?xml version="1.0"?>
<OpenDRIVE>
  <road name="r" length="40.0" id="1" junction="-1">
    <planView><geometry s="0.0" x="0.0" y="0.0" hdg="0.0" length="40.0"><line/></geometry></planView>
    <lanes>
      <laneSection s="0.0"><right><lane id="-1" type="driving">
        <link><successor id="-1"/></link><width sOffset="0.0" a="3.5"/>
      </lane></right></laneSection>
      <laneSection s="15.0"><right><lane id="-1" type="driving">
        <link><predecessor id="-1"/></link><width sOffset="0.0" a="3.5"/>
      </lane></right></laneSection>
    </lanes>
  </road>
</OpenDRIVE>"#;

#[test]
fn cross_section_link() {
    let lanes = connectivity(TWO_SECTION_LINKED);
    assert_eq!(lanes.len(), 2);
    assert_eq!(lanes[0].successors, vec![LaneId(1)]);
    assert_eq!(lanes[1].predecessors, vec![LaneId(0)]);
}

const TWO_ROADS_LINKED: &str = r#"<?xml version="1.0"?>
<OpenDRIVE>
  <road name="a" length="20.0" id="1" junction="-1">
    <link><successor elementType="road" elementId="2" contactPoint="start"/></link>
    <planView><geometry s="0.0" x="0.0" y="0.0" hdg="0.0" length="20.0"><line/></geometry></planView>
    <lanes><laneSection s="0.0"><right><lane id="-1" type="driving">
      <link><successor id="-1"/></link><width sOffset="0.0" a="3.5"/>
    </lane></right></laneSection></lanes>
  </road>
  <road name="b" length="20.0" id="2" junction="-1">
    <link><predecessor elementType="road" elementId="1" contactPoint="end"/></link>
    <planView><geometry s="0.0" x="20.0" y="0.0" hdg="0.0" length="20.0"><line/></geometry></planView>
    <lanes><laneSection s="0.0"><right><lane id="-1" type="driving">
      <link><predecessor id="-1"/></link><width sOffset="0.0" a="3.5"/>
    </lane></right></laneSection></lanes>
  </road>
</OpenDRIVE>"#;

#[test]
fn road_to_road_link() {
    let lanes = connectivity(TWO_ROADS_LINKED);
    assert_eq!(lanes.len(), 2);
    assert_eq!(lanes[0].successors, vec![LaneId(1)], "A -> B");
    assert_eq!(lanes[1].predecessors, vec![LaneId(0)]);
}

const JUNCTION: &str = r#"<?xml version="1.0"?>
<OpenDRIVE>
  <road name="in" length="20.0" id="1" junction="-1">
    <link><successor elementType="junction" elementId="100"/></link>
    <planView><geometry s="0.0" x="0.0" y="0.0" hdg="0.0" length="20.0"><line/></geometry></planView>
    <lanes><laneSection s="0.0"><right><lane id="-1" type="driving">
      <link><successor id="-1"/></link><width sOffset="0.0" a="3.5"/>
    </lane></right></laneSection></lanes>
  </road>
  <road name="conn" length="20.0" id="2" junction="100">
    <link><predecessor elementType="road" elementId="1" contactPoint="end"/></link>
    <planView><geometry s="0.0" x="20.0" y="0.0" hdg="0.0" length="20.0"><line/></geometry></planView>
    <lanes><laneSection s="0.0"><right><lane id="-1" type="driving">
      <width sOffset="0.0" a="3.5"/>
    </lane></right></laneSection></lanes>
  </road>
  <junction id="100">
    <connection id="0" incomingRoad="1" connectingRoad="2" contactPoint="start">
      <laneLink from="-1" to="-1"/>
    </connection>
  </junction>
</OpenDRIVE>"#;

#[test]
fn junction_link() {
    let lanes = connectivity(JUNCTION);
    assert_eq!(lanes.len(), 2);
    assert_eq!(
        lanes[0].successors,
        vec![LaneId(1)],
        "road -> junction -> connecting road"
    );
}

#[test]
fn empty_or_junk_is_an_error() {
    assert!(matches!(
        import("<OpenDRIVE></OpenDRIVE>"),
        Err(ImportError::Malformed(_))
    ));
    assert!(matches!(
        import("not xml at all <<<"),
        Err(ImportError::Xml(_))
    ));
}

#[test]
fn a_document_whose_roads_have_no_driving_lane_is_malformed() {
    let xml = r#"<OpenDRIVE><road id="1"><lanes><laneSection s="0">
      <right><lane id="-1" type="sidewalk"/></right>
    </laneSection></lanes></road><road id="2"/></OpenDRIVE>"#;
    assert!(matches!(import(xml), Err(ImportError::Malformed(_))));
}

const TWO_WAY_JUNCTION: &str = r#"<OpenDRIVE>
  <road id="1" length="20">
    <link><successor elementType="junction" elementId="7"/></link>
    <lanes><laneSection s="0">
      <left><lane id="1" type="driving"><link><predecessor id="1"/></link><width a="3"/></lane></left>
      <right><lane id="-1" type="driving"><link><successor id="-1"/></link><width a="3"/></lane>
             <lane id="-2" type="driving"><link><successor id="-1"/></link><width a="3"/></lane></right>
    </laneSection></lanes>
  </road>
  <road id="2" length="10" junction="7">
    <lanes><laneSection s="0"><right><lane id="-1" type="driving"><width a="3"/></lane></right></laneSection></lanes>
  </road>
  <road id="3" length="10" junction="7">
    <lanes><laneSection s="0"><right><lane id="-1" type="driving"><width a="3"/></lane></right></laneSection></lanes>
  </road>
  <junction id="7">
    <connection incomingRoad="1" connectingRoad="2" contactPoint="start">
      <laneLink from="-1" to="-1"/><laneLink from="-2" to="-1"/>
    </connection>
    <connection incomingRoad="1" connectingRoad="3" contactPoint="start">
      <laneLink from="-1" to="-1"/>
    </connection>
  </junction>
</OpenDRIVE>"#;

#[test]
fn a_junction_fans_out_and_predecessors_mirror_successors() {
    // Road 1: lane 1 (id 0, backward), lanes -1 (id 1) and -2 (id 2), both
    // forward; roads 2 and 3 each one forward lane (ids 3 and 4).
    let lanes = connectivity(TWO_WAY_JUNCTION);
    assert_eq!(lanes.len(), 5);
    assert_eq!(lanes[1].successors, vec![LaneId(3), LaneId(4)]);
    assert_eq!(lanes[2].successors, vec![LaneId(3)]);
    assert_eq!(lanes[3].predecessors, vec![LaneId(1), LaneId(2)]);
    assert_eq!(lanes[4].predecessors, vec![LaneId(1)]);
    // The backward lane leaves road 1 at its start, where nothing is linked.
    assert!(lanes[0].successors.is_empty());
    for (a, lane) in lanes.iter().enumerate() {
        for b in &lane.successors {
            assert!(lanes[b.0].predecessors.contains(&LaneId(a)));
        }
        for id in lane.successors.iter().chain(&lane.predecessors) {
            assert!(id.0 < lanes.len(), "dangling lane id {id:?}");
        }
    }
}

const DANGLING_LINK: &str = r#"<OpenDRIVE><road id="1" length="5">
      <lanes><laneSection s="0"><right>
        <lane id="-1" type="driving"><link><successor id="-9"/></link><width a="3"/></lane>
      </right></laneSection>
      <laneSection s="3"><right><lane id="-1" type="driving">
        <link><predecessor id="-4"/></link><width a="3"/>
      </lane></right></laneSection></lanes>
    </road></OpenDRIVE>"#;

#[test]
fn a_lane_link_to_a_nonexistent_lane_is_dropped_at_import() {
    let lanes = connectivity(DANGLING_LINK);
    assert_eq!(lanes.len(), 2);
    assert!(lanes[0].successors.is_empty());
    assert!(lanes[1].predecessors.is_empty());
    for lane in &lanes {
        for id in lane.successors.iter().chain(&lane.predecessors) {
            assert!(id.0 < lanes.len(), "dangling lane id {id:?}");
        }
    }
}

#[test]
fn every_referenced_lane_id_exists() {
    for xml in [
        TWO_SECTION_LINKED,
        TWO_ROADS_LINKED,
        JUNCTION,
        TWO_WAY_JUNCTION,
        DANGLING_LINK,
        MULTI_LANE,
    ] {
        let imported = import(xml).expect("import");
        let n = imported.adjacency.len();
        assert!(n > 0, "no driving lanes");
        assert_eq!(imported.neighbors.len(), n);
        for (k, lane) in imported.adjacency.iter().enumerate() {
            for (kind, ids) in [
                ("successor", &lane.successors),
                ("predecessor", &lane.predecessors),
                ("neighbor", &imported.neighbors[k]),
            ] {
                for id in ids {
                    assert!(id.0 < n, "lane {k} has dangling {kind} {id:?}");
                }
            }
        }
    }
}

const MULTI_LANE: &str = r#"<OpenDRIVE><road id="1" length="5">
      <lanes><laneSection s="0">
        <left><lane id="2" type="driving"><width a="3"/></lane><lane id="1" type="driving"><width a="3"/></lane></left>
        <right><lane id="-1" type="driving"><width a="3"/></lane><lane id="-2" type="driving"/>
               <lane id="-3" type="driving"><width a="NaN"/></lane><lane id="-4" type="driving"><width a="3"/></lane></right>
      </laneSection></lanes>
    </road></OpenDRIVE>"#;

#[test]
fn lanes_without_a_usable_width_are_not_imported_and_neighbors_are_adjacent() {
    // Left: 1 then 2 (ids 0, 1). Right: -1 then -4 (ids 2, 3); -2 has no
    // width and -3 a non-finite one.
    let imported = import(MULTI_LANE).expect("import");
    assert_eq!(imported.adjacency.len(), 4);
    assert_eq!(imported.neighbors[0], vec![LaneId(1)]);
    assert_eq!(imported.neighbors[1], vec![LaneId(0)]);
    assert_eq!(imported.neighbors[2], vec![LaneId(3)]);
    assert_eq!(imported.neighbors[3], vec![LaneId(2)]);
}

#[test]
fn last_section_of_an_unknown_road_is_zero() {
    let mut topo = Topology::new();
    topo.insert_road(
        "r".to_string(),
        RoadInfo {
            sections: 3,
            predecessor: None,
            successor: None,
        },
    );
    assert_eq!(topo.last_section(&"r".to_string()), 2);
    assert_eq!(topo.last_section(&"q".to_string()), 0);
}

#[test]
fn sorting_lane_ids_keeps_every_copy() {
    let sorted = swarm::links::sort_by_id(&[LaneId(4), LaneId(1), LaneId(4), LaneId(0)]);
    assert_eq!(sorted, vec![LaneId(0), LaneId(1), LaneId(4), LaneId(4)]);
}
