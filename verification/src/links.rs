//! Road connectivity: the road/lane links and junctions collected while an
//! OpenDRIVE document is read, resolved into drive-direction lane adjacency.
//! "Successor" means a lane you can drive into when leaving this lane's
//! travel-direction exit end, already accounting for the lane's direction and
//! the link's contact point -- a routing graph, not a raw mirror of the
//! file's `+s` links.

use vstd::prelude::*;
use crate::lanes::{Direction, LaneId};
use crate::xml::ImportError;

verus! {

/// Which end of a road a link attaches to.
#[derive(Debug, Clone, Copy, PartialEq, Eq, Structural)]
pub enum Contact {
    Start,
    End,
}

/// What a road-level link points at.
#[derive(Debug, Clone, Copy, PartialEq, Eq, Structural)]
pub enum ElemType {
    Road,
    Junction,
}

/// A road-level predecessor/successor: what a road connects to at one end,
/// and by which end of that neighbor.
#[derive(Debug, Clone)]
pub struct LinkTarget {
    pub elem: ElemType,
    pub id: String,
    pub contact: Contact,
}

/// What connectivity needs to know about one road.
#[derive(Debug, Clone)]
pub struct RoadInfo {
    pub sections: usize,
    pub predecessor: Option<LinkTarget>,
    pub successor: Option<LinkTarget>,
}

/// One junction connection: an incoming road flows through a connecting
/// road, with per-lane `from -> to` links.
#[derive(Debug, Clone)]
pub struct JunctionConn {
    pub incoming_road: String,
    pub connecting_road: String,
    pub contact: Contact,
    pub lane_links: Vec<(i32, i32)>,
}

/// A `LinkTarget` with its id taken as text.
pub struct LinkTargetView {
    pub elem: ElemType,
    pub id: Seq<char>,
    pub contact: Contact,
}

impl View for LinkTarget {
    type V = LinkTargetView;

    open spec fn view(&self) -> LinkTargetView {
        LinkTargetView { elem: self.elem, id: self.id@, contact: self.contact }
    }
}

/// A `JunctionConn` with its road ids taken as text.
pub struct JunctionConnView {
    pub incoming_road: Seq<char>,
    pub connecting_road: Seq<char>,
    pub contact: Contact,
    pub lane_links: Seq<(i32, i32)>,
}

impl View for JunctionConn {
    type V = JunctionConnView;

    open spec fn view(&self) -> JunctionConnView {
        JunctionConnView {
            incoming_road: self.incoming_road@,
            connecting_road: self.connecting_road@,
            contact: self.contact,
            lane_links: self.lane_links@,
        }
    }
}

/// Everything about one emitted lane needed to resolve its links.
#[derive(Debug, Clone)]
pub struct LaneMeta {
    pub id: LaneId,
    pub road: String,
    pub section: usize,
    pub od_id: i32,
    pub direction: Direction,
    pub succ_link: Option<i32>,
    pub pred_link: Option<i32>,
}

/// The connectivity collected while reading a document. Lanes are registered
/// in emission order and receive consecutive ids from 0, so ids are unique;
/// a later road or junction record under an id already seen replaces it.
pub struct Topology {
    metas: Vec<LaneMeta>,
    roads: Vec<(String, RoadInfo)>,
    junctions: Vec<(String, Vec<JunctionConn>)>,
}

/// The lane (of those registered) with this road, section and OpenDRIVE lane
/// id; the most recently registered one when several share the key.
pub open spec fn find_lane(metas: Seq<LaneMeta>, road: Seq<char>, section: usize, od: i32) -> Option<LaneId>
    decreases metas.len(),
{
    if metas.len() == 0 {
        None
    } else if metas.last().road@ == road && metas.last().section == section && metas.last().od_id == od {
        Some(metas.last().id)
    } else {
        find_lane(metas.drop_last(), road, section, od)
    }
}

/// The most recent record of the road with this id.
pub open spec fn find_road(roads: Seq<(String, RoadInfo)>, id: Seq<char>) -> Option<RoadInfo>
    decreases roads.len(),
{
    if roads.len() == 0 {
        None
    } else if roads.last().0@ == id {
        Some(roads.last().1)
    } else {
        find_road(roads.drop_last(), id)
    }
}

/// The most recent connection list of the junction with this id.
pub open spec fn find_junction(junctions: Seq<(String, Vec<JunctionConn>)>, id: Seq<char>) -> Option<Seq<JunctionConn>>
    decreases junctions.len(),
{
    if junctions.len() == 0 {
        None
    } else if junctions.last().0@ == id {
        Some(junctions.last().1@)
    } else {
        find_junction(junctions.drop_last(), id)
    }
}

/// The index of a road's last lane section (0 for an unknown road or one with
/// no sections).
pub open spec fn last_section_of(roads: Seq<(String, RoadInfo)>, id: Seq<char>) -> usize {
    match find_road(roads, id) {
        Some(r) => if r.sections > 0 { (r.sections - 1) as usize } else { 0 },
        None => 0,
    }
}

/// The lane with OpenDRIVE id `od` in (`road`, `section`), as a zero- or
/// one-element list.
pub open spec fn lookup_lanes(metas: Seq<LaneMeta>, road: Seq<char>, section: usize, od: Option<i32>) -> Seq<LaneId> {
    match od {
        Some(o) => match find_lane(metas, road, section, o) {
            Some(id) => seq![id],
            None => seq![],
        },
        None => seq![],
    }
}

/// The lanes a junction connection's lane links lead `od` into.
pub open spec fn link_targets(metas: Seq<LaneMeta>, road: Seq<char>, section: usize, links: Seq<(i32, i32)>, od: i32) -> Seq<LaneId>
    decreases links.len(),
{
    if links.len() == 0 {
        seq![]
    } else {
        link_targets(metas, road, section, links.drop_last(), od) + if links.last().0 == od {
            lookup_lanes(metas, road, section, Some(links.last().1))
        } else {
            seq![]
        }
    }
}

/// The section of a connecting road that a connection enters: its first
/// (start contact) or last (end contact).
pub open spec fn entry_section(roads: Seq<(String, RoadInfo)>, road: Seq<char>, contact: Contact) -> usize {
    match contact {
        Contact::Start => 0,
        Contact::End => last_section_of(roads, road),
    }
}

/// The lanes the connections out of `meta`'s road lead `meta` into, in
/// connection order.
pub open spec fn conn_targets(
    metas: Seq<LaneMeta>,
    roads: Seq<(String, RoadInfo)>,
    conns: Seq<JunctionConn>,
    meta: LaneMeta,
) -> Seq<LaneId>
    decreases conns.len(),
{
    if conns.len() == 0 {
        seq![]
    } else {
        let c = conns.last();
        conn_targets(metas, roads, conns.drop_last(), meta) + if c.incoming_road@ == meta.road@ {
            link_targets(
                metas,
                c.connecting_road@,
                entry_section(roads, c.connecting_road@, c.contact),
                c.lane_links@,
                meta.od_id,
            )
        } else {
            seq![]
        }
    }
}

/// The lanes reachable by crossing a road boundary toward `target`: the
/// neighbor road's first or last section (by its contact) for a road link,
/// or every lane a junction's connections out of `meta`'s road lead into.
pub open spec fn cross_targets(
    metas: Seq<LaneMeta>,
    roads: Seq<(String, RoadInfo)>,
    junctions: Seq<(String, Vec<JunctionConn>)>,
    meta: LaneMeta,
    target: Option<LinkTarget>,
    lane_link: Option<i32>,
) -> Seq<LaneId> {
    match target {
        None => seq![],
        Some(t) => match t.elem {
            ElemType::Road => lookup_lanes(metas, t.id@, entry_section(roads, t.id@, t.contact), lane_link),
            ElemType::Junction => match find_junction(junctions, t.id@) {
                None => seq![],
                Some(conns) => conn_targets(metas, roads, conns, meta),
            },
        },
    }
}

/// The lanes reachable by driving off `meta`'s exit end. A forward lane exits
/// at the road's `+s` end (the next section, or across the road's successor
/// link); a backward lane exits at its `-s` end (the previous section, or
/// across the predecessor link).
pub open spec fn successors_of_meta(
    metas: Seq<LaneMeta>,
    roads: Seq<(String, RoadInfo)>,
    junctions: Seq<(String, Vec<JunctionConn>)>,
    meta: LaneMeta,
) -> Seq<LaneId> {
    let last = last_section_of(roads, meta.road@);
    match meta.direction {
        Direction::Forward => if meta.section < last {
            lookup_lanes(metas, meta.road@, (meta.section + 1) as usize, meta.succ_link)
        } else {
            let target = match find_road(roads, meta.road@) {
                Some(r) => r.successor,
                None => None,
            };
            cross_targets(metas, roads, junctions, meta, target, meta.succ_link)
        },
        Direction::Backward => if meta.section > 0 {
            lookup_lanes(metas, meta.road@, (meta.section - 1) as usize, meta.pred_link)
        } else {
            let target = match find_road(roads, meta.road@) {
                Some(r) => r.predecessor,
                None => None,
            };
            cross_targets(metas, roads, junctions, meta, target, meta.pred_link)
        },
    }
}

/// Whether two strings are the same text.
fn same_text(a: &String, b: &String) -> (r: bool)
    ensures
        r == (a@ == b@),
{
    *a == *b
}

impl Topology {
    /// The registered lanes, in registration order.
    pub closed spec fn metas(&self) -> Seq<LaneMeta> {
        self.metas@
    }

    /// The road records, in insertion order.
    pub closed spec fn roads(&self) -> Seq<(String, RoadInfo)> {
        self.roads@
    }

    /// The junction records, in insertion order.
    pub closed spec fn junctions(&self) -> Seq<(String, Vec<JunctionConn>)> {
        self.junctions@
    }

    /// Lane ids are their registration positions.
    #[verifier::type_invariant]
    closed spec fn ids_are_positions(&self) -> bool {
        forall|k: int| 0 <= k < self.metas@.len() ==> #[trigger] self.metas@[k].id == LaneId(k as usize)
    }

    /// The drive-direction successors of a registered lane.
    pub open spec fn successors_spec(&self, meta: LaneMeta) -> Seq<LaneId> {
        successors_of_meta(self.metas(), self.roads(), self.junctions(), meta)
    }

    /// An empty topology.
    pub fn new() -> (t: Self)
        ensures
            t.metas() == Seq::<LaneMeta>::empty(),
            t.roads() == Seq::<(String, RoadInfo)>::empty(),
            t.junctions() == Seq::<(String, Vec<JunctionConn>)>::empty(),
    {
        Topology { metas: Vec::new(), roads: Vec::new(), junctions: Vec::new() }
    }

    /// Register one emitted lane under the next id (the number of lanes
    /// registered so far), returning that id.
    pub fn register_lane(
        &mut self,
        road: String,
        section: usize,
        od_id: i32,
        direction: Direction,
        succ_link: Option<i32>,
        pred_link: Option<i32>,
    ) -> (id: LaneId)
        ensures
            id == LaneId(old(self).metas().len() as usize),
            final(self).metas() == old(self).metas().push(
                LaneMeta { id, road, section, od_id, direction, succ_link, pred_link },
            ),
            final(self).roads() == old(self).roads(),
            final(self).junctions() == old(self).junctions(),
    {
        proof {
            use_type_invariant(&*self);
        }
        let id = LaneId(self.metas.len());
        let meta = LaneMeta { id, road, section, od_id, direction, succ_link, pred_link };
        let mut metas: Vec<LaneMeta> = Vec::new();
        std::mem::swap(&mut metas, &mut self.metas);
        metas.push(meta);
        self.metas = metas;
        id
    }

    /// Record a road's section count and link targets. A later record for the
    /// same road id replaces an earlier one.
    pub fn insert_road(&mut self, id: String, info: RoadInfo)
        ensures
            final(self).roads() == old(self).roads().push((id, info)),
            final(self).metas() == old(self).metas(),
            final(self).junctions() == old(self).junctions(),
    {
        proof {
            use_type_invariant(&*self);
        }
        let mut roads: Vec<(String, RoadInfo)> = Vec::new();
        std::mem::swap(&mut roads, &mut self.roads);
        roads.push((id, info));
        self.roads = roads;
    }

    /// Replace the junction records.
    pub fn set_junctions(&mut self, junctions: Vec<(String, Vec<JunctionConn>)>)
        ensures
            final(self).junctions() == junctions@,
            final(self).metas() == old(self).metas(),
            final(self).roads() == old(self).roads(),
    {
        proof {
            use_type_invariant(&*self);
        }
        self.junctions = junctions;
    }

    /// The registered lanes, in registration order.
    pub fn lane_metas(&self) -> (r: &[LaneMeta])
        ensures
            r@ == self.metas(),
    {
        self.metas.as_slice()
    }

    /// The index of a road's last lane section; 0 for an unknown road or a
    /// road with no sections.
    pub fn last_section(&self, road: &String) -> (r: usize)
        ensures
            r == last_section_of(self.roads(), road@),
    {
        let mut i = self.roads.len();
        assert(self.roads@.take(i as int) =~= self.roads@);
        while i > 0
            invariant
                i <= self.roads@.len(),
                find_road(self.roads@, road@) == find_road(self.roads@.take(i as int), road@),
            decreases i,
        {
            assert(self.roads@.take(i as int).drop_last() =~= self.roads@.take(i - 1));
            let entry = &self.roads[i - 1];
            if same_text(&entry.0, road) {
                return if entry.1.sections > 0 { entry.1.sections - 1 } else { 0 };
            }
            i = i - 1;
        }
        0
    }

    /// The road record for this id, if any.
    fn road(&self, road: &String) -> (r: Option<&RoadInfo>)
        ensures
            match r {
                Some(info) => find_road(self.roads(), road@) == Some(*info),
                None => find_road(self.roads(), road@) is None,
            },
    {
        let mut i = self.roads.len();
        assert(self.roads@.take(i as int) =~= self.roads@);
        while i > 0
            invariant
                i <= self.roads@.len(),
                find_road(self.roads@, road@) == find_road(self.roads@.take(i as int), road@),
            decreases i,
        {
            assert(self.roads@.take(i as int).drop_last() =~= self.roads@.take(i - 1));
            let entry = &self.roads[i - 1];
            if same_text(&entry.0, road) {
                return Some(&entry.1);
            }
            i = i - 1;
        }
        None
    }

    /// The connection list of the junction with this id, if any.
    fn junction(&self, id: &String) -> (r: Option<&Vec<JunctionConn>>)
        ensures
            match r {
                Some(conns) => find_junction(self.junctions(), id@) == Some(conns@),
                None => find_junction(self.junctions(), id@) is None,
            },
    {
        let mut i = self.junctions.len();
        assert(self.junctions@.take(i as int) =~= self.junctions@);
        while i > 0
            invariant
                i <= self.junctions@.len(),
                find_junction(self.junctions@, id@) == find_junction(self.junctions@.take(i as int), id@),
            decreases i,
        {
            assert(self.junctions@.take(i as int).drop_last() =~= self.junctions@.take(i - 1));
            let entry = &self.junctions[i - 1];
            if same_text(&entry.0, id) {
                return Some(&entry.1);
            }
            i = i - 1;
        }
        None
    }

    /// The lane with OpenDRIVE id `od` in (`road`, `section`), if it exists,
    /// as a zero- or one-element list.
    fn lookup(&self, road: &String, section: usize, od: Option<i32>) -> (r: Vec<LaneId>)
        ensures
            r@ == lookup_lanes(self.metas(), road@, section, od),
    {
        let mut out: Vec<LaneId> = Vec::new();
        match od {
            None => {},
            Some(o) => {
                let mut i = self.metas.len();
                assert(self.metas@.take(i as int) =~= self.metas@);
                while i > 0
                    invariant
                        i <= self.metas@.len(),
                        out@.len() == 0,
                        od == Some(o),
                        find_lane(self.metas@, road@, section, o) == find_lane(self.metas@.take(i as int), road@, section, o),
                    decreases i,
                {
                    assert(self.metas@.take(i as int).drop_last() =~= self.metas@.take(i - 1));
                    let m = &self.metas[i - 1];
                    assert(self.metas@.take(i as int).last() == self.metas@[i - 1]);
                    if m.section == section && m.od_id == o && same_text(&m.road, road) {
                        out.push(m.id);
                        assert(out@ =~= seq![m.id]);
                        assert(self.metas@.take(i as int).len() == i);
                        assert(find_lane(self.metas@.take(i as int), road@, section, o) == Some(m.id));
                        assert(find_lane(self.metas@, road@, section, o) == Some(m.id));
                        return out;
                    }
                    i = i - 1;
                }
            },
        }
        out
    }
    /// Resolve a cross-road boundary: follow the road's link target (another
    /// road, or a junction) to the lane(s) it leads into. `lane_link` is the
    /// lane's own `<link>` neighbor id, used for a direct road link.
    fn cross(&self, meta: &LaneMeta, target: &Option<LinkTarget>, lane_link: Option<i32>) -> (r: Vec<LaneId>)
        ensures
            r@ == cross_targets(self.metas(), self.roads(), self.junctions(), *meta, *target, lane_link),
    {
        match target {
            None => Vec::new(),
            Some(t) => match t.elem {
                ElemType::Road => {
                    let section = match t.contact {
                        Contact::Start => 0,
                        Contact::End => self.last_section(&t.id),
                    };
                    self.lookup(&t.id, section, lane_link)
                },
                ElemType::Junction => match self.junction(&t.id) {
                    None => Vec::new(),
                    Some(conns) => {
                        let mut out: Vec<LaneId> = Vec::new();
                        let mut k: usize = 0;
                        while k < conns.len()
                            invariant
                                k <= conns@.len(),
                                out@ == conn_targets(self.metas(), self.roads(), conns@.take(k as int), *meta),
                            decreases conns@.len() - k,
                        {
                            let c = &conns[k];
                            assert(conns@.take(k + 1).drop_last() =~= conns@.take(k as int));
                            assert(conns@.take(k + 1).last() == conns@[k as int]);
                            if same_text(&c.incoming_road, &meta.road) {
                                let section = match c.contact {
                                    Contact::Start => 0,
                                    Contact::End => self.last_section(&c.connecting_road),
                                };
                                let ghost before = out@;
                                let mut l: usize = 0;
                                while l < c.lane_links.len()
                                    invariant
                                        l <= c.lane_links@.len(),
                                        section == entry_section(self.roads(), c.connecting_road@, c.contact),
                                        out@ == before + link_targets(
                                            self.metas(),
                                            c.connecting_road@,
                                            section,
                                            c.lane_links@.take(l as int),
                                            meta.od_id,
                                        ),
                                    decreases c.lane_links@.len() - l,
                                {
                                    let (from, to) = c.lane_links[l];
                                    assert(c.lane_links@.take(l + 1).drop_last() =~= c.lane_links@.take(l as int));
                                    assert(c.lane_links@.take(l + 1).last() == c.lane_links@[l as int]);
                                    if from == meta.od_id {
                                        let found = self.lookup(&c.connecting_road, section, Some(to));
                                        let ghost mid = out@;
                                        let mut f: usize = 0;
                                        while f < found.len()
                                            invariant
                                                f <= found@.len(),
                                                out@ == mid + found@.take(f as int),
                                            decreases found@.len() - f,
                                        {
                                            out.push(found[f]);
                                            assert(found@.take(f + 1) =~= found@.take(f as int).push(found@[f as int]));
                                            f = f + 1;
                                        }
                                        assert(found@.take(f as int) =~= found@);
                                    }
                                    assert(out@ =~= before + link_targets(
                                        self.metas(),
                                        c.connecting_road@,
                                        section,
                                        c.lane_links@.take(l + 1),
                                        meta.od_id,
                                    ));
                                    l = l + 1;
                                }
                                assert(c.lane_links@.take(l as int) =~= c.lane_links@);
                            }
                            assert(out@ =~= conn_targets(self.metas(), self.roads(), conns@.take(k + 1), *meta));
                            k = k + 1;
                        }
                        assert(conns@.take(k as int) =~= conns@);
                        out
                    },
                },
            },
        }
    }

    /// The lanes reachable by driving off `meta`'s travel-direction exit end.
    pub fn successors_of(&self, meta: &LaneMeta) -> (r: Vec<LaneId>)
        ensures
            r@ == self.successors_spec(*meta),
            meta.direction == Direction::Backward && meta.section > 0 ==> links_within_road(
                self.metas(),
                meta.road@,
                (meta.section - 1) as usize,
                meta.pred_link,
                r@,
            ),
            meta.direction == Direction::Forward && meta.section < last_section_of(self.roads(), meta.road@)
                ==> links_within_road(self.metas(), meta.road@, (meta.section + 1) as usize, meta.succ_link, r@),
    {
        proof {
            lemma_within_road_successors(self.metas(), self.roads(), self.junctions(), *meta);
        }
        let last = self.last_section(&meta.road);
        match meta.direction {
            Direction::Forward => {
                if meta.section < last {
                    self.lookup(&meta.road, meta.section + 1, meta.succ_link)
                } else {
                    match self.road(&meta.road) {
                        Some(r) => self.cross(meta, &r.successor, meta.succ_link),
                        None => Vec::new(),
                    }
                }
            },
            Direction::Backward => {
                if meta.section > 0 {
                    self.lookup(&meta.road, meta.section - 1, meta.pred_link)
                } else {
                    match self.road(&meta.road) {
                        Some(r) => self.cross(meta, &r.predecessor, meta.pred_link),
                        None => Vec::new(),
                    }
                }
            },
        }
    }
}

/// Lane ids in non-decreasing order.
pub open spec fn sorted_by_id(s: Seq<LaneId>) -> bool {
    forall|i: int, j: int| 0 <= i < j < s.len() ==> s[i].0 <= s[j].0
}

/// `ids` in non-decreasing id order, with every id kept as often as it occurs.
pub fn sort_by_id(ids: &[LaneId]) -> (r: Vec<LaneId>)
    ensures
        sorted_by_id(r@),
        r@.to_multiset() == ids@.to_multiset(),
{
    let mut r: Vec<LaneId> = Vec::new();
    let mut i: usize = 0;
    assert(r@ =~= ids@.take(0));
    while i < ids.len()
        invariant
            i <= ids@.len(),
            sorted_by_id(r@),
            r@.to_multiset() == ids@.take(i as int).to_multiset(),
        decreases ids@.len() - i,
    {
        let x = ids[i];
        let mut q: usize = 0;
        while q < r.len() && r[q].0 <= x.0
            invariant
                q <= r@.len(),
                forall|j: int| 0 <= j < q ==> r@[j].0 <= x.0,
            decreases r@.len() - q,
        {
            q = q + 1;
        }
        let ghost before = r@;
        r.insert(q, x);
        assert(ids@.take(i + 1) =~= ids@.take(i as int).push(x));
        assert(r@.to_multiset() == before.insert(q as int, x).to_multiset());
        proof {
            vstd::seq_lib::to_multiset_insert(before, q as int, x);
            vstd::seq_lib::to_multiset_build(ids@.take(i as int), x);
        }
        assert(sorted_by_id(r@)) by {
            assert forall|a: int, b: int| 0 <= a < b < r@.len() implies r@[a].0 <= r@[b].0 by {
                if b == q {
                } else if a == q {
                    assert(r@[b] == before[b - 1]);
                    assert(before[q as int].0 > x.0);
                } else {
                    let a0 = if a < q { a } else { a - 1 };
                    let b0 = if b < q { b } else { b - 1 };
                    assert(r@[a] == before[a0]);
                    assert(r@[b] == before[b0]);
                }
            }
        }
        i = i + 1;
    }
    assert(ids@.take(i as int) =~= ids@);
    r
}

/// `from` once for every occurrence of `target` in `succ` -- the predecessor
/// entries one lane's successor list contributes to `target`.
pub open spec fn occurrences(succ: Seq<LaneId>, target: LaneId, from: LaneId) -> Seq<LaneId>
    decreases succ.len(),
{
    if succ.len() == 0 {
        seq![]
    } else {
        occurrences(succ.drop_last(), target, from) + if succ.last() == target {
            seq![from]
        } else {
            seq![]
        }
    }
}

/// The predecessors of `target` among the first `n` lanes, where lane `j`
/// (id `j`) has successors `succs[j]`: every `j` once per occurrence of
/// `target` in `succs[j]`.
pub open spec fn predecessors_among(succs: Seq<Seq<LaneId>>, n: int, target: LaneId) -> Seq<LaneId>
    decreases n,
{
    if n <= 0 {
        seq![]
    } else {
        predecessors_among(succs, n - 1, target) + occurrences(succs[n - 1], target, LaneId((n - 1) as usize))
    }
}

/// The resolved links of one lane: who it leads into and who leads into it,
/// each in id order.
#[derive(Debug, Clone, PartialEq, Eq)]
pub struct LaneAdjacency {
    pub successors: Vec<LaneId>,
    pub predecessors: Vec<LaneId>,
}

impl Topology {
    /// Every registered lane's successors, in registration order.
    pub open spec fn all_successors(&self) -> Seq<Seq<LaneId>> {
        Seq::new(self.metas().len(), |k: int| self.successors_spec(self.metas()[k]))
    }

    /// The predecessors of `target`: every lane once per time `target`
    /// appears among its successors.
    pub open spec fn predecessors_spec(&self, target: LaneId) -> Seq<LaneId> {
        predecessors_among(self.all_successors(), self.metas().len() as int, target)
    }

    /// `r` is the resolved adjacency of the registered lanes: entry `k`
    /// belongs to the lane with id `k`; its successors are that lane's
    /// drive-direction successors and its predecessors every lane once per
    /// time it lists the lane as a successor, both in id order; so lane `a`
    /// is a predecessor of `b` exactly as often as `b` is a successor of
    /// `a`, and every id listed names a registered lane.
    pub open spec fn is_resolution(&self, r: Seq<LaneAdjacency>) -> bool {
        &&& r.len() == self.metas().len()
        &&& forall|k: int| 0 <= k < r.len() ==> self.metas()[k].id == LaneId(k as usize)
        &&& forall|k: int|
            #![trigger r[k]]
            0 <= k < r.len() ==> sorted_by_id(r[k].successors@) && r[k].successors@.to_multiset()
                == self.successors_spec(self.metas()[k]).to_multiset()
        &&& forall|k: int|
            #![trigger r[k]]
            0 <= k < r.len() ==> sorted_by_id(r[k].predecessors@) && r[k].predecessors@.to_multiset()
                == self.predecessors_spec(LaneId(k as usize)).to_multiset()
        &&& forall|a: int, b: int|
            0 <= a < r.len() && 0 <= b < r.len() ==> (#[trigger] r[b].predecessors@.to_multiset()).count(
                LaneId(a as usize),
            ) == (#[trigger] r[a].successors@.to_multiset()).count(LaneId(b as usize))
        &&& forall|k: int| 0 <= k < r.len() ==> all_below(#[trigger] r[k].successors@, r.len()) && all_below(
            r[k].predecessors@,
            r.len(),
        )
    }

    /// Finish reading a document once every road is read: a document that
    /// yielded no driving lane is `Malformed`; otherwise record its junctions
    /// and resolve every lane's successors and predecessors.
    pub fn finish(&mut self, junctions: Vec<(String, Vec<JunctionConn>)>) -> (r: Result<Vec<LaneAdjacency>, ImportError>)
        ensures
            r is Err <==> old(self).metas().len() == 0,
            r matches Err(e) ==> e is Malformed,
            r is Err ==> *final(self) == *old(self),
            r is Ok ==> final(self).junctions() == junctions@,
            final(self).metas() == old(self).metas(),
            final(self).roads() == old(self).roads(),
            r matches Ok(a) ==> final(self).is_resolution(a@),
    {
        if self.metas.len() == 0 {
            return Err(ImportError::Malformed("no driving lanes found".to_owned()));
        }
        self.set_junctions(junctions);
        Ok(self.resolve())
    }

    /// Fill every registered lane's successors and predecessors: the
    /// adjacency of the lane with id `k` is at position `k`. Successors are
    /// computed per lane; predecessors are their inverse, so the two are
    /// always consistent. Both lists are in id order.
    pub fn resolve(&self) -> (r: Vec<LaneAdjacency>)
        ensures
            self.is_resolution(r@),
    {
        proof {
            use_type_invariant(self);
        }
        let n = self.metas.len();
        let ghost all = self.all_successors();
        let mut succs: Vec<Vec<LaneId>> = Vec::new();
        let mut k: usize = 0;
        while k < n
            invariant
                n == self.metas@.len(),
                all == self.all_successors(),
                k <= n,
                succs@.len() == k,
                forall|j: int| 0 <= j < k ==> (#[trigger] succs@[j])@ == all[j],
            decreases n - k,
        {
            let s = self.successors_of(&self.metas[k]);
            succs.push(s);
            k = k + 1;
        }
        let mut out: Vec<LaneAdjacency> = Vec::new();
        let mut t: usize = 0;
        while t < n
            invariant
                n == self.metas@.len(),
                all == self.all_successors(),
                all.len() == n,
                succs@.len() == n,
                forall|j: int| 0 <= j < n ==> (#[trigger] succs@[j])@ == all[j],
                t <= n,
                out@.len() == t,
                forall|m: int|
                    #![trigger out@[m]]
                    0 <= m < t ==> sorted_by_id(out@[m].successors@) && out@[m].successors@.to_multiset()
                        == self.successors_spec(self.metas()[m]).to_multiset(),
                forall|m: int|
                    #![trigger out@[m]]
                    0 <= m < t ==> sorted_by_id(out@[m].predecessors@) && out@[m].predecessors@.to_multiset()
                        == self.predecessors_spec(LaneId(m as usize)).to_multiset(),
            decreases n - t,
        {
            let target = LaneId(t);
            let mut preds: Vec<LaneId> = Vec::new();
            let mut j: usize = 0;
            while j < n
                invariant
                    n == self.metas@.len(),
                    all.len() == n,
                    succs@.len() == n,
                    forall|i: int| 0 <= i < n ==> (#[trigger] succs@[i])@ == all[i],
                    j <= n,
                    preds@ == predecessors_among(all, j as int, target),
                decreases n - j,
            {
                let row = &succs[j];
                let ghost base = preds@;
                let mut e: usize = 0;
                while e < row.len()
                    invariant
                        e <= row@.len(),
                        preds@ == base + occurrences(row@.take(e as int), target, LaneId(j)),
                    decreases row@.len() - e,
                {
                    assert(row@.take(e + 1).drop_last() =~= row@.take(e as int));
                    assert(row@.take(e + 1).last() == row@[e as int]);
                    if row[e] == target {
                        preds.push(LaneId(j));
                    }
                    assert(preds@ =~= base + occurrences(row@.take(e + 1), target, LaneId(j)));
                    e = e + 1;
                }
                assert(row@.take(e as int) =~= row@);
                assert(preds@ =~= predecessors_among(all, j + 1, target));
                j = j + 1;
            }
            let successors = sort_by_id(succs[t].as_slice());
            let predecessors = sort_by_id(preds.as_slice());
            out.push(LaneAdjacency { successors, predecessors });
            assert(out@[t as int].successors@ == successors@);
            t = t + 1;
        }
        assert forall|a: int, b: int|
            0 <= a < out@.len() && 0 <= b < out@.len() implies (#[trigger] out@[b].predecessors@.to_multiset()).count(
                LaneId(a as usize),
            ) == (#[trigger] out@[a].successors@.to_multiset()).count(LaneId(b as usize)) by {
            self.lemma_predecessors_invert_successors(a as usize, LaneId(b as usize));
        }
        assert forall|k: int| 0 <= k < out@.len() implies all_below(#[trigger] out@[k].successors@, out@.len()) && all_below(
            out@[k].predecessors@,
            out@.len(),
        ) by {
            lemma_successors_below(self.metas(), self.roads(), self.junctions(), self.metas()[k]);
            lemma_same_multiset_below(out@[k].successors@, self.successors_spec(self.metas()[k]), n as nat);
            lemma_predecessors_below(all, n as int, LaneId(k as usize));
            lemma_same_multiset_below(out@[k].predecessors@, self.predecessors_spec(LaneId(k as usize)), n as nat);
        }
        out
    }
}

/// Nothing occurs in an empty list.
proof fn lemma_empty_count(x: LaneId)
    ensures
        Seq::<LaneId>::empty().to_multiset().count(x) == 0,
{
    vstd::seq_lib::to_multiset_contains(Seq::<LaneId>::empty(), x);
}

/// How often `x` occurs in `occurrences(succ, target, from)`: as often as
/// `target` occurs in `succ` when `x` is `from`, never otherwise.
proof fn lemma_occurrences_count(succ: Seq<LaneId>, target: LaneId, from: LaneId, x: LaneId)
    ensures
        occurrences(succ, target, from).to_multiset().count(x) == if x == from {
            succ.to_multiset().count(target)
        } else {
            0
        },
    decreases succ.len(),
{
    broadcast use vstd::multiset::group_multiset_axioms;

    if succ.len() == 0 {
        assert(occurrences(succ, target, from) =~= Seq::<LaneId>::empty());
        assert(succ =~= Seq::<LaneId>::empty());
        lemma_empty_count(x);
        lemma_empty_count(target);
    } else {
        let init = succ.drop_last();
        let tail: Seq<LaneId> = if succ.last() == target {
            seq![from]
        } else {
            seq![]
        };
        lemma_occurrences_count(init, target, from, x);
        vstd::seq_lib::lemma_multiset_commutative(occurrences(init, target, from), tail);
        assert(succ =~= init.push(succ.last()));
        vstd::seq_lib::to_multiset_build(init, succ.last());
        lemma_empty_count(x);
        if succ.last() == target {
            assert(tail =~= Seq::<LaneId>::empty().push(from));
            vstd::seq_lib::to_multiset_build(Seq::<LaneId>::empty(), from);
        } else {
            assert(tail =~= Seq::<LaneId>::empty());
        }
        lemma_empty_count(x);
        assert(occurrences(succ, target, from) == occurrences(init, target, from) + tail);
        assert(occurrences(succ, target, from).to_multiset().count(x) == occurrences(init, target, from).to_multiset().count(x)
            + tail.to_multiset().count(x));
        assert(succ.to_multiset().count(target) == init.to_multiset().count(target) + if succ.last() == target { 1int } else { 0int });
        assert(tail.to_multiset().count(x) == if succ.last() == target && x == from { 1int } else { 0int });
    }
}

/// How often lane `a` appears among the predecessors of `b` over the first
/// `n` lanes: as often as `b` appears among `a`'s successors when `a` is one
/// of them, never otherwise.
proof fn lemma_predecessors_count(succs: Seq<Seq<LaneId>>, n: int, b: LaneId, a: usize)
    requires
        0 <= n <= succs.len(),
        n <= usize::MAX,
    ensures
        predecessors_among(succs, n, b).to_multiset().count(LaneId(a)) == if a < n {
            succs[a as int].to_multiset().count(b)
        } else {
            0
        },
    decreases n,
{
    broadcast use vstd::multiset::group_multiset_axioms;

    if n <= 0 {
        assert(predecessors_among(succs, n, b) =~= Seq::<LaneId>::empty());
        lemma_empty_count(LaneId(a));
    } else {
        lemma_predecessors_count(succs, n - 1, b, a);
        let last = occurrences(succs[n - 1], b, LaneId((n - 1) as usize));
        vstd::seq_lib::lemma_multiset_commutative(predecessors_among(succs, n - 1, b), last);
        lemma_occurrences_count(succs[n - 1], b, LaneId((n - 1) as usize), LaneId(a));
        assert(predecessors_among(succs, n, b) == predecessors_among(succs, n - 1, b) + last);
        assert(predecessors_among(succs, n, b).to_multiset().count(LaneId(a)) == predecessors_among(succs, n - 1, b).to_multiset().count(LaneId(a))
            + last.to_multiset().count(LaneId(a)));
        assert((LaneId(a) == LaneId((n - 1) as usize)) <==> (a == n - 1));
    }
}

impl Topology {
    /// Successors and predecessors are each other's inverse: lane `a` is
    /// listed among the predecessors of lane `b` exactly as often as `b` is
    /// listed among the successors of `a`.
    pub proof fn lemma_predecessors_invert_successors(&self, a: usize, b: LaneId)
        requires
            a < self.metas().len(),
            self.metas().len() <= usize::MAX,
        ensures
            self.predecessors_spec(b).to_multiset().count(LaneId(a)) == self.successors_spec(
                self.metas()[a as int],
            ).to_multiset().count(b),
    {
        lemma_predecessors_count(self.all_successors(), self.metas().len() as int, b, a);
    }
}

/// Every id in `s` names one of the first `n` lanes.
pub open spec fn all_below(s: Seq<LaneId>, n: nat) -> bool {
    forall|i: int| 0 <= i < s.len() ==> (#[trigger] s[i]).0 < n
}

/// Lane ids are registration positions.
pub open spec fn ids_positions(metas: Seq<LaneMeta>) -> bool {
    forall|k: int| 0 <= k < metas.len() ==> #[trigger] metas[k].id == LaneId(k as usize)
}

proof fn lemma_find_lane_below(metas: Seq<LaneMeta>, road: Seq<char>, section: usize, od: i32)
    requires
        ids_positions(metas),
    ensures
        find_lane(metas, road, section, od) matches Some(id) ==> id.0 < metas.len(),
    decreases metas.len(),
{
    if metas.len() > 0 {
        let init = metas.drop_last();
        assert(ids_positions(init)) by {
            assert forall|k: int| 0 <= k < init.len() implies #[trigger] init[k].id == LaneId(k as usize) by {
                assert(init[k] == metas[k]);
            }
        }
        lemma_find_lane_below(init, road, section, od);
        assert(metas.last() == metas[metas.len() - 1]);
    }
}

proof fn lemma_lookup_below(metas: Seq<LaneMeta>, road: Seq<char>, section: usize, od: Option<i32>)
    requires
        ids_positions(metas),
    ensures
        all_below(lookup_lanes(metas, road, section, od), metas.len()),
{
    if let Some(o) = od {
        lemma_find_lane_below(metas, road, section, o);
    }
}

proof fn lemma_concat_below(a: Seq<LaneId>, b: Seq<LaneId>, n: nat)
    requires
        all_below(a, n),
        all_below(b, n),
    ensures
        all_below(a + b, n),
{
    assert forall|i: int| 0 <= i < (a + b).len() implies (#[trigger] (a + b)[i]).0 < n by {
        if i < a.len() {
            assert((a + b)[i] == a[i]);
        } else {
            assert((a + b)[i] == b[i - a.len()]);
        }
    }
}

proof fn lemma_link_targets_below(metas: Seq<LaneMeta>, road: Seq<char>, section: usize, links: Seq<(i32, i32)>, od: i32)
    requires
        ids_positions(metas),
    ensures
        all_below(link_targets(metas, road, section, links, od), metas.len()),
    decreases links.len(),
{
    if links.len() > 0 {
        lemma_link_targets_below(metas, road, section, links.drop_last(), od);
        lemma_lookup_below(metas, road, section, Some(links.last().1));
        lemma_concat_below(
            link_targets(metas, road, section, links.drop_last(), od),
            if links.last().0 == od {
                lookup_lanes(metas, road, section, Some(links.last().1))
            } else {
                seq![]
            },
            metas.len(),
        );
    }
}

proof fn lemma_conn_targets_below(metas: Seq<LaneMeta>, roads: Seq<(String, RoadInfo)>, conns: Seq<JunctionConn>, meta: LaneMeta)
    requires
        ids_positions(metas),
    ensures
        all_below(conn_targets(metas, roads, conns, meta), metas.len()),
    decreases conns.len(),
{
    if conns.len() > 0 {
        let c = conns.last();
        lemma_conn_targets_below(metas, roads, conns.drop_last(), meta);
        lemma_link_targets_below(
            metas,
            c.connecting_road@,
            entry_section(roads, c.connecting_road@, c.contact),
            c.lane_links@,
            meta.od_id,
        );
        lemma_concat_below(
            conn_targets(metas, roads, conns.drop_last(), meta),
            if c.incoming_road@ == meta.road@ {
                link_targets(
                    metas,
                    c.connecting_road@,
                    entry_section(roads, c.connecting_road@, c.contact),
                    c.lane_links@,
                    meta.od_id,
                )
            } else {
                seq![]
            },
            metas.len(),
        );
    }
}

/// Every successor of a lane is a registered lane.
proof fn lemma_successors_below(
    metas: Seq<LaneMeta>,
    roads: Seq<(String, RoadInfo)>,
    junctions: Seq<(String, Vec<JunctionConn>)>,
    meta: LaneMeta,
)
    requires
        ids_positions(metas),
    ensures
        all_below(successors_of_meta(metas, roads, junctions, meta), metas.len()),
{
    let last = last_section_of(roads, meta.road@);
    match meta.direction {
        Direction::Forward => {
            lemma_lookup_below(metas, meta.road@, (meta.section + 1) as usize, meta.succ_link);
        },
        Direction::Backward => {
            lemma_lookup_below(metas, meta.road@, (meta.section - 1) as usize, meta.pred_link);
        },
    }
    let target = match find_road(roads, meta.road@) {
        Some(r) => if meta.direction == Direction::Forward {
            r.successor
        } else {
            r.predecessor
        },
        None => None,
    };
    let link = if meta.direction == Direction::Forward {
        meta.succ_link
    } else {
        meta.pred_link
    };
    if let Some(t) = target {
        lemma_lookup_below(metas, t.id@, entry_section(roads, t.id@, t.contact), link);
        if let Some(conns) = find_junction(junctions, t.id@) {
            lemma_conn_targets_below(metas, roads, conns, meta);
        }
    }
}

proof fn lemma_occurrences_below(succ: Seq<LaneId>, target: LaneId, from: LaneId, n: nat)
    requires
        from.0 < n,
    ensures
        all_below(occurrences(succ, target, from), n),
    decreases succ.len(),
{
    if succ.len() > 0 {
        lemma_occurrences_below(succ.drop_last(), target, from, n);
        lemma_concat_below(
            occurrences(succ.drop_last(), target, from),
            if succ.last() == target {
                seq![from]
            } else {
                seq![]
            },
            n,
        );
    }
}

/// Every predecessor of a lane is one of the lanes it was gathered from.
proof fn lemma_predecessors_below(succs: Seq<Seq<LaneId>>, m: int, target: LaneId)
    requires
        m <= usize::MAX,
    ensures
        forall|n: nat| m <= n ==> all_below(#[trigger] predecessors_among(succs, m, target), n),
    decreases m,
{
    if m > 0 {
        lemma_predecessors_below(succs, m - 1, target);
        assert forall|n: nat| m <= n implies all_below(#[trigger] predecessors_among(succs, m, target), n) by {
            lemma_occurrences_below(succs[m - 1], target, LaneId((m - 1) as usize), n);
            lemma_concat_below(
                predecessors_among(succs, m - 1, target),
                occurrences(succs[m - 1], target, LaneId((m - 1) as usize)),
                n,
            );
        }
    }
}

/// A list with the same elements (counting repeats) as one whose ids are all
/// below `n` has only such ids too.
proof fn lemma_same_multiset_below(a: Seq<LaneId>, b: Seq<LaneId>, n: nat)
    requires
        a.to_multiset() == b.to_multiset(),
        all_below(b, n),
    ensures
        all_below(a, n),
{
    assert forall|i: int| 0 <= i < a.len() implies (#[trigger] a[i]).0 < n by {
        vstd::seq_lib::to_multiset_contains(a, a[i]);
        vstd::seq_lib::to_multiset_contains(b, a[i]);
        assert(a.contains(a[i]));
        let j = choose|j: int| 0 <= j < b.len() && b[j] == a[i];
    }
}

/// `r` is what a lane link `link` leads to within a road: nothing without a
/// link; otherwise the one registered lane of `road`, `section` with that
/// OpenDRIVE id (the latest registered, if several), or nothing if there is
/// none.
pub open spec fn links_within_road(metas: Seq<LaneMeta>, road: Seq<char>, section: usize, link: Option<i32>, r: Seq<LaneId>) -> bool {
    match link {
        None => r.len() == 0,
        Some(o) => if exists|k: int|
            0 <= k < metas.len() && (#[trigger] metas[k]).road@ == road && metas[k].section == section
                && metas[k].od_id == o {
            r.len() == 1 && exists|k: int|
                0 <= k < metas.len() && (#[trigger] metas[k]).road@ == road && metas[k].section == section
                    && metas[k].od_id == o && r[0] == metas[k].id && forall|j: int|
                    k < j < metas.len() ==> !((#[trigger] metas[j]).road@ == road && metas[j].section == section
                        && metas[j].od_id == o)
        } else {
            r.len() == 0
        },
    }
}

proof fn lemma_find_lane_is_latest(metas: Seq<LaneMeta>, road: Seq<char>, section: usize, o: i32)
    ensures
        find_lane(metas, road, section, o) is None ==> forall|k: int|
            0 <= k < metas.len() ==> !((#[trigger] metas[k]).road@ == road && metas[k].section == section
                && metas[k].od_id == o),
        find_lane(metas, road, section, o) matches Some(id) ==> exists|k: int|
            0 <= k < metas.len() && (#[trigger] metas[k]).road@ == road && metas[k].section == section
                && metas[k].od_id == o && id == metas[k].id && forall|j: int|
                k < j < metas.len() ==> !((#[trigger] metas[j]).road@ == road && metas[j].section == section
                    && metas[j].od_id == o),
    decreases metas.len(),
{
    if metas.len() > 0 {
        let init = metas.drop_last();
        lemma_find_lane_is_latest(init, road, section, o);
        let last = metas.len() - 1;
        assert(metas.last() == metas[last]);
        assert forall|k: int| 0 <= k < init.len() implies #[trigger] init[k] == metas[k] by {}
        if find_lane(metas, road, section, o) is Some && !(metas[last].road@ == road && metas[last].section
            == section && metas[last].od_id == o) {
            let k = choose|k: int|
                0 <= k < init.len() && (#[trigger] init[k]).road@ == road && init[k].section == section
                    && init[k].od_id == o && find_lane(init, road, section, o)->0 == init[k].id && forall|j: int|
                    k < j < init.len() ==> !((#[trigger] init[j]).road@ == road && init[j].section == section
                        && init[j].od_id == o);
            assert(metas[k] == init[k]);
            assert forall|j: int| k < j < metas.len() implies !((#[trigger] metas[j]).road@ == road && metas[j].section
                == section && metas[j].od_id == o) by {
                if j < last {
                    assert(metas[j] == init[j]);
                }
            }
        }
        if find_lane(metas, road, section, o) is None {
            assert forall|k: int| 0 <= k < metas.len() implies !((#[trigger] metas[k]).road@ == road
                && metas[k].section == section && metas[k].od_id == o) by {
                if k < last {
                    assert(metas[k] == init[k]);
                }
            }
        }
    }
}

/// Within a road a lane's successor is found through the link that points
/// its way: a backward lane leaves at its `-s` end into the previous section
/// through its own predecessor link, a forward lane (before the road's last
/// section) at its `+s` end into the next section through its own successor
/// link; the successor is the registered lane there carrying that id.
pub proof fn lemma_within_road_successors(
    metas: Seq<LaneMeta>,
    roads: Seq<(String, RoadInfo)>,
    junctions: Seq<(String, Vec<JunctionConn>)>,
    meta: LaneMeta,
)
    ensures
        meta.direction == Direction::Backward && meta.section > 0 ==> links_within_road(
            metas,
            meta.road@,
            (meta.section - 1) as usize,
            meta.pred_link,
            successors_of_meta(metas, roads, junctions, meta),
        ),
        meta.direction == Direction::Forward && meta.section < last_section_of(roads, meta.road@) ==> links_within_road(
            metas,
            meta.road@,
            (meta.section + 1) as usize,
            meta.succ_link,
            successors_of_meta(metas, roads, junctions, meta),
        ),
{
    let link = if meta.direction == Direction::Backward {
        meta.pred_link
    } else {
        meta.succ_link
    };
    let section: usize = if meta.direction == Direction::Backward {
        (meta.section - 1) as usize
    } else {
        (meta.section + 1) as usize
    };
    if let Some(o) = link {
        lemma_find_lane_is_latest(metas, meta.road@, section, o);
        if let Some(id) = find_lane(metas, meta.road@, section, o) {
            let k = choose|k: int|
                0 <= k < metas.len() && (#[trigger] metas[k]).road@ == meta.road@ && metas[k].section == section
                    && metas[k].od_id == o && id == metas[k].id && forall|j: int|
                    k < j < metas.len() ==> !((#[trigger] metas[j]).road@ == meta.road@ && metas[j].section == section
                        && metas[j].od_id == o);
            assert(metas[k].road@ == meta.road@ && metas[k].section == section && metas[k].od_id == o);
        }
    }
}

} // verus!
