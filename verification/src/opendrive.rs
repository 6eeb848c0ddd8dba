//! Reading OpenDRIVE connectivity out of a parsed document: decimal lane ids,
//! road and lane `<link>` records, `<junction>` connections, which lanes of a
//! lane section are driving lanes, their center-outward order on each side,
//! and the lane-change neighbors of the lanes emitted on one side.

use vstd::prelude::*;
use crate::lanes::{Direction, LaneId};
use crate::links::{Contact, ElemType, JunctionConn, JunctionConnView, LinkTarget, LinkTargetView};
use crate::xml::{attribute_value, chars_of, child_tagged, children_of, first_child, XmlKind, XmlNode, XmlTree};

verus! {

/// `c` is an ASCII decimal digit.
pub open spec fn is_digit(c: char) -> bool {
    '0' <= c && c <= '9'
}

/// The value of the decimal digits `s` (most significant first).
pub open spec fn digits_value(s: Seq<char>) -> int
    decreases s.len(),
{
    if s.len() == 0 {
        0
    } else {
        digits_value(s.drop_last()) * 10 + (s.last() as int - '0' as int)
    }
}

/// Every character of `s` is a decimal digit.
pub open spec fn all_digits(s: Seq<char>) -> bool {
    forall|i: int| 0 <= i < s.len() ==> is_digit(#[trigger] s[i])
}

/// The `i32` that `s` spells in decimal, as Rust's `str::parse::<i32>` reads
/// it: an optional `+` or `-`, then one or more digits and nothing else,
/// with a value in `i32`'s range. `None` for anything else.
pub open spec fn decimal_i32(s: Seq<char>) -> Option<i32> {
    let neg = s.len() > 0 && s[0] == '-';
    let body = unsigned_part(s);
    let v = if neg {
        -digits_value(body)
    } else {
        digits_value(body)
    };
    if body.len() == 0 || !all_digits(body) || v < i32::MIN || v > i32::MAX {
        None
    } else {
        Some(v as i32)
    }
}

/// `s` without its leading sign, if it has one.
pub open spec fn unsigned_part(s: Seq<char>) -> Seq<char> {
    if s.len() > 0 && (s[0] == '-' || s[0] == '+') {
        s.drop_first()
    } else {
        s
    }
}

/// Digits never spell a negative value.
proof fn lemma_digits_nonneg(s: Seq<char>)
    requires
        all_digits(s),
    ensures
        digits_value(s) >= 0,
    decreases s.len(),
{
    if s.len() > 0 {
        assert(is_digit(s[s.len() - 1]));
        lemma_digits_nonneg(s.drop_last());
    }
}

/// Parse a decimal `i32` the way `str::parse::<i32>` does.
pub fn parse_i32(text: &str) -> (r: Option<i32>)
    ensures
        r == decimal_i32(text@),
{
    let s = chars_of(text);
    let n = s.len();
    let neg = n > 0 && s[0] == '-';
    let start: usize = if n > 0 && (s[0] == '-' || s[0] == '+') {
        1
    } else {
        0
    };
    let ghost body = s@.skip(start as int);
    assert(body =~= unsigned_part(text@));
    if start == n {
        return None;
    }
    // `acc` is exact until it passes 2^31; past that only "too large" matters.
    let mut acc: i64 = 0;
    let mut big = false;
    let mut i = start;
    while i < n
        invariant
            n == s@.len(),
            s@ == text@,
            body.len() > 0,
            start <= i <= n,
            body == s@.skip(start as int),
            body == unsigned_part(text@),
            all_digits(s@.subrange(start as int, i as int)),
            !big ==> 0 <= acc <= 2147483648 && acc == digits_value(s@.subrange(start as int, i as int)),
            big ==> digits_value(s@.subrange(start as int, i as int)) > 2147483648,
        decreases n - i,
    {
        let c = s[i];
        let ghost prefix = s@.subrange(start as int, i as int);
        let ghost next = s@.subrange(start as int, i + 1);
        assert(next.drop_last() =~= prefix);
        assert(next.last() == c);
        if !('0' <= c && c <= '9') {
            assert(body[i - start] == c);
            assert(!is_digit(body[i - start]));
            assert(!all_digits(body));
            return None;
        }
        assert(all_digits(next)) by {
            assert forall|m: int| 0 <= m < next.len() implies is_digit(#[trigger] next[m]) by {
                if m < prefix.len() {
                    assert(next[m] == prefix[m]);
                }
            }
        }
        let d = (c as u32 - '0' as u32) as i64;
        if !big {
            acc = acc * 10 + d;
            if acc > 2147483648 {
                big = true;
            }
        } else {
            proof {
                lemma_digits_nonneg(prefix);
            }
        }
        i = i + 1;
    }
    assert(s@.subrange(start as int, n as int) =~= body);
    if big {
        return None;
    }
    let v: i64 = if neg {
        -acc
    } else {
        acc
    };
    if v < -2147483648 || v > 2147483647 {
        None
    } else {
        Some(v as i32)
    }
}

/// The value of node `k`'s attribute `name`.
pub open spec fn attr(nodes: Seq<XmlNode>, k: int, name: Seq<char>) -> Option<Seq<char>> {
    attribute_value(nodes[k].attributes@, name)
}

/// An optional attribute value read as a decimal `i32`.
pub open spec fn attr_i32(nodes: Seq<XmlNode>, k: int, name: Seq<char>) -> Option<i32> {
    match attr(nodes, k, name) {
        Some(text) => decimal_i32(text),
        None => None,
    }
}

/// Which end a link attaches to: `contactPoint="end"` is the end; anything
/// else, or no attribute, the start.
pub open spec fn contact_spec(nodes: Seq<XmlNode>, k: int) -> Contact {
    if attr(nodes, k, "contactPoint"@) == Some("end"@) {
        Contact::End
    } else {
        Contact::Start
    }
}

/// The road-level link target that element `k` describes: a junction when
/// `elementType="junction"`, a road otherwise; no target without an
/// `elementId`.
pub open spec fn target_spec(nodes: Seq<XmlNode>, k: int) -> Option<LinkTargetView> {
    match attr(nodes, k, "elementId"@) {
        None => None,
        Some(id) => Some(
            LinkTargetView {
                elem: if attr(nodes, k, "elementType"@) == Some("junction"@) {
                    ElemType::Junction
                } else {
                    ElemType::Road
                },
                id,
                contact: contact_spec(nodes, k),
            },
        ),
    }
}

/// The `tag` (`predecessor` or `successor`) target in the first `<link>` of
/// road `road`.
pub open spec fn road_link_spec(nodes: Seq<XmlNode>, road: int, tag: Seq<char>) -> Option<LinkTargetView> {
    match first_child(nodes, road, "link"@) {
        None => None,
        Some(link) => match first_child(nodes, link as int, tag) {
            None => None,
            Some(t) => target_spec(nodes, t as int),
        },
    }
}

/// The lane id in the `tag` (`predecessor` or `successor`) entry of the first
/// `<link>` of lane `lane`.
pub open spec fn lane_link_spec(nodes: Seq<XmlNode>, lane: int, tag: Seq<char>) -> Option<i32> {
    match first_child(nodes, lane, "link"@) {
        None => None,
        Some(link) => match first_child(nodes, link as int, tag) {
            None => None,
            Some(t) => attr_i32(nodes, t as int, "id"@),
        },
    }
}

/// An optional link target taken as text.
pub open spec fn target_view(t: Option<LinkTarget>) -> Option<LinkTargetView> {
    match t {
        Some(t) => Some(t@),
        None => None,
    }
}

/// The `from -> to` pairs of the `<laneLink>` elements `links`, skipping any
/// whose ids are missing or not decimal.
pub open spec fn lane_links_spec(nodes: Seq<XmlNode>, links: Seq<usize>) -> Seq<(i32, i32)>
    decreases links.len(),
{
    if links.len() == 0 {
        seq![]
    } else {
        let rest = lane_links_spec(nodes, links.drop_last());
        let l = links.last() as int;
        match (attr_i32(nodes, l, "from"@), attr_i32(nodes, l, "to"@)) {
            (Some(f), Some(t)) => rest.push((f, t)),
            _ => rest,
        }
    }
}

/// The `<connection>` elements `conns`, skipping any without an incoming or
/// a connecting road.
pub open spec fn connections_spec(nodes: Seq<XmlNode>, conns: Seq<usize>) -> Seq<JunctionConnView>
    decreases conns.len(),
{
    if conns.len() == 0 {
        seq![]
    } else {
        let rest = connections_spec(nodes, conns.drop_last());
        let c = conns.last() as int;
        match (attr(nodes, c, "incomingRoad"@), attr(nodes, c, "connectingRoad"@)) {
            (Some(incoming), Some(connecting)) => rest.push(
                JunctionConnView {
                    incoming_road: incoming,
                    connecting_road: connecting,
                    contact: contact_spec(nodes, c),
                    lane_links: lane_links_spec(nodes, children_of(nodes, c, "laneLink"@)),
                },
            ),
            _ => rest,
        }
    }
}

/// The `<junction>` elements `js` as (id, connections), skipping any without
/// an id.
pub open spec fn junctions_spec(nodes: Seq<XmlNode>, js: Seq<usize>) -> Seq<(Seq<char>, Seq<JunctionConnView>)>
    decreases js.len(),
{
    if js.len() == 0 {
        seq![]
    } else {
        let rest = junctions_spec(nodes, js.drop_last());
        let j = js.last() as int;
        match attr(nodes, j, "id"@) {
            Some(id) => rest.push((id, connections_spec(nodes, children_of(nodes, j, "connection"@)))),
            None => rest,
        }
    }
}

/// Junction records taken as text.
pub open spec fn junction_entries_view(v: Seq<(String, Vec<JunctionConn>)>) -> Seq<(Seq<char>, Seq<JunctionConnView>)> {
    v.map_values(|e: (String, Vec<JunctionConn>)| (e.0@, e.1@.map_values(|c: JunctionConn| c@)))
}

/// Whether `v` is the text `lit`.
fn text_is(v: &String, lit: &str) -> (r: bool)
    ensures
        r == (v@ == lit@),
{
    let t = lit.to_owned();
    *v == t
}

/// Whether node `k`'s attribute `name` is the text `lit`.
fn attr_is(tree: &XmlTree, k: usize, name: &str, lit: &str) -> (r: bool)
    requires
        k < tree.nodes().len(),
    ensures
        r == (attr(tree.nodes(), k as int, name@) == Some(lit@)),
{
    match tree.attribute(k, name) {
        Some(v) => text_is(v, lit),
        None => false,
    }
}

/// Node `k`'s attribute `name` read as a decimal `i32`.
fn attr_decimal(tree: &XmlTree, k: usize, name: &str) -> (r: Option<i32>)
    requires
        k < tree.nodes().len(),
    ensures
        r == attr_i32(tree.nodes(), k as int, name@),
{
    match tree.attribute(k, name) {
        Some(v) => parse_i32(v.as_str()),
        None => None,
    }
}

/// Node `k`'s attribute `name`, copied out.
fn attr_text(tree: &XmlTree, k: usize, name: &str) -> (r: Option<String>)
    requires
        k < tree.nodes().len(),
    ensures
        match r {
            Some(v) => attr(tree.nodes(), k as int, name@) == Some(v@),
            None => attr(tree.nodes(), k as int, name@) is None,
        },
{
    match tree.attribute(k, name) {
        Some(v) => Some(v.clone()),
        None => None,
    }
}

/// Which end of its target a link element attaches to.
pub fn contact_of(tree: &XmlTree, k: usize) -> (r: Contact)
    requires
        k < tree.nodes().len(),
    ensures
        r == contact_spec(tree.nodes(), k as int),
{
    if attr_is(tree, k, "contactPoint", "end") {
        Contact::End
    } else {
        Contact::Start
    }
}

/// The road-level target described by the link element `k`.
fn link_target(tree: &XmlTree, k: usize) -> (r: Option<LinkTarget>)
    requires
        k < tree.nodes().len(),
    ensures
        target_view(r) == target_spec(tree.nodes(), k as int),
{
    let elem = if attr_is(tree, k, "elementType", "junction") {
        ElemType::Junction
    } else {
        ElemType::Road
    };
    match attr_text(tree, k, "elementId") {
        None => None,
        Some(id) => Some(LinkTarget { elem, id, contact: contact_of(tree, k) }),
    }
}

/// A road's `<link>` predecessor and successor targets.
pub fn road_link(tree: &XmlTree, road: usize) -> (r: (Option<LinkTarget>, Option<LinkTarget>))
    requires
        road < tree.nodes().len(),
    ensures
        target_view(r.0) == road_link_spec(tree.nodes(), road as int, "predecessor"@),
        target_view(r.1) == road_link_spec(tree.nodes(), road as int, "successor"@),
{
    match tree.child(road, "link") {
        None => (None, None),
        Some(link) => {
            let pred = match tree.child(link, "predecessor") {
                None => None,
                Some(t) => {
                    link_target(tree, t)
                },
            };
            let succ = match tree.child(link, "successor") {
                None => None,
                Some(t) => {
                    link_target(tree, t)
                },
            };
            (pred, succ)
        },
    }
}

/// A lane's `<link>` predecessor and successor lane ids.
pub fn lane_link(tree: &XmlTree, lane: usize) -> (r: (Option<i32>, Option<i32>))
    requires
        lane < tree.nodes().len(),
    ensures
        r.0 == lane_link_spec(tree.nodes(), lane as int, "predecessor"@),
        r.1 == lane_link_spec(tree.nodes(), lane as int, "successor"@),
{
    match tree.child(lane, "link") {
        None => (None, None),
        Some(link) => {
            let pred = match tree.child(link, "predecessor") {
                None => None,
                Some(t) => {
                    attr_decimal(tree, t, "id")
                },
            };
            let succ = match tree.child(link, "successor") {
                None => None,
                Some(t) => {
                    attr_decimal(tree, t, "id")
                },
            };
            (pred, succ)
        },
    }
}

/// The `from -> to` pairs of the `<laneLink>` children of connection `c`.
fn lane_links(tree: &XmlTree, c: usize) -> (r: Vec<(i32, i32)>)
    requires
        c < tree.nodes().len(),
    ensures
        r@ == lane_links_spec(tree.nodes(), children_of(tree.nodes(), c as int, "laneLink"@)),
{
    let ls = tree.children_named(c, "laneLink");
    let mut out: Vec<(i32, i32)> = Vec::new();
    let mut i: usize = 0;
    while i < ls.len()
        invariant
            i <= ls@.len(),
            forall|a: int| 0 <= a < ls@.len() ==> #[trigger] ls@[a] < tree.nodes().len(),
            out@ == lane_links_spec(tree.nodes(), ls@.take(i as int)),
        decreases ls@.len() - i,
    {
        let l = ls[i];
        assert(ls@.take(i + 1).drop_last() =~= ls@.take(i as int));
        assert(ls@.take(i + 1).last() == l);
        let from = attr_decimal(tree, l, "from");
        let to = attr_decimal(tree, l, "to");
        match (from, to) {
            (Some(f), Some(t)) => {
                out.push((f, t));
            },
            _ => {},
        }
        i = i + 1;
    }
    assert(ls@.take(i as int) =~= ls@);
    out
}

/// The `<connection>` children of junction `j` that name both roads.
fn connections(tree: &XmlTree, j: usize) -> (r: Vec<JunctionConn>)
    requires
        j < tree.nodes().len(),
    ensures
        r@.map_values(|c: JunctionConn| c@) == connections_spec(tree.nodes(), children_of(tree.nodes(), j as int, "connection"@)),
{
    let cs = tree.children_named(j, "connection");
    let mut out: Vec<JunctionConn> = Vec::new();
    let mut i: usize = 0;
    while i < cs.len()
        invariant
            i <= cs@.len(),
            forall|a: int| 0 <= a < cs@.len() ==> #[trigger] cs@[a] < tree.nodes().len(),
            out@.map_values(|c: JunctionConn| c@) == connections_spec(tree.nodes(), cs@.take(i as int)),
        decreases cs@.len() - i,
    {
        let c = cs[i];
        assert(cs@.take(i + 1).drop_last() =~= cs@.take(i as int));
        assert(cs@.take(i + 1).last() == c);
        let incoming = attr_text(tree, c, "incomingRoad");
        let connecting = attr_text(tree, c, "connectingRoad");
        match (incoming, connecting) {
            (Some(incoming_road), Some(connecting_road)) => {
                let conn = JunctionConn {
                    incoming_road,
                    connecting_road,
                    contact: contact_of(tree, c),
                    lane_links: lane_links(tree, c),
                };
                let ghost before = out@;
                out.push(conn);
                assert(out@.map_values(|c: JunctionConn| c@) =~= before.map_values(|c: JunctionConn| c@).push(conn@));
            },
            _ => {},
        }
        i = i + 1;
    }
    assert(cs@.take(i as int) =~= cs@);
    out
}

/// Every `<junction>` child of `root` that has an id, as (id, connections),
/// in document order. A later junction under an id already seen replaces the
/// earlier one when looked up.
pub fn junctions(tree: &XmlTree, root: usize) -> (r: Vec<(String, Vec<JunctionConn>)>)
    requires
        root < tree.nodes().len(),
    ensures
        junction_entries_view(r@) == junctions_spec(tree.nodes(), children_of(tree.nodes(), root as int, "junction"@)),
{
    let js = tree.children_named(root, "junction");
    let mut out: Vec<(String, Vec<JunctionConn>)> = Vec::new();
    let mut i: usize = 0;
    while i < js.len()
        invariant
            i <= js@.len(),
            forall|a: int| 0 <= a < js@.len() ==> #[trigger] js@[a] < tree.nodes().len(),
            junction_entries_view(out@) == junctions_spec(tree.nodes(), js@.take(i as int)),
        decreases js@.len() - i,
    {
        let j = js[i];
        assert(js@.take(i + 1).drop_last() =~= js@.take(i as int));
        assert(js@.take(i + 1).last() == j);
        match attr_text(tree, j, "id") {
            Some(id) => {
                let conns = connections(tree, j);
                let ghost before = out@;
                let ghost entry = (id@, conns@.map_values(|c: JunctionConn| c@));
                out.push((id, conns));
                assert(junction_entries_view(out@) =~= junction_entries_view(before).push(entry));
            },
            None => {},
        }
        i = i + 1;
    }
    assert(js@.take(i as int) =~= js@);
    out
}

/// A driving lane found in a lane section, before its geometry is sampled:
/// its node, its OpenDRIVE id and its lane-level link ids.
#[derive(Debug, Clone, Copy, PartialEq, Eq, Structural)]
pub struct LaneCandidate {
    pub node: usize,
    pub od_id: i32,
    pub pred_link: Option<i32>,
    pub succ_link: Option<i32>,
}

/// The `<lane>` elements `lanes` that are `type="driving"` with a decimal id.
pub open spec fn side_candidates(nodes: Seq<XmlNode>, lanes: Seq<usize>) -> Seq<LaneCandidate>
    decreases lanes.len(),
{
    if lanes.len() == 0 {
        seq![]
    } else {
        let rest = side_candidates(nodes, lanes.drop_last());
        let l = lanes.last() as int;
        if attr(nodes, l, "type"@) == Some("driving"@) {
            match attr_i32(nodes, l, "id"@) {
                Some(id) => rest.push(
                    LaneCandidate {
                        node: l as usize,
                        od_id: id,
                        pred_link: lane_link_spec(nodes, l, "predecessor"@),
                        succ_link: lane_link_spec(nodes, l, "successor"@),
                    },
                ),
                None => rest,
            }
        } else {
            rest
        }
    }
}

/// The driving lanes under a section's first `side` (`left` or `right`)
/// element.
pub open spec fn side_spec(nodes: Seq<XmlNode>, section: int, side: Seq<char>) -> Seq<LaneCandidate> {
    match first_child(nodes, section, side) {
        None => seq![],
        Some(s) => side_candidates(nodes, children_of(nodes, s as int, "lane"@)),
    }
}

/// A lane section's driving lanes: those under `<left>`, then those under
/// `<right>`, each in document order.
pub open spec fn section_candidates(nodes: Seq<XmlNode>, section: int) -> Seq<LaneCandidate> {
    side_spec(nodes, section, "left"@) + side_spec(nodes, section, "right"@)
}

/// `c` stands for a `<lane>` element of type `driving`, with the decimal id
/// and lane links it carries.
pub open spec fn is_driving_lane(nodes: Seq<XmlNode>, c: LaneCandidate) -> bool {
    &&& c.node < nodes.len()
    &&& nodes[c.node as int].kind == XmlKind::Element
    &&& nodes[c.node as int].tag@ == "lane"@
    &&& attribute_value(nodes[c.node as int].attributes@, "type"@) == Some("driving"@)
    &&& match attribute_value(nodes[c.node as int].attributes@, "id"@) {
        Some(text) => decimal_i32(text) == Some(c.od_id),
        None => false,
    }
    &&& c.pred_link == lane_link_spec(nodes, c.node as int, "predecessor"@)
    &&& c.succ_link == lane_link_spec(nodes, c.node as int, "successor"@)
}

/// Every driving-lane candidate read from `<lane>` elements is a `<lane>` of
/// type `driving` with a decimal id: no lane of another type is taken.
proof fn lemma_side_candidates_are_driving(nodes: Seq<XmlNode>, lanes: Seq<usize>)
    requires
        forall|i: int|
            0 <= i < lanes.len() ==> #[trigger] lanes[i] < nodes.len() && nodes[lanes[i] as int].kind == XmlKind::Element
                && nodes[lanes[i] as int].tag@ == "lane"@,
    ensures
        forall|i: int|
            0 <= i < side_candidates(nodes, lanes).len() ==> is_driving_lane(
                nodes,
                #[trigger] side_candidates(nodes, lanes)[i],
            ),
    decreases lanes.len(),
{
    if lanes.len() > 0 {
        let init = lanes.drop_last();
        assert forall|i: int| 0 <= i < init.len() implies #[trigger] init[i] < nodes.len() && nodes[init[i] as int].kind
            == XmlKind::Element && nodes[init[i] as int].tag@ == "lane"@ by {
            assert(init[i] == lanes[i]);
        }
        lemma_side_candidates_are_driving(nodes, init);
        assert(lanes.last() == lanes[lanes.len() - 1]);
        let rest = side_candidates(nodes, init);
        let all = side_candidates(nodes, lanes);
        assert forall|i: int| 0 <= i < all.len() implies is_driving_lane(nodes, #[trigger] all[i]) by {
            if i < rest.len() {
                assert(all[i] == rest[i]);
            } else {
                let l = lanes.last() as int;
                assert(l < nodes.len());
                assert(all[i].node == l as usize);
            }
        }
    }
}

/// The driving lanes a section yields are all `<lane>` elements of type
/// `driving` with a decimal id.
pub proof fn lemma_section_candidates_are_driving(nodes: Seq<XmlNode>, section: int)
    requires
        nodes.len() <= usize::MAX,
    ensures
        forall|i: int|
            0 <= i < section_candidates(nodes, section).len() ==> is_driving_lane(
                nodes,
                #[trigger] section_candidates(nodes, section)[i],
            ),
{
    let l = side_spec(nodes, section, "left"@);
    let r = side_spec(nodes, section, "right"@);
    assert forall|side: Seq<char>|
        #![trigger side_spec(nodes, section, side)]
        true implies forall|i: int|
            0 <= i < side_spec(nodes, section, side).len() ==> is_driving_lane(
                nodes,
                #[trigger] side_spec(nodes, section, side)[i],
            ) by {
        match first_child(nodes, section, side) {
            None => {},
            Some(s) => {
                let ls = children_of(nodes, s as int, "lane"@);
                crate::xml::lemma_children_exactly(nodes, s as int, "lane"@, nodes.len() as int);
                lemma_side_candidates_are_driving(nodes, ls);
            },
        }
    }
    assert forall|i: int| 0 <= i < (l + r).len() implies is_driving_lane(nodes, #[trigger] (l + r)[i]) by {
        if i < l.len() {
            assert((l + r)[i] == l[i]);
        } else {
            assert((l + r)[i] == r[i - l.len()]);
        }
    }
}

/// Every listed `<lane>` of type `driving` with a decimal id yields a
/// candidate for that node.
proof fn lemma_side_candidates_complete(nodes: Seq<XmlNode>, lanes: Seq<usize>)
    ensures
        forall|a: int|
            0 <= a < lanes.len() && attr(nodes, #[trigger] lanes[a] as int, "type"@) == Some("driving"@) && attr_i32(
                nodes,
                lanes[a] as int,
                "id"@,
            ) is Some ==> exists|i: int|
                0 <= i < side_candidates(nodes, lanes).len() && (#[trigger] side_candidates(nodes, lanes)[i]).node
                    == lanes[a],
    decreases lanes.len(),
{
    if lanes.len() > 0 {
        let init = lanes.drop_last();
        lemma_side_candidates_complete(nodes, init);
        let rest = side_candidates(nodes, init);
        let all = side_candidates(nodes, lanes);
        let l = lanes.last() as int;
        assert forall|a: int|
            0 <= a < lanes.len() && attr(nodes, #[trigger] lanes[a] as int, "type"@) == Some("driving"@) && attr_i32(
                nodes,
                lanes[a] as int,
                "id"@,
            ) is Some implies exists|i: int| 0 <= i < all.len() && (#[trigger] all[i]).node == lanes[a] by {
            if a < lanes.len() - 1 {
                assert(init[a] == lanes[a]);
                let i = choose|i: int| 0 <= i < rest.len() && (#[trigger] rest[i]).node == init[a];
                assert(all[i] == rest[i]);
            } else {
                assert(all[rest.len() as int].node == l as usize);
            }
        }
    }
}

/// No driving lane is dropped: a `<lane>` child of a section's first
/// `<left>` or `<right>` element, of type `driving` and with a decimal id,
/// is among the section's candidates.
pub proof fn lemma_section_driving_lanes_complete(nodes: Seq<XmlNode>, section: int, side: Seq<char>, s: usize, j: int)
    requires
        nodes.len() <= usize::MAX,
        side == "left"@ || side == "right"@,
        first_child(nodes, section, side) == Some(s),
        0 <= j < nodes.len(),
        child_tagged(nodes, s as int, j, "lane"@),
        attribute_value(nodes[j].attributes@, "type"@) == Some("driving"@),
        attribute_value(nodes[j].attributes@, "id"@) matches Some(text) && decimal_i32(text) is Some,
    ensures
        exists|i: int|
            0 <= i < section_candidates(nodes, section).len() && (#[trigger] section_candidates(nodes, section)[i]).node
                == j,
{
    let ls = children_of(nodes, s as int, "lane"@);
    crate::xml::lemma_children_exactly(nodes, s as int, "lane"@, nodes.len() as int);
    assert(ls.contains(j as usize));
    let a = choose|a: int| 0 <= a < ls.len() && ls[a] == j as usize;
    lemma_side_candidates_complete(nodes, ls);
    assert(attr(nodes, ls[a] as int, "type"@) == Some("driving"@));
    assert(attr_i32(nodes, ls[a] as int, "id"@) is Some);
    let part = side_candidates(nodes, ls);
    let i = choose|i: int| 0 <= i < part.len() && (#[trigger] part[i]).node == ls[a];
    let l = side_spec(nodes, section, "left"@);
    let r = side_spec(nodes, section, "right"@);
    let sc = section_candidates(nodes, section);
    assert(sc == l + r);
    if side == "left"@ {
        assert(l == part);
        assert(sc[i] == l[i]);
        assert(sc[i].node == j);
    } else {
        assert(r == part);
        assert(sc[l.len() + i] == r[i]);
        assert(sc[l.len() + i].node == j);
    }
}

/// The driving lanes under one side element.
fn side_lanes(tree: &XmlTree, side: usize) -> (r: Vec<LaneCandidate>)
    requires
        side < tree.nodes().len(),
    ensures
        r@ == side_candidates(tree.nodes(), children_of(tree.nodes(), side as int, "lane"@)),
{
    let ls = tree.children_named(side, "lane");
    let mut out: Vec<LaneCandidate> = Vec::new();
    let mut i: usize = 0;
    while i < ls.len()
        invariant
            i <= ls@.len(),
            forall|a: int| 0 <= a < ls@.len() ==> #[trigger] ls@[a] < tree.nodes().len(),
            out@ == side_candidates(tree.nodes(), ls@.take(i as int)),
        decreases ls@.len() - i,
    {
        let l = ls[i];
        assert(ls@.take(i + 1).drop_last() =~= ls@.take(i as int));
        assert(ls@.take(i + 1).last() == l);
        if attr_is(tree, l, "type", "driving") {
            match attr_decimal(tree, l, "id") {
                Some(od_id) => {
                    let (pred_link, succ_link) = lane_link(tree, l);
                    out.push(LaneCandidate { node: l, od_id, pred_link, succ_link });
                },
                None => {},
            }
        }
        i = i + 1;
    }
    assert(ls@.take(i as int) =~= ls@);
    out
}

/// The driving lanes of a lane section: those under `<left>`, then those
/// under `<right>`, each in document order. A lane must be
/// `type="driving"` and carry a decimal id.
pub fn driving_lanes(tree: &XmlTree, section: usize) -> (r: Vec<LaneCandidate>)
    requires
        section < tree.nodes().len(),
    ensures
        r@ == section_candidates(tree.nodes(), section as int),
        forall|i: int| 0 <= i < r@.len() ==> is_driving_lane(tree.nodes(), #[trigger] r@[i]),
{
    let _node_count = tree.len();
    proof {
        lemma_section_candidates_are_driving(tree.nodes(), section as int);
    }
    let mut left = match tree.child(section, "left") {
        Some(s) => side_lanes(tree, s),
        None => Vec::new(),
    };
    let mut right = match tree.child(section, "right") {
        Some(s) => side_lanes(tree, s),
        None => Vec::new(),
    };
    left.append(&mut right);
    left
}

/// How far a lane sits from the center: the magnitude of its id.
pub open spec fn side_key(id: i32) -> int {
    if id >= 0 {
        id as int
    } else {
        -(id as int)
    }
}

/// How far a lane sits from the center, as an integer.
fn distance_from_center(id: i32) -> (r: i64)
    ensures
        r == side_key(id),
{
    if id >= 0 {
        id as i64
    } else {
        -(id as i64)
    }
}

/// Lane `a` comes before lane `b` going outward from the center: it is
/// nearer the center, or as near and listed earlier.
pub open spec fn outward_before(ids: Seq<i32>, a: usize, b: usize) -> bool {
    side_key(ids[a as int]) < side_key(ids[b as int]) || (side_key(ids[a as int]) == side_key(ids[b as int]) && a < b)
}

/// Lane `k` is on the left (positive id) or the right (negative id) side.
pub open spec fn on_side(ids: Seq<i32>, k: int, left: bool) -> bool {
    if left {
        ids[k] > 0
    } else {
        ids[k] < 0
    }
}

/// `r` lists the positions of the lanes on one side of `ids`, each once,
/// ordered from the center outward (ties in listing order).
pub open spec fn is_center_outward(ids: Seq<i32>, r: Seq<usize>, left: bool) -> bool {
    &&& forall|i: int| 0 <= i < r.len() ==> #[trigger] r[i] < ids.len() && on_side(ids, r[i] as int, left)
    &&& forall|k: int| 0 <= k < ids.len() && on_side(ids, k, left) ==> r.contains(k as usize)
    &&& forall|a: int, b: int| 0 <= a < b < r.len() ==> outward_before(ids, r[a], r[b])
}

/// The positions of the lanes on one side (`left`: positive ids; otherwise
/// negative ids), ordered from the center outward: 1, 2, 3, ... on the left
/// and -1, -2, -3, ... on the right; lanes with equal ids keep their order.
/// A lane with id 0 (the reference line) is on neither side.
pub fn center_outward(ids: &[i32], left: bool) -> (r: Vec<usize>)
    ensures
        is_center_outward(ids@, r@, left),
{
    let mut r: Vec<usize> = Vec::new();
    let mut i: usize = 0;
    while i < ids.len()
        invariant
            i <= ids@.len(),
            forall|m: int| 0 <= m < r@.len() ==> #[trigger] r@[m] < i && on_side(ids@, r@[m] as int, left),
            forall|k: int| 0 <= k < i && on_side(ids@, k, left) ==> r@.contains(k as usize),
            forall|a: int, b: int| 0 <= a < b < r@.len() ==> outward_before(ids@, r@[a], r@[b]),
        decreases ids@.len() - i,
    {
        let id = ids[i];
        let chosen = if left {
            id > 0
        } else {
            id < 0
        };
        if chosen {
            let key = distance_from_center(id);
            let mut q: usize = 0;
            while q < r.len() && distance_from_center(ids[r[q]]) <= key
                invariant
                    i < ids@.len(),
                    q <= r@.len(),
                    key == side_key(ids@[i as int]),
                    forall|m: int| 0 <= m < r@.len() ==> #[trigger] r@[m] < i,
                    forall|m: int| 0 <= m < q ==> side_key(ids@[r@[m] as int]) <= key,
                decreases r@.len() - q,
            {
                q = q + 1;
            }
            let ghost before = r@;
            r.insert(q, i);
            proof {
                assert forall|a: int, b: int| 0 <= a < b < r@.len() implies outward_before(ids@, r@[a], r@[b]) by {
                    if b == q {
                        assert(r@[a] == before[a]);
                    } else if a == q {
                        assert(r@[b] == before[b - 1]);
                        assert(side_key(ids@[before[q as int] as int]) > key);
                        if b - 1 > q {
                            assert(outward_before(ids@, before[q as int], before[b - 1]));
                        }
                    } else {
                        let a0 = if a < q { a } else { a - 1 };
                        let b0 = if b < q { b } else { b - 1 };
                        assert(r@[a] == before[a0]);
                        assert(r@[b] == before[b0]);
                    }
                }
                assert forall|k: int| 0 <= k < i + 1 && on_side(ids@, k, left) implies r@.contains(k as usize) by {
                    if k < i {
                        let m = choose|m: int| 0 <= m < before.len() && before[m] == k as usize;
                        if m < q {
                            assert(r@[m] == k as usize);
                        } else {
                            assert(r@[m + 1] == k as usize);
                        }
                    } else {
                        assert(r@[q as int] == i);
                    }
                }
                assert forall|m: int| 0 <= m < r@.len() implies #[trigger] r@[m] < i + 1 && on_side(ids@, r@[m] as int, left) by {
                    if m < q {
                        assert(r@[m] == before[m]);
                    } else if m > q {
                        assert(r@[m] == before[m - 1]);
                    }
                }
            }
        }
        i = i + 1;
    }
    r
}

/// The direction a lane is driven in from its id, by the right-hand-traffic
/// convention: left lanes (positive id) run against the reference line,
/// right lanes with it.
pub fn travel_direction(od_id: i32) -> (r: Direction)
    ensures
        r == (if od_id > 0 {
            Direction::Backward
        } else {
            Direction::Forward
        }),
{
    if od_id > 0 {
        Direction::Backward
    } else {
        Direction::Forward
    }
}

/// The lane-change neighbors of lanes emitted side by side (center outward):
/// each lane's inner then outer neighbor, where it has one.
pub open spec fn neighbor_list(emitted: Seq<LaneId>, k: int) -> Seq<LaneId> {
    (if k > 0 {
        seq![emitted[k - 1]]
    } else {
        seq![]
    }) + (if k + 1 < emitted.len() {
        seq![emitted[k + 1]]
    } else {
        seq![]
    })
}

/// For lanes emitted on one side, center outward, the lane-change neighbors
/// of each: consecutive lanes are each other's neighbors.
pub fn lane_change_neighbors(emitted: &[LaneId]) -> (r: Vec<Vec<LaneId>>)
    ensures
        r@.len() == emitted@.len(),
        forall|k: int| 0 <= k < r@.len() ==> (#[trigger] r@[k])@ == neighbor_list(emitted@, k),
{
    let n = emitted.len();
    let mut r: Vec<Vec<LaneId>> = Vec::new();
    let mut k: usize = 0;
    while k < n
        invariant
            n == emitted@.len(),
            k <= n,
            r@.len() == k,
            forall|m: int| 0 <= m < k ==> (#[trigger] r@[m])@ == neighbor_list(emitted@, m),
        decreases n - k,
    {
        let mut nbrs: Vec<LaneId> = Vec::new();
        if k > 0 {
            nbrs.push(emitted[k - 1]);
        }
        if k + 1 < n {
            nbrs.push(emitted[k + 1]);
        }
        assert(nbrs@ =~= neighbor_list(emitted@, k as int));
        r.push(nbrs);
        k = k + 1;
    }
    r
}

/// Lane-change neighborhood is symmetric: among distinct lanes emitted side
/// by side, `b` is a neighbor of `a` exactly when `a` is a neighbor of `b`,
/// and exactly when they are adjacent.
pub proof fn lemma_neighbors_symmetric(emitted: Seq<LaneId>, a: int, b: int)
    requires
        0 <= a < emitted.len(),
        0 <= b < emitted.len(),
        forall|i: int, j: int| 0 <= i < j < emitted.len() ==> emitted[i] != emitted[j],
    ensures
        neighbor_list(emitted, a).contains(emitted[b]) <==> neighbor_list(emitted, b).contains(emitted[a]),
        neighbor_list(emitted, a).contains(emitted[b]) <==> (a == b + 1 || b == a + 1),
{
    let la = neighbor_list(emitted, a);
    let lb = neighbor_list(emitted, b);
    if la.contains(emitted[b]) {
        let i = choose|i: int| 0 <= i < la.len() && la[i] == emitted[b];
        if a > 0 && i == 0 {
            assert(emitted[a - 1] == emitted[b]);
        } else {
            assert(emitted[a + 1] == emitted[b]);
        }
    }
    if lb.contains(emitted[a]) {
        let i = choose|i: int| 0 <= i < lb.len() && lb[i] == emitted[a];
        if b > 0 && i == 0 {
            assert(emitted[b - 1] == emitted[a]);
        } else {
            assert(emitted[b + 1] == emitted[a]);
        }
    }
    if a == b + 1 {
        assert(la[0] == emitted[b]);
        if b + 1 < emitted.len() {
            assert(lb[lb.len() - 1] == emitted[a]);
        }
    }
    if b == a + 1 {
        assert(lb[0] == emitted[a]);
        assert(la[la.len() - 1] == emitted[b]);
    }
}

} // verus!
