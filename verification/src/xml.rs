//! Reading an OpenDRIVE document: making real-world text parseable, parsing
//! it into a flat list of nodes, and querying that list as a tree.

use vstd::prelude::*;
use roxmltree::NodeType;

verus! {

/// The characters of `s`, in order.
pub fn chars_of(s: &str) -> (r: Vec<char>)
    ensures
        r@ == s@,
{
    let mut r: Vec<char> = Vec::new();
    for c in iter: s.chars()
        invariant
            r@ == iter.seq().take(iter.index() as int),
    {
        r.push(c);
    }
    r
}

/// The byte-order mark a document may start with (possibly more than once).
pub const BOM: char = '\u{feff}';

/// `s` with every leading byte-order mark removed.
pub open spec fn strip_boms(s: Seq<char>) -> Seq<char>
    decreases s.len(),
{
    if s.len() > 0 && s[0] == BOM {
        strip_boms(s.drop_first())
    } else {
        s
    }
}

/// `pat` occurs in `s` starting at `i`.
pub open spec fn occurs_at(s: Seq<char>, pat: Seq<char>, i: int) -> bool {
    0 <= i && i + pat.len() <= s.len() && s.subrange(i, i + pat.len()) == pat
}

/// `i` is the first position at or after `from` where `pat` occurs.
pub open spec fn is_first_from(s: Seq<char>, pat: Seq<char>, from: int, i: int) -> bool {
    from <= i && occurs_at(s, pat, i) && forall|j: int| from <= j < i ==> !occurs_at(s, pat, j)
}

/// The first position at or after `from` where `pat` occurs, if any.
pub open spec fn first_from(s: Seq<char>, pat: Seq<char>, from: int) -> Option<int> {
    if exists|i: int| from <= i && occurs_at(s, pat, i) {
        Some(choose|i: int| is_first_from(s, pat, from, i))
    } else {
        None
    }
}

/// The opening of an XML declaration.
pub open spec fn decl_open() -> Seq<char> {
    seq!['<', '?', 'x', 'm', 'l']
}

/// The end of a processing instruction.
pub open spec fn decl_close() -> Seq<char> {
    seq!['?', '>']
}

/// A real-world document made parseable: leading byte-order marks stripped,
/// and the first `<?xml ... ?>` declaration removed (from its `<?xml` through
/// the first `?>` after it). Tools emit comments *before* the declaration,
/// which strict parsers reject; the declaration only names version and
/// encoding, which UTF-8 text does not need. Without a complete declaration
/// the text is left as it is.
pub open spec fn sanitized(s: Seq<char>) -> Seq<char> {
    let t = strip_boms(s);
    match first_from(t, decl_open(), 0) {
        Some(start) => match first_from(t, decl_close(), start) {
            Some(end) => t.take(start) + t.skip(end + 2),
            None => t,
        },
        None => t,
    }
}

proof fn lemma_first_unique(s: Seq<char>, pat: Seq<char>, from: int, i: int, j: int)
    requires
        is_first_from(s, pat, from, i),
        is_first_from(s, pat, from, j),
    ensures
        i == j,
{
    if i < j {
        assert(!occurs_at(s, pat, i));
    } else if j < i {
        assert(!occurs_at(s, pat, j));
    }
}

/// Whether `pat` occurs in `s` at `i`.
fn occurs_here(s: &Vec<char>, pat: &[char], i: usize) -> (r: bool)
    ensures
        r == occurs_at(s@, pat@, i as int),
{
    if i > s.len() || pat.len() > s.len() - i {
        return false;
    }
    let n = s.len();
    let mut k: usize = 0;
    while k < pat.len()
        invariant
            n == s@.len(),
            i + pat@.len() <= n,
            k <= pat@.len(),
            forall|m: int| 0 <= m < k ==> s@[i + m] == pat@[m],
        decreases pat@.len() - k,
    {
        if s[i + k] != pat[k] {
            assert(s@.subrange(i as int, i + pat@.len())[k as int] != pat@[k as int]);
            return false;
        }
        k = k + 1;
    }
    assert(s@.subrange(i as int, i + pat@.len()) =~= pat@);
    true
}

/// The first position at or after `from` where `pat` occurs.
fn find_from(s: &Vec<char>, pat: &[char], from: usize) -> (r: Option<usize>)
    requires
        pat@.len() > 0,
    ensures
        r == match first_from(s@, pat@, from as int) {
            Some(i) => Some(i as usize),
            None => None::<usize>,
        },
        r matches Some(i) ==> i < s@.len() && is_first_from(s@, pat@, from as int, i as int),
{
    let mut i = from;
    while i < s.len()
        invariant
            from <= i,
            forall|j: int| from <= j < i ==> !occurs_at(s@, pat@, j),
        decreases s@.len() - i,
    {
        if occurs_here(s, pat, i) {
            proof {
                assert(is_first_from(s@, pat@, from as int, i as int));
                let c = choose|c: int| is_first_from(s@, pat@, from as int, c);
                lemma_first_unique(s@, pat@, from as int, i as int, c);
            }
            return Some(i);
        }
        i = i + 1;
    }
    assert forall|j: int| from <= j implies !occurs_at(s@, pat@, j) by {
        if j >= s@.len() {
        }
    }
    None
}

/// Make a real-world document parseable: strip leading byte-order marks and
/// remove the `<?xml ... ?>` declaration (see `sanitized`).
pub fn sanitize(xml: &str) -> (r: Vec<char>)
    ensures
        r@ == sanitized(xml@),
{
    let all = chars_of(xml);
    let mut k: usize = 0;
    assert(all@.skip(0) =~= all@);
    while k < all.len() && all[k] == BOM
        invariant
            k <= all@.len(),
            strip_boms(all@) == strip_boms(all@.skip(k as int)),
        decreases all@.len() - k,
    {
        assert(all@.skip(k as int).drop_first() =~= all@.skip(k + 1));
        k = k + 1;
    }
    let mut t: Vec<char> = Vec::new();
    let mut m = k;
    while m < all.len()
        invariant
            k <= m <= all@.len(),
            t@ == all@.subrange(k as int, m as int),
        decreases all@.len() - m,
    {
        t.push(all[m]);
        assert(all@.subrange(k as int, m + 1) =~= all@.subrange(k as int, m as int).push(all@[m as int]));
        m = m + 1;
    }
    assert(t@ =~= all@.skip(k as int));
    assert(strip_boms(all@.skip(k as int)) == all@.skip(k as int));
    let open_pat = ['<', '?', 'x', 'm', 'l'];
    let close_pat = ['?', '>'];
    assert(open_pat@ =~= decl_open());
    assert(close_pat@ =~= decl_close());
    match find_from(&t, open_pat.as_slice(), 0) {
        None => t,
        Some(start) => match find_from(&t, close_pat.as_slice(), start) {
            None => t,
            Some(end) => {
                let mut out: Vec<char> = Vec::new();
                let mut a: usize = 0;
                while a < start
                    invariant
                        start <= t@.len(),
                        a <= start,
                        out@ == t@.take(a as int),
                    decreases start - a,
                {
                    out.push(t[a]);
                    assert(t@.take(a + 1) =~= t@.take(a as int).push(t@[a as int]));
                    a = a + 1;
                }
                assert(occurs_at(t@, decl_close(), end as int));
                let mut b: usize = end + 2;
                while b < t.len()
                    invariant
                        start <= t@.len(),
                        end + 2 <= b <= t@.len(),
                        out@ == t@.take(start as int) + t@.subrange(end + 2, b as int),
                    decreases t@.len() - b,
                {
                    out.push(t[b]);
                    assert(t@.subrange(end + 2, b + 1) =~= t@.subrange(end + 2, b as int).push(t@[b as int]));
                    b = b + 1;
                }
                assert(t@.subrange(end + 2, b as int) =~= t@.skip(end + 2));
                out
            },
        },
    }
}

/// The error roxmltree reports for text that is not well-formed XML.
#[verifier::external_type_specification]
#[verifier::external_body]
pub struct ExXmlError(roxmltree::Error);

/// What kind of node an XML node is.
#[derive(Debug, Clone, Copy, PartialEq, Eq, Structural)]
pub enum XmlKind {
    Root,
    Element,
    ProcessingInstruction,
    Comment,
    Text,
}

/// One node of a parsed document: its id (its position in document order),
/// its parent's id, its kind, its local tag name (empty unless an element)
/// and its attributes (local name, value) in document order.
#[derive(Debug, Clone)]
pub struct XmlNode {
    pub id: usize,
    pub parent: Option<usize>,
    pub kind: XmlKind,
    pub tag: String,
    pub attributes: Vec<(String, String)>,
}

/// An `XmlNode` with its strings taken as character sequences.
pub struct XmlNodeView {
    pub id: usize,
    pub parent: Option<usize>,
    pub kind: XmlKind,
    pub tag: Seq<char>,
    pub attributes: Seq<(Seq<char>, Seq<char>)>,
}

impl View for XmlNode {
    type V = XmlNodeView;

    open spec fn view(&self) -> XmlNodeView {
        XmlNodeView {
            id: self.id,
            parent: self.parent,
            kind: self.kind,
            tag: self.tag@,
            attributes: self.attributes@.map_values(|a: (String, String)| (a.0@, a.1@)),
        }
    }
}

/// The nodes (document order) of the XML document `text`, or `None` when the
/// text is not well-formed XML.
pub uninterp spec fn xml_nodes(text: Seq<char>) -> Option<Seq<XmlNodeView>>;

/// Parses `text` with `roxmltree::Document::parse` and lists every node of
/// the document in document order (`descendants` of the root). Claimed: the
/// result is a function of the text alone, named `xml_nodes`, and is an
/// error exactly when that name is `None`. Nothing is claimed about the
/// shape of the node list; the tree built from it checks that itself.
#[verifier::external_body]
fn parse_xml_nodes(text: &[char]) -> (r: Result<Vec<XmlNode>, roxmltree::Error>)
    ensures
        match r {
            Ok(v) => xml_nodes(text@) == Some(v@.map_values(|n: XmlNode| n@)),
            Err(_) => xml_nodes(text@) is None,
        },
{
    let text: String = text.iter().collect();
    let doc = roxmltree::Document::parse(&text)?;
    Ok(doc.descendants().map(|n| XmlNode {
        id: n.id().get_usize(),
        parent: n.parent().map(|p| p.id().get_usize()),
        kind: match n.node_type() {
            NodeType::Root => XmlKind::Root,
            NodeType::Element => XmlKind::Element,
            NodeType::PI => XmlKind::ProcessingInstruction,
            NodeType::Comment => XmlKind::Comment,
            NodeType::Text => XmlKind::Text,
        },
        tag: n.tag_name().name().to_string(),
        attributes: n.attributes().map(|a| (a.name().to_string(), a.value().to_string())).collect(),
    }).collect())
}

/// Why an OpenDRIVE document could not be imported.
#[derive(Debug)]
pub enum ImportError {
    /// The text is not well-formed XML.
    Xml(roxmltree::Error),
    /// Well-formed XML that is not usable OpenDRIVE.
    Malformed(String),
}

/// Node `k` of `v` has id `k`, and every node's parent comes before it: the
/// shape a document's node list has in document order.
pub open spec fn laid_out_as_tree(v: Seq<XmlNodeView>) -> bool {
    forall|k: int| 0 <= k < v.len() ==> #[trigger] v[k].id == k && (v[k].parent matches Some(p) ==> p < k)
}

/// A parsed document as a tree over its node list: node `k` has id `k`, a
/// node's parent comes before it, and `ends[k]` bounds node `k`'s subtree
/// (every child of `k` lies strictly between `k` and `ends[k]`).
pub struct XmlTree {
    nodes: Vec<XmlNode>,
    ends: Vec<usize>,
}

/// `j` is an element child of `p` with local tag name `tag`.
pub open spec fn child_tagged(nodes: Seq<XmlNode>, p: int, j: int, tag: Seq<char>) -> bool {
    0 <= j < nodes.len() && nodes[j].kind == XmlKind::Element && nodes[j].parent == Some(p as usize)
        && nodes[j].tag@ == tag
}

/// The value of the first attribute of `attrs` named `name`.
pub open spec fn attribute_value(attrs: Seq<(String, String)>, name: Seq<char>) -> Option<Seq<char>>
    decreases attrs.len(),
{
    if attrs.len() == 0 {
        None
    } else if attrs[0].0@ == name {
        Some(attrs[0].1@)
    } else {
        attribute_value(attrs.drop_first(), name)
    }
}

/// The element children of `p` tagged `tag` among the first `n` nodes, in
/// document order.
pub open spec fn tagged_below(nodes: Seq<XmlNode>, p: int, tag: Seq<char>, n: int) -> Seq<usize>
    decreases n,
{
    if n <= 0 {
        seq![]
    } else {
        tagged_below(nodes, p, tag, n - 1) + if child_tagged(nodes, p, n - 1, tag) {
            seq![(n - 1) as usize]
        } else {
            seq![]
        }
    }
}

/// All element children of `p` tagged `tag`, in document order.
pub open spec fn children_of(nodes: Seq<XmlNode>, p: int, tag: Seq<char>) -> Seq<usize> {
    tagged_below(nodes, p, tag, nodes.len() as int)
}

/// `j` is the first element child of `p` tagged `tag`.
pub open spec fn is_first_child(nodes: Seq<XmlNode>, p: int, j: int, tag: Seq<char>) -> bool {
    child_tagged(nodes, p, j, tag) && forall|q: int| q < j ==> !child_tagged(nodes, p, q, tag)
}

/// The first element child of `p` tagged `tag`, if it has one.
pub open spec fn first_child(nodes: Seq<XmlNode>, p: int, tag: Seq<char>) -> Option<usize> {
    if exists|j: int| child_tagged(nodes, p, j, tag) {
        Some((choose|j: int| is_first_child(nodes, p, j, tag)) as usize)
    } else {
        None
    }
}

proof fn lemma_first_child_unique(nodes: Seq<XmlNode>, p: int, tag: Seq<char>, i: int, j: int)
    requires
        is_first_child(nodes, p, i, tag),
        is_first_child(nodes, p, j, tag),
    ensures
        i == j,
{
    if i < j {
        assert(!child_tagged(nodes, p, i, tag));
    } else if j < i {
        assert(!child_tagged(nodes, p, j, tag));
    }
}

/// `tagged_below(.., n)` lists, in increasing order, exactly the children
/// below `n`.
pub proof fn lemma_children_exactly(nodes: Seq<XmlNode>, p: int, tag: Seq<char>, n: int)
    requires
        n <= nodes.len(),
        nodes.len() <= usize::MAX,
    ensures
        forall|a: int, b: int| 0 <= a < b < tagged_below(nodes, p, tag, n).len() ==> tagged_below(nodes, p, tag, n)[a]
            < tagged_below(nodes, p, tag, n)[b],
        forall|a: int|
            0 <= a < tagged_below(nodes, p, tag, n).len() ==> child_tagged(
                nodes,
                p,
                #[trigger] tagged_below(nodes, p, tag, n)[a] as int,
                tag,
            ) && tagged_below(nodes, p, tag, n)[a] < n,
        forall|j: int| 0 <= j < n && child_tagged(nodes, p, j, tag) ==> tagged_below(nodes, p, tag, n).contains(j as usize),
    decreases n,
{
    if n > 0 {
        lemma_children_exactly(nodes, p, tag, n - 1);
        let prev = tagged_below(nodes, p, tag, n - 1);
        let cur = tagged_below(nodes, p, tag, n);
        if child_tagged(nodes, p, n - 1, tag) {
            assert(cur == prev.push((n - 1) as usize));
            assert forall|j: int| 0 <= j < n && child_tagged(nodes, p, j, tag) implies cur.contains(j as usize) by {
                if j < n - 1 {
                    let a = choose|a: int| 0 <= a < prev.len() && prev[a] == j as usize;
                    assert(cur[a] == j as usize);
                } else {
                    assert(cur[prev.len() as int] == j as usize);
                }
            }
        } else {
            assert(cur =~= prev);
        }
    }
}

/// Nothing at or before `p` is a child of `p`: a parent precedes its
/// children.
proof fn lemma_none_before_parent(nodes: Seq<XmlNode>, p: int, tag: Seq<char>, n: int)
    requires
        0 <= n <= p + 1,
        0 <= p < nodes.len(),
        nodes.len() <= usize::MAX,
        forall|j: int|
            #![trigger nodes[j].parent]
            0 <= j < nodes.len() && nodes[j].parent is Some ==> nodes[j].parent->0 < j,
    ensures
        tagged_below(nodes, p, tag, n) == Seq::<usize>::empty(),
    decreases n,
{
    if n > 0 {
        lemma_none_before_parent(nodes, p, tag, n - 1);
        assert(!child_tagged(nodes, p, n - 1, tag)) by {
            if nodes[n - 1].parent is Some {
                assert(nodes[n - 1].parent->0 < n - 1);
            }
        }
        assert(tagged_below(nodes, p, tag, n) =~= Seq::<usize>::empty());
    }
}

impl XmlTree {
    /// The document's nodes in document order.
    pub closed spec fn nodes(&self) -> Seq<XmlNode> {
        self.nodes@
    }

    #[verifier::type_invariant]
    closed spec fn well_formed(&self) -> bool {
        &&& self.nodes@.len() <= usize::MAX
        &&& self.ends@.len() == self.nodes@.len()
        &&& forall|k: int| 0 <= k < self.nodes@.len() ==> (#[trigger] self.nodes@[k]).id == k
        &&& forall|k: int|
            0 <= k < self.nodes@.len() ==> k < #[trigger] self.ends@[k] <= self.nodes@.len()
        &&& forall|j: int|
            #![trigger self.nodes@[j].parent]
            0 <= j < self.nodes@.len() && self.nodes@[j].parent is Some ==> {
                let p = self.nodes@[j].parent->0 as int;
                p < j && j < self.ends@[p]
            }
    }

    /// Number of nodes.
    pub fn len(&self) -> (n: usize)
        ensures
            n == self.nodes().len(),
    {
        self.nodes.len()
    }

    /// Build the tree from a node list, or `None` when the list is not laid
    /// out as a document (node `k` must have id `k`, and every parent must
    /// come before its child).
    pub fn from_nodes(nodes: Vec<XmlNode>) -> (r: Option<XmlTree>)
        ensures
            match r {
                Some(t) => t.nodes() == nodes@,
                None => !laid_out_as_tree(nodes@.map_values(|n: XmlNode| n@)),
            },
            r is Some <==> laid_out_as_tree(nodes@.map_values(|n: XmlNode| n@)),
    {
        let n = nodes.len();
        let mut k: usize = 0;
        while k < n
            invariant
                n == nodes@.len(),
                k <= n,
                forall|m: int| 0 <= m < k ==> (#[trigger] nodes@[m]).id == m,
                forall|m: int| 0 <= m < k && nodes@[m].parent is Some ==> (#[trigger] nodes@[m]).parent->0 < m,
            decreases n - k,
        {
            let ghost v = nodes@.map_values(|n: XmlNode| n@);
            assert(v[k as int] == nodes@[k as int]@);
            if nodes[k].id != k {
                assert(v[k as int].id != k);
                assert(!laid_out_as_tree(v));
                return None;
            }
            match nodes[k].parent {
                Some(p) => {
                    if p >= k {
                        assert(v[k as int].parent == Some(p) && v[k as int].id == k);
                        assert(!laid_out_as_tree(v));
                        return None;
                    }
                },
                None => {},
            }
            k = k + 1;
        }
        let ghost w = nodes@.map_values(|n: XmlNode| n@);
        assert forall|m: int| 0 <= m < w.len() implies #[trigger] w[m].id == m && (w[m].parent matches Some(p) ==> p < m) by {
            assert(w[m] == nodes@[m]@);
        }
        let mut ends: Vec<usize> = Vec::new();
        let mut m: usize = 0;
        while m < n
            invariant
                n == nodes@.len(),
                m <= n,
                ends@.len() == m,
                forall|q: int| 0 <= q < m ==> #[trigger] ends@[q] == q + 1,
            decreases n - m,
        {
            ends.push(m + 1);
            m = m + 1;
        }
        let mut j = n;
        while j > 0
            invariant
                n == nodes@.len(),
                j <= n,
                ends@.len() == n,
                forall|q: int| 0 <= q < n ==> (#[trigger] nodes@[q]).id == q,
                forall|q: int| 0 <= q < n && nodes@[q].parent is Some ==> (#[trigger] nodes@[q]).parent->0 < q,
                forall|q: int| 0 <= q < n ==> q < #[trigger] ends@[q] <= n,
                forall|q: int|
                    #![trigger nodes@[q].parent]
                    j <= q < n && nodes@[q].parent is Some ==> q < ends@[nodes@[q].parent->0 as int],
            decreases j,
        {
            j = j - 1;
            match nodes[j].parent {
                Some(p) => {
                    if ends[j] > ends[p] {
                        let e = ends[j];
                        ends.set(p, e);
                    }
                },
                None => {},
            }
        }
        Some(XmlTree { nodes, ends })
    }

    /// The local tag name of node `k`.
    pub fn tag(&self, k: usize) -> (r: &String)
        requires
            k < self.nodes().len(),
        ensures
            *r == self.nodes()[k as int].tag,
    {
        &self.nodes[k].tag
    }

    /// The value of node `k`'s first attribute named `name`, if any.
    pub fn attribute(&self, k: usize, name: &str) -> (r: Option<&String>)
        requires
            k < self.nodes().len(),
        ensures
            match r {
                Some(v) => attribute_value(self.nodes()[k as int].attributes@, name@) == Some(v@),
                None => attribute_value(self.nodes()[k as int].attributes@, name@) is None,
            },
    {
        let key = name.to_owned();
        let attrs = &self.nodes[k].attributes;
        let mut i: usize = 0;
        assert(attrs@.skip(0) =~= attrs@);
        while i < attrs.len()
            invariant
                k < self.nodes@.len(),
                attrs@ == self.nodes@[k as int].attributes@,
                i <= attrs@.len(),
                key@ == name@,
                attribute_value(attrs@, name@) == attribute_value(attrs@.skip(i as int), name@),
            decreases attrs@.len() - i,
        {
            assert(attrs@.skip(i as int)[0] == attrs@[i as int]);
            assert(attrs@.skip(i as int).drop_first() =~= attrs@.skip(i + 1));
            if attrs[i].0 == key {
                return Some(&attrs[i].1);
            }
            i = i + 1;
        }
        None
    }

    /// The element children of node `p` with local tag name `tag`, in
    /// document order.
    pub fn children_named(&self, p: usize, tag: &str) -> (r: Vec<usize>)
        requires
            p < self.nodes().len(),
        ensures
            r@ == children_of(self.nodes(), p as int, tag@),
            forall|a: int| 0 <= a < r@.len() ==> #[trigger] r@[a] < self.nodes().len(),
    {
        proof {
            use_type_invariant(self);
        }
        let key = tag.to_owned();
        let end = self.ends[p];
        let mut out: Vec<usize> = Vec::new();
        proof {
            lemma_none_before_parent(self.nodes@, p as int, tag@, p + 1);
        }
        let mut j = p + 1;
        while j < end
            invariant
                p < self.nodes@.len(),
                end == self.ends@[p as int],
                end <= self.nodes@.len(),
                p + 1 <= j <= end,
                key@ == tag@,
                out@ == tagged_below(self.nodes@, p as int, tag@, j as int),
            decreases end - j,
        {
            let node = &self.nodes[j];
            let is_child = match node.parent {
                Some(q) => q == p,
                None => false,
            };
            if is_child && node.kind == XmlKind::Element && node.tag == key {
                out.push(j);
            }
            j = j + 1;
        }
        proof {
            self.lemma_none_past_end(p as int, tag@, end as int, self.nodes@.len() as int);
            lemma_children_exactly(self.nodes@, p as int, tag@, self.nodes@.len() as int);
        }
        out
    }

    /// No child of `p` lies at or past `ends[p]`, so the children listed
    /// below `ends[p]` are all of them.
    proof fn lemma_none_past_end(&self, p: int, tag: Seq<char>, from: int, n: int)
        requires
            0 <= p < self.nodes@.len(),
            self.well_formed(),
            from == self.ends@[p],
            from <= n <= self.nodes@.len(),
        ensures
            tagged_below(self.nodes@, p, tag, n) == tagged_below(self.nodes@, p, tag, from),
        decreases n - from,
    {
        if n > from {
            self.lemma_none_past_end(p, tag, from, n - 1);
            assert(!child_tagged(self.nodes@, p, n - 1, tag)) by {
                if self.nodes@[n - 1].parent is Some && self.nodes@[n - 1].parent->0 == p as usize {
                    assert(n - 1 < self.ends@[p]);
                }
            }
            assert(tagged_below(self.nodes@, p, tag, n) =~= tagged_below(self.nodes@, p, tag, n - 1));
        }
    }

    /// The first element child of node `p` with local tag name `tag`.
    pub fn child(&self, p: usize, tag: &str) -> (r: Option<usize>)
        requires
            p < self.nodes().len(),
        ensures
            r == first_child(self.nodes(), p as int, tag@),
            r matches Some(j) ==> j < self.nodes().len(),
    {
        let all = self.children_named(p, tag);
        proof {
            use_type_invariant(self);
            lemma_children_exactly(self.nodes(), p as int, tag@, self.nodes().len() as int);
        }
        if all.len() == 0 {
            proof {
                assert forall|q: int| !child_tagged(self.nodes(), p as int, q, tag@) by {
                    if child_tagged(self.nodes(), p as int, q, tag@) {
                        assert(all@.contains(q as usize));
                    }
                }
            }
            None
        } else {
            let j = all[0];
            proof {
                assert(all@.contains(j));
                assert forall|q: int| q < j implies !child_tagged(self.nodes(), p as int, q, tag@) by {
                    if child_tagged(self.nodes(), p as int, q, tag@) {
                        assert(all@.contains(q as usize));
                        let a = choose|a: int| 0 <= a < all@.len() && all@[a] == q as usize;
                        if a > 0 {
                            assert(all@[0] < all@[a]);
                        }
                    }
                }
                assert(is_first_child(self.nodes(), p as int, j as int, tag@));
                let c = choose|c: int| is_first_child(self.nodes(), p as int, c, tag@);
                lemma_first_child_unique(self.nodes(), p as int, tag@, j as int, c);
            }
            Some(j)
        }
    }
}

impl XmlTree {
    /// The document's root element: the first element child of the root node.
    pub fn root_element(&self) -> (r: Option<usize>)
        ensures
            match r {
                Some(j) => j < self.nodes().len() && self.nodes()[j as int].kind == XmlKind::Element
                    && self.nodes()[j as int].parent == Some(0usize) && forall|q: int|
                    0 <= q < j && self.nodes()[q].parent == Some(0usize) ==> self.nodes()[q].kind != XmlKind::Element,
                None => forall|q: int|
                    0 <= q < self.nodes().len() && self.nodes()[q].parent == Some(0usize) ==> self.nodes()[q].kind
                        != XmlKind::Element,
            },
    {
        proof {
            use_type_invariant(self);
        }
        if self.nodes.len() == 0 {
            return None;
        }
        let end = self.ends[0];
        let mut j: usize = 1;
        while j < end
            invariant
                0 < self.nodes@.len(),
                end == self.ends@[0],
                end <= self.nodes@.len(),
                1 <= j <= end,
                forall|q: int|
                    0 <= q < j && self.nodes@[q].parent == Some(0usize) ==> self.nodes@[q].kind != XmlKind::Element,
            decreases end - j,
        {
            if self.nodes[j].parent == Some(0usize) && self.nodes[j].kind == XmlKind::Element {
                return Some(j);
            }
            j = j + 1;
        }
        proof {
            assert forall|q: int|
                0 <= q < self.nodes@.len() && self.nodes@[q].parent == Some(0usize) implies self.nodes@[q].kind
                    != XmlKind::Element by {
                assert(self.nodes@[q].parent is Some);
            }
        }
        None
    }
}

/// Parse a document: sanitize it, parse the XML, and lay the nodes out as a
/// tree. Fails with `Xml` exactly when the sanitized text is not well-formed.
pub fn parse_document(xml: &str) -> (r: Result<XmlTree, ImportError>)
    ensures
        r matches Err(ImportError::Xml(_)) <==> xml_nodes(sanitized(xml@)) is None,
        r matches Ok(t) ==> xml_nodes(sanitized(xml@)) == Some(t.nodes().map_values(|n: XmlNode| n@)),
        r matches Err(ImportError::Malformed(_)) <==> (xml_nodes(sanitized(xml@)) matches Some(v) && !laid_out_as_tree(v)),
{
    let text = sanitize(xml);
    match parse_xml_nodes(text.as_slice()) {
        Err(e) => Err(ImportError::Xml(e)),
        Ok(nodes) => {
            match XmlTree::from_nodes(nodes) {
                Some(t) => Ok(t),
                None => Err(ImportError::Malformed("the parsed document is not laid out as a tree".to_owned())),
            }
        },
    }
}

} // verus!
