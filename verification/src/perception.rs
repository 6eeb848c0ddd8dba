//! The perception pathway's handshake and connection registry: which agent
//! connections the server routes perception frames to, by agent name.

use vstd::prelude::*;

verus! {

/// Version of the perception wire schema. An agent declares it in `Hello`;
/// the server drops a connection on mismatch rather than stream bytes the
/// agent can't decode.
pub const PROTOCOL_VERSION: u32 = 1;

/// An agent's connect-time declaration on the perception port: which roster
/// slot it is and the schema it speaks.
#[derive(Debug, Clone, PartialEq, Eq)]
pub struct Hello {
    pub agent_name: String,
    pub protocol_version: u32,
}

/// What a detected entity is, so an agent can tell a peer from a wall.
#[derive(Debug, Clone, Copy, PartialEq, Eq, Structural)]
pub enum DetectionKind {
    Agent,
    Static,
}

/// Everything an agent sends the perception server: just the handshake.
#[derive(Debug, Clone, PartialEq, Eq)]
pub enum AgentToServer {
    Hello(Hello),
}

/// An agent subscribing to or dropping its perception stream.
#[derive(Debug, Clone, PartialEq, Eq)]
pub enum PerceptionEvent {
    AgentConnected { name: String },
    AgentDisconnected { name: String },
}

/// One registered connection: where its frames go, and the token that tells
/// it apart from a later connection under the same agent name.
pub struct AgentConn<Q> {
    pub queue: Q,
    pub token: u64,
}

/// The connections by agent name, later entries under a name replacing
/// earlier ones.
pub open spec fn entries_map<Q>(e: Seq<(String, AgentConn<Q>)>) -> Map<Seq<char>, AgentConn<Q>>
    decreases e.len(),
{
    if e.len() == 0 {
        Map::empty()
    } else {
        entries_map(e.drop_last()).insert(e.last().0@, e.last().1)
    }
}

/// No agent name occurs twice.
pub open spec fn names_distinct<Q>(e: Seq<(String, AgentConn<Q>)>) -> bool {
    forall|i: int, j: int| 0 <= i < j < e.len() ==> (#[trigger] e[i]).0@ != (#[trigger] e[j]).0@
}

/// The registry after the cleanup of the connection with `token` under
/// `name`: that connection is removed only if it is still the one
/// registered; a newer connection under the same name stays.
pub open spec fn evicted<Q>(m: Map<Seq<char>, AgentConn<Q>>, name: Seq<char>, token: u64) -> Map<Seq<char>, AgentConn<Q>> {
    if m.contains_key(name) && m[name].token == token {
        m.remove(name)
    } else {
        m
    }
}

proof fn lemma_entries_lookup<Q>(e: Seq<(String, AgentConn<Q>)>, k: Seq<char>)
    requires
        names_distinct(e),
    ensures
        entries_map(e).contains_key(k) <==> exists|i: int| 0 <= i < e.len() && (#[trigger] e[i]).0@ == k,
        forall|i: int| 0 <= i < e.len() && (#[trigger] e[i]).0@ == k ==> entries_map(e)[k] == e[i].1,
    decreases e.len(),
{
    if e.len() > 0 {
        let init = e.drop_last();
        assert(names_distinct(init)) by {
            assert forall|i: int, j: int| 0 <= i < j < init.len() implies (#[trigger] init[i]).0@ != (#[trigger] init[j]).0@ by {
                assert(init[i] == e[i]);
                assert(init[j] == e[j]);
            }
        }
        lemma_entries_lookup(init, k);
        if entries_map(e).contains_key(k) && e.last().0@ != k {
            let i = choose|i: int| 0 <= i < init.len() && (#[trigger] init[i]).0@ == k;
            assert(e[i] == init[i]);
        }
        if exists|i: int| 0 <= i < e.len() && (#[trigger] e[i]).0@ == k {
            let i = choose|i: int| 0 <= i < e.len() && (#[trigger] e[i]).0@ == k;
            if i < e.len() - 1 {
                assert(init[i] == e[i]);
            }
        }
        assert forall|i: int| 0 <= i < e.len() && (#[trigger] e[i]).0@ == k implies entries_map(e)[k] == e[i].1 by {
            if i < e.len() - 1 {
                assert(init[i] == e[i]);
                assert(e[i].0@ != e[e.len() - 1].0@);
            }
        }
    }
}

proof fn lemma_entries_update<Q>(e: Seq<(String, AgentConn<Q>)>, i: int, name: String, c: AgentConn<Q>)
    requires
        names_distinct(e),
        0 <= i < e.len(),
        e[i].0@ == name@,
    ensures
        entries_map(e.update(i, (name, c))) == entries_map(e).insert(name@, c),
        names_distinct(e.update(i, (name, c))),
    decreases e.len(),
{
    let u = e.update(i, (name, c));
    let init = e.drop_last();
    assert(names_distinct(u)) by {
        assert forall|a: int, b: int| 0 <= a < b < u.len() implies (#[trigger] u[a]).0@ != (#[trigger] u[b]).0@ by {
            assert(e[a].0@ != e[b].0@);
        }
    }
    assert(names_distinct(init)) by {
        assert forall|a: int, b: int| 0 <= a < b < init.len() implies (#[trigger] init[a]).0@ != (#[trigger] init[b]).0@ by {
            assert(init[a] == e[a]);
            assert(init[b] == e[b]);
        }
    }
    if i == e.len() - 1 {
        assert(u.drop_last() =~= init);
        assert(entries_map(u) =~= entries_map(e).insert(name@, c));
    } else {
        assert(u.drop_last() =~= init.update(i, (name, c)));
        lemma_entries_update(init, i, name, c);
        assert(e.last().0@ != name@) by {
            assert(e[i].0@ != e[e.len() - 1].0@);
        }
        assert(entries_map(u) =~= entries_map(e).insert(name@, c));
    }
}

proof fn lemma_entries_remove<Q>(e: Seq<(String, AgentConn<Q>)>, i: int)
    requires
        names_distinct(e),
        0 <= i < e.len(),
    ensures
        entries_map(e.remove(i)) == entries_map(e).remove(e[i].0@),
        names_distinct(e.remove(i)),
    decreases e.len(),
{
    let r = e.remove(i);
    let init = e.drop_last();
    let k = e[i].0@;
    assert(names_distinct(r)) by {
        assert forall|a: int, b: int| 0 <= a < b < r.len() implies (#[trigger] r[a]).0@ != (#[trigger] r[b]).0@ by {
            let a0 = if a < i { a } else { a + 1 };
            let b0 = if b < i { b } else { b + 1 };
            assert(r[a] == e[a0]);
            assert(r[b] == e[b0]);
        }
    }
    assert(names_distinct(init)) by {
        assert forall|a: int, b: int| 0 <= a < b < init.len() implies (#[trigger] init[a]).0@ != (#[trigger] init[b]).0@ by {
            assert(init[a] == e[a]);
            assert(init[b] == e[b]);
        }
    }
    if i == e.len() - 1 {
        assert(r =~= init);
        lemma_entries_lookup(init, k);
        assert forall|j: int| 0 <= j < init.len() implies (#[trigger] init[j]).0@ != k by {
            assert(init[j] == e[j]);
            assert(e[j].0@ != e[i].0@);
        }
        assert(!entries_map(init).contains_key(k));
        assert(entries_map(r) =~= entries_map(e).remove(k));
    } else {
        assert(r.drop_last() =~= init.remove(i));
        assert(r.last() == e.last());
        lemma_entries_remove(init, i);
        assert(init[i] == e[i]);
        assert(e.last().0@ != k) by {
            assert(e[i].0@ != e[e.len() - 1].0@);
        }
        assert(entries_map(r) =~= entries_map(e).remove(k));
    }
}

/// The live perception connections, by agent name.
pub struct AgentRegistry<Q> {
    entries: Vec<(String, AgentConn<Q>)>,
}

/// Whether two strings are the same text.
fn same_name(a: &String, b: &String) -> (r: bool)
    ensures
        r == (a@ == b@),
{
    *a == *b
}

/// Where the entry under `name` is in `entries`, if there is one.
fn find_name<Q>(entries: &Vec<(String, AgentConn<Q>)>, name: &String) -> (r: Option<usize>)
    ensures
        match r {
            Some(i) => i < entries@.len() && entries@[i as int].0@ == name@,
            None => forall|i: int| 0 <= i < entries@.len() ==> (#[trigger] entries@[i]).0@ != name@,
        },
{
    let mut i: usize = 0;
    while i < entries.len()
        invariant
            i <= entries@.len(),
            forall|j: int| 0 <= j < i ==> (#[trigger] entries@[j]).0@ != name@,
        decreases entries@.len() - i,
    {
        if same_name(&entries[i].0, name) {
            return Some(i);
        }
        i = i + 1;
    }
    None
}

impl<Q> AgentRegistry<Q> {
    /// The registered connections, by agent name.
    pub closed spec fn conns(&self) -> Map<Seq<char>, AgentConn<Q>> {
        entries_map(self.entries@)
    }

    #[verifier::type_invariant]
    closed spec fn names_unique(&self) -> bool {
        names_distinct(self.entries@)
    }

    /// An empty registry.
    pub fn new() -> (r: Self)
        ensures
            r.conns() == Map::<Seq<char>, AgentConn<Q>>::empty(),
    {
        AgentRegistry { entries: Vec::new() }
    }

    /// The queue of the connection registered under `name`, if any.
    pub fn get(&self, name: &String) -> (r: Option<&Q>)
        ensures
            r is None <==> !self.conns().contains_key(name@),
            r matches Some(q) ==> *q == self.conns()[name@].queue,
    {
        proof {
            use_type_invariant(self);
            lemma_entries_lookup(self.entries@, name@);
        }
        match find_name(&self.entries, name) {
            Some(i) => Some(&self.entries[i].1.queue),
            None => None,
        }
    }

    /// Register a connection under `name`, replacing any earlier one there.
    pub fn insert(&mut self, name: String, queue: Q, token: u64)
        ensures
            final(self).conns() == old(self).conns().insert(name@, AgentConn { queue, token }),
    {
        proof {
            use_type_invariant(&*self);
        }
        let mut entries: Vec<(String, AgentConn<Q>)> = Vec::new();
        std::mem::swap(&mut entries, &mut self.entries);
        let ghost e = entries@;
        let conn = AgentConn { queue, token };
        let ghost c = conn;
        match find_name(&entries, &name) {
            Some(i) => {
                entries.set(i, (name, conn));
                proof {
                    lemma_entries_update(e, i as int, name, c);
                }
            },
            None => {
                entries.push((name, conn));
                proof {
                    assert(entries@.drop_last() =~= e);
                    assert(names_distinct(entries@)) by {
                        assert forall|a: int, b: int| 0 <= a < b < entries@.len() implies (#[trigger] entries@[a]).0@
                            != (#[trigger] entries@[b]).0@ by {
                            if b < e.len() {
                                assert(entries@[a] == e[a]);
                                assert(entries@[b] == e[b]);
                            } else {
                                assert(entries@[a] == e[a]);
                            }
                        }
                    }
                }
            },
        }
        self.entries = entries;
    }

    /// Clean up after the connection with `token` under `name`: remove it if
    /// it is still the connection registered there (a reconnect under the
    /// same name may have replaced it). Returns whether it was removed.
    pub fn evict_if_current(&mut self, name: &String, token: u64) -> (removed: bool)
        ensures
            final(self).conns() == evicted(old(self).conns(), name@, token),
            removed == (old(self).conns().contains_key(name@) && old(self).conns()[name@].token == token),
            removed ==> final(self).conns() == old(self).conns().remove(name@),
            !removed ==> final(self).conns() == old(self).conns(),
    {
        proof {
            use_type_invariant(&*self);
            lemma_entries_lookup(self.entries@, name@);
        }
        let mut entries: Vec<(String, AgentConn<Q>)> = Vec::new();
        std::mem::swap(&mut entries, &mut self.entries);
        let ghost e = entries@;
        let removed = match find_name(&entries, name) {
            Some(i) => {
                if entries[i].1.token == token {
                    let _gone = entries.remove(i);
                    proof {
                        lemma_entries_remove(e, i as int);
                    }
                    true
                } else {
                    false
                }
            },
            None => false,
        };
        self.entries = entries;
        removed
    }

    /// The number of registered connections.
    pub fn len(&self) -> (n: usize)
        ensures
            n == self.conns().len(),
    {
        proof {
            use_type_invariant(self);
            lemma_entries_len(self.entries@);
        }
        self.entries.len()
    }
}

proof fn lemma_entries_len<Q>(e: Seq<(String, AgentConn<Q>)>)
    requires
        names_distinct(e),
    ensures
        entries_map(e).len() == e.len(),
        entries_map(e).dom().finite(),
    decreases e.len(),
{
    if e.len() > 0 {
        let init = e.drop_last();
        assert(names_distinct(init)) by {
            assert forall|a: int, b: int| 0 <= a < b < init.len() implies (#[trigger] init[a]).0@ != (#[trigger] init[b]).0@ by {
                assert(init[a] == e[a]);
                assert(init[b] == e[b]);
            }
        }
        lemma_entries_len(init);
        lemma_entries_lookup(init, e.last().0@);
        assert forall|j: int| 0 <= j < init.len() implies (#[trigger] init[j]).0@ != e.last().0@ by {
            assert(init[j] == e[j]);
            assert(e[j].0@ != e[e.len() - 1].0@);
        }
    }
}

/// Whether the server serves a connection that opened with `hello`: only
/// one that speaks this schema version.
pub fn handshake_accepted(hello: &Hello) -> (r: bool)
    ensures
        r == (hello.protocol_version == PROTOCOL_VERSION),
{
    hello.protocol_version == PROTOCOL_VERSION
}

impl<Q> AgentRegistry<Q> {
    /// A connection said `hello`: if it speaks this schema version, register
    /// it under its agent name (replacing an earlier connection there) and
    /// report the agent connected; otherwise leave the registry as it is and
    /// report nothing, and the connection is dropped.
    pub fn register_hello(&mut self, hello: Hello, queue: Q, token: u64) -> (event: Option<PerceptionEvent>)
        ensures
            hello.protocol_version == PROTOCOL_VERSION ==> final(self).conns() == old(self).conns().insert(
                hello.agent_name@,
                AgentConn { queue, token },
            ),
            hello.protocol_version == PROTOCOL_VERSION ==> (event matches Some(PerceptionEvent::AgentConnected { name })
                && name@ == hello.agent_name@),
            hello.protocol_version != PROTOCOL_VERSION ==> final(self).conns() == old(self).conns() && event is None,
    {
        if !handshake_accepted(&hello) {
            return None;
        }
        let name = hello.agent_name;
        let event_name = name.clone();
        self.insert(name, queue, token);
        Some(PerceptionEvent::AgentConnected { name: event_name })
    }

    /// The connection with `token` under `name` closed: evict it if it is
    /// still the current one, and report the agent disconnected.
    pub fn disconnect(&mut self, name: String, token: u64) -> (event: PerceptionEvent)
        ensures
            final(self).conns() == evicted(old(self).conns(), name@, token),
            event matches PerceptionEvent::AgentDisconnected { name: n } && n@ == name@,
            forall|k: Seq<char>|
                k != name@ ==> (#[trigger] final(self).conns().contains_key(k) == old(self).conns().contains_key(k)) && (
                old(self).conns().contains_key(k) ==> final(self).conns()[k] == old(self).conns()[k]),
            !old(self).conns().contains_key(name@) ==> final(self).conns() == old(self).conns(),
    {
        let ghost before = self.conns();
        self.evict_if_current(&name, token);
        proof {
            lemma_cleanup_touches_only_its_name(before, name@, token);
        }
        PerceptionEvent::AgentDisconnected { name }
    }
}

/// A stale connection's cleanup never evicts a newer one: once a reconnect
/// has registered under `name` with another token, the older connection's
/// cleanup leaves the registry as it is.
pub proof fn lemma_stale_cleanup_keeps_newer<Q>(m: Map<Seq<char>, AgentConn<Q>>, name: Seq<char>, newer: AgentConn<Q>, stale: u64)
    requires
        newer.token != stale,
    ensures
        evicted(m.insert(name, newer), name, stale) == m.insert(name, newer),
{
}

/// A connection's own cleanup removes it: after registering and then
/// cleaning up under the same token, the name is no longer registered and
/// every other name is as it was.
pub proof fn lemma_own_cleanup_removes<Q>(m: Map<Seq<char>, AgentConn<Q>>, name: Seq<char>, conn: AgentConn<Q>)
    ensures
        evicted(m.insert(name, conn), name, conn.token) == m.remove(name),
        !evicted(m.insert(name, conn), name, conn.token).contains_key(name),
{
    assert(m.insert(name, conn).remove(name) =~= m.remove(name));
}

/// Cleaning up after one connection touches no other agent: every other
/// name keeps exactly the connection it had, and cleanup under a name that
/// is not registered changes nothing at all.
pub proof fn lemma_cleanup_touches_only_its_name<Q>(m: Map<Seq<char>, AgentConn<Q>>, name: Seq<char>, token: u64)
    ensures
        forall|k: Seq<char>|
            k != name ==> (#[trigger] evicted(m, name, token).contains_key(k) == m.contains_key(k)) && (m.contains_key(k)
                ==> evicted(m, name, token)[k] == m[k]),
        !m.contains_key(name) ==> evicted(m, name, token) == m,
        evicted(m, name, token).contains_key(name) ==> m.contains_key(name) && evicted(m, name, token)[name]
            == m[name],
{
}

} // verus!
