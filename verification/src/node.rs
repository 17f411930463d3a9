//! Request router and dissemination engine.
//!
//! A node starts uninitialized; an init request registers the member list
//! and attaches the durable store. A broadcast value is persisted first
//! and then forwarded, fire-and-forget, to every registered node but the
//! one processing it — unconditionally, even when the value was already
//! known. A read returns the whole recorded set; a peer's read response
//! backfills it.

use vstd::prelude::*;
use crate::db::{Db, StoreError};
use crate::neighbors::{
    NeighborTable, add_known_peer, id_views, merged, peer_views, register_one,
};

verus! {

/// One entry of a topology announcement: a node and its declared peers.
#[derive(Debug)]
pub struct TopologyEntry {
    pub node: String,
    pub peers: Vec<String>,
}

/// An inbound request, already decoded from the wire.
#[derive(Debug)]
pub enum Request {
    Init { node_ids: Vec<String> },
    Read,
    ReadOk { messages: Vec<u64> },
    Generate,
    Echo { echo: String },
    Broadcast { message: u64 },
    BroadcastOk,
    Topology { topology: Vec<TopologyEntry> },
}

/// The typed response owed to the sender of a request. `Done` stands for
/// completing the exchange without a typed payload.
#[derive(Debug)]
pub enum Reply {
    EchoOk { echo: String },
    GenerateOk { id: String },
    BroadcastOk,
    ReadOk { messages: Vec<u64> },
    TopologyOk,
    Done,
}

/// A fire-and-forget forward of a broadcast value to one peer.
#[derive(Debug)]
pub struct Forward {
    pub dest: String,
    pub message: u64,
}

/// What processing a request decided: the reply to send back, and the
/// forwards to fire without awaiting them.
#[derive(Debug)]
pub struct Outcome {
    pub reply: Reply,
    pub forwards: Vec<Forward>,
}

/// Why a request failed. Storage and precondition failures surface to the
/// requester; nothing is retried.
#[derive(Debug)]
pub enum NodeError {
    /// Init arrived while the runtime has not assigned this node an id.
    EmptyNodeId,
    /// A broadcast or read arrived before the store was attached.
    NotInitialized,
    /// The durable store failed; the cause is carried verbatim.
    Storage { message: String },
}

/// The destinations of a list of forwards, in order.
pub open spec fn dest_views(fs: Seq<Forward>) -> Seq<Seq<char>> {
    fs.map_values(|f: Forward| f.dest@)
}

/// A table after registering every id of `ids` in turn.
pub open spec fn register_all(
    m: Map<Seq<char>, Set<Seq<char>>>,
    ids: Seq<String>,
) -> Map<Seq<char>, Set<Seq<char>>>
    decreases ids.len(),
{
    if ids.len() == 0 {
        m
    } else {
        register_all(register_one(m, ids[0]@), ids.drop_first())
    }
}

/// A table after merging every entry of a topology announcement in turn.
pub open spec fn merge_all(
    m: Map<Seq<char>, Set<Seq<char>>>,
    entries: Seq<TopologyEntry>,
) -> Map<Seq<char>, Set<Seq<char>>>
    decreases entries.len(),
{
    if entries.len() == 0 {
        m
    } else {
        merge_all(merged(m, entries[0].node@, peer_views(entries[0].peers@)), entries.drop_first())
    }
}

proof fn lemma_register_all_step(m: Map<Seq<char>, Set<Seq<char>>>, ids: Seq<String>, i: int)
    requires
        0 <= i < ids.len(),
    ensures
        register_all(m, ids.skip(i)) == register_all(register_one(m, ids[i]@), ids.skip(i + 1)),
{
    assert(ids.skip(i)[0] == ids[i]);
    assert(ids.skip(i).drop_first() =~= ids.skip(i + 1));
}

proof fn lemma_merge_all_step(m: Map<Seq<char>, Set<Seq<char>>>, es: Seq<TopologyEntry>, i: int)
    requires
        0 <= i < es.len(),
    ensures
        merge_all(m, es.skip(i)) == merge_all(
            merged(m, es[i].node@, peer_views(es[i].peers@)),
            es.skip(i + 1),
        ),
{
    assert(es.skip(i)[0] == es[i]);
    assert(es.skip(i).drop_first() =~= es.skip(i + 1));
}

proof fn lemma_to_set_push<A>(s: Seq<A>, x: A)
    ensures
        s.push(x).to_set() == s.to_set().insert(x),
{
    assert forall|y: A| s.push(x).to_set().contains(y) implies s.to_set().insert(x).contains(
        y) by {
        let i = choose|i: int| 0 <= i < s.push(x).len() && s.push(x)[i] == y;
        if i < s.len() {
            assert(s[i] == y);
        }
    }
    assert forall|y: A| s.to_set().insert(x).contains(y) implies s.push(x).to_set().contains(
        y) by {
        if y == x {
            assert(s.push(x)[s.len() as int] == y);
        } else {
            let i = choose|i: int| 0 <= i < s.len() && s[i] == y;
            assert(s.push(x)[i] == y);
        }
    }
    assert(s.push(x).to_set() =~= s.to_set().insert(x));
}

proof fn lemma_take_step_to_set<A>(s: Seq<A>, i: int)
    requires
        0 <= i < s.len(),
    ensures
        s.take(i + 1).to_set() == s.take(i).to_set().insert(s[i]),
{
    assert(s.take(i + 1) =~= s.take(i).push(s[i]));
    lemma_to_set_push(s.take(i), s[i]);
}

proof fn lemma_no_dup_push<A>(s: Seq<A>, x: A)
    requires
        s.no_duplicates(),
        !s.contains(x),
    ensures
        s.push(x).no_duplicates(),
{
    assert forall|i: int, j: int|
        0 <= i < s.push(x).len() && 0 <= j < s.push(x).len() && i != j implies s.push(x)[i]
        != s.push(x)[j] by {
        if i < s.len() && j < s.len() {
        } else if i == s.len() {
            assert(s.push(x)[j] == s[j]);
        } else {
            assert(s.push(x)[i] == s[i]);
        }
    }
}

proof fn lemma_no_dup_take_absent<A>(s: Seq<A>, i: int)
    requires
        s.no_duplicates(),
        0 <= i < s.len(),
    ensures
        !s.take(i).contains(s[i]),
{
    if s.take(i).contains(s[i]) {
        let j = choose|j: int| 0 <= j < s.take(i).len() && s.take(i)[j] == s[i];
        assert(s[j] == s[i]);
    }
}

proof fn lemma_dest_views_push(fs: Seq<Forward>, f: Forward)
    ensures
        dest_views(fs.push(f)) == dest_views(fs).push(f.dest@),
{
    assert(dest_views(fs.push(f)) =~= dest_views(fs).push(f.dest@));
}

/// Process-wide node state: the durable store, absent until the first
/// successful init, and the neighbor table.
pub struct Node {
    store: Option<Db>,
    neighbors: NeighborTable,
}

impl Node {
    /// The recorded broadcast values, or `None` while uninitialized.
    pub closed spec fn store_view(self) -> Option<Set<u64>> {
        match self.store {
            Some(d) => Some(d@),
            None => None,
        }
    }

    /// The neighbor table's contents.
    pub closed spec fn neighbors_view(self) -> Map<Seq<char>, Set<Seq<char>>> {
        self.neighbors@
    }

    pub closed spec fn wf(self) -> bool {
        self.neighbors.wf()
    }

    /// Neither the recorded set nor the neighbor table differs between
    /// the two states.
    pub open spec fn same_state(pre: Node, post: Node) -> bool {
        post.store_view() == pre.store_view() && post.neighbors_view() == pre.neighbors_view()
    }

    /// A node as the process starts: uninitialized, knowing no peers.
    pub fn new() -> (n: Node)
        ensures
            n.wf(),
            n.store_view() is None,
            n.neighbors_view() == Map::<Seq<char>, Set<Seq<char>>>::empty(),
    {
        Node { store: None, neighbors: NeighborTable::new() }
    }

    /// Routes one inbound request: mutates the store or the neighbor
    /// table as the request asks, and decides the reply and the forwards
    /// to fire. `runtime_id` is this node's identifier as the transport
    /// runtime assigned it.
    pub fn process(&mut self, req: Request, runtime_id: &String) -> (r: Result<Outcome, NodeError>)
        requires
            old(self).wf(),
        ensures
            final(self).wf(),
            req matches Request::Echo { echo } ==> (r matches Ok(o) && o.reply matches
                Reply::EchoOk { echo: e } && e@ == echo@ && o.forwards@.len() == 0
                && Node::same_state(*old(self), *final(self))),
            req is Generate ==> (r matches Ok(o) && o.reply matches Reply::GenerateOk { id }
                && id@.len() == 36 && o.forwards@.len() == 0 && Node::same_state(
                *old(self),
                *final(self),
            )),
            req is BroadcastOk ==> (r matches Ok(o) && o.reply is Done && o.forwards@.len() == 0
                && Node::same_state(*old(self), *final(self))),
            req matches Request::Init { node_ids } ==> {
                &&& runtime_id@.len() == 0 ==> (r matches Err(e) && e is EmptyNodeId
                    && Node::same_state(*old(self), *final(self)))
                &&& runtime_id@.len() > 0 ==> {
                    &&& final(self).neighbors_view() == register_all(
                        old(self).neighbors_view(),
                        node_ids@,
                    )
                    &&& old(self).store_view() is Some ==> (r matches Ok(o) && o.reply is Done
                        && o.forwards@.len() == 0 && final(self).store_view() == old(
                        self,
                    ).store_view())
                    &&& old(self).store_view() is None ==> {
                        &&& r matches Ok(o) ==> (final(self).store_view() is Some && o.reply
                            is Done && o.forwards@.len() == 0)
                        &&& r matches Err(e) ==> (e is Storage && final(self).store_view()
                            is None)
                    }
                }
            },
            req matches Request::Broadcast { message } ==> {
                &&& old(self).store_view() is None ==> (r matches Err(e) && e is NotInitialized
                    && Node::same_state(*old(self), *final(self)))
                &&& old(self).store_view() matches Some(s0) ==> {
                    &&& final(self).neighbors_view() == old(self).neighbors_view()
                    &&& r matches Ok(o) ==> {
                        &&& final(self).store_view() == Some(s0.insert(message))
                        &&& o.reply is BroadcastOk
                        &&& forall|i: int|
                            0 <= i < o.forwards@.len() ==> (#[trigger] o.forwards@[i]).message
                                == message
                        &&& dest_views(o.forwards@).to_set() == old(
                            self,
                        ).neighbors_view().dom().remove(runtime_id@)
                        &&& dest_views(o.forwards@).no_duplicates()
                    }
                    &&& r matches Err(e) ==> {
                        &&& e is Storage
                        &&& final(self).store_view() matches Some(s1) && s0.subset_of(s1)
                            && s1.subset_of(s0.insert(message))
                    }
                }
            },
            req is Read ==> {
                &&& old(self).store_view() is None ==> (r matches Err(e) && e is NotInitialized
                    && Node::same_state(*old(self), *final(self)))
                &&& old(self).store_view() matches Some(s0) ==> {
                    &&& Node::same_state(*old(self), *final(self))
                    &&& r matches Ok(o) ==> (o.reply matches Reply::ReadOk { messages }
                        && messages@.to_set() == s0 && messages@.no_duplicates()
                        && o.forwards@.len() == 0)
                    &&& r matches Err(e) ==> e is Storage
                }
            },
            req matches Request::ReadOk { messages } ==> {
                &&& final(self).neighbors_view() == old(self).neighbors_view()
                &&& (old(self).store_view() is None && messages@.len() == 0) ==> (r matches Ok(o)
                    && o.reply is Done && o.forwards@.len() == 0 && Node::same_state(
                    *old(self),
                    *final(self),
                ))
                &&& (old(self).store_view() is None && messages@.len() > 0) ==> (r matches Err(e)
                    && e is NotInitialized && Node::same_state(*old(self), *final(self)))
                &&& old(self).store_view() matches Some(s0) ==> {
                    &&& r matches Ok(o) ==> (final(self).store_view() == Some(
                        s0.union(messages@.to_set()),
                    ) && o.reply is Done && o.forwards@.len() == 0)
                    &&& r matches Err(e) ==> {
                        &&& e is Storage
                        &&& final(self).store_view() matches Some(s1) && s0.subset_of(s1)
                            && s1.subset_of(s0.union(messages@.to_set()))
                    }
                }
            },
            req matches Request::Topology { topology } ==> (r matches Ok(o) && o.reply is
                TopologyOk && o.forwards@.len() == 0 && final(self).store_view() == old(
                self,
            ).store_view() && final(self).neighbors_view() == merge_all(
                old(self).neighbors_view(),
                topology@,
            )),
    {
        match req {
            Request::Echo { echo } => Ok(
                Outcome { reply: Reply::EchoOk { echo }, forwards: Vec::new() },
            ),
            Request::Generate => {
                let id = fresh_uuid();
                Ok(Outcome { reply: Reply::GenerateOk { id }, forwards: Vec::new() })
            },
            Request::BroadcastOk => Ok(Outcome { reply: Reply::Done, forwards: Vec::new() }),
            Request::Init { node_ids } => self.handle_init(node_ids, runtime_id),
            Request::Broadcast { message } => self.handle_broadcast(message, runtime_id),
            Request::Read => self.handle_read(),
            Request::ReadOk { messages } => self.handle_read_ok(messages),
            Request::Topology { topology } => self.handle_topology(topology),
        }
    }

    fn handle_init(&mut self, node_ids: Vec<String>, runtime_id: &String) -> (r: Result<
        Outcome,
        NodeError,
    >)
        requires
            old(self).wf(),
        ensures
            final(self).wf(),
            runtime_id@.len() == 0 ==> (r matches Err(e) && e is EmptyNodeId && Node::same_state(
                *old(self),
                *final(self),
            )),
            runtime_id@.len() > 0 ==> {
                &&& final(self).neighbors_view() == register_all(
                    old(self).neighbors_view(),
                    node_ids@,
                )
                &&& old(self).store_view() is Some ==> (r matches Ok(o) && o.reply is Done
                    && o.forwards@.len() == 0 && final(self).store_view() == old(
                    self,
                ).store_view())
                &&& old(self).store_view() is None ==> {
                    &&& r matches Ok(o) ==> (final(self).store_view() is Some && o.reply is Done
                        && o.forwards@.len() == 0)
                    &&& r matches Err(e) ==> (e is Storage && final(self).store_view() is None)
                }
            },
    {
        if runtime_id.as_str().is_empty() {
            return Err(NodeError::EmptyNodeId);
        }
        let ghost m0 = self.neighbors@;
        let ghost st0 = self.store;
        proof {
            assert(node_ids@.skip(0) =~= node_ids@);
        }
        let mut i: usize = 0;
        while i < node_ids.len()
            invariant
                self.neighbors.wf(),
                i <= node_ids@.len(),
                register_all(m0, node_ids@) == register_all(
                    self.neighbors@,
                    node_ids@.skip(i as int),
                ),
                self.store == st0,
            decreases node_ids@.len() - i,
        {
            let ghost cur = self.neighbors@;
            add_known_peer(&mut self.neighbors, node_ids[i].as_str());
            proof {
                lemma_register_all_step(cur, node_ids@, i as int);
            }
            i += 1;
        }
        proof {
            assert(node_ids@.skip(node_ids@.len() as int) =~= Seq::<String>::empty());
        }
        if self.store.is_none() {
            match Db::new(runtime_id.as_str()) {
                Ok(d) => {
                    self.store = Some(d);
                },
                Err(e) => {
                    return Err(NodeError::Storage { message: e.message });
                },
            }
        }
        Ok(Outcome { reply: Reply::Done, forwards: Vec::new() })
    }

    fn handle_broadcast(&mut self, message: u64, runtime_id: &String) -> (r: Result<
        Outcome,
        NodeError,
    >)
        requires
            old(self).wf(),
        ensures
            final(self).wf(),
            old(self).store_view() is None ==> (r matches Err(e) && e is NotInitialized
                && Node::same_state(*old(self), *final(self))),
            old(self).store_view() matches Some(s0) ==> {
                &&& final(self).neighbors_view() == old(self).neighbors_view()
                &&& r matches Ok(o) ==> {
                    &&& final(self).store_view() == Some(s0.insert(message))
                    &&& o.reply is BroadcastOk
                    &&& forall|i: int|
                        0 <= i < o.forwards@.len() ==> (#[trigger] o.forwards@[i]).message
                            == message
                    &&& dest_views(o.forwards@).to_set() == old(
                        self,
                    ).neighbors_view().dom().remove(runtime_id@)
                    &&& dest_views(o.forwards@).no_duplicates()
                }
                &&& r matches Err(e) ==> {
                    &&& e is Storage
                    &&& final(self).store_view() matches Some(s1) && s0.subset_of(s1)
                        && s1.subset_of(s0.insert(message))
                }
            },
    {
        match self.store.take() {
            None => Err(NodeError::NotInitialized),
            Some(mut d) => {
                let res = d.set_broadcast_id(message);
                self.store = Some(d);
                match res {
                    Err(e) => Err(NodeError::Storage { message: e.message }),
                    Ok(()) => {
                        let ids = self.neighbors.snapshot_all_node_ids();
                        let ghost s = id_views(ids@);
                        let mut forwards: Vec<Forward> = Vec::new();
                        proof {
                            assert(s.take(0) =~= Seq::<Seq<char>>::empty());
                            assert(dest_views(forwards@) =~= Seq::<Seq<char>>::empty());
                            assert(dest_views(forwards@).to_set() =~= s.take(0).to_set().remove(
                                runtime_id@,
                            ));
                        }
                        let mut i: usize = 0;
                        while i < ids.len()
                            invariant
                                i <= ids@.len(),
                                s == id_views(ids@),
                                s.no_duplicates(),
                                dest_views(forwards@).to_set() == s.take(i as int).to_set().remove(
                                    runtime_id@,
                                ),
                                dest_views(forwards@).no_duplicates(),
                                forall|j: int|
                                    0 <= j < forwards@.len() ==> (#[trigger] forwards@[j]).message
                                        == message,
                            decreases ids@.len() - i,
                        {
                            let dest = ids[i].clone();
                            let ghost x = s[i as int];
                            proof {
                                lemma_take_step_to_set(s, i as int);
                                lemma_no_dup_take_absent(s, i as int);
                                assert(x == ids@[i as int]@);
                            }
                            if dest != *runtime_id {
                                let ghost fpre = forwards@;
                                forwards.push(Forward { dest, message });
                                proof {
                                    let f = forwards@[fpre.len() as int];
                                    assert(forwards@ == fpre.push(f));
                                    assert(f.dest@ == x);
                                    lemma_dest_views_push(fpre, f);
                                    lemma_to_set_push(dest_views(fpre), x);
                                    if dest_views(fpre).contains(x) {
                                        assert(dest_views(fpre).to_set().contains(x));
                                        assert(s.take(i as int).to_set().contains(x));
                                        assert(s.take(i as int).contains(x));
                                    }
                                    assert(!dest_views(fpre).contains(x));
                                    lemma_no_dup_push(dest_views(fpre), x);
                                    assert(s.take(i as int).to_set().remove(runtime_id@).insert(x)
                                        =~= s.take(i + 1).to_set().remove(runtime_id@));
                                }
                            } else {
                                proof {
                                    assert(x == runtime_id@);
                                    assert(s.take(i as int).to_set().remove(runtime_id@) =~= s.take(
                                        i + 1,
                                    ).to_set().remove(runtime_id@));
                                }
                            }
                            i += 1;
                        }
                        proof {
                            assert(s.take(s.len() as int) =~= s);
                        }
                        Ok(Outcome { reply: Reply::BroadcastOk, forwards })
                    },
                }
            },
        }
    }

    fn handle_read(&mut self) -> (r: Result<Outcome, NodeError>)
        requires
            old(self).wf(),
        ensures
            final(self).wf(),
            Node::same_state(*old(self), *final(self)),
            old(self).store_view() is None ==> (r matches Err(e) && e is NotInitialized),
            old(self).store_view() matches Some(s0) ==> {
                &&& r matches Ok(o) ==> (o.reply matches Reply::ReadOk { messages }
                    && messages@.to_set() == s0 && messages@.no_duplicates() && o.forwards@.len()
                    == 0)
                &&& r matches Err(e) ==> e is Storage
            },
    {
        match &self.store {
            None => Err(NodeError::NotInitialized),
            Some(d) => {
                match d.seen_broadcast_values() {
                    Ok(values) => Ok(
                        Outcome { reply: Reply::ReadOk { messages: values }, forwards: Vec::new() },
                    ),
                    Err(e) => Err(NodeError::Storage { message: e.message }),
                }
            },
        }
    }

    fn handle_read_ok(&mut self, messages: Vec<u64>) -> (r: Result<Outcome, NodeError>)
        requires
            old(self).wf(),
        ensures
            final(self).wf(),
            final(self).neighbors_view() == old(self).neighbors_view(),
            (old(self).store_view() is None && messages@.len() == 0) ==> (r matches Ok(o)
                && o.reply is Done && o.forwards@.len() == 0 && Node::same_state(
                *old(self),
                *final(self),
            )),
            (old(self).store_view() is None && messages@.len() > 0) ==> (r matches Err(e) && e is
                NotInitialized && Node::same_state(*old(self), *final(self))),
            old(self).store_view() matches Some(s0) ==> {
                &&& r matches Ok(o) ==> (final(self).store_view() == Some(
                    s0.union(messages@.to_set()),
                ) && o.reply is Done && o.forwards@.len() == 0)
                &&& r matches Err(e) ==> {
                    &&& e is Storage
                    &&& final(self).store_view() matches Some(s1) && s0.subset_of(s1)
                        && s1.subset_of(s0.union(messages@.to_set()))
                }
            },
    {
        if messages.len() == 0 {
            proof {
                assert(messages@.to_set() =~= Set::<u64>::empty());
                assert forall|s: Set<u64>| #[trigger] s.union(messages@.to_set()) == s by {
                    assert(s.union(messages@.to_set()) =~= s);
                }
            }
            return Ok(Outcome { reply: Reply::Done, forwards: Vec::new() });
        }
        match self.store.take() {
            None => Err(NodeError::NotInitialized),
            Some(mut d) => {
                let ghost s0 = d@;
                proof {
                    assert(s0.union(messages@.take(0).to_set()) =~= s0);
                }
                let mut i: usize = 0;
                while i < messages.len()
                    invariant
                        i <= messages@.len(),
                        d@ == s0.union(messages@.take(i as int).to_set()),
                        self.store is None,
                        self.neighbors == old(self).neighbors,
                        old(self).wf(),
                        old(self).store_view() == Some(s0),
                    decreases messages@.len() - i,
                {
                    let ghost dpre = d@;
                    let res = d.set_broadcast_id(messages[i]);
                    proof {
                        lemma_take_step_to_set(messages@, i as int);
                        Self::lemma_prefix_subset(messages@, i as int);
                    }
                    match res {
                        Ok(()) => {
                            proof {
                                assert(dpre.insert(messages@[i as int]) =~= s0.union(
                                    messages@.take(i + 1).to_set(),
                                ));
                            }
                        },
                        Err(e) => {
                            proof {
                                assert(messages@.contains(messages@[i as int]));
                            }
                            self.store = Some(d);
                            return Err(NodeError::Storage { message: e.message });
                        },
                    }
                    i += 1;
                }
                proof {
                    assert(messages@.take(messages@.len() as int) =~= messages@);
                }
                self.store = Some(d);
                Ok(Outcome { reply: Reply::Done, forwards: Vec::new() })
            },
        }
    }

    proof fn lemma_prefix_subset(s: Seq<u64>, i: int)
        requires
            0 <= i <= s.len(),
        ensures
            s.take(i).to_set().subset_of(s.to_set()),
    {
        assert forall|y: u64| s.take(i).to_set().contains(y) implies s.to_set().contains(y) by {
            let j = choose|j: int| 0 <= j < s.take(i).len() && s.take(i)[j] == y;
            assert(s[j] == y);
        }
    }

    fn handle_topology(&mut self, topology: Vec<TopologyEntry>) -> (r: Result<Outcome, NodeError>)
        requires
            old(self).wf(),
        ensures
            final(self).wf(),
            r matches Ok(o) && o.reply is TopologyOk && o.forwards@.len() == 0,
            final(self).store_view() == old(self).store_view(),
            final(self).neighbors_view() == merge_all(old(self).neighbors_view(), topology@),
    {
        let ghost m0 = self.neighbors@;
        let ghost st0 = self.store;
        proof {
            assert(topology@.skip(0) =~= topology@);
        }
        let mut i: usize = 0;
        while i < topology.len()
            invariant
                self.neighbors.wf(),
                i <= topology@.len(),
                merge_all(m0, topology@) == merge_all(self.neighbors@, topology@.skip(i as int)),
                self.store == st0,
            decreases topology@.len() - i,
        {
            let ghost cur = self.neighbors@;
            let entry = &topology[i];
            self.neighbors.merge_topology(&entry.node, &entry.peers);
            proof {
                lemma_merge_all_step(cur, topology@, i as int);
            }
            i += 1;
        }
        proof {
            assert(topology@.skip(topology@.len() as int) =~= Seq::<TopologyEntry>::empty());
        }
        Ok(Outcome { reply: Reply::TopologyOk, forwards: Vec::new() })
    }
}

/// Relies on `uuid::Uuid::new_v4` and its `Display` form: a freshly drawn
/// random identifier, rendered in the 36-character hyphenated form. One
/// call's result is tied to nothing, not even to another call with the
/// same state of the world, so no more is stated than the length.
#[verifier::external_body]
fn fresh_uuid() -> (r: String)
    ensures
        r@.len() == 36,
{
    uuid::Uuid::new_v4().to_string()
}

} // verus!
