//! Neighbor table: the set of peers this node knows of.
//!
//! The table maps a node identifier to the set of neighbor identifiers it
//! has been announced with. It grows additively: registering a node gives
//! it an empty peer set if it had none, and a topology announcement unions
//! new peers into the existing entry, never replacing it.

use vstd::prelude::*;

verus! {

/// The identifiers of a list of peers, as a set of character sequences.
pub open spec fn peer_views(ps: Seq<String>) -> Set<Seq<char>> {
    ps.map_values(|p: String| p@).to_set()
}

/// The identifiers of a list of nodes, in order.
pub open spec fn id_views(ids: Seq<String>) -> Seq<Seq<char>> {
    ids.map_values(|s: String| s@)
}

/// The peer set a table maps `k` to, taking an absent entry as empty.
pub open spec fn peers_of(m: Map<Seq<char>, Set<Seq<char>>>, k: Seq<char>) -> Set<Seq<char>> {
    if m.dom().contains(k) {
        m[k]
    } else {
        Set::empty()
    }
}

/// A table after registering `k`: untouched when `k` is already present,
/// otherwise extended with an empty peer set for `k`.
pub open spec fn register_one(
    m: Map<Seq<char>, Set<Seq<char>>>,
    k: Seq<char>,
) -> Map<Seq<char>, Set<Seq<char>>> {
    if m.dom().contains(k) {
        m
    } else {
        m.insert(k, Set::empty())
    }
}

/// A table after merging the announcement that `k`'s peers include `ps`:
/// `ps` is unioned into `k`'s existing peer set, creating the entry if
/// absent.
pub open spec fn merged(
    m: Map<Seq<char>, Set<Seq<char>>>,
    k: Seq<char>,
    ps: Set<Seq<char>>,
) -> Map<Seq<char>, Set<Seq<char>>> {
    m.insert(k, peers_of(m, k).union(ps))
}

proof fn lemma_peer_views_members(ps: Seq<String>)
    ensures
        forall|x: Seq<char>|
            #[trigger] peer_views(ps).contains(x) <==> (exists|i: int|
                0 <= i < ps.len() && #[trigger] ps[i]@ == x),
{
    assert forall|x: Seq<char>| #[trigger] peer_views(ps).contains(x) implies (exists|i: int|
        0 <= i < ps.len() && #[trigger] ps[i]@ == x) by {
        let s = ps.map_values(|p: String| p@);
        let i = choose|i: int| 0 <= i < s.len() && s[i] == x;
        assert(ps[i]@ == x);
    }
    assert forall|x: Seq<char>, i: int|
        0 <= i < ps.len() && #[trigger] ps[i]@ == x implies #[trigger] peer_views(ps).contains(
        x) by {
        let s = ps.map_values(|p: String| p@);
        assert(s[i] == x);
        assert(s.contains(x));
    }
}

proof fn lemma_peer_views_push(ps: Seq<String>, p: String)
    ensures
        peer_views(ps.push(p)) == peer_views(ps).insert(p@),
{
    lemma_peer_views_members(ps.push(p));
    lemma_peer_views_members(ps);
    assert forall|x: Seq<char>| #[trigger] peer_views(ps.push(p)).contains(x) implies peer_views(
        ps).insert(p@).contains(x) by {
        let i = choose|i: int| 0 <= i < ps.push(p).len() && ps.push(p)[i]@ == x;
        if i < ps.len() {
            assert(ps[i]@ == x);
        }
    }
    assert forall|x: Seq<char>| peer_views(ps).insert(p@).contains(x) implies #[trigger] peer_views(
        ps.push(p)).contains(x) by {
        if x == p@ {
            assert(ps.push(p)[ps.len() as int]@ == x);
        } else {
            let i = choose|i: int| 0 <= i < ps.len() && ps[i]@ == x;
            assert(ps.push(p)[i]@ == x);
        }
    }
    assert(peer_views(ps.push(p)) =~= peer_views(ps).insert(p@));
}

proof fn lemma_peer_views_take_step(ps: Seq<String>, j: int)
    requires
        0 <= j < ps.len(),
    ensures
        peer_views(ps.take(j + 1)) == peer_views(ps.take(j)).insert(ps[j]@),
{
    assert(ps.take(j + 1) =~= ps.take(j).push(ps[j]));
    lemma_peer_views_push(ps.take(j), ps[j]);
}

proof fn lemma_peer_views_empty()
    ensures
        peer_views(Seq::<String>::empty()) == Set::<Seq<char>>::empty(),
{
    lemma_peer_views_members(Seq::<String>::empty());
    assert(peer_views(Seq::<String>::empty()) =~= Set::<Seq<char>>::empty());
}

struct Entry {
    node: String,
    peers: Vec<String>,
}

/// Mapping from node identifier to the set of its announced neighbors.
pub struct NeighborTable {
    entries: Vec<Entry>,
}

impl View for NeighborTable {
    type V = Map<Seq<char>, Set<Seq<char>>>;

    closed spec fn view(&self) -> Map<Seq<char>, Set<Seq<char>>> {
        Map::new(
            |k: Seq<char>| self.has_key(k),
            |k: Seq<char>| peer_views(self.entries@[self.idx_of(k)].peers@),
        )
    }
}

impl NeighborTable {
    spec fn has_key(self, k: Seq<char>) -> bool {
        exists|i: int| 0 <= i < self.entries@.len() && self.entries@[i].node@ == k
    }

    spec fn idx_of(self, k: Seq<char>) -> int {
        choose|i: int| 0 <= i < self.entries@.len() && self.entries@[i].node@ == k
    }

    /// Well-formed: no node identifier owns two entries.
    pub closed spec fn wf(self) -> bool {
        forall|i: int, j: int|
            0 <= i < self.entries@.len() && 0 <= j < self.entries@.len() && i != j ==> (
            #[trigger] self.entries@[i].node@) != (#[trigger] self.entries@[j].node@)
    }

    proof fn lemma_entry_view(self, i: int)
        requires
            self.wf(),
            0 <= i < self.entries@.len(),
        ensures
            self@.dom().contains(self.entries@[i].node@),
            self@[self.entries@[i].node@] == peer_views(self.entries@[i].peers@),
            self.idx_of(self.entries@[i].node@) == i,
    {
        let k = self.entries@[i].node@;
        assert(self.has_key(k));
        let j = self.idx_of(k);
        assert(0 <= j < self.entries@.len() && self.entries@[j].node@ == k);
        assert(j == i);
    }

    /// An empty table: no node is registered.
    pub fn new() -> (t: NeighborTable)
        ensures
            t.wf(),
            t@ == Map::<Seq<char>, Set<Seq<char>>>::empty(),
    {
        let t = NeighborTable { entries: Vec::new() };
        proof {
            assert(t@ =~= Map::<Seq<char>, Set<Seq<char>>>::empty());
        }
        t
    }

    proof fn lemma_view_after_push(pre: NeighborTable, post: NeighborTable, e: Entry)
        requires
            pre.wf(),
            !pre.has_key(e.node@),
            post.entries@ == pre.entries@.push(e),
        ensures
            post.wf(),
            post@ == pre@.insert(e.node@, peer_views(e.peers@)),
    {
        let n = pre.entries@.len() as int;
        assert forall|i: int, j: int|
            0 <= i < post.entries@.len() && 0 <= j < post.entries@.len() && i != j implies (
        #[trigger] post.entries@[i].node@) != (#[trigger] post.entries@[j].node@) by {
            if i < n && j < n {
                assert(pre.entries@[i].node@ != pre.entries@[j].node@);
            } else if i == n {
                assert(post.entries@[j].node@ == pre.entries@[j].node@);
            } else {
                assert(post.entries@[i].node@ == pre.entries@[i].node@);
            }
        }
        let target = pre@.insert(e.node@, peer_views(e.peers@));
        assert forall|k: Seq<char>| post@.dom().contains(k) implies target.dom().contains(k)
            && post@[k] == target[k] by {
            let i = post.idx_of(k);
            assert(0 <= i < post.entries@.len() && post.entries@[i].node@ == k);
            if i == n {
                assert(k == e.node@);
                assert(post@[k] == peer_views(e.peers@));
            } else {
                assert(pre.entries@[i].node@ == k);
                assert(pre.has_key(k));
                pre.lemma_entry_view(i);
                assert(pre.idx_of(k) == i);
                assert(k != e.node@);
                assert(post@[k] == peer_views(post.entries@[post.idx_of(k)].peers@));
                post.lemma_entry_view(i);
                assert(post.idx_of(k) == i);
                assert(post@[k] == peer_views(pre.entries@[i].peers@));
            }
        }
        assert forall|k: Seq<char>| target.dom().contains(k) implies post@.dom().contains(k) by {
            if k == e.node@ {
                assert(post.entries@[n].node@ == k);
            } else {
                let i = pre.idx_of(k);
                assert(0 <= i < pre.entries@.len() && pre.entries@[i].node@ == k);
                assert(post.entries@[i].node@ == k);
            }
        }
        assert(post@ =~= target);
    }

    proof fn lemma_view_after_update(pre: NeighborTable, post: NeighborTable, i: int, e: Entry)
        requires
            pre.wf(),
            0 <= i < pre.entries@.len(),
            e.node@ == pre.entries@[i].node@,
            post.entries@ == pre.entries@.update(i, e),
        ensures
            post.wf(),
            post@ == pre@.insert(e.node@, peer_views(e.peers@)),
    {
        assert forall|a: int, b: int|
            0 <= a < post.entries@.len() && 0 <= b < post.entries@.len() && a != b implies (
        #[trigger] post.entries@[a].node@) != (#[trigger] post.entries@[b].node@) by {
            assert(post.entries@[a].node@ == pre.entries@[a].node@);
            assert(post.entries@[b].node@ == pre.entries@[b].node@);
            assert(pre.entries@[a].node@ != pre.entries@[b].node@);
        }
        let target = pre@.insert(e.node@, peer_views(e.peers@));
        assert forall|k: Seq<char>| post@.dom().contains(k) implies target.dom().contains(k)
            && post@[k] == target[k] by {
            let a = post.idx_of(k);
            assert(0 <= a < post.entries@.len() && post.entries@[a].node@ == k);
            assert(pre.entries@[a].node@ == k);
            assert(pre.has_key(k));
            pre.lemma_entry_view(a);
            post.lemma_entry_view(a);
            if a == i {
                assert(k == e.node@);
                assert(post@[k] == peer_views(e.peers@));
            } else {
                assert(k != e.node@);
                assert(post@[k] == peer_views(pre.entries@[a].peers@));
            }
        }
        assert forall|k: Seq<char>| target.dom().contains(k) implies post@.dom().contains(k) by {
            if k == e.node@ {
                assert(post.entries@[i].node@ == k);
            } else {
                let a = pre.idx_of(k);
                assert(0 <= a < pre.entries@.len() && pre.entries@[a].node@ == k);
                assert(post.entries@[a].node@ == k);
            }
        }
        assert(post@ =~= target);
    }

    fn find(&self, key: &String) -> (r: Option<usize>)
        ensures
            match r {
                Some(i) => 0 <= i < self.entries@.len() && self.entries@[i as int].node@ == key@,
                None => !self.has_key(key@),
            },
    {
        let mut i: usize = 0;
        while i < self.entries.len()
            invariant
                i <= self.entries@.len(),
                forall|j: int| 0 <= j < i ==> (#[trigger] self.entries@[j].node@) != key@,
            decreases self.entries@.len() - i,
        {
            if self.entries[i].node == *key {
                return Some(i);
            }
            i += 1;
        }
        None
    }
    /// Unions `peers` into `node_id`'s peer set, creating the entry with
    /// exactly those peers when `node_id` was not yet registered. Entries
    /// of other nodes are untouched: announcements are additive.
    pub fn merge_topology(&mut self, node_id: &String, peers: &Vec<String>)
        requires
            old(self).wf(),
        ensures
            final(self).wf(),
            final(self)@ == merged(old(self)@, node_id@, peer_views(peers@)),
    {
        match self.find(node_id) {
            Some(i) => {
                let ghost pre = *self;
                let mut entry = self.entries.remove(i);
                let ghost orig = entry.peers@;
                union_into(&mut entry.peers, peers);
                let ghost e = entry;
                self.entries.insert(i, entry);
                proof {
                    assert(self.entries@ =~= pre.entries@.update(i as int, e));
                    Self::lemma_view_after_update(pre, *self, i as int, e);
                    pre.lemma_entry_view(i as int);
                    assert(peers_of(pre@, node_id@) == peer_views(orig));
                }
            },
            None => {
                let mut fresh: Vec<String> = Vec::new();
                union_into(&mut fresh, peers);
                let ghost pre = *self;
                let node = node_id.clone();
                let ghost e = (Entry { node, peers: fresh });
                self.entries.push(Entry { node, peers: fresh });
                proof {
                    Self::lemma_view_after_push(pre, *self, e);
                    lemma_peer_views_empty();
                    assert(Set::<Seq<char>>::empty().union(peer_views(peers@)) =~= peer_views(
                        peers@));
                    assert(peers_of(pre@, node_id@) == Set::<Seq<char>>::empty());
                }
            },
        }
    }

    /// The peer identifiers currently recorded for `node_id`: `None` when
    /// the node is not registered, otherwise a list whose members are
    /// exactly its peer set.
    pub fn peers_of_node(&self, node_id: &String) -> (r: Option<Vec<String>>)
        requires
            self.wf(),
        ensures
            match r {
                Some(ps) => self@.dom().contains(node_id@) && peer_views(ps@) == self@[node_id@],
                None => !self@.dom().contains(node_id@),
            },
    {
        match self.find(node_id) {
            Some(i) => {
                proof {
                    self.lemma_entry_view(i as int);
                }
                let entry = &self.entries[i];
                let mut out: Vec<String> = Vec::new();
                let mut j: usize = 0;
                while j < entry.peers.len()
                    invariant
                        j <= entry.peers@.len(),
                        out@ == entry.peers@.take(j as int),
                    decreases entry.peers@.len() - j,
                {
                    out.push(entry.peers[j].clone());
                    proof {
                        assert(out@ =~= entry.peers@.take(j as int + 1));
                    }
                    j += 1;
                }
                proof {
                    assert(entry.peers@.take(entry.peers@.len() as int) =~= entry.peers@);
                }
                Some(out)
            },
            None => None,
        }
    }

    /// Every node identifier currently registered, each exactly once, in
    /// no particular order: the fanout target list for dissemination.
    pub fn snapshot_all_node_ids(&self) -> (r: Vec<String>)
        requires
            self.wf(),
        ensures
            id_views(r@).to_set() == self@.dom(),
            id_views(r@).no_duplicates(),
    {
        let mut r: Vec<String> = Vec::new();
        let mut i: usize = 0;
        while i < self.entries.len()
            invariant
                i <= self.entries@.len(),
                id_views(r@).len() == i,
                forall|j: int| 0 <= j < i ==> #[trigger] id_views(r@)[j] == self.entries@[j].node@,
            decreases self.entries@.len() - i,
        {
            let ghost rpre = r@;
            r.push(self.entries[i].node.clone());
            proof {
                assert forall|j: int| 0 <= j < i + 1 implies #[trigger] id_views(r@)[j]
                    == self.entries@[j].node@ by {
                    assert(id_views(r@)[j] == r@[j]@);
                    if j < i {
                        assert(r@[j] == rpre[j]);
                        assert(id_views(rpre)[j] == rpre[j]@);
                    }
                }
            }
            i += 1;
        }
        proof {
            assert forall|j: int, l: int|
                0 <= j < id_views(r@).len() && 0 <= l < id_views(r@).len() && j != l implies
            #[trigger] id_views(r@)[j] != #[trigger] id_views(r@)[l] by {
                assert(id_views(r@)[j] == self.entries@[j].node@);
                assert(id_views(r@)[l] == self.entries@[l].node@);
            }
            assert forall|k: Seq<char>| id_views(r@).to_set().contains(k) implies
                self@.dom().contains(k) by {
                let j = choose|j: int| 0 <= j < id_views(r@).len() && id_views(r@)[j] == k;
                assert(self.entries@[j].node@ == k);
            }
            assert forall|k: Seq<char>| self@.dom().contains(k) implies id_views(
                r@).to_set().contains(k) by {
                let j = self.idx_of(k);
                assert(0 <= j < self.entries@.len() && self.entries@[j].node@ == k);
                assert(id_views(r@)[j] == k);
                assert(id_views(r@).contains(k));
            }
            assert(id_views(r@).to_set() =~= self@.dom());
        }
        r
    }
}

/// Ensures an entry exists for `peer`: a node never seen before is
/// registered with an empty peer set, and a node already registered is
/// left exactly as it was — in particular, an already-populated peer set
/// is never cleared.
pub fn add_known_peer(table: &mut NeighborTable, peer: &str)
    requires
        old(table).wf(),
    ensures
        final(table).wf(),
        final(table)@ == register_one(old(table)@, peer@),
{
    let p: String = peer.to_owned();
    match table.find(&p) {
        Some(i) => {
            proof {
                table.lemma_entry_view(i as int);
                assert(table@.dom().contains(peer@));
            }
        },
        None => {
            let ghost pre = *table;
            let empty_peers: Vec<String> = Vec::new();
            let ghost e = (Entry { node: p, peers: empty_peers });
            table.entries.push(Entry { node: p, peers: empty_peers });
            proof {
                NeighborTable::lemma_view_after_push(pre, *table, e);
                lemma_peer_views_empty();
                assert(e.peers@ =~= Seq::<String>::empty());
            }
        },
    }
}

fn contains_string(v: &Vec<String>, s: &String) -> (r: bool)
    ensures
        r == peer_views(v@).contains(s@),
{
    proof {
        lemma_peer_views_members(v@);
    }
    let mut i: usize = 0;
    while i < v.len()
        invariant
            i <= v@.len(),
            forall|j: int| 0 <= j < i ==> #[trigger] v@[j]@ != s@,
        decreases v@.len() - i,
    {
        if v[i] == *s {
            proof {
                lemma_peer_views_members(v@);
            }
            return true;
        }
        i += 1;
    }
    proof {
        lemma_peer_views_members(v@);
    }
    false
}

/// Unions the identifiers of `src` into `dst`, skipping those already
/// present, so that `dst` keeps listing each peer once.
fn union_into(dst: &mut Vec<String>, src: &Vec<String>)
    ensures
        peer_views(final(dst)@) == peer_views(old(dst)@).union(peer_views(src@)),
{
    let ghost d0 = old(dst)@;
    let mut j: usize = 0;
    proof {
        assert(src@.take(0) =~= Seq::<String>::empty());
        lemma_peer_views_empty();
        assert(peer_views(d0).union(peer_views(src@.take(0))) =~= peer_views(d0));
    }
    while j < src.len()
        invariant
            j <= src@.len(),
            peer_views(dst@) == peer_views(d0).union(peer_views(src@.take(j as int))),
        decreases src@.len() - j,
    {
        let p = src[j].clone();
        let present = contains_string(dst, &p);
        proof {
            lemma_peer_views_take_step(src@, j as int);
        }
        if !present {
            let ghost dpre = dst@;
            dst.push(p);
            proof {
                lemma_peer_views_push(dpre, p);
                assert(peer_views(dst@) =~= peer_views(d0).union(
                    peer_views(src@.take(j as int + 1))));
            }
        } else {
            proof {
                assert(peer_views(dst@).contains(src@[j as int]@));
                assert(peer_views(dst@) =~= peer_views(d0).union(
                    peer_views(src@.take(j as int + 1))));
            }
        }
        j += 1;
    }
    proof {
        assert(src@.take(src@.len() as int) =~= src@);
    }
}

/// Registration is idempotent: registering a node a second time is a
/// no-op, and registering a node that is already present — however many
/// peers it has accumulated — never clears its peer set.
pub proof fn lemma_register_idempotent(m: Map<Seq<char>, Set<Seq<char>>>, k: Seq<char>)
    ensures
        register_one(register_one(m, k), k) == register_one(m, k),
        m.dom().contains(k) ==> register_one(m, k) == m,
{
    if !m.dom().contains(k) {
        assert(register_one(m, k).dom().contains(k));
    }
}

/// Topology announcements accumulate: merging peer set `p1` for node `k`
/// and then `p2` leaves `k` mapped to its original peers unioned with
/// both announcements, and touches no other entry.
pub proof fn lemma_merge_accumulates(
    m: Map<Seq<char>, Set<Seq<char>>>,
    k: Seq<char>,
    p1: Set<Seq<char>>,
    p2: Set<Seq<char>>,
)
    ensures
        merged(merged(m, k, p1), k, p2) == m.insert(k, peers_of(m, k).union(p1).union(p2)),
{
    let m1 = merged(m, k, p1);
    assert(m1.dom().contains(k));
    assert(peers_of(m1, k) == peers_of(m, k).union(p1));
    assert(merged(m1, k, p2) =~= m.insert(k, peers_of(m, k).union(p1).union(p2)));
}

} // verus!
