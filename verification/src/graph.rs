//! A read-only snapshot of locally synced room state: which rooms are
//! joined (in join order), which of them are spaces, and the locally known
//! parent/child relationship edges.

use vstd::prelude::*;

use crate::room_id::RoomId;

verus! {

/// Which side asserted a relationship edge.
#[derive(Clone, Copy, PartialEq, Eq, Structural, Debug)]
pub enum EdgeOrigin {
    Local,
    Server,
}

/// A directional parent/child relationship claim carried in room state.
///
/// A parent's child-edge and a child's parent-edge are independent claims;
/// asymmetric states are valid.  `removed` marks a tombstoned (explicitly
/// retracted) relationship, which must suppress the edge even if the
/// counterpart side still asserts it.
pub struct RelationshipEdge {
    pub parent: RoomId,
    pub child: RoomId,
    pub origin: EdgeOrigin,
    /// Caller-supplied sort key; absence falls back to creation timestamp,
    /// then to lexicographic room id comparison.
    pub order: Option<Vec<u8>>,
    /// Whether the parent flags the child as recommended for discovery.
    pub suggested: bool,
    /// Server names through which the child is reachable.
    pub via: Vec<Vec<u8>>,
    /// Tombstone: the relationship was explicitly retracted locally.
    pub removed: bool,
}

/// A joined room together with its fixed space classification.
pub struct RoomInfo {
    pub id: RoomId,
    /// Space classification, derived from the room's creation state and
    /// never recomputed mid-lifecycle.
    pub is_space: bool,
}

/// There is an edge in `edges` tombstoning `child` under `parent`.
pub open spec fn locally_tombstoned(edges: Seq<RelationshipEdge>, parent: Seq<u8>, child: Seq<u8>) -> bool {
    exists|i: int|
        0 <= i < edges.len() && edges[i].parent@ == parent && edges[i].child@ == child
            && edges[i].removed
}

/// The two edges carry the same values in every field.
pub open spec fn edge_like(a: RelationshipEdge, b: RelationshipEdge) -> bool {
    &&& a.parent@ == b.parent@
    &&& a.child@ == b.child@
    &&& a.origin == b.origin
    &&& crate::resolver::opt_bytes_view(a.order) == crate::resolver::opt_bytes_view(b.order)
    &&& a.suggested == b.suggested
    &&& a.via@.len() == b.via@.len()
    &&& (forall|i: int| 0 <= i < a.via@.len() ==> (#[trigger] a.via@[i])@ == b.via@[i]@)
    &&& a.removed == b.removed
}

/// The edges claiming `parent` as parent, in the order given.
pub open spec fn edges_for(s: Seq<RelationshipEdge>, parent: Seq<u8>) -> Seq<RelationshipEdge>
    decreases s.len(),
{
    if s.len() == 0 {
        Seq::empty()
    } else {
        let front = edges_for(s.drop_last(), parent);
        if s.last().parent@ == parent {
            front + seq![s.last()]
        } else {
            front
        }
    }
}

/// A verified field-wise copy of an edge, equal in every field value.
pub fn duplicate_edge(e: &RelationshipEdge) -> (r: RelationshipEdge)
    ensures
        edge_like(r, *e),
{
    let mut servers: Vec<Vec<u8>> = Vec::new();
    let mut i: usize = 0;
    while i < e.via.len()
        invariant
            i <= e.via@.len(),
            servers@.len() == i,
            forall|j: int| 0 <= j < i ==> (#[trigger] servers@[j])@ == e.via@[j]@,
        decreases e.via@.len() - i,
    {
        servers.push(crate::room_id::copy_bytes(&e.via[i]));
        i += 1;
    }
    RelationshipEdge {
        parent: e.parent.duplicate(),
        child: e.child.duplicate(),
        origin: e.origin,
        order: crate::resolver::copy_opt_bytes(&e.order),
        suggested: e.suggested,
        via: servers,
        removed: e.removed,
    }
}

/// Read-only view over locally synced room state.
///
/// `joined` lists the joined rooms in the view's stable iteration order
/// (join order); the protocol layer guarantees that room ids are unique.
pub struct RoomGraphView {
    pub joined: Vec<RoomInfo>,
    pub edges: Vec<RelationshipEdge>,
}

impl RoomGraphView {
    /// Well-formedness: joined room ids are pairwise distinct.
    pub open spec fn wf(self) -> bool {
        forall|i: int, j: int|
            0 <= i < self.joined@.len() && 0 <= j < self.joined@.len() && i != j
                ==> self.joined@[i].id@ != self.joined@[j].id@
    }

    /// Some joined room carries this id.
    pub open spec fn spec_joined(self, id: Seq<u8>) -> bool {
        exists|i: int| 0 <= i < self.joined@.len() && self.joined@[i].id@ == id
    }

    /// Some joined room carries this id and is classified as a space.
    pub open spec fn spec_is_space(self, id: Seq<u8>) -> bool {
        exists|i: int|
            0 <= i < self.joined@.len() && self.joined@[i].id@ == id && self.joined@[i].is_space
    }

    pub fn new(joined: Vec<RoomInfo>, edges: Vec<RelationshipEdge>) -> (r: RoomGraphView)
        ensures
            r.joined@ == joined@,
            r.edges@ == edges@,
    {
        RoomGraphView { joined, edges }
    }

    /// Whether a joined room carries this id.
    pub fn is_joined(&self, id: &RoomId) -> (r: bool)
        ensures
            r == self.spec_joined(id@),
    {
        let mut i: usize = 0;
        while i < self.joined.len()
            invariant
                i <= self.joined@.len(),
                forall|j: int| 0 <= j < i ==> self.joined@[j].id@ != id@,
            decreases self.joined@.len() - i,
        {
            if self.joined[i].id.same_as(id) {
                proof {
                    assert(self.joined@[i as int].id@ == id@);
                }
                return true;
            }
            i += 1;
        }
        false
    }

    /// Whether the joined room with this id is classified as a space.
    pub fn is_space(&self, id: &RoomId) -> (r: bool)
        requires
            self.wf(),
        ensures
            r == self.spec_is_space(id@),
    {
        let mut i: usize = 0;
        while i < self.joined.len()
            invariant
                i <= self.joined@.len(),
                self.wf(),
                forall|j: int| 0 <= j < i ==> self.joined@[j].id@ != id@,
            decreases self.joined@.len() - i,
        {
            if self.joined[i].id.same_as(id) {
                if self.joined[i].is_space {
                    proof {
                        assert(self.joined@[i as int].id@ == id@ && self.joined@[i as int].is_space);
                    }
                    return true;
                } else {
                    proof {
                        assert forall|j: int|
                            0 <= j < self.joined@.len() implies !(self.joined@[j].id@ == id@
                            && self.joined@[j].is_space) by {
                            if j != i {
                                assert(self.joined@[j].id@ != self.joined@[i as int].id@);
                            }
                        }
                    }
                    return false;
                }
            }
            i += 1;
        }
        false
    }

    /// The joined room ids, in join order.
    pub fn joined_room_ids(&self) -> (r: Vec<RoomId>)
        ensures
            r@.len() == self.joined@.len(),
            forall|i: int| 0 <= i < r@.len() ==> r@[i]@ == self.joined@[i].id@,
    {
        let mut r: Vec<RoomId> = Vec::new();
        let mut i: usize = 0;
        while i < self.joined.len()
            invariant
                i <= self.joined@.len(),
                r@.len() == i,
                forall|j: int| 0 <= j < i ==> r@[j]@ == self.joined@[j].id@,
            decreases self.joined@.len() - i,
        {
            r.push(self.joined[i].id.duplicate());
            i += 1;
        }
        r
    }

    /// The locally observed relationship edges claiming `parent` as
    /// parent, in the order given: value-wise copies of
    /// [`edges_for`]`(self.edges@, parent@)`.
    pub fn relationship_edges_for(&self, parent: &RoomId) -> (r: Vec<RelationshipEdge>)
        ensures
            r@.len() == edges_for(self.edges@, parent@).len(),
            forall|k: int|
                0 <= k < r@.len() ==> edge_like(
                    #[trigger] r@[k],
                    edges_for(self.edges@, parent@)[k],
                ),
    {
        let mut r: Vec<RelationshipEdge> = Vec::new();
        let mut i: usize = 0;
        proof {
            assert(self.edges@.take(0) =~= Seq::<RelationshipEdge>::empty());
        }
        while i < self.edges.len()
            invariant
                i <= self.edges@.len(),
                r@.len() == edges_for(self.edges@.take(i as int), parent@).len(),
                forall|k: int|
                    0 <= k < r@.len() ==> edge_like(
                        #[trigger] r@[k],
                        edges_for(self.edges@.take(i as int), parent@)[k],
                    ),
            decreases self.edges@.len() - i,
        {
            let ghost pre = self.edges@.take(i as int);
            let ghost ext = self.edges@.take(i as int + 1);
            proof {
                assert(ext.drop_last() =~= pre);
                assert(ext.last() == self.edges@[i as int]);
            }
            if self.edges[i].parent.same_as(parent) {
                r.push(duplicate_edge(&self.edges[i]));
                proof {
                    assert(edges_for(ext, parent@) == edges_for(pre, parent@) + seq![
                        self.edges@[i as int],
                    ]);
                }
            } else {
                proof {
                    assert(edges_for(ext, parent@) == edges_for(pre, parent@));
                }
            }
            i += 1;
        }
        proof {
            assert(self.edges@.take(self.edges@.len() as int) =~= self.edges@);
        }
        r
    }

    /// The child ids locally tombstoned under `parent`: exactly those ids
    /// `c` with [`locally_tombstoned`]`(self.edges@, parent@, c)`.
    pub fn tombstoned_children_of(&self, parent: &RoomId) -> (r: Vec<RoomId>)
        ensures
            forall|c: Seq<u8>|
                #[trigger] crate::resolver::id_in(r@, c) <==> locally_tombstoned(
                    self.edges@,
                    parent@,
                    c,
                ),
    {
        let mut r: Vec<RoomId> = Vec::new();
        let mut i: usize = 0;
        while i < self.edges.len()
            invariant
                i <= self.edges@.len(),
                forall|c: Seq<u8>|
                    #[trigger] crate::resolver::id_in(r@, c) <==> locally_tombstoned(
                        self.edges@.take(i as int),
                        parent@,
                        c,
                    ),
            decreases self.edges@.len() - i,
        {
            let e = &self.edges[i];
            let ghost prev = r@;
            if e.removed && e.parent.same_as(parent) {
                r.push(e.child.duplicate());
                proof {
                    assert(r@.take(prev.len() as int) =~= prev);
                    assert(r@[prev.len() as int]@ == self.edges@[i as int].child@);
                }
            }
            proof {
                lemma_tombstone_step(self.edges@, i as int, parent@, prev, r@);
            }
            i += 1;
        }
        proof {
            assert(self.edges@.take(self.edges@.len() as int) =~= self.edges@);
        }
        r
    }
}

/// One step of the tombstone collection loop: extending the scanned prefix
/// by one edge extends the collected id set by that edge's child exactly
/// when the edge tombstones it under `parent`.
proof fn lemma_tombstone_step(
    edges: Seq<RelationshipEdge>,
    i: int,
    parent: Seq<u8>,
    prev: Seq<RoomId>,
    cur: Seq<RoomId>,
)
    requires
        0 <= i < edges.len(),
        forall|c: Seq<u8>|
            #[trigger] crate::resolver::id_in(prev, c) <==> locally_tombstoned(
                edges.take(i),
                parent,
                c,
            ),
        if edges[i].removed && edges[i].parent@ == parent {
            cur.len() == prev.len() + 1 && cur.take(prev.len() as int) == prev && cur[prev.len() as int]@
                == edges[i].child@
        } else {
            cur == prev
        },
    ensures
        forall|c: Seq<u8>|
            #[trigger] crate::resolver::id_in(cur, c) <==> locally_tombstoned(
                edges.take(i + 1),
                parent,
                c,
            ),
{
    let pre = edges.take(i);
    let ext = edges.take(i + 1);
    assert(ext.len() == i + 1);
    assert(forall|j: int| 0 <= j < i ==> ext[j] == edges[j] && pre[j] == edges[j]);
    assert(ext[i] == edges[i]);
    assert forall|c: Seq<u8>| #[trigger]
        crate::resolver::id_in(cur, c) <==> locally_tombstoned(ext, parent, c) by {
        if crate::resolver::id_in(cur, c) {
            let k = choose|k: int| 0 <= k < cur.len() && cur[k]@ == c;
            if k < prev.len() {
                assert(cur.take(prev.len() as int)[k]@ == c);
                assert(crate::resolver::id_in(prev, c));
                let m = choose|m: int|
                    0 <= m < pre.len() && pre[m].parent@ == parent && pre[m].child@ == c
                        && pre[m].removed;
                assert(ext[m].parent@ == parent && ext[m].child@ == c && ext[m].removed);
            } else {
                assert(edges[i].removed && edges[i].parent@ == parent);
                assert(cur[prev.len() as int]@ == edges[i].child@);
                assert(ext[i].parent@ == parent && ext[i].child@ == c && ext[i].removed);
            }
            assert(locally_tombstoned(ext, parent, c));
        }
        if locally_tombstoned(ext, parent, c) {
            let m = choose|m: int|
                0 <= m < ext.len() && ext[m].parent@ == parent && ext[m].child@ == c
                    && ext[m].removed;
            if m < i {
                assert(pre[m].parent@ == parent && pre[m].child@ == c && pre[m].removed);
                assert(locally_tombstoned(pre, parent, c));
                assert(crate::resolver::id_in(prev, c));
                let k = choose|k: int| 0 <= k < prev.len() && prev[k]@ == c;
                if cur != prev {
                    assert(cur.take(prev.len() as int)[k]@ == c);
                }
                assert(crate::resolver::id_in(cur, c));
            } else {
                assert(edges[i].child@ == c && edges[i].removed && edges[i].parent@ == parent);
                assert(cur[prev.len() as int]@ == c);
                assert(crate::resolver::id_in(cur, c));
            }
        }
    }
}

} // verus!
