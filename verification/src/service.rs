//! The high-level entry points: deriving the joined spaces from the view,
//! and starting a resolution of a space's direct children.

use vstd::prelude::*;

use crate::graph::{RoomGraphView, RoomInfo};
use crate::resolver::{Resolution, ResolveError, ResolveOptions};
use crate::room_id::RoomId;

verus! {

/// The id values of a room id sequence.
pub open spec fn ids_view(s: Seq<RoomId>) -> Seq<Seq<u8>> {
    Seq::new(s.len(), |i: int| s[i]@)
}

/// The ids of the rooms classified as spaces, in the order given: the
/// order-preserving filter of the join order.
pub open spec fn space_ids(joined: Seq<RoomInfo>) -> Seq<Seq<u8>>
    decreases joined.len(),
{
    if joined.len() == 0 {
        Seq::empty()
    } else {
        let rest = space_ids(joined.drop_first());
        if joined[0].is_space {
            seq![joined[0].id@] + rest
        } else {
            rest
        }
    }
}

/// Some joined room carries id `v` and is classified as a space.
pub open spec fn joined_space_with_id(joined: Seq<RoomInfo>, v: Seq<u8>) -> bool {
    exists|j: int| 0 <= j < joined.len() && (#[trigger] joined[j]).id@ == v && joined[j].is_space
}

/// Every id in [`space_ids`] belongs to a joined room classified as a
/// space: rooms without the space classification never appear, regardless
/// of join order.
pub proof fn lemma_space_ids_only_spaces(joined: Seq<RoomInfo>)
    ensures
        forall|i: int|
            0 <= i < space_ids(joined).len() ==> joined_space_with_id(
                joined,
                #[trigger] space_ids(joined)[i],
            ),
    decreases joined.len(),
{
    if joined.len() == 0 {
    } else {
        lemma_space_ids_only_spaces(joined.drop_first());
        let rest = space_ids(joined.drop_first());
        let whole = space_ids(joined);
        assert forall|i: int| 0 <= i < whole.len() implies joined_space_with_id(
            joined,
            whole[i],
        ) by {
            if joined[0].is_space && i == 0 {
                assert(whole[0] == joined[0].id@);
                assert(joined[0].id@ == whole[0] && joined[0].is_space);
            } else {
                let r: int = if joined[0].is_space {
                    i - 1
                } else {
                    i
                };
                assert(whole[i] == rest[r]);
                assert(joined_space_with_id(joined.drop_first(), rest[r]));
                let j = choose|j: int|
                    0 <= j < joined.drop_first().len() && (#[trigger] joined.drop_first()[j]).id@
                        == rest[r] && joined.drop_first()[j].is_space;
                assert(joined.drop_first()[j] == joined[j + 1]);
                assert(joined[j + 1].id@ == whole[i] && joined[j + 1].is_space);
            }
        }
    }
}

/// Every joined room classified as a space appears in [`space_ids`].
pub proof fn lemma_space_ids_complete(joined: Seq<RoomInfo>)
    ensures
        forall|j: int|
            0 <= j < joined.len() && (#[trigger] joined[j]).is_space ==> space_ids(
                joined,
            ).contains(joined[j].id@),
    decreases joined.len(),
{
    if joined.len() == 0 {
    } else {
        lemma_space_ids_complete(joined.drop_first());
        let rest = space_ids(joined.drop_first());
        let whole = space_ids(joined);
        assert forall|j: int|
            0 <= j < joined.len() && (#[trigger] joined[j]).is_space implies whole.contains(
            joined[j].id@,
        ) by {
            if j == 0 {
                assert(whole[0] == joined[0].id@);
            } else {
                assert(joined.drop_first()[j - 1] == joined[j]);
                assert(rest.contains(joined[j].id@));
                let k = choose|k: int| 0 <= k < rest.len() && rest[k] == joined[j].id@;
                if joined[0].is_space {
                    assert(whole[k + 1] == rest[k]);
                } else {
                    assert(whole[k] == rest[k]);
                }
            }
        }
    }
}

/// High level interface for working with spaces over a synced view.
///
/// The view is an explicit snapshot handed in by the caller, never
/// ambient state; staleness is acceptable and correctness is best effort
/// as of the last sync.
pub struct SpaceService {
    pub view: RoomGraphView,
}

impl SpaceService {
    pub fn new(view: RoomGraphView) -> (r: SpaceService)
        ensures
            r.view == view,
    {
        SpaceService { view }
    }

    /// The joined rooms classified as spaces, in the view's stable join
    /// order: exactly [`space_ids`] of the view's joined rooms.  No
    /// duplicates arise (the source set is unique), an empty result is
    /// valid, and repeated calls on the same view return the same list.
    pub fn joined_spaces(&self) -> (r: Vec<RoomId>)
        ensures
            ids_view(r@) == space_ids(self.view.joined@),
    {
        let joined = &self.view.joined;
        let mut r: Vec<RoomId> = Vec::new();
        let mut i: usize = 0;
        proof {
            assert(joined@.skip(0) =~= joined@);
            assert(ids_view(r@) + space_ids(joined@) =~= space_ids(joined@));
        }
        while i < joined.len()
            invariant
                i <= joined@.len(),
                joined@ == self.view.joined@,
                ids_view(r@) + space_ids(joined@.skip(i as int)) == space_ids(joined@),
            decreases joined@.len() - i,
        {
            let ghost pre = r@;
            let ghost tail = joined@.skip(i as int);
            proof {
                assert(tail[0] == joined@[i as int]);
                assert(tail.drop_first() =~= joined@.skip(i as int + 1));
            }
            if joined[i].is_space {
                r.push(joined[i].id.duplicate());
                proof {
                    assert(ids_view(r@) =~= ids_view(pre) + seq![joined@[i as int].id@]);
                    assert((ids_view(pre) + seq![joined@[i as int].id@]) + space_ids(
                        joined@.skip(i as int + 1),
                    ) =~= ids_view(pre) + (seq![joined@[i as int].id@] + space_ids(
                        joined@.skip(i as int + 1),
                    )));
                }
            }
            i += 1;
        }
        proof {
            assert(joined@.skip(joined@.len() as int) =~= Seq::<RoomInfo>::empty());
            assert(ids_view(r@) + Seq::<Seq<u8>>::empty() =~= ids_view(r@));
        }
        r
    }

    /// Begins resolving the ordered direct children of `space_id`; see
    /// [`Resolution::start`] for the contract.  The caller drives the
    /// returned resolution through [`Resolution::on_event`].
    pub fn top_level_children_for(&self, space_id: RoomId, options: ResolveOptions) -> (r: Result<
        Resolution,
        ResolveError,
    >)
        requires
            self.view.wf(),
        ensures
            match r {
                Err(e) => {
                    &&& e is NotFound
                    &&& self.view.spec_joined(space_id@)
                    &&& !self.view.spec_is_space(space_id@)
                },
                Ok(res) => {
                    &&& !self.view.spec_joined(space_id@) || self.view.spec_is_space(space_id@)
                    &&& res.wf()
                    &&& res.space_id@ == space_id@
                    &&& res.options == options
                    &&& res.acc@.len() == 0
                    &&& res.pages_fetched == 0
                    &&& res.state matches crate::resolver::ResolveState::Requesting { token }
                        && token is None
                    &&& forall|c: Seq<u8>|
                        #[trigger] crate::resolver::id_in(res.removed_children@, c)
                            <==> crate::graph::locally_tombstoned(self.view.edges@, space_id@, c)
                },
            },
    {
        Resolution::start(&self.view, space_id, options)
    }
}

} // verus!
