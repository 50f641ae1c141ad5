//! Coalescing of concurrent resolutions: at most one in-flight hierarchy
//! resolution per space id.  The registry is an exclusive-claim-per-key
//! structure with no cross-key contention; a second claim for a space
//! already in flight attaches to the existing operation's eventual result
//! instead of issuing a duplicate network sequence.

use vstd::prelude::*;

use crate::resolver::id_in;
use crate::room_id::RoomId;

verus! {

/// Ids in the sequence are pairwise distinct.
pub open spec fn distinct_ids(s: Seq<RoomId>) -> bool {
    forall|i: int, j: int|
        0 <= i < s.len() && 0 <= j < s.len() && i != j ==> (#[trigger] s[i])@ != (#[trigger] s[j])@
}

/// Extending a sequence by one id extends exactly that membership.
proof fn lemma_id_in_push(s: Seq<RoomId>, x: RoomId, c: Seq<u8>)
    ensures
        id_in(s.push(x), c) <==> (id_in(s, c) || x@ == c),
{
    if id_in(s.push(x), c) {
        let k = choose|k: int| 0 <= k < s.push(x).len() && s.push(x)[k]@ == c;
        if k < s.len() {
            assert(s[k]@ == c);
        } else {
            assert(s.push(x)[k] == x);
        }
    }
    if id_in(s, c) {
        let k = choose|k: int| 0 <= k < s.len() && s[k]@ == c;
        assert(s.push(x)[k]@ == c);
    }
    if x@ == c {
        assert(s.push(x)[s.len() as int]@ == c);
    }
}

/// Whether a claim began a new resolution or attached to one in flight.
#[derive(Clone, Copy, PartialEq, Eq, Structural, Debug)]
pub enum ClaimOutcome {
    /// No resolution was in flight for the space: the caller must start
    /// one and perform its network sequence.
    Started,
    /// A resolution for the space is already in flight: the caller must
    /// await its eventual result and issue no request of its own.
    Attached,
}

/// What [`CoalesceRegistry::claim`] guarantees: a claim starts exactly
/// when the key was free, afterwards the key is held, and no other key
/// changes.
pub open spec fn claim_post(
    pre: CoalesceRegistry,
    post: CoalesceRegistry,
    id: Seq<u8>,
    r: ClaimOutcome,
) -> bool {
    &&& (r is Started <==> !pre.claimed(id))
    &&& post.claimed(id)
    &&& forall|c: Seq<u8>| c != id ==> (#[trigger] post.claimed(c) <==> pre.claimed(c))
}

/// The in-flight registry: the set of space ids with a resolution in
/// flight.
pub struct CoalesceRegistry {
    pub in_flight: Vec<RoomId>,
}

impl CoalesceRegistry {
    /// No space id is registered twice.
    pub open spec fn wf(self) -> bool {
        distinct_ids(self.in_flight@)
    }

    /// A resolution for this space id is in flight.
    pub open spec fn claimed(self, id: Seq<u8>) -> bool {
        id_in(self.in_flight@, id)
    }

    pub fn new() -> (r: CoalesceRegistry)
        ensures
            r.wf(),
            forall|c: Seq<u8>| !(#[trigger] r.claimed(c)),
    {
        CoalesceRegistry { in_flight: Vec::new() }
    }

    /// Claims the key for `space_id`: `Started` exactly when no resolution
    /// was in flight for it, `Attached` otherwise; other keys are
    /// untouched.
    pub fn claim(&mut self, space_id: &RoomId) -> (r: ClaimOutcome)
        requires
            old(self).wf(),
        ensures
            final(self).wf(),
            claim_post(*old(self), *final(self), space_id@, r),
    {
        if crate::resolver::ids_contain(&self.in_flight, space_id) {
            ClaimOutcome::Attached
        } else {
            let ghost pre = self.in_flight@;
            self.in_flight.push(space_id.duplicate());
            proof {
                assert forall|c: Seq<u8>| true implies (#[trigger] id_in(self.in_flight@, c) <==> (
                id_in(pre, c) || space_id@ == c)) by {
                    lemma_id_in_push(pre, self.in_flight@[pre.len() as int], c);
                    assert(self.in_flight@ =~= pre.push(self.in_flight@[pre.len() as int]));
                }
                assert(distinct_ids(self.in_flight@)) by {
                    assert forall|i: int, j: int|
                        0 <= i < self.in_flight@.len() && 0 <= j < self.in_flight@.len() && i
                            != j implies (self.in_flight@[i])@ != (self.in_flight@[j])@ by {
                        if i < pre.len() && j < pre.len() {
                            assert(pre[i]@ != pre[j]@);
                        } else if j == pre.len() {
                            assert(!id_in(pre, space_id@));
                            assert(pre[i]@ != space_id@);
                        } else {
                            assert(!id_in(pre, space_id@));
                            assert(pre[j]@ != space_id@);
                        }
                    }
                }
            }
            ClaimOutcome::Started
        }
    }

    /// Releases the key for `space_id` once its resolution reached a
    /// terminal state; other keys are untouched.
    pub fn release(&mut self, space_id: &RoomId)
        requires
            old(self).wf(),
        ensures
            final(self).wf(),
            !final(self).claimed(space_id@),
            forall|c: Seq<u8>|
                c != space_id@ ==> (#[trigger] final(self).claimed(c) <==> old(self).claimed(c)),
    {
        let mut old_list: Vec<RoomId> = Vec::new();
        core::mem::swap(&mut old_list, &mut self.in_flight);
        let mut i: usize = 0;
        while i < old_list.len()
            invariant
                i <= old_list@.len(),
                distinct_ids(old_list@),
                distinct_ids(self.in_flight@),
                forall|c: Seq<u8>|
                    #[trigger] id_in(self.in_flight@, c) <==> (id_in(old_list@.take(i as int), c)
                        && c != space_id@),
            decreases old_list@.len() - i,
        {
            let ghost pre = self.in_flight@;
            let keep = !old_list[i].same_as(space_id);
            if keep {
                self.in_flight.push(old_list[i].duplicate());
            }
            proof {
                let x = old_list@[i as int];
                assert(old_list@.take(i as int + 1) =~= old_list@.take(i as int).push(x));
                assert forall|c: Seq<u8>| true implies (#[trigger] id_in(self.in_flight@, c) <==> (
                id_in(old_list@.take(i as int + 1), c) && c != space_id@)) by {
                    lemma_id_in_push(old_list@.take(i as int), x, c);
                    if keep {
                        assert(self.in_flight@ =~= pre.push(self.in_flight@[pre.len() as int]));
                        lemma_id_in_push(pre, self.in_flight@[pre.len() as int], c);
                    }
                }
                assert(distinct_ids(self.in_flight@)) by {
                    if keep {
                        assert forall|p: int, q: int|
                            0 <= p < self.in_flight@.len() && 0 <= q < self.in_flight@.len() && p
                                != q implies (self.in_flight@[p])@ != (self.in_flight@[q])@ by {
                            if p < pre.len() && q < pre.len() {
                                assert(pre[p]@ != pre[q]@);
                            } else {
                                let o: int = if p < pre.len() {
                                    p
                                } else {
                                    q
                                };
                                assert(id_in(pre, pre[o]@));
                                assert(id_in(old_list@.take(i as int), pre[o]@));
                                let k = choose|k: int|
                                    0 <= k < i && old_list@.take(i as int)[k]@ == pre[o]@;
                                assert(old_list@[k]@ != x@);
                            }
                        }
                    }
                }
            }
            i += 1;
        }
        proof {
            assert(old_list@.take(old_list@.len() as int) =~= old_list@);
        }
    }
}

/// While a resolution for a space id is in flight, every further claim for
/// the same id attaches to it: two consecutive claims can never both
/// start, so concurrent calls for one space share a single underlying
/// network sequence.
pub proof fn lemma_claims_coalesce(
    pre: CoalesceRegistry,
    mid: CoalesceRegistry,
    post: CoalesceRegistry,
    id: Seq<u8>,
    first: ClaimOutcome,
    second: ClaimOutcome,
)
    requires
        claim_post(pre, mid, id, first),
        claim_post(mid, post, id, second),
    ensures
        second is Attached,
{
}

} // verus!
