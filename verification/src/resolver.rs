//! Resolution of a space's ordered direct children.
//!
//! A [`Resolution`] is the state machine of one hierarchy query: the caller
//! performs each [`FetchRequest`] against the hierarchy endpoint and feeds
//! the outcome back through [`Resolution::on_event`].  Pages are merged with
//! first-occurrence-wins deduplication; when pagination ends, the
//! accumulator is reconciled with the locally tombstoned children recorded
//! at the start of the call, filtered to suggested children when requested,
//! and ordered by sort key, then creation timestamp, then room id.

use vstd::prelude::*;

use crate::graph::RoomGraphView;
use crate::room_id::{lex_le, lemma_lex_le_antisym, lemma_lex_le_total, lemma_lex_le_trans};
use crate::room_id::{copy_bytes, valid_room_id_bytes, RoomId};

verus! {

/// Some id in `s` equals `id`.
pub open spec fn id_in(s: Seq<RoomId>, id: Seq<u8>) -> bool {
    exists|i: int| 0 <= i < s.len() && s[i]@ == id
}

/// The identifier sequence carried by an optional byte vector.
pub open spec fn opt_bytes_view(o: Option<Vec<u8>>) -> Option<Seq<u8>> {
    match o {
        Some(v) => Some(v@),
        None => None,
    }
}

/// A verified copy of an optional byte vector.
pub fn copy_opt_bytes(o: &Option<Vec<u8>>) -> (r: Option<Vec<u8>>)
    ensures
        opt_bytes_view(r) == opt_bytes_view(*o),
{
    match o {
        Some(v) => Some(copy_bytes(v)),
        None => None,
    }
}

/// Whether `v` holds a room id equal to `target`.
pub fn ids_contain(v: &Vec<RoomId>, target: &RoomId) -> (r: bool)
    ensures
        r == id_in(v@, target@),
{
    let mut i: usize = 0;
    while i < v.len()
        invariant
            i <= v@.len(),
            forall|j: int| 0 <= j < i ==> v@[j]@ != target@,
        decreases v@.len() - i,
    {
        if v[i].same_as(target) {
            proof {
                assert(v@[i as int]@ == target@);
            }
            return true;
        }
        i += 1;
    }
    false
}

/// A child-room summary reported by one hierarchy page, together with the
/// ordering metadata from the corresponding relationship state.
pub struct ChildSummary {
    pub room_id: RoomId,
    /// Caller-supplied sort key; absent keys order after all present keys.
    pub order: Option<Vec<u8>>,
    /// Whether the parent recommends the child for discovery.
    pub suggested: bool,
    /// Creation timestamp, the first ordering tie-break.
    pub created_ts: u64,
}

impl ChildSummary {
    /// The summary's room id value.
    pub open spec fn id(self) -> Seq<u8> {
        self.room_id@
    }

    /// The summary's sort key value.
    pub open spec fn key(self) -> Option<Seq<u8>> {
        opt_bytes_view(self.order)
    }
}

/// One page of server results: an ordered run of child summaries and the
/// continuation token for the next page, if any.
pub struct HierarchyPage {
    pub rooms: Vec<ChildSummary>,
    pub next_token: Option<Vec<u8>>,
}

/// Every room id on the page is well-formed; a page that breaks this is
/// rejected as malformed.
pub open spec fn page_wf(page: HierarchyPage) -> bool {
    forall|i: int| 0 <= i < page.rooms@.len() ==> valid_room_id_bytes(#[trigger] page.rooms@[i].id())
}

/// Decides [`page_wf`].
pub fn check_page(page: &HierarchyPage) -> (r: bool)
    ensures
        r == page_wf(*page),
{
    let mut i: usize = 0;
    while i < page.rooms.len()
        invariant
            i <= page.rooms@.len(),
            forall|j: int| 0 <= j < i ==> valid_room_id_bytes(#[trigger] page.rooms@[j].id()),
        decreases page.rooms@.len() - i,
    {
        if !page.rooms[i].room_id.is_valid() {
            proof {
                assert(!valid_room_id_bytes(page.rooms@[i as int].id()));
            }
            return false;
        }
        i += 1;
    }
    true
}

/// Equality of sort keys.
pub open spec fn key_eq(x: Option<Seq<u8>>, y: Option<Seq<u8>>) -> bool {
    match (x, y) {
        (None, None) => true,
        (Some(a), Some(b)) => a == b,
        _ => false,
    }
}

/// Sort-key order: ascending lexicographically, an absent key after every
/// present key.
pub open spec fn key_le(x: Option<Seq<u8>>, y: Option<Seq<u8>>) -> bool {
    match (x, y) {
        (None, None) => true,
        (Some(_), None) => true,
        (None, Some(_)) => false,
        (Some(a), Some(b)) => lex_le(a, b),
    }
}

/// The total order on accumulated children: ascending by sort key (absent
/// keys last), tie-broken by ascending creation timestamp, tie-broken by
/// ascending room id.
pub open spec fn child_le(a: ChildSummary, b: ChildSummary) -> bool {
    if !key_eq(a.key(), b.key()) {
        key_le(a.key(), b.key())
    } else if a.created_ts != b.created_ts {
        a.created_ts < b.created_ts
    } else {
        lex_le(a.id(), b.id())
    }
}

pub proof fn lemma_child_le_total(a: ChildSummary, b: ChildSummary)
    ensures
        child_le(a, b) || child_le(b, a),
{
    match (a.key(), b.key()) {
        (Some(x), Some(y)) => {
            lemma_lex_le_total(x, y);
        },
        _ => {},
    }
    lemma_lex_le_total(a.id(), b.id());
}

pub proof fn lemma_child_le_trans(a: ChildSummary, b: ChildSummary, c: ChildSummary)
    requires
        child_le(a, b),
        child_le(b, c),
    ensures
        child_le(a, c),
{
    match (a.key(), b.key()) {
        (Some(x), Some(y)) => {
            if lex_le(x, y) && lex_le(y, x) {
                lemma_lex_le_antisym(x, y);
            }
        },
        _ => {},
    }
    match (b.key(), c.key()) {
        (Some(y), Some(z)) => {
            if lex_le(y, z) && lex_le(z, y) {
                lemma_lex_le_antisym(y, z);
            }
        },
        _ => {},
    }
    match (a.key(), b.key(), c.key()) {
        (Some(x), Some(y), Some(z)) => {
            if lex_le(x, y) && lex_le(y, z) {
                lemma_lex_le_trans(x, y, z);
            }
            if lex_le(x, z) && lex_le(z, x) {
                lemma_lex_le_antisym(x, z);
            }
        },
        _ => {},
    }
    if a.created_ts == b.created_ts && b.created_ts == c.created_ts {
        if lex_le(a.id(), b.id()) && lex_le(b.id(), c.id()) {
            lemma_lex_le_trans(a.id(), b.id(), c.id());
        }
    }
}

/// The sequence is sorted by [`child_le`].
pub open spec fn entries_sorted(s: Seq<ChildSummary>) -> bool {
    forall|i: int, j: int| 0 <= i < j < s.len() ==> child_le(#[trigger] s[i], #[trigger] s[j])
}

/// Room ids in the sequence are pairwise distinct.
pub open spec fn unique_ids(s: Seq<ChildSummary>) -> bool {
    forall|i: int, j: int|
        0 <= i < s.len() && 0 <= j < s.len() && i != j ==> (#[trigger] s[i].id()) != (
        #[trigger] s[j].id())
}

/// Some summary in `s` carries room id `id`.
pub open spec fn has_id(s: Seq<ChildSummary>, id: Seq<u8>) -> bool {
    exists|i: int| 0 <= i < s.len() && s[i].id() == id
}

/// First-occurrence-wins merge: each summary of `rooms` is appended to
/// `acc` unless a summary with the same room id is already present; later
/// duplicates are dropped silently.
pub open spec fn merged(acc: Seq<ChildSummary>, rooms: Seq<ChildSummary>) -> Seq<ChildSummary>
    decreases rooms.len(),
{
    if rooms.len() == 0 {
        acc
    } else {
        let acc2 = if has_id(acc, rooms[0].id()) {
            acc
        } else {
            acc.push(rooms[0])
        };
        merged(acc2, rooms.drop_first())
    }
}

pub proof fn lemma_merged_unique(acc: Seq<ChildSummary>, rooms: Seq<ChildSummary>)
    requires
        unique_ids(acc),
    ensures
        unique_ids(merged(acc, rooms)),
    decreases rooms.len(),
{
    if rooms.len() == 0 {
    } else {
        let acc2 = if has_id(acc, rooms[0].id()) {
            acc
        } else {
            acc.push(rooms[0])
        };
        assert(unique_ids(acc2)) by {
            if !has_id(acc, rooms[0].id()) {
                assert forall|i: int, j: int|
                    0 <= i < acc2.len() && 0 <= j < acc2.len() && i != j implies acc2[i].id()
                    != acc2[j].id() by {
                    if i < acc.len() && j < acc.len() {
                        assert(acc2[i] == acc[i] && acc2[j] == acc[j]);
                    } else if i < acc.len() {
                        assert(acc2[j] == rooms[0] && acc2[i] == acc[i]);
                        assert(!has_id(acc, rooms[0].id()));
                        assert(acc[i].id() != rooms[0].id());
                    } else {
                        assert(acc2[i] == rooms[0] && acc2[j] == acc[j]);
                        assert(acc[j].id() != rooms[0].id());
                    }
                }
            }
        }
        lemma_merged_unique(acc2, rooms.drop_first());
    }
}

/// Whether a summary in `acc` carries the id of `target`.
pub fn acc_has_id(acc: &Vec<ChildSummary>, target: &RoomId) -> (r: bool)
    ensures
        r == has_id(acc@, target@),
{
    let mut i: usize = 0;
    while i < acc.len()
        invariant
            i <= acc@.len(),
            forall|j: int| 0 <= j < i ==> acc@[j].id() != target@,
        decreases acc@.len() - i,
    {
        if acc[i].room_id.same_as(target) {
            proof {
                assert(acc@[i as int].id() == target@);
            }
            return true;
        }
        i += 1;
    }
    false
}

/// Appends one page's summaries to the accumulator, dropping room ids that
/// are already present ([`merged`]).
pub fn merge_rooms(acc: &mut Vec<ChildSummary>, rooms: Vec<ChildSummary>)
    ensures
        final(acc)@ == merged(old(acc)@, rooms@),
{
    let ghost orig_acc = acc@;
    let ghost orig_rooms = rooms@;
    let mut rest = rooms;
    while rest.len() > 0
        invariant
            merged(acc@, rest@) == merged(orig_acc, orig_rooms),
        decreases rest@.len(),
    {
        let ghost pre_acc = acc@;
        let ghost pre_rest = rest@;
        let x = rest.remove(0);
        proof {
            assert(rest@ =~= pre_rest.drop_first());
            assert(x == pre_rest[0]);
        }
        if !acc_has_id(acc, &x.room_id) {
            acc.push(x);
        }
        proof {
            assert(merged(pre_acc, pre_rest) == merged(acc@, rest@));
        }
    }
    proof {
        assert(merged(acc@, rest@) == acc@);
    }
}

/// A summary is retained by reconciliation when it is not locally
/// tombstoned and, under `suggested_only`, is flagged as suggested.
pub open spec fn keep_child(c: ChildSummary, removed: Seq<RoomId>, suggested_only: bool) -> bool {
    !id_in(removed, c.id()) && (suggested_only ==> c.suggested)
}

/// The retained summaries, in accumulator order: reconciliation excludes
/// locally tombstoned children, and the `suggested_only` filter keeps the
/// relative order of retained entries.
pub open spec fn kept_children(
    s: Seq<ChildSummary>,
    removed: Seq<RoomId>,
    suggested_only: bool,
) -> Seq<ChildSummary>
    decreases s.len(),
{
    if s.len() == 0 {
        Seq::empty()
    } else {
        let rest = kept_children(s.drop_first(), removed, suggested_only);
        if keep_child(s[0], removed, suggested_only) {
            seq![s[0]] + rest
        } else {
            rest
        }
    }
}

/// Every retained summary satisfies [`keep_child`]; in particular a room
/// locally tombstoned for the parent never appears in the retained set.
pub proof fn lemma_kept_children_sound(s: Seq<ChildSummary>, removed: Seq<RoomId>, so: bool)
    ensures
        forall|i: int|
            0 <= i < kept_children(s, removed, so).len() ==> keep_child(
                #[trigger] kept_children(s, removed, so)[i],
                removed,
                so,
            ),
    decreases s.len(),
{
    if s.len() == 0 {
    } else {
        lemma_kept_children_sound(s.drop_first(), removed, so);
        let rest = kept_children(s.drop_first(), removed, so);
        let whole = kept_children(s, removed, so);
        if keep_child(s[0], removed, so) {
            assert forall|i: int| 0 <= i < whole.len() implies keep_child(whole[i], removed, so) by {
                if i == 0 {
                    assert(whole[0] == s[0]);
                } else {
                    assert(whole[i] == rest[i - 1]);
                }
            }
        }
    }
}

/// Every retained summary is drawn from the input: reconciliation never
/// adds entries of its own.
pub proof fn lemma_kept_children_subset(s: Seq<ChildSummary>, removed: Seq<RoomId>, so: bool)
    ensures
        forall|i: int|
            0 <= i < kept_children(s, removed, so).len() ==> s.contains(
                #[trigger] kept_children(s, removed, so)[i],
            ),
    decreases s.len(),
{
    if s.len() == 0 {
    } else {
        lemma_kept_children_subset(s.drop_first(), removed, so);
        let rest = kept_children(s.drop_first(), removed, so);
        let whole = kept_children(s, removed, so);
        assert forall|i: int| 0 <= i < whole.len() implies s.contains(whole[i]) by {
            let o: int = if keep_child(s[0], removed, so) {
                i - 1
            } else {
                i
            };
            if keep_child(s[0], removed, so) && i == 0 {
                assert(whole[0] == s[0]);
                assert(s[0] == s[0]);
            } else {
                assert(whole[i] == rest[o]);
                assert(s.drop_first().contains(rest[o]));
                let k = choose|k: int| 0 <= k < s.drop_first().len() && s.drop_first()[k] == rest[o];
                assert(s[k + 1] == rest[o]);
            }
        }
    }
}

/// Computes [`kept_children`].
pub fn reconcile(
    entries: Vec<ChildSummary>,
    removed: &Vec<RoomId>,
    suggested_only: bool,
) -> (r: Vec<ChildSummary>)
    ensures
        r@ == kept_children(entries@, removed@, suggested_only),
{
    let ghost orig = entries@;
    let mut rest = entries;
    let mut r: Vec<ChildSummary> = Vec::new();
    proof {
        assert(r@ + kept_children(rest@, removed@, suggested_only) =~= kept_children(
            orig,
            removed@,
            suggested_only,
        ));
    }
    while rest.len() > 0
        invariant
            r@ + kept_children(rest@, removed@, suggested_only) == kept_children(
                orig,
                removed@,
                suggested_only,
            ),
        decreases rest@.len(),
    {
        let ghost pre_r = r@;
        let ghost pre_rest = rest@;
        let x = rest.remove(0);
        proof {
            assert(rest@ =~= pre_rest.drop_first());
            assert(x == pre_rest[0]);
        }
        let keep = !ids_contain(removed, &x.room_id) && (!suggested_only || x.suggested);
        proof {
            assert(keep == keep_child(x, removed@, suggested_only));
        }
        if keep {
            r.push(x);
            proof {
                let rest_kept = kept_children(rest@, removed@, suggested_only);
                assert(kept_children(pre_rest, removed@, suggested_only) == seq![x] + rest_kept);
                assert(r@ + rest_kept =~= pre_r + (seq![x] + rest_kept));
            }
        } else {
            proof {
                assert(kept_children(pre_rest, removed@, suggested_only) == kept_children(
                    rest@,
                    removed@,
                    suggested_only,
                ));
            }
        }
    }
    proof {
        assert(kept_children(rest@, removed@, suggested_only) =~= Seq::<ChildSummary>::empty());
        assert(r@ + Seq::<ChildSummary>::empty() =~= r@);
    }
    r
}

/// Decides [`child_le`].
pub fn child_le_exec(a: &ChildSummary, b: &ChildSummary) -> (r: bool)
    ensures
        r == child_le(*a, *b),
{
    match (&a.order, &b.order) {
        (Some(x), Some(y)) => {
            if !crate::room_id::bytes_eq(x, y) {
                crate::room_id::bytes_le(x, y)
            } else if a.created_ts != b.created_ts {
                a.created_ts < b.created_ts
            } else {
                a.room_id.le(&b.room_id)
            }
        },
        (Some(_), None) => true,
        (None, Some(_)) => false,
        (None, None) => {
            if a.created_ts != b.created_ts {
                a.created_ts < b.created_ts
            } else {
                a.room_id.le(&b.room_id)
            }
        },
    }
}

/// Insertion sort of the accumulated summaries under [`child_le`]: the
/// result is sorted and is a permutation of the input.
pub fn sort_children(entries: Vec<ChildSummary>) -> (r: Vec<ChildSummary>)
    ensures
        entries_sorted(r@),
        r@.to_multiset() == entries@.to_multiset(),
{
    broadcast use vstd::seq_lib::group_to_multiset_ensures;
    broadcast use vstd::seq_lib::to_multiset_insert;

    let ghost orig = entries@;
    let mut rest = entries;
    let mut out: Vec<ChildSummary> = Vec::new();
    proof {
        assert(out@.to_multiset().add(rest@.to_multiset()) =~= orig.to_multiset());
    }
    while rest.len() > 0
        invariant
            entries_sorted(out@),
            out@.to_multiset().add(rest@.to_multiset()) == orig.to_multiset(),
        decreases rest@.len(),
    {
        let ghost pre_rest = rest@;
        let x = rest.remove(0);
        proof {
            assert(pre_rest.remove(0) =~= pre_rest.drop_first());
            assert(pre_rest =~= rest@.insert(0, x));
            vstd::seq_lib::to_multiset_insert(rest@, 0, x);
            assert(rest@.insert(0, x).to_multiset() == rest@.to_multiset().insert(x));
            assert(pre_rest.to_multiset() =~= rest@.to_multiset().insert(x));
        }
        let mut j: usize = 0;
        while j < out.len() && child_le_exec(&out[j], &x)
            invariant
                j <= out@.len(),
                entries_sorted(out@),
                forall|k: int| 0 <= k < j ==> child_le(#[trigger] out@[k], x),
            decreases out@.len() - j,
        {
            j += 1;
        }
        proof {
            if j < out@.len() {
                assert(!child_le(out@[j as int], x));
                lemma_child_le_total(out@[j as int], x);
                assert(child_le(x, out@[j as int]));
            }
        }
        let ghost pre_out = out@;
        out.insert(j, x);
        proof {
            assert(out@ == pre_out.insert(j as int, x));
            assert forall|p: int, q: int| 0 <= p < q < out@.len() implies child_le(
                out@[p],
                out@[q],
            ) by {
                let n = pre_out.len();
                assert(forall|k: int| 0 <= k < j ==> out@[k] == pre_out[k]);
                assert(out@[j as int] == x);
                assert(forall|k: int| j < k < out@.len() ==> out@[k] == pre_out[k - 1]);
                if p < j && q < j {
                } else if p < j && q == j {
                } else if p < j && q > j {
                } else if p == j && q > j {
                    if j < n {
                        assert(child_le(x, pre_out[j as int]));
                        if q - 1 > j {
                            lemma_child_le_trans(x, pre_out[j as int], pre_out[q - 1]);
                        }
                    }
                } else {
                }
            }
            vstd::seq_lib::to_multiset_insert(pre_out, j as int, x);
            assert(pre_out.insert(j as int, x).to_multiset() == pre_out.to_multiset().insert(x));
            assert(out@.to_multiset() =~= pre_out.to_multiset().insert(x));
            assert(out@.to_multiset().add(rest@.to_multiset()) =~= orig.to_multiset());
        }
    }
    proof {
        assert(rest@.to_multiset().len() == 0);
        assert(out@.to_multiset().add(rest@.to_multiset()) =~= out@.to_multiset());
    }
    out
}

/// Extracts the room ids of the entries, in order.
pub fn child_ids(entries: Vec<ChildSummary>) -> (r: Vec<RoomId>)
    ensures
        r@.len() == entries@.len(),
        forall|i: int| 0 <= i < r@.len() ==> r@[i]@ == entries@[i].id(),
{
    let ghost orig = entries@;
    let mut rest = entries;
    let mut r: Vec<RoomId> = Vec::new();
    while rest.len() > 0
        invariant
            r@.len() + rest@.len() == orig.len(),
            rest@ == orig.skip(r@.len() as int),
            forall|i: int| 0 <= i < r@.len() ==> r@[i]@ == orig[i].id(),
        decreases rest@.len(),
    {
        let ghost pre_rest = rest@;
        let x = rest.remove(0);
        proof {
            assert(rest@ =~= pre_rest.drop_first());
            assert(x == pre_rest[0]);
            assert(pre_rest[0] == orig[r@.len() as int]);
            assert(pre_rest.drop_first() =~= orig.skip(r@.len() as int + 1));
        }
        let ChildSummary { room_id, .. } = x;
        r.push(room_id);
    }
    r
}

/// Options of one resolution call.
pub struct ResolveOptions {
    /// Filter to children the parent flags as suggested; the filter keeps
    /// the relative order of retained entries.
    pub suggested_only: bool,
    /// The page size asked of the server.
    pub page_limit: u32,
    /// Cap on the number of pages fetched; when the cap is hit with more
    /// data remaining, the call completes with the partial result and the
    /// non-fatal exhaustion signal set.
    pub max_pages: Option<u32>,
}

/// Why a resolution failed.
pub enum ResolveError {
    /// The space is unknown, not joined, and not previewable.
    NotFound,
    /// The caller lacks permission to view the hierarchy.
    Forbidden,
    /// Network or connection failure; retry policy belongs to the caller.
    Transport,
    /// A required field was missing or a room id failed validation; the
    /// whole call fails and accumulated pages are discarded.
    MalformedResponse,
}

/// What the caller observed for the in-flight request.
pub enum ResolveEvent {
    /// A hierarchy page arrived.
    Page(HierarchyPage),
    /// The server reported the space as unknown and not previewable.
    NotFound,
    /// The server denied access to the hierarchy.
    Forbidden,
    /// The transport failed.
    TransportFailed,
    /// The response could not be read as a hierarchy page: a required
    /// field was missing.
    Malformed,
    /// The caller cancelled the resolution; not an error, a distinct
    /// terminal outcome with no result payload.
    Cancel,
}

/// The next hierarchy request the caller must perform.
pub struct FetchRequest {
    pub space_id: RoomId,
    /// Continuation token of the previous page, if any.
    pub from: Option<Vec<u8>>,
    pub limit: u32,
    pub suggested_only: bool,
    /// Fixed at one: each call resolves direct children only.
    pub max_depth: u32,
}

/// The phase of a resolution.  `Completed`, `Failed` and `Cancelled` are
/// terminal; there is no implicit retry.
pub enum ResolveState {
    /// A request is in flight, continuing from `token`.
    Requesting { token: Option<Vec<u8>> },
    /// The ordered child list, and whether the page cap truncated
    /// available data (the non-fatal exhaustion signal).
    Completed { children: Vec<RoomId>, exhausted: bool },
    Failed { error: ResolveError },
    Cancelled,
}

/// The continuation token of a `Requesting` state.
pub open spec fn state_token(s: ResolveState) -> Option<Seq<u8>> {
    match s {
        ResolveState::Requesting { token } => opt_bytes_view(token),
        _ => None,
    }
}

/// `n + 1`, saturating at the counter's range.
pub open spec fn page_count_inc(n: u64) -> u64 {
    if n < u64::MAX {
        (n + 1) as u64
    } else {
        n
    }
}

/// Whether the page cap permits fetching another page after `pages_fetched`
/// pages.
pub open spec fn cap_allows(options: ResolveOptions, pages_fetched: u64) -> bool {
    match options.max_pages {
        None => true,
        Some(m) => pages_fetched < m as u64,
    }
}

/// A correct final child list: the retained summaries ([`kept_children`])
/// in sorted order ([`child_le`]), reported by room id.
pub open spec fn children_ok(
    children: Seq<RoomId>,
    entries: Seq<ChildSummary>,
    removed: Seq<RoomId>,
    suggested_only: bool,
) -> bool {
    exists|perm: Seq<ChildSummary>|
        {
            &&& #[trigger] perm.to_multiset() == kept_children(
                entries,
                removed,
                suggested_only,
            ).to_multiset()
            &&& entries_sorted(perm)
            &&& perm.len() == children.len()
            &&& forall|i: int| 0 <= i < children.len() ==> children[i]@ == perm[i].id()
        }
}

/// A room locally tombstoned for the parent never appears among resolved
/// children, even if the server still reports it.
pub proof fn lemma_children_exclude_tombstoned(
    children: Seq<RoomId>,
    entries: Seq<ChildSummary>,
    removed: Seq<RoomId>,
    suggested_only: bool,
    c: Seq<u8>,
)
    requires
        children_ok(children, entries, removed, suggested_only),
        id_in(removed, c),
    ensures
        forall|i: int| 0 <= i < children.len() ==> children[i]@ != c,
{
    broadcast use vstd::seq_lib::group_to_multiset_ensures;

    let kept = kept_children(entries, removed, suggested_only);
    let perm = choose|perm: Seq<ChildSummary>|
        {
            &&& #[trigger] perm.to_multiset() == kept.to_multiset()
            &&& entries_sorted(perm)
            &&& perm.len() == children.len()
            &&& forall|i: int| 0 <= i < children.len() ==> children[i]@ == perm[i].id()
        };
    lemma_kept_children_sound(entries, removed, suggested_only);
    assert forall|i: int| 0 <= i < children.len() implies children[i]@ != c by {
        assert(perm.contains(perm[i]));
        assert(perm.to_multiset().count(perm[i]) > 0);
        assert(kept.to_multiset().count(perm[i]) > 0);
        assert(kept.contains(perm[i]));
        let k = choose|k: int| 0 <= k < kept.len() && kept[k] == perm[i];
        assert(keep_child(kept[k], removed, suggested_only));
        assert(!id_in(removed, perm[i].id()));
    }
}

/// Resolved children report server-confirmed topology only: every resolved
/// child was reported by the server, and a room known only from local
/// relationship state is never added by a resolution call.
pub proof fn lemma_children_only_from_server(
    children: Seq<RoomId>,
    entries: Seq<ChildSummary>,
    removed: Seq<RoomId>,
    suggested_only: bool,
)
    requires
        children_ok(children, entries, removed, suggested_only),
    ensures
        forall|i: int| 0 <= i < children.len() ==> has_id(entries, #[trigger] children[i]@),
{
    broadcast use vstd::seq_lib::group_to_multiset_ensures;

    let kept = kept_children(entries, removed, suggested_only);
    let perm = choose|perm: Seq<ChildSummary>|
        {
            &&& #[trigger] perm.to_multiset() == kept.to_multiset()
            &&& entries_sorted(perm)
            &&& perm.len() == children.len()
            &&& forall|i: int| 0 <= i < children.len() ==> children[i]@ == perm[i].id()
        };
    lemma_kept_children_subset(entries, removed, suggested_only);
    assert forall|i: int| 0 <= i < children.len() implies has_id(entries, children[i]@) by {
        assert(perm.contains(perm[i]));
        assert(perm.to_multiset().count(perm[i]) > 0);
        assert(kept.to_multiset().count(perm[i]) > 0);
        assert(kept.contains(perm[i]));
        let k = choose|k: int| 0 <= k < kept.len() && kept[k] == perm[i];
        assert(entries.contains(kept[k]));
        let m = choose|m: int| 0 <= m < entries.len() && entries[m] == kept[k];
        assert(entries[m].id() == children[i]@);
    }
}

/// Reconciliation preserves uniqueness: retained summaries of a
/// duplicate-free accumulator keep pairwise distinct room ids.
pub proof fn lemma_kept_children_unique(s: Seq<ChildSummary>, removed: Seq<RoomId>, so: bool)
    requires
        unique_ids(s),
    ensures
        unique_ids(kept_children(s, removed, so)),
    decreases s.len(),
{
    if s.len() == 0 {
    } else {
        assert(unique_ids(s.drop_first())) by {
            assert forall|i: int, j: int|
                0 <= i < s.drop_first().len() && 0 <= j < s.drop_first().len() && i
                    != j implies (#[trigger] s.drop_first()[i]).id() != (
            #[trigger] s.drop_first()[j]).id() by {
                assert(s.drop_first()[i] == s[i + 1] && s.drop_first()[j] == s[j + 1]);
            }
        }
        lemma_kept_children_unique(s.drop_first(), removed, so);
        lemma_kept_children_subset(s.drop_first(), removed, so);
        let rest = kept_children(s.drop_first(), removed, so);
        let whole = kept_children(s, removed, so);
        if keep_child(s[0], removed, so) {
            assert forall|i: int, j: int|
                0 <= i < whole.len() && 0 <= j < whole.len() && i != j implies (
            #[trigger] whole[i]).id() != (#[trigger] whole[j]).id() by {
                if i != 0 && j != 0 {
                    assert(whole[i] == rest[i - 1] && whole[j] == rest[j - 1]);
                } else {
                    let o: int = if i == 0 {
                        j
                    } else {
                        i
                    };
                    assert(whole[0] == s[0] && whole[o] == rest[o - 1]);
                    assert(s.drop_first().contains(rest[o - 1]));
                    let k = choose|k: int|
                        0 <= k < s.drop_first().len() && s.drop_first()[k] == rest[o - 1];
                    assert(s.drop_first()[k] == s[k + 1]);
                    assert(s[0].id() != s[k + 1].id());
                }
            }
        }
    }
}

/// A completed resolution reports no duplicate room ids: the idempotent
/// merge and the reconciliation filter leave each room at most once.
pub proof fn lemma_children_distinct(
    children: Seq<RoomId>,
    entries: Seq<ChildSummary>,
    removed: Seq<RoomId>,
    suggested_only: bool,
)
    requires
        children_ok(children, entries, removed, suggested_only),
        unique_ids(entries),
    ensures
        forall|i: int, j: int|
            0 <= i < children.len() && 0 <= j < children.len() && i != j ==> (
            #[trigger] children[i])@ != (#[trigger] children[j])@,
{
    broadcast use vstd::seq_lib::group_to_multiset_ensures;

    let kept = kept_children(entries, removed, suggested_only);
    let perm = choose|perm: Seq<ChildSummary>|
        {
            &&& #[trigger] perm.to_multiset() == kept.to_multiset()
            &&& entries_sorted(perm)
            &&& perm.len() == children.len()
            &&& forall|i: int| 0 <= i < children.len() ==> children[i]@ == perm[i].id()
        };
    lemma_kept_children_unique(entries, removed, suggested_only);
    assert(kept.no_duplicates()) by {
        assert forall|i: int, j: int|
            0 <= i < kept.len() && 0 <= j < kept.len() && i != j implies #[trigger] kept[i]
            != #[trigger] kept[j] by {
            assert(kept[i].id() != kept[j].id());
        }
    }
    kept.lemma_multiset_has_no_duplicates();
    perm.lemma_multiset_has_no_duplicates_conv();
    assert forall|i: int, j: int|
        0 <= i < children.len() && 0 <= j < children.len() && i != j implies (
    #[trigger] children[i])@ != (#[trigger] children[j])@ by {
        assert(children[i]@ == perm[i].id() && children[j]@ == perm[j].id());
        assert(perm[i] != perm[j]);
        assert(perm.contains(perm[i]) && perm.contains(perm[j]));
        assert(perm.to_multiset().count(perm[i]) > 0 && perm.to_multiset().count(perm[j]) > 0);
        assert(kept.contains(perm[i]) && kept.contains(perm[j]));
        let k1 = choose|k: int| 0 <= k < kept.len() && kept[k] == perm[i];
        let k2 = choose|k: int| 0 <= k < kept.len() && kept[k] == perm[j];
        assert(k1 != k2);
        assert(kept[k1].id() != kept[k2].id());
    }
}

/// One in-flight resolution of a space's direct children.
///
/// Built by [`Resolution::start`]; driven by the caller, who performs each
/// [`FetchRequest`] and reports the outcome through [`on_event`].  Local
/// relationship state is snapshotted at the start of the call: edges are
/// never read again mid-flight, and the resolution never writes any
/// relationship state back.
///
/// [`on_event`]: Resolution::on_event
pub struct Resolution {
    /// The space whose children are being resolved.
    pub space_id: RoomId,
    pub options: ResolveOptions,
    /// Children locally tombstoned under `space_id`, snapshotted at start.
    pub removed_children: Vec<RoomId>,
    /// Accumulated summaries, first occurrence of each room id only.
    pub acc: Vec<ChildSummary>,
    /// Pages merged so far.
    pub pages_fetched: u64,
    pub state: ResolveState,
}

impl Resolution {
    /// Accumulator ids stay unique, and terminal states hold no
    /// accumulated pages.
    pub open spec fn wf(self) -> bool {
        &&& unique_ids(self.acc@)
        &&& !(self.state is Requesting) ==> self.acc@.len() == 0
    }

    /// Begins resolving the direct children of `space_id`.
    ///
    /// Fails with `NotFound` when the view knows the room and does not
    /// classify it as a space; an unknown room proceeds, since the server
    /// may still serve it as remotely previewable.  On success the
    /// resolution is in its initial requesting state, with the locally
    /// tombstoned children of `space_id` snapshotted, and the first request
    /// is obtained from [`Resolution::next_request`].
    pub fn start(view: &RoomGraphView, space_id: RoomId, options: ResolveOptions) -> (r: Result<
        Resolution,
        ResolveError,
    >)
        requires
            view.wf(),
        ensures
            match r {
                Err(e) => {
                    &&& e is NotFound
                    &&& view.spec_joined(space_id@)
                    &&& !view.spec_is_space(space_id@)
                },
                Ok(res) => {
                    &&& !view.spec_joined(space_id@) || view.spec_is_space(space_id@)
                    &&& res.wf()
                    &&& res.space_id@ == space_id@
                    &&& res.options == options
                    &&& res.acc@.len() == 0
                    &&& res.pages_fetched == 0
                    &&& res.state matches ResolveState::Requesting { token } && token is None
                    &&& forall|c: Seq<u8>|
                        #[trigger] id_in(res.removed_children@, c)
                            <==> crate::graph::locally_tombstoned(view.edges@, space_id@, c)
                },
            },
    {
        if view.is_joined(&space_id) && !view.is_space(&space_id) {
            return Err(ResolveError::NotFound);
        }
        let removed_children = view.tombstoned_children_of(&space_id);
        Ok(
            Resolution {
                space_id,
                options,
                removed_children,
                acc: Vec::new(),
                pages_fetched: 0,
                state: ResolveState::Requesting { token: None },
            },
        )
    }

    /// The request the caller must perform for the in-flight page: the
    /// hierarchy endpoint for the space, continuing from the recorded
    /// token, with the configured page size and suggested-only flag, at
    /// depth one.
    pub fn next_request(&self) -> (r: FetchRequest)
        requires
            self.state is Requesting,
        ensures
            r.space_id@ == self.space_id@,
            opt_bytes_view(r.from) == state_token(self.state),
            r.limit == self.options.page_limit,
            r.suggested_only == self.options.suggested_only,
            r.max_depth == 1,
    {
        let from = match &self.state {
            ResolveState::Requesting { token } => copy_opt_bytes(token),
            _ => None,
        };
        FetchRequest {
            space_id: self.space_id.duplicate(),
            from,
            limit: self.options.page_limit,
            suggested_only: self.options.suggested_only,
            max_depth: 1,
        }
    }

    /// Advances the state machine by one observed event.
    ///
    /// A returned request means pagination continues and the caller must
    /// perform it; `None` means the resolution reached a terminal state.
    /// A valid page is merged first-occurrence-wins; pagination continues
    /// while the page carries a continuation token and the page cap
    /// allows, and otherwise the call completes with the reconciled,
    /// filtered, ordered children, flagging exhaustion when data remained.
    /// A malformed page discards the accumulation and fails the call.
    /// Cancellation and failures are terminal and carry no result payload.
    pub fn on_event(&mut self, event: ResolveEvent) -> (next: Option<FetchRequest>)
        requires
            old(self).wf(),
            old(self).state is Requesting,
        ensures
            final(self).wf(),
            final(self).space_id@ == old(self).space_id@,
            final(self).options == old(self).options,
            final(self).removed_children@ == old(self).removed_children@,
            match event {
                ResolveEvent::Cancel => {
                    &&& final(self).state is Cancelled
                    &&& final(self).acc@.len() == 0
                    &&& next is None
                },
                ResolveEvent::NotFound => {
                    &&& final(self).state matches ResolveState::Failed { error } && error
                        is NotFound
                    &&& final(self).acc@.len() == 0
                    &&& next is None
                },
                ResolveEvent::Forbidden => {
                    &&& final(self).state matches ResolveState::Failed { error } && error
                        is Forbidden
                    &&& final(self).acc@.len() == 0
                    &&& next is None
                },
                ResolveEvent::TransportFailed => {
                    &&& final(self).state matches ResolveState::Failed { error } && error
                        is Transport
                    &&& final(self).acc@.len() == 0
                    &&& next is None
                },
                ResolveEvent::Malformed => {
                    &&& final(self).state matches ResolveState::Failed { error } && error
                        is MalformedResponse
                    &&& final(self).acc@.len() == 0
                    &&& next is None
                },
                ResolveEvent::Page(page) => {
                    if !page_wf(page) {
                        &&& final(self).state matches ResolveState::Failed { error } && error
                            is MalformedResponse
                        &&& final(self).acc@.len() == 0
                        &&& next is None
                    } else {
                        let macc = merged(old(self).acc@, page.rooms@);
                        let pages = page_count_inc(old(self).pages_fetched);
                        &&& final(self).pages_fetched == pages
                        &&& if page.next_token is Some && cap_allows(old(self).options, pages) {
                            &&& final(self).acc@ == macc
                            &&& final(self).state matches ResolveState::Requesting { token }
                                && opt_bytes_view(token) == opt_bytes_view(page.next_token)
                            &&& next matches Some(req) && req.space_id@ == old(self).space_id@
                                && opt_bytes_view(req.from) == opt_bytes_view(page.next_token)
                                && req.limit == old(self).options.page_limit
                                && req.suggested_only == old(self).options.suggested_only
                                && req.max_depth == 1
                        } else {
                            &&& final(self).state matches ResolveState::Completed {
                                children,
                                exhausted,
                            } && children_ok(
                                children@,
                                macc,
                                old(self).removed_children@,
                                old(self).options.suggested_only,
                            ) && exhausted == (page.next_token is Some)
                            &&& final(self).acc@.len() == 0
                            &&& next is None
                        }
                    }
                },
            },
    {
        match event {
            ResolveEvent::Cancel => {
                self.acc = Vec::new();
                self.state = ResolveState::Cancelled;
                None
            },
            ResolveEvent::NotFound => {
                self.acc = Vec::new();
                self.state = ResolveState::Failed { error: ResolveError::NotFound };
                None
            },
            ResolveEvent::Forbidden => {
                self.acc = Vec::new();
                self.state = ResolveState::Failed { error: ResolveError::Forbidden };
                None
            },
            ResolveEvent::TransportFailed => {
                self.acc = Vec::new();
                self.state = ResolveState::Failed { error: ResolveError::Transport };
                None
            },
            ResolveEvent::Malformed => {
                self.acc = Vec::new();
                self.state = ResolveState::Failed { error: ResolveError::MalformedResponse };
                None
            },
            ResolveEvent::Page(page) => {
                if !check_page(&page) {
                    self.acc = Vec::new();
                    self.state = ResolveState::Failed { error: ResolveError::MalformedResponse };
                    return None;
                }
                let HierarchyPage { rooms, next_token } = page;
                proof {
                    lemma_merged_unique(self.acc@, rooms@);
                }
                merge_rooms(&mut self.acc, rooms);
                if self.pages_fetched < u64::MAX {
                    self.pages_fetched = self.pages_fetched + 1;
                }
                let more = next_token.is_some();
                let under_cap = match self.options.max_pages {
                    None => true,
                    Some(m) => self.pages_fetched < m as u64,
                };
                if more && under_cap {
                    let from = copy_opt_bytes(&next_token);
                    self.state = ResolveState::Requesting { token: next_token };
                    Some(
                        FetchRequest {
                            space_id: self.space_id.duplicate(),
                            from,
                            limit: self.options.page_limit,
                            suggested_only: self.options.suggested_only,
                            max_depth: 1,
                        },
                    )
                } else {
                    let mut entries: Vec<ChildSummary> = Vec::new();
                    core::mem::swap(&mut entries, &mut self.acc);
                    let kept = reconcile(entries, &self.removed_children, self.options.suggested_only);
                    let sorted = sort_children(kept);
                    let ghost gsorted = sorted@;
                    let children = child_ids(sorted);
                    proof {
                        assert(children_ok(
                            children@,
                            merged(old(self).acc@, rooms@),
                            old(self).removed_children@,
                            old(self).options.suggested_only,
                        )) by {
                            assert(gsorted.to_multiset() == kept_children(
                                merged(old(self).acc@, rooms@),
                                old(self).removed_children@,
                                old(self).options.suggested_only,
                            ).to_multiset());
                            assert(entries_sorted(gsorted));
                            assert(forall|i: int|
                                0 <= i < children@.len() ==> children@[i]@ == gsorted[i].id());
                        }
                    }
                    self.state = ResolveState::Completed { children, exhausted: more };
                    None
                }
            },
        }
    }
}

} // verus!
