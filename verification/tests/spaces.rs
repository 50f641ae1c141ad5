use space_hierarchy::coalesce::{ClaimOutcome, CoalesceRegistry};
use space_hierarchy::graph::{EdgeOrigin, RelationshipEdge, RoomGraphView, RoomInfo};
use space_hierarchy::resolver::{
    ChildSummary, FetchRequest, HierarchyPage, Resolution, ResolveError, ResolveEvent,
    ResolveOptions, ResolveState,
};
use space_hierarchy::room_id::RoomId;
use space_hierarchy::sdk_git_sha;
use space_hierarchy::service::SpaceService;

fn rid(s: &str) -> RoomId {
    RoomId::new(s.as_bytes().to_vec())
}

fn info(id: &str, is_space: bool) -> RoomInfo {
    RoomInfo { id: rid(id), is_space }
}

fn edge(parent: &str, child: &str, removed: bool) -> RelationshipEdge {
    RelationshipEdge {
        parent: rid(parent),
        child: rid(child),
        origin: EdgeOrigin::Local,
        order: None,
        suggested: false,
        via: Vec::new(),
        removed,
    }
}

fn child(id: &str, order: Option<&str>, suggested: bool, created_ts: u64) -> ChildSummary {
    ChildSummary {
        room_id: rid(id),
        order: order.map(|o| o.as_bytes().to_vec()),
        suggested,
        created_ts,
    }
}

fn ids(rooms: &[RoomId]) -> Vec<Vec<u8>> {
    rooms.iter().map(|r| r.as_bytes().to_vec()).collect()
}

fn completed_children(res: &Resolution) -> (Vec<Vec<u8>>, bool) {
    match &res.state {
        ResolveState::Completed { children, exhausted } => (ids(children), *exhausted),
        _ => panic!("resolution is not completed"),
    }
}

fn default_options() -> ResolveOptions {
    ResolveOptions { suggested_only: false, page_limit: 10, max_pages: None }
}

fn start(view: &RoomGraphView, space: &str, options: ResolveOptions) -> Resolution {
    match Resolution::start(view, rid(space), options) {
        Ok(res) => res,
        Err(_) => panic!("start failed"),
    }
}

#[test]
fn test_joined_spaces_join_order() {
    let view = RoomGraphView::new(
        vec![
            info("!1:example.org", true),
            info("!2:example.org", true),
            info("!3:example.org", true),
        ],
        vec![
            edge("!3:example.org", "!1:example.org", false),
            edge("!3:example.org", "!2:example.org", false),
        ],
    );
    let service = SpaceService::new(view);
    let spaces = service.joined_spaces();
    assert_eq!(
        ids(&spaces),
        vec![
            b"!1:example.org".to_vec(),
            b"!2:example.org".to_vec(),
            b"!3:example.org".to_vec()
        ]
    );
}

#[test]
fn test_joined_spaces_filters_non_spaces() {
    let view = RoomGraphView::new(
        vec![
            info("!a:x", false),
            info("!s:x", true),
            info("!b:x", false),
            info("!t:x", true),
        ],
        Vec::new(),
    );
    let service = SpaceService::new(view);
    let spaces = service.joined_spaces();
    assert_eq!(ids(&spaces), vec![b"!s:x".to_vec(), b"!t:x".to_vec()]);
}

#[test]
fn test_joined_spaces_empty_view() {
    let service = SpaceService::new(RoomGraphView::new(Vec::new(), Vec::new()));
    assert!(service.joined_spaces().is_empty());
}

#[test]
fn test_two_page_merge_dedup() {
    let view = RoomGraphView::new(vec![info("!s:x", true)], Vec::new());
    let mut res = start(&view, "!s:x", default_options());

    let req = res.next_request();
    assert!(req.from.is_none());

    let page1 = HierarchyPage {
        rooms: vec![child("!a:x", Some("1"), false, 0), child("!b:x", Some("2"), false, 0)],
        next_token: Some(b"tok1".to_vec()),
    };
    let next = res.on_event(ResolveEvent::Page(page1));
    let req2: FetchRequest = next.expect("pagination continues");
    assert_eq!(req2.from, Some(b"tok1".to_vec()));

    let page2 = HierarchyPage {
        rooms: vec![child("!a:x", Some("1"), false, 0), child("!c:x", Some("3"), false, 0)],
        next_token: None,
    };
    let next = res.on_event(ResolveEvent::Page(page2));
    assert!(next.is_none());

    let (children, exhausted) = completed_children(&res);
    assert_eq!(children, vec![b"!a:x".to_vec(), b"!b:x".to_vec(), b"!c:x".to_vec()]);
    assert!(!exhausted);
}

#[test]
fn test_tombstoned_child_suppressed() {
    let view = RoomGraphView::new(
        vec![info("!s:x", true)],
        vec![edge("!s:x", "!x:x", true), edge("!s:x", "!y:x", false)],
    );
    let mut res = start(&view, "!s:x", default_options());
    let page = HierarchyPage {
        rooms: vec![child("!x:x", Some("1"), false, 0), child("!y:x", Some("2"), false, 0)],
        next_token: None,
    };
    assert!(res.on_event(ResolveEvent::Page(page)).is_none());
    let (children, _) = completed_children(&res);
    assert_eq!(children, vec![b"!y:x".to_vec()]);
}

#[test]
fn test_tombstone_is_per_parent() {
    // A tombstone under one parent does not suppress the room elsewhere.
    let view = RoomGraphView::new(
        vec![info("!s:x", true), info("!t:x", true)],
        vec![edge("!t:x", "!y:x", true)],
    );
    let mut res = start(&view, "!s:x", default_options());
    let page = HierarchyPage { rooms: vec![child("!y:x", None, false, 0)], next_token: None };
    res.on_event(ResolveEvent::Page(page));
    let (children, _) = completed_children(&res);
    assert_eq!(children, vec![b"!y:x".to_vec()]);
}

#[test]
fn test_cycle_terminates() {
    // A claims child B and B claims child A; each resolution terminates
    // independently and returns the other room.
    let view = RoomGraphView::new(
        vec![info("!a:x", true), info("!b:x", true)],
        vec![edge("!a:x", "!b:x", false), edge("!b:x", "!a:x", false)],
    );

    let mut res_a = start(&view, "!a:x", default_options());
    let page = HierarchyPage { rooms: vec![child("!b:x", None, false, 0)], next_token: None };
    assert!(res_a.on_event(ResolveEvent::Page(page)).is_none());
    let (children, _) = completed_children(&res_a);
    assert_eq!(children, vec![b"!b:x".to_vec()]);

    let mut res_b = start(&view, "!b:x", default_options());
    let page = HierarchyPage { rooms: vec![child("!a:x", None, false, 0)], next_token: None };
    assert!(res_b.on_event(ResolveEvent::Page(page)).is_none());
    let (children, _) = completed_children(&res_b);
    assert_eq!(children, vec![b"!a:x".to_vec()]);
}

#[test]
fn test_cancel_no_partial_leak() {
    let view = RoomGraphView::new(vec![info("!s:x", true)], Vec::new());
    let mut res = start(&view, "!s:x", default_options());
    let page1 = HierarchyPage {
        rooms: vec![child("!a:x", Some("1"), false, 0)],
        next_token: Some(b"tok1".to_vec()),
    };
    assert!(res.on_event(ResolveEvent::Page(page1)).is_some());

    // Cancelled between page 1 and page 2: terminal, no result payload.
    assert!(res.on_event(ResolveEvent::Cancel).is_none());
    assert!(matches!(res.state, ResolveState::Cancelled));
    assert!(res.acc.is_empty());

    // A fresh resolution starts empty and sees only its own pages.
    let mut fresh = start(&view, "!s:x", default_options());
    assert!(fresh.acc.is_empty());
    let page = HierarchyPage { rooms: vec![child("!b:x", None, false, 0)], next_token: None };
    fresh.on_event(ResolveEvent::Page(page));
    let (children, _) = completed_children(&fresh);
    assert_eq!(children, vec![b"!b:x".to_vec()]);
}

#[test]
fn test_concurrent_claims_share_one_sequence() {
    let mut registry = CoalesceRegistry::new();
    let space = rid("!s:x");
    let mut network_sequences: u32 = 0;

    // First caller claims the key and performs the network sequence.
    if registry.claim(&space) == ClaimOutcome::Started {
        network_sequences += 1;
    }
    // A concurrent second caller attaches instead of issuing a duplicate.
    if registry.claim(&space) == ClaimOutcome::Started {
        network_sequences += 1;
    }
    assert_eq!(network_sequences, 1);

    // A different space id runs fully independently.
    assert_eq!(registry.claim(&rid("!t:x")), ClaimOutcome::Started);

    // After release, a fresh attempt triggers a brand-new sequence.
    registry.release(&space);
    assert_eq!(registry.claim(&space), ClaimOutcome::Started);
}

#[test]
fn test_pagination_cap_completes_with_partial_result() {
    let view = RoomGraphView::new(vec![info("!s:x", true)], Vec::new());
    let options = ResolveOptions { suggested_only: false, page_limit: 2, max_pages: Some(1) };
    let mut res = start(&view, "!s:x", options);
    let page1 = HierarchyPage {
        rooms: vec![child("!a:x", Some("1"), false, 0), child("!b:x", Some("2"), false, 0)],
        next_token: Some(b"tok1".to_vec()),
    };
    // The cap is hit with more data remaining: the call completes with the
    // accumulated partial result and the non-fatal exhaustion signal.
    assert!(res.on_event(ResolveEvent::Page(page1)).is_none());
    let (children, exhausted) = completed_children(&res);
    assert_eq!(children, vec![b"!a:x".to_vec(), b"!b:x".to_vec()]);
    assert!(exhausted);
}

#[test]
fn test_suggested_only_keeps_relative_order() {
    let view = RoomGraphView::new(vec![info("!s:x", true)], Vec::new());
    let options = ResolveOptions { suggested_only: true, page_limit: 10, max_pages: None };
    let mut res = start(&view, "!s:x", options);
    let page = HierarchyPage {
        rooms: vec![
            child("!a:x", None, true, 3),
            child("!b:x", None, false, 1),
            child("!c:x", None, true, 2),
        ],
        next_token: None,
    };
    res.on_event(ResolveEvent::Page(page));
    let (children, _) = completed_children(&res);
    // Non-suggested "!b:x" is filtered out before ordering; the retained
    // entries keep their relative order (ascending creation timestamp).
    assert_eq!(children, vec![b"!c:x".to_vec(), b"!a:x".to_vec()]);
}

#[test]
fn test_order_key_timestamp_id_cascade() {
    let view = RoomGraphView::new(vec![info("!s:x", true)], Vec::new());
    let mut res = start(&view, "!s:x", default_options());
    let page = HierarchyPage {
        rooms: vec![
            child("!absent-late:x", None, false, 9),
            child("!absent-early:x", None, false, 5),
            child("!key2:x", Some("2"), false, 50),
            child("!key1:x", Some("1"), false, 99),
            child("!tie-b:x", None, false, 7),
            child("!tie-a:x", None, false, 7),
        ],
        next_token: None,
    };
    res.on_event(ResolveEvent::Page(page));
    let (children, _) = completed_children(&res);
    // Present keys ascend first; absent keys order after all present keys,
    // by ascending creation timestamp, then ascending room id.
    assert_eq!(
        children,
        vec![
            b"!key1:x".to_vec(),
            b"!key2:x".to_vec(),
            b"!absent-early:x".to_vec(),
            b"!tie-a:x".to_vec(),
            b"!tie-b:x".to_vec(),
            b"!absent-late:x".to_vec(),
        ]
    );
}

#[test]
fn test_empty_page_completes_empty() {
    let view = RoomGraphView::new(vec![info("!s:x", true)], Vec::new());
    let mut res = start(&view, "!s:x", default_options());
    let page = HierarchyPage { rooms: Vec::new(), next_token: None };
    assert!(res.on_event(ResolveEvent::Page(page)).is_none());
    let (children, exhausted) = completed_children(&res);
    assert!(children.is_empty());
    assert!(!exhausted);
}

#[test]
fn test_page_cap_boundary_allows_second_page() {
    let view = RoomGraphView::new(vec![info("!s:x", true)], Vec::new());
    let options = ResolveOptions { suggested_only: false, page_limit: 1, max_pages: Some(2) };
    let mut res = start(&view, "!s:x", options);
    let page1 = HierarchyPage {
        rooms: vec![child("!a:x", None, false, 0)],
        next_token: Some(b"tok1".to_vec()),
    };
    // One page fetched, cap is two: pagination continues.
    assert!(res.on_event(ResolveEvent::Page(page1)).is_some());
    let page2 = HierarchyPage {
        rooms: vec![child("!b:x", None, false, 1)],
        next_token: Some(b"tok2".to_vec()),
    };
    // The cap is now hit while more data remains: partial result, flagged.
    assert!(res.on_event(ResolveEvent::Page(page2)).is_none());
    let (children, exhausted) = completed_children(&res);
    assert_eq!(children, vec![b"!a:x".to_vec(), b"!b:x".to_vec()]);
    assert!(exhausted);
}

#[test]
fn test_not_found_for_known_non_space() {
    let view = RoomGraphView::new(vec![info("!r:x", false)], Vec::new());
    let service = SpaceService::new(view);
    match service.top_level_children_for(rid("!r:x"), default_options()) {
        Err(e) => assert!(matches!(e, ResolveError::NotFound)),
        Ok(_) => panic!("expected NotFound for a joined non-space room"),
    }
}

#[test]
fn test_unknown_room_proceeds_to_server() {
    // An unknown room may still be remotely previewable: the call starts,
    // and a server-side rejection surfaces as NotFound.
    let view = RoomGraphView::new(Vec::new(), Vec::new());
    let service = SpaceService::new(view);
    let mut res = match service.top_level_children_for(rid("!u:x"), default_options()) {
        Ok(res) => res,
        Err(_) => panic!("unknown room must proceed"),
    };
    res.on_event(ResolveEvent::NotFound);
    assert!(matches!(res.state, ResolveState::Failed { error: ResolveError::NotFound }));
}

#[test]
fn test_forbidden_and_transport_failures() {
    let view = RoomGraphView::new(vec![info("!s:x", true)], Vec::new());
    let mut res = start(&view, "!s:x", default_options());
    res.on_event(ResolveEvent::Forbidden);
    assert!(matches!(res.state, ResolveState::Failed { error: ResolveError::Forbidden }));

    let mut res = start(&view, "!s:x", default_options());
    res.on_event(ResolveEvent::TransportFailed);
    assert!(matches!(res.state, ResolveState::Failed { error: ResolveError::Transport }));

    let mut res = start(&view, "!s:x", default_options());
    res.on_event(ResolveEvent::Malformed);
    assert!(matches!(
        res.state,
        ResolveState::Failed { error: ResolveError::MalformedResponse }
    ));
}

#[test]
fn test_malformed_page_discards_accumulation() {
    let view = RoomGraphView::new(vec![info("!s:x", true)], Vec::new());
    let mut res = start(&view, "!s:x", default_options());
    let page1 = HierarchyPage {
        rooms: vec![child("!a:x", Some("1"), false, 0)],
        next_token: Some(b"tok1".to_vec()),
    };
    assert!(res.on_event(ResolveEvent::Page(page1)).is_some());

    // "no-sigil" lacks the leading `!`: the page is malformed, the call
    // fails, and the partial accumulation is discarded.
    let bad = HierarchyPage { rooms: vec![child("no-sigil", None, false, 0)], next_token: None };
    assert!(res.on_event(ResolveEvent::Page(bad)).is_none());
    assert!(matches!(res.state, ResolveState::Failed { error: ResolveError::MalformedResponse }));
    assert!(res.acc.is_empty());
}

#[test]
fn test_next_request_fields() {
    let view = RoomGraphView::new(vec![info("!s:x", true)], Vec::new());
    let options = ResolveOptions { suggested_only: true, page_limit: 7, max_pages: None };
    let res = start(&view, "!s:x", options);
    let req = res.next_request();
    assert_eq!(req.space_id.as_bytes(), &b"!s:x".to_vec());
    assert!(req.from.is_none());
    assert_eq!(req.limit, 7);
    assert!(req.suggested_only);
    assert_eq!(req.max_depth, 1);
}

#[test]
fn test_room_id_validation() {
    assert!(rid("!a:example.org").is_valid());
    assert!(!rid("a:example.org").is_valid());
    assert!(!rid("!aexample").is_valid());
    assert!(!rid("").is_valid());
}

#[test]
fn test_graph_view_getters() {
    let view = RoomGraphView::new(
        vec![info("!a:x", true), info("!b:x", false)],
        Vec::new(),
    );
    assert!(view.is_joined(&rid("!a:x")));
    assert!(!view.is_joined(&rid("!c:x")));
    assert!(view.is_space(&rid("!a:x")));
    assert!(!view.is_space(&rid("!b:x")));
    assert!(!view.is_space(&rid("!c:x")));
    assert_eq!(
        ids(&view.joined_room_ids()),
        vec![b"!a:x".to_vec(), b"!b:x".to_vec()]
    );
}

#[test]
fn test_tombstoned_children_of() {
    let view = RoomGraphView::new(
        Vec::new(),
        vec![
            edge("!s:x", "!a:x", true),
            edge("!s:x", "!b:x", false),
            edge("!t:x", "!c:x", true),
        ],
    );
    assert_eq!(ids(&view.tombstoned_children_of(&rid("!s:x"))), vec![b"!a:x".to_vec()]);
}

#[test]
fn test_relationship_edges_for() {
    let view = RoomGraphView::new(
        Vec::new(),
        vec![
            edge("!s:x", "!a:x", false),
            edge("!t:x", "!b:x", false),
            edge("!s:x", "!c:x", true),
        ],
    );
    let edges = view.relationship_edges_for(&rid("!s:x"));
    assert_eq!(edges.len(), 2);
    assert_eq!(edges[0].child.as_bytes(), &b"!a:x".to_vec());
    assert!(!edges[0].removed);
    assert_eq!(edges[1].child.as_bytes(), &b"!c:x".to_vec());
    assert!(edges[1].removed);
}

#[test]
fn test_sdk_git_sha_empty() {
    assert_eq!(sdk_git_sha(), String::new());
}
