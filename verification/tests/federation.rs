//! Federated sessions.

use goose_roaming::federation::{
    call_result, configured_targets, federated_id, merge_sessions, offline, peer_index, peer_name,
    peer_names, permission_answer, rewrite, sort_key, split_federated_id, split_targets, time_limit,
    CallFailure, CallProgress, EventQueue, PeerListing, PeerMethod, PeerSessions, SessionInfo, SessionPage,
    EVENT_QUEUE,
};

fn session(id: &str, updated_at: &str) -> SessionInfo<u32> {
    SessionInfo {
        session_id: id.to_string(),
        updated_at: Some(updated_at.to_string()),
        rest: 0,
    }
}

fn undated(id: &str) -> SessionInfo<u32> {
    SessionInfo { session_id: id.to_string(), updated_at: None, rest: 0 }
}

fn page(sessions: Vec<SessionInfo<u32>>) -> SessionPage<u32> {
    SessionPage { sessions, next_cursor: None }
}

fn ids(page: &SessionPage<u32>) -> Vec<&str> {
    page.sessions.iter().map(|s| s.session_id.as_str()).collect()
}

#[test]
fn round_trips_a_federated_id() {
    let id = federated_id("workstation", "20260805_120000");
    assert_eq!(id, "roam:workstation:20260805_120000");
    assert_eq!(
        split_federated_id(&id),
        Some(("workstation", "20260805_120000"))
    );
}

#[test]
fn local_ids_are_not_federated() {
    assert_eq!(split_federated_id("20260805_120000"), None);
    assert_eq!(split_federated_id("roam:"), None);
    assert_eq!(split_federated_id("roam:peer:"), None);
    assert_eq!(split_federated_id("roam::abc"), None);
}

#[test]
fn remote_ids_may_contain_colons() {
    // Only the FIRST colon separates peer from remote id, so a remote id that itself
    // contains one survives the round trip.
    let id = federated_id("peer", "a:b:c");
    assert_eq!(split_federated_id(&id), Some(("peer", "a:b:c")));
}

#[test]
fn cards_and_colon_names_are_rejected() {
    assert_eq!(peer_name("workstation"), Some("workstation".to_string()));
    assert_eq!(peer_name("goose+roam://abcdef"), None);
    assert_eq!(peer_name("host:1234"), None);
}

#[test]
fn targets_split_on_commas_and_drop_blanks() {
    assert_eq!(
        split_targets(" a , ,b,, c "),
        vec!["a".to_string(), "b".to_string(), "c".to_string()]
    );
}

#[test]
fn sort_key_orders_across_offsets() {
    // 2026-08-05T00:30:00-06:00 is LATER than 2026-08-05T02:00:00Z, which a lexical
    // string sort gets backwards.
    let mountain = sort_key(Some("2026-08-05T00:30:00-06:00"));
    let utc = sort_key(Some("2026-08-05T02:00:00Z"));
    assert!(mountain > utc);
    assert_eq!(sort_key(Some("not a timestamp")), None);
    assert_eq!(sort_key(None), None);
}

#[test]
fn rewrite_readdresses_a_remote_session() {
    let info = rewrite("workstation", session("abc", "2026-08-05T00:00:00Z"));
    assert_eq!(info.session_id, "roam:workstation:abc");
}

#[test]
fn merge_sorts_newest_first() {
    let local = page(vec![
        session("old", "2026-08-01T00:00:00Z"),
        session("new", "2026-08-05T00:00:00Z"),
        session("middle", "2026-08-03T00:00:00Z"),
    ]);
    let merged = merge_sessions(None, local, Vec::new());
    assert_eq!(ids(&merged), vec!["new", "middle", "old"]);
}

#[test]
fn merge_leaves_later_pages_alone() {
    let local = page(vec![
        session("old", "2026-08-01T00:00:00Z"),
        session("new", "2026-08-05T00:00:00Z"),
    ]);
    let merged = merge_sessions(Some("opaque-local-cursor"), local, Vec::new());
    assert_eq!(ids(&merged), vec!["old", "new"]);
}

#[test]
fn merge_passes_the_local_cursor_through() {
    let local = SessionPage {
        sessions: vec![session("a", "2026-08-01T00:00:00Z")],
        next_cursor: Some("local-next".to_string()),
    };
    let merged = merge_sessions(None, local, Vec::new());
    assert_eq!(merged.next_cursor.as_deref(), Some("local-next"));
}

#[test]
fn an_unknown_peer_is_named_rather_than_reported_missing() {
    let names: Vec<String> = Vec::new();
    assert_eq!(peer_index(&names, "nosuch"), None);
    let error = call_result::<(), ()>("nosuch", CallProgress::Unknown)
        .expect_err("a peer that is not federated must not resolve");
    assert!(
        format!("{error:?}").contains("nosuch"),
        "error should name the peer, got: {error:?}"
    );
    match error {
        CallFailure::NotFound(m) => {
            assert_eq!(m, "roam peer `nosuch` is not federated by this server")
        }
        other => panic!("{other:?}"),
    }
}

#[test]
fn instants_count_seconds_and_nanoseconds() {
    assert_eq!(sort_key(Some("1970-01-01T00:00:01.5Z")), Some((1, 500_000_000)));
    assert_eq!(sort_key(Some("1969-12-31T23:59:59Z")), Some((-1, 0)));
    assert_eq!(sort_key(Some("1970-01-01T01:00:00+01:00")), Some((0, 0)));
}

#[test]
fn peers_contribute_readdressed_sessions_and_absent_ones_nothing() {
    let local = page(vec![session("here", "2026-08-03T00:00:00Z"), undated("bare")]);
    let peers = vec![
        PeerSessions {
            peer: "a".to_string(),
            listing: PeerListing::Page(SessionPage {
                sessions: vec![
                    session("x", "2026-08-05T00:00:00Z"),
                    session("y", "garbage"),
                ],
                next_cursor: Some("more".to_string()),
            }),
        },
        PeerSessions { peer: "b".to_string(), listing: PeerListing::Absent },
        PeerSessions {
            peer: "c".to_string(),
            listing: PeerListing::Page(page(vec![session("x", "2026-08-03T00:00:00Z")])),
        },
    ];
    let merged = merge_sessions(None, local, peers);
    assert_eq!(merged.next_cursor, None);
    // Equal instants keep their order; sessions without an instant come last.
    assert_eq!(ids(&merged), vec!["roam:a:x", "here", "roam:c:x", "bare", "roam:a:y"]);
}

#[test]
fn later_pages_take_nothing_from_peers() {
    let peers = vec![PeerSessions {
        peer: "a".to_string(),
        listing: PeerListing::Page(page(vec![undated("x")])),
    }];
    let merged = merge_sessions(Some("c"), page(vec![undated("here")]), peers);
    assert_eq!(ids(&merged), vec!["here"]);
}

#[test]
fn the_environment_goes_before_the_configuration() {
    let config = vec![" x ".to_string(), "".to_string(), "y".to_string()];
    assert_eq!(configured_targets(Some("a, b".to_string()), &config), vec!["a", "b"]);
    assert_eq!(configured_targets(Some(" , ".to_string()), &config), vec!["x", "y"]);
    assert_eq!(configured_targets(None, &config), vec!["x", "y"]);
    assert!(configured_targets(None, &Vec::new()).is_empty());
}

#[test]
fn only_nameable_targets_are_supervised() {
    let targets: Vec<String> =
        ["a", "goose+roam://x", "b", "c:1"].iter().map(|s| s.to_string()).collect();
    let names = peer_names(&targets);
    assert_eq!(names, vec!["a", "b"]);
    assert_eq!(peer_index(&names, "b"), Some(1));
    assert_eq!(peer_index(&names, "c"), None);
}

#[test]
fn whatever_keeps_an_answer_away_counts_as_offline() {
    assert_eq!(offline("w"), "roam peer `w` is not connected");
    let stalled: Vec<CallProgress<u8, u8>> = vec![
        CallProgress::Offline,
        CallProgress::NotTaken,
        CallProgress::Dropped,
        CallProgress::TimedOut,
    ];
    for progress in stalled {
        match call_result("w", progress) {
            Err(CallFailure::Offline(m)) => assert_eq!(m, "roam peer `w` is not connected"),
            _ => panic!("the peer is not reported offline"),
        }
    }
    assert!(matches!(call_result::<u8, u8>("w", CallProgress::Answered(Ok(4))), Ok(4)));
    assert!(matches!(
        call_result::<u8, u8>("w", CallProgress::Answered(Err(5))),
        Err(CallFailure::Remote(5))
    ));
}

#[test]
fn permission_is_cancelled_without_a_client() {
    assert_eq!(permission_answer(true, true, Some(1)), Some(1));
    assert_eq!(permission_answer::<u8>(true, true, None), None);
    assert_eq!(permission_answer(true, false, Some(1)), None);
    assert_eq!(permission_answer(false, true, Some(1)), None);
}

#[test]
fn only_prompts_may_take_their_time() {
    assert_eq!(time_limit(PeerMethod::ListSessions), Some(5));
    assert_eq!(time_limit(PeerMethod::LoadSession), Some(30));
    assert_eq!(time_limit(PeerMethod::SetConfigOption), Some(30));
    assert_eq!(time_limit(PeerMethod::RenameSession), Some(10));
    assert_eq!(time_limit(PeerMethod::RemoveExtension), Some(10));
    assert_eq!(time_limit(PeerMethod::Prompt), None);
}

#[test]
fn full_queues_drop_the_oldest_event() {
    let mut queue = EventQueue::new();
    assert_eq!(queue.pop(), None);
    for i in 0..EVENT_QUEUE {
        assert_eq!(queue.push(i), None);
    }
    assert_eq!(queue.push(256), Some(0));
    assert_eq!(queue.push(257), Some(1));
    for i in 2..258 {
        assert_eq!(queue.pop(), Some(i));
    }
    assert_eq!(queue.pop(), None);
    assert_eq!(queue.push(7), None);
    assert_eq!(queue.pop(), Some(7));
}

#[test]
fn event_queues_hold_so_many() {
    assert_eq!(EVENT_QUEUE, 256);
    let mut queue = EventQueue::default();
    let dropped = (0..300).filter(|i| queue.push(*i).is_some()).count();
    assert_eq!(dropped, 44);
}
