//! The command line.

use goose_roaming::roam::{
    accept_plan, accepted_lines, bridge_label, bridge_lines, card_source, connection_table,
    cut_text, delegate_plan, delegate_status, directory_path, error_message, identity_lines,
    ignored_name, peer_table, peerbook_path, peers_command, peers_plan, removed_line, renamed_line,
    resolve_card, resolve_key, revoked_lines, save_name, saved_lines, session_table,
    share_builtins, share_lines, share_warning, short_id, trust_path, BookChange, CardSource,
    DelegatePlan, Observed, PeersCommand, PeersPlan, RemoteSession, RoamCommand, SavedPeer,
};
use goose_roaming::access::TrustChange;
use goose_roaming::{ConnectionCard, RoamingError, SecretKey};

fn card(seed: u8) -> ConnectionCard {
    ConnectionCard::new(SecretKey::from_bytes(&[seed; 32]).public(), vec![])
}

#[test]
fn short_ids_are_twelve_characters() {
    assert_eq!(short_id("0123456789abcdef"), "0123456789ab");
    assert_eq!(short_id("012345"), "012345");
    assert_eq!(short_id("äöüäöüäöüäöüä"), "äöüäöüäöüäöü");
    let id = card(1).endpoint_id;
    assert_eq!(save_name(None, &id), id.to_text()[..12]);
    assert_eq!(save_name(Some("n".to_string()), &id), "n");
}

#[test]
fn inline_cards_are_accepted_and_saved() {
    let plan = accept_plan("t", None, Some(card(1)), Some(card(2))).unwrap();
    assert_eq!(plan.card, card(1));
    assert_eq!(plan.save_as.unwrap(), card(1).endpoint_id.to_text()[..12]);
    assert!(!plan.name_ignored);
    let named = accept_plan("t", Some("n".to_string()), Some(card(1)), None).unwrap();
    assert_eq!(named.save_as.as_deref(), Some("n"));
}

#[test]
fn saved_peers_are_accepted_as_they_are() {
    let plan = accept_plan("t", Some("n".to_string()), None, Some(card(2))).unwrap();
    assert_eq!(plan.card, card(2));
    assert_eq!(plan.save_as, None);
    assert!(plan.name_ignored);
    match accept_plan("t", None, None, None) {
        Err(e) => assert_eq!(
            e,
            "no saved peer `t` and it is not a card; add it first with `goose roam peers add`"
        ),
        Ok(_) => panic!("nobody was accepted"),
    }
}

#[test]
fn keys_come_from_cards_names_or_ids() {
    let (a, b, c) = (card(1).endpoint_id, card(2).endpoint_id, card(3).endpoint_id);
    assert_eq!(resolve_key("t", Some(a), Some(b)), Ok(a));
    assert_eq!(resolve_key("t", None, Some(b)), Ok(b));
    assert_eq!(resolve_key(&c.to_text(), None, None), Ok(c));
    assert_eq!(
        resolve_key("t", None, None),
        Err("`t` is not a saved peer, a card, or an endpoint id".to_string())
    );
}

#[test]
fn dialled_cards_are_inline_or_saved() {
    assert_eq!(card_source("goose+roam://x"), CardSource::Inline);
    assert_eq!(card_source(" goose+roam://x"), CardSource::Saved);
    let unread = || Err(RoamingError::Card("bad".to_string()));
    assert_eq!(resolve_card("goose+roam://x", Ok(card(1)), Some(card(2))), Ok(card(1)));
    assert_eq!(resolve_card("goose+roam://x", unread(), Some(card(2))), Err("bad".to_string()));
    assert_eq!(resolve_card("w", unread(), Some(card(2))), Ok(card(2)));
    assert_eq!(
        resolve_card("w", unread(), None),
        Err("no saved peer named `w` (and it is not a card); see `goose roam peers`".to_string())
    );
    for e in [
        RoamingError::Identity("m".to_string()),
        RoamingError::Invite("m".to_string()),
        RoamingError::Card("m".to_string()),
        RoamingError::Transport("m".to_string()),
        RoamingError::Rejected("m".to_string()),
    ] {
        assert_eq!(error_message(&e), "m");
    }
}

#[test]
fn sharing_defaults_to_the_developer_extension() {
    assert_eq!(share_builtins(vec![]), vec!["developer"]);
    assert_eq!(share_builtins(vec!["memory".to_string()]), vec!["memory"]);
    assert!(share_warning(0).unwrap().starts_with("warning: no peers are accepted yet — no one"));
    assert_eq!(share_warning(1), None);
}

#[test]
fn delegating_needs_a_task() {
    let task = || Some("do it".to_string());
    assert_eq!(delegate_plan(task(), None, true), Ok(DelegatePlan::List));
    assert_eq!(
        delegate_plan(task(), Some("s".to_string()), false),
        Ok(DelegatePlan::Run { task: "do it".to_string(), session: Some("s".to_string()) })
    );
    assert_eq!(
        delegate_plan(None, None, false),
        Err("a task is required (or pass --list-sessions)".to_string())
    );
    assert_eq!(delegate_status("a", Some("s")), "delegating to `a` session s...");
    assert_eq!(delegate_status("a", None), "delegating task to `a`...");
    assert_eq!(bridge_label(None), "bridge");
    assert_eq!(bridge_label(Some("l".to_string())), "l");
}

#[test]
fn commands_default_to_listing_peers() {
    assert_eq!(peers_command(None), PeersCommand::List);
    let remove = PeersCommand::Remove { name: "n".to_string() };
    assert_eq!(peers_command(Some(remove.clone())), remove);
    let command: RoamCommand<()> = RoamCommand::Peers { command: None };
    assert!(matches!(command, RoamCommand::Peers { command: None }));
}

#[test]
fn files_stand_in_their_directories() {
    assert_eq!(directory_path("/state"), "/state/roaming_directory.json");
    assert_eq!(trust_path("/config/"), "/config/roaming_trust.json");
    assert_eq!(peerbook_path(""), "roaming_peers.json");
}

#[test]
fn peer_tables_mark_accepted_keys() {
    let peers = vec![
        SavedPeer { name: "laptop".to_string(), endpoint_id: "id1".to_string() },
        SavedPeer { name: "a-rather-long-name".to_string(), endpoint_id: "id2".to_string() },
    ];
    let accepted = vec!["id0".to_string(), "id1".to_string()];
    assert_eq!(
        peer_table(&peers, &accepted).unwrap(),
        vec![
            format!("{:<16} {:<8} ENDPOINT ID", "NAME", "ACCEPT"),
            format!("{:<16} {:<8} id1", "laptop", "yes"),
            format!("{:<16} {:<8} id2", "a-rather-long-name", "no"),
            format!("{:<16} {:<8} id0", "(unsaved)", "yes"),
        ]
    );
    assert_eq!(peer_table(&vec![], &vec![]), None);
    assert_eq!(peer_table(&vec![], &accepted).unwrap().len(), 3);
}

#[test]
fn connection_tables_cut_long_agents() {
    let entries = vec![
        Observed {
            connected: true,
            inbound: false,
            agent_id: Some("0123456789012345678901".to_string()),
            endpoint_id: "id1".to_string(),
        },
        Observed {
            connected: false,
            inbound: true,
            agent_id: None,
            endpoint_id: "id2".to_string(),
        },
    ];
    assert_eq!(
        connection_table(&entries).unwrap(),
        vec![
            format!("{:<10} {:<9} {:<20} ENDPOINT ID", "STATUS", "DIR", "AGENT"),
            format!("{:<10} {:<9} {:<20} id1", "connected", "outbound", "0123456789012345678…"),
            format!("{:<10} {:<9} {:<20} id2", "seen", "inbound", "-"),
        ]
    );
    assert_eq!(connection_table(&vec![]), None);
    assert_eq!(cut_text("01234567890123456789"), "01234567890123456789");
    assert_eq!(cut_text("012345678901234567890"), "0123456789012345678…");
}

#[test]
fn session_tables_show_titles() {
    let sessions = vec![
        RemoteSession {
            session_id: "s1".to_string(),
            title: Some("a title that is much too long".to_string()),
            updated_at: Some("2026".to_string()),
        },
        RemoteSession { session_id: "s2".to_string(), title: None, updated_at: None },
    ];
    assert_eq!(
        session_table(&sessions).unwrap(),
        vec![
            format!("{:<40} {:<20} UPDATED", "SESSION ID", "TITLE"),
            format!("{:<40} {:<20} 2026", "s1", "a title that is muc…"),
            format!("{:<40} {:<20} ", "s2", ""),
        ]
    );
    assert_eq!(session_table(&vec![]), None);
}

#[test]
fn what_is_said_names_peers_and_fingerprints() {
    let c = card(1);
    let id = c.endpoint_id.to_text();
    let print = c.fingerprint();
    assert_eq!(
        saved_lines("laptop", &c),
        vec![
            format!("saved peer `laptop` -> {id} (fingerprint {print})"),
            "accept connections from it with: goose roam peers accept laptop".to_string(),
        ]
    );
    assert_eq!(
        accepted_lines(&c),
        vec![
            format!("accepting connections from {id}"),
            format!("verify the fingerprint out of band: {print}"),
            "a running `goose roam share` picks this up on the next connection".to_string(),
        ]
    );
    assert_eq!(
        revoked_lines(&c.endpoint_id),
        vec![
            format!("revoked {id}; it can no longer connect"),
            "note: an already-open session is unaffected until it disconnects".to_string(),
        ]
    );
    assert_eq!(
        identity_lines(&c),
        vec![format!("  endpoint id : {id}"), format!("  fingerprint : {print}")]
    );
    assert_eq!(ignored_name("a"), "note: `a` is a saved peer; ignoring the extra name arg");
    assert_eq!(removed_line("a", true), "removed peer `a` from the address book");
    assert_eq!(removed_line("a", false), "no peer named `a`");
    assert_eq!(renamed_line("a", "b"), "renamed `a` -> `b`");
}

#[test]
fn what_is_said_of_shares_and_bridges() {
    assert_eq!(
        share_lines("id", "/work", 12),
        vec![
            "roaming agent is live",
            "  endpoint id : id",
            "  working dir : /work",
            "  accepted    : 12 peer key(s)",
        ]
    );
    assert_eq!(
        bridge_lines("id", Some("127.0.0.1:8900")),
        vec![
            "bridging remote agent `id` on tcp://127.0.0.1:8900",
            "point an ACP client at this address; serving one connection",
        ]
    );
    assert_eq!(
        bridge_lines("id", None),
        vec!["bridging remote agent `id` over stdio; speak ACP on stdin/stdout"]
    );
}

fn no_card() -> Result<ConnectionCard, RoamingError> {
    Err(RoamingError::Card("no card".to_string()))
}

#[test]
fn adding_saves_a_card_and_trusts_no_one() {
    let command = |name: Option<&str>| PeersCommand::Add {
        card: "goose+roam://x".to_string(),
        name: name.map(|n| n.to_string()),
    };
    let save = |name: &str| BookChange::Save {
        name: name.to_string(),
        card: "goose+roam://x".to_string(),
    };
    let named = peers_plan(command(Some("work")), Ok(card(1)), Some(card(2))).unwrap();
    assert_eq!(
        named,
        PeersPlan {
            note: None,
            book: save("work"),
            trust: TrustChange::Keep,
            list: false,
            said: saved_lines("work", &card(1)),
        }
    );
    let unnamed = peers_plan(command(None), Ok(card(1)), None).unwrap();
    assert_eq!(unnamed.book, save(&card(1).endpoint_id.to_text()[..12]));
    assert_eq!(
        peers_plan(command(Some("work")), no_card(), Some(card(2))),
        Err("no card".to_string())
    );
}

#[test]
fn accepting_saves_only_a_card_it_was_given() {
    let command = |name: Option<&str>| PeersCommand::Accept {
        target: "work".to_string(),
        name: name.map(|n| n.to_string()),
    };
    let given = peers_plan(command(Some("n")), Ok(card(1)), Some(card(2))).unwrap();
    assert_eq!(
        given,
        PeersPlan {
            note: None,
            book: BookChange::Save { name: "n".to_string(), card: "work".to_string() },
            trust: TrustChange::Accept(card(1).endpoint_id),
            list: false,
            said: accepted_lines(&card(1)),
        }
    );
    let known = peers_plan(command(Some("n")), no_card(), Some(card(2))).unwrap();
    assert_eq!(
        known,
        PeersPlan {
            note: Some(ignored_name("work")),
            book: BookChange::Keep,
            trust: TrustChange::Accept(card(2).endpoint_id),
            list: false,
            said: accepted_lines(&card(2)),
        }
    );
    let plain = peers_plan(command(None), no_card(), Some(card(2))).unwrap();
    assert_eq!(plain.note, None);
    assert_eq!(
        peers_plan(command(None), no_card(), None),
        Err("no saved peer `work` and it is not a card; add it first with \
             `goose roam peers add`"
            .to_string())
    );
}

#[test]
fn revoking_leaves_the_saved_peers_alone() {
    let command = |target: &str| PeersCommand::Revoke { target: target.to_string() };
    let plan_for = |key| PeersPlan {
        note: None,
        book: BookChange::Keep,
        trust: TrustChange::Revoke(key),
        list: false,
        said: revoked_lines(&key),
    };
    let (a, b, c) = (card(1).endpoint_id, card(2).endpoint_id, card(3).endpoint_id);
    assert_eq!(peers_plan(command("t"), Ok(card(1)), Some(card(2))), Ok(plan_for(a)));
    assert_eq!(peers_plan(command("t"), no_card(), Some(card(2))), Ok(plan_for(b)));
    assert_eq!(peers_plan(command(&c.to_text()), no_card(), None), Ok(plan_for(c)));
    assert_eq!(
        peers_plan(command("t"), no_card(), None),
        Err("`t` is not a saved peer, a card, or an endpoint id".to_string())
    );
}

#[test]
fn removing_renaming_and_listing_leave_trust_alone() {
    let removed =
        peers_plan(PeersCommand::Remove { name: "a".to_string() }, no_card(), None).unwrap();
    assert_eq!(removed.book, BookChange::Remove { name: "a".to_string() });
    assert_eq!(removed.trust, TrustChange::Keep);
    assert!(removed.said.is_empty());

    let (from, to) = ("a".to_string(), "b".to_string());
    let command = PeersCommand::Rename { from: from.clone(), to: to.clone() };
    let renamed = peers_plan(command, no_card(), None).unwrap();
    assert_eq!(renamed.book, BookChange::Rename { from, to });
    assert_eq!(renamed.trust, TrustChange::Keep);
    assert_eq!(renamed.said, vec!["renamed `a` -> `b`"]);

    let listed = peers_plan(PeersCommand::List, Ok(card(1)), Some(card(2))).unwrap();
    assert_eq!(listed.book, BookChange::Keep);
    assert_eq!(listed.trust, TrustChange::Keep);
    assert!(listed.list);
    assert!(!renamed.list && !removed.list);
}
