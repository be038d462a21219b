//! The terminal client and shared sessions.

use goose_roaming::client::{
    collect, next_prompt, option_line, parse_number, pick_option, render_update, PromptStep, Shown,
    Update,
};
use goose_roaming::shared_session::{
    permission_outcome, prompt_text, serves_on, session_id_for_peer, ContentBlock, FullAcpBridge,
    GooseAgentBackend, PeerEvent, ResumeTarget, SharedSession, StartPlan,
};
use goose_roaming::{Scope, SubscriberId};

#[test]
fn lines_become_prompts() {
    assert_eq!(next_prompt(Some("  hi there \n")), PromptStep::Send("hi there".to_string()));
    assert_eq!(next_prompt(Some(" \t")), PromptStep::Skip);
    assert_eq!(next_prompt(Some("/quit")), PromptStep::End);
    assert_eq!(next_prompt(Some(" /exit ")), PromptStep::End);
    assert_eq!(next_prompt(Some("/quit now")), PromptStep::Send("/quit now".to_string()));
    assert_eq!(next_prompt(None), PromptStep::End);
}

#[test]
fn answers_pick_an_option() {
    assert_eq!(pick_option(Some("2\n"), 3), Some(1));
    assert_eq!(pick_option(Some("+3"), 3), Some(2));
    assert_eq!(pick_option(Some("9"), 3), Some(2));
    assert_eq!(pick_option(Some("0"), 3), Some(0));
    assert_eq!(pick_option(Some("yes"), 3), Some(0));
    assert_eq!(pick_option(None, 3), Some(0));
    assert_eq!(pick_option(Some("1"), 0), None);
    assert_eq!(option_line(0, "Allow"), "   1) Allow");
    assert_eq!(option_line(11, "x"), "   12) x");
}

#[test]
fn numbers_are_read_as_std_reads_them() {
    for text in [
        "", "+", "-", "0", "007", "+1", "++1", "-1", "1a", "18446744073709551615",
        "18446744073709551616", "99999999999999999999", "١",
    ] {
        assert_eq!(parse_number(text), text.parse::<usize>().ok(), "{text}");
    }
}

#[test]
fn updates_are_shown_by_kind() {
    let t = || Some("text".to_string());
    assert_eq!(render_update(&Update::Message(t())), Shown::Output("text".to_string()));
    assert_eq!(
        render_update(&Update::Thought(t())),
        Shown::Aside("\u{1b}[2mtext\u{1b}[0m".to_string())
    );
    assert_eq!(
        render_update(&Update::ToolCall { title: "ls".to_string() }),
        Shown::Line("\n🔧 ls".to_string())
    );
    assert_eq!(
        render_update(&Update::ToolStatus { status: Some("Completed".to_string()) }),
        Shown::Line("   [Completed]".to_string())
    );
    for update in [
        Update::Message(None),
        Update::Thought(None),
        Update::ToolStatus { status: None },
        Update::Other,
    ] {
        assert_eq!(render_update(&update), Shown::Nothing);
    }
}

#[test]
fn replies_are_the_messages_in_order() {
    let mut reply = String::new();
    let updates = [
        Update::Message(Some("a".to_string())),
        Update::Thought(Some("x".to_string())),
        Update::Message(None),
        Update::Message(Some("b".to_string())),
    ];
    for update in &updates {
        collect(&mut reply, update);
    }
    assert_eq!(reply, "ab");
}

#[test]
fn only_control_gets_the_full_surface() {
    let bridge = FullAcpBridge::new(7u8, "agent");
    assert_eq!(bridge.admits(Scope::Control), Ok(()));
    assert_eq!(bridge.admits(Scope::Attach), Err("scope_not_supported".to_string()));
    assert_eq!(bridge.admits(Scope::Observe), Err("scope_not_supported".to_string()));
    assert_eq!(bridge.agent_id(), "agent");
    assert_eq!(bridge.server, 7);
    assert_eq!(GooseAgentBackend::new(3u8).server, 3);
    assert_eq!(Scope::default(), Scope::Control);
}

#[test]
fn shared_sessions_ask_the_controller() {
    let mut session = SharedSession::new();
    assert_eq!(session.permission_target(), None);
    let watcher = session.join(Scope::Observe);
    let steerer = session.join(Scope::Attach);
    let first = session.join(Scope::Control);
    assert_eq!(session.permission_target(), Some(first));
    assert!(!session.passes_prompt(watcher));
    assert!(session.passes_prompt(steerer));
    assert!(session.passes_prompt(first));
    assert!(!session.passes_prompt(SubscriberId(99)));
    let second = session.join(Scope::Control);
    assert_eq!(session.permission_target(), Some(second));
    assert!(session.passes_prompt(first));
    session.leave(second);
    // The demoted controller does not get control back.
    assert_eq!(session.permission_target(), None);
    assert!(!session.passes_prompt(second));
    session.leave(first);
    let third = session.join(Scope::Control);
    assert_eq!(third, SubscriberId(4));
    assert_eq!(session.permission_target(), Some(third));
}

#[test]
fn permission_without_a_controller_is_cancelled() {
    assert_eq!(permission_outcome(Some(SubscriberId(1)), Some("allow")), Some("allow"));
    assert_eq!(permission_outcome::<&str>(Some(SubscriberId(1)), None), None);
    assert_eq!(permission_outcome(None, Some("allow")), None);
}

#[test]
fn peers_are_served_until_unreachable() {
    assert!(serves_on(PeerEvent::Update { sent: true }));
    assert!(!serves_on(PeerEvent::Update { sent: false }));
    assert!(serves_on(PeerEvent::Lagged));
    assert!(!serves_on(PeerEvent::Closed));
    assert!(serves_on(PeerEvent::Asked { answered: true }));
    assert!(!serves_on(PeerEvent::Asked { answered: false }));
    assert!(serves_on(PeerEvent::NoMoreRequests));
}

#[test]
fn peers_are_told_a_session_id() {
    let id = || Some("s".to_string());
    assert_eq!(session_id_for_peer(id(), false), id());
    assert_eq!(session_id_for_peer(id(), true), id());
    assert_eq!(session_id_for_peer(None, true), Some("roam-shared-session".to_string()));
    assert_eq!(session_id_for_peer(None, false), None);
}

#[test]
fn prompts_are_their_text_blocks() {
    let text = |s: &str| ContentBlock::Text(s.to_string());
    assert_eq!(prompt_text(&vec![text("a"), ContentBlock::Other, text("b")]), "a\nb");
    assert_eq!(prompt_text(&vec![text(""), text("b")]), "\nb");
    assert_eq!(prompt_text(&vec![ContentBlock::Other]), "");
    assert_eq!(prompt_text(&vec![]), "");
}

#[test]
fn sessions_are_built_or_loaded() {
    assert!(matches!(ResumeTarget::New { cwd: 1 }.plan(), StartPlan::Build { cwd: 1 }));
    let kept = ResumeTarget::Existing { session_id: "s".to_string(), cwd: 2 };
    match kept.plan() {
        StartPlan::LoadAndAttach { session_id, cwd } => {
            assert_eq!(session_id, "s");
            assert_eq!(cwd, 2);
        }
        _ => panic!("a kept session was built anew"),
    }
}
