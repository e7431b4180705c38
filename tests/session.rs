use ide_session::handshake::{HandshakeEvent, HandshakeState};
use ide_session::message::{EditorMessage, EditorMessageContents, IdeType, UpdateMessageContents};
use ide_session::registry::{AttachError, RegistryError, SessionOutcome, SessionRegistry};

fn update_message(id: u64) -> EditorMessage {
    EditorMessage::new(
        id,
        EditorMessageContents::Update(UpdateMessageContents {
            path: None,
            contents: None,
            cursor_position: None,
            scroll_position: None,
        }),
    )
}

fn result_text(m: &EditorMessage) -> String {
    match &m.message {
        EditorMessageContents::Result(text) => text.clone(),
        other => panic!("expected a Result, got {other:?}"),
    }
}

#[test]
fn test_vscode_ide_websocket() {
    let mut registry: SessionRegistry<u32> = SessionRegistry::new();
    assert_eq!(
        registry.attach_ide_transport("test-connection-id", 1, 2),
        Ok(true)
    );

    // A first message that is not `Opened` is an error, followed by `Closed`.
    let state = HandshakeState::new();
    let t = state.step(HandshakeEvent::Received(update_message(0)), "testing");
    assert_eq!(t.outbox.len(), 2);
    let result = result_text(&t.outbox[0]);
    assert!(result.starts_with("Unexpected message"));
    assert_eq!(t.outbox[1].message, EditorMessageContents::Closed);
    assert_eq!(t.next, HandshakeState::Closed);
}

#[test]
fn first_attach_creates_then_conflicts() {
    let mut registry: SessionRegistry<u32> = SessionRegistry::new();
    assert_eq!(registry.try_begin_session("abc", 1, 2), SessionOutcome::Create);
    assert_eq!(registry.try_begin_session("abc", 3, 4), SessionOutcome::Conflict);
    assert_eq!(registry.get_ide_queues("abc"), Ok(&1));
    assert_eq!(registry.get_client_queues("abc"), Ok(&2));
}

#[test]
fn attach_after_detach_resumes_with_same_queues() {
    let mut registry: SessionRegistry<u32> = SessionRegistry::new();
    assert_eq!(registry.try_begin_session("abc", 1, 2), SessionOutcome::Create);
    registry.end_attach("abc");
    assert_eq!(registry.try_begin_session("abc", 3, 4), SessionOutcome::Resume);
    assert_eq!(registry.get_ide_queues("abc"), Ok(&1));
    assert_eq!(registry.get_client_queues("abc"), Ok(&2));
    assert_eq!(registry.try_begin_session("abc", 5, 6), SessionOutcome::Conflict);
}

#[test]
fn sessions_are_independent() {
    let mut registry: SessionRegistry<u32> = SessionRegistry::new();
    assert_eq!(registry.try_begin_session("a", 1, 2), SessionOutcome::Create);
    assert_eq!(registry.try_begin_session("b", 3, 4), SessionOutcome::Create);
    registry.end_attach("a");
    assert_eq!(registry.try_begin_session("b", 5, 6), SessionOutcome::Conflict);
    assert_eq!(registry.try_begin_session("a", 7, 8), SessionOutcome::Resume);
    assert_eq!(registry.get_ide_queues("b"), Ok(&3));
}

#[test]
fn lookup_of_unknown_id_fails() {
    let mut registry: SessionRegistry<u32> = SessionRegistry::new();
    assert_eq!(registry.get_ide_queues("x"), Err(RegistryError::NotFound));
    assert_eq!(registry.get_client_queues("x"), Err(RegistryError::NotFound));
    registry.end_attach("x");
    assert_eq!(registry.get_ide_queues("x"), Err(RegistryError::NotFound));
}

#[test]
fn attach_reports_conflict() {
    let mut registry: SessionRegistry<u32> = SessionRegistry::new();
    assert_eq!(registry.attach_ide_transport("c", 1, 2), Ok(true));
    let err = registry.attach_ide_transport("c", 3, 4).unwrap_err();
    assert_eq!(err, AttachError::ConnectionIdInUse);
    assert_eq!(err.message("c"), "Connection ID c already in use.");
    registry.end_attach("c");
    assert_eq!(registry.attach_ide_transport("c", 5, 6), Ok(false));
}

#[test]
fn self_hosted_open_sends_result_then_html() {
    let t = HandshakeState::new().step(
        HandshakeEvent::Received(EditorMessage::new(
            7,
            EditorMessageContents::Opened(IdeType::VSCode(true)),
        )),
        "<p>hi</p>",
    );
    assert_eq!(t.next, HandshakeState::Ready);
    assert!(!t.launch_browser);
    assert_eq!(
        t.outbox,
        vec![
            EditorMessage::new(7, EditorMessageContents::Result(String::new())),
            EditorMessage::new(0, EditorMessageContents::ClientHtml("<p>hi</p>".to_string())),
        ]
    );
}

#[test]
fn browser_launch_failure_closes() {
    let t1 = HandshakeState::new().step(
        HandshakeEvent::Received(EditorMessage::new(
            3,
            EditorMessageContents::Opened(IdeType::VSCode(false)),
        )),
        "",
    );
    assert_eq!(t1.next, HandshakeState::AwaitLaunch(3));
    assert!(t1.launch_browser);
    assert!(t1.outbox.is_empty());
    let t2 = t1
        .next
        .step(HandshakeEvent::LaunchFailed("no display".to_string()), "");
    assert_eq!(t2.next, HandshakeState::Closed);
    assert_eq!(t2.outbox.len(), 2);
    assert_eq!(t2.outbox[0].id, 3);
    assert_eq!(
        result_text(&t2.outbox[0]),
        "Unable to open web browser: no display"
    );
    assert_eq!(t2.outbox[1], EditorMessage::new(0, EditorMessageContents::Closed));
}

#[test]
fn browser_launch_success_is_ready() {
    let t2 = HandshakeState::AwaitLaunch(9).step(HandshakeEvent::LaunchSucceeded, "");
    assert_eq!(t2.next, HandshakeState::Ready);
    assert!(!t2.launch_browser);
    assert_eq!(
        t2.outbox,
        vec![EditorMessage::new(9, EditorMessageContents::Result(String::new()))]
    );
}

#[test]
fn invalid_ide_type_is_refused() {
    let t = HandshakeState::new().step(
        HandshakeEvent::Received(EditorMessage::new(
            4,
            EditorMessageContents::Opened(IdeType::DeveloperMode),
        )),
        "",
    );
    assert_eq!(t.next, HandshakeState::Closed);
    assert_eq!(t.outbox.len(), 2);
    assert_eq!(t.outbox[0].id, 4);
    assert_eq!(result_text(&t.outbox[0]), "Invalid IDE type: DeveloperMode");
    assert_eq!(t.outbox[1].message, EditorMessageContents::Closed);
}

#[test]
fn unexpected_first_message_names_its_kind() {
    let t = HandshakeState::new().step(
        HandshakeEvent::Received(EditorMessage::new(
            5,
            EditorMessageContents::Result("x".to_string()),
        )),
        "",
    );
    assert_eq!(t.outbox[0].id, 5);
    assert_eq!(result_text(&t.outbox[0]), "Unexpected message Result");
    assert_eq!(t.outbox[1], EditorMessage::new(0, EditorMessageContents::Closed));
}

#[test]
fn inbound_closed_ends_silently() {
    let t = HandshakeState::new().step(HandshakeEvent::InboundClosed, "");
    assert_eq!(t.next, HandshakeState::Closed);
    assert!(t.outbox.is_empty());
    assert!(!t.launch_browser);
    assert!(t.next.is_done());
    assert!(!HandshakeState::new().is_done());
}

#[test]
fn finished_handshake_ignores_events() {
    for s in [HandshakeState::Ready, HandshakeState::Closed] {
        let t = s.step(
            HandshakeEvent::Received(EditorMessage::new(
                1,
                EditorMessageContents::Opened(IdeType::VSCode(true)),
            )),
            "",
        );
        assert_eq!(t.next, s);
        assert!(t.outbox.is_empty());
        assert!(!t.launch_browser);
    }
}
