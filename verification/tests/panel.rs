use content::{
    apply_server_event, AgentPanelState, InteractionKind, PanelEntry, PresenceUser, RoomAction, ServerEvent,
    SessionEntry, ToolCallStatus,
};

fn s(text: &str) -> String {
    text.to_string()
}

fn reasoning(label: &str, delta: &str) -> ServerEvent {
    ServerEvent::AgentReasoningDelta { agent_label: s(label), delta: s(delta) }
}

fn content_delta(label: &str, delta: &str) -> ServerEvent {
    ServerEvent::AgentContentDelta { agent_label: s(label), delta: s(delta) }
}

fn tool_started(id: &str, name: &str) -> ServerEvent {
    ServerEvent::AgentToolCallStarted { agent_label: s("Superviseur"), id: s(id), name: s(name), arguments: s("{}") }
}

#[test]
fn reasoning_deltas_fill_one_entry_until_the_step_ends() {
    let mut state = AgentPanelState::new();
    apply_server_event(&mut state, reasoning("Superviseur", "Je "));
    apply_server_event(&mut state, reasoning("Superviseur", "réfléchis"));
    assert!(state.pending);
    assert_eq!(state.entries.len(), 1);
    assert_eq!(state.open_reasoning, Some(0));
    match &state.entries[0] {
        PanelEntry::Reasoning { agent_label, content, done } => {
            assert_eq!(agent_label, "Superviseur");
            assert_eq!(content, "Je réfléchis");
            assert!(!done);
        }
        other => panic!("unexpected entry {other:?}"),
    }
    apply_server_event(&mut state, ServerEvent::AgentStepFinished);
    assert_eq!(state.open_reasoning, None);
    assert_eq!(state.open_message, None);
    assert!(matches!(&state.entries[0], PanelEntry::Reasoning { done: true, .. }));
    // The next turn opens a new entry.
    apply_server_event(&mut state, reasoning("Superviseur", "Ensuite"));
    assert_eq!(state.entries.len(), 2);
    assert_eq!(state.open_reasoning, Some(1));
}

#[test]
fn content_deltas_fill_the_message_of_the_turn() {
    let mut state = AgentPanelState::new();
    apply_server_event(&mut state, reasoning("A", "r"));
    apply_server_event(&mut state, content_delta("A", "Bon"));
    apply_server_event(&mut state, content_delta("A", "jour"));
    assert_eq!(state.entries.len(), 2);
    assert_eq!(state.open_message, Some(1));
    match &state.entries[1] {
        PanelEntry::Assistant { agent_label, content } => {
            assert_eq!(agent_label, "A");
            assert_eq!(content, "Bonjour");
        }
        other => panic!("unexpected entry {other:?}"),
    }
}

#[test]
fn tool_call_status_goes_to_the_last_call_with_its_id() {
    let mut state = AgentPanelState::new();
    apply_server_event(&mut state, tool_started("t1", "lire"));
    apply_server_event(&mut state, tool_started("t2", "écrire"));
    apply_server_event(&mut state, tool_started("t1", "lire"));
    apply_server_event(&mut state, ServerEvent::AgentToolCallFinished { id: s("t1"), ok: true, output: s("fait") });
    assert!(matches!(&state.entries[0], PanelEntry::ToolCall { status: ToolCallStatus::Running, .. }));
    assert!(matches!(&state.entries[1], PanelEntry::ToolCall { status: ToolCallStatus::Running, .. }));
    match &state.entries[2] {
        PanelEntry::ToolCall { status: ToolCallStatus::Done(output), .. } => assert_eq!(output, "fait"),
        other => panic!("unexpected entry {other:?}"),
    }
    apply_server_event(&mut state, ServerEvent::AgentToolCallFinished { id: s("t2"), ok: false, output: s("refus") });
    match &state.entries[1] {
        PanelEntry::ToolCall { status: ToolCallStatus::Failed(message), .. } => assert_eq!(message, "refus"),
        other => panic!("unexpected entry {other:?}"),
    }
    // An unknown id changes nothing.
    apply_server_event(&mut state, ServerEvent::AgentToolCallFinished { id: s("t9"), ok: true, output: s("x") });
    assert_eq!(state.entries.len(), 3);
}

#[test]
fn errors_and_stops_end_the_task() {
    let mut state = AgentPanelState::new();
    apply_server_event(&mut state, reasoning("A", "r"));
    apply_server_event(&mut state, ServerEvent::AgentError { message: s("panne") });
    assert!(!state.pending);
    assert_eq!(state.open_reasoning, None);
    match &state.entries[1] {
        PanelEntry::Error { agent_label, message } => {
            assert_eq!(agent_label, "");
            assert_eq!(message, "panne");
        }
        other => panic!("unexpected entry {other:?}"),
    }
    apply_server_event(&mut state, ServerEvent::AgentRunInProgress);
    assert!(state.pending);
    apply_server_event(&mut state, ServerEvent::AgentStopped);
    assert!(!state.pending);
    match &state.entries[2] {
        PanelEntry::Stopped(message) => assert_eq!(message, "Tâche interrompue par l'utilisateur."),
        other => panic!("unexpected entry {other:?}"),
    }
    apply_server_event(&mut state, ServerEvent::AgentRunInProgress);
    apply_server_event(&mut state, ServerEvent::AgentDone);
    assert!(!state.pending);
    assert_eq!(state.entries.len(), 3);
}

#[test]
fn questions_of_the_agent_wait_for_the_user() {
    let mut state = AgentPanelState::new();
    apply_server_event(&mut state, ServerEvent::AgentRunInProgress);
    apply_server_event(&mut state, ServerEvent::InteractionAsk { agent_label: s("A"), question: s("Quoi ?") });
    assert!(!state.pending);
    assert_eq!(state.pending_kind, Some(InteractionKind::Ask));
    let request = state.interaction.as_ref().unwrap();
    assert_eq!(request.prompt, "Quoi ?");
    assert_eq!(request.questions.len(), 1);
    assert_eq!(request.questions[0].id, "reponse");
    assert_eq!(request.questions[0].label, "Votre réponse");
    assert_eq!(request.questions[0].options, None);

    apply_server_event(&mut state, ServerEvent::InteractionConfirm { agent_label: s("B"), message: s("Sûr ?") });
    assert_eq!(state.pending_kind, Some(InteractionKind::Confirm));
    let request = state.interaction.as_ref().unwrap();
    assert_eq!(request.agent_label, "B");
    assert_eq!(request.questions[0].id, "confirmation");
    assert_eq!(request.questions[0].label, "Confirmez-vous ?");
    assert_eq!(request.questions[0].options, Some(vec![s("Oui"), s("Non")]));

    apply_server_event(
        &mut state,
        ServerEvent::InteractionRequestDocument {
            agent_label: s("C"),
            prompt: s("Le contrat"),
            accepted_mime_types: vec![s("application/pdf")],
        },
    );
    let document = state.document_request.as_ref().unwrap();
    assert_eq!(document.prompt, "Le contrat");
    assert_eq!(document.accepted_mime_types, vec![s("application/pdf")]);
}

#[test]
fn active_session_fills_only_an_empty_panel() {
    let transcript = || {
        vec![
            SessionEntry::User(s("Rédige")),
            SessionEntry::Assistant(s("Voici")),
            SessionEntry::ToolCall { name: s("lire"), arguments: s("{}"), output: s("ok") },
        ]
    };
    let mut state = AgentPanelState::new();
    apply_server_event(&mut state, ServerEvent::AgentActiveSession { entries: transcript() });
    assert_eq!(state.entries.len(), 3);
    assert!(matches!(&state.entries[0], PanelEntry::User(c) if c == "Rédige"));
    assert!(matches!(&state.entries[1], PanelEntry::Assistant { agent_label, content } if agent_label.is_empty() && content == "Voici"));
    match &state.entries[2] {
        PanelEntry::ToolCall { id, name, status: ToolCallStatus::Done(output), .. } => {
            assert_eq!(id, "session-entry-2");
            assert_eq!(name, "lire");
            assert_eq!(output, "ok");
        }
        other => panic!("unexpected entry {other:?}"),
    }
    apply_server_event(&mut state, ServerEvent::AgentActiveSession { entries: vec![SessionEntry::User(s("x"))] });
    assert_eq!(state.entries.len(), 3);

    apply_server_event(&mut state, ServerEvent::AgentSessionHistory { session_id: s("s7"), entries: transcript() });
    let history = state.session_history.as_ref().unwrap();
    assert_eq!(history.session_id, "s7");
    assert_eq!(history.entries.len(), 3);
}

#[test]
fn review_updates_and_changes_are_handed_to_the_client() {
    let mut state = AgentPanelState::new();
    let action = apply_server_event(&mut state, ServerEvent::ReviewUpdate { update: s("AAEC") });
    assert!(matches!(action, RoomAction::ApplyReviewUpdate(u) if u == "AAEC"));
    let action = apply_server_event(&mut state, ServerEvent::MetadataChanged);
    assert!(matches!(action, RoomAction::KeepMetadataChange));
    assert_eq!(state.metadata_version, 1);
    let action = apply_server_event(&mut state, ServerEvent::DocumentsChanged);
    assert!(matches!(action, RoomAction::KeepDocumentsChange));
    assert_eq!(state.files_version, 1);
    state.metadata_version = u32::MAX;
    apply_server_event(&mut state, ServerEvent::MetadataChanged);
    assert_eq!(state.metadata_version, 0);
    let action = apply_server_event(&mut state, ServerEvent::AgentDone);
    assert!(matches!(action, RoomAction::Nothing));
}

#[test]
fn presence_replaces_the_connected_users() {
    let mut state = AgentPanelState::new();
    let user = PresenceUser { user_id: s("u1"), initial: s("M"), color: s("#123456") };
    apply_server_event(&mut state, ServerEvent::Presence { users: vec![user] });
    assert_eq!(state.connected_users.len(), 1);
    assert_eq!(state.connected_users[0].initial, "M");
    apply_server_event(&mut state, ServerEvent::Presence { users: vec![] });
    assert!(state.connected_users.is_empty());
}
