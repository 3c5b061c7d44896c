//! The agent panel of the editor: what it shows of the agent's work, and
//! how each message of the collaboration server changes it. The client reads
//! each text frame into a [`ServerEvent`] and performs the [`RoomAction`]
//! that [`apply_server_event`] returns.
use vstd::prelude::*;
use vstd::string::*;

use crate::error::{decimal, push_decimal};
use crate::protocol::{
    session_label, session_label_of, AgentSessionWire, InteractionQuestionWire, PresenceUser,
    SupervisorContextEntryWire,
};

verus! {

/// Where a tool call stands.
#[derive(Debug)]
pub enum ToolCallStatus {
    Running,
    Done(String),
    /// The call failed, with this message.
    Failed(String),
}

/// One entry of the panel's conversation.
#[derive(Debug)]
pub enum PanelEntry {
    /// A task or an answer of the user.
    User(String),
    /// Text of the agent `agent_label` (empty when unknown).
    Assistant { agent_label: String, content: String },
    /// What the agent thought during one turn; `done` once the turn ended.
    Reasoning { agent_label: String, content: String, done: bool },
    ToolCall { id: String, agent_label: String, name: String, arguments: String, status: ToolCallStatus },
    /// The agent's task failed.
    Error { agent_label: String, message: String },
    /// The agent's task was stopped by a user.
    Stopped(String),
}

/// An entry of the transcript of a session, as the server sends it (tool
/// arguments already written out as text).
#[derive(Debug)]
pub enum SessionEntry {
    User(String),
    Assistant(String),
    ToolCall { name: String, arguments: String, output: String },
}

/// The kind of question the agent is waiting on.
#[derive(Clone, Copy, Debug, PartialEq, Eq, Structural)]
pub enum InteractionKind {
    Ask,
    Confirm,
    Questions,
}

/// A question, or a form of questions, that the agent puts.
#[derive(Debug)]
pub struct InteractionRequest {
    pub agent_label: String,
    pub prompt: String,
    pub questions: Vec<InteractionQuestionWire>,
}

/// A document the agent asks the user to upload.
#[derive(Debug)]
pub struct DocumentRequest {
    pub agent_label: String,
    pub prompt: String,
    pub accepted_mime_types: Vec<String>,
}

/// A past session as the panel lists it.
#[derive(Debug)]
pub struct SessionSummary {
    pub id: String,
    pub label: String,
    pub preview: Option<String>,
}

/// The transcript of a past session being read.
#[derive(Debug)]
pub struct SessionHistory {
    pub session_id: String,
    pub entries: Vec<PanelEntry>,
}

/// What the agent panel shows.
#[derive(Debug)]
pub struct AgentPanelState {
    pub entries: Vec<PanelEntry>,
    /// A task of the agent is running.
    pub pending: bool,
    /// The entry of the reasoning of the current turn, if one is open.
    pub open_reasoning: Option<usize>,
    /// The entry of the message of the current turn, if one is open.
    pub open_message: Option<usize>,
    pub pending_kind: Option<InteractionKind>,
    pub interaction: Option<InteractionRequest>,
    pub document_request: Option<DocumentRequest>,
    pub connected_users: Vec<PresenceUser>,
    pub sessions: Vec<SessionSummary>,
    pub session_history: Option<SessionHistory>,
    pub supervisor_context: Option<Vec<SupervisorContextEntryWire>>,
    /// Counts the changes of the project's metadata, wrapping around.
    pub metadata_version: u32,
    /// Counts the changes of the project's documents, wrapping around.
    pub files_version: u32,
}

/// A text message of the collaboration server, as the client reads it.
#[derive(Debug)]
pub enum ServerEvent {
    AgentDone,
    AgentError { message: String },
    AgentStopped,
    InteractionAsk { agent_label: String, question: String },
    InteractionConfirm { agent_label: String, message: String },
    InteractionQuestions { agent_label: String, prompt: String, questions: Vec<InteractionQuestionWire> },
    InteractionRequestDocument { agent_label: String, prompt: String, accepted_mime_types: Vec<String> },
    Presence { users: Vec<PresenceUser> },
    AgentReasoningDelta { agent_label: String, delta: String },
    AgentContentDelta { agent_label: String, delta: String },
    AgentStepFinished,
    AgentToolCallStarted { agent_label: String, id: String, name: String, arguments: String },
    AgentToolCallFinished { id: String, ok: bool, output: String },
    ReviewUpdate { update: String },
    AgentSessions { sessions: Vec<AgentSessionWire> },
    AgentSessionHistory { session_id: String, entries: Vec<SessionEntry> },
    AgentActiveSession { entries: Vec<SessionEntry> },
    AgentRunInProgress,
    SupervisorContext { entries: Vec<SupervisorContextEntryWire> },
    MetadataChanged,
    DocumentsChanged,
}

/// What the client does beyond the panel after a message.
#[derive(Debug)]
pub enum RoomAction {
    Nothing,
    /// Apply this update (base64) to the document of comments and notes.
    ApplyReviewUpdate(String),
    /// Keep the metadata change that came with the message.
    KeepMetadataChange,
    /// Keep the documents change that came with the message.
    KeepDocumentsChange,
}

// ----- What the panel shows, as values -----

pub enum StatusView {
    Running,
    Done(Seq<char>),
    Failed(Seq<char>),
}

pub enum EntryView {
    User(Seq<char>),
    Assistant { label: Seq<char>, content: Seq<char> },
    Reasoning { label: Seq<char>, content: Seq<char>, done: bool },
    ToolCall { id: Seq<char>, label: Seq<char>, name: Seq<char>, arguments: Seq<char>, status: StatusView },
    Error { label: Seq<char>, message: Seq<char> },
    Stopped(Seq<char>),
}

pub struct QuestionView {
    pub id: Seq<char>,
    pub label: Seq<char>,
    pub options: Option<Seq<Seq<char>>>,
}

pub struct InteractionView {
    pub label: Seq<char>,
    pub prompt: Seq<char>,
    pub questions: Seq<QuestionView>,
}

pub struct DocumentView {
    pub label: Seq<char>,
    pub prompt: Seq<char>,
    pub types: Seq<Seq<char>>,
}

pub struct SessionView {
    pub id: Seq<char>,
    pub label: Seq<char>,
    pub preview: Option<Seq<char>>,
}

pub struct HistoryView {
    pub session_id: Seq<char>,
    pub entries: Seq<EntryView>,
}

pub struct PanelView {
    pub entries: Seq<EntryView>,
    pub pending: bool,
    pub open_reasoning: Option<usize>,
    pub open_message: Option<usize>,
    pub pending_kind: Option<InteractionKind>,
    pub interaction: Option<InteractionView>,
    pub document_request: Option<DocumentView>,
    pub connected_users: Seq<PresenceUser>,
    pub sessions: Seq<SessionView>,
    pub session_history: Option<HistoryView>,
    pub supervisor_context: Option<Seq<SupervisorContextEntryWire>>,
    pub metadata_version: u32,
    pub files_version: u32,
}

pub open spec fn texts(v: Seq<String>) -> Seq<Seq<char>> {
    v.map_values(|s: String| s@)
}

impl View for ToolCallStatus {
    type V = StatusView;

    open spec fn view(&self) -> StatusView {
        match self {
            ToolCallStatus::Running => StatusView::Running,
            ToolCallStatus::Done(o) => StatusView::Done(o@),
            ToolCallStatus::Failed(m) => StatusView::Failed(m@),
        }
    }
}

impl View for PanelEntry {
    type V = EntryView;

    open spec fn view(&self) -> EntryView {
        match self {
            PanelEntry::User(c) => EntryView::User(c@),
            PanelEntry::Assistant { agent_label, content } => EntryView::Assistant {
                label: agent_label@,
                content: content@,
            },
            PanelEntry::Reasoning { agent_label, content, done } => EntryView::Reasoning {
                label: agent_label@,
                content: content@,
                done: *done,
            },
            PanelEntry::ToolCall { id, agent_label, name, arguments, status } => EntryView::ToolCall {
                id: id@,
                label: agent_label@,
                name: name@,
                arguments: arguments@,
                status: status@,
            },
            PanelEntry::Error { agent_label, message } => EntryView::Error { label: agent_label@, message: message@ },
            PanelEntry::Stopped(m) => EntryView::Stopped(m@),
        }
    }
}

pub open spec fn question_view(q: InteractionQuestionWire) -> QuestionView {
    QuestionView {
        id: q.id@,
        label: q.label@,
        options: match q.options {
            Some(o) => Some(texts(o@)),
            None => None,
        },
    }
}

pub open spec fn entries_view(v: Seq<PanelEntry>) -> Seq<EntryView> {
    v.map_values(|e: PanelEntry| e@)
}

impl View for AgentPanelState {
    type V = PanelView;

    open spec fn view(&self) -> PanelView {
        PanelView {
            entries: entries_view(self.entries@),
            pending: self.pending,
            open_reasoning: self.open_reasoning,
            open_message: self.open_message,
            pending_kind: self.pending_kind,
            interaction: match self.interaction {
                Some(i) => Some(
                    InteractionView {
                        label: i.agent_label@,
                        prompt: i.prompt@,
                        questions: i.questions@.map_values(|q: InteractionQuestionWire| question_view(q)),
                    },
                ),
                None => None,
            },
            document_request: match self.document_request {
                Some(d) => Some(
                    DocumentView { label: d.agent_label@, prompt: d.prompt@, types: texts(d.accepted_mime_types@) },
                ),
                None => None,
            },
            connected_users: self.connected_users@,
            sessions: self.sessions@.map_values(
                |s: SessionSummary|
                    SessionView {
                        id: s.id@,
                        label: s.label@,
                        preview: match s.preview {
                            Some(p) => Some(p@),
                            None => None,
                        },
                    },
            ),
            session_history: match self.session_history {
                Some(h) => Some(HistoryView { session_id: h.session_id@, entries: entries_view(h.entries@) }),
                None => None,
            },
            supervisor_context: match self.supervisor_context {
                Some(c) => Some(c@),
                None => None,
            },
            metadata_version: self.metadata_version,
            files_version: self.files_version,
        }
    }
}

// ----- How each message changes the panel -----

/// The entry a transcript entry becomes; `index` names a tool call.
pub open spec fn history_entry(index: nat, e: SessionEntry) -> EntryView {
    match e {
        SessionEntry::User(c) => EntryView::User(c@),
        SessionEntry::Assistant(c) => EntryView::Assistant { label: Seq::empty(), content: c@ },
        SessionEntry::ToolCall { name, arguments, output } => EntryView::ToolCall {
            id: "session-entry-"@ + decimal(index),
            label: Seq::empty(),
            name: name@,
            arguments: arguments@,
            status: StatusView::Done(output@),
        },
    }
}

/// The entries a transcript becomes, in order.
pub open spec fn history_entries(v: Seq<SessionEntry>) -> Seq<EntryView> {
    Seq::new(v.len(), |i: int| history_entry(i as nat, v[i]))
}

/// The last tool call of `entries` named `id`, if any.
pub open spec fn last_tool_call(entries: Seq<EntryView>, id: Seq<char>) -> Option<int>
    decreases entries.len(),
{
    if entries.len() == 0 {
        None
    } else if entries.last() matches EntryView::ToolCall { id: i, .. } && i == id {
        Some(entries.len() - 1)
    } else {
        last_tool_call(entries.drop_last(), id)
    }
}

/// `delta` added to the reasoning of the current turn: to the open one, if
/// it is still a reasoning entry; otherwise to a new one, then open.
pub open spec fn with_reasoning(s: PanelView, label: Seq<char>, delta: Seq<char>) -> PanelView {
    match s.open_reasoning {
        Some(i) => if i < s.entries.len() && s.entries[i as int] is Reasoning {
            match s.entries[i as int] {
                EntryView::Reasoning { label: l, content, done } => PanelView {
                    entries: s.entries.update(i as int, EntryView::Reasoning { label: l, content: content + delta, done }),
                    ..s
                },
                _ => s,
            }
        } else {
            s
        },
        None => PanelView {
            entries: s.entries.push(EntryView::Reasoning { label, content: delta, done: false }),
            open_reasoning: Some(s.entries.len() as usize),
            ..s
        },
    }
}

/// `delta` added to the message of the current turn, in the same way.
pub open spec fn with_message(s: PanelView, label: Seq<char>, delta: Seq<char>) -> PanelView {
    match s.open_message {
        Some(i) => if i < s.entries.len() && s.entries[i as int] is Assistant {
            match s.entries[i as int] {
                EntryView::Assistant { label: l, content } => PanelView {
                    entries: s.entries.update(i as int, EntryView::Assistant { label: l, content: content + delta }),
                    ..s
                },
                _ => s,
            }
        } else {
            s
        },
        None => PanelView {
            entries: s.entries.push(EntryView::Assistant { label, content: delta }),
            open_message: Some(s.entries.len() as usize),
            ..s
        },
    }
}

/// The question of an open question from the agent.
pub open spec fn ask_question() -> QuestionView {
    QuestionView { id: "reponse"@, label: "Votre réponse"@, options: None }
}

/// The question of a yes/no confirmation.
pub open spec fn confirm_question() -> QuestionView {
    QuestionView { id: "confirmation"@, label: "Confirmez-vous ?"@, options: Some(seq!["Oui"@, "Non"@]) }
}

/// The message that ends a stopped task.
pub open spec fn stopped_message() -> Seq<char> {
    "Tâche interrompue par l'utilisateur."@
}

/// How the panel changes on message `e`, and what else the client does.
pub open spec fn panel_step(s: PanelView, e: ServerEvent) -> (PanelView, RoomAction) {
    match e {
        ServerEvent::AgentDone => (PanelView { pending: false, ..s }, RoomAction::Nothing),
        ServerEvent::AgentError { message } => (
            PanelView {
                open_reasoning: None,
                open_message: None,
                entries: s.entries.push(EntryView::Error { label: Seq::empty(), message: message@ }),
                pending: false,
                ..s
            },
            RoomAction::Nothing,
        ),
        ServerEvent::AgentStopped => (
            PanelView {
                open_reasoning: None,
                open_message: None,
                entries: s.entries.push(EntryView::Stopped(stopped_message())),
                pending: false,
                ..s
            },
            RoomAction::Nothing,
        ),
        ServerEvent::AgentReasoningDelta { agent_label, delta } => (
            with_reasoning(PanelView { pending: true, ..s }, agent_label@, delta@),
            RoomAction::Nothing,
        ),
        ServerEvent::AgentContentDelta { agent_label, delta } => (
            with_message(PanelView { pending: true, ..s }, agent_label@, delta@),
            RoomAction::Nothing,
        ),
        ServerEvent::AgentStepFinished => {
            let entries = match s.open_reasoning {
                Some(i) => if i < s.entries.len() {
                    match s.entries[i as int] {
                        EntryView::Reasoning { label, content, done } => s.entries.update(
                            i as int,
                            EntryView::Reasoning { label, content, done: true },
                        ),
                        _ => s.entries,
                    }
                } else {
                    s.entries
                },
                None => s.entries,
            };
            (PanelView { entries, open_reasoning: None, open_message: None, ..s }, RoomAction::Nothing)
        },
        ServerEvent::AgentToolCallStarted { agent_label, id, name, arguments } => (
            PanelView {
                pending: true,
                entries: s.entries.push(
                    EntryView::ToolCall {
                        id: id@,
                        label: agent_label@,
                        name: name@,
                        arguments: arguments@,
                        status: StatusView::Running,
                    },
                ),
                ..s
            },
            RoomAction::Nothing,
        ),
        ServerEvent::AgentToolCallFinished { id, ok, output } => {
            let status = if ok { StatusView::Done(output@) } else { StatusView::Failed(output@) };
            let entries = match last_tool_call(s.entries, id@) {
                Some(k) => match s.entries[k] {
                    EntryView::ToolCall { id: i, label, name, arguments, .. } => s.entries.update(
                        k,
                        EntryView::ToolCall { id: i, label, name, arguments, status },
                    ),
                    _ => s.entries,
                },
                None => s.entries,
            };
            (PanelView { entries, ..s }, RoomAction::Nothing)
        },
        ServerEvent::InteractionAsk { agent_label, question } => (
            PanelView {
                pending: false,
                pending_kind: Some(InteractionKind::Ask),
                interaction: Some(
                    InteractionView { label: agent_label@, prompt: question@, questions: seq![ask_question()] },
                ),
                ..s
            },
            RoomAction::Nothing,
        ),
        ServerEvent::InteractionConfirm { agent_label, message } => (
            PanelView {
                pending: false,
                pending_kind: Some(InteractionKind::Confirm),
                interaction: Some(
                    InteractionView { label: agent_label@, prompt: message@, questions: seq![confirm_question()] },
                ),
                ..s
            },
            RoomAction::Nothing,
        ),
        ServerEvent::InteractionQuestions { agent_label, prompt, questions } => (
            PanelView {
                pending: false,
                pending_kind: Some(InteractionKind::Questions),
                interaction: Some(
                    InteractionView {
                        label: agent_label@,
                        prompt: prompt@,
                        questions: questions@.map_values(|q: InteractionQuestionWire| question_view(q)),
                    },
                ),
                ..s
            },
            RoomAction::Nothing,
        ),
        ServerEvent::InteractionRequestDocument { agent_label, prompt, accepted_mime_types } => (
            PanelView {
                pending: false,
                document_request: Some(
                    DocumentView { label: agent_label@, prompt: prompt@, types: texts(accepted_mime_types@) },
                ),
                ..s
            },
            RoomAction::Nothing,
        ),
        ServerEvent::Presence { users } => (PanelView { connected_users: users@, ..s }, RoomAction::Nothing),
        ServerEvent::ReviewUpdate { update } => (s, RoomAction::ApplyReviewUpdate(update)),
        ServerEvent::AgentSessions { sessions } => (
            PanelView {
                sessions: sessions@.map_values(
                    |w: AgentSessionWire|
                        SessionView {
                            id: w.id@,
                            label: session_label_of(w),
                            preview: match w.preview {
                                Some(p) => Some(p@),
                                None => None,
                            },
                        },
                ),
                ..s
            },
            RoomAction::Nothing,
        ),
        ServerEvent::AgentSessionHistory { session_id, entries } => (
            PanelView {
                session_history: Some(HistoryView { session_id: session_id@, entries: history_entries(entries@) }),
                ..s
            },
            RoomAction::Nothing,
        ),
        ServerEvent::AgentActiveSession { entries } => (
            if s.entries.len() == 0 {
                PanelView { entries: history_entries(entries@), ..s }
            } else {
                s
            },
            RoomAction::Nothing,
        ),
        ServerEvent::AgentRunInProgress => (PanelView { pending: true, ..s }, RoomAction::Nothing),
        ServerEvent::SupervisorContext { entries } => (
            PanelView { supervisor_context: Some(entries@), ..s },
            RoomAction::Nothing,
        ),
        ServerEvent::MetadataChanged => (
            PanelView {
                metadata_version: if s.metadata_version == u32::MAX { 0 } else { (s.metadata_version + 1) as u32 },
                ..s
            },
            RoomAction::KeepMetadataChange,
        ),
        ServerEvent::DocumentsChanged => (
            PanelView {
                files_version: if s.files_version == u32::MAX { 0 } else { (s.files_version + 1) as u32 },
                ..s
            },
            RoomAction::KeepDocumentsChange,
        ),
    }
}

// ----- The step -----

impl AgentPanelState {
    /// An empty panel: no conversation, no task running, nothing asked.
    pub fn new() -> (s: Self)
        ensures
            s@.entries.len() == 0,
            !s@.pending,
            s@.open_reasoning is None,
            s@.open_message is None,
            s@.pending_kind is None,
            s@.interaction is None,
            s@.document_request is None,
            s@.connected_users.len() == 0,
            s@.sessions.len() == 0,
            s@.session_history is None,
            s@.supervisor_context is None,
            s@.metadata_version == 0,
            s@.files_version == 0,
    {
        let s = AgentPanelState {
            entries: Vec::new(),
            pending: false,
            open_reasoning: None,
            open_message: None,
            pending_kind: None,
            interaction: None,
            document_request: None,
            connected_users: Vec::new(),
            sessions: Vec::new(),
            session_history: None,
            supervisor_context: None,
            metadata_version: 0,
            files_version: 0,
        };
        assert(s@.sessions.len() == 0);
        s
    }
}

/// The entries a transcript becomes: see [`history_entries`].
fn history_from(entries: &Vec<SessionEntry>) -> (r: Vec<PanelEntry>)
    requires
        entries@.len() < u64::MAX,
    ensures
        entries_view(r@) == history_entries(entries@),
{
    let ghost src = entries@;
    let mut r: Vec<PanelEntry> = Vec::new();
    let mut index: usize = 0;
    assert(entries_view(r@) =~= history_entries(src.take(0)));
    while index < entries.len()
        invariant
            index <= src.len(),
            src == entries@,
            src.len() < u64::MAX,
            entries_view(r@) == history_entries(src.take(index as int)),
        decreases src.len() - index,
    {
        let ghost before = r@;
        let entry = match &entries[index] {
            SessionEntry::User(c) => PanelEntry::User(c.clone()),
            SessionEntry::Assistant(c) => PanelEntry::Assistant { agent_label: String::new(), content: c.clone() },
            SessionEntry::ToolCall { name, arguments, output } => {
                let mut id = String::from_str("session-entry-");
                push_decimal(&mut id, index as u64);
                PanelEntry::ToolCall {
                    id,
                    agent_label: String::new(),
                    name: name.clone(),
                    arguments: arguments.clone(),
                    status: ToolCallStatus::Done(output.clone()),
                }
            },
        };
        proof {
            reveal_strlit("session-entry-");
            assert(entry@ == history_entry(index as nat, src[index as int]));
        }
        r.push(entry);
        proof {
            assert(entries_view(r@) =~= entries_view(before).push(history_entry(index as nat, src[index as int])));
            assert(history_entries(src.take(index as int + 1)) =~= history_entries(src.take(index as int)).push(
                history_entry(index as nat, src[index as int]),
            ));
        }
        index = index + 1;
    }
    assert(src.take(index as int) =~= src);
    r
}

/// `delta` added to the reasoning of the current turn: see
/// [`with_reasoning`].
fn add_reasoning(state: &mut AgentPanelState, agent_label: String, delta: String)
    ensures
        final(state)@ == with_reasoning(old(state)@, agent_label@, delta@),
{
    match state.open_reasoning {
        Some(i) => {
            if i < state.entries.len() {
                let updated = match &state.entries[i] {
                    PanelEntry::Reasoning { agent_label: l, content, done } => {
                        let mut c = content.clone();
                        c.append(delta.as_str());
                        Some(PanelEntry::Reasoning { agent_label: l.clone(), content: c, done: *done })
                    },
                    _ => None,
                };
                if let Some(entry) = updated {
                    let ghost before = state.entries@;
                    state.entries.set(i, entry);
                    assert(entries_view(state.entries@) =~= entries_view(before).update(i as int, entry@));
                }
            }
        },
        None => {
            let ghost before = state.entries@;
            let n = state.entries.len();
            state.entries.push(PanelEntry::Reasoning { agent_label, content: delta, done: false });
            state.open_reasoning = Some(n);
            assert(entries_view(state.entries@) =~= entries_view(before).push(
                EntryView::Reasoning { label: agent_label@, content: delta@, done: false },
            ));
        },
    }
}

/// `delta` added to the message of the current turn: see [`with_message`].
fn add_message(state: &mut AgentPanelState, agent_label: String, delta: String)
    ensures
        final(state)@ == with_message(old(state)@, agent_label@, delta@),
{
    match state.open_message {
        Some(i) => {
            if i < state.entries.len() {
                let updated = match &state.entries[i] {
                    PanelEntry::Assistant { agent_label: l, content } => {
                        let mut c = content.clone();
                        c.append(delta.as_str());
                        Some(PanelEntry::Assistant { agent_label: l.clone(), content: c })
                    },
                    _ => None,
                };
                if let Some(entry) = updated {
                    let ghost before = state.entries@;
                    state.entries.set(i, entry);
                    assert(entries_view(state.entries@) =~= entries_view(before).update(i as int, entry@));
                }
            }
        },
        None => {
            let ghost before = state.entries@;
            let n = state.entries.len();
            state.entries.push(PanelEntry::Assistant { agent_label, content: delta });
            state.open_message = Some(n);
            assert(entries_view(state.entries@) =~= entries_view(before).push(
                EntryView::Assistant { label: agent_label@, content: delta@ },
            ));
        },
    }
}

/// Freezes the reasoning of the current turn, if it is open.
fn finish_step(state: &mut AgentPanelState)
    ensures
        final(state)@ == panel_step(old(state)@, ServerEvent::AgentStepFinished).0,
{
    if let Some(i) = state.open_reasoning {
        if i < state.entries.len() {
            let updated = match &state.entries[i] {
                PanelEntry::Reasoning { agent_label, content, .. } => Some(
                    PanelEntry::Reasoning { agent_label: agent_label.clone(), content: content.clone(), done: true },
                ),
                _ => None,
            };
            if let Some(entry) = updated {
                let ghost before = state.entries@;
                state.entries.set(i, entry);
                assert(entries_view(state.entries@) =~= entries_view(before).update(i as int, entry@));
            }
        }
    }
    state.open_reasoning = None;
    state.open_message = None;
}

/// Sets the status of the last tool call named `id`.
fn set_tool_call_status(entries: &mut Vec<PanelEntry>, id: &str, status: ToolCallStatus)
    ensures
        entries_view(final(entries)@) == (match last_tool_call(entries_view(old(entries)@), id@) {
            Some(k) => match entries_view(old(entries)@)[k] {
                EntryView::ToolCall { id: i, label, name, arguments, .. } => entries_view(old(entries)@).update(
                    k,
                    EntryView::ToolCall { id: i, label, name, arguments, status: status@ },
                ),
                _ => entries_view(old(entries)@),
            },
            None => entries_view(old(entries)@),
        }),
{
    let ghost v = entries_view(entries@);
    let mut k = entries.len();
    assert(v.take(k as int) =~= v);
    while k > 0
        invariant
            k <= entries@.len(),
            v == entries_view(entries@),
            entries@ == old(entries)@,
            last_tool_call(v, id@) == last_tool_call(v.take(k as int), id@),
        decreases k,
    {
        let found = match &entries[k - 1] {
            PanelEntry::ToolCall { id: i, .. } => same_id(i.as_str(), id),
            _ => false,
        };
        proof {
            assert(v.take(k as int).last() == v[k as int - 1]);
            assert(v.take(k as int).drop_last() =~= v.take(k as int - 1));
        }
        if found {
            let updated = match &entries[k - 1] {
                PanelEntry::ToolCall { id: i, agent_label, name, arguments, .. } => PanelEntry::ToolCall {
                    id: i.clone(),
                    agent_label: agent_label.clone(),
                    name: name.clone(),
                    arguments: arguments.clone(),
                    status,
                },
                _ => PanelEntry::Stopped(String::new()),
            };
            entries.set(k - 1, updated);
            assert(entries_view(entries@) =~= v.update(k as int - 1, updated@));
            return;
        }
        k = k - 1;
    }
}

/// Whether two identifiers are the same text.
fn same_id(a: &str, b: &str) -> (r: bool)
    ensures
        r == (a@ == b@),
{
    crate::record::same_text(a, b)
}

/// The summaries of past sessions: each with its label.
fn summaries(sessions: Vec<AgentSessionWire>) -> (r: Vec<SessionSummary>)
    ensures
        r@.map_values(
            |s: SessionSummary|
                SessionView {
                    id: s.id@,
                    label: s.label@,
                    preview: match s.preview {
                        Some(p) => Some(p@),
                        None => None,
                    },
                },
        ) == sessions@.map_values(
            |w: AgentSessionWire|
                SessionView {
                    id: w.id@,
                    label: session_label_of(w),
                    preview: match w.preview {
                        Some(p) => Some(p@),
                        None => None,
                    },
                },
        ),
{
    let mut r: Vec<SessionSummary> = Vec::new();
    let mut i: usize = 0;
    while i < sessions.len()
        invariant
            i <= sessions@.len(),
            r@.len() == i,
            forall|j: int|
                0 <= j < i ==> (#[trigger] r@[j]).id@ == sessions@[j].id@ && r@[j].label@ == session_label_of(
                    sessions@[j],
                ) && r@[j].preview == sessions@[j].preview,
        decreases sessions.len() - i,
    {
        let w = &sessions[i];
        let label = session_label(w);
        let preview = match &w.preview {
            Some(p) => Some(p.clone()),
            None => None,
        };
        r.push(SessionSummary { id: w.id.clone(), label, preview });
        i = i + 1;
    }
    proof {
        let lhs = r@.map_values(
            |s: SessionSummary|
                SessionView {
                    id: s.id@,
                    label: s.label@,
                    preview: match s.preview {
                        Some(p) => Some(p@),
                        None => None,
                    },
                },
        );
        let rhs = sessions@.map_values(
            |w: AgentSessionWire|
                SessionView {
                    id: w.id@,
                    label: session_label_of(w),
                    preview: match w.preview {
                        Some(p) => Some(p@),
                        None => None,
                    },
                },
        );
        assert(lhs =~= rhs);
    }
    r
}

/// How the panel changes on a message of the server, and what else the
/// client must do: see [`panel_step`].
pub fn apply_server_event(state: &mut AgentPanelState, event: ServerEvent) -> (action: RoomAction)
    requires
        event matches ServerEvent::AgentSessionHistory { entries, .. } ==> entries@.len() < u64::MAX,
        event matches ServerEvent::AgentActiveSession { entries } ==> entries@.len() < u64::MAX,
    ensures
        final(state)@ == panel_step(old(state)@, event).0,
        action == panel_step(old(state)@, event).1,
{
    let ghost e = event;
    match event {
        ServerEvent::AgentDone => {
            state.pending = false;
            RoomAction::Nothing
        },
        ServerEvent::AgentError { message } => {
            let ghost before = state.entries@;
            state.open_reasoning = None;
            state.open_message = None;
            state.entries.push(PanelEntry::Error { agent_label: String::new(), message });
            state.pending = false;
            assert(entries_view(state.entries@) =~= entries_view(before).push(
                EntryView::Error { label: Seq::empty(), message: message@ },
            ));
            RoomAction::Nothing
        },
        ServerEvent::AgentStopped => {
            let ghost before = state.entries@;
            state.open_reasoning = None;
            state.open_message = None;
            state.entries.push(PanelEntry::Stopped(String::from_str("Tâche interrompue par l'utilisateur.")));
            state.pending = false;
            assert(entries_view(state.entries@) =~= entries_view(before).push(EntryView::Stopped(stopped_message())));
            RoomAction::Nothing
        },
        ServerEvent::AgentReasoningDelta { agent_label, delta } => {
            state.pending = true;
            add_reasoning(state, agent_label, delta);
            RoomAction::Nothing
        },
        ServerEvent::AgentContentDelta { agent_label, delta } => {
            state.pending = true;
            add_message(state, agent_label, delta);
            RoomAction::Nothing
        },
        ServerEvent::AgentStepFinished => {
            finish_step(state);
            RoomAction::Nothing
        },
        ServerEvent::AgentToolCallStarted { agent_label, id, name, arguments } => {
            let ghost before = state.entries@;
            state.pending = true;
            let entry = PanelEntry::ToolCall { id, agent_label, name, arguments, status: ToolCallStatus::Running };
            state.entries.push(entry);
            assert(entries_view(state.entries@) =~= entries_view(before).push(entry@));
            RoomAction::Nothing
        },
        ServerEvent::AgentToolCallFinished { id, ok, output } => {
            let status = if ok { ToolCallStatus::Done(output) } else { ToolCallStatus::Failed(output) };
            set_tool_call_status(&mut state.entries, id.as_str(), status);
            RoomAction::Nothing
        },
        ServerEvent::InteractionAsk { agent_label, question } => {
            state.pending = false;
            state.pending_kind = Some(InteractionKind::Ask);
            let q = InteractionQuestionWire {
                id: String::from_str("reponse"),
                label: String::from_str("Votre réponse"),
                options: None,
            };
            let questions = vec![q];
            assert(questions@.map_values(|q: InteractionQuestionWire| question_view(q)) =~= seq![ask_question()]);
            state.interaction = Some(InteractionRequest { agent_label, prompt: question, questions });
            RoomAction::Nothing
        },
        ServerEvent::InteractionConfirm { agent_label, message } => {
            state.pending = false;
            state.pending_kind = Some(InteractionKind::Confirm);
            let options = vec![String::from_str("Oui"), String::from_str("Non")];
            assert(texts(options@) =~= seq!["Oui"@, "Non"@]);
            let q = InteractionQuestionWire {
                id: String::from_str("confirmation"),
                label: String::from_str("Confirmez-vous ?"),
                options: Some(options),
            };
            let questions = vec![q];
            assert(questions@.map_values(|q: InteractionQuestionWire| question_view(q)) =~= seq![confirm_question()]);
            state.interaction = Some(InteractionRequest { agent_label, prompt: message, questions });
            RoomAction::Nothing
        },
        ServerEvent::InteractionQuestions { agent_label, prompt, questions } => {
            state.pending = false;
            state.pending_kind = Some(InteractionKind::Questions);
            state.interaction = Some(InteractionRequest { agent_label, prompt, questions });
            RoomAction::Nothing
        },
        ServerEvent::InteractionRequestDocument { agent_label, prompt, accepted_mime_types } => {
            state.pending = false;
            state.document_request = Some(DocumentRequest { agent_label, prompt, accepted_mime_types });
            RoomAction::Nothing
        },
        ServerEvent::Presence { users } => {
            state.connected_users = users;
            RoomAction::Nothing
        },
        ServerEvent::ReviewUpdate { update } => RoomAction::ApplyReviewUpdate(update),
        ServerEvent::AgentSessions { sessions } => {
            state.sessions = summaries(sessions);
            RoomAction::Nothing
        },
        ServerEvent::AgentSessionHistory { session_id, entries } => {
            let entries = history_from(&entries);
            state.session_history = Some(SessionHistory { session_id, entries });
            RoomAction::Nothing
        },
        ServerEvent::AgentActiveSession { entries } => {
            if state.entries.len() == 0 {
                let restored = history_from(&entries);
                state.entries = restored;
            }
            RoomAction::Nothing
        },
        ServerEvent::AgentRunInProgress => {
            state.pending = true;
            RoomAction::Nothing
        },
        ServerEvent::SupervisorContext { entries } => {
            state.supervisor_context = Some(entries);
            RoomAction::Nothing
        },
        ServerEvent::MetadataChanged => {
            state.metadata_version = state.metadata_version.wrapping_add(1);
            RoomAction::KeepMetadataChange
        },
        ServerEvent::DocumentsChanged => {
            state.files_version = state.files_version.wrapping_add(1);
            RoomAction::KeepDocumentsChange
        },
    }
}

/// A stop, a failure or the end of a turn closes the turn: no reasoning and
/// no message stays open, so the next delta of either kind opens a new
/// entry at the end and leaves the earlier entries as they were. A stop
/// also adds its notice and ends the task.
pub proof fn lemma_closed_turn_opens_new_entries(s: PanelView, e: ServerEvent, label: String, delta: String)
    requires
        e is AgentStopped || e is AgentError || e is AgentStepFinished,
    ensures
        ({
            let s1 = panel_step(s, e).0;
            let m = panel_step(s1, ServerEvent::AgentContentDelta { agent_label: label, delta }).0;
            let r = panel_step(s1, ServerEvent::AgentReasoningDelta { agent_label: label, delta }).0;
            &&& s1.open_reasoning is None
            &&& s1.open_message is None
            &&& e is AgentStopped ==> s1.entries == s.entries.push(
                EntryView::Stopped("Tâche interrompue par l'utilisateur."@),
            ) && !s1.pending
            &&& m.entries == s1.entries.push(EntryView::Assistant { label: label@, content: delta@ })
            &&& m.open_message == Some(s1.entries.len() as usize)
            &&& m.pending
            &&& r.entries == s1.entries.push(EntryView::Reasoning { label: label@, content: delta@, done: false })
            &&& r.open_reasoning == Some(s1.entries.len() as usize)
        }),
{
}

/// A delta continues the entry of its turn while it is open: the open
/// message (or reasoning) gets the delta at the end of its text, keeps its
/// label, and no other entry changes; the turn stays open on it.
pub proof fn lemma_delta_continues_open_entry(s: PanelView, label: String, delta: String, i: usize)
    requires
        i < s.entries.len(),
    ensures
        s.open_message == Some(i) ==> (s.entries[i as int] matches EntryView::Assistant { label: l, content: c }
            ==> ({
            let m = panel_step(s, ServerEvent::AgentContentDelta { agent_label: label, delta }).0;
            &&& m.entries == s.entries.update(i as int, EntryView::Assistant { label: l, content: c + delta@ })
            &&& m.open_message == Some(i)
        })),
        s.open_reasoning == Some(i) ==> (s.entries[i as int] matches EntryView::Reasoning {
            label: l,
            content: c,
            done: d,
        } ==> ({
            let r = panel_step(s, ServerEvent::AgentReasoningDelta { agent_label: label, delta }).0;
            &&& r.entries == s.entries.update(i as int, EntryView::Reasoning { label: l, content: c + delta@, done: d })
            &&& r.open_reasoning == Some(i)
        })),
{
}

/// `e` is a tool call named `id`.
pub open spec fn is_call_of(e: EntryView, id: Seq<char>) -> bool {
    e matches EntryView::ToolCall { id: i, .. } && i == id
}

proof fn lemma_last_tool_call(entries: Seq<EntryView>, id: Seq<char>)
    ensures
        last_tool_call(entries, id) matches Some(k) ==> 0 <= k < entries.len() && is_call_of(entries[k], id) && forall|
            j: int,
        | k < j < entries.len() ==> !is_call_of(#[trigger] entries[j], id),
        last_tool_call(entries, id) is None ==> forall|j: int| 0 <= j < entries.len() ==> !is_call_of(#[trigger] entries[j], id),
    decreases entries.len(),
{
    if entries.len() > 0 {
        let init = entries.drop_last();
        lemma_last_tool_call(init, id);
        if !is_call_of(entries.last(), id) {
            assert(last_tool_call(entries, id) == last_tool_call(init, id));
            assert forall|j: int| 0 <= j < entries.len() && !(0 <= j < init.len()) implies !is_call_of(
                #[trigger] entries[j],
                id,
            ) by {
                assert(j == entries.len() - 1);
            }
            assert forall|j: int| 0 <= j < init.len() implies entries[j] == #[trigger] init[j] by {}
            match last_tool_call(init, id) {
                Some(k) => {
                    assert(is_call_of(entries[k], id));
                    assert forall|j: int| k < j < entries.len() implies !is_call_of(#[trigger] entries[j], id) by {
                        if j < init.len() {
                            assert(entries[j] == init[j]);
                        }
                    }
                },
                None => {
                    assert forall|j: int| 0 <= j < entries.len() implies !is_call_of(#[trigger] entries[j], id) by {
                        if j < init.len() {
                            assert(entries[j] == init[j]);
                        }
                    }
                },
            }
        } else {
            assert(last_tool_call(entries, id) == Some(entries.len() - 1));
        }
    }
}

/// When a tool call ends, the last entry of a call with its identifier (and
/// only that entry) takes the status: done with the output on success,
/// failed with the output as message otherwise; with no such entry,
/// nothing changes.
pub proof fn lemma_tool_call_finished(s: PanelView, id: String, ok: bool, output: String)
    ensures
        ({
            let n = panel_step(s, ServerEvent::AgentToolCallFinished { id, ok, output }).0;
            let status = if ok { StatusView::Done(output@) } else { StatusView::Failed(output@) };
            &&& n.entries.len() == s.entries.len()
            &&& (forall|j: int| 0 <= j < s.entries.len() ==> !is_call_of(#[trigger] s.entries[j], id@)) ==> n.entries
                == s.entries
            &&& forall|k: int|
                0 <= k < s.entries.len() && is_call_of(#[trigger] s.entries[k], id@) && (forall|j: int|
                    k < j < s.entries.len() ==> !is_call_of(#[trigger] s.entries[j], id@)) ==> ({
                    &&& n.entries[k] matches EntryView::ToolCall { id: i, status: st, .. } && i == id@ && st == status
                    &&& forall|j: int| 0 <= j < s.entries.len() && j != k ==> n.entries[j] == s.entries[j]
                })
        }),
{
    lemma_last_tool_call(s.entries, id@);
    let n = panel_step(s, ServerEvent::AgentToolCallFinished { id, ok, output }).0;
    match last_tool_call(s.entries, id@) {
        Some(k0) => {
            assert forall|k: int|
                0 <= k < s.entries.len() && is_call_of(#[trigger] s.entries[k], id@) && (forall|j: int|
                    k < j < s.entries.len() ==> !is_call_of(#[trigger] s.entries[j], id@)) implies k == k0 by {
                if k < k0 {
                    assert(!is_call_of(s.entries[k0], id@));
                } else if k0 < k {
                    assert(!is_call_of(s.entries[k], id@));
                }
            }
        },
        None => {
            assert(n.entries == s.entries);
        },
    }
}

} // verus!
