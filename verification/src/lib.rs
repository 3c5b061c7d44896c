//! Rich-text content model: a tree of typed nodes (`Root`, `Paragraph`,
//! `Span`, `Plain` text leaves, lists and tables), the grammar that says
//! which node may hold which, an in-memory backend built on an arena, the
//! editing operations (text insertion, merge, split, leaf navigation) that
//! the editor performs on it, the record format of a node in a shared
//! document, and the editor's reactions to keys and to the pointer. The
//! public modules hold the small decisions of the web client's pages.
mod arena;
pub mod bootstrap;
mod command;
mod cursor;
mod direct;
mod edit;
mod editor;
mod forms;
mod error;
mod forest;
pub mod groups;
mod id;
mod kind;
mod layout;
mod leaves;
pub mod login;
pub mod markdown;
mod merge;
mod nav;
mod panel;
mod profiles;
mod navigate;
pub mod oidc;
mod protocol;
mod record;
mod rejoin;
mod rename;
mod selection;
mod walk;
mod write;
pub mod ws;

pub use command::{resolve_resource, AmbiguousScope, ResourceScope, StorageCommand};
pub use cursor::{byte_index_of, lemma_right_then_left, Cursor};
pub use direct::DirectContent;
pub use edit::{
    append_content_edits, apply_edit, apply_edits, ensure_compatible_node_for_edits, ensure_only_plain_leafs_edits,
    merge_into_edits, split_node_edits, Edit,
};
pub use editor::{
    backspace, cursor_at, delete, enter, key_command, lemma_enter_cuts_block, move_right_by, write_str, EditorEffect,
    KeyCommand,
};
pub use error::ContentError;
pub use id::{lemma_canonical_is_decimal, lemma_decimal_canonical, parse_usize, ContentId};
pub use kind::{
    lemma_children_match_sets, lemma_plain_reaches, lemma_shortest_path_unique, Cell, ContentKind, List, ListItem, ListMarker, NodeSpec, Paragraph,
    Row, Span, Table,
};
pub use layout::{layout_plain, lemma_layout_offsets, lemma_layout_shows_text, PlainPiece};
pub use leaves::{lemma_walk_meets_each_leaf, ContentLeafs};
pub use merge::merge_leaves;
pub use navigate::lemma_leaf_order_flip;
pub use panel::{
    apply_server_event, lemma_closed_turn_opens_new_entries, lemma_delta_continues_open_entry, lemma_tool_call_finished,
    panel_step,
    AgentPanelState, DocumentRequest, InteractionKind, InteractionRequest,
    PanelEntry, RoomAction, ServerEvent, SessionEntry, SessionHistory, SessionSummary, ToolCallStatus,
};
pub use forms::{
    ai_model_form_error, ai_model_submit, authority_submit, chosen, domain_submit, generic_grant, group_submit,
    intention_submit, is_blank, legal_act_grant, lemma_blank_is_trimmed_empty, legifrance_save, oidc_form_error, oidc_submit, AiModelFields,
    AuthorityFields, DomainFields, FormSubmit, GenericGrant, GroupFields, IntentionFields, OidcProviderFields,
};
pub use profiles::{
    add_tool, agent_profile_submit, max_steps_of, offered_tools, profile_form_error, proposed_tool, remove_tool,
    tool_label, AgentProfileFields, ToolOption,
};
pub use protocol::{
    format_session_timestamp, session_label, AgentSessionWire, DocumentUploadWire, InteractionAnswerWire, InteractionQuestionWire, PresenceUser,
    SupervisorContextEntryWire, SupervisorContextToolCallWire,
};
pub use record::{
    check_same_kind, child_ids, child_position, lemma_decimal_id, lemma_kind_named, lemma_marker_named,
    lemma_new_node_record, lemma_rewritten_record, node_fields,
    record_kind_of, removed_byte_range, same_text, spec_fields, spec_from_fields, subtree_ids, FieldValue,
};
pub use rejoin::{lemma_split_shape, lemma_split_then_merge};
pub use selection::{lemma_corrected_twice, lemma_covered_by_places, EditorSelection, EditorSelectionState, Selection};
pub use walk::{lemma_leaf_navigation, lemma_leaf_steps_invert, lemma_next_leaf_unique, lemma_prev_leaf_unique};
