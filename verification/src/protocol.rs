//! Messages exchanged with the collaboration server, as plain data: the
//! client turns them into and out of JSON. Also the label under which a
//! past session is listed.
use vstd::prelude::*;
use vstd::string::*;
use vstd::utf8::*;

use crate::record::same_text;

verus! {

/// Summary of a past conversation session.
#[derive(Debug, Clone)]
pub struct AgentSessionWire {
    pub id: String,
    /// `"active"` or `"archived"`.
    pub status: String,
    /// RFC 3339 timestamp; the client formats it.
    pub created_at: String,
    pub archived_at: Option<String>,
    pub preview: Option<String>,
}

/// Raw message of the supervisor's context: unlike a session transcript,
/// the system message is kept and a tool call is never merged with its
/// result.
#[derive(Debug, Clone)]
pub enum SupervisorContextEntryWire {
    System { content: String },
    User { content: String },
    Assistant { content: Option<String>, tool_calls: Vec<SupervisorContextToolCallWire> },
    ToolResult { tool_call_id: String, content: String },
}

/// Tool call carried by an assistant message of the raw context.
#[derive(Debug, Clone)]
pub struct SupervisorContextToolCallWire {
    pub id: String,
    pub name: String,
    pub arguments: String,
}

/// Identity of a user connected to the room: initial and colour computed by
/// the server, so that every peer shows the same badge for one user.
#[derive(Debug, Clone)]
pub struct PresenceUser {
    pub user_id: String,
    pub initial: String,
    pub color: String,
}

/// One question of a structured form put by the agent.
#[derive(Debug)]
pub struct InteractionQuestionWire {
    pub id: String,
    pub label: String,
    pub options: Option<Vec<String>>,
}

/// The answer to one question of such a form.
#[derive(Debug)]
pub struct InteractionAnswerWire {
    pub question_id: String,
    pub value: String,
    pub unsatisfactory_reason: Option<String>,
}

/// A document that the user uploads at the agent's request.
#[derive(Debug)]
pub struct DocumentUploadWire {
    pub file_name: String,
    pub mime_type: String,
    pub content_base64: String,
}

/// `s` with every `T` written as a space.
pub open spec fn spaced(s: Seq<char>) -> Seq<char> {
    s.map_values(|c: char| if c == 'T' { ' ' } else { c })
}

/// How a timestamp is shown: its first sixteen bytes (`YYYY-MM-DDTHH:MM`
/// in RFC 3339) with the `T` written as a space; the whole text unchanged
/// when it is shorter or when the sixteenth byte falls inside a character.
pub open spec fn shown_timestamp(s: Seq<char>) -> Seq<char> {
    if is_char_boundary(encode_utf8(s), 16) {
        spaced(decode_utf8(encode_utf8(s).subrange(0, 16)))
    } else {
        s
    }
}

/// The label of a past session: when it started, then whether it is still
/// going on or when it was archived.
pub open spec fn session_label_of(w: AgentSessionWire) -> Seq<char> {
    shown_timestamp(w.created_at@) + if w.status@ == "active"@ {
        " — en cours"@
    } else {
        match w.archived_at {
            Some(a) => " — archivée le "@ + shown_timestamp(a@),
            None => Seq::empty(),
        }
    }
}

/// A copy of `s` with every `T` written as a space.
fn spaced_copy(s: &str) -> (r: String)
    ensures
        r@ == spaced(s@),
{
    let n = s.unicode_len();
    let mut r = String::new();
    let mut i: usize = 0;
    while i < n
        invariant
            n == s@.len(),
            i <= n,
            r@ == spaced(s@.take(i as int)),
        decreases n - i,
    {
        let c = s.get_char(i);
        let ghost before = r@;
        if c == 'T' {
            proof {
                reveal_strlit(" ");
            }
            r.append(" ");
            assert(r@ =~= before.push(' '));
        } else {
            let one = s.substring_char(i, i + 1);
            assert(one@ =~= seq![c]);
            r.append(one);
            assert(r@ =~= before.push(c));
        }
        proof {
            assert(spaced(s@.take(i as int + 1)) =~= spaced(s@.take(i as int)).push(
                if c == 'T' { ' ' } else { c },
            ));
        }
        i = i + 1;
    }
    proof {
        assert(s@.take(n as int) =~= s@);
    }
    r
}

/// How a timestamp is shown: see [`shown_timestamp`].
pub fn format_session_timestamp(rfc3339: &str) -> (r: String)
    ensures
        r@ == shown_timestamp(rfc3339@),
{
    proof {
        encode_utf8_valid_utf8(rfc3339@);
    }
    if rfc3339.is_char_boundary(16) {
        let (head, _) = rfc3339.split_at(16);
        proof {
            encode_utf8_decode_utf8(head@);
        }
        spaced_copy(head)
    } else {
        String::from_str(rfc3339)
    }
}

/// The label of a past session: see [`session_label_of`].
pub fn session_label(wire: &AgentSessionWire) -> (r: String)
    ensures
        r@ == session_label_of(*wire),
{
    let mut label = format_session_timestamp(wire.created_at.as_str());
    if same_text(wire.status.as_str(), "active") {
        label.append(" — en cours");
    } else {
        match &wire.archived_at {
            Some(archived_at) => {
                label.append(" — archivée le ");
                let shown = format_session_timestamp(archived_at.as_str());
                label.append(shown.as_str());
            },
            None => {},
        }
    }
    label
}

} // verus!
