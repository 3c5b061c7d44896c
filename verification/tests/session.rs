use content::{format_session_timestamp, session_label, AgentSessionWire};

fn wire(status: &str, created_at: &str, archived_at: Option<&str>) -> AgentSessionWire {
    AgentSessionWire {
        id: "s1".to_string(),
        status: status.to_string(),
        created_at: created_at.to_string(),
        archived_at: archived_at.map(|a| a.to_string()),
        preview: None,
    }
}

#[test]
fn timestamps_keep_date_hours_and_minutes() {
    assert_eq!(format_session_timestamp("2024-05-06T07:08:09.123Z"), "2024-05-06 07:08");
    assert_eq!(format_session_timestamp("2024-05-06T07:08"), "2024-05-06 07:08");
}

#[test]
fn short_or_unsplittable_timestamps_stay_whole() {
    assert_eq!(format_session_timestamp("2024-05-06T07"), "2024-05-06T07");
    assert_eq!(format_session_timestamp(""), "");
    // The sixteenth byte falls inside `é`.
    assert_eq!(format_session_timestamp("2024-05-06T07:0é"), "2024-05-06T07:0é");
}

#[test]
fn active_session_label() {
    let w = wire("active", "2024-05-06T07:08:09Z", None);
    assert_eq!(session_label(&w), "2024-05-06 07:08 — en cours");
}

#[test]
fn archived_session_label() {
    let w = wire("archived", "2024-05-06T07:08:09Z", Some("2024-06-01T10:11:12Z"));
    assert_eq!(session_label(&w), "2024-05-06 07:08 — archivée le 2024-06-01 10:11");
    let w = wire("archived", "2024-05-06T07:08:09Z", None);
    assert_eq!(session_label(&w), "2024-05-06 07:08");
}
