use content::{add_tool, offered_tools, profile_form_error, proposed_tool, remove_tool, tool_label, ToolOption};

fn catalog() -> Vec<ToolOption> {
    vec![
        ToolOption { name: "lire".to_string(), label: "Lire un document".to_string() },
        ToolOption { name: "chercher".to_string(), label: "Chercher".to_string() },
        ToolOption { name: "écrire".to_string(), label: "Écrire".to_string() },
    ]
}

#[test]
fn offered_tools_leave_out_the_chosen_ones() {
    let chosen = vec!["chercher".to_string()];
    let offered = offered_tools(&catalog(), &chosen);
    let names: Vec<&str> = offered.iter().map(|t| t.name.as_str()).collect();
    assert_eq!(names, vec!["lire", "écrire"]);
    assert_eq!(offered[1].label, "Écrire");
}

#[test]
fn proposed_tool_stays_while_offered() {
    let offered = offered_tools(&catalog(), &vec!["lire".to_string()]);
    assert_eq!(proposed_tool(&offered, "écrire".to_string()), "écrire");
    assert_eq!(proposed_tool(&offered, "lire".to_string()), "chercher");
    assert_eq!(proposed_tool(&offered, String::new()), "chercher");
    assert_eq!(proposed_tool(&Vec::new(), "lire".to_string()), "lire");
}

#[test]
fn a_tool_is_never_added_twice() {
    let mut chosen = vec!["lire".to_string()];
    add_tool(&mut chosen, "lire".to_string());
    add_tool(&mut chosen, String::new());
    assert_eq!(chosen, vec!["lire".to_string()]);
    add_tool(&mut chosen, "chercher".to_string());
    assert_eq!(chosen, vec!["lire".to_string(), "chercher".to_string()]);
    remove_tool(&mut chosen, &"lire".to_string());
    assert_eq!(chosen, vec!["chercher".to_string()]);
}

#[test]
fn tool_labels_come_from_the_catalog() {
    assert_eq!(tool_label(&catalog(), &"chercher".to_string()), "Chercher");
    assert_eq!(tool_label(&catalog(), &"inconnu".to_string()), "inconnu");
}

#[test]
fn profile_form_needs_a_name_and_a_label() {
    let message = "L'identifiant technique et le libellé sont obligatoires.";
    assert_eq!(profile_form_error("  ", "Rédacteur").as_deref(), Some(message));
    assert_eq!(profile_form_error("redacteur", "\t\n").as_deref(), Some(message));
    assert_eq!(profile_form_error("redacteur", " Rédacteur "), None);
}
