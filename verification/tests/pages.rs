use content::markdown::{keeps_event, render_markdown, MarkdownEventKind};
use content::oidc::parse_scopes;
use content::ws::room_ws_url;
use content::{bootstrap, login};

fn std_scopes(raw: &str) -> Vec<String> {
    raw.split(',')
        .map(|scope| scope.trim().to_string())
        .filter(|scope| !scope.is_empty())
        .collect()
}

#[test]
fn scopes_are_trimmed_and_empty_ones_dropped() {
    assert_eq!(parse_scopes("openid, profile ,email"), vec!["openid", "profile", "email"]);
    assert_eq!(parse_scopes(" , a,,b "), vec!["a", "b"]);
    assert!(parse_scopes("").is_empty());
    assert!(parse_scopes(" ,\t, ").is_empty());
    assert_eq!(parse_scopes("\u{a0}x\t,\u{3000}y z\u{2028}"), vec!["x", "y z"]);
}

#[test]
fn scopes_match_the_standard_library() {
    let samples = [
        "openid,profile",
        " a , b , c ",
        ",,,",
        "\u{85}one\u{2009},two\u{200b}",
        "é, ü ,\r\n",
        "x\u{1680}",
        "\u{180e}y",
    ];
    for raw in samples {
        assert_eq!(parse_scopes(raw), std_scopes(raw), "{raw:?}");
    }
}

#[test]
fn bootstrap_error_messages() {
    assert_eq!(bootstrap::error_message("champs"), "L'email et le nom sont obligatoires.");
    assert_eq!(
        bootstrap::error_message("mot_de_passe"),
        "Le mot de passe doit contenir au moins 12 caractères et être confirmé à l'identique."
    );
    assert_eq!(bootstrap::error_message("indisponible"), "Le service est temporairement indisponible.");
    assert_eq!(bootstrap::error_message("autre"), "La création du compte a échoué. Réessayez.");
}

#[test]
fn login_error_messages() {
    assert_eq!(login::error_message("identifiants"), "Email ou mot de passe incorrect.");
    assert_eq!(
        login::error_message("oidc"),
        "La connexion via ce fournisseur a échoué. Réessayez ou contactez un administrateur."
    );
    assert_eq!(
        login::error_message("indisponible"),
        "Le service d'authentification est temporairement indisponible."
    );
    assert_eq!(login::error_message(""), "La connexion a échoué. Réessayez.");
}

#[test]
fn room_socket_addresses() {
    assert_eq!(room_ws_url("https:", "example.org", "r42"), "wss://example.org/editor/r42/ws");
    assert_eq!(room_ws_url("http:", "localhost:3000", "abc"), "ws://localhost:3000/editor/abc/ws");
}

fn group(id: &str, parent: Option<&str>, name: &str) -> content::groups::GroupRow {
    content::groups::GroupRow {
        id: id.to_string(),
        parent_id: parent.map(|p| p.to_string()),
        name: name.to_string(),
    }
}

fn names_and_depths(rows: Vec<(content::groups::GroupRow, usize)>) -> Vec<(String, usize)> {
    rows.into_iter().map(|(g, d)| (g.name, d)).collect()
}

#[test]
fn groups_are_listed_depth_first_by_name() {
    let groups = vec![
        group("3", Some("1"), "Zèbre"),
        group("1", None, "Direction"),
        group("4", Some("1"), "Achats"),
        group("2", None, "Bureau"),
        group("5", Some("4"), "Fournitures"),
        group("6", Some("2"), "Accueil"),
    ];
    let got = names_and_depths(content::groups::flatten_tree(groups));
    let want: Vec<(String, usize)> = vec![
        ("Bureau".to_string(), 0),
        ("Accueil".to_string(), 1),
        ("Direction".to_string(), 0),
        ("Achats".to_string(), 1),
        ("Fournitures".to_string(), 2),
        ("Zèbre".to_string(), 1),
    ];
    assert_eq!(got, want);
}

#[test]
fn groups_of_the_same_name_keep_their_order() {
    let groups = vec![group("a", None, "Même"), group("b", None, "Autre"), group("c", None, "Même")];
    let got: Vec<String> = content::groups::flatten_tree(groups).into_iter().map(|(g, _)| g.id).collect();
    assert_eq!(got, vec!["b", "a", "c"]);
}

#[test]
fn groups_out_of_reach_of_a_root_are_not_listed() {
    let groups = vec![group("1", Some("2"), "Un"), group("2", Some("1"), "Deux"), group("3", None, "Trois")];
    assert_eq!(names_and_depths(content::groups::flatten_tree(groups)), vec![("Trois".to_string(), 0)]);
    assert!(content::groups::flatten_tree(Vec::new()).is_empty());
}

#[test]
fn group_names_sort_by_code_point() {
    let groups = vec![group("1", None, "b"), group("2", None, "B"), group("3", None, "é"), group("4", None, "")];
    let got: Vec<String> = content::groups::flatten_tree(groups).into_iter().map(|(g, _)| g.name).collect();
    assert_eq!(got, vec!["", "B", "b", "é"]);
}

#[test]
fn markdown_is_rendered_without_raw_html() {
    assert_eq!(render_markdown("**a**"), "<p><strong>a</strong></p>\n");
    assert_eq!(render_markdown("~~x~~"), "<p><del>x</del></p>\n");
    assert_eq!(render_markdown("a <b>x</b> b"), "<p>a x b</p>\n");
    let out = render_markdown("<script>alert(1)</script>\n\ntexte");
    assert!(!out.contains("script") && !out.contains("alert"), "{out}");
    assert!(out.contains("<p>texte</p>"), "{out}");
}

#[test]
fn only_raw_html_events_are_dropped() {
    assert!(!keeps_event(MarkdownEventKind::Html));
    assert!(!keeps_event(MarkdownEventKind::InlineHtml));
    assert!(keeps_event(MarkdownEventKind::Other));
}
