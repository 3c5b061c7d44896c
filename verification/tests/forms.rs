use content::{
    agent_profile_submit, ai_model_submit, authority_submit, chosen, domain_submit, generic_grant, group_submit,
    intention_submit, is_blank, legal_act_grant, legifrance_save, max_steps_of, oidc_form_error, oidc_submit,
    FormSubmit,
};

fn s(t: &str) -> String {
    t.to_string()
}

#[test]
fn blank_means_only_white_space() {
    assert!(is_blank(""));
    assert!(is_blank(" \t\n\u{a0}"));
    assert!(!is_blank(" a "));
}

#[test]
fn oidc_form_needs_a_secret_only_when_created() {
    let message = "Nom, issuer, client_id et secret sont obligatoires.";
    assert_eq!(oidc_form_error("Agent", "https://idp", "client", "", false).as_deref(), Some(message));
    assert_eq!(oidc_form_error("Agent", "https://idp", "client", "", true), None);
    assert_eq!(oidc_form_error("Agent", "  ", "client", "x", true).as_deref(), Some(message));

    match oidc_submit(None, s("Agent"), s("https://idp"), s("client"), s("secret"), s("openid")) {
        FormSubmit::Create(f) => {
            assert_eq!(f.name, "Agent");
            assert_eq!(f.client_secret.as_deref(), Some("secret"));
            assert_eq!(f.scopes, "openid");
        }
        other => panic!("unexpected {other:?}"),
    }
    match oidc_submit(Some(s("p1")), s("Agent"), s("https://idp"), s("client"), s(""), s("openid")) {
        FormSubmit::Update(id, f) => {
            assert_eq!(id, "p1");
            assert_eq!(f.client_secret, None);
        }
        other => panic!("unexpected {other:?}"),
    }
    assert!(matches!(
        oidc_submit(None, s(""), s("https://idp"), s("client"), s("secret"), s("")),
        FormSubmit::Refused(m) if m == message
    ));
}

#[test]
fn ai_model_form_keeps_the_key_when_left_empty() {
    let message = "Nom, URL de base, modèle et clé API sont obligatoires.";
    assert!(matches!(
        ai_model_submit(None, s("m"), s("https://api"), s("gpt"), s(""), s("")),
        FormSubmit::Refused(m) if m == message
    ));
    match ai_model_submit(Some(s("a1")), s("m"), s("https://api"), s("gpt"), s(""), s("prompt")) {
        FormSubmit::Update(id, f) => {
            assert_eq!(id, "a1");
            assert_eq!(f.api_key, None);
            assert_eq!(f.system_prompt, "prompt");
        }
        other => panic!("unexpected {other:?}"),
    }
    match ai_model_submit(Some(s("a1")), s("m"), s("https://api"), s("gpt"), s("k"), s("")) {
        FormSubmit::Update(_, f) => assert_eq!(f.api_key.as_deref(), Some("k")),
        other => panic!("unexpected {other:?}"),
    }
}

#[test]
fn required_fields_of_the_other_forms() {
    assert!(matches!(
        intention_submit(None, s(""), s("n"), s("")),
        FormSubmit::Refused(m) if m == "Domaine et nom sont obligatoires."
    ));
    assert!(matches!(intention_submit(None, s("d"), s(" "), s("")), FormSubmit::Refused(_)));
    assert!(matches!(intention_submit(Some(s("i")), s("d"), s("n"), s("")), FormSubmit::Update(id, _) if id == "i"));
    assert!(matches!(
        authority_submit(None, s("Préfecture"), s(" "), s(""), s("")),
        FormSubmit::Refused(m) if m == "Nom et code sont obligatoires."
    ));
    assert!(matches!(authority_submit(None, s("Préfecture"), s("PREF"), s(""), s("")), FormSubmit::Create(_)));
    assert!(matches!(domain_submit(None, s("\t"), s("")), FormSubmit::Refused(m) if m == "Le nom est obligatoire."));
    assert!(matches!(domain_submit(Some(s("d")), s("Urbanisme"), s("")), FormSubmit::Update(_, _)));
}

#[test]
fn groups_are_created_at_the_top_without_a_parent() {
    assert!(matches!(
        group_submit(s(" "), s("")),
        FormSubmit::Refused(m) if m == "Le nom du groupe est obligatoire."
    ));
    match group_submit(s("Juristes"), s("")) {
        FormSubmit::Create(f) => assert_eq!(f.parent, None),
        other => panic!("unexpected {other:?}"),
    }
    match group_submit(s("Juristes"), s("g1")) {
        FormSubmit::Create(f) => assert_eq!(f.parent.as_deref(), Some("g1")),
        other => panic!("unexpected {other:?}"),
    }
    assert_eq!(chosen(s("")), None);
    assert_eq!(chosen(s("x")), Some(s("x")));
}

#[test]
fn permissions_and_integrations() {
    assert_eq!(legal_act_grant(s(""), s("lire")), Err(s("Choisissez un acte légal.")));
    assert_eq!(legal_act_grant(s("a1"), s("lire")), Ok((s("a1"), s("lire"))));
    let grant = generic_grant(s("legal_act"), s("global"), s(""), s("lire"));
    assert_eq!(grant.resource_id, None);
    assert_eq!(legifrance_save(s("  "), s("secret")), None);
    assert_eq!(legifrance_save(s("id"), s("")), Some((s("id"), None)));
    assert_eq!(legifrance_save(s("id"), s("sec")), Some((s("id"), Some(s("sec")))));
}

#[test]
fn step_count_defaults_to_eight() {
    assert_eq!(max_steps_of(" 12 "), 12);
    assert_eq!(max_steps_of("-3"), -3);
    assert_eq!(max_steps_of("+7"), 7);
    assert_eq!(max_steps_of(""), 8);
    assert_eq!(max_steps_of("douze"), 8);
    assert_eq!(max_steps_of("-"), 8);
    assert_eq!(max_steps_of("2147483647"), 2147483647);
    assert_eq!(max_steps_of("-2147483648"), -2147483648);
    assert_eq!(max_steps_of("2147483648"), 8);
    assert_eq!(max_steps_of("99999999999999999999"), 8);
}

#[test]
fn agent_profile_form() {
    match agent_profile_submit(Some(s("p")), s("redacteur"), s("Rédacteur"), s(""), vec![s("lire")], "x") {
        FormSubmit::Update(id, f) => {
            assert_eq!(id, "p");
            assert_eq!(f.max_steps, 8);
            assert_eq!(f.tool_names, vec![s("lire")]);
        }
        other => panic!("unexpected {other:?}"),
    }
    assert!(matches!(
        agent_profile_submit(None, s(" "), s("Rédacteur"), s(""), vec![], "3"),
        FormSubmit::Refused(m) if m == "L'identifiant technique et le libellé sont obligatoires."
    ));
}
