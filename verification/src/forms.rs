//! The decisions of the administration forms: when a form is refused and
//! with which message, and otherwise whether it creates a record or
//! updates the one being edited, with which fields.
use vstd::prelude::*;
use vstd::string::*;

use crate::oidc::{is_white_space, trim_end, trim_start, trimmed, white_space};

verus! {

/// `s` holds nothing but white space: trimmed, nothing is left (see
/// [`lemma_blank_is_trimmed_empty`]).
pub open spec fn blank(s: Seq<char>) -> bool {
    forall|i: int| 0 <= i < s.len() ==> is_white_space(#[trigger] s[i])
}

proof fn lemma_trim_start_blank(s: Seq<char>)
    ensures
        trim_start(s).len() == 0 <==> blank(s),
        trim_start(s).len() > 0 ==> !is_white_space(trim_start(s)[0]),
    decreases s.len(),
{
    if s.len() > 0 && is_white_space(s[0]) {
        lemma_trim_start_blank(s.drop_first());
        assert(blank(s) <==> blank(s.drop_first())) by {
            if blank(s.drop_first()) {
                assert forall|i: int| 0 <= i < s.len() implies is_white_space(#[trigger] s[i]) by {
                    if i > 0 {
                        assert(s[i] == s.drop_first()[i - 1]);
                    }
                }
            }
            if blank(s) {
                assert forall|i: int| 0 <= i < s.drop_first().len() implies is_white_space(
                    #[trigger] s.drop_first()[i],
                ) by {
                    assert(s.drop_first()[i] == s[i + 1]);
                }
            }
        }
    }
}

proof fn lemma_trim_end_keeps_first(x: Seq<char>)
    requires
        x.len() > 0,
        !is_white_space(x[0]),
    ensures
        trim_end(x).len() > 0,
    decreases x.len(),
{
    if is_white_space(x.last()) {
        assert(x.len() > 1);
        assert(x.drop_last()[0] == x[0]);
        lemma_trim_end_keeps_first(x.drop_last());
    }
}

/// A text is blank exactly when trimming it leaves nothing.
pub proof fn lemma_blank_is_trimmed_empty(s: Seq<char>)
    ensures
        blank(s) <==> trimmed(s).len() == 0,
{
    lemma_trim_start_blank(s);
    if trim_start(s).len() > 0 {
        lemma_trim_end_keeps_first(trim_start(s));
    } else {
        assert(trim_end(trim_start(s)) == trim_start(s));
    }
}

/// Whether `s` holds nothing but white space.
pub fn is_blank(s: &str) -> (r: bool)
    ensures
        r == blank(s@),
{
    let n = s.unicode_len();
    let mut i: usize = 0;
    while i < n
        invariant
            n == s@.len(),
            0 <= i <= n,
            forall|k: int| 0 <= k < i ==> is_white_space(#[trigger] s@[k]),
        decreases n - i,
    {
        if !white_space(s.get_char(i)) {
            return false;
        }
        i = i + 1;
    }
    true
}

/// A text as an optional value: none when it is empty.
pub open spec fn optional(s: String) -> Option<String> {
    if s@.len() == 0 {
        None
    } else {
        Some(s)
    }
}

/// A text as an optional value: none when it is empty (a choice left on
/// "none", a secret or key left unchanged, a name cleared: what the forms
/// then do not send).
pub fn chosen(s: String) -> (r: Option<String>)
    ensures
        r == optional(s),
{
    if s.as_str().unicode_len() == 0 {
        None
    } else {
        Some(s)
    }
}

/// What sending a form does: nothing but show `message`, create a record
/// with the fields, or update the record `id` with them.
#[derive(Debug)]
pub enum FormSubmit<T> {
    Refused(String),
    Create(T),
    Update(String, T),
}

/// `Create(fields)`, or `Update(id, fields)` when the record `id` is being
/// edited.
pub open spec fn create_or_update<T>(editing: Option<String>, fields: T) -> FormSubmit<T> {
    match editing {
        Some(id) => FormSubmit::Update(id, fields),
        None => FormSubmit::Create(fields),
    }
}

fn submit_fields<T>(editing: Option<String>, fields: T) -> (r: FormSubmit<T>)
    ensures
        r == create_or_update(editing, fields),
{
    match editing {
        Some(id) => FormSubmit::Update(id, fields),
        None => FormSubmit::Create(fields),
    }
}

// ----- Identity providers -----

/// The fields of an identity provider; the secret is absent on an update
/// that keeps the one stored.
#[derive(Debug)]
pub struct OidcProviderFields {
    pub name: String,
    pub issuer_url: String,
    pub client_id: String,
    pub client_secret: Option<String>,
    pub scopes: String,
}

pub open spec fn oidc_refused(
    name: Seq<char>,
    issuer_url: Seq<char>,
    client_id: Seq<char>,
    client_secret: Seq<char>,
    editing: bool,
) -> bool {
    blank(name) || blank(issuer_url) || blank(client_id) || (!editing && client_secret.len() == 0)
}

/// Why the form of an identity provider cannot be sent, if it cannot: the
/// name, the issuer and the client id are required, and the secret when
/// the provider is created.
pub fn oidc_form_error(name: &str, issuer_url: &str, client_id: &str, client_secret: &str, editing: bool) -> (r:
    Option<String>)
    ensures
        r is Some <==> oidc_refused(name@, issuer_url@, client_id@, client_secret@, editing),
        r matches Some(m) ==> m@ == "Nom, issuer, client_id et secret sont obligatoires."@,
{
    if is_blank(name) || is_blank(issuer_url) || is_blank(client_id) || (!editing && client_secret.unicode_len()
        == 0) {
        Some(String::from_str("Nom, issuer, client_id et secret sont obligatoires."))
    } else {
        None
    }
}

/// Sending the form of an identity provider; `editing` is the provider
/// being edited. An empty secret on an update keeps the stored one.
pub fn oidc_submit(
    editing: Option<String>,
    name: String,
    issuer_url: String,
    client_id: String,
    client_secret: String,
    scopes: String,
) -> (r: FormSubmit<OidcProviderFields>)
    ensures
        r is Refused <==> oidc_refused(name@, issuer_url@, client_id@, client_secret@, editing is Some),
        r matches FormSubmit::Refused(m) ==> m@ == "Nom, issuer, client_id et secret sont obligatoires."@,
        !(r is Refused) ==> r == create_or_update(
            editing,
            OidcProviderFields {
                name,
                issuer_url,
                client_id,
                client_secret: if editing is Some {
                    optional(client_secret)
                } else {
                    Some(client_secret)
                },
                scopes,
            },
        ),
{
    match oidc_form_error(name.as_str(), issuer_url.as_str(), client_id.as_str(), client_secret.as_str(), editing.is_some()) {
        Some(m) => FormSubmit::Refused(m),
        None => {
            let client_secret = match editing {
                Some(_) => chosen(client_secret),
                None => Some(client_secret),
            };
            submit_fields(editing, OidcProviderFields { name, issuer_url, client_id, client_secret, scopes })
        },
    }
}

// ----- AI models -----

/// The fields of an AI model; the key is absent on an update that keeps the
/// one stored.
#[derive(Debug)]
pub struct AiModelFields {
    pub name: String,
    pub base_url: String,
    pub model: String,
    pub api_key: Option<String>,
    pub system_prompt: String,
}

pub open spec fn ai_model_refused(
    name: Seq<char>,
    base_url: Seq<char>,
    model: Seq<char>,
    api_key: Seq<char>,
    editing: bool,
) -> bool {
    blank(name) || blank(base_url) || blank(model) || (!editing && api_key.len() == 0)
}

/// Why the form of an AI model cannot be sent, if it cannot: the name, the
/// base URL and the model are required, and the API key when the model is
/// created.
pub fn ai_model_form_error(name: &str, base_url: &str, model: &str, api_key: &str, editing: bool) -> (r: Option<
    String,
>)
    ensures
        r is Some <==> ai_model_refused(name@, base_url@, model@, api_key@, editing),
        r matches Some(m) ==> m@ == "Nom, URL de base, modèle et clé API sont obligatoires."@,
{
    if is_blank(name) || is_blank(base_url) || is_blank(model) || (!editing && api_key.unicode_len() == 0) {
        Some(String::from_str("Nom, URL de base, modèle et clé API sont obligatoires."))
    } else {
        None
    }
}

/// Sending the form of an AI model; `editing` is the model being edited.
/// An empty key on an update keeps the stored one.
pub fn ai_model_submit(
    editing: Option<String>,
    name: String,
    base_url: String,
    model: String,
    api_key: String,
    system_prompt: String,
) -> (r: FormSubmit<AiModelFields>)
    ensures
        r is Refused <==> ai_model_refused(name@, base_url@, model@, api_key@, editing is Some),
        r matches FormSubmit::Refused(m) ==> m@ == "Nom, URL de base, modèle et clé API sont obligatoires."@,
        !(r is Refused) ==> r == create_or_update(
            editing,
            AiModelFields {
                name,
                base_url,
                model,
                api_key: if editing is Some {
                    optional(api_key)
                } else {
                    Some(api_key)
                },
                system_prompt,
            },
        ),
{
    match ai_model_form_error(name.as_str(), base_url.as_str(), model.as_str(), api_key.as_str(), editing.is_some()) {
        Some(m) => FormSubmit::Refused(m),
        None => {
            let api_key = match editing {
                Some(_) => chosen(api_key),
                None => Some(api_key),
            };
            submit_fields(editing, AiModelFields { name, base_url, model, api_key, system_prompt })
        },
    }
}

// ----- Intentions -----

#[derive(Debug)]
pub struct IntentionFields {
    pub domain_id: String,
    pub name: String,
    pub agent_context: String,
}

/// Sending the form of an intention: the domain must be chosen and the
/// name must not be blank.
pub fn intention_submit(editing: Option<String>, domain_id: String, name: String, agent_context: String) -> (r:
    FormSubmit<IntentionFields>)
    ensures
        r is Refused <==> domain_id@.len() == 0 || blank(name@),
        r matches FormSubmit::Refused(m) ==> m@ == "Domaine et nom sont obligatoires."@,
        !(r is Refused) ==> r == create_or_update(editing, IntentionFields { domain_id, name, agent_context }),
{
    if domain_id.as_str().unicode_len() == 0 || is_blank(name.as_str()) {
        FormSubmit::Refused(String::from_str("Domaine et nom sont obligatoires."))
    } else {
        submit_fields(editing, IntentionFields { domain_id, name, agent_context })
    }
}

// ----- Authorities -----

#[derive(Debug)]
pub struct AuthorityFields {
    pub nom: String,
    pub code: String,
    pub logo_url: String,
    pub tutelle: String,
}

/// Sending the form of an authority: its name and its code must not be
/// blank.
pub fn authority_submit(editing: Option<String>, nom: String, code: String, logo_url: String, tutelle: String) -> (r:
    FormSubmit<AuthorityFields>)
    ensures
        r is Refused <==> blank(nom@) || blank(code@),
        r matches FormSubmit::Refused(m) ==> m@ == "Nom et code sont obligatoires."@,
        !(r is Refused) ==> r == create_or_update(editing, AuthorityFields { nom, code, logo_url, tutelle }),
{
    if is_blank(nom.as_str()) || is_blank(code.as_str()) {
        FormSubmit::Refused(String::from_str("Nom et code sont obligatoires."))
    } else {
        submit_fields(editing, AuthorityFields { nom, code, logo_url, tutelle })
    }
}

// ----- Domains -----

#[derive(Debug)]
pub struct DomainFields {
    pub name: String,
    pub agent_context: String,
}

/// Sending the form of a domain: its name must not be blank.
pub fn domain_submit(editing: Option<String>, name: String, agent_context: String) -> (r: FormSubmit<DomainFields>)
    ensures
        r is Refused <==> blank(name@),
        r matches FormSubmit::Refused(m) ==> m@ == "Le nom est obligatoire."@,
        !(r is Refused) ==> r == create_or_update(editing, DomainFields { name, agent_context }),
{
    if is_blank(name.as_str()) {
        FormSubmit::Refused(String::from_str("Le nom est obligatoire."))
    } else {
        submit_fields(editing, DomainFields { name, agent_context })
    }
}

// ----- Groups -----

#[derive(Debug)]
pub struct GroupFields {
    pub name: String,
    /// The parent group; none for a top group.
    pub parent: Option<String>,
}

/// Sending the form that creates a group: its name must not be blank; an
/// empty parent makes a top group.
pub fn group_submit(name: String, parent: String) -> (r: FormSubmit<GroupFields>)
    ensures
        r is Refused <==> blank(name@),
        r matches FormSubmit::Refused(m) ==> m@ == "Le nom du groupe est obligatoire."@,
        !(r is Refused) ==> r == FormSubmit::Create(GroupFields { name, parent: optional(parent) }),
{
    if is_blank(name.as_str()) {
        FormSubmit::Refused(String::from_str("Le nom du groupe est obligatoire."))
    } else {
        FormSubmit::Create(GroupFields { name, parent: chosen(parent) })
    }
}

// ----- Permissions -----

/// Granting an action on one legal act: refused until an act is chosen.
pub fn legal_act_grant(legal_act_id: String, action: String) -> (r: Result<(String, String), String>)
    ensures
        r is Err <==> legal_act_id@.len() == 0,
        r matches Err(m) ==> m@ == "Choisissez un acte légal."@,
        r is Ok ==> r == Ok::<(String, String), String>((legal_act_id, action)),
{
    if legal_act_id.as_str().unicode_len() == 0 {
        Err(String::from_str("Choisissez un acte légal."))
    } else {
        Ok((legal_act_id, action))
    }
}

/// A permission on a kind of resource, granted from the generic form.
#[derive(Debug)]
pub struct GenericGrant {
    pub resource_type: String,
    pub resource_kind: String,
    /// The resource itself; none for every resource of the kind.
    pub resource_id: Option<String>,
    pub action: String,
}

/// The grant that the generic permission form sends.
pub fn generic_grant(resource_type: String, resource_kind: String, resource_id: String, action: String) -> (r:
    GenericGrant)
    ensures
        r == (GenericGrant { resource_type, resource_kind, resource_id: optional(resource_id), action }),
{
    GenericGrant { resource_type, resource_kind, resource_id: chosen(resource_id), action }
}

// ----- Integrations -----

/// The Légifrance credentials to save, if the form can be sent: the client
/// id must not be blank; an empty secret keeps the stored one.
pub fn legifrance_save(client_id: String, client_secret: String) -> (r: Option<(String, Option<String>)>)
    ensures
        r is None <==> blank(client_id@),
        r is Some ==> r == Some((client_id, optional(client_secret))),
{
    if is_blank(client_id.as_str()) {
        None
    } else {
        Some((client_id, chosen(client_secret)))
    }
}

} // verus!
