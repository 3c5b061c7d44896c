//! The sign-in page.
use vstd::prelude::*;

use crate::record::same_text;

verus! {

/// The message shown for the error code that the page receives in its
/// `error` query parameter. Unknown e-mail and wrong password share one
/// message, so that the page does not tell which accounts exist.
pub open spec fn login_message(code: Seq<char>) -> Seq<char> {
    if code == "identifiants"@ {
        "Email ou mot de passe incorrect."@
    } else if code == "oidc"@ {
        "La connexion via ce fournisseur a échoué. Réessayez ou contactez un administrateur."@
    } else if code == "indisponible"@ {
        "Le service d'authentification est temporairement indisponible."@
    } else {
        "La connexion a échoué. Réessayez."@
    }
}

/// The message shown for an error code: see [`login_message`].
pub fn error_message(code: &str) -> (m: &'static str)
    ensures
        m@ == login_message(code@),
{
    if same_text(code, "identifiants") {
        "Email ou mot de passe incorrect."
    } else if same_text(code, "oidc") {
        "La connexion via ce fournisseur a échoué. Réessayez ou contactez un administrateur."
    } else if same_text(code, "indisponible") {
        "Le service d'authentification est temporairement indisponible."
    } else {
        "La connexion a échoué. Réessayez."
    }
}

} // verus!
