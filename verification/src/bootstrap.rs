//! The page that creates the first administrator account.
use vstd::prelude::*;

use crate::record::same_text;

verus! {

/// The message shown for the error code that the page receives in its
/// `error` query parameter.
pub open spec fn bootstrap_message(code: Seq<char>) -> Seq<char> {
    if code == "champs"@ {
        "L'email et le nom sont obligatoires."@
    } else if code == "mot_de_passe"@ {
        "Le mot de passe doit contenir au moins 12 caractères et être confirmé à l'identique."@
    } else if code == "indisponible"@ {
        "Le service est temporairement indisponible."@
    } else {
        "La création du compte a échoué. Réessayez."@
    }
}

/// The message shown for an error code: see [`bootstrap_message`].
pub fn error_message(code: &str) -> (m: &'static str)
    ensures
        m@ == bootstrap_message(code@),
{
    if same_text(code, "champs") {
        "L'email et le nom sont obligatoires."
    } else if same_text(code, "mot_de_passe") {
        "Le mot de passe doit contenir au moins 12 caractères et être confirmé à l'identique."
    } else if same_text(code, "indisponible") {
        "Le service est temporairement indisponible."
    } else {
        "La création du compte a échoué. Réessayez."
    }
}

} // verus!
