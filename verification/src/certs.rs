//! Where to look for the certificate authorities that the HTTP client
//! trusts.

use vstd::prelude::*;

verus! {

/// The places to look for a certificate bundle, in the order to try them:
/// the file that the environment names, where it names one, then the two
/// usual system bundles.
pub open spec fn certificate_candidates_spec(from_env: Option<Seq<char>>) -> Seq<Seq<char>> {
    let system = seq!["/etc/ssl/certs/ca-bundle.crt"@, "/etc/ssl/certs/ca-certificates.crt"@];
    match from_env {
        Some(p) => seq![p] + system,
        None => system,
    }
}

/// The text of an optional string.
pub open spec fn optional_text(o: Option<String>) -> Option<Seq<char>> {
    match o {
        Some(p) => Some(p@),
        None => None,
    }
}

/// The places to look for a certificate bundle (see
/// `certificate_candidates_spec`), given the file that the environment
/// names, if any.
pub fn certificate_candidates(from_env: Option<String>) -> (r: Vec<String>)
    ensures
        r@.map_values(|s: String| s@) == certificate_candidates_spec(optional_text(from_env)),
{
    let mut r: Vec<String> = Vec::new();
    let ghost env_view = optional_text(from_env);
    if let Some(p) = from_env {
        r.push(p);
    }
    r.push(String::from_str("/etc/ssl/certs/ca-bundle.crt"));
    r.push(String::from_str("/etc/ssl/certs/ca-certificates.crt"));
    proof {
        reveal_strlit("/etc/ssl/certs/ca-bundle.crt");
        reveal_strlit("/etc/ssl/certs/ca-certificates.crt");
        assert(r@.map_values(|s: String| s@) =~= certificate_candidates_spec(env_view));
    }
    r
}

} // verus!
