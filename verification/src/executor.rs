//! The decisions around deleting one key from a defaults domain: what a dry run reports, which domain object is addressed, and what the outcome
//! reports.

use vstd::prelude::*;
use crate::domains::{pref_domain, pref_domain_spec, PrefDomain};
use crate::logging::LogLevel;
use crate::text::owned;

verus! {

/// What `str::to_lowercase` gives for a text (Unicode lowercase mapping).
pub uninterp spec fn lowercase(s: Seq<char>) -> Seq<char>;

/// `str::to_lowercase`. The contract names the result `lowercase` of the argument and
/// claims nothing more about it.
#[verifier::external_body]
fn to_lowercase(s: &str) -> (r: String)
    ensures
        r@ == lowercase(s@),
{
    s.to_lowercase()
}

/// `action setting 'key' for domain`, the body of the deletion notes.
pub open spec fn delete_note(action: Seq<char>, key: Seq<char>, domain: Seq<char>) -> Seq<char> {
    action + " setting '"@ + key + "' for "@ + domain
}

fn note(action: &str, key: &str, domain: &str) -> (r: String)
    ensures
        r@ == delete_note(action@, key@, domain@),
{
    let mut m = owned(action);
    m.append(" setting '");
    m.append(key);
    m.append("' for ");
    m.append(domain);
    m
}

/// The effects a command carries out (writes, deletions, Homebrew calls, changes to
/// the snapshot file): all of them, in order, or none in a dry run, where they are
/// only announced.
pub fn effects_to_run<T>(dry_run: bool, effects: Vec<T>) -> (r: Vec<T>)
    ensures
        dry_run ==> r@.len() == 0,
        !dry_run ==> r@ == effects@,
{
    if dry_run {
        Vec::new()
    } else {
        effects
    }
}

/// What deleting a key comes to before the call: in a dry run, only the note
/// `Would <action> setting 'k' for d`; otherwise the domain to delete from, with the
/// note `<action> setting 'k' for d` first when verbose.
pub struct DeletePlan {
    pub notes: Vec<(LogLevel, String)>,
    pub target: Option<PrefDomain>,
}

/// Plans the deletion of `key` from `domain`.
pub fn plan_delete(domain: &str, key: &str, action: &str, verbose: bool, dry_run: bool) -> (r: DeletePlan)
    ensures
        dry_run ==> r.target is None && r.notes@.len() == 1 && r.notes@[0].0 is Dry && r.notes@[0].1@
            == "Would "@ + delete_note(action@, key@, domain@),
        !dry_run ==> (r.target matches Some(d) && d.spec_parts() == pref_domain_spec(domain@)),
        !dry_run && verbose ==> r.notes@.len() == 1 && r.notes@[0].0 is Info && r.notes@[0].1@
            == delete_note(action@, key@, domain@),
        !dry_run && !verbose ==> r.notes@.len() == 0,
{
    let mut notes: Vec<(LogLevel, String)> = Vec::new();
    if dry_run {
        let mut m = owned("Would ");
        let n = note(action, key, domain);
        m.append(n.as_str());
        notes.push((LogLevel::Dry, m));
        return DeletePlan { notes, target: None };
    }
    if verbose {
        notes.push((LogLevel::Info, note(action, key, domain)));
    }
    DeletePlan { notes, target: Some(pref_domain(domain)) }
}

/// What a deletion reports once made: on success, `<action> setting 'k' for d.` when
/// verbose; on failure, the error line `Failed to <action in lowercase> setting 'k' for
/// d: <error>`.
pub fn delete_outcome(
    domain: &str,
    key: &str,
    action: &str,
    verbose: bool,
    failure: Option<String>,
) -> (r: Vec<(LogLevel, String)>)
    ensures
        failure is None && verbose ==> r@.len() == 1 && r@[0].0 is Success && r@[0].1@ == delete_note(
            action@,
            key@,
            domain@,
        ) + "."@,
        failure is None && !verbose ==> r@.len() == 0,
        failure matches Some(e) ==> r@.len() == 1 && r@[0].0 is Error && r@[0].1@ == "Failed to "@
            + delete_note(lowercase(action@), key@, domain@) + ": "@ + e@,
{
    let mut out: Vec<(LogLevel, String)> = Vec::new();
    match failure {
        None => {
            if verbose {
                let mut m = note(action, key, domain);
                m.append(".");
                out.push((LogLevel::Success, m));
            }
        },
        Some(e) => {
            let lower = to_lowercase(action);
            let mut m = owned("Failed to ");
            let n = note(lower.as_str(), key, domain);
            m.append(n.as_str());
            m.append(": ");
            m.append(e.as_str());
            out.push((LogLevel::Error, m));
        },
    }
    out
}

} // verus!
