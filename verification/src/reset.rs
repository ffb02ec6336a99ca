//! The decisions of `cutler reset`: which configured settings are currently set and
//! get deleted, and what is reported for each.

use vstd::prelude::*;
use crate::apply::ObservedSetting;
use crate::domains::{pref_domain, pref_domain_spec, PrefDomain};
use crate::logging::LogLevel;
use crate::text::owned;

verus! {

/// What `reset` does with one configured setting.
pub enum ResetStep {
    /// The key is set: delete it from this domain.
    Delete { domain: PrefDomain, key: String },
    /// The key is not set: skip it.
    Skip,
}

/// Plans `reset` over the observed settings: each setting that the system holds is
/// deleted from its defaults domain; the others are skipped.
pub fn plan_reset(observed: &Vec<ObservedSetting>) -> (r: Vec<ResetStep>)
    ensures
        r@.len() == observed@.len(),
        forall|i: int| 0 <= i < r@.len() ==> {
            &&& (observed@[i].current is Some <==> #[trigger] r@[i] is Delete)
            &&& r@[i] matches ResetStep::Delete { domain, key } ==> domain.spec_parts()
                == pref_domain_spec(observed@[i].domain@) && key@ == observed@[i].key@
        },
{
    let mut out: Vec<ResetStep> = Vec::new();
    let mut i: usize = 0;
    while i < observed.len()
        invariant
            i <= observed@.len(),
            out@.len() == i,
            forall|q: int| 0 <= q < i ==> {
                &&& (observed@[q].current is Some <==> #[trigger] out@[q] is Delete)
                &&& out@[q] matches ResetStep::Delete { domain, key } ==> domain.spec_parts()
                    == pref_domain_spec(observed@[q].domain@) && key@ == observed@[q].key@
            },
        decreases observed@.len() - i,
    {
        let o = &observed[i];
        if o.current.is_some() {
            out.push(ResetStep::Delete { domain: pref_domain(o.domain.as_str()), key: o.key.clone() });
        } else {
            out.push(ResetStep::Skip);
        }
        i = i + 1;
    }
    out
}

/// The warnings that `reset` opens with, unless quiet.
pub fn reset_warnings(quiet: bool) -> (r: Vec<(LogLevel, String)>)
    ensures
        quiet ==> r@.len() == 0,
        !quiet ==> r@.len() == 2 && r@[0].0 is Warning && r@[1].0 is Warning
            && r@[0].1@ == "This will DELETE all settings defined in your config file."@
            && r@[1].1@ == "Settings will be reset to macOS defaults, not to their previous values."@,
{
    let mut out: Vec<(LogLevel, String)> = Vec::new();
    if !quiet {
        out.push((LogLevel::Warning, owned("This will DELETE all settings defined in your config file.")));
        out.push(
            (
                LogLevel::Warning,
                owned("Settings will be reset to macOS defaults, not to their previous values."),
            ),
        );
    }
    out
}

/// `domain.key`, as `reset` names a setting.
pub open spec fn setting_name(domain: Seq<char>, key: Seq<char>) -> Seq<char> {
    domain + "."@ + key
}

/// The note for a setting whose deletion a dry run skips:
/// `Would reset d.k to system default`.
pub fn reset_dry_message(domain: &str, key: &str) -> (r: String)
    ensures
        r@ == "Would reset "@ + setting_name(domain@, key@) + " to system default"@,
{
    let mut m = owned("Would reset ");
    m.append(domain);
    m.append(".");
    m.append(key);
    m.append(" to system default");
    m
}

/// The note for a deleted setting: `Reset d.k to system default`.
pub fn reset_done_message(domain: &str, key: &str) -> (r: String)
    ensures
        r@ == "Reset "@ + setting_name(domain@, key@) + " to system default"@,
{
    let mut m = owned("Reset ");
    m.append(domain);
    m.append(".");
    m.append(key);
    m.append(" to system default");
    m
}

/// The note for a failed deletion: `Failed to reset d.k: e`.
pub fn reset_failed_message(domain: &str, key: &str, error: &str) -> (r: String)
    ensures
        r@ == "Failed to reset "@ + setting_name(domain@, key@) + ": "@ + error@,
{
    let mut m = owned("Failed to reset ");
    m.append(domain);
    m.append(".");
    m.append(key);
    m.append(": ");
    m.append(error);
    m
}

/// The note for a setting that is not set: `Skipping d.k (not set)`.
pub fn reset_skip_message(domain: &str, key: &str) -> (r: String)
    ensures
        r@ == "Skipping "@ + setting_name(domain@, key@) + " (not set)"@,
{
    let mut m = owned("Skipping ");
    m.append(domain);
    m.append(".");
    m.append(key);
    m.append(" (not set)");
    m
}

} // verus!
