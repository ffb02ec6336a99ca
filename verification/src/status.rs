//! The decisions of `cutler status`: which configured settings differ from what the
//! system holds, and the report that says so.

use vstd::prelude::*;
use crate::apply::{is_changed, ObservedSetting};
use crate::config::{config_text, normalize, pref_text, written_as, lemma_written_value_reads_back, PrefVal};
use crate::logging::{bold, green, red, reset, LogLevel};
use crate::text::{owned, str_eq};

verus! {

/// The system's text for a setting as `status` shows it: `Not set` where the key is
/// unset.
pub open spec fn status_current(c: Option<String>) -> Seq<char> {
    match c {
        Some(s) => s@,
        None => "Not set"@,
    }
}

/// Whether `status` reports a setting as differing from the configuration.
pub open spec fn status_differs(o: ObservedSetting) -> bool {
    status_current(o.current) != config_text(o.value)
}

/// One setting as `status` compares it.
pub struct StatusOutcome {
    pub domain: String,
    pub key: String,
    pub desired: String,
    pub current: String,
    pub differs: bool,
}

/// The comparison of every observed setting, in order.
pub fn status_outcomes(observed: &Vec<ObservedSetting>) -> (r: Vec<StatusOutcome>)
    ensures
        r@.len() == observed@.len(),
        forall|i: int| 0 <= i < r@.len() ==> {
            &&& (#[trigger] r@[i]).domain@ == observed@[i].domain@
            &&& r@[i].key@ == observed@[i].key@
            &&& r@[i].desired@ == config_text(observed@[i].value)
            &&& r@[i].current@ == status_current(observed@[i].current)
            &&& r@[i].differs == status_differs(observed@[i])
            &&& r@[i].differs == (r@[i].current@ != r@[i].desired@)
        },
{
    let mut out: Vec<StatusOutcome> = Vec::new();
    let mut i: usize = 0;
    while i < observed.len()
        invariant
            i <= observed@.len(),
            out@.len() == i,
            forall|q: int| 0 <= q < i ==> {
                &&& (#[trigger] out@[q]).domain@ == observed@[q].domain@
                &&& out@[q].key@ == observed@[q].key@
                &&& out@[q].desired@ == config_text(observed@[q].value)
                &&& out@[q].current@ == status_current(observed@[q].current)
                &&& out@[q].differs == status_differs(observed@[q])
                &&& out@[q].differs == (out@[q].current@ != out@[q].desired@)
            },
        decreases observed@.len() - i,
    {
        let o = &observed[i];
        let desired = normalize(&o.value);
        let current = match &o.current {
            Some(c) => c.clone(),
            None => owned("Not set"),
        };
        let differs = !str_eq(current.as_str(), desired.as_str());
        out.push(
            StatusOutcome {
                domain: o.domain.clone(),
                key: o.key.clone(),
                desired,
                current,
                differs,
            },
        );
        i = i + 1;
    }
    out
}

/// The report line for a differing setting:
/// `<bold>d.k: should be v (currently <red>c<reset>)<reset>`.
pub open spec fn diff_line_spec(o: StatusOutcome) -> Seq<char> {
    bold() + o.domain@ + "."@ + o.key@ + ": should be "@ + o.desired@ + " (currently "@ + red()
        + o.current@ + reset() + ")"@ + reset()
}

/// The report line for a matching setting: `<green>d.k: c (matches desired)<reset>`.
pub open spec fn match_line_spec(o: StatusOutcome) -> Seq<char> {
    green() + o.domain@ + "."@ + o.key@ + ": "@ + o.current@ + " (matches desired)"@ + reset()
}

/// The lines for the first `n` outcomes: each differing setting, and each matching one
/// when verbose.
pub open spec fn status_lines_spec(os: Seq<StatusOutcome>, verbose: bool, n: nat) -> Seq<Seq<char>>
    decreases n,
{
    if n == 0 || n > os.len() {
        Seq::empty()
    } else {
        let prev = status_lines_spec(os, verbose, (n - 1) as nat);
        let o = os[n - 1];
        if o.differs {
            prev.push(diff_line_spec(o))
        } else if verbose {
            prev.push(match_line_spec(o))
        } else {
            prev
        }
    }
}

/// Whether one of the first `n` outcomes differs.
pub open spec fn any_differs(os: Seq<StatusOutcome>, n: nat) -> bool
    decreases n,
{
    if n == 0 || n > os.len() {
        false
    } else {
        any_differs(os, (n - 1) as nat) || os[n - 1].differs
    }
}

/// The settings part of the `status` report: an `Info` line per reported setting, then
/// the summary: `Fruitful` "All settings already match your configuration." when
/// nothing differs, else `Info` "Run `cutler apply` to apply these changes from your
/// config.".
pub fn status_report(outcomes: &Vec<StatusOutcome>, verbose: bool) -> (r: Vec<(LogLevel, String)>)
    ensures
        ({
            let lines = status_lines_spec(outcomes@, verbose, outcomes@.len());
            &&& r@.len() == lines.len() + 1
            &&& forall|i: int| 0 <= i < lines.len() ==> #[trigger] r@[i].0 is Info && r@[i].1@ == lines[i]
            &&& any_differs(outcomes@, outcomes@.len()) ==> r@[lines.len() as int].0 is Info
                && r@[lines.len() as int].1@ == "Run `cutler apply` to apply these changes from your config."@
            &&& !any_differs(outcomes@, outcomes@.len()) ==> r@[lines.len() as int].0 is Fruitful
                && r@[lines.len() as int].1@ == "All settings already match your configuration."@
        }),
{
    let mut out: Vec<(LogLevel, String)> = Vec::new();
    let mut any = false;
    let mut i: usize = 0;
    while i < outcomes.len()
        invariant
            i <= outcomes@.len(),
            any == any_differs(outcomes@, i as nat),
            out@.len() == status_lines_spec(outcomes@, verbose, i as nat).len(),
            forall|q: int| 0 <= q < out@.len() ==> #[trigger] out@[q].0 is Info && out@[q].1@
                == status_lines_spec(outcomes@, verbose, i as nat)[q],
        decreases outcomes@.len() - i,
    {
        let o = &outcomes[i];
        if o.differs {
            any = true;
            let mut m = crate::logging::bold_code();
            m.append(o.domain.as_str());
            m.append(".");
            m.append(o.key.as_str());
            m.append(": should be ");
            m.append(o.desired.as_str());
            m.append(" (currently ");
            let rc = crate::logging::red_code();
            m.append(rc.as_str());
            m.append(o.current.as_str());
            let z = crate::logging::reset_code();
            m.append(z.as_str());
            m.append(")");
            m.append(z.as_str());
            out.push((LogLevel::Info, m));
        } else if verbose {
            let mut m = crate::logging::green_code();
            m.append(o.domain.as_str());
            m.append(".");
            m.append(o.key.as_str());
            m.append(": ");
            m.append(o.current.as_str());
            m.append(" (matches desired)");
            let z = crate::logging::reset_code();
            m.append(z.as_str());
            out.push((LogLevel::Info, m));
        }
        i = i + 1;
    }
    if !any {
        out.push((LogLevel::Fruitful, owned("All settings already match your configuration.")));
    } else {
        out.push((LogLevel::Info, owned("Run `cutler apply` to apply these changes from your config.")));
    }
    out
}

/// Once `apply` has written a setting, the setting is settled: when the system holds
/// the preference value that the configured value is written as, `status` reports no
/// difference and a further `apply` finds nothing to change.
pub proof fn lemma_applied_setting_is_settled(o: ObservedSetting, p: PrefVal)
    requires
        written_as(o.value, p),
        o.current matches Some(c) && c@ == pref_text(p),
    ensures
        !status_differs(o),
        !is_changed(o),
{
    lemma_written_value_reads_back(o.value, p);
}

/// `status` reports a setting as differing exactly when the current text it shows
/// (`Not set` for an unset key) is not the desired text: a current value that merely
/// begins with the desired text differs too.
pub proof fn lemma_status_differs_iff_texts_differ(o: ObservedSetting)
    ensures
        status_differs(o) <==> status_current(o.current) != config_text(o.value),
        o.current matches Some(c) ==> (status_differs(o) <==> c@ != config_text(o.value)),
{
}

} // verus!
