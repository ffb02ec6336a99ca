//! The decisions of `cutler apply`: which configured settings differ from the system,
//! which of them update an earlier application, and what the new snapshot records.

use vstd::prelude::*;
use crate::batch::{add_to_group, group_fold, group_map, groups_distinct, DomainKey};
use crate::config::{config_text, normalize, ConfigValue};
use crate::domains::{
    apple_domain, apple_prefix, effective, effective_spec, needs_prefix, global_domain, opt_view,
    pref_domain, pref_domain_spec, reversed, PrefDomain, Settings,
};
use crate::snapshot::{
    index_snapshot, find_setting, keys_distinct, lemma_snapshot_map_has, lemma_snapshot_map_lacks,
    lemma_snapshot_map_remove, setting_key, setting_record, snapshot_map, SettingState,
};

verus! {

/// A configured setting under its effective domain and key.
pub struct ConfiguredSetting {
    pub domain: String,
    pub key: String,
    pub value: ConfigValue,
}

/// A configured setting with the rendering of the value the system holds for it
/// (none where the key is not set).
pub struct ObservedSetting {
    pub domain: String,
    pub key: String,
    pub value: ConfigValue,
    pub current: Option<String>,
}

/// A configured setting as (effective domain, effective key, value).
pub open spec fn configured_view(c: ConfiguredSetting) -> (Seq<char>, Seq<char>, ConfigValue) {
    (c.domain@, c.key@, c.value)
}

/// The settings of the first `n` keys of one configured domain, under effective names.
pub open spec fn domain_settings(domain: Seq<char>, table: Seq<(String, ConfigValue)>, n: nat) -> Seq<
    (Seq<char>, Seq<char>, ConfigValue),
>
    decreases n,
{
    if n == 0 || n > table.len() {
        Seq::empty()
    } else {
        let e = effective_spec(domain, table[n - 1].0@);
        domain_settings(domain, table, (n - 1) as nat).push((e.0, e.1, table[n - 1].1))
    }
}

/// The settings of the first `n` configured domains, domain by domain, key by key.
pub open spec fn all_settings(ds: Seq<(String, Settings)>, n: nat) -> Seq<
    (Seq<char>, Seq<char>, ConfigValue),
>
    decreases n,
{
    if n == 0 || n > ds.len() {
        Seq::empty()
    } else {
        all_settings(ds, (n - 1) as nat) + domain_settings(ds[n - 1].0@, ds[n - 1].1@, ds[n - 1].1@.len())
    }
}

/// Every configured setting under its effective domain and key, in domain order and
/// then key order (the list that `apply`, `status` and `reset` walk).
pub fn configured_settings(domains: Vec<(String, Settings)>) -> (r: Vec<ConfiguredSetting>)
    ensures
        r@.map_values(|c: ConfiguredSetting| configured_view(c)) == all_settings(domains@, domains@.len()),
{
    let ghost d0 = domains@;
    let n = domains.len();
    let mut rest = reversed(domains);
    let mut out: Vec<ConfiguredSetting> = Vec::new();
    let mut i: usize = 0;
    while i < n
        invariant
            n == d0.len(),
            i <= n,
            rest@ == d0.subrange(i as int, n as int).reverse(),
            out@.map_values(|c: ConfiguredSetting| configured_view(c)) == all_settings(d0, i as nat),
        decreases n - i,
    {
        proof {
            assert(d0.subrange(i as int, n as int).reverse() =~= d0.subrange(i + 1, n as int).reverse().push(d0[i as int]));
        }
        let (dom, table) = rest.pop().unwrap();
        let ghost t0 = table@;
        let ghost base = out@.map_values(|c: ConfiguredSetting| configured_view(c));
        let m = table.len();
        let mut trest = reversed(table);
        let mut j: usize = 0;
        while j < m
            invariant
                m == t0.len(),
                j <= m,
                trest@ == t0.subrange(j as int, m as int).reverse(),
                out@.map_values(|c: ConfiguredSetting| configured_view(c)) == base + domain_settings(dom@, t0, j as nat),
            decreases m - j,
        {
            proof {
                assert(t0.subrange(j as int, m as int).reverse() =~= t0.subrange(j + 1, m as int).reverse().push(t0[j as int]));
            }
            let (key, value) = trest.pop().unwrap();
            let (d, k) = effective(dom.as_str(), key.as_str());
            let ghost before = out@;
            out.push(ConfiguredSetting { domain: d, key: k, value });
            proof {
                assert(out@.map_values(|c: ConfiguredSetting| configured_view(c)) =~= before.map_values(
                    |c: ConfiguredSetting| configured_view(c),
                ).push(configured_view(out@.last())));
                assert(out@.map_values(|c: ConfiguredSetting| configured_view(c)) =~= base + domain_settings(dom@, t0, (j + 1) as nat));
            }
            j = j + 1;
        }
        proof {
            assert(out@.map_values(|c: ConfiguredSetting| configured_view(c)) =~= all_settings(d0, (i + 1) as nat));
        }
        i = i + 1;
    }
    out
}

/// The Apple domains among the first `n` configured domains whose existence `apply`
/// checks, unless checks are disabled: `com.apple.d` for each domain `d` that
/// `com.apple.` is put before.
pub open spec fn domains_to_check_spec(ds: Seq<(String, Settings)>, n: nat) -> Seq<Seq<char>>
    decreases n,
{
    if n == 0 || n > ds.len() {
        Seq::empty()
    } else {
        let d = ds[n - 1].0@;
        let prev = domains_to_check_spec(ds, (n - 1) as nat);
        if !global_domain().is_prefix_of(d) && !apple_prefix().is_prefix_of(d) {
            prev.push(apple_prefix() + d)
        } else {
            prev
        }
    }
}

/// The full names of the domains whose existence `apply` checks before touching them;
/// none when checks are disabled.
pub fn domains_to_check(domains: &Vec<(String, Settings)>, disable_checks: bool) -> (r: Vec<String>)
    ensures
        disable_checks ==> r@.len() == 0,
        !disable_checks ==> r@.map_values(|s: String| s@) == domains_to_check_spec(domains@, domains@.len()),
{
    let mut out: Vec<String> = Vec::new();
    if disable_checks {
        return out;
    }
    let mut i: usize = 0;
    while i < domains.len()
        invariant
            i <= domains@.len(),
            out@.map_values(|s: String| s@) == domains_to_check_spec(domains@, i as nat),
        decreases domains@.len() - i,
    {
        let d = &domains[i].0;
        if needs_prefix(d.as_str()) {
            let ghost before = out@;
            out.push(apple_domain(d.as_str()));
            assert(out@.map_values(|s: String| s@) =~= before.map_values(|s: String| s@).push(out@.last()@));
        }
        i = i + 1;
    }
    out
}

/// Whether `apply` writes a setting for the first time or updates one it wrote before.
pub enum ApplyAction {
    Applying,
    Updating,
}

/// A setting that `apply` writes: where, what, whether it updates an earlier
/// application, the original value (carried over from the snapshot, or else the
/// value the system held before this application), and the desired text.
pub struct Job {
    pub domain: String,
    pub key: String,
    pub value: ConfigValue,
    pub action: ApplyAction,
    pub original: Option<String>,
    pub new_value: String,
}

/// A job as (setting, value, whether it updates, original, new value).
pub open spec fn job_view(j: Job) -> ((Seq<char>, Seq<char>), ConfigValue, bool, Option<Seq<char>>, Seq<char>) {
    ((j.domain@, j.key@), j.value, j.action is Updating, opt_view(j.original), j.new_value@)
}

/// The system's text for a setting as `apply` compares it: empty where the key is unset.
pub open spec fn current_or_empty(c: Option<String>) -> Seq<char> {
    match c {
        Some(s) => s@,
        None => Seq::empty(),
    }
}

/// Whether `apply` finds a setting changed: the system's text differs from the desired.
pub open spec fn is_changed(o: ObservedSetting) -> bool {
    current_or_empty(o.current) != config_text(o.value)
}

/// `apply`'s walk over the first `n` observed settings, from the snapshot's map `m0`:
/// each changed setting becomes a job and leaves the map: an update carrying the
/// recorded original value over if the map still holds the setting, else a first
/// application whose original value is what the system held (none where the key was
/// unset). Unchanged ones are skipped. Gives the map of the snapshot entries kept and
/// the jobs.
pub open spec fn plan_fold(
    m0: Map<(Seq<char>, Seq<char>), (Option<Seq<char>>, Seq<char>)>,
    obs: Seq<ObservedSetting>,
    n: nat,
) -> (
    Map<(Seq<char>, Seq<char>), (Option<Seq<char>>, Seq<char>)>,
    Seq<((Seq<char>, Seq<char>), ConfigValue, bool, Option<Seq<char>>, Seq<char>)>,
)
    decreases n,
{
    if n == 0 || n > obs.len() {
        (m0, Seq::empty())
    } else {
        let prev = plan_fold(m0, obs, (n - 1) as nat);
        let o = obs[n - 1];
        let k = (o.domain@, o.key@);
        if is_changed(o) {
            let was = prev.0.contains_key(k);
            let original = if was {
                prev.0[k].0
            } else {
                opt_view(o.current)
            };
            (prev.0.remove(k), prev.1.push((k, o.value, was, original, config_text(o.value))))
        } else {
            prev
        }
    }
}

/// Whether the system's text (empty when unset) differs from the desired text.
fn differs_from_system(current: &Option<String>, desired: &String) -> (r: bool)
    ensures
        r == (current_or_empty(*current) != desired@),
{
    proof {
        if desired@.len() == 0 {
            assert(desired@ =~= Seq::<char>::empty());
        }
    }
    match current {
        Some(c) => !crate::text::str_eq(c.as_str(), desired.as_str()),
        None => desired.unicode_len() != 0,
    }
}

/// The positions among the first `n` observed settings that `apply` finds unchanged.
pub open spec fn unchanged_spec(obs: Seq<ObservedSetting>, n: nat) -> Seq<usize>
    decreases n,
{
    if n == 0 || n > obs.len() {
        Seq::empty()
    } else if is_changed(obs[n - 1]) {
        unchanged_spec(obs, (n - 1) as nat)
    } else {
        unchanged_spec(obs, (n - 1) as nat).push((n - 1) as usize)
    }
}

/// The positions of the observed settings that already hold their desired value (the
/// ones `apply` skips, and names when verbose), in order.
pub fn unchanged_settings(observed: &Vec<ObservedSetting>) -> (r: Vec<usize>)
    ensures
        r@ == unchanged_spec(observed@, observed@.len()),
{
    let mut out: Vec<usize> = Vec::new();
    let mut i: usize = 0;
    while i < observed.len()
        invariant
            i <= observed@.len(),
            out@ == unchanged_spec(observed@, i as nat),
        decreases observed@.len() - i,
    {
        let o = &observed[i];
        let desired = normalize(&o.value);
        if !differs_from_system(&o.current, &desired) {
            out.push(i);
        }
        i = i + 1;
    }
    out
}

/// The outcome of planning an apply: the jobs, and the new snapshot (the old entries
/// that no job replaced, then one entry per job).
pub struct ApplyPlan {
    pub jobs: Vec<Job>,
    pub snapshot: Vec<SettingState>,
}

/// What an apply from the snapshot map `m0` over the observed settings gives: the jobs
/// that `plan_fold` gives, and a new snapshot made of the old entries that no job
/// replaced (one per setting, as `plan_fold` keeps them), then one entry per job with
/// the job's setting, original value and new value.
pub open spec fn apply_outcome(
    m0: Map<(Seq<char>, Seq<char>), (Option<Seq<char>>, Seq<char>)>,
    obs: Seq<ObservedSetting>,
    jobs: Seq<((Seq<char>, Seq<char>), ConfigValue, bool, Option<Seq<char>>, Seq<char>)>,
    ss: Seq<SettingState>,
) -> bool {
    let f = plan_fold(m0, obs, obs.len());
    let kept = ss.len() - jobs.len();
    &&& jobs == f.1
    &&& jobs.len() <= ss.len()
    &&& keys_distinct(ss.take(kept))
    &&& snapshot_map(ss.take(kept)) == f.0
    &&& forall|q: int|
        0 <= q < jobs.len() ==> {
            &&& setting_key(#[trigger] ss[kept + q]) == jobs[q].0
            &&& setting_record(ss[kept + q]) == (jobs[q].3, jobs[q].4)
        }
}

/// Plans `apply` from the observed settings and the old snapshot's entries.
pub fn plan_apply(observed: Vec<ObservedSetting>, old_snapshot: Vec<SettingState>) -> (r: ApplyPlan)
    ensures
        apply_outcome(
            snapshot_map(old_snapshot@),
            observed@,
            r.jobs@.map_values(|j: Job| job_view(j)),
            r.snapshot@,
        ),
{
    let ghost o0 = observed@;
    let ghost m0 = snapshot_map(old_snapshot@);
    let mut existing = index_snapshot(old_snapshot);
    let n = observed.len();
    let mut rest = reversed(observed);
    let mut jobs: Vec<Job> = Vec::new();
    let mut i: usize = 0;
    while i < n
        invariant
            n == o0.len(),
            i <= n,
            rest@ == o0.subrange(i as int, n as int).reverse(),
            keys_distinct(existing@),
            snapshot_map(existing@) == plan_fold(m0, o0, i as nat).0,
            jobs@.map_values(|j: Job| job_view(j)) == plan_fold(m0, o0, i as nat).1,
        decreases n - i,
    {
        proof {
            assert(o0.subrange(i as int, n as int).reverse() =~= o0.subrange(i + 1, n as int).reverse().push(o0[i as int]));
        }
        let o = rest.pop().unwrap();
        let desired = normalize(&o.value);
        let changed = differs_from_system(&o.current, &desired);
        let ghost oi = o0[i as int];
        assert(o == oi);
        assert(changed == is_changed(oi));
        if changed {
            let ghost before_jobs = jobs@;
            let found = find_setting(&existing, o.domain.as_str(), o.key.as_str());
            let (action, original) = match found {
                Some(idx) => {
                    proof {
                        lemma_snapshot_map_has(existing@, idx as int);
                        lemma_snapshot_map_remove(existing@, idx as int);
                    }
                    let old_entry = existing.remove(idx);
                    (ApplyAction::Updating, old_entry.original_value)
                },
                None => {
                    proof {
                        lemma_snapshot_map_lacks(existing@, (o.domain@, o.key@));
                        assert(snapshot_map(existing@).remove((o.domain@, o.key@)) =~= snapshot_map(existing@));
                    }
                    (ApplyAction::Applying, o.current.clone())
                },
            };
            jobs.push(
                Job {
                    domain: o.domain,
                    key: o.key,
                    value: o.value,
                    action,
                    original,
                    new_value: desired,
                },
            );
            proof {
                assert(jobs@.map_values(|j: Job| job_view(j)) =~= before_jobs.map_values(|j: Job| job_view(j)).push(job_view(jobs@.last())));
                assert(snapshot_map(existing@) == plan_fold(m0, o0, (i + 1) as nat).0);
                assert(jobs@.map_values(|j: Job| job_view(j)) == plan_fold(m0, o0, (i + 1) as nat).1);
            }
        } else {
            assert(plan_fold(m0, o0, (i + 1) as nat) == plan_fold(m0, o0, i as nat));
        }
        i = i + 1;
    }
    let kept = existing.len();
    let mut snapshot = existing;
    assert(snapshot@.take(kept as int) =~= snapshot@);
    let mut k: usize = 0;
    while k < jobs.len()
        invariant
            k <= jobs@.len(),
            snapshot@.len() == kept + k,
            keys_distinct(snapshot@.take(kept as int)),
            snapshot_map(snapshot@.take(kept as int)) == plan_fold(m0, o0, n as nat).0,
            forall|q: int| 0 <= q < k ==> {
                &&& setting_key(#[trigger] snapshot@[kept + q]) == job_view(jobs@[q]).0
                &&& setting_record(snapshot@[kept + q]) == (job_view(jobs@[q]).3, job_view(jobs@[q]).4)
            },
        decreases jobs@.len() - k,
    {
        let job = &jobs[k];
        let ghost before = snapshot@;
        snapshot.push(
            SettingState {
                domain: job.domain.clone(),
                key: job.key.clone(),
                original_value: job.original.clone(),
                new_value: job.new_value.clone(),
            },
        );
        proof {
            assert(snapshot@.take(kept as int) =~= before.take(kept as int));
        }
        k = k + 1;
    }
    proof {
        let jv = jobs@.map_values(|j: Job| job_view(j));
        assert forall|q: int| 0 <= q < jv.len() implies {
            &&& setting_key(#[trigger] snapshot@[kept + q]) == jv[q].0
            &&& setting_record(snapshot@[kept + q]) == (jv[q].3, jv[q].4)
        } by {
            assert(jv[q] == job_view(jobs@[q]));
        }
    }
    ApplyPlan { jobs, snapshot }
}


/// The pairs (defaults domain, position) of the first `n` jobs.
pub open spec fn job_domain_pairs(jobs: Seq<Job>, n: nat) -> Seq<(DomainKey, usize)> {
    Seq::new(n, |i: int| (pref_domain_spec(jobs[i].domain@), i as usize))
}

/// The jobs grouped by the defaults domain they write to (the batch of `apply`):
/// each domain once, with the positions of its jobs in job order.
pub fn group_jobs(jobs: &Vec<Job>) -> (r: Vec<(PrefDomain, Vec<usize>)>)
    ensures
        groups_distinct(r@),
        group_map(r@) == group_fold(job_domain_pairs(jobs@, jobs@.len())),
{
    let mut groups: Vec<(PrefDomain, Vec<usize>)> = Vec::new();
    let mut i: usize = 0;
    assert(job_domain_pairs(jobs@, 0) =~= Seq::empty());
    while i < jobs.len()
        invariant
            i <= jobs@.len(),
            groups_distinct(groups@),
            group_map(groups@) == group_fold(job_domain_pairs(jobs@, i as nat)),
        decreases jobs@.len() - i,
    {
        let d = pref_domain(jobs[i].domain.as_str());
        add_to_group(&mut groups, d, i);
        proof {
            assert(job_domain_pairs(jobs@, (i + 1) as nat).drop_last() =~= job_domain_pairs(jobs@, i as nat));
        }
        i = i + 1;
    }
    groups
}

impl ApplyAction {
    /// The word for the action: `Applying` or `Updating`.
    pub open spec fn spec_word(self) -> Seq<char> {
        match self {
            ApplyAction::Applying => "Applying"@,
            ApplyAction::Updating => "Updating"@,
        }
    }

    /// The word for the action: `Applying` or `Updating`.
    pub fn word(&self) -> (r: String)
        ensures
            r@ == self.spec_word(),
    {
        match self {
            ApplyAction::Applying => crate::text::owned("Applying"),
            ApplyAction::Updating => crate::text::owned("Updating"),
        }
    }
}

/// The note for a setting that already holds its value: `Skipping unchanged d:k`.
pub fn skip_message(domain: &str, key: &str) -> (r: String)
    ensures
        r@ == "Skipping unchanged "@ + domain@ + ":"@ + key@,
{
    let mut m = crate::text::owned("Skipping unchanged ");
    m.append(domain);
    m.append(":");
    m.append(key);
    m
}

/// The note for a job being written: `Applying d:k -> v` (or `Updating ...`).
pub fn job_message(job: &Job) -> (r: String)
    ensures
        r@ == job.action.spec_word() + " "@ + job.domain@ + ":"@ + job.key@ + " -> "@ + job.new_value@,
{
    let mut m = job.action.word();
    m.append(" ");
    m.append(job.domain.as_str());
    m.append(":");
    m.append(job.key.as_str());
    m.append(" -> ");
    m.append(job.new_value.as_str());
    m
}

/// The dry-run note for a job: `Would Applying setting 'k' for d` (or `Updating`).
pub fn dry_run_job_message(job: &Job) -> (r: String)
    ensures
        r@ == "Would "@ + job.action.spec_word() + " setting '"@ + job.key@ + "' for "@ + job.domain@,
{
    let mut m = crate::text::owned("Would ");
    let w = job.action.word();
    m.append(w.as_str());
    m.append(" setting '");
    m.append(job.key.as_str());
    m.append("' for ");
    m.append(job.domain.as_str());
    m
}


/// No two observed settings have the same effective domain and key.
pub open spec fn observed_distinct(obs: Seq<ObservedSetting>) -> bool {
    forall|a: int, b: int|
        0 <= a < b < obs.len() ==> (obs[a].domain@, obs[a].key@) != (obs[b].domain@, obs[b].key@)
}

proof fn lemma_fold_untouched(
    m0: Map<(Seq<char>, Seq<char>), (Option<Seq<char>>, Seq<char>)>,
    obs: Seq<ObservedSetting>,
    j: nat,
    k: (Seq<char>, Seq<char>),
)
    requires
        j <= obs.len(),
        forall|a: int| 0 <= a < j && is_changed(#[trigger] obs[a]) ==> (obs[a].domain@, obs[a].key@) != k,
    ensures
        plan_fold(m0, obs, j).0.contains_key(k) == m0.contains_key(k),
        m0.contains_key(k) ==> plan_fold(m0, obs, j).0[k] == m0[k],
    decreases j,
{
    if j > 0 {
        lemma_fold_untouched(m0, obs, (j - 1) as nat, k);
    }
}

pub(crate) proof fn lemma_fold_jobs_grow(
    m0: Map<(Seq<char>, Seq<char>), (Option<Seq<char>>, Seq<char>)>,
    obs: Seq<ObservedSetting>,
    j: nat,
    n: nat,
)
    requires
        j <= n <= obs.len(),
    ensures
        plan_fold(m0, obs, j).1.len() <= plan_fold(m0, obs, n).1.len(),
        forall|q: int| 0 <= q < plan_fold(m0, obs, j).1.len() ==> #[trigger] plan_fold(m0, obs, n).1[q]
            == plan_fold(m0, obs, j).1[q],
    decreases n,
{
    if n > j {
        lemma_fold_jobs_grow(m0, obs, j, (n - 1) as nat);
    }
}

pub(crate) proof fn lemma_fold_stays_removed(
    m0: Map<(Seq<char>, Seq<char>), (Option<Seq<char>>, Seq<char>)>,
    obs: Seq<ObservedSetting>,
    j: nat,
    n: nat,
    k: (Seq<char>, Seq<char>),
)
    requires
        j <= n <= obs.len(),
        !plan_fold(m0, obs, j).0.contains_key(k),
    ensures
        !plan_fold(m0, obs, n).0.contains_key(k),
    decreases n,
{
    if n > j {
        lemma_fold_stays_removed(m0, obs, j, (n - 1) as nat, k);
    }
}

/// What `apply` does with a setting it finds changed (configured settings distinct):
/// it writes a job carrying the desired text, marked as an update exactly when the old
/// snapshot recorded the setting, and carrying over the original value recorded there,
/// or, on a first application, the value the system held before (none where the key
/// was unset); the old entry is not kept beside the new one. So a re-apply never loses
/// the value that `unapply` restores.
pub proof fn lemma_apply_records_change(
    m0: Map<(Seq<char>, Seq<char>), (Option<Seq<char>>, Seq<char>)>,
    obs: Seq<ObservedSetting>,
    i: int,
)
    requires
        observed_distinct(obs),
        0 <= i < obs.len(),
        is_changed(obs[i]),
    ensures
        ({
            let k = (obs[i].domain@, obs[i].key@);
            let f = plan_fold(m0, obs, obs.len());
            &&& f.1.contains(
                (
                    k,
                    obs[i].value,
                    m0.contains_key(k),
                    if m0.contains_key(k) {
                        m0[k].0
                    } else {
                        opt_view(obs[i].current)
                    },
                    config_text(obs[i].value),
                ),
            )
            &&& !f.0.contains_key(k)
        }),
{
    let k = (obs[i].domain@, obs[i].key@);
    lemma_fold_untouched(m0, obs, i as nat, k);
    let f1 = plan_fold(m0, obs, (i + 1) as nat);
    let q = plan_fold(m0, obs, i as nat).1.len() as int;
    lemma_fold_jobs_grow(m0, obs, (i + 1) as nat, obs.len());
    assert(plan_fold(m0, obs, obs.len()).1[q] == f1.1[q]);
    lemma_fold_stays_removed(m0, obs, (i + 1) as nat, obs.len(), k);
}

/// `apply` leaves the snapshot's record of a setting alone when no configured setting
/// for it is found changed: the entry stays, as it was.
pub proof fn lemma_apply_keeps_untouched(
    m0: Map<(Seq<char>, Seq<char>), (Option<Seq<char>>, Seq<char>)>,
    obs: Seq<ObservedSetting>,
    k: (Seq<char>, Seq<char>),
)
    requires
        forall|a: int| 0 <= a < obs.len() && is_changed(#[trigger] obs[a]) ==> (obs[a].domain@, obs[a].key@) != k,
    ensures
        plan_fold(m0, obs, obs.len()).0.contains_key(k) == m0.contains_key(k),
        m0.contains_key(k) ==> plan_fold(m0, obs, obs.len()).0[k] == m0[k],
{
    lemma_fold_untouched(m0, obs, obs.len(), k);
}


/// `apply` writes only what differs: every job is for an observed setting that the
/// system does not hold at its desired value, and carries that setting's desired text.
pub proof fn lemma_apply_writes_only_changes(
    m0: Map<(Seq<char>, Seq<char>), (Option<Seq<char>>, Seq<char>)>,
    obs: Seq<ObservedSetting>,
    n: nat,
    q: int,
)
    requires
        n <= obs.len(),
        0 <= q < plan_fold(m0, obs, n).1.len(),
    ensures
        exists|i: int|
            0 <= i < n && is_changed(#[trigger] obs[i]) && plan_fold(m0, obs, n).1[q].0 == (
            obs[i].domain@,
            obs[i].key@,
        ) && plan_fold(m0, obs, n).1[q].4 == config_text(obs[i].value),
    decreases n,
{
    if n > 0 {
        let prev = plan_fold(m0, obs, (n - 1) as nat);
        if q < prev.1.len() {
            lemma_apply_writes_only_changes(m0, obs, (n - 1) as nat, q);
            let i = choose|i: int|
                0 <= i < n - 1 && is_changed(#[trigger] obs[i]) && prev.1[q].0 == (
                obs[i].domain@,
                obs[i].key@,
            ) && prev.1[q].4 == config_text(obs[i].value);
            assert(0 <= i < n && is_changed(obs[i]));
        } else {
            assert(is_changed(obs[n - 1]));
        }
    }
}


/// With distinct observed settings, no two jobs are for the same setting.
pub proof fn lemma_jobs_distinct(
    m0: Map<(Seq<char>, Seq<char>), (Option<Seq<char>>, Seq<char>)>,
    obs: Seq<ObservedSetting>,
    n: nat,
)
    requires
        observed_distinct(obs),
        n <= obs.len(),
    ensures
        forall|q1: int, q2: int|
            0 <= q1 < q2 < plan_fold(m0, obs, n).1.len() ==> #[trigger] plan_fold(m0, obs, n).1[q1].0
                != #[trigger] plan_fold(m0, obs, n).1[q2].0,
    decreases n,
{
    if n > 0 {
        let prev = plan_fold(m0, obs, (n - 1) as nat);
        let cur = plan_fold(m0, obs, n);
        lemma_jobs_distinct(m0, obs, (n - 1) as nat);
        if is_changed(obs[n - 1]) {
            assert forall|q1: int, q2: int| 0 <= q1 < q2 < cur.1.len() implies #[trigger] cur.1[q1].0
                != #[trigger] cur.1[q2].0 by {
                if q2 < prev.1.len() {
                    assert(cur.1[q1] == prev.1[q1]);
                    assert(cur.1[q2] == prev.1[q2]);
                } else {
                    assert(cur.1[q1] == prev.1[q1]);
                    lemma_apply_writes_only_changes(m0, obs, (n - 1) as nat, q1);
                    let a = choose|a: int|
                        0 <= a < n - 1 && is_changed(#[trigger] obs[a]) && prev.1[q1].0 == (
                        obs[a].domain@,
                        obs[a].key@,
                    ) && prev.1[q1].4 == config_text(obs[a].value);
                    assert((obs[a].domain@, obs[a].key@) != (obs[n - 1].domain@, obs[n - 1].key@));
                }
            }
        }
    }
}

/// No changed observed setting before position `a` is for the same setting as `a`.
pub open spec fn first_change(obs: Seq<ObservedSetting>, a: int) -> bool {
    forall|b: int|
        0 <= b < a && is_changed(#[trigger] obs[b]) ==> (obs[b].domain@, obs[b].key@) != (obs[a].domain@, obs[a].key@)
}

proof fn lemma_fold_keys_within(
    m0: Map<(Seq<char>, Seq<char>), (Option<Seq<char>>, Seq<char>)>,
    obs: Seq<ObservedSetting>,
    n: nat,
    k: (Seq<char>, Seq<char>),
)
    requires
        n <= obs.len(),
        plan_fold(m0, obs, n).0.contains_key(k),
    ensures
        m0.contains_key(k),
    decreases n,
{
    if n > 0 {
        lemma_fold_keys_within(m0, obs, (n - 1) as nat, k);
    }
}

/// Where a job comes from: a changed observed setting for the same setting, whose read
/// value the job records on a first application, and which carries the old snapshot's
/// original over when it is the first change of a setting that snapshot holds.
pub proof fn lemma_job_origin(
    m0: Map<(Seq<char>, Seq<char>), (Option<Seq<char>>, Seq<char>)>,
    obs: Seq<ObservedSetting>,
    n: nat,
    q: int,
)
    requires
        n <= obs.len(),
        0 <= q < plan_fold(m0, obs, n).1.len(),
    ensures
        exists|a: int|
            #![trigger obs[a]]
            0 <= a < n && is_changed(obs[a]) && plan_fold(m0, obs, n).1[q].0 == (obs[a].domain@, obs[a].key@)
                && (!m0.contains_key(plan_fold(m0, obs, n).1[q].0) ==> plan_fold(m0, obs, n).1[q].3
                == opt_view(obs[a].current)) && (m0.contains_key(plan_fold(m0, obs, n).1[q].0)
                && first_change(obs, a) ==> plan_fold(m0, obs, n).1[q].3 == m0[plan_fold(
                m0,
                obs,
                n,
            ).1[q].0].0),
    decreases n,
{
    let cur = plan_fold(m0, obs, n);
    let prev = plan_fold(m0, obs, (n - 1) as nat);
    if q < prev.1.len() {
        lemma_job_origin(m0, obs, (n - 1) as nat, q);
        assert(cur.1[q] == prev.1[q]);
        let a = choose|a: int|
            #![trigger obs[a]]
            0 <= a < n - 1 && is_changed(obs[a]) && prev.1[q].0 == (obs[a].domain@, obs[a].key@) && (
            !m0.contains_key(prev.1[q].0) ==> prev.1[q].3 == opt_view(obs[a].current)) && (
            m0.contains_key(prev.1[q].0) && first_change(obs, a) ==> prev.1[q].3 == m0[prev.1[q].0].0);
        assert(0 <= a < n && is_changed(obs[a]));
    } else {
        let a = n - 1;
        let k = (obs[a].domain@, obs[a].key@);
        assert(is_changed(obs[a]));
        assert(cur.1[q].0 == k);
        if prev.0.contains_key(k) {
            lemma_fold_keys_within(m0, obs, (n - 1) as nat, k);
        }
        if m0.contains_key(k) && first_change(obs, a) {
            assert forall|b: int| 0 <= b < a && is_changed(#[trigger] obs[b]) implies (obs[b].domain@, obs[b].key@) != k by {}
            lemma_fold_untouched(m0, obs, (n - 1) as nat, k);
        }
    }
}

proof fn lemma_domains_to_check_members(ds: Seq<(String, Settings)>, n: nat)
    requires
        n <= ds.len(),
    ensures
        domains_to_check_spec(ds, n) == ds.take(n as int).filter_map(
            |e: (String, Settings)|
                if !global_domain().is_prefix_of(e.0@) && !apple_prefix().is_prefix_of(e.0@) {
                    Some(apple_prefix() + e.0@)
                } else {
                    None
                },
        ),
        forall|i: int|
            0 <= i < n && !global_domain().is_prefix_of(#[trigger] ds[i].0@) && !apple_prefix().is_prefix_of(
                ds[i].0@,
            ) ==> domains_to_check_spec(ds, n).contains(apple_prefix() + ds[i].0@),
    decreases n,
{
    let f = |e: (String, Settings)|
        if !global_domain().is_prefix_of(e.0@) && !apple_prefix().is_prefix_of(e.0@) {
            Some(apple_prefix() + e.0@)
        } else {
            None
        };
    if n == 0 {
        assert(ds.take(0) =~= Seq::<(String, Settings)>::empty());
    } else {
        lemma_domains_to_check_members(ds, (n - 1) as nat);
        let tk = ds.take(n as int);
        assert(tk.drop_last() =~= ds.take(n - 1));
        assert(tk.last() == ds[n - 1]);
        let prev = domains_to_check_spec(ds, (n - 1) as nat);
        let cur = domains_to_check_spec(ds, n);
        let d = ds[n - 1].0@;
        if !global_domain().is_prefix_of(d) && !apple_prefix().is_prefix_of(d) {
            assert(cur == prev.push(apple_prefix() + d));
            assert(tk.filter_map(f) == tk.drop_last().filter_map(f) + seq![apple_prefix() + d]);
            assert(cur =~= tk.drop_last().filter_map(f) + seq![apple_prefix() + d]);
        } else {
            assert(cur == prev);
            assert(tk.filter_map(f) == tk.drop_last().filter_map(f));
        }
        assert forall|i: int|
            0 <= i < n && !global_domain().is_prefix_of(#[trigger] ds[i].0@) && !apple_prefix().is_prefix_of(
                ds[i].0@,
            ) implies cur.contains(apple_prefix() + ds[i].0@) by {
            if i < n - 1 {
                let k = choose|k: int| 0 <= k < prev.len() && #[trigger] prev[k] == apple_prefix() + ds[i].0@;
                assert(cur[k] == apple_prefix() + ds[i].0@);
            } else {
                assert(cur[prev.len() as int] == apple_prefix() + ds[i].0@);
            }
        }
    }
}

/// With checks enabled, `apply` checks every configured domain that `com.apple.` is
/// put before, under its full name `com.apple.d`, and only those, in configured order.
pub proof fn lemma_checks_every_apple_domain(ds: Seq<(String, Settings)>)
    ensures
        domains_to_check_spec(ds, ds.len()) == ds.filter_map(
            |e: (String, Settings)|
                if !global_domain().is_prefix_of(e.0@) && !apple_prefix().is_prefix_of(e.0@) {
                    Some(apple_prefix() + e.0@)
                } else {
                    None
                },
        ),
        forall|i: int|
            0 <= i < ds.len() && !global_domain().is_prefix_of(#[trigger] ds[i].0@) && !apple_prefix().is_prefix_of(
                ds[i].0@,
            ) ==> domains_to_check_spec(ds, ds.len()).contains(apple_prefix() + ds[i].0@),
{
    lemma_domains_to_check_members(ds, ds.len());
    assert(ds.take(ds.len() as int) =~= ds);
}

/// `apply` writes every setting whose system text (empty where the key is unset) is
/// not its desired text: the plan holds a job for that setting, with its value and its
/// desired text.
pub proof fn lemma_apply_writes_every_difference(
    m0: Map<(Seq<char>, Seq<char>), (Option<Seq<char>>, Seq<char>)>,
    obs: Seq<ObservedSetting>,
    i: int,
)
    requires
        0 <= i < obs.len(),
        current_or_empty(obs[i].current) != config_text(obs[i].value),
    ensures
        exists|q: int|
            0 <= q < plan_fold(m0, obs, obs.len()).1.len() && (#[trigger] plan_fold(m0, obs, obs.len()).1[q]).0 == (
            obs[i].domain@,
            obs[i].key@,
        ) && plan_fold(m0, obs, obs.len()).1[q].1 == obs[i].value && plan_fold(m0, obs, obs.len()).1[q].4
            == config_text(obs[i].value),
{
    let q = plan_fold(m0, obs, i as nat).1.len() as int;
    let f1 = plan_fold(m0, obs, (i + 1) as nat);
    assert(f1.1[q].0 == (obs[i].domain@, obs[i].key@));
    lemma_fold_jobs_grow(m0, obs, (i + 1) as nat, obs.len());
    assert(plan_fold(m0, obs, obs.len()).1[q] == f1.1[q]);
}

proof fn lemma_unchanged_members(obs: Seq<ObservedSetting>, n: nat)
    requires
        n <= obs.len(),
        obs.len() <= usize::MAX,
    ensures
        forall|i: int|
            0 <= i < n ==> (unchanged_spec(obs, n).contains(i as usize) <==> current_or_empty(
                (#[trigger] obs[i]).current,
            ) == config_text(obs[i].value)),
        forall|x: usize| #[trigger] unchanged_spec(obs, n).contains(x) ==> x < n,
    decreases n,
{
    if n > 0 {
        lemma_unchanged_members(obs, (n - 1) as nat);
        let prev = unchanged_spec(obs, (n - 1) as nat);
        let cur = unchanged_spec(obs, n);
        assert forall|x: usize| #[trigger] cur.contains(x) implies x < n by {
            if !is_changed(obs[n - 1]) {
                let k = choose|k: int| 0 <= k < cur.len() && cur[k] == x;
                if k < prev.len() {
                    assert(prev[k] == x);
                    assert(prev.contains(x));
                }
            } else {
                assert(prev.contains(x));
            }
        }
        assert forall|i: int|
            0 <= i < n implies (cur.contains(i as usize) <==> current_or_empty((#[trigger] obs[i]).current)
            == config_text(obs[i].value)) by {
            if !is_changed(obs[n - 1]) {
                if i < n - 1 {
                    if prev.contains(i as usize) {
                        let k = choose|k: int| 0 <= k < prev.len() && prev[k] == i as usize;
                        assert(cur[k] == i as usize);
                    }
                    if cur.contains(i as usize) {
                        let k = choose|k: int| 0 <= k < cur.len() && cur[k] == i as usize;
                        if k < prev.len() {
                            assert(prev[k] == i as usize);
                        }
                    }
                } else {
                    assert(cur[prev.len() as int] == i as usize);
                }
            } else if i == n - 1 {
                assert(!prev.contains(i as usize));
            }
        }
    }
}

proof fn lemma_jobs_and_skips(
    m0: Map<(Seq<char>, Seq<char>), (Option<Seq<char>>, Seq<char>)>,
    obs: Seq<ObservedSetting>,
    n: nat,
)
    requires
        n <= obs.len(),
    ensures
        plan_fold(m0, obs, n).1.len() + unchanged_spec(obs, n).len() == n,
    decreases n,
{
    if n > 0 {
        lemma_jobs_and_skips(m0, obs, (n - 1) as nat);
    }
}

/// `apply` skips exactly the settings that the system already holds at their desired
/// text (an unset key counting as empty), and writes one job for each of the others:
/// a position is among the skipped ones exactly when the texts are equal, and the
/// jobs and the skipped settings together number the observed settings.
pub proof fn lemma_apply_skips_exactly_the_settled(
    m0: Map<(Seq<char>, Seq<char>), (Option<Seq<char>>, Seq<char>)>,
    obs: Seq<ObservedSetting>,
)
    requires
        obs.len() <= usize::MAX,
    ensures
        forall|i: int|
            0 <= i < obs.len() ==> (unchanged_spec(obs, obs.len()).contains(i as usize) <==> current_or_empty(
                (#[trigger] obs[i]).current,
            ) == config_text(obs[i].value)),
        forall|x: usize| #[trigger] unchanged_spec(obs, obs.len()).contains(x) ==> x < obs.len(),
        plan_fold(m0, obs, obs.len()).1.len() + unchanged_spec(obs, obs.len()).len() == obs.len(),
{
    lemma_unchanged_members(obs, obs.len());
    lemma_jobs_and_skips(m0, obs, obs.len());
}

} // verus!
