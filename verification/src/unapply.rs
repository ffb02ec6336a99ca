//! The decisions of `cutler unapply`: which recorded settings get their original value
//! back and which are removed, grouped by domain.

use vstd::prelude::*;
use crate::batch::{add_to_group, group_fold, group_map, groups_distinct, lemma_group_fold_member, DomainKey};
use crate::config::{config_text, ConfigValue};
use crate::domains::{pref_domain, pref_domain_spec, PrefDomain};
use crate::apply::{
    apply_outcome, first_change, is_changed, lemma_apply_records_change, lemma_fold_jobs_grow, lemma_fold_stays_removed,
    lemma_job_origin, lemma_jobs_distinct,
    observed_distinct, plan_fold, ObservedSetting,
};
use crate::domains::opt_view;
use crate::snapshot::{lemma_snapshot_map_has, setting_key, setting_record, SettingState};
use crate::text::{int_text, lemma_int_text_parses_back, owned, parse_i64, parse_i64_spec, str_eq};

verus! {

/// The configured value that a recorded original text stands for: `true`/`false` as booleans, a decimal `i64` as an integer,
/// else a float where the text reads as one, else the text as a string.
pub open spec fn text_value_spec(s: Seq<char>, reads_as_float: bool, v: ConfigValue) -> bool {
    if s == "true"@ {
        v == ConfigValue::Boolean(true)
    } else if s == "false"@ {
        v == ConfigValue::Boolean(false)
    } else if parse_i64_spec(s) is Some {
        v == ConfigValue::Integer(parse_i64_spec(s)->0)
    } else if reads_as_float {
        v is Float && v->Float_0@ == s
    } else {
        v is String && v->String_0@ == s
    }
}

/// Turns a recorded text back into a value. Whether the text
/// reads as a float is decided by the caller, which parses it as an `f64`.
pub fn string_to_config_value(s: &str, reads_as_float: bool) -> (r: ConfigValue)
    ensures
        text_value_spec(s@, reads_as_float, r),
{
    if str_eq(s, "true") {
        ConfigValue::Boolean(true)
    } else if str_eq(s, "false") {
        ConfigValue::Boolean(false)
    } else {
        match parse_i64(s) {
            Some(i) => ConfigValue::Integer(i),
            None => if reads_as_float {
                ConfigValue::Float(owned(s))
            } else {
                ConfigValue::String(owned(s))
            },
        }
    }
}

/// The `(domain, position)` pairs of the last `n` snapshot entries, taken from the
/// last entry backwards, of those that have an original value (`restore`) or of
/// those that have none (`!restore`).
pub open spec fn undo_pairs(ss: Seq<SettingState>, restore: bool, n: nat) -> Seq<(DomainKey, usize)>
    decreases n,
{
    if n == 0 || n > ss.len() {
        Seq::empty()
    } else {
        let i = ss.len() - n;
        let prev = undo_pairs(ss, restore, (n - 1) as nat);
        if (ss[i].original_value is Some) == restore {
            prev.push((pref_domain_spec(ss[i].domain@), i as usize))
        } else {
            prev
        }
    }
}

/// What `unapply` does with a snapshot: the entries whose original value is written
/// back, and the entries whose key is removed, each grouped by defaults domain; within
/// a domain, later entries come first.
pub struct UnapplyPlan {
    pub restores: Vec<(PrefDomain, Vec<usize>)>,
    pub deletes: Vec<(PrefDomain, Vec<usize>)>,
}

/// Plans `unapply` over the snapshot's entries, in reverse order.
pub fn plan_unapply(settings: &Vec<SettingState>) -> (r: UnapplyPlan)
    ensures
        groups_distinct(r.restores@),
        groups_distinct(r.deletes@),
        group_map(r.restores@) == group_fold(undo_pairs(settings@, true, settings@.len())),
        group_map(r.deletes@) == group_fold(undo_pairs(settings@, false, settings@.len())),
{
    let mut restores: Vec<(PrefDomain, Vec<usize>)> = Vec::new();
    let mut deletes: Vec<(PrefDomain, Vec<usize>)> = Vec::new();
    let n = settings.len();
    let mut done: usize = 0;
    while done < n
        invariant
            n == settings@.len(),
            done <= n,
            groups_distinct(restores@),
            groups_distinct(deletes@),
            group_map(restores@) == group_fold(undo_pairs(settings@, true, done as nat)),
            group_map(deletes@) == group_fold(undo_pairs(settings@, false, done as nat)),
        decreases n - done,
    {
        let i = n - 1 - done;
        let s = &settings[i];
        let d = pref_domain(s.domain.as_str());
        proof {
            let nd = (done + 1) as nat;
            assert(settings@.len() - nd == i);
            if settings@[i as int].original_value is Some {
                assert(undo_pairs(settings@, true, nd).drop_last() =~= undo_pairs(settings@, true, done as nat));
                assert(undo_pairs(settings@, false, nd) =~= undo_pairs(settings@, false, done as nat));
            } else {
                assert(undo_pairs(settings@, false, nd).drop_last() =~= undo_pairs(settings@, false, done as nat));
                assert(undo_pairs(settings@, true, nd) =~= undo_pairs(settings@, true, done as nat));
            }
        }
        if s.original_value.is_some() {
            add_to_group(&mut restores, d, i);
        } else {
            add_to_group(&mut deletes, d, i);
        }
        done = done + 1;
    }
    UnapplyPlan { restores, deletes }
}

/// The dry-run note for a restore: `Would restore setting 'k' for d`.
pub fn restore_message(domain: &PrefDomain, key: &str) -> (r: String)
    ensures
        r@ == "Would restore setting '"@ + key@ + "' for "@ + domain.spec_display(),
{
    let mut m = owned("Would restore setting '");
    m.append(key);
    m.append("' for ");
    let d = domain.display_name();
    m.append(d.as_str());
    m
}

/// The dry-run note for a removal: `Would remove setting 'k' for d`.
pub fn remove_message(domain: &PrefDomain, key: &str) -> (r: String)
    ensures
        r@ == "Would remove setting '"@ + key@ + "' for "@ + domain.spec_display(),
{
    let mut m = owned("Would remove setting '");
    m.append(key);
    m.append("' for ");
    let d = domain.display_name();
    m.append(d.as_str());
    m
}


proof fn lemma_undo_pairs_member(ss: Seq<SettingState>, restore: bool, n: nat, k: DomainKey, x: usize)
    requires
        n <= ss.len(),
        ss.len() <= usize::MAX,
    ensures
        undo_pairs(ss, restore, n).contains((k, x)) <==> (ss.len() - n <= x < ss.len() && (
        ss[x as int].original_value is Some) == restore && k == pref_domain_spec(
            ss[x as int].domain@,
        )),
    decreases n,
{
    if n > 0 {
        let i = ss.len() - n;
        let prev = undo_pairs(ss, restore, (n - 1) as nat);
        lemma_undo_pairs_member(ss, restore, (n - 1) as nat, k, x);
        if (ss[i].original_value is Some) == restore {
            let cur = prev.push((pref_domain_spec(ss[i].domain@), i as usize));
            assert(undo_pairs(ss, restore, n) == cur);
            if cur.contains((k, x)) {
                let j = choose|j: int| 0 <= j < cur.len() && cur[j] == (k, x);
                if j < prev.len() {
                    assert(prev[j] == (k, x));
                }
            }
            if prev.contains((k, x)) {
                let j = choose|j: int| 0 <= j < prev.len() && prev[j] == (k, x);
                assert(cur[j] == (k, x));
            }
            if x == i && k == pref_domain_spec(ss[i].domain@) {
                assert(cur[prev.len() as int] == (k, x));
            }
        } else {
            assert(undo_pairs(ss, restore, n) == prev);
        }
    }
}

/// `unapply` handles every snapshot entry exactly once: the entry goes back to its
/// original value, in its domain's group of restores, when one is recorded; else its
/// key is removed, in its domain's group of deletions.
pub proof fn lemma_unapply_covers_snapshot(ss: Seq<SettingState>, i: int)
    requires
        0 <= i < ss.len(),
        ss.len() <= usize::MAX,
    ensures
        ({
            let k = pref_domain_spec(ss[i].domain@);
            let restores = group_fold(undo_pairs(ss, true, ss.len()));
            let deletes = group_fold(undo_pairs(ss, false, ss.len()));
            let in_restores = restores.contains_key(k) && restores[k].contains(i as usize);
            let in_deletes = deletes.contains_key(k) && deletes[k].contains(i as usize);
            &&& in_restores <==> ss[i].original_value is Some
            &&& in_deletes <==> ss[i].original_value is None
        }),
{
    let k = pref_domain_spec(ss[i].domain@);
    lemma_group_fold_member(undo_pairs(ss, true, ss.len()), k, i as usize);
    lemma_group_fold_member(undo_pairs(ss, false, ss.len()), k, i as usize);
    lemma_undo_pairs_member(ss, true, ss.len(), k, i as usize);
    lemma_undo_pairs_member(ss, false, ss.len(), k, i as usize);
}


/// A recorded integer reads back as the same integer: the text that integers are
/// rendered as (`normalize`, `render_pref`) turns back into that integer value when
/// `unapply` restores it.
pub proof fn lemma_integer_text_reads_back(i: i64, reads_as_float: bool, v: ConfigValue)
    requires
        text_value_spec(int_text(i as int), reads_as_float, v),
    ensures
        v == ConfigValue::Integer(i),
{
    lemma_int_text_parses_back(i);
    reveal_strlit("true");
    reveal_strlit("false");
    let t = int_text(i as int);
    if t == "true"@ {
        assert(t[0] == 't');
        assert(parse_i64_spec(t) is None);
    }
    if t == "false"@ {
        assert(t[0] == 'f');
        assert(parse_i64_spec(t) is None);
    }
}


/// `unapply` undoes `apply`. Take a setting that an apply changed (configured
/// settings distinct) and the snapshot that the apply wrote. The snapshot holds exactly
/// one entry for the setting, recording as original value the value the setting had
/// before cutler first applied it: the value read before this apply when the old
/// snapshot did not hold the setting, else the original that the old snapshot
/// recorded. `unapply` of that snapshot writes this value back when there is one, and
/// removes the key exactly when the setting was unset.
pub proof fn lemma_unapply_reverts_apply(
    m0: Map<(Seq<char>, Seq<char>), (Option<Seq<char>>, Seq<char>)>,
    obs: Seq<ObservedSetting>,
    jobs: Seq<((Seq<char>, Seq<char>), ConfigValue, bool, Option<Seq<char>>, Seq<char>)>,
    ss: Seq<SettingState>,
    i: int,
)
    requires
        observed_distinct(obs),
        0 <= i < obs.len(),
        is_changed(obs[i]),
        apply_outcome(m0, obs, jobs, ss),
        ss.len() <= usize::MAX,
    ensures
        ({
            let k = (obs[i].domain@, obs[i].key@);
            let before = if m0.contains_key(k) {
                m0[k].0
            } else {
                opt_view(obs[i].current)
            };
            let d = pref_domain_spec(obs[i].domain@);
            let restores = group_fold(undo_pairs(ss, true, ss.len()));
            let deletes = group_fold(undo_pairs(ss, false, ss.len()));
            exists|j: int|
                #![trigger ss[j]]
                0 <= j < ss.len() && setting_key(ss[j]) == k && opt_view(ss[j].original_value)
                    == before && ((restores.contains_key(d) && restores[d].contains(j as usize))
                    <==> before is Some) && ((deletes.contains_key(d) && deletes[d].contains(
                    j as usize,
                )) <==> before is None) && (forall|j2: int|
                    0 <= j2 < ss.len() && setting_key(#[trigger] ss[j2]) == k ==> j2 == j)
        }),
{
    let k = (obs[i].domain@, obs[i].key@);
    let before = if m0.contains_key(k) {
        m0[k].0
    } else {
        opt_view(obs[i].current)
    };
    let f = plan_fold(m0, obs, obs.len());
    let kept = ss.len() - jobs.len();
    lemma_apply_records_change(m0, obs, i);
    let t = (k, obs[i].value, m0.contains_key(k), before, config_text(obs[i].value));
    assert(f.1.contains(t));
    let q = choose|q: int| 0 <= q < f.1.len() && f.1[q] == t;
    let j = kept + q;
    assert(setting_key(ss[j]) == jobs[q].0);
    assert(setting_record(ss[j]) == (jobs[q].3, jobs[q].4));
    lemma_unapply_covers_snapshot(ss, j);
    lemma_jobs_distinct(m0, obs, obs.len());
    assert forall|j2: int| 0 <= j2 < ss.len() && setting_key(#[trigger] ss[j2]) == k implies j2 == j by {
        if j2 < kept {
            let kept_part = ss.take(kept);
            assert(kept_part[j2] == ss[j2]);
            lemma_snapshot_map_has(kept_part, j2);
        } else {
            let q2 = j2 - kept;
            assert(setting_key(ss[kept + q2]) == jobs[q2].0);
            if q2 != q {
                if q2 < q {
                    assert(f.1[q2].0 != f.1[q].0);
                } else {
                    assert(f.1[q].0 != f.1[q2].0);
                }
            }
        }
    }
    assert(0 <= j < ss.len() && setting_key(ss[j]) == k && opt_view(ss[j].original_value) == before);
}

/// `unapply` undoes `apply`, also where one setting is configured more than once (as
/// under `finder` and under `com.apple.finder`). Take a setting that an apply found
/// changed, read alike wherever it is configured, and the snapshot that the apply
/// wrote; where the old snapshot already held the setting, let it be found changed
/// once. The new snapshot holds an entry for the setting, and every entry for it
/// records as original value the value the setting had before cutler first applied
/// it: the value read before this apply when the old snapshot did not hold the
/// setting, else the original that the old snapshot recorded. `unapply` of that
/// snapshot writes this value back when there is one, and removes the key exactly
/// when the setting was unset.
pub proof fn lemma_unapply_restores_value_before(
    m0: Map<(Seq<char>, Seq<char>), (Option<Seq<char>>, Seq<char>)>,
    obs: Seq<ObservedSetting>,
    jobs: Seq<((Seq<char>, Seq<char>), ConfigValue, bool, Option<Seq<char>>, Seq<char>)>,
    ss: Seq<SettingState>,
    i: int,
)
    requires
        0 <= i < obs.len(),
        is_changed(obs[i]),
        forall|a: int|
            0 <= a < obs.len() && (#[trigger] obs[a].domain@, obs[a].key@) == (obs[i].domain@, obs[i].key@)
                ==> opt_view(obs[a].current) == opt_view(obs[i].current),
        m0.contains_key((obs[i].domain@, obs[i].key@)) ==> forall|a: int|
            0 <= a < obs.len() && is_changed(#[trigger] obs[a]) && (obs[a].domain@, obs[a].key@) == (
            obs[i].domain@,
            obs[i].key@,
        ) ==> a == i,
        apply_outcome(m0, obs, jobs, ss),
        ss.len() <= usize::MAX,
    ensures
        ({
            let k = (obs[i].domain@, obs[i].key@);
            let before = if m0.contains_key(k) {
                m0[k].0
            } else {
                opt_view(obs[i].current)
            };
            let d = pref_domain_spec(obs[i].domain@);
            let restores = group_fold(undo_pairs(ss, true, ss.len()));
            let deletes = group_fold(undo_pairs(ss, false, ss.len()));
            &&& exists|j: int| 0 <= j < ss.len() && setting_key(#[trigger] ss[j]) == k
            &&& forall|j: int|
                0 <= j < ss.len() && setting_key(#[trigger] ss[j]) == k ==> {
                    &&& opt_view(ss[j].original_value) == before
                    &&& (restores.contains_key(d) && restores[d].contains(j as usize)) <==> before is Some
                    &&& (deletes.contains_key(d) && deletes[d].contains(j as usize)) <==> before is None
                }
        }),
{
    let k = (obs[i].domain@, obs[i].key@);
    let before = if m0.contains_key(k) {
        m0[k].0
    } else {
        opt_view(obs[i].current)
    };
    let d = pref_domain_spec(obs[i].domain@);
    let f = plan_fold(m0, obs, obs.len());
    let kept = ss.len() - jobs.len();
    // The change at `i` leaves a job and takes the setting out of the kept entries.
    let q0 = plan_fold(m0, obs, i as nat).1.len() as int;
    lemma_fold_jobs_grow(m0, obs, (i + 1) as nat, obs.len());
    assert(f.1[q0] == plan_fold(m0, obs, (i + 1) as nat).1[q0]);
    assert(f.1[q0].0 == k);
    assert(setting_key(ss[kept + q0]) == k);
    lemma_fold_stays_removed(m0, obs, (i + 1) as nat, obs.len(), k);
    assert forall|j: int| 0 <= j < ss.len() && setting_key(#[trigger] ss[j]) == k implies {
        &&& opt_view(ss[j].original_value) == before
        &&& (group_fold(undo_pairs(ss, true, ss.len())).contains_key(d) && group_fold(undo_pairs(ss, true, ss.len()))[d].contains(j as usize)) <==> before is Some
        &&& (group_fold(undo_pairs(ss, false, ss.len())).contains_key(d) && group_fold(undo_pairs(ss, false, ss.len()))[d].contains(j as usize)) <==> before is None
    } by {
        if j < kept {
            let kept_part = ss.take(kept);
            assert(kept_part[j] == ss[j]);
            lemma_snapshot_map_has(kept_part, j);
        }
        let q = j - kept;
        assert(setting_key(ss[kept + q]) == jobs[q].0);
        assert(setting_record(ss[kept + q]) == (jobs[q].3, jobs[q].4));
        lemma_job_origin(m0, obs, obs.len(), q);
        let a = choose|a: int|
            #![trigger obs[a]]
            0 <= a < obs.len() && is_changed(obs[a]) && f.1[q].0 == (obs[a].domain@, obs[a].key@) && (
            !m0.contains_key(f.1[q].0) ==> f.1[q].3 == opt_view(obs[a].current)) && (m0.contains_key(
            f.1[q].0) && first_change(obs, a) ==> f.1[q].3 == m0[f.1[q].0].0);
        if m0.contains_key(k) {
            assert(a == i);
            assert forall|b: int| 0 <= b < a && is_changed(#[trigger] obs[b]) implies (obs[b].domain@, obs[b].key@) != (obs[a].domain@, obs[a].key@) by {}
        } else {
            assert(opt_view(obs[a].current) == opt_view(obs[i].current));
        }
        lemma_unapply_covers_snapshot(ss, j);
    }
}

} // verus!
