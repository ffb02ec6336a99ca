use cutler::apply::{
    configured_settings, domains_to_check, dry_run_job_message, group_jobs, job_message, plan_apply,
    skip_message, ApplyAction, ObservedSetting,
};
use cutler::config::ConfigValue;
use cutler::domains::PrefDomain;
use cutler::snapshot::{index_snapshot, SettingState};

fn s(x: &str) -> String {
    x.to_string()
}

fn obs(d: &str, k: &str, v: ConfigValue, cur: Option<&str>) -> ObservedSetting {
    ObservedSetting { domain: s(d), key: s(k), value: v, current: cur.map(s) }
}

fn state(d: &str, k: &str, orig: Option<&str>, new: &str) -> SettingState {
    SettingState { domain: s(d), key: s(k), original_value: orig.map(s), new_value: s(new) }
}

#[test]
fn configured_settings_use_effective_names() {
    let ds = vec![
        (s("dock"), vec![(s("autohide"), ConfigValue::Boolean(true)), (s("tilesize"), ConfigValue::Integer(46))]),
        (s("NSGlobalDomain.com.apple.mouse"), vec![(s("scaling"), ConfigValue::Float(s("2.0")))]),
    ];
    let cs = configured_settings(ds);
    assert_eq!(cs.len(), 3);
    assert_eq!((cs[0].domain.as_str(), cs[0].key.as_str()), ("com.apple.dock", "autohide"));
    assert_eq!((cs[1].domain.as_str(), cs[1].key.as_str()), ("com.apple.dock", "tilesize"));
    assert_eq!((cs[2].domain.as_str(), cs[2].key.as_str()), ("NSGlobalDomain", "com.apple.mouse.scaling"));
}

#[test]
fn domains_to_check_cases() {
    let ds = vec![(s("dock"), vec![]), (s("NSGlobalDomain"), vec![]), (s("com.apple.finder"), vec![])];
    assert_eq!(domains_to_check(&ds, false), vec![s("com.apple.dock")]);
    assert!(domains_to_check(&ds, true).is_empty());
}

#[test]
fn apply_plans_only_changed_settings() {
    let observed = vec![
        obs("com.apple.dock", "autohide", ConfigValue::Boolean(true), Some("1")),
        obs("com.apple.dock", "tilesize", ConfigValue::Integer(46), Some("64")),
        obs("com.apple.finder", "ShowPathbar", ConfigValue::Boolean(true), None),
    ];
    let plan = plan_apply(observed, vec![]);
    assert_eq!(plan.jobs.len(), 2);
    assert_eq!(plan.jobs[0].key, "tilesize");
    assert_eq!(plan.jobs[0].new_value, "46");
    assert!(matches!(plan.jobs[0].action, ApplyAction::Applying));
    assert_eq!(plan.jobs[0].original, Some(s("64")));
    assert_eq!(plan.jobs[1].key, "ShowPathbar");
    assert_eq!(plan.jobs[1].original, None);
    assert_eq!(plan.jobs[1].new_value, "1");
    assert_eq!(plan.snapshot.len(), 2);
    assert_eq!(plan.snapshot[0].key, "tilesize");
    assert_eq!(plan.snapshot[0].new_value, "46");
    assert_eq!(plan.snapshot[0].original_value, Some(s("64")));
    assert_eq!(plan.snapshot[1].key, "ShowPathbar");
    assert_eq!(plan.snapshot[1].original_value, None);
}

#[test]
fn law_unapply_reverts_apply() {
    let observed = vec![
        obs("com.apple.dock", "orientation", ConfigValue::String(s("left")), Some("y")),
        obs("com.apple.dock", "autohide", ConfigValue::Boolean(true), None),
        obs("com.apple.finder", "kept", ConfigValue::Integer(3), Some("9")),
    ];
    // "kept" was applied before, when it read "2"
    let old = vec![state("com.apple.finder", "kept", Some("2"), "8")];
    let plan = plan_apply(observed, old);
    let undo = cutler::unapply::plan_unapply(&plan.snapshot);
    let restored: Vec<(String, Option<String>)> = undo
        .restores
        .iter()
        .flat_map(|(_, idx)| idx.iter().map(|&i| (plan.snapshot[i].key.clone(), plan.snapshot[i].original_value.clone())))
        .collect();
    let deleted: Vec<String> = undo
        .deletes
        .iter()
        .flat_map(|(_, idx)| idx.iter().map(|&i| plan.snapshot[i].key.clone()))
        .collect();
    assert!(restored.contains(&(s("orientation"), Some(s("y")))));
    assert!(restored.contains(&(s("kept"), Some(s("2")))));
    assert_eq!(restored.len(), 2);
    assert_eq!(deleted, vec![s("autohide")]);
}

#[test]
fn law_unapply_restores_value_before_when_configured_twice() {
    // `finder` and `com.apple.finder` both name the Finder's domain
    let observed = vec![
        obs("com.apple.finder", "ShowPathbar", ConfigValue::Boolean(true), Some("0")),
        obs("com.apple.finder", "ShowPathbar", ConfigValue::Integer(2), Some("0")),
        obs("com.apple.finder", "AppleShowAllFiles", ConfigValue::Boolean(true), None),
        obs("com.apple.finder", "AppleShowAllFiles", ConfigValue::Integer(1), None),
    ];
    let plan = plan_apply(observed, vec![]);
    let undo = cutler::unapply::plan_unapply(&plan.snapshot);
    let restored: Vec<(String, Option<String>)> = undo
        .restores
        .iter()
        .flat_map(|(_, idx)| idx.iter().map(|&i| (plan.snapshot[i].key.clone(), plan.snapshot[i].original_value.clone())))
        .collect();
    let deleted: Vec<String> = undo
        .deletes
        .iter()
        .flat_map(|(_, idx)| idx.iter().map(|&i| plan.snapshot[i].key.clone()))
        .collect();
    assert_eq!(restored, vec![(s("ShowPathbar"), Some(s("0"))), (s("ShowPathbar"), Some(s("0")))]);
    assert_eq!(deleted, vec![s("AppleShowAllFiles"), s("AppleShowAllFiles")]);
    assert!(plan
        .snapshot
        .iter()
        .filter(|e| e.key == "AppleShowAllFiles")
        .all(|e| e.original_value.is_none()));
}

#[test]
fn apply_unset_setting_with_empty_desired_is_unchanged() {
    let observed = vec![obs("com.apple.dock", "title", ConfigValue::String(s("")), None)];
    let plan = plan_apply(observed, vec![]);
    assert!(plan.jobs.is_empty());
}

#[test]
fn law_apply_keeps_originals_and_untouched_entries() {
    let old = vec![
        state("com.apple.dock", "tilesize", Some("36"), "40"),
        state("com.apple.dock", "orientation", Some("bottom"), "left"),
    ];
    let observed = vec![
        obs("com.apple.dock", "tilesize", ConfigValue::Integer(46), Some("40")),
        obs("com.apple.dock", "autohide", ConfigValue::Boolean(true), Some("1")),
    ];
    let plan = plan_apply(observed, old);
    assert_eq!(plan.jobs.len(), 1);
    assert!(matches!(plan.jobs[0].action, ApplyAction::Updating));
    assert_eq!(plan.jobs[0].original, Some(s("36")));
    // the untouched old entry stays, then the job's entry follows
    assert_eq!(plan.snapshot.len(), 2);
    assert_eq!(plan.snapshot[0].key, "orientation");
    assert_eq!(plan.snapshot[0].original_value, Some(s("bottom")));
    assert_eq!(plan.snapshot[1].key, "tilesize");
    assert_eq!(plan.snapshot[1].original_value, Some(s("36")));
    assert_eq!(plan.snapshot[1].new_value, "46");
}

#[test]
fn index_snapshot_later_entry_wins() {
    let old = vec![
        state("d", "k", Some("a"), "1"),
        state("d", "j", None, "2"),
        state("d", "k", Some("b"), "3"),
    ];
    let idx = index_snapshot(old);
    assert_eq!(idx.len(), 2);
    let k = idx.iter().find(|e| e.key == "k").unwrap();
    assert_eq!(k.original_value, Some(s("b")));
    assert_eq!(k.new_value, "3");
}

#[test]
fn group_jobs_by_domain() {
    let observed = vec![
        obs("com.apple.dock", "a", ConfigValue::Integer(1), None),
        obs("NSGlobalDomain", "b", ConfigValue::Integer(2), None),
        obs("com.apple.dock", "c", ConfigValue::Integer(3), None),
    ];
    let plan = plan_apply(observed, vec![]);
    let groups = group_jobs(&plan.jobs);
    assert_eq!(groups.len(), 2);
    assert!(matches!(&groups[0].0, PrefDomain::User(n) if n == "com.apple.dock"));
    assert_eq!(groups[0].1, vec![0, 2]);
    assert!(matches!(groups[1].0, PrefDomain::Global));
    assert_eq!(groups[1].1, vec![1]);
}

#[test]
fn apply_messages() {
    assert_eq!(skip_message("com.apple.dock", "autohide"), "Skipping unchanged com.apple.dock:autohide");
    let observed = vec![obs("com.apple.dock", "tilesize", ConfigValue::Integer(46), Some("64"))];
    let plan = plan_apply(observed, vec![state("com.apple.dock", "tilesize", None, "50")]);
    assert_eq!(job_message(&plan.jobs[0]), "Updating com.apple.dock:tilesize -> 46");
    assert_eq!(dry_run_job_message(&plan.jobs[0]), "Would Updating setting 'tilesize' for com.apple.dock");
}

#[test]
fn unchanged_settings_positions() {
    let observed = vec![
        obs("d", "a", ConfigValue::Boolean(true), Some("1")),
        obs("d", "b", ConfigValue::Boolean(true), Some("0")),
        obs("d", "c", ConfigValue::String(s("x")), Some("x")),
        obs("d", "e", ConfigValue::Integer(1), None),
    ];
    assert_eq!(cutler::apply::unchanged_settings(&observed), vec![0, 2]);
}

#[test]
fn law_apply_writes_only_changes() {
    let observed = vec![
        obs("d", "a", ConfigValue::Boolean(true), Some("1")),
        obs("d", "b", ConfigValue::Integer(5), Some("4")),
    ];
    let plan = plan_apply(observed, vec![]);
    assert_eq!(plan.jobs.len(), 1);
    assert_eq!((plan.jobs[0].key.as_str(), plan.jobs[0].new_value.as_str()), ("b", "5"));
}
