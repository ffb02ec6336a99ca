use cutler::apply::ObservedSetting;
use cutler::config::{render_pref, to_pref_value, ConfigValue};
use cutler::domains::PrefDomain;
use cutler::executor::{delete_outcome, effects_to_run, plan_delete};
use cutler::logging::{log_line, LogLevel};
use cutler::reset::{
    plan_reset, reset_done_message, reset_dry_message, reset_failed_message, reset_skip_message,
    reset_warnings, ResetStep,
};
use cutler::snapshot::SettingState;
use cutler::status::{status_outcomes, status_report};
use cutler::unapply::{plan_unapply, remove_message, restore_message};

fn s(x: &str) -> String {
    x.to_string()
}

fn obs(d: &str, k: &str, v: ConfigValue, cur: Option<&str>) -> ObservedSetting {
    ObservedSetting { domain: s(d), key: s(k), value: v, current: cur.map(s) }
}

fn state(d: &str, k: &str, orig: Option<&str>, new: &str) -> SettingState {
    SettingState { domain: s(d), key: s(k), original_value: orig.map(s), new_value: s(new) }
}

#[test]
fn unapply_plans_restores_and_deletes_in_reverse() {
    let snap = vec![
        state("com.apple.dock", "a", Some("1"), "2"),
        state("NSGlobalDomain", "b", None, "x"),
        state("com.apple.dock", "c", None, "y"),
        state("com.apple.dock", "d", Some("true"), "false"),
    ];
    let plan = plan_unapply(&snap);
    assert_eq!(plan.restores.len(), 1);
    assert!(matches!(&plan.restores[0].0, PrefDomain::User(n) if n == "com.apple.dock"));
    assert_eq!(plan.restores[0].1, vec![3, 0]);
    assert_eq!(plan.deletes.len(), 2);
    assert!(matches!(&plan.deletes[0].0, PrefDomain::User(n) if n == "com.apple.dock"));
    assert_eq!(plan.deletes[0].1, vec![2]);
    assert!(matches!(plan.deletes[1].0, PrefDomain::Global));
    assert_eq!(plan.deletes[1].1, vec![1]);
}

#[test]
fn law_unapply_covers_every_entry_once() {
    let snap = vec![
        state("com.apple.dock", "a", Some("1"), "2"),
        state("com.apple.finder", "b", None, "x"),
        state("com.apple.dock", "c", None, "y"),
    ];
    let plan = plan_unapply(&snap);
    let mut seen = vec![0; snap.len()];
    for (_, idx) in plan.restores.iter() {
        for &i in idx {
            assert!(snap[i].original_value.is_some());
            seen[i] += 1;
        }
    }
    for (_, idx) in plan.deletes.iter() {
        for &i in idx {
            assert!(snap[i].original_value.is_none());
            seen[i] += 1;
        }
    }
    assert_eq!(seen, vec![1, 1, 1]);
}

#[test]
fn unapply_messages() {
    assert_eq!(restore_message(&PrefDomain::Global, "k"), "Would restore setting 'k' for NSGlobalDomain");
    assert_eq!(
        remove_message(&PrefDomain::User(s("com.apple.dock")), "k"),
        "Would remove setting 'k' for com.apple.dock"
    );
}

#[test]
fn status_compares_with_not_set() {
    let observed = vec![
        obs("com.apple.dock", "autohide", ConfigValue::Boolean(true), Some("1")),
        obs("com.apple.dock", "tilesize", ConfigValue::Integer(46), None),
        obs("com.apple.dock", "odd", ConfigValue::String(s("Not set")), None),
    ];
    let out = status_outcomes(&observed);
    assert!(!out[0].differs);
    assert!(out[1].differs);
    assert_eq!(out[1].current, "Not set");
    assert_eq!(out[1].desired, "46");
    assert!(!out[2].differs);
}

#[test]
fn status_report_lines() {
    let observed = vec![
        obs("com.apple.dock", "autohide", ConfigValue::Boolean(true), Some("1")),
        obs("com.apple.dock", "tilesize", ConfigValue::Integer(46), Some("64")),
    ];
    let out = status_outcomes(&observed);
    let quiet = status_report(&out, false);
    assert_eq!(quiet.len(), 2);
    assert!(matches!(quiet[0].0, LogLevel::Info));
    assert_eq!(
        quiet[0].1,
        "\x1b[1mcom.apple.dock.tilesize: should be 46 (currently \x1b[31m64\x1b[0m)\x1b[0m"
    );
    assert_eq!(quiet[1].1, "Run `cutler apply` to apply these changes from your config.");
    let verbose = status_report(&out, true);
    assert_eq!(verbose.len(), 3);
    assert_eq!(verbose[0].1, "\x1b[32mcom.apple.dock.autohide: 1 (matches desired)\x1b[0m");
}

#[test]
fn status_report_all_match() {
    let observed = vec![obs("com.apple.dock", "autohide", ConfigValue::Boolean(true), Some("1"))];
    let r = status_report(&status_outcomes(&observed), false);
    assert_eq!(r.len(), 1);
    assert!(matches!(r[0].0, LogLevel::Fruitful));
    assert_eq!(r[0].1, "All settings already match your configuration.");
}

#[test]
fn law_applied_setting_is_settled() {
    let v = ConfigValue::Array(vec![ConfigValue::Integer(1), ConfigValue::Boolean(true)]);
    let written = render_pref(&to_pref_value(&v).ok().unwrap());
    let observed = vec![obs("com.apple.dock", "k", v, Some(&written))];
    assert!(!status_outcomes(&observed)[0].differs);
    let plan = cutler::apply::plan_apply(observed, vec![]);
    assert!(plan.jobs.is_empty());
}

#[test]
fn reset_deletes_only_set_keys() {
    let observed = vec![
        obs("com.apple.dock", "a", ConfigValue::Integer(1), Some("3")),
        obs("NSGlobalDomain", "b", ConfigValue::Integer(1), None),
        obs("NSGlobalDomain", "c", ConfigValue::Integer(1), Some("1")),
    ];
    let steps = plan_reset(&observed);
    assert!(matches!(&steps[0], ResetStep::Delete { domain: PrefDomain::User(n), key } if n == "com.apple.dock" && key == "a"));
    assert!(matches!(steps[1], ResetStep::Skip));
    assert!(matches!(&steps[2], ResetStep::Delete { domain: PrefDomain::Global, key } if key == "c"));
}

#[test]
fn reset_messages() {
    assert_eq!(reset_warnings(true).len(), 0);
    let w = reset_warnings(false);
    assert_eq!(w.len(), 2);
    assert_eq!(w[0].1, "This will DELETE all settings defined in your config file.");
    assert_eq!(reset_dry_message("NSGlobalDomain", "k"), "Would reset NSGlobalDomain.k to system default");
    assert_eq!(reset_done_message("d", "k"), "Reset d.k to system default");
    assert_eq!(reset_failed_message("d", "k", "boom"), "Failed to reset d.k: boom");
    assert_eq!(reset_skip_message("d", "k"), "Skipping d.k (not set)");
}

#[test]
fn delete_plan_and_outcome() {
    let dry = plan_delete("com.apple.dock", "k", "Removing", true, true);
    assert!(dry.target.is_none());
    assert_eq!(dry.notes[0].1, "Would Removing setting 'k' for com.apple.dock");
    let real = plan_delete("NSGlobalDomain", "k", "Removing", true, false);
    assert!(matches!(real.target, Some(PrefDomain::Global)));
    assert_eq!(real.notes[0].1, "Removing setting 'k' for NSGlobalDomain");
    assert!(plan_delete("d", "k", "Removing", false, false).notes.is_empty());
    let ok = delete_outcome("d", "k", "Removing", true, None);
    assert_eq!(ok[0].1, "Removing setting 'k' for d.");
    assert!(delete_outcome("d", "k", "Removing", false, None).is_empty());
    let failed = delete_outcome("d", "k", "Removing", false, Some(s("no such key")));
    assert!(matches!(failed[0].0, LogLevel::Error));
    assert_eq!(failed[0].1, "Failed to removing setting 'k' for d: no such key");
}

#[test]
fn log_lines() {
    assert_eq!(log_line(&LogLevel::Success, "ok"), "\x1b[32m[SUCCESS]\x1b[0m ok");
    assert_eq!(log_line(&LogLevel::Error, "bad"), "\x1b[31m[ERROR]\x1b[0m bad");
    assert_eq!(log_line(&LogLevel::Warning, "hm"), "\x1b[33m[WARN]\x1b[0m hm");
    assert_eq!(log_line(&LogLevel::Info, "fyi"), "\x1b[1m[INFO]\x1b[0m fyi");
    assert!(LogLevel::Error.to_stderr() && LogLevel::Warning.to_stderr());
    assert!(!LogLevel::Info.to_stderr() && !LogLevel::Success.to_stderr());
}

#[test]
fn log_lines_for_dry_run_and_summary() {
    assert_eq!(log_line(&LogLevel::Dry, "x"), "\x1b[33m[DRY-RUN]\x1b[0m x");
    assert_eq!(log_line(&LogLevel::Fruitful, "done"), "\u{1F34E} done");
}

#[test]
fn law_dry_run_changes_nothing() {
    assert!(effects_to_run(true, vec!["write", "delete", "tap"]).is_empty());
    assert_eq!(effects_to_run(false, vec!["write", "delete", "tap"]), vec!["write", "delete", "tap"]);
    let dry = plan_delete("com.apple.dock", "autohide", "Removing", false, true);
    assert!(dry.target.is_none());
}
