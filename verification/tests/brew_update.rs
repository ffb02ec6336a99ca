use cutler::brew::{
    all_missing, brew_diff, brew_display, installed_names, brew_install_warnings, brew_section, brew_status_lines, fetch_args,
    names_in, plan_brew_install, BrewDiff,
};
use cutler::config::ConfigValue;
use cutler::logging::LogLevel;
use cutler::update::{
    compare_versions, latest_version_from_body, latest_version_tag, ReleaseError, self_update_decision, update_report, SelfUpdateDecision,
    VersionCheckError, VersionOrder,
};

fn s(x: &str) -> String {
    x.to_string()
}

fn v(xs: &[&str]) -> Vec<String> {
    xs.iter().map(|x| x.to_string()).collect()
}

#[test]
fn brew_diff_lists() {
    let d = brew_diff(
        &v(&["wget", "jq", "git"]),
        &v(&["firefox"]),
        &v(&["homebrew/cask-fonts"]),
        &v(&["git", "htop"]),
        &v(&["firefox", "iterm2"]),
        &v(&[]),
    );
    assert_eq!(d.missing_formulae, v(&["wget", "jq"]));
    assert_eq!(d.extra_formulae, v(&["htop"]));
    assert!(d.missing_casks.is_empty());
    assert_eq!(d.extra_casks, v(&["iterm2"]));
    assert_eq!(d.missing_taps, v(&["homebrew/cask-fonts"]));
    assert!(d.extra_taps.is_empty());
}

#[test]
fn all_missing_plans_the_whole_configuration() {
    let d = all_missing(&v(&["git", "jq"]), &v(&["firefox"]), &v(&["homebrew/cask-fonts"]));
    assert_eq!(d.missing_formulae, v(&["git", "jq"]));
    assert_eq!(d.missing_casks, v(&["firefox"]));
    assert_eq!(d.missing_taps, v(&["homebrew/cask-fonts"]));
    assert!(d.extra_formulae.is_empty() && d.extra_casks.is_empty() && d.extra_taps.is_empty());
    let plan = plan_brew_install(&d);
    assert_eq!(plan.install_tasks, vec![v(&["install", "git"]), v(&["install", "jq"]), v(&["install", "--cask", "firefox"])]);
    assert_eq!(plan.taps, v(&["homebrew/cask-fonts"]));
}

#[test]
fn installed_names_from_brew_output() {
    assert_eq!(installed_names("git\njq\n"), v(&["git", "jq"]));
    assert_eq!(installed_names("  git \r\n\n\t\njq"), v(&["git", "jq"]));
    assert_eq!(installed_names("homebrew/core\u{a0}\n \u{3000}\n"), v(&["homebrew/core"]));
    assert!(installed_names("").is_empty());
    assert!(installed_names("\n \n").is_empty());
    assert_eq!(installed_names("a b\n"), v(&["a b"]));
}

#[test]
fn diff_covers_every_configured_name() {
    let configured = v(&["git", "jq", "wget"]);
    let installed = v(&["jq", "node"]);
    let d = brew_diff(&configured, &v(&[]), &v(&[]), &installed, &v(&[]), &v(&[]));
    for name in &configured {
        assert!(installed.contains(name) || d.missing_formulae.contains(name));
    }
    for name in &d.missing_formulae {
        assert!(configured.contains(name) && !installed.contains(name));
    }
}

#[test]
fn brew_install_plan_orders_formulae_then_casks() {
    let mut d = BrewDiff::empty();
    d.missing_formulae = v(&["wget"]);
    d.missing_casks = v(&["firefox", "iterm2"]);
    d.missing_taps = v(&["a/b"]);
    let p = plan_brew_install(&d);
    assert_eq!(p.install_tasks, vec![v(&["install", "wget"]), v(&["install", "--cask", "firefox"]), v(&["install", "--cask", "iterm2"])]);
    assert_eq!(p.fetch_formulae, v(&["wget"]));
    assert_eq!(p.fetch_casks, v(&["firefox", "iterm2"]));
    assert_eq!(p.taps, v(&["a/b"]));
    assert_eq!(brew_display(&p.install_tasks[1]), "brew install --cask firefox");
}

#[test]
fn fetch_args_cases() {
    assert_eq!(fetch_args("wget", false, false), v(&["fetch", "wget", "--quiet"]));
    assert_eq!(fetch_args("wget", false, true), v(&["fetch", "wget"]));
    assert_eq!(fetch_args("firefox", true, false), v(&["fetch", "--cask", "firefox", "--quiet"]));
}

#[test]
fn brew_status_lines_cases() {
    let lines = brew_status_lines(&BrewDiff::empty());
    assert_eq!(lines.len(), 1);
    assert!(matches!(lines[0].0, LogLevel::Fruitful));
    assert_eq!(lines[0].1, "All Homebrew things match your configuration.");
    let mut d = BrewDiff::empty();
    d.missing_formulae = v(&["a", "b"]);
    d.extra_taps = v(&["t"]);
    let lines = brew_status_lines(&d);
    assert_eq!(lines.len(), 2);
    assert_eq!(lines[0].1, "\x1b[31mFormulae missing:\x1b[0m a, b");
    assert_eq!(lines[1].1, "\x1b[31mExtra tapped:\x1b[0m t");
}

#[test]
fn brew_install_warning_lines() {
    assert!(brew_install_warnings(&BrewDiff::empty()).is_empty());
    let mut d = BrewDiff::empty();
    d.extra_formulae = v(&["htop"]);
    d.extra_taps = v(&["x/y"]);
    let w = brew_install_warnings(&d);
    assert_eq!(w.len(), 3);
    assert_eq!(w[0].1, "Extra installed formulae not in config: [\"htop\"]");
    assert_eq!(w[1].1, "Extra taps not in config: [\"x/y\"]");
    assert!(w[2].0.is_none());
    assert_eq!(w[2].1, "\nRun `cutler brew backup` to synchronize your config with the system.");
}

#[test]
fn brew_section_and_names() {
    let cfg = ConfigValue::Table(vec![
        (s("brew"), ConfigValue::Table(vec![
            (s("casks"), ConfigValue::Array(vec![ConfigValue::String(s("firefox")), ConfigValue::Integer(3)])),
            (s("formulae"), ConfigValue::Array(vec![ConfigValue::String(s("wget"))])),
        ])),
    ]);
    let sec = brew_section(&cfg).unwrap();
    assert_eq!(names_in(sec, "formulae"), v(&["wget"]));
    assert_eq!(names_in(sec, "casks"), v(&["firefox"]));
    assert!(names_in(sec, "taps").is_empty());
    assert!(brew_section(&ConfigValue::Table(vec![])).is_none());
    assert!(brew_section(&ConfigValue::Table(vec![(s("brew"), ConfigValue::Integer(1))])).is_none());
}

#[test]
fn compare_versions_cases() {
    assert!(matches!(compare_versions("1.2.3", "1.3.0"), Ok(VersionOrder::Less)));
    assert!(matches!(compare_versions("1.2.3", "1.2.3"), Ok(VersionOrder::Equal)));
    assert!(matches!(compare_versions("2.0.0", "1.9.9"), Ok(VersionOrder::Greater)));
    assert!(matches!(compare_versions("1.0.0-alpha", "1.0.0"), Ok(VersionOrder::Less)));
    assert!(matches!(compare_versions("1.0", "1.0.0"), Err(VersionCheckError::CurrentUnparsable)));
    assert!(matches!(compare_versions("1.0.0", "v1.0.0"), Err(VersionCheckError::LatestUnparsable)));
}

#[test]
fn latest_version_tag_cases() {
    assert_eq!(latest_version_tag(Some(s("v1.2.3")), Some(s("Release 1"))), Some(s("1.2.3")));
    assert_eq!(latest_version_tag(Some(s("vv2.0.0")), None), Some(s("2.0.0")));
    assert_eq!(latest_version_tag(None, Some(s("v0.9.1"))), Some(s("0.9.1")));
    assert_eq!(latest_version_tag(Some(s("vvv")), None), Some(s("")));
    assert_eq!(latest_version_tag(None, None), None);
}

#[test]
fn latest_version_from_release_bodies() {
    assert!(matches!(latest_version_from_body(r#"{"tag_name":"v1.2.3","name":"Release"}"#), Ok(t) if t == "1.2.3"));
    assert!(matches!(latest_version_from_body(r#"{"name":"v0.9"}"#), Ok(t) if t == "0.9"));
    assert!(matches!(latest_version_from_body(r#"{"tag_name":5,"name":"vv1.0.0"}"#), Ok(t) if t == "1.0.0"));
    assert!(matches!(latest_version_from_body(r#"{"tag_name":null}"#), Err(ReleaseError::NoTag)));
    assert!(matches!(latest_version_from_body("{}"), Err(ReleaseError::NoTag)));
    assert!(matches!(latest_version_from_body(r#"["v1.0.0"]"#), Err(ReleaseError::NoTag)));
    assert!(matches!(latest_version_from_body("not json"), Err(ReleaseError::Unparsable)));
    assert!(matches!(latest_version_from_body(""), Err(ReleaseError::Unparsable)));
}

#[test]
fn update_report_cases() {
    assert!(update_report(&VersionOrder::Less, "1.0.0", "1.1.0", true).is_empty());
    let up = update_report(&VersionOrder::Less, "1.0.0", "1.1.0", false);
    assert_eq!(up.len(), 8);
    assert_eq!(up[0].1, "\n\x1b[1mUpdate available:\x1b[0m 1.0.0 \u{2192} 1.1.0");
    let eq = update_report(&VersionOrder::Equal, "1.0.0", "1.0.0", false);
    assert_eq!(eq[0].1, "You are using the latest version.");
    let ahead = update_report(&VersionOrder::Greater, "2.0.0", "1.0.0", false);
    assert_eq!(ahead[0].1, "You are on a development version (2.0.0) ahead of latest release (1.0.0).");
}

#[test]
fn self_update_decisions() {
    assert!(matches!(self_update_decision("/opt/homebrew/bin/cutler", None, None, "aarch64"), SelfUpdateDecision::PackageManaged));
    assert!(matches!(self_update_decision("/c/bin/cutler", Some(s("/c")), Some(s("/h")), "aarch64"), SelfUpdateDecision::PackageManaged));
    assert!(matches!(self_update_decision("/h/.cargo/bin/cutler", None, Some(s("/h")), "x86"), SelfUpdateDecision::PackageManaged));
    assert!(matches!(self_update_decision("/usr/local/bin/cutler", None, Some(s("/h")), "x86_64"), SelfUpdateDecision::Update(ref t) if t == "darwin-x86_64"));
    assert!(matches!(self_update_decision("/usr/local/bin/cutler", None, None, "aarch64"), SelfUpdateDecision::Update(ref t) if t == "darwin-arm64"));
    assert!(matches!(self_update_decision("/usr/local/bin/cutler", None, None, "riscv64"), SelfUpdateDecision::UnsupportedArch));
}
