use cutler::config::ConfigValue;
use cutler::domains::{
    check_domain_exists, collect, effective, needs_prefix, pref_domain, CollectError, DomainError,
    PrefDomain,
};

fn s(x: &str) -> String {
    x.to_string()
}

fn table(entries: Vec<(&str, ConfigValue)>) -> ConfigValue {
    ConfigValue::Table(entries.into_iter().map(|(k, v)| (s(k), v)).collect())
}

fn find<'a>(
    ds: &'a [(String, Vec<(String, ConfigValue)>)],
    name: &str,
) -> Option<&'a Vec<(String, ConfigValue)>> {
    ds.iter().find(|(n, _)| n == name).map(|(_, t)| t)
}

#[test]
fn effective_global_domain_stays_global() {
    assert_eq!(effective("NSGlobalDomain", "AppleShowAllExtensions"), (s("NSGlobalDomain"), s("AppleShowAllExtensions")));
}

#[test]
fn effective_global_subdomain_moves_into_key() {
    assert_eq!(
        effective("NSGlobalDomain.com.apple.mouse", "scaling"),
        (s("NSGlobalDomain"), s("com.apple.mouse.scaling"))
    );
}

#[test]
fn effective_global_prefix_with_empty_rest() {
    assert_eq!(effective("NSGlobalDomain.", "k"), (s("NSGlobalDomain"), s("k")));
}

#[test]
fn effective_other_domain_gets_apple_prefix() {
    assert_eq!(effective("dock", "autohide"), (s("com.apple.dock"), s("autohide")));
    assert_eq!(effective("com.apple.finder", "x"), (s("com.apple.finder"), s("x")));
}

#[test]
fn needs_prefix_cases() {
    assert!(needs_prefix("dock"));
    assert!(needs_prefix("finder.sidebar"));
    assert!(!needs_prefix("NSGlobalDomain"));
    assert!(!needs_prefix("NSGlobalDomainAnything"));
    assert!(!needs_prefix("com.apple.finder"));
}

#[test]
fn law_prefixed_domain_is_effective_domain() {
    // a domain that gets the prefix is looked up under `com.apple.<domain>`
    for d in ["dock", "menuextra.clock", "x"] {
        assert!(needs_prefix(d));
        assert_eq!(effective(d, "k").0, format!("com.apple.{}", d));
    }
}

#[test]
fn collect_flattens_nested_tables() {
    let cfg = table(vec![
        (
            "set",
            table(vec![
                (
                    "dock",
                    table(vec![
                        ("autohide", ConfigValue::Boolean(true)),
                        ("sub", table(vec![("a", ConfigValue::Integer(1))])),
                        ("tilesize", ConfigValue::Integer(46)),
                    ]),
                ),
                ("ignored", ConfigValue::Integer(3)),
            ]),
        ),
        ("vars", table(vec![("x", ConfigValue::Integer(1))])),
    ]);
    let ds = collect(cfg).ok().unwrap();
    assert_eq!(ds.len(), 2);
    let dock = find(&ds, "dock").unwrap();
    assert_eq!(dock.len(), 2);
    assert_eq!(dock[0].0, "autohide");
    assert!(matches!(dock[0].1, ConfigValue::Boolean(true)));
    assert_eq!(dock[1].0, "tilesize");
    let sub = find(&ds, "dock.sub").unwrap();
    assert_eq!(sub.len(), 1);
    assert!(matches!(sub[0].1, ConfigValue::Integer(1)));
}

#[test]
fn collect_later_domain_replaces_earlier() {
    let cfg = table(vec![(
        "set",
        table(vec![
            ("a", table(vec![("b", table(vec![("x", ConfigValue::Integer(1))]))])),
            ("a.b", table(vec![("y", ConfigValue::Integer(2))])),
        ]),
    )]);
    let ds = collect(cfg).ok().unwrap();
    assert_eq!(ds.len(), 1);
    let ab = find(&ds, "a.b").unwrap();
    assert_eq!(ab.len(), 1);
    assert_eq!(ab[0].0, "y");
}

#[test]
fn collect_without_set_is_empty() {
    let cfg = table(vec![("brew", table(vec![]))]);
    assert_eq!(collect(cfg).ok().unwrap().len(), 0);
}

#[test]
fn collect_rejects_non_table() {
    let r = collect(ConfigValue::Integer(1));
    assert!(matches!(r, Err(CollectError::NotATable)));
    assert_eq!(CollectError::NotATable.message(), "Config is not a TOML table");
}

#[test]
fn pref_domain_choices() {
    assert!(matches!(pref_domain("NSGlobalDomain"), PrefDomain::Global));
    match pref_domain("com.apple.dock") {
        PrefDomain::User(n) => assert_eq!(n, "com.apple.dock"),
        PrefDomain::Global => panic!("expected a user domain"),
    }
    match pref_domain("org.example") {
        PrefDomain::User(n) => assert_eq!(n, "org.example"),
        PrefDomain::Global => panic!("expected a user domain"),
    }
}

#[test]
fn law_pref_domain_display_round_trip() {
    for n in ["NSGlobalDomain", "com.apple.dock", "org.example"] {
        assert_eq!(pref_domain(n).display_name(), n);
    }
}

#[test]
fn check_domain_exists_cases() {
    let known = vec![s("com.apple.dock"), s("com.apple.finder")];
    assert!(check_domain_exists(&known, "com.apple.dock").is_ok());
    match check_domain_exists(&known, "com.apple.nope") {
        Err(e) => {
            assert!(matches!(&e, DomainError::Missing(n) if n == "com.apple.nope"));
            assert_eq!(e.message(), "Domain \"com.apple.nope\" does not exist!");
        }
        Ok(()) => panic!("expected an error"),
    }
}

#[test]
fn law_domain_without_prefix_need_is_used_as_is() {
    for d in ["com.apple.finder", "com.apple.dock.extra"] {
        assert!(!needs_prefix(d));
        assert_eq!(effective(d, "k"), (s(d), s("k")));
    }
}
