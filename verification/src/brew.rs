//! The Homebrew side: how the configured packages compare with the installed ones,
//! and what `cutler brew install` runs to close the gap.

use vstd::prelude::*;
use crate::config::ConfigValue;
use crate::logging::{red, reset, LogLevel};
use crate::text::{join, join_spec, minus, minus_spec, owned, push_char, str_eq, trim, trim_spec, views};

verus! {

/// How the Homebrew state differs from the configuration.
pub struct BrewDiff {
    pub missing_formulae: Vec<String>,
    pub extra_formulae: Vec<String>,
    pub missing_casks: Vec<String>,
    pub extra_casks: Vec<String>,
    pub missing_taps: Vec<String>,
    pub extra_taps: Vec<String>,
}

impl BrewDiff {
    /// No difference at all.
    pub fn empty() -> (r: BrewDiff)
        ensures
            r.missing_formulae@.len() == 0,
            r.extra_formulae@.len() == 0,
            r.missing_casks@.len() == 0,
            r.extra_casks@.len() == 0,
            r.missing_taps@.len() == 0,
            r.extra_taps@.len() == 0,
    {
        BrewDiff {
            missing_formulae: Vec::new(),
            extra_formulae: Vec::new(),
            missing_casks: Vec::new(),
            extra_casks: Vec::new(),
            missing_taps: Vec::new(),
            extra_taps: Vec::new(),
        }
    }
}

/// Compares configured and installed packages: what is configured but not installed
/// is missing (in configured order), what is installed but not configured is extra (in
/// installed order).
pub fn brew_diff(
    formulae: &Vec<String>,
    casks: &Vec<String>,
    taps: &Vec<String>,
    installed_formulae: &Vec<String>,
    installed_casks: &Vec<String>,
    installed_taps: &Vec<String>,
) -> (r: BrewDiff)
    ensures
        views(r.missing_formulae@) == minus_spec(views(formulae@), views(installed_formulae@), formulae@.len()),
        views(r.extra_formulae@) == minus_spec(views(installed_formulae@), views(formulae@), installed_formulae@.len()),
        views(r.missing_casks@) == minus_spec(views(casks@), views(installed_casks@), casks@.len()),
        views(r.extra_casks@) == minus_spec(views(installed_casks@), views(casks@), installed_casks@.len()),
        views(r.missing_taps@) == minus_spec(views(taps@), views(installed_taps@), taps@.len()),
        views(r.extra_taps@) == minus_spec(views(installed_taps@), views(taps@), installed_taps@.len()),
{
    BrewDiff {
        missing_formulae: minus(formulae, installed_formulae),
        extra_formulae: minus(installed_formulae, formulae),
        missing_casks: minus(casks, installed_casks),
        extra_casks: minus(installed_casks, casks),
        missing_taps: minus(taps, installed_taps),
        extra_taps: minus(installed_taps, taps),
    }
}

/// The comparison when the installed state cannot be read: every configured formula,
/// cask and tap counts as missing, nothing as extra, so that `brew install` installs
/// the whole configuration.
pub fn all_missing(formulae: &Vec<String>, casks: &Vec<String>, taps: &Vec<String>) -> (r: BrewDiff)
    ensures
        views(r.missing_formulae@) == views(formulae@),
        views(r.missing_casks@) == views(casks@),
        views(r.missing_taps@) == views(taps@),
        r.extra_formulae@.len() == 0,
        r.extra_casks@.len() == 0,
        r.extra_taps@.len() == 0,
{
    let none: Vec<String> = Vec::new();
    let r = brew_diff(formulae, casks, taps, &none, &none, &none);
    proof {
        assert(views(none@) =~= Seq::<Seq<char>>::empty());
        lemma_nothing_installed(views(formulae@));
        lemma_nothing_installed(views(casks@));
        lemma_nothing_installed(views(taps@));
    }
    r
}

proof fn lemma_minus_nothing(a: Seq<Seq<char>>, n: nat)
    requires
        n <= a.len(),
    ensures
        minus_spec(a, Seq::empty(), n) == a.take(n as int),
    decreases n,
{
    if n > 0 {
        lemma_minus_nothing(a, (n - 1) as nat);
        assert(a.take(n as int) =~= a.take(n - 1).push(a[n - 1]));
    }
}

/// With nothing installed, every configured name is missing, in configured order.
pub proof fn lemma_nothing_installed(configured: Seq<Seq<char>>)
    ensures
        minus_spec(configured, Seq::empty(), configured.len()) == configured,
{
    lemma_minus_nothing(configured, configured.len());
    assert(configured.take(configured.len() as int) =~= configured);
}

proof fn lemma_minus_members(a: Seq<Seq<char>>, b: Seq<Seq<char>>, n: nat)
    requires
        n <= a.len(),
    ensures
        forall|i: int| 0 <= i < n ==> b.contains(a[i]) || minus_spec(a, b, n).contains(#[trigger] a[i]),
        forall|x: Seq<char>| #[trigger] minus_spec(a, b, n).contains(x) ==> a.take(n as int).contains(x) && !b.contains(x),
    decreases n,
{
    if n > 0 {
        lemma_minus_members(a, b, (n - 1) as nat);
        let prev = minus_spec(a, b, (n - 1) as nat);
        assert(a.take(n as int) =~= a.take(n - 1).push(a[n - 1]));
        if !b.contains(a[n - 1]) {
            assert(minus_spec(a, b, n) == prev.push(a[n - 1]));
            assert(minus_spec(a, b, n)[prev.len() as int] == a[n - 1]);
            assert forall|i: int| 0 <= i < n implies b.contains(a[i]) || minus_spec(a, b, n).contains(#[trigger] a[i]) by {
                if i < n - 1 && !b.contains(a[i]) {
                    let k = choose|k: int| 0 <= k < prev.len() && #[trigger] prev[k] == a[i];
                    assert(minus_spec(a, b, n)[k] == a[i]);
                }
            }
            assert forall|x: Seq<char>| #[trigger] minus_spec(a, b, n).contains(x) implies a.take(n as int).contains(x) && !b.contains(x) by {
                let k = choose|k: int| 0 <= k < minus_spec(a, b, n).len() && #[trigger] minus_spec(a, b, n)[k] == x;
                if k < prev.len() {
                    assert(prev[k] == x);
                    assert(prev.contains(x));
                    let m = choose|m: int| 0 <= m < a.take(n - 1).len() && #[trigger] a.take(n - 1)[m] == x;
                    assert(a.take(n as int)[m] == x);
                } else {
                    assert(a.take(n as int)[n - 1] == x);
                }
            }
        } else {
            assert forall|x: Seq<char>| #[trigger] minus_spec(a, b, n).contains(x) implies a.take(n as int).contains(x) && !b.contains(x) by {
                assert(prev.contains(x));
                let m = choose|m: int| 0 <= m < a.take(n - 1).len() && #[trigger] a.take(n - 1)[m] == x;
                assert(a.take(n as int)[m] == x);
            }
        }
    }
}

/// Nothing falls between the lists of a comparison: each configured name is installed
/// or listed as missing, and what is listed as missing is configured and not installed.
pub proof fn lemma_diff_covers_configuration(configured: Seq<Seq<char>>, installed: Seq<Seq<char>>)
    ensures
        forall|i: int|
            0 <= i < configured.len() ==> installed.contains(configured[i]) || minus_spec(
                configured,
                installed,
                configured.len(),
            ).contains(#[trigger] configured[i]),
        forall|x: Seq<char>| #[trigger]
            minus_spec(configured, installed, configured.len()).contains(x) ==> configured.contains(x)
                && !installed.contains(x),
{
    lemma_minus_members(configured, installed, configured.len());
    assert(configured.take(configured.len() as int) =~= configured);
}

/// The names read so far from the first `n` characters of Homebrew's output, and the
/// line not yet ended: each ended line counts, trimmed, unless it is blank.
pub open spec fn output_fold(out: Seq<char>, n: nat) -> (Seq<Seq<char>>, Seq<char>)
    decreases n,
{
    if n == 0 || n > out.len() {
        (Seq::empty(), Seq::empty())
    } else {
        let (names, line) = output_fold(out, (n - 1) as nat);
        if out[n - 1] == '\n' {
            (if trim_spec(line).len() > 0 {
                names.push(trim_spec(line))
            } else {
                names
            }, Seq::empty())
        } else {
            (names, line.push(out[n - 1]))
        }
    }
}

/// The names that Homebrew lists (`brew list -1`, `brew tap`): the output's lines,
/// trimmed, without the blank ones.
pub open spec fn output_names(out: Seq<char>) -> Seq<Seq<char>> {
    let (names, line) = output_fold(out, out.len());
    if trim_spec(line).len() > 0 {
        names.push(trim_spec(line))
    } else {
        names
    }
}

/// Reads the names that Homebrew lists, one per line.
pub fn installed_names(output: &str) -> (r: Vec<String>)
    ensures
        views(r@) == output_names(output@),
{
    let n = output.unicode_len();
    let mut names: Vec<String> = Vec::new();
    let mut line = String::new();
    let mut i: usize = 0;
    while i < n
        invariant
            i <= n,
            n == output@.len(),
            (views(names@), line@) == output_fold(output@, i as nat),
        decreases n - i,
    {
        let c = output.get_char(i);
        if c == '\n' {
            let t = trim(line.as_str());
            if t.unicode_len() > 0 {
                let ghost before = names@;
                names.push(t);
                assert(views(names@) =~= views(before).push(t@));
            }
            line = String::new();
        } else {
            push_char(&mut line, c);
        }
        i = i + 1;
    }
    let t = trim(line.as_str());
    if t.unicode_len() > 0 {
        let ghost before = names@;
        names.push(t);
        assert(views(names@) =~= views(before).push(t@));
    }
    names
}

/// The string items among the first `n` items of an array.
pub open spec fn string_items(items: Seq<ConfigValue>, n: nat) -> Seq<Seq<char>>
    decreases n,
{
    if n == 0 || n > items.len() {
        Seq::empty()
    } else {
        match items[n - 1] {
            ConfigValue::String(s) => string_items(items, (n - 1) as nat).push(s@),
            _ => string_items(items, (n - 1) as nat),
        }
    }
}

/// The list of names that a table holds under `key`: the string items of the array
/// stored there, in order; none when the key is absent or holds no array. When the key
/// occurs more than once, the first occurrence counts.
pub open spec fn names_under(section: Seq<(String, ConfigValue)>, key: Seq<char>, n: nat) -> Seq<Seq<char>>
    decreases n,
{
    if n == 0 || n > section.len() {
        Seq::empty()
    } else {
        let i = section.len() - n;
        if section[i].0@ == key {
            match section[i].1 {
                ConfigValue::Array(items) => string_items(items@, items@.len()),
                _ => Seq::empty(),
            }
        } else {
            names_under(section, key, (n - 1) as nat)
        }
    }
}

/// The names listed under `key` in a section of the configuration (the `formulae`,
/// `casks` and `taps` lists of `[brew]`).
pub fn names_in(section: &Vec<(String, ConfigValue)>, key: &str) -> (r: Vec<String>)
    ensures
        views(r@) == names_under(section@, key@, section@.len()),
{
    let n = section.len();
    let mut i: usize = 0;
    while i < n
        invariant
            n == section@.len(),
            i <= n,
            names_under(section@, key@, n as nat) == names_under(section@, key@, (n - i) as nat),
        decreases n - i,
    {
        if str_eq(section[i].0.as_str(), key) {
            let mut out: Vec<String> = Vec::new();
            match &section[i].1 {
                ConfigValue::Array(items) => {
                    let mut j: usize = 0;
                    while j < items.len()
                        invariant
                            j <= items@.len(),
                            views(out@) == string_items(items@, j as nat),
                        decreases items@.len() - j,
                    {
                        match &items[j] {
                            ConfigValue::String(s) => {
                                let ghost before = out@;
                                out.push(s.clone());
                                assert(views(out@) =~= views(before).push(s@));
                            },
                            _ => {},
                        }
                        j = j + 1;
                    }
                },
                _ => {},
            }
            return out;
        }
        i = i + 1;
    }
    Vec::new()
}

/// The `[brew]` section of a parsed configuration, if it holds one as a table.
pub fn brew_section(config: &ConfigValue) -> (r: Option<&Vec<(String, ConfigValue)>>)
    ensures
        r matches Some(s) ==> config is Table && exists|i: int|
            0 <= i < config->Table_0@.len() && config->Table_0@[i].0@ == "brew"@
                && config->Table_0@[i].1 == ConfigValue::Table(*s),
        r is None ==> !(config is Table) || forall|i: int|
            0 <= i < config->Table_0@.len() && config->Table_0@[i].0@ == "brew"@
                ==> !(config->Table_0@[i].1 is Table),
{
    match config {
        ConfigValue::Table(root) => {
            let mut i: usize = 0;
            while i < root.len()
                invariant
                    i <= root@.len(),
                    *config == ConfigValue::Table(*root),
                    forall|j: int| 0 <= j < i && root@[j].0@ == "brew"@ ==> !(root@[j].1 is Table),
                decreases root@.len() - i,
            {
                if str_eq(root[i].0.as_str(), "brew") {
                    match &root[i].1 {
                        ConfigValue::Table(section) => {
                            return Some(section);
                        },
                        _ => {},
                    }
                }
                i = i + 1;
            }
            None
        },
        _ => None,
    }
}

/// The arguments of `brew` that install a formula (`install name`) or a cask
/// (`install --cask name`).
pub open spec fn install_args_spec(name: Seq<char>, cask: bool) -> Seq<Seq<char>> {
    if cask {
        seq!["install"@, "--cask"@, name]
    } else {
        seq!["install"@, name]
    }
}

/// The arguments of `brew` that download a formula or a cask ahead of installing it:
/// `fetch [--cask] name`, with `--quiet` unless verbose.
pub open spec fn fetch_args_spec(name: Seq<char>, cask: bool, verbose: bool) -> Seq<Seq<char>> {
    let base = if cask {
        seq!["fetch"@, "--cask"@, name]
    } else {
        seq!["fetch"@, name]
    };
    if verbose {
        base
    } else {
        base.push("--quiet"@)
    }
}

/// The arguments of `brew` that download one formula or cask ahead of installing it.
pub fn fetch_args(name: &str, cask: bool, verbose: bool) -> (r: Vec<String>)
    ensures
        views(r@) == fetch_args_spec(name@, cask, verbose),
{
    let mut args: Vec<String> = Vec::new();
    args.push(owned("fetch"));
    if cask {
        args.push(owned("--cask"));
    }
    args.push(owned(name));
    if !verbose {
        args.push(owned("--quiet"));
    }
    proof {
        assert(views(args@) =~= fetch_args_spec(name@, cask, verbose));
    }
    args
}

/// The command line shown for a `brew` call: `brew` and its arguments, space-separated.
pub fn brew_display(args: &Vec<String>) -> (r: String)
    ensures
        r@ == "brew "@ + join_spec(views(args@), " "@, args@.len()),
{
    let mut m = owned("brew ");
    let a = join(args, " ");
    m.append(a.as_str());
    m
}

/// What `cutler brew install` does after comparing: taps to add, then install calls
/// (formulae first, then casks) with the names to download before.
pub struct BrewInstallPlan {
    pub taps: Vec<String>,
    pub install_tasks: Vec<Vec<String>>,
    pub fetch_formulae: Vec<String>,
    pub fetch_casks: Vec<String>,
}

/// Plans `brew install` from the comparison: tap what is missing, install the missing
/// formulae and then the missing casks.
pub fn plan_brew_install(diff: &BrewDiff) -> (r: BrewInstallPlan)
    ensures
        views(r.taps@) == views(diff.missing_taps@),
        views(r.fetch_formulae@) == views(diff.missing_formulae@),
        views(r.fetch_casks@) == views(diff.missing_casks@),
        r.install_tasks@.len() == diff.missing_formulae@.len() + diff.missing_casks@.len(),
        forall|i: int| 0 <= i < diff.missing_formulae@.len() ==> views(#[trigger] r.install_tasks@[i]@)
            == install_args_spec(diff.missing_formulae@[i]@, false),
        forall|i: int| 0 <= i < diff.missing_casks@.len() ==> views(
            #[trigger] r.install_tasks@[diff.missing_formulae@.len() + i]@,
        ) == install_args_spec(diff.missing_casks@[i]@, true),
{
    let mut tasks: Vec<Vec<String>> = Vec::new();
    let mut fetch_formulae: Vec<String> = Vec::new();
    let mut fetch_casks: Vec<String> = Vec::new();
    let nf = diff.missing_formulae.len();
    let mut i: usize = 0;
    while i < nf
        invariant
            nf == diff.missing_formulae@.len(),
            i <= nf,
            tasks@.len() == i,
            views(fetch_formulae@) == views(diff.missing_formulae@).take(i as int),
            forall|q: int| 0 <= q < i ==> views(#[trigger] tasks@[q]@) == install_args_spec(diff.missing_formulae@[q]@, false),
        decreases nf - i,
    {
        let name = &diff.missing_formulae[i];
        let mut args: Vec<String> = Vec::new();
        args.push(owned("install"));
        args.push(name.clone());
        assert(views(args@) =~= install_args_spec(name@, false));
        tasks.push(args);
        let ghost before = fetch_formulae@;
        fetch_formulae.push(name.clone());
        assert(views(fetch_formulae@) =~= views(before).push(name@));
        assert(views(fetch_formulae@) =~= views(diff.missing_formulae@).take(i + 1));
        i = i + 1;
    }
    let nc = diff.missing_casks.len();
    let mut j: usize = 0;
    while j < nc
        invariant
            nf == diff.missing_formulae@.len(),
            nc == diff.missing_casks@.len(),
            j <= nc,
            tasks@.len() == nf + j,
            views(fetch_casks@) == views(diff.missing_casks@).take(j as int),
            forall|q: int| 0 <= q < nf ==> views(#[trigger] tasks@[q]@) == install_args_spec(diff.missing_formulae@[q]@, false),
            forall|q: int| 0 <= q < j ==> views(#[trigger] tasks@[nf + q]@) == install_args_spec(diff.missing_casks@[q]@, true),
        decreases nc - j,
    {
        let name = &diff.missing_casks[j];
        let mut args: Vec<String> = Vec::new();
        args.push(owned("install"));
        args.push(owned("--cask"));
        args.push(name.clone());
        assert(views(args@) =~= install_args_spec(name@, true));
        tasks.push(args);
        let ghost before = fetch_casks@;
        fetch_casks.push(name.clone());
        assert(views(fetch_casks@) =~= views(before).push(name@));
        assert(views(fetch_casks@) =~= views(diff.missing_casks@).take(j + 1));
        j = j + 1;
    }
    let mut taps: Vec<String> = Vec::new();
    let mut k: usize = 0;
    while k < diff.missing_taps.len()
        invariant
            k <= diff.missing_taps@.len(),
            views(taps@) == views(diff.missing_taps@).take(k as int),
        decreases diff.missing_taps@.len() - k,
    {
        let ghost before = taps@;
        taps.push(diff.missing_taps[k].clone());
        assert(views(taps@) =~= views(before).push(diff.missing_taps@[k as int]@));
        assert(views(taps@) =~= views(diff.missing_taps@).take(k + 1));
        k = k + 1;
    }
    assert(views(fetch_formulae@) =~= views(diff.missing_formulae@));
    assert(views(fetch_casks@) =~= views(diff.missing_casks@));
    assert(views(taps@) =~= views(diff.missing_taps@));
    BrewInstallPlan { taps, install_tasks: tasks, fetch_formulae, fetch_casks }
}

/// A status line for one list of the comparison: `<red>label<reset> a, b, c`.
pub open spec fn brew_line_spec(label: Seq<char>, names: Seq<Seq<char>>) -> Seq<char> {
    red() + label + reset() + " "@ + join_spec(names, ", "@, names.len())
}

fn brew_line(label: &str, names: &Vec<String>) -> (r: String)
    ensures
        r@ == brew_line_spec(label@, views(names@)),
{
    let mut m = crate::logging::red_code();
    m.append(label);
    let r = crate::logging::reset_code();
    m.append(r.as_str());
    m.append(" ");
    let j = join(names, ", ");
    m.append(j.as_str());
    m
}

/// The labels of the six lists of the comparison, in the order `status` reports them.
pub open spec fn brew_labels() -> Seq<Seq<char>> {
    seq![
        "Formulae missing:"@,
        "Extra installed formulae:"@,
        "Casks missing:"@,
        "Extra installed casks:"@,
        "Taps missing:"@,
        "Extra tapped:"@,
    ]
}

/// The six lists of the comparison, in the order `status` reports them.
pub open spec fn brew_lists(d: BrewDiff) -> Seq<Seq<Seq<char>>> {
    seq![
        views(d.missing_formulae@),
        views(d.extra_formulae@),
        views(d.missing_casks@),
        views(d.extra_casks@),
        views(d.missing_taps@),
        views(d.extra_taps@),
    ]
}

/// The lines that `status` prints for the first `n` lists: one per non-empty list.
pub open spec fn brew_status_spec(d: BrewDiff, n: nat) -> Seq<Seq<char>>
    decreases n,
{
    if n == 0 || n > 6 {
        Seq::empty()
    } else {
        let prev = brew_status_spec(d, (n - 1) as nat);
        let names = brew_lists(d)[n - 1];
        if names.len() > 0 {
            prev.push(brew_line_spec(brew_labels()[n - 1], names))
        } else {
            prev
        }
    }
}

/// The Homebrew part of `status`: an `Info` line for each non-empty list of the
/// comparison, or, when all are empty, the `Fruitful` line saying that everything
/// matches.
pub fn brew_status_lines(d: &BrewDiff) -> (r: Vec<(LogLevel, String)>)
    ensures
        brew_status_spec(*d, 6).len() > 0 ==> r@.len() == brew_status_spec(*d, 6).len() && forall|i: int|
            0 <= i < r@.len() ==> #[trigger] r@[i].0 is Info && r@[i].1@ == brew_status_spec(*d, 6)[i],
        brew_status_spec(*d, 6).len() == 0 ==> r@.len() == 1 && r@[0].0 is Fruitful && r@[0].1@
            == "All Homebrew things match your configuration."@,
{
    let mut lines: Vec<(LogLevel, String)> = Vec::new();
    let lists: [&Vec<String>; 6] = [
        &d.missing_formulae,
        &d.extra_formulae,
        &d.missing_casks,
        &d.extra_casks,
        &d.missing_taps,
        &d.extra_taps,
    ];
    let labels: [&str; 6] = [
        "Formulae missing:",
        "Extra installed formulae:",
        "Casks missing:",
        "Extra installed casks:",
        "Taps missing:",
        "Extra tapped:",
    ];
    let mut i: usize = 0;
    while i < 6
        invariant
            i <= 6,
            forall|q: int| 0 <= q < 6 ==> views(#[trigger] lists@[q]@) == brew_lists(*d)[q],
            forall|q: int| 0 <= q < 6 ==> #[trigger] labels@[q]@ == brew_labels()[q],
            lines@.len() == brew_status_spec(*d, i as nat).len(),
            forall|q: int| 0 <= q < lines@.len() ==> #[trigger] lines@[q].0 is Info && lines@[q].1@ == brew_status_spec(*d, i as nat)[q],
        decreases 6 - i,
    {
        let names = lists[i];
        if names.len() > 0 {
            let line = brew_line(labels[i], names);
            lines.push((LogLevel::Info, line));
        }
        i = i + 1;
    }
    if lines.len() == 0 {
        lines.push((LogLevel::Fruitful, owned("All Homebrew things match your configuration.")));
    }
    lines
}


/// What `format!("{:?}", list)` gives for a list of strings.
pub uninterp spec fn debug_list(items: Seq<Seq<char>>) -> Seq<char>;

/// The `Debug` rendering of a list of strings (std's `format!("{:?}", ..)`). The
/// contract names the result `debug_list` of the items and claims nothing more.
#[verifier::external_body]
fn debug_text(items: &Vec<String>) -> (r: String)
    ensures
        r@ == debug_list(views(items@)),
{
    format!("{:?}", items)
}

/// The warnings that `brew install` gives about installed packages that the
/// configuration lacks: a `Warning` line per non-empty list of extra formulae, casks
/// and taps (in that order), then, when formulae or casks are extra, the plain hint to
/// run `cutler brew backup`. Plain lines have no level.
pub fn brew_install_warnings(d: &BrewDiff) -> (r: Vec<(Option<LogLevel>, String)>)
    ensures
        ({
            let f = d.extra_formulae@.len() > 0;
            let c = d.extra_casks@.len() > 0;
            let t = d.extra_taps@.len() > 0;
            let lines = seq![
                "Extra installed formulae not in config: "@ + debug_list(views(d.extra_formulae@)),
                "Extra installed casks not in config: "@ + debug_list(views(d.extra_casks@)),
                "Extra taps not in config: "@ + debug_list(views(d.extra_taps@)),
            ];
            let shown = seq![f, c, t];
            let warnings = Seq::new(3, |i: int| i).filter(|i: int| shown[i]).map_values(|i: int| lines[i]);
            &&& r@.len() == warnings.len() + if f || c { 1int } else { 0int }
            &&& forall|i: int| 0 <= i < warnings.len() ==> #[trigger] r@[i].0 == Some(LogLevel::Warning) && r@[i].1@ == warnings[i]
            &&& (f || c) ==> r@.last().0 is None && r@.last().1@
                == "\nRun `cutler brew backup` to synchronize your config with the system."@
        }),
{
    let mut out: Vec<(Option<LogLevel>, String)> = Vec::new();
    let ghost idx = Seq::new(3, |i: int| i);
    if d.extra_formulae.len() > 0 {
        let mut m = owned("Extra installed formulae not in config: ");
        let x = debug_text(&d.extra_formulae);
        m.append(x.as_str());
        out.push((Some(LogLevel::Warning), m));
    }
    if d.extra_casks.len() > 0 {
        let mut m = owned("Extra installed casks not in config: ");
        let x = debug_text(&d.extra_casks);
        m.append(x.as_str());
        out.push((Some(LogLevel::Warning), m));
    }
    if d.extra_taps.len() > 0 {
        let mut m = owned("Extra taps not in config: ");
        let x = debug_text(&d.extra_taps);
        m.append(x.as_str());
        out.push((Some(LogLevel::Warning), m));
    }
    proof {
        reveal_with_fuel(Seq::<_>::filter, 4);
        assert(idx.take(3) =~= idx);
        assert(idx.take(0) =~= Seq::<int>::empty());
        assert(idx.take(1) =~= idx.take(0).push(0));
        assert(idx.take(2) =~= idx.take(1).push(1));
        assert(idx.take(3) =~= idx.take(2).push(2));
    }
    if d.extra_formulae.len() > 0 || d.extra_casks.len() > 0 {
        out.push((None, owned("\nRun `cutler brew backup` to synchronize your config with the system.")));
    }
    out
}

proof fn lemma_string_items_members(items: Seq<ConfigValue>, n: nat)
    requires
        n <= items.len(),
    ensures
        string_items(items, n) == items.take(n as int).filter_map(
            |v: ConfigValue|
                match v {
                    ConfigValue::String(s) => Some(s@),
                    _ => None,
                },
        ),
        forall|i: int|
            0 <= i < n && items[i] is String ==> string_items(items, n).contains(#[trigger] items[i]->String_0@),
    decreases n,
{
    let f = |v: ConfigValue|
        match v {
            ConfigValue::String(s) => Some(s@),
            _ => None,
        };
    if n == 0 {
        assert(items.take(0) =~= Seq::<ConfigValue>::empty());
    } else {
        lemma_string_items_members(items, (n - 1) as nat);
        let tk = items.take(n as int);
        assert(tk.drop_last() =~= items.take(n - 1));
        assert(tk.last() == items[n - 1]);
        let prev = string_items(items, (n - 1) as nat);
        let cur = string_items(items, n);
        match items[n - 1] {
            ConfigValue::String(s) => {
                assert(cur == prev.push(s@));
                assert(tk.filter_map(f) == tk.drop_last().filter_map(f) + seq![s@]);
                assert(cur =~= tk.drop_last().filter_map(f) + seq![s@]);
            },
            _ => {
                assert(cur == prev);
                assert(tk.filter_map(f) == tk.drop_last().filter_map(f));
            },
        }
        assert forall|i: int| 0 <= i < n && items[i] is String implies cur.contains(#[trigger] items[i]->String_0@) by {
            if i < n - 1 {
                let k = choose|k: int| 0 <= k < prev.len() && #[trigger] prev[k] == items[i]->String_0@;
                assert(cur[k] == items[i]->String_0@);
            } else {
                assert(cur[prev.len() as int] == items[i]->String_0@);
            }
        }
    }
}

/// The names listed in an array are all its strings, in order: the array with every
/// item that is not a string left out. Every string item is among them.
pub proof fn lemma_string_items_all(items: Seq<ConfigValue>)
    ensures
        string_items(items, items.len()) == items.filter_map(
            |v: ConfigValue|
                match v {
                    ConfigValue::String(s) => Some(s@),
                    _ => None,
                },
        ),
        forall|i: int|
            0 <= i < items.len() && items[i] is String ==> string_items(items, items.len()).contains(
                #[trigger] items[i]->String_0@,
            ),
{
    lemma_string_items_members(items, items.len());
    assert(items.take(items.len() as int) =~= items);
}

proof fn lemma_names_under_at(section: Seq<(String, ConfigValue)>, key: Seq<char>, j: int, n: nat)
    requires
        0 <= j < section.len(),
        section.len() - j <= n <= section.len(),
        section[j].0@ == key,
        forall|m: int| 0 <= m < j ==> (#[trigger] section[m]).0@ != key,
    ensures
        names_under(section, key, n) == match section[j].1 {
            ConfigValue::Array(items) => string_items(items@, items@.len()),
            _ => Seq::empty(),
        },
    decreases n,
{
    if n > section.len() - j {
        let i = section.len() - n;
        assert(section[i].0@ != key);
        lemma_names_under_at(section, key, j, (n - 1) as nat);
    }
}

/// The names read under a key of the `[brew]` table are those of the key's first
/// occurrence: when it holds an array, all the array's strings, in order (every string
/// item among them); otherwise none.
pub proof fn lemma_names_under_first_key(section: Seq<(String, ConfigValue)>, key: Seq<char>, j: int)
    requires
        0 <= j < section.len(),
        section[j].0@ == key,
        forall|m: int| 0 <= m < j ==> (#[trigger] section[m]).0@ != key,
    ensures
        section[j].1 is Array ==> names_under(section, key, section.len()) == section[j].1->Array_0@.filter_map(
            |v: ConfigValue|
                match v {
                    ConfigValue::String(s) => Some(s@),
                    _ => None,
                },
        ),
        section[j].1 is Array ==> forall|i: int|
            0 <= i < section[j].1->Array_0@.len() && section[j].1->Array_0@[i] is String ==> names_under(
                section,
                key,
                section.len(),
            ).contains(#[trigger] section[j].1->Array_0@[i]->String_0@),
        !(section[j].1 is Array) ==> names_under(section, key, section.len()).len() == 0,
{
    lemma_names_under_at(section, key, j, section.len());
    if section[j].1 is Array {
        lemma_string_items_all(section[j].1->Array_0@);
    }
}

/// No names are read under a key the table lacks.
pub proof fn lemma_names_under_absent(section: Seq<(String, ConfigValue)>, key: Seq<char>, n: nat)
    requires
        n <= section.len(),
        forall|m: int| 0 <= m < section.len() ==> (#[trigger] section[m]).0@ != key,
    ensures
        names_under(section, key, n).len() == 0,
    decreases n,
{
    if n > 0 {
        assert(section[section.len() - n].0@ != key);
        lemma_names_under_absent(section, key, (n - 1) as nat);
    }
}

} // verus!
