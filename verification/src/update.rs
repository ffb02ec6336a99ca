//! The decisions of `cutler check-update` and `cutler self-update`: which release tag
//! to compare, how the running version compares with it, and whether a self-update
//! applies to this installation.

use vstd::prelude::*;
use crate::logging::LogLevel;
use crate::text::{owned, str_eq};

verus! {

/// `semver::Version`, carried through the comparison.
#[verifier::external_type_specification]
#[verifier::external_body]
pub struct ExVersion(semver::Version);

/// `semver::Error`, what a failed version parse gives.
#[verifier::external_type_specification]
#[verifier::external_body]
pub struct ExVersionError(semver::Error);

/// Whether `semver::Version::parse` accepts a text as a SemVer version.
pub uninterp spec fn semver_accepts(text: Seq<char>) -> bool;

/// How two versions compare, in semver's total order (`Ord for semver::Version`:
/// major, minor, patch, pre-release, build metadata), given the texts they were parsed
/// from.
pub uninterp spec fn semver_order(a: Seq<char>, b: Seq<char>) -> VersionOrder;

/// The result of comparing two versions.
pub enum VersionOrder {
    Less,
    Equal,
    Greater,
}

/// A parsed version, with the text it was parsed from.
pub struct ReleaseVersion {
    version: semver::Version,
    text: Ghost<Seq<char>>,
}

impl View for ReleaseVersion {
    type V = Seq<char>;

    /// The text the version was parsed from.
    closed spec fn view(&self) -> Seq<char> {
        self.text@
    }
}

/// Parses a version with `semver::Version::parse`; the result keeps the text it came
/// from. The contract claims that the parse succeeds exactly on the texts that
/// `semver_accepts` names, and nothing about the parsed parts.
#[verifier::external_body]
fn parse_version(text: &str) -> (r: Result<ReleaseVersion, semver::Error>)
    ensures
        r is Ok <==> semver_accepts(text@),
        r matches Ok(v) ==> v@ == text@,
{
    match semver::Version::parse(text) {
        Ok(version) => Ok(ReleaseVersion { version, text: Ghost(text@) }),
        Err(e) => Err(e),
    }
}

/// Compares two parsed versions with `Ord::cmp` of `semver::Version`. The contract
/// claims that the result is `semver_order` of the two source texts, and, since the
/// order is total, that equal texts compare equal.
#[verifier::external_body]
fn version_order(a: &ReleaseVersion, b: &ReleaseVersion) -> (r: VersionOrder)
    ensures
        r == semver_order(a@, b@),
        a@ == b@ ==> r is Equal,
{
    match a.version.cmp(&b.version) {
        std::cmp::Ordering::Less => VersionOrder::Less,
        std::cmp::Ordering::Equal => VersionOrder::Equal,
        std::cmp::Ordering::Greater => VersionOrder::Greater,
    }
}

/// Why a version check could not compare.
pub enum VersionCheckError {
    /// The running version is not a SemVer version.
    CurrentUnparsable,
    /// The latest release's tag is not a SemVer version.
    LatestUnparsable,
}

/// Compares the running version with the latest release's: `Less` means an update is
/// available, `Greater` that the running version is ahead.
pub fn compare_versions(current: &str, latest: &str) -> (r: Result<VersionOrder, VersionCheckError>)
    ensures
        !semver_accepts(current@) ==> r matches Err(VersionCheckError::CurrentUnparsable),
        semver_accepts(current@) && !semver_accepts(latest@) ==> r matches Err(
            VersionCheckError::LatestUnparsable,
        ),
        semver_accepts(current@) && semver_accepts(latest@) ==> r == Ok::<VersionOrder, VersionCheckError>(
            semver_order(current@, latest@),
        ),
{
    let c = match parse_version(current) {
        Ok(v) => v,
        Err(_) => {
            return Err(VersionCheckError::CurrentUnparsable);
        },
    };
    let l = match parse_version(latest) {
        Ok(v) => v,
        Err(_) => {
            return Err(VersionCheckError::LatestUnparsable);
        },
    };
    Ok(version_order(&c, &l))
}

/// A tag without its leading `v`s (`trim_start_matches('v')`).
pub open spec fn trim_v(s: Seq<char>) -> Seq<char>
    decreases s.len(),
{
    if s.len() > 0 && s[0] == 'v' {
        trim_v(s.drop_first())
    } else {
        s
    }
}

/// The version of the latest release from its `tag_name` and `name` fields: the
/// `tag_name` when it is a string, else the `name`, without leading `v`s; none when
/// neither is a string.
pub fn latest_version_tag(tag_name: Option<String>, name: Option<String>) -> (r: Option<String>)
    ensures
        tag_name matches Some(t) ==> r matches Some(v) && v@ == trim_v(t@),
        tag_name is None ==> (name matches Some(n) ==> r matches Some(v) && v@ == trim_v(n@)),
        tag_name is None && name is None ==> r is None,
{
    let chosen = match tag_name {
        Some(t) => t,
        None => match name {
            Some(n) => n,
            None => {
                return None;
            },
        },
    };
    let len = chosen.as_str().unicode_len();
    let mut i: usize = 0;
    assert(chosen@.subrange(0, len as int) =~= chosen@);
    while i < len && chosen.as_str().get_char(i) == 'v'
        invariant
            i <= len,
            len == chosen@.len(),
            trim_v(chosen@) == trim_v(chosen@.subrange(i as int, len as int)),
        decreases len - i,
    {
        proof {
            assert(chosen@.subrange(i as int, len as int).drop_first() =~= chosen@.subrange(i + 1, len as int));
        }
        i = i + 1;
    }
    proof {
        let rest = chosen@.subrange(i as int, len as int);
        if i < len {
            assert(rest[0] == chosen@[i as int]);
        }
    }
    Some(chosen.as_str().substring_char(i, len).to_owned())
}

/// `serde_json::Value`, a parsed JSON document.
#[verifier::external_type_specification]
#[verifier::external_body]
pub struct ExJsonValue(serde_json::Value);

/// `serde_json::Error`, what a failed JSON parse gives.
#[verifier::external_type_specification]
#[verifier::external_body]
pub struct ExJsonError(serde_json::Error);

/// Whether `serde_json::from_str` parses a text as a JSON value.
pub uninterp spec fn json_parses(body: Seq<char>) -> bool;

/// The string held under a key of the JSON object that a text parses to, as
/// `Value::get` finds it: none when the text is no object, lacks the key, or holds
/// something other than a string there.
pub uninterp spec fn json_string_field(body: Seq<char>, key: Seq<char>) -> Option<Seq<char>>;

/// A parsed JSON document, with the text it was parsed from.
pub struct JsonDoc {
    value: serde_json::Value,
    text: Ghost<Seq<char>>,
}

impl View for JsonDoc {
    type V = Seq<char>;

    /// The text the document was parsed from.
    closed spec fn view(&self) -> Seq<char> {
        self.text@
    }
}

/// Parses a text with `serde_json::from_str` into a `serde_json::Value`. The contract
/// claims that the parse succeeds exactly on the texts that `json_parses` names, and
/// that the document keeps the text it came from.
#[verifier::external_body]
fn parse_json(body: &str) -> (r: Result<JsonDoc, serde_json::Error>)
    ensures
        r is Ok <==> json_parses(body@),
        r matches Ok(d) ==> d@ == body@,
{
    match serde_json::from_str::<serde_json::Value>(body) {
        Ok(value) => Ok(JsonDoc { value, text: Ghost(body@) }),
        Err(e) => Err(e),
    }
}

/// Looks a key up with `serde_json::Value::get` and hands out the string found there.
/// The contract claims that the result is `json_string_field` of the document's text
/// and the key.
#[verifier::external_body]
fn string_field(doc: &JsonDoc, key: &str) -> (r: Option<String>)
    ensures
        crate::domains::opt_view(r) == json_string_field(doc@, key@),
{
    match doc.value.get(key) {
        Some(serde_json::Value::String(s)) => Some(s.clone()),
        _ => None,
    }
}

/// Why the latest release's version could not be read from the GitHub API's answer.
pub enum ReleaseError {
    /// The answer is not JSON.
    Unparsable,
    /// Neither `tag_name` nor `name` holds a string.
    NoTag,
}

/// The version of the latest release, read from the body of the GitHub API's answer:
/// the `tag_name` string when there is one, else the `name` string, without leading
/// `v`s.
pub fn latest_version_from_body(body: &str) -> (r: Result<String, ReleaseError>)
    ensures
        !json_parses(body@) ==> r matches Err(ReleaseError::Unparsable),
        json_parses(body@) ==> match (json_string_field(body@, "tag_name"@), json_string_field(body@, "name"@)) {
            (Some(t), _) => r matches Ok(v) && v@ == trim_v(t),
            (None, Some(n)) => r matches Ok(v) && v@ == trim_v(n),
            (None, None) => r matches Err(ReleaseError::NoTag),
        },
{
    let doc = match parse_json(body) {
        Ok(d) => d,
        Err(_) => {
            return Err(ReleaseError::Unparsable);
        },
    };
    let tag_name = string_field(&doc, "tag_name");
    let name = string_field(&doc, "name");
    match latest_version_tag(tag_name, name) {
        Some(v) => Ok(v),
        None => Err(ReleaseError::NoTag),
    }
}

/// What `check-update` prints for a comparison, unless quiet: for an update, the plain
/// lines announcing it and how to install it; for the same version, a `Success` line;
/// for a version ahead, an `Info` line naming both versions. Plain lines have no level.
pub fn update_report(order: &VersionOrder, current: &str, latest: &str, quiet: bool) -> (r: Vec<(Option<LogLevel>, String)>)
    ensures
        quiet ==> r@.len() == 0,
        !quiet && order is Less ==> r@.len() == 8 && (forall|i: int| 0 <= i < 8 ==> (#[trigger] r@[i]).0 is None)
            && r@[0].1@ == "\n"@ + "\x1b[1m"@ + "Update available:"@ + "\x1b[0m"@ + " "@ + current@
            + " \u{2192} "@ + latest@
            && r@[1].1@ == "\nTo update, run one of the following:\n"@
            && r@[2].1@ == "  brew update && brew upgrade cutler     # if installed via homebrew"@
            && r@[3].1@ == "  cargo install cutler --force           # if installed via cargo"@
            && r@[4].1@ == "  mise up cutler                         # if installed via mise"@
            && r@[5].1@ == "  cutler self-update                     # for manual installs"@
            && r@[6].1@ == "\nOr download the latest release from:"@
            && r@[7].1@ == "  https://github.com/hitblast/cutler/releases"@,
        !quiet && order is Equal ==> r@.len() == 1 && r@[0].0 == Some(LogLevel::Success) && r@[0].1@
            == "You are using the latest version."@,
        !quiet && order is Greater ==> r@.len() == 1 && r@[0].0 == Some(LogLevel::Info) && r@[0].1@
            == "You are on a development version ("@ + current@ + ") ahead of latest release ("@
            + latest@ + ")."@,
{
    let mut out: Vec<(Option<LogLevel>, String)> = Vec::new();
    if quiet {
        return out;
    }
    match order {
        VersionOrder::Less => {
            let mut head = owned("\n");
            head.append("\x1b[1m");
            head.append("Update available:");
            head.append("\x1b[0m");
            head.append(" ");
            head.append(current);
            head.append(" \u{2192} ");
            head.append(latest);
            out.push((None, head));
            out.push((None, owned("\nTo update, run one of the following:\n")));
            out.push((None, owned("  brew update && brew upgrade cutler     # if installed via homebrew")));
            out.push((None, owned("  cargo install cutler --force           # if installed via cargo")));
            out.push((None, owned("  mise up cutler                         # if installed via mise")));
            out.push((None, owned("  cutler self-update                     # for manual installs")));
            out.push((None, owned("\nOr download the latest release from:")));
            out.push((None, owned("  https://github.com/hitblast/cutler/releases")));
        },
        VersionOrder::Equal => {
            out.push((Some(LogLevel::Success), owned("You are using the latest version.")));
        },
        VersionOrder::Greater => {
            let mut m = owned("You are on a development version (");
            m.append(current);
            m.append(") ahead of latest release (");
            m.append(latest);
            m.append(").");
            out.push((Some(LogLevel::Info), m));
        },
    }
    out
}

/// What `self-update` decides before downloading.
pub enum SelfUpdateDecision {
    /// The binary belongs to a package manager (Homebrew or Cargo): no manual update.
    PackageManaged,
    /// No release is built for this architecture.
    UnsupportedArch,
    /// Update from the release built for this target.
    Update(String),
}

/// Where `cargo install` puts the binary: `$CARGO_HOME/bin/cutler`, else
/// `$HOME/.cargo/bin/cutler`, else nothing.
pub open spec fn cargo_bin_spec(cargo_home: Option<Seq<char>>, home: Option<Seq<char>>) -> Seq<char> {
    match cargo_home {
        Some(c) => c + "/bin/cutler"@,
        None => match home {
            Some(h) => h + "/.cargo/bin/cutler"@,
            None => Seq::empty(),
        },
    }
}

/// The release target for an architecture: `darwin-x86_64` for `x86_64` and `x86`,
/// `darwin-arm64` for `aarch64`, none otherwise.
pub open spec fn target_spec(arch: Seq<char>) -> Option<Seq<char>> {
    if arch == "x86_64"@ || arch == "x86"@ {
        Some("darwin-x86_64"@)
    } else if arch == "aarch64"@ {
        Some("darwin-arm64"@)
    } else {
        None
    }
}

/// Decides `self-update` from the running binary's path, `$CARGO_HOME`, `$HOME` and the
/// architecture: a binary at `/opt/homebrew/bin/cutler` or at Cargo's install path is
/// left to its package manager; else the update needs a release target.
pub fn self_update_decision(
    exe_path: &str,
    cargo_home: Option<String>,
    home: Option<String>,
    arch: &str,
) -> (r: SelfUpdateDecision)
    ensures
        ({
            let cargo_bin = cargo_bin_spec(crate::domains::opt_view(cargo_home), crate::domains::opt_view(home));
            let managed = exe_path@ == "/opt/homebrew/bin/cutler"@ || exe_path@ == cargo_bin;
            &&& managed ==> r is PackageManaged
            &&& !managed && target_spec(arch@) is None ==> r is UnsupportedArch
            &&& !managed ==> (target_spec(arch@) matches Some(t) ==> r matches SelfUpdateDecision::Update(
                target,
            ) && target@ == t)
        }),
{
    let is_homebrew = str_eq(exe_path, "/opt/homebrew/bin/cutler");
    let cargo_bin = match cargo_home {
        Some(c) => {
            let mut p = c;
            p.append("/bin/cutler");
            p
        },
        None => match home {
            Some(h) => {
                let mut p = h;
                p.append("/.cargo/bin/cutler");
                p
            },
            None => String::new(),
        },
    };
    let is_cargo = str_eq(exe_path, cargo_bin.as_str());
    if is_homebrew || is_cargo {
        return SelfUpdateDecision::PackageManaged;
    }
    if str_eq(arch, "x86_64") || str_eq(arch, "x86") {
        SelfUpdateDecision::Update(owned("darwin-x86_64"))
    } else if str_eq(arch, "aarch64") {
        SelfUpdateDecision::Update(owned("darwin-arm64"))
    } else {
        SelfUpdateDecision::UnsupportedArch
    }
}

} // verus!
