//! The configuration model (the values of a TOML document) and the preference-value
//! model (what the defaults system stores), with the renderings that are compared to
//! decide whether a setting already holds its configured value.

use vstd::prelude::*;
use crate::text::{int_text, push_char, append, i64_text};

verus! {

/// A value of the configuration document, as the TOML reader gives it.
///
/// Floats and datetimes are held as the text that the reader renders for them.
/// A table holds its entries in the document's key order.
pub enum ConfigValue {
    Boolean(bool),
    Integer(i64),
    Float(String),
    Datetime(String),
    String(String),
    Array(Vec<ConfigValue>),
    Table(Vec<(String, ConfigValue)>),
}

/// A preference value, as the defaults system stores it.
///
/// Floats are held as the text that their `to_string` gives; `Other` holds the
/// rendering of a stored value of any further kind (data, dates, URLs, ...).
pub enum PrefVal {
    String(String),
    Integer(i64),
    Float(String),
    Boolean(bool),
    Array(Vec<PrefVal>),
    Dictionary(Vec<(String, PrefVal)>),
    Other(String),
}

/// The text of a boolean setting: `1` for true, `0` for false.
pub open spec fn bool_text(b: bool) -> Seq<char> {
    if b {
        seq!['1']
    } else {
        seq!['0']
    }
}

/// The list separator `, `.
pub open spec fn list_sep() -> Seq<char> {
    seq![',', ' ']
}

/// The key separator `: ` of a rendered dictionary entry.
pub open spec fn entry_sep() -> Seq<char> {
    seq![':', ' ']
}

/// How a stored preference value is shown and compared: booleans as `1`/`0`,
/// numbers and strings as their text, arrays as `[a, b]`, dictionaries as
/// `{k: v, ...}` in the order the entries are held.
pub open spec fn pref_text(v: PrefVal) -> Seq<char>
    decreases v, 0nat,
{
    match v {
        PrefVal::Boolean(b) => bool_text(b),
        PrefVal::Integer(i) => int_text(i as int),
        PrefVal::Float(t) => t@,
        PrefVal::String(s) => s@,
        PrefVal::Other(t) => t@,
        PrefVal::Array(items) => seq!['['] + pref_items_text(items@, items@.len()) + seq![']'],
        PrefVal::Dictionary(entries) => seq!['{'] + pref_entries_text(entries@, entries@.len())
            + seq!['}'],
    }
}

/// The first `n` items of an array, rendered and joined by `, `.
pub open spec fn pref_items_text(items: Seq<PrefVal>, n: nat) -> Seq<char>
    decreases items, n,
{
    if n == 0 || n > items.len() {
        Seq::empty()
    } else if n == 1 {
        pref_text(items[0])
    } else {
        pref_items_text(items, (n - 1) as nat) + list_sep() + pref_text(items[n - 1])
    }
}

/// The first `n` entries of a dictionary, each as `key: value`, joined by `, `.
pub open spec fn pref_entries_text(entries: Seq<(String, PrefVal)>, n: nat) -> Seq<char>
    decreases entries, n,
{
    if n == 0 || n > entries.len() {
        Seq::empty()
    } else if n == 1 {
        entries[0].0@ + entry_sep() + pref_text(entries[0].1)
    } else {
        pref_entries_text(entries, (n - 1) as nat) + list_sep() + entries[n - 1].0@ + entry_sep()
            + pref_text(entries[n - 1].1)
    }
}


/// Renders a stored preference value the way it is compared with the configuration.
#[verifier::loop_isolation(false)]
#[verifier::rlimit(40)]
pub fn render_pref(v: &PrefVal) -> (r: String)
    ensures
        r@ == pref_text(*v),
    decreases v,
{
    match v {
        PrefVal::Boolean(b) => {
            let mut out = String::new();
            if *b {
                push_char(&mut out, '1');
            } else {
                push_char(&mut out, '0');
            }
            out
        },
        PrefVal::Integer(i) => i64_text(*i),
        PrefVal::Float(t) => t.clone(),
        PrefVal::String(s) => s.clone(),
        PrefVal::Other(t) => t.clone(),
        PrefVal::Array(items) => {
            let mut out = String::new();
            push_char(&mut out, '[');
            let mut i: usize = 0;
            while i < items.len()
                invariant
                    i <= items@.len(),
                    out@ == seq!['['] + pref_items_text(items@, i as nat),
                decreases items@.len() - i,
            {
                if i > 0 {
                    push_char(&mut out, ',');
                    push_char(&mut out, ' ');
                }
                let t = render_pref(&items[i]);
                append(&mut out, t.as_str());
                proof {
                    if i == 0 {
                        assert(pref_items_text(items@, 1) == pref_text(items@[0]));
                    }
                }
                i = i + 1;
            }
            push_char(&mut out, ']');
            out
        },
        PrefVal::Dictionary(entries) => {
            let mut out = String::new();
            push_char(&mut out, '{');
            let mut i: usize = 0;
            while i < entries.len()
                invariant
                    i <= entries@.len(),
                    out@ == seq!['{'] + pref_entries_text(entries@, i as nat),
                decreases entries@.len() - i,
            {
                if i > 0 {
                    push_char(&mut out, ',');
                    push_char(&mut out, ' ');
                }
                let entry = &entries[i];
                append(&mut out, entry.0.as_str());
                push_char(&mut out, ':');
                push_char(&mut out, ' ');
                let t = render_pref(&entry.1);
                append(&mut out, t.as_str());
                i = i + 1;
            }
            push_char(&mut out, '}');
            out
        },
    }
}


/// How a configured value is shown and compared with the stored one: the same
/// rendering as `pref_text`, with tables shown as dictionaries and datetimes and
/// floats as their text.
pub open spec fn config_text(v: ConfigValue) -> Seq<char>
    decreases v, 0nat,
{
    match v {
        ConfigValue::Boolean(b) => bool_text(b),
        ConfigValue::Integer(i) => int_text(i as int),
        ConfigValue::Float(t) => t@,
        ConfigValue::Datetime(t) => t@,
        ConfigValue::String(s) => s@,
        ConfigValue::Array(items) => seq!['['] + config_items_text(items@, items@.len()) + seq![
            ']',
        ],
        ConfigValue::Table(entries) => seq!['{'] + config_entries_text(entries@, entries@.len())
            + seq!['}'],
    }
}

/// The first `n` items of a configured array, rendered and joined by `, `.
pub open spec fn config_items_text(items: Seq<ConfigValue>, n: nat) -> Seq<char>
    decreases items, n,
{
    if n == 0 || n > items.len() {
        Seq::empty()
    } else if n == 1 {
        config_text(items[0])
    } else {
        config_items_text(items, (n - 1) as nat) + list_sep() + config_text(items[n - 1])
    }
}

/// The first `n` entries of a configured table, each as `key: value`, joined by `, `.
pub open spec fn config_entries_text(entries: Seq<(String, ConfigValue)>, n: nat) -> Seq<char>
    decreases entries, n,
{
    if n == 0 || n > entries.len() {
        Seq::empty()
    } else if n == 1 {
        entries[0].0@ + entry_sep() + config_text(entries[0].1)
    } else {
        config_entries_text(entries, (n - 1) as nat) + list_sep() + entries[n - 1].0@ + entry_sep()
            + config_text(entries[n - 1].1)
    }
}

/// The desired text of a configured value: what the stored value must
/// render to for the setting to count as applied.
#[verifier::loop_isolation(false)]
#[verifier::rlimit(40)]
pub fn normalize(v: &ConfigValue) -> (r: String)
    ensures
        r@ == config_text(*v),
    decreases v,
{
    match v {
        ConfigValue::Boolean(b) => {
            let mut out = String::new();
            if *b {
                push_char(&mut out, '1');
            } else {
                push_char(&mut out, '0');
            }
            out
        },
        ConfigValue::Integer(i) => i64_text(*i),
        ConfigValue::Float(t) => t.clone(),
        ConfigValue::Datetime(t) => t.clone(),
        ConfigValue::String(s) => s.clone(),
        ConfigValue::Array(items) => {
            let mut out = String::new();
            push_char(&mut out, '[');
            let mut i: usize = 0;
            while i < items.len()
                invariant
                    i <= items@.len(),
                    out@ == seq!['['] + config_items_text(items@, i as nat),
                decreases items@.len() - i,
            {
                if i > 0 {
                    push_char(&mut out, ',');
                    push_char(&mut out, ' ');
                }
                let t = normalize(&items[i]);
                append(&mut out, t.as_str());
                i = i + 1;
            }
            push_char(&mut out, ']');
            out
        },
        ConfigValue::Table(entries) => {
            let mut out = String::new();
            push_char(&mut out, '{');
            let mut i: usize = 0;
            while i < entries.len()
                invariant
                    i <= entries@.len(),
                    out@ == seq!['{'] + config_entries_text(entries@, i as nat),
                decreases entries@.len() - i,
            {
                if i > 0 {
                    push_char(&mut out, ',');
                    push_char(&mut out, ' ');
                }
                let entry = &entries[i];
                append(&mut out, entry.0.as_str());
                push_char(&mut out, ':');
                push_char(&mut out, ' ');
                let t = normalize(&entry.1);
                append(&mut out, t.as_str());
                i = i + 1;
            }
            push_char(&mut out, '}');
            out
        },
    }
}

/// Whether a configured value holds a datetime anywhere: the defaults system has no
/// such value kind to write it as.
pub open spec fn holds_datetime(v: ConfigValue) -> bool
    decreases v, 0nat,
{
    match v {
        ConfigValue::Datetime(_) => true,
        ConfigValue::Array(items) => items_hold_datetime(items@, items@.len()),
        ConfigValue::Table(entries) => entries_hold_datetime(entries@, entries@.len()),
        _ => false,
    }
}

/// Whether one of the first `n` items holds a datetime.
pub open spec fn items_hold_datetime(items: Seq<ConfigValue>, n: nat) -> bool
    decreases items, n,
{
    if n == 0 || n > items.len() {
        false
    } else {
        items_hold_datetime(items, (n - 1) as nat) || holds_datetime(items[n - 1])
    }
}

/// Whether the value of one of the first `n` entries holds a datetime.
pub open spec fn entries_hold_datetime(entries: Seq<(String, ConfigValue)>, n: nat) -> bool
    decreases entries, n,
{
    if n == 0 || n > entries.len() {
        false
    } else {
        entries_hold_datetime(entries, (n - 1) as nat) || holds_datetime(entries[n - 1].1)
    }
}

/// `p` is the preference value that `c` is written as: the same shape, the same
/// scalars, tables as dictionaries with the same keys in the same order.
pub open spec fn written_as(c: ConfigValue, p: PrefVal) -> bool
    decreases c, 0nat,
{
    match c {
        ConfigValue::Boolean(b) => p == PrefVal::Boolean(b),
        ConfigValue::Integer(i) => p == PrefVal::Integer(i),
        ConfigValue::Float(t) => p is Float && p->Float_0@ == t@,
        ConfigValue::Datetime(_) => false,
        ConfigValue::String(s) => p is String && p->String_0@ == s@,
        ConfigValue::Array(items) => p is Array && p->Array_0@.len() == items@.len()
            && items_written_as(items@, p->Array_0@, items@.len()),
        ConfigValue::Table(entries) => p is Dictionary && p->Dictionary_0@.len()
            == entries@.len() && entries_written_as(entries@, p->Dictionary_0@, entries@.len()),
    }
}

/// The first `n` configured items are written as the first `n` stored items.
pub open spec fn items_written_as(items: Seq<ConfigValue>, out: Seq<PrefVal>, n: nat) -> bool
    decreases items, n,
{
    if n == 0 || n > items.len() {
        true
    } else {
        items_written_as(items, out, (n - 1) as nat) && written_as(items[n - 1], out[n - 1])
    }
}

/// The first `n` configured entries are written as the first `n` stored entries,
/// under the same keys.
pub open spec fn entries_written_as(
    entries: Seq<(String, ConfigValue)>,
    out: Seq<(String, PrefVal)>,
    n: nat,
) -> bool
    decreases entries, n,
{
    if n == 0 || n > entries.len() {
        true
    } else {
        entries_written_as(entries, out, (n - 1) as nat) && out[n - 1].0@ == entries[n - 1].0@
            && written_as(entries[n - 1].1, out[n - 1].1)
    }
}

/// Why a configured value cannot be written.
pub enum ConvertError {
    /// The value is, or holds, a TOML datetime.
    UnsupportedDatetime,
}

/// The preference value that a configured value is written as.
#[verifier::loop_isolation(false)]
pub fn to_pref_value(c: &ConfigValue) -> (r: Result<PrefVal, ConvertError>)
    ensures
        r is Err <==> holds_datetime(*c),
        r matches Ok(p) ==> written_as(*c, p),
    decreases c,
{
    match c {
        ConfigValue::Boolean(b) => Ok(PrefVal::Boolean(*b)),
        ConfigValue::Integer(i) => Ok(PrefVal::Integer(*i)),
        ConfigValue::Float(t) => Ok(PrefVal::Float(t.clone())),
        ConfigValue::Datetime(_) => Err(ConvertError::UnsupportedDatetime),
        ConfigValue::String(s) => Ok(PrefVal::String(s.clone())),
        ConfigValue::Array(items) => {
            let mut out: Vec<PrefVal> = Vec::new();
            let mut i: usize = 0;
            while i < items.len()
                invariant
                    i <= items@.len(),
                    out@.len() == i,
                    items_written_as(items@, out@, i as nat),
                    !items_hold_datetime(items@, i as nat),
                decreases items@.len() - i,
            {
                match to_pref_value(&items[i]) {
                    Ok(p) => {
                        let ghost before = out@;
                        out.push(p);
                        proof {
                            assert(out@.take(i as int) =~= before);
                            lemma_items_written_as_extend(items@, before, out@, i as nat);
                        }
                    },
                    Err(e) => {
                        assert(items_hold_datetime(items@, (i + 1) as nat));
                        proof { lemma_items_hold_datetime_grow(items@, (i + 1) as nat, items@.len()); }
                        return Err(e);
                    },
                }
                i = i + 1;
            }
            Ok(PrefVal::Array(out))
        },
        ConfigValue::Table(entries) => {
            let mut out: Vec<(String, PrefVal)> = Vec::new();
            let mut i: usize = 0;
            while i < entries.len()
                invariant
                    i <= entries@.len(),
                    out@.len() == i,
                    entries_written_as(entries@, out@, i as nat),
                    !entries_hold_datetime(entries@, i as nat),
                decreases entries@.len() - i,
            {
                let entry = &entries[i];
                match to_pref_value(&entry.1) {
                    Ok(p) => {
                        let ghost before = out@;
                        out.push((entry.0.clone(), p));
                        proof {
                            assert(out@.take(i as int) =~= before);
                            lemma_entries_written_as_extend(entries@, before, out@, i as nat);
                        }
                    },
                    Err(e) => {
                        assert(entries_hold_datetime(entries@, (i + 1) as nat));
                        proof { lemma_entries_hold_datetime_grow(entries@, (i + 1) as nat, entries@.len()); }
                        return Err(e);
                    },
                }
                i = i + 1;
            }
            Ok(PrefVal::Dictionary(out))
        },
    }
}

proof fn lemma_items_hold_datetime_grow(items: Seq<ConfigValue>, n: nat, m: nat)
    requires
        n <= m <= items.len(),
        items_hold_datetime(items, n),
    ensures
        items_hold_datetime(items, m),
    decreases m,
{
    if m > n {
        lemma_items_hold_datetime_grow(items, n, (m - 1) as nat);
    }
}

proof fn lemma_entries_hold_datetime_grow(entries: Seq<(String, ConfigValue)>, n: nat, m: nat)
    requires
        n <= m <= entries.len(),
        entries_hold_datetime(entries, n),
    ensures
        entries_hold_datetime(entries, m),
    decreases m,
{
    if m > n {
        lemma_entries_hold_datetime_grow(entries, n, (m - 1) as nat);
    }
}

proof fn lemma_items_written_as_extend(
    items: Seq<ConfigValue>,
    before: Seq<PrefVal>,
    after: Seq<PrefVal>,
    n: nat,
)
    requires
        n < items.len(),
        after.len() == n + 1,
        before.len() == n,
        after.take(n as int) == before,
        items_written_as(items, before, n),
        written_as(items[n as int], after[n as int]),
    ensures
        items_written_as(items, after, n + 1),
{
    assert(before.take(n as int) =~= before);
    lemma_items_written_as_same_prefix(items, before, after, n);
}

proof fn lemma_items_written_as_same_prefix(
    items: Seq<ConfigValue>,
    a: Seq<PrefVal>,
    b: Seq<PrefVal>,
    n: nat,
)
    requires
        n <= a.len(),
        n <= b.len(),
        a.take(n as int) == b.take(n as int),
        items_written_as(items, a, n),
    ensures
        items_written_as(items, b, n),
    decreases n,
{
    if n > 0 && n <= items.len() {
        assert(a[n - 1] == a.take(n as int)[n - 1]);
        assert(b[n - 1] == b.take(n as int)[n - 1]);
        assert(a.take(n - 1) == a.take(n as int).take(n - 1));
        assert(b.take(n - 1) == b.take(n as int).take(n - 1));
        lemma_items_written_as_same_prefix(items, a, b, (n - 1) as nat);
    }
}

proof fn lemma_entries_written_as_extend(
    entries: Seq<(String, ConfigValue)>,
    before: Seq<(String, PrefVal)>,
    after: Seq<(String, PrefVal)>,
    n: nat,
)
    requires
        n < entries.len(),
        after.len() == n + 1,
        before.len() == n,
        after.take(n as int) == before,
        entries_written_as(entries, before, n),
        after[n as int].0@ == entries[n as int].0@,
        written_as(entries[n as int].1, after[n as int].1),
    ensures
        entries_written_as(entries, after, n + 1),
{
    assert(before.take(n as int) =~= before);
    lemma_entries_written_as_same_prefix(entries, before, after, n);
}

proof fn lemma_entries_written_as_same_prefix(
    entries: Seq<(String, ConfigValue)>,
    a: Seq<(String, PrefVal)>,
    b: Seq<(String, PrefVal)>,
    n: nat,
)
    requires
        n <= a.len(),
        n <= b.len(),
        a.take(n as int) == b.take(n as int),
        entries_written_as(entries, a, n),
    ensures
        entries_written_as(entries, b, n),
    decreases n,
{
    if n > 0 && n <= entries.len() {
        assert(a[n - 1] == a.take(n as int)[n - 1]);
        assert(b[n - 1] == b.take(n as int)[n - 1]);
        assert(a.take(n - 1) == a.take(n as int).take(n - 1));
        assert(b.take(n - 1) == b.take(n as int).take(n - 1));
        lemma_entries_written_as_same_prefix(entries, a, b, (n - 1) as nat);
    }
}


/// A configured value, once written, reads back as its desired text: the rendering
/// of the preference value that `to_pref_value` gives equals `normalize`'s. So a
/// setting that `apply` wrote counts as unchanged on the next `status` or `apply`.
pub proof fn lemma_written_value_reads_back(c: ConfigValue, p: PrefVal)
    requires
        written_as(c, p),
    ensures
        pref_text(p) == config_text(c),
    decreases c, 0nat,
{
    match c {
        ConfigValue::Array(items) => {
            lemma_items_read_back(items@, p->Array_0@, items@.len());
        },
        ConfigValue::Table(entries) => {
            lemma_entries_read_back(entries@, p->Dictionary_0@, entries@.len());
        },
        _ => {},
    }
}

proof fn lemma_items_read_back(items: Seq<ConfigValue>, out: Seq<PrefVal>, n: nat)
    requires
        n <= items.len(),
        out.len() == items.len(),
        items_written_as(items, out, n),
    ensures
        pref_items_text(out, n) == config_items_text(items, n),
    decreases items, n,
{
    if n > 0 {
        lemma_items_read_back(items, out, (n - 1) as nat);
        lemma_written_value_reads_back(items[n - 1], out[n - 1]);
    }
}

proof fn lemma_entries_read_back(
    entries: Seq<(String, ConfigValue)>,
    out: Seq<(String, PrefVal)>,
    n: nat,
)
    requires
        n <= entries.len(),
        out.len() == entries.len(),
        entries_written_as(entries, out, n),
    ensures
        pref_entries_text(out, n) == config_entries_text(entries, n),
    decreases entries, n,
{
    if n > 0 {
        lemma_entries_read_back(entries, out, (n - 1) as nat);
        lemma_written_value_reads_back(entries[n - 1].1, out[n - 1].1);
    }
}

} // verus!
