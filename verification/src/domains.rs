//! Reading the `[set]` section of the configuration into defaults domains, and the
//! naming rules that turn a configured domain and key into the ones the defaults
//! system uses.

use vstd::prelude::*;
use crate::config::ConfigValue;
use crate::text::{dotted, owned, starts_with, str_eq, strip_prefix};

verus! {

/// The settings of one domain: keys with their configured values, in document order.
pub type Settings = Vec<(String, ConfigValue)>;

/// The name of a domain as a character sequence, with its settings.
pub open spec fn domain_view(d: (String, Settings)) -> (Seq<char>, Seq<(String, ConfigValue)>) {
    (d.0@, d.1@)
}

/// A list of domains with their settings, viewed as sequences.
pub open spec fn domains_view(ds: Seq<(String, Settings)>) -> Seq<
    (Seq<char>, Seq<(String, ConfigValue)>),
> {
    ds.map_values(|d: (String, Settings)| domain_view(d))
}

/// The name of a nested table: `prefix.key`, or the key alone where there is no
/// prefix or the prefix is empty.
pub open spec fn join_prefix(prefix: Option<Seq<char>>, k: Seq<char>) -> Seq<char> {
    match prefix {
        Some(p) => if p.len() > 0 {
            p + seq!['.'] + k
        } else {
            k
        },
        None => k,
    }
}

/// The entries among the first `n` of a table whose values are not tables, in order.
pub open spec fn leaves(table: Seq<(String, ConfigValue)>, n: nat) -> Seq<(String, ConfigValue)>
    decreases n,
{
    if n == 0 || n > table.len() {
        Seq::empty()
    } else if table[n - 1].1 is Table {
        leaves(table, (n - 1) as nat)
    } else {
        leaves(table, (n - 1) as nat).push(table[n - 1])
    }
}

/// The domains that flattening a table under `prefix` yields: the
/// domains of its nested tables, in order, each under `prefix.key`; then, if the table
/// holds any non-table entries, one domain named `prefix` (empty if none) holding them.
pub open spec fn flatten(prefix: Option<Seq<char>>, table: Seq<(String, ConfigValue)>) -> Seq<
    (Seq<char>, Seq<(String, ConfigValue)>),
>
    decreases table, 1nat, 0nat,
{
    let own = leaves(table, table.len());
    flatten_nested(prefix, table, table.len()) + if own.len() > 0 {
        seq![
            (match prefix {
                Some(p) => p,
                None => Seq::empty(),
            }, own),
        ]
    } else {
        Seq::empty()
    }
}

/// The domains of the nested tables among the first `n` entries of a table.
pub open spec fn flatten_nested(
    prefix: Option<Seq<char>>,
    table: Seq<(String, ConfigValue)>,
    n: nat,
) -> Seq<(Seq<char>, Seq<(String, ConfigValue)>)>
    decreases table, 0nat, n,
{
    if n == 0 || n > table.len() {
        Seq::empty()
    } else {
        flatten_nested(prefix, table, (n - 1) as nat) + match table[n - 1].1 {
            ConfigValue::Table(inner) => flatten(Some(join_prefix(prefix, table[n - 1].0@)), inner@),
            _ => Seq::empty(),
        }
    }
}

/// An optional string, viewed as an optional character sequence.
pub open spec fn opt_view(o: Option<String>) -> Option<Seq<char>> {
    match o {
        Some(s) => Some(s@),
        None => None,
    }
}

/// Hands out the elements of `v` in reverse order.
pub fn reversed<T>(v: Vec<T>) -> (r: Vec<T>)
    ensures
        r@ == v@.reverse(),
{
    let mut v = v;
    let ghost orig = v@;
    let mut r: Vec<T> = Vec::new();
    while v.len() > 0
        invariant
            v@ == orig.take(v@.len() as int),
            v@.len() <= orig.len(),
            r@ == orig.skip(v@.len() as int).reverse(),
        decreases v@.len(),
    {
        let ghost n = v@.len();
        let x = v.pop().unwrap();
        r.push(x);
        assert(orig.skip(n - 1).reverse() =~= orig.skip(n as int).reverse().push(orig[n - 1]));
        assert(v@ =~= orig.take(n - 1));
    }
    assert(orig.skip(0) =~= orig);
    r
}

/// Flattens a table of settings into domains, appending them to
/// `dest` in the order `flatten` gives.
pub fn flatten_domains(
    prefix: Option<String>,
    table: Settings,
    dest: &mut Vec<(String, Settings)>,
)
    ensures
        domains_view(final(dest)@) == domains_view(old(dest)@) + flatten(opt_view(prefix), table@),
    decreases table,
{
    let ghost pre = opt_view(prefix);
    let ghost start = domains_view(dest@);
    let ghost t = table@;
    let n = table.len();
    let mut rest = reversed(table);
    let mut flat: Settings = Vec::new();
    let mut i: usize = 0;
    while i < n
        invariant
            n == t.len(),
            i <= n,
            rest@ == t.subrange(i as int, n as int).reverse(),
            flat@ == leaves(t, i as nat),
            domains_view(dest@) == start + flatten_nested(pre, t, i as nat),
            pre == opt_view(prefix),
            t == table@,
        decreases n - i,
    {
        proof {
            assert(t.subrange(i as int, n as int).reverse() =~= t.subrange(i + 1, n as int).reverse().push(t[i as int]));
        }
        let (k, v) = rest.pop().unwrap();
        match v {
            ConfigValue::Table(inner) => {
                let np = match &prefix {
                    Some(p) => if p.unicode_len() > 0 {
                        dotted(p.as_str(), k.as_str())
                    } else {
                        k
                    },
                    None => k,
                };
                proof {
                    assert(decreases_to!(table => table@));
                    assert(decreases_to!(table@ => table@[i as int]));
                    assert(decreases_to!(table@[i as int] => table@[i as int].1));
                    assert(decreases_to!(table@[i as int].1 => table@[i as int].1->Table_0));
                }
                flatten_domains(Some(np), inner, dest);
                proof {
                    assert(domains_view(dest@) =~= start + flatten_nested(pre, t, (i + 1) as nat));
                }
            },
            other => {
                flat.push((k, other));
            },
        }
        i = i + 1;
    }
    if flat.len() > 0 {
        let name = match prefix {
            Some(p) => p,
            None => String::new(),
        };
        let ghost before = dest@;
        dest.push((name, flat));
        proof {
            assert(domains_view(dest@) =~= domains_view(before).push(domain_view(dest@.last())));
        }
    }
    proof {
        assert(domains_view(dest@) =~= start + flatten(pre, t));
    }
}


/// A map from domain name to settings, as a list of its entries (`HashMap<String, Table>`).
pub open spec fn domain_map(ds: Seq<(String, Settings)>) -> Map<Seq<char>, Seq<(String, ConfigValue)>>
    decreases ds.len(),
{
    if ds.len() == 0 {
        Map::empty()
    } else {
        domain_map(ds.drop_last()).insert(ds.last().0@, ds.last().1@)
    }
}

/// No domain name occurs twice in the list.
pub open spec fn names_distinct(ds: Seq<(String, Settings)>) -> bool {
    forall|i: int, j: int| 0 <= i < j < ds.len() ==> ds[i].0@ != ds[j].0@
}

/// The map that results from inserting `(name, settings)` pairs in order; a later
/// pair for a name replaces an earlier one.
pub open spec fn insert_all(
    m: Map<Seq<char>, Seq<(String, ConfigValue)>>,
    ds: Seq<(Seq<char>, Seq<(String, ConfigValue)>)>,
) -> Map<Seq<char>, Seq<(String, ConfigValue)>>
    decreases ds.len(),
{
    if ds.len() == 0 {
        m
    } else {
        insert_all(m, ds.drop_last()).insert(ds.last().0, ds.last().1)
    }
}

/// The domains that the first `n` entries of the `[set]` table yield: each entry whose
/// value is a table is flattened under its key.
pub open spec fn set_section_domains(section: Seq<(String, ConfigValue)>, n: nat) -> Seq<
    (Seq<char>, Seq<(String, ConfigValue)>),
>
    decreases n,
{
    if n == 0 || n > section.len() {
        Seq::empty()
    } else {
        set_section_domains(section, (n - 1) as nat) + match section[n - 1].1 {
            ConfigValue::Table(inner) => flatten(Some(section[n - 1].0@), inner@),
            _ => Seq::empty(),
        }
    }
}

/// The name of the settings section, `set`.
pub open spec fn set_key() -> Seq<char> {
    seq!['s', 'e', 't']
}

/// The domains that the first `n` entries of the document's root yield: those of each
/// `set` entry whose value is a table.
pub open spec fn root_domains(root: Seq<(String, ConfigValue)>, n: nat) -> Seq<
    (Seq<char>, Seq<(String, ConfigValue)>),
>
    decreases n,
{
    if n == 0 || n > root.len() {
        Seq::empty()
    } else {
        root_domains(root, (n - 1) as nat) + if root[n - 1].0@ == set_key() {
            match root[n - 1].1 {
                ConfigValue::Table(section) => set_section_domains(section@, section@.len()),
                _ => Seq::empty(),
            }
        } else {
            Seq::empty()
        }
    }
}

/// What `collect` gives for a parsed document: `None` where the document is not a
/// table, else the map from each domain of `[set]` to its settings.
pub open spec fn collect_spec(parsed: ConfigValue) -> Option<Map<Seq<char>, Seq<(String, ConfigValue)>>> {
    match parsed {
        ConfigValue::Table(root) => Some(insert_all(Map::empty(), root_domains(root@, root@.len()))),
        _ => None,
    }
}

/// Why the configuration could not be read into domains.
pub enum CollectError {
    /// The document's root is not a table.
    NotATable,
}

proof fn lemma_domain_map_update(ds: Seq<(String, Settings)>, j: int, e: (String, Settings))
    requires
        names_distinct(ds),
        0 <= j < ds.len(),
        ds[j].0@ == e.0@,
    ensures
        domain_map(ds.update(j, e)) == domain_map(ds).insert(e.0@, e.1@),
        names_distinct(ds.update(j, e)),
    decreases ds.len(),
{
    let u = ds.update(j, e);
    if j == ds.len() - 1 {
        assert(u.drop_last() =~= ds.drop_last());
        assert(domain_map(u) =~= domain_map(ds).insert(e.0@, e.1@));
    } else {
        assert(u.drop_last() =~= ds.drop_last().update(j, e));
        lemma_domain_map_update(ds.drop_last(), j, e);
        assert(domain_map(u) =~= domain_map(ds).insert(e.0@, e.1@));
    }
}

proof fn lemma_domain_map_lacks(ds: Seq<(String, Settings)>, k: Seq<char>)
    requires
        forall|i: int| 0 <= i < ds.len() ==> ds[i].0@ != k,
    ensures
        !domain_map(ds).contains_key(k),
    decreases ds.len(),
{
    if ds.len() > 0 {
        lemma_domain_map_lacks(ds.drop_last(), k);
    }
}

/// Puts `(name, settings)` into the map, replacing what the name held.
fn insert_domain(out: &mut Vec<(String, Settings)>, name: String, settings: Settings)
    requires
        names_distinct(old(out)@),
    ensures
        names_distinct(final(out)@),
        domain_map(final(out)@) == domain_map(old(out)@).insert(name@, settings@),
{
    let mut j: usize = 0;
    while j < out.len()
        invariant
            j <= out@.len(),
            out@ == old(out)@,
            names_distinct(out@),
            forall|i: int| 0 <= i < j ==> out@[i].0@ != name@,
        decreases out@.len() - j,
    {
        if str_eq(out[j].0.as_str(), name.as_str()) {
            let ghost before = out@;
            proof {
                lemma_domain_map_update(out@, j as int, (name, settings));
            }
            out[j] = (name, settings);
            assert(out@ == before.update(j as int, (name, settings)));
            return;
        }
        j = j + 1;
    }
    let ghost before = out@;
    proof {
        lemma_domain_map_lacks(out@, name@);
    }
    out.push((name, settings));
    proof {
        assert(out@.drop_last() =~= before);
        assert(out@.last() == (name, settings));
    }
}

/// Collects the domains of the `[set]` section: each table under `[set]`,
/// flattened, with later domains of the same name replacing earlier ones.
pub fn collect(parsed: ConfigValue) -> (r: Result<Vec<(String, Settings)>, CollectError>)
    ensures
        r is Err <==> collect_spec(parsed) is None,
        r matches Ok(ds) ==> names_distinct(ds@) && Some(domain_map(ds@)) == collect_spec(parsed),
{
    let root = match parsed {
        ConfigValue::Table(root) => root,
        _ => {
            return Err(CollectError::NotATable);
        },
    };
    let ghost r0 = root@;
    let mut out: Vec<(String, Settings)> = Vec::new();
    let n = root.len();
    let mut rest = reversed(root);
    let mut i: usize = 0;
    while i < n
        invariant
            n == r0.len(),
            i <= n,
            rest@ == r0.subrange(i as int, n as int).reverse(),
            names_distinct(out@),
            domain_map(out@) == insert_all(Map::empty(), root_domains(r0, i as nat)),
        decreases n - i,
    {
        proof {
            assert(r0.subrange(i as int, n as int).reverse() =~= r0.subrange(i + 1, n as int).reverse().push(r0[i as int]));
        }
        let (key, val) = rest.pop().unwrap();
        let is_set = str_eq(key.as_str(), "set");
        proof {
            reveal_strlit("set");
            assert("set"@ =~= set_key());
        }
        if is_set {
            match val {
                ConfigValue::Table(section) => {
                    let ghost s0 = section@;
                    let m = section.len();
                    let mut srest = reversed(section);
                    let mut j: usize = 0;
                    while j < m
                        invariant
                            m == s0.len(),
                            j <= m,
                            srest@ == s0.subrange(j as int, m as int).reverse(),
                            names_distinct(out@),
                            domain_map(out@) == insert_all(
                                insert_all(Map::empty(), root_domains(r0, i as nat)),
                                set_section_domains(s0, j as nat),
                            ),
                        decreases m - j,
                    {
                        proof {
                            assert(s0.subrange(j as int, m as int).reverse() =~= s0.subrange(j + 1, m as int).reverse().push(s0[j as int]));
                        }
                        let (domain_key, domain_val) = srest.pop().unwrap();
                        match domain_val {
                            ConfigValue::Table(inner) => {
                                let ghost dk = domain_key@;
                                let ghost iv = inner@;
                                let mut flat: Vec<(String, Settings)> = Vec::new();
                                flatten_domains(Some(domain_key), inner, &mut flat);
                                let ghost fe = flat@;
                                let ghost fl = domains_view(fe);
                                assert(fl =~= flatten(Some(dk), iv));
                                let ghost base = domain_map(out@);
                                let fm = flat.len();
                                let mut frest = reversed(flat);
                                let mut q: usize = 0;
                                while q < fm
                                    invariant
                                        fm == fe.len(),
                                        fl == domains_view(fe),
                                        q <= fm,
                                        frest@ == fe.subrange(q as int, fm as int).reverse(),
                                        names_distinct(out@),
                                        domain_map(out@) == insert_all(base, fl.take(q as int)),
                                    decreases fm - q,
                                {
                                    proof {
                                        assert(fe.subrange(q as int, fm as int).reverse() =~= fe.subrange(q + 1, fm as int).reverse().push(fe[q as int]));
                                        assert(fl.take(q + 1).drop_last() =~= fl.take(q as int));
                                    }
                                    let (dname, dtable) = frest.pop().unwrap();
                                    insert_domain(&mut out, dname, dtable);
                                    q = q + 1;
                                }
                                proof {
                                    assert(fl.take(fm as int) =~= fl);
                                    lemma_insert_all_concat(
                                        insert_all(Map::empty(), root_domains(r0, i as nat)),
                                        set_section_domains(s0, j as nat),
                                        fl,
                                    );
                                }
                            },
                            _ => {
                                assert(set_section_domains(s0, (j + 1) as nat) =~= set_section_domains(s0, j as nat));
                            },
                        }
                        j = j + 1;
                    }
                    proof {
                        lemma_insert_all_concat(
                            Map::empty(),
                            root_domains(r0, i as nat),
                            set_section_domains(s0, m as nat),
                        );
                    }
                },
                _ => {
                    assert(root_domains(r0, (i + 1) as nat) =~= root_domains(r0, i as nat));
                },
            }
        } else {
            assert(root_domains(r0, (i + 1) as nat) =~= root_domains(r0, i as nat));
        }
        i = i + 1;
    }
    Ok(out)
}

proof fn lemma_insert_all_concat(
    m: Map<Seq<char>, Seq<(String, ConfigValue)>>,
    a: Seq<(Seq<char>, Seq<(String, ConfigValue)>)>,
    b: Seq<(Seq<char>, Seq<(String, ConfigValue)>)>,
)
    ensures
        insert_all(m, a + b) == insert_all(insert_all(m, a), b),
    decreases b.len(),
{
    if b.len() == 0 {
        assert(a + b =~= a);
    } else {
        assert((a + b).drop_last() =~= a + b.drop_last());
        lemma_insert_all_concat(m, a, b.drop_last());
    }
}


/// The name of the global domain, `NSGlobalDomain`.
pub open spec fn global_domain() -> Seq<char> {
    "NSGlobalDomain"@
}

/// The prefix of a configured domain that names keys inside the global domain.
pub open spec fn global_prefix() -> Seq<char> {
    "NSGlobalDomain."@
}

/// The prefix of Apple's own domains, `com.apple.`.
pub open spec fn apple_prefix() -> Seq<char> {
    "com.apple."@
}

/// The defaults domain and key that a configured domain and key stand for:
/// `NSGlobalDomain` stays global; `NSGlobalDomain.rest` names the key `rest.key` in
/// the global domain (the key alone when `rest` is empty); a domain that already
/// starts with `com.apple.` is used as it is; any other domain `d` is `com.apple.d`.
/// The key is unchanged in the last two cases.
pub open spec fn effective_spec(domain: Seq<char>, key: Seq<char>) -> (Seq<char>, Seq<char>) {
    if domain == global_domain() {
        (global_domain(), key)
    } else if global_prefix().is_prefix_of(domain) {
        let rest = domain.subrange(global_prefix().len() as int, domain.len() as int);
        if rest.len() == 0 {
            (global_domain(), key)
        } else {
            (global_domain(), rest + seq!['.'] + key)
        }
    } else if apple_prefix().is_prefix_of(domain) {
        (domain, key)
    } else {
        (apple_prefix() + domain, key)
    }
}

/// Given a configured domain and key, the effective defaults domain and key.
pub fn effective(domain: &str, key: &str) -> (r: (String, String))
    ensures
        (r.0@, r.1@) == effective_spec(domain@, key@),
{
    if str_eq(domain, "NSGlobalDomain") {
        (owned("NSGlobalDomain"), owned(key))
    } else {
        match strip_prefix(domain, "NSGlobalDomain.") {
            Some(rest) => {
                if rest.unicode_len() == 0 {
                    (owned("NSGlobalDomain"), owned(key))
                } else {
                    (owned("NSGlobalDomain"), dotted(rest.as_str(), key))
                }
            },
            None => {
                if starts_with(domain, "com.apple.") {
                    (owned(domain), owned(key))
                } else {
                    (apple_domain(domain), owned(key))
                }
            },
        }
    }
}

/// Whether a configured domain is one that `com.apple.` is put before:
/// it starts neither with `NSGlobalDomain` nor with `com.apple.`.
pub fn needs_prefix(domain: &str) -> (r: bool)
    ensures
        r == (!global_domain().is_prefix_of(domain@) && !apple_prefix().is_prefix_of(domain@)),
{
    !starts_with(domain, "NSGlobalDomain") && !starts_with(domain, "com.apple.")
}

/// The full name of a configured domain that `com.apple.` is put before.
pub fn apple_domain(domain: &str) -> (r: String)
    ensures
        r@ == apple_prefix() + domain@,
{
    let mut d = owned("com.apple.");
    d.append(domain);
    d
}

/// A preferences domain of the defaults system: the global one or a named one.
pub enum PrefDomain {
    User(String),
    Global,
}

/// The defaults domain that an effective domain name addresses: the global domain for
/// `NSGlobalDomain`, else the domain of that name.
pub open spec fn pref_domain_spec(name: Seq<char>) -> (Seq<char>, bool) {
    if name == global_domain() {
        (Seq::empty(), true)
    } else {
        (name, false)
    }
}

impl PrefDomain {
    /// The domain as (user domain name, is global).
    pub open spec fn spec_parts(self) -> (Seq<char>, bool) {
        match self {
            PrefDomain::User(n) => (n@, false),
            PrefDomain::Global => (Seq::empty(), true),
        }
    }

    /// The name under which the domain is shown: `NSGlobalDomain` for the global one.
    pub open spec fn spec_display(self) -> Seq<char> {
        match self {
            PrefDomain::User(n) => n@,
            PrefDomain::Global => global_domain(),
        }
    }

    /// The name under which the domain is shown (`Display` of the defaults domain).
    pub fn display_name(&self) -> (r: String)
        ensures
            r@ == self.spec_display(),
    {
        match self {
            PrefDomain::User(n) => n.clone(),
            PrefDomain::Global => owned("NSGlobalDomain"),
        }
    }

    /// Whether two domains are the same domain.
    pub fn same(&self, other: &PrefDomain) -> (r: bool)
        ensures
            r == (self.spec_parts() == other.spec_parts()),
    {
        match (self, other) {
            (PrefDomain::Global, PrefDomain::Global) => true,
            (PrefDomain::User(a), PrefDomain::User(b)) => str_eq(a.as_str(), b.as_str()),
            _ => false,
        }
    }
}

/// The defaults domain object for an effective domain name, as reading, writing and
/// deleting a setting address it.
pub fn pref_domain(name: &str) -> (r: PrefDomain)
    ensures
        r.spec_parts() == pref_domain_spec(name@),
{
    if str_eq(name, "NSGlobalDomain") {
        PrefDomain::Global
    } else {
        match strip_prefix(name, "com.apple.") {
            Some(rest) => PrefDomain::User(apple_domain(rest.as_str())),
            None => PrefDomain::User(owned(name)),
        }
    }
}

/// An effective domain name survives the trip through the defaults domain object:
/// the domain that `pref_domain` chooses is shown under the same name.
pub proof fn lemma_pref_domain_display(name: Seq<char>, d: PrefDomain)
    requires
        d.spec_parts() == pref_domain_spec(name),
    ensures
        d.spec_display() == name,
{
}

/// Why a configured domain was refused.
pub enum DomainError {
    /// The domain is not among the domains that the system knows.
    Missing(String),
}

/// Whether the system knows a domain, given the list of known domains: `Ok` when `full_domain` is in the list, else the error naming it.
pub fn check_domain_exists(known: &Vec<String>, full_domain: &str) -> (r: Result<(), DomainError>)
    ensures
        r is Ok <==> exists|i: int| 0 <= i < known@.len() && #[trigger] known@[i]@ == full_domain@,
        r matches Err(DomainError::Missing(n)) ==> n@ == full_domain@,
{
    let mut i: usize = 0;
    while i < known.len()
        invariant
            i <= known@.len(),
            forall|j: int| 0 <= j < i ==> #[trigger] known@[j]@ != full_domain@,
        decreases known@.len() - i,
    {
        if str_eq(known[i].as_str(), full_domain) {
            return Ok(());
        }
        i = i + 1;
    }
    Err(DomainError::Missing(owned(full_domain)))
}


/// A domain that `com.apple.` is put before is looked up as `com.apple.` followed by
/// the domain, with the key unchanged: the domain whose existence `apply` checks is
/// the domain that its settings go to.
pub proof fn lemma_prefixed_domain_effective(domain: Seq<char>, key: Seq<char>)
    requires
        !global_domain().is_prefix_of(domain),
        !apple_prefix().is_prefix_of(domain),
    ensures
        effective_spec(domain, key) == (apple_prefix() + domain, key),
{
    reveal_strlit("NSGlobalDomain");
    reveal_strlit("NSGlobalDomain.");
    if domain == global_domain() {
        assert(global_domain().is_prefix_of(domain));
    }
    if global_prefix().is_prefix_of(domain) {
        assert(forall|i: int| 0 <= i < global_domain().len() ==> global_domain()[i] == global_prefix()[i]);
        assert(global_domain().is_prefix_of(domain));
    }
}

/// A domain that already starts with `com.apple.` is used as it is, with the key
/// unchanged: the prefix is never put before it a second time.
pub proof fn lemma_apple_domain_effective(domain: Seq<char>, key: Seq<char>)
    requires
        apple_prefix().is_prefix_of(domain),
    ensures
        effective_spec(domain, key) == (domain, key),
{
    reveal_strlit("NSGlobalDomain");
    reveal_strlit("NSGlobalDomain.");
    reveal_strlit("com.apple.");
    assert(apple_prefix()[0] == 'c');
    assert(domain.subrange(0, apple_prefix().len() as int)[0] == domain[0]);
    assert(domain[0] == 'c');
    assert(global_domain()[0] == 'N');
    assert(global_prefix()[0] == 'N');
    if global_prefix().is_prefix_of(domain) {
        assert(domain.subrange(0, global_prefix().len() as int)[0] == domain[0]);
    }
    assert(domain != global_domain());
}

/// Every effective domain is either the global domain or an Apple domain.
pub proof fn lemma_effective_domain_kind(domain: Seq<char>, key: Seq<char>)
    ensures
        effective_spec(domain, key).0 == global_domain() || apple_prefix().is_prefix_of(
            effective_spec(domain, key).0,
        ),
{
    if !(domain == global_domain()) && !global_prefix().is_prefix_of(domain) {
        assert((apple_prefix() + domain).subrange(0, apple_prefix().len() as int) =~= apple_prefix());
    }
}


impl DomainError {
    /// The error's message: `Domain "d" does not exist!`.
    pub fn message(&self) -> (r: String)
        ensures
            self matches DomainError::Missing(n) ==> r@ == "Domain \""@ + n@ + "\" does not exist!"@,
    {
        match self {
            DomainError::Missing(n) => {
                let mut m = owned("Domain \"");
                m.append(n.as_str());
                m.append("\" does not exist!");
                m
            },
        }
    }
}

impl CollectError {
    /// The error's message: `Config is not a TOML table`.
    pub fn message(&self) -> (r: String)
        ensures
            r@ == "Config is not a TOML table"@,
    {
        owned("Config is not a TOML table")
    }
}

proof fn lemma_leaves_members(table: Seq<(String, ConfigValue)>, n: nat)
    requires
        n <= table.len(),
    ensures
        forall|i: int| 0 <= i < n && !(table[i].1 is Table) ==> leaves(table, n).contains(#[trigger] table[i]),
        forall|x: (String, ConfigValue)| #[trigger] leaves(table, n).contains(x) ==> table.take(n as int).contains(x)
            && !(x.1 is Table),
        leaves(table, n).len() <= n,
        leaves(table, n) == table.take(n as int).filter(|e: (String, ConfigValue)| !(e.1 is Table)),
    decreases n,
{
    if n == 0 {
        assert(table.take(0) =~= Seq::<(String, ConfigValue)>::empty());
        reveal(Seq::filter);
    }
    if n > 0 {
        lemma_leaves_members(table, (n - 1) as nat);
        assert(table.take(n as int).drop_last() =~= table.take(n - 1));
        let tk = table.take(n as int);
        assert(tk.last() == table[n - 1]);
        reveal(Seq::filter);
        let prev = leaves(table, (n - 1) as nat);
        let cur = leaves(table, n);
        assert(table.take(n as int) =~= table.take(n - 1).push(table[n - 1]));
        assert forall|i: int| 0 <= i < n && !(table[i].1 is Table) implies cur.contains(#[trigger] table[i]) by {
            if i < n - 1 {
                let k = choose|k: int| 0 <= k < prev.len() && #[trigger] prev[k] == table[i];
                if !(table[n - 1].1 is Table) {
                    assert(cur[k] == table[i]);
                }
            } else {
                assert(cur[prev.len() as int] == table[i]);
            }
        }
        assert forall|x: (String, ConfigValue)| #[trigger] cur.contains(x) implies table.take(n as int).contains(x)
            && !(x.1 is Table) by {
            let k = choose|k: int| 0 <= k < cur.len() && #[trigger] cur[k] == x;
            if k < prev.len() {
                assert(prev[k] == x);
                assert(prev.contains(x));
                let m = choose|m: int| 0 <= m < table.take(n - 1).len() && #[trigger] table.take(n - 1)[m] == x;
                assert(table.take(n as int)[m] == x);
            } else {
                assert(table.take(n as int)[n - 1] == x);
            }
        }
    }
}

/// The settings of a configured domain are exactly the entries of its table whose
/// values are not tables, in the table's order: each such entry, with its key and
/// value, is a setting, and every setting is such an entry of the table.
pub proof fn lemma_leaves_are_settings(table: Seq<(String, ConfigValue)>)
    ensures
        forall|i: int|
            0 <= i < table.len() && !(table[i].1 is Table) ==> leaves(table, table.len()).contains(
                #[trigger] table[i],
            ),
        forall|x: (String, ConfigValue)| #[trigger]
            leaves(table, table.len()).contains(x) ==> table.contains(x) && !(x.1 is Table),
        leaves(table, table.len()).len() <= table.len(),
        leaves(table, table.len()) == table.filter(|e: (String, ConfigValue)| !(e.1 is Table)),
{
    lemma_leaves_members(table, table.len());
    assert(table.take(table.len() as int) =~= table);
}

/// Flattening a table that holds settings of its own ends with one domain, named by the
/// prefix (empty if none), whose settings are all the table's non-table entries, with
/// their keys and values, in order.
pub proof fn lemma_flatten_own_settings(prefix: Option<Seq<char>>, table: Seq<(String, ConfigValue)>, i: int)
    requires
        0 <= i < table.len(),
        !(table[i].1 is Table),
    ensures
        flatten(prefix, table).len() > 0,
        flatten(prefix, table).last() == (
            match prefix {
                Some(p) => p,
                None => Seq::empty(),
            },
            table.filter(|e: (String, ConfigValue)| !(e.1 is Table)),
        ),
        flatten(prefix, table).last().1.contains(table[i]),
{
    lemma_leaves_are_settings(table);
    assert(leaves(table, table.len()).contains(table[i]));
    assert(leaves(table, table.len()).len() > 0);
}

proof fn lemma_flatten_nested_contains(
    prefix: Option<Seq<char>>,
    table: Seq<(String, ConfigValue)>,
    n: nat,
    i: int,
    j: int,
)
    requires
        0 <= i < n <= table.len(),
        table[i].1 is Table,
        0 <= j < table[i].1->Table_0@.len(),
        !(table[i].1->Table_0@[j].1 is Table),
    ensures
        flatten_nested(prefix, table, n).contains(
            (
                join_prefix(prefix, table[i].0@),
                table[i].1->Table_0@.filter(|e: (String, ConfigValue)| !(e.1 is Table)),
            ),
        ),
    decreases n,
{
    let a = flatten_nested(prefix, table, (n - 1) as nat);
    let cur = flatten_nested(prefix, table, n);
    let target = (
        join_prefix(prefix, table[i].0@),
        table[i].1->Table_0@.filter(|e: (String, ConfigValue)| !(e.1 is Table)),
    );
    if i == n - 1 {
        let inner = table[i].1->Table_0@;
        let b = flatten(Some(join_prefix(prefix, table[i].0@)), inner);
        lemma_flatten_own_settings(Some(join_prefix(prefix, table[i].0@)), inner, j);
        assert(cur == a + b);
        assert(cur[a.len() + b.len() - 1] == b.last());
    } else {
        lemma_flatten_nested_contains(prefix, table, (n - 1) as nat, i, j);
        let k = choose|k: int| 0 <= k < a.len() && #[trigger] a[k] == target;
        let b = match table[n - 1].1 {
            ConfigValue::Table(inner) => flatten(Some(join_prefix(prefix, table[n - 1].0@)), inner@),
            _ => Seq::empty(),
        };
        assert(cur == a + b);
        assert(cur[k] == target);
    }
}

/// Each nested table that holds settings of its own becomes a domain named
/// `prefix.key` (the key alone without a prefix), whose settings are all the nested
/// table's non-table entries, in order.
pub proof fn lemma_flatten_nested_domain(prefix: Option<Seq<char>>, table: Seq<(String, ConfigValue)>, i: int, j: int)
    requires
        0 <= i < table.len(),
        table[i].1 is Table,
        0 <= j < table[i].1->Table_0@.len(),
        !(table[i].1->Table_0@[j].1 is Table),
    ensures
        flatten(prefix, table).contains(
            (
                join_prefix(prefix, table[i].0@),
                table[i].1->Table_0@.filter(|e: (String, ConfigValue)| !(e.1 is Table)),
            ),
        ),
{
    lemma_flatten_nested_contains(prefix, table, table.len(), i, j);
    let a = flatten_nested(prefix, table, table.len());
    let target = (
        join_prefix(prefix, table[i].0@),
        table[i].1->Table_0@.filter(|e: (String, ConfigValue)| !(e.1 is Table)),
    );
    let k = choose|k: int| 0 <= k < a.len() && #[trigger] a[k] == target;
    let own = leaves(table, table.len());
    let rest = if own.len() > 0 {
        seq![
            (match prefix {
                Some(p) => p,
                None => Seq::empty(),
            }, own),
        ]
    } else {
        Seq::empty()
    };
    assert(flatten(prefix, table) == a + rest);
    assert(flatten(prefix, table)[k] == target);
}

} // verus!
