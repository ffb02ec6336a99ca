//! The snapshot: what `apply` changed, with the value each setting held before cutler
//! first touched it, so that `unapply` can undo it.

use vstd::prelude::*;
use crate::domains::opt_view;
use crate::text::str_eq;

verus! {

/// One setting that cutler changed: its effective domain and key, the value it had
/// before (none if cutler did not record one), and the value cutler gave it.
pub struct SettingState {
    pub domain: String,
    pub key: String,
    pub original_value: Option<String>,
    pub new_value: String,
}

/// A setting's identity: effective domain and key.
pub open spec fn setting_key(s: SettingState) -> (Seq<char>, Seq<char>) {
    (s.domain@, s.key@)
}

/// What the snapshot records of a setting: original value and new value.
pub open spec fn setting_record(s: SettingState) -> (Option<Seq<char>>, Seq<char>) {
    (opt_view(s.original_value), s.new_value@)
}

/// The snapshot as a map from setting to record; a later entry for the same setting
/// replaces an earlier one.
pub open spec fn snapshot_map(ss: Seq<SettingState>) -> Map<
    (Seq<char>, Seq<char>),
    (Option<Seq<char>>, Seq<char>),
>
    decreases ss.len(),
{
    if ss.len() == 0 {
        Map::empty()
    } else {
        snapshot_map(ss.drop_last()).insert(setting_key(ss.last()), setting_record(ss.last()))
    }
}

/// No setting occurs twice.
pub open spec fn keys_distinct(ss: Seq<SettingState>) -> bool {
    forall|i: int, j: int| 0 <= i < j < ss.len() ==> setting_key(ss[i]) != setting_key(ss[j])
}

/// Whether a snapshot entry is for the given domain and key.
pub fn is_setting(s: &SettingState, domain: &str, key: &str) -> (r: bool)
    ensures
        r == (setting_key(*s) == (domain@, key@)),
{
    str_eq(s.domain.as_str(), domain) && str_eq(s.key.as_str(), key)
}

/// The position of the entry for a setting in a list with distinct settings.
pub fn find_setting(ss: &Vec<SettingState>, domain: &str, key: &str) -> (r: Option<usize>)
    ensures
        r matches Some(i) ==> i < ss@.len() && setting_key(ss@[i as int]) == (domain@, key@),
        r is None ==> forall|i: int| 0 <= i < ss@.len() ==> setting_key(ss@[i]) != (domain@, key@),
{
    let mut i: usize = 0;
    while i < ss.len()
        invariant
            i <= ss@.len(),
            forall|j: int| 0 <= j < i ==> setting_key(ss@[j]) != (domain@, key@),
        decreases ss@.len() - i,
    {
        if is_setting(&ss[i], domain, key) {
            return Some(i);
        }
        i = i + 1;
    }
    None
}

pub proof fn lemma_snapshot_map_lacks(ss: Seq<SettingState>, k: (Seq<char>, Seq<char>))
    requires
        forall|i: int| 0 <= i < ss.len() ==> setting_key(ss[i]) != k,
    ensures
        !snapshot_map(ss).contains_key(k),
    decreases ss.len(),
{
    if ss.len() > 0 {
        lemma_snapshot_map_lacks(ss.drop_last(), k);
    }
}

pub proof fn lemma_snapshot_map_has(ss: Seq<SettingState>, i: int)
    requires
        keys_distinct(ss),
        0 <= i < ss.len(),
    ensures
        snapshot_map(ss).contains_key(setting_key(ss[i])),
        snapshot_map(ss)[setting_key(ss[i])] == setting_record(ss[i]),
    decreases ss.len(),
{
    if i < ss.len() - 1 {
        lemma_snapshot_map_has(ss.drop_last(), i);
    }
}

pub proof fn lemma_snapshot_map_update(ss: Seq<SettingState>, j: int, e: SettingState)
    requires
        keys_distinct(ss),
        0 <= j < ss.len(),
        setting_key(ss[j]) == setting_key(e),
    ensures
        snapshot_map(ss.update(j, e)) == snapshot_map(ss).insert(setting_key(e), setting_record(e)),
        keys_distinct(ss.update(j, e)),
    decreases ss.len(),
{
    let u = ss.update(j, e);
    if j == ss.len() - 1 {
        assert(u.drop_last() =~= ss.drop_last());
        assert(snapshot_map(u) =~= snapshot_map(ss).insert(setting_key(e), setting_record(e)));
    } else {
        assert(u.drop_last() =~= ss.drop_last().update(j, e));
        lemma_snapshot_map_update(ss.drop_last(), j, e);
        assert(snapshot_map(u) =~= snapshot_map(ss).insert(setting_key(e), setting_record(e)));
    }
}

pub proof fn lemma_snapshot_map_remove(ss: Seq<SettingState>, j: int)
    requires
        keys_distinct(ss),
        0 <= j < ss.len(),
    ensures
        snapshot_map(ss.remove(j)) == snapshot_map(ss).remove(setting_key(ss[j])),
        keys_distinct(ss.remove(j)),
    decreases ss.len(),
{
    let u = ss.remove(j);
    if j == ss.len() - 1 {
        assert(u =~= ss.drop_last());
        lemma_snapshot_map_lacks(ss.drop_last(), setting_key(ss[j]));
        assert(snapshot_map(u) =~= snapshot_map(ss).remove(setting_key(ss[j])));
    } else {
        assert(u.drop_last() =~= ss.drop_last().remove(j));
        lemma_snapshot_map_remove(ss.drop_last(), j);
        assert(snapshot_map(u) =~= snapshot_map(ss).remove(setting_key(ss[j])));
    }
}

/// Puts an entry into a list with distinct settings, replacing the entry for the same
/// setting if there is one.
pub fn upsert_setting(ss: &mut Vec<SettingState>, e: SettingState)
    requires
        keys_distinct(old(ss)@),
    ensures
        keys_distinct(final(ss)@),
        snapshot_map(final(ss)@) == snapshot_map(old(ss)@).insert(setting_key(e), setting_record(e)),
{
    match find_setting(ss, e.domain.as_str(), e.key.as_str()) {
        Some(j) => {
            let ghost before = ss@;
            proof {
                lemma_snapshot_map_update(ss@, j as int, e);
            }
            ss[j] = e;
            assert(ss@ == before.update(j as int, e));
        },
        None => {
            let ghost before = ss@;
            proof {
                lemma_snapshot_map_lacks(ss@, setting_key(e));
            }
            ss.push(e);
            assert(ss@.drop_last() =~= before);
        },
    }
}

/// The entries of a loaded snapshot, one per setting (the lookup table `apply` builds):
/// a later entry for a setting replaces an earlier one.
pub fn index_snapshot(settings: Vec<SettingState>) -> (r: Vec<SettingState>)
    ensures
        keys_distinct(r@),
        snapshot_map(r@) == snapshot_map(settings@),
{
    let ghost s0 = settings@;
    let n = settings.len();
    let mut rest = crate::domains::reversed(settings);
    let mut out: Vec<SettingState> = Vec::new();
    let mut i: usize = 0;
    while i < n
        invariant
            n == s0.len(),
            i <= n,
            rest@ == s0.subrange(i as int, n as int).reverse(),
            keys_distinct(out@),
            snapshot_map(out@) == snapshot_map(s0.take(i as int)),
        decreases n - i,
    {
        proof {
            assert(s0.subrange(i as int, n as int).reverse() =~= s0.subrange(i + 1, n as int).reverse().push(s0[i as int]));
            assert(s0.take(i + 1).drop_last() =~= s0.take(i as int));
        }
        let e = rest.pop().unwrap();
        upsert_setting(&mut out, e);
        i = i + 1;
    }
    assert(s0.take(n as int) =~= s0);
    out
}

} // verus!
