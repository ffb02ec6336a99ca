//! Grouping of writes and deletions by defaults domain, so that each domain is
//! written once (the batches of `apply` and `unapply`).

use vstd::prelude::*;
use crate::domains::PrefDomain;

verus! {

/// A defaults domain as (user domain name, is global).
pub type DomainKey = (Seq<char>, bool);

/// The groups as a map from domain to the positions grouped under it; a later group
/// for a domain replaces an earlier one.
pub open spec fn group_map(gs: Seq<(PrefDomain, Vec<usize>)>) -> Map<DomainKey, Seq<usize>>
    decreases gs.len(),
{
    if gs.len() == 0 {
        Map::empty()
    } else {
        group_map(gs.drop_last()).insert(gs.last().0.spec_parts(), gs.last().1@)
    }
}

/// No domain has two groups.
pub open spec fn groups_distinct(gs: Seq<(PrefDomain, Vec<usize>)>) -> bool {
    forall|i: int, j: int|
        0 <= i < j < gs.len() ==> gs[i].0.spec_parts() != gs[j].0.spec_parts()
}

/// The grouping of `(domain, position)` pairs taken in order: each position is added
/// at the end of its domain's group.
pub open spec fn group_fold(pairs: Seq<(DomainKey, usize)>) -> Map<DomainKey, Seq<usize>>
    decreases pairs.len(),
{
    if pairs.len() == 0 {
        Map::empty()
    } else {
        let m = group_fold(pairs.drop_last());
        let (k, x) = pairs.last();
        m.insert(
            k,
            (if m.contains_key(k) {
                m[k]
            } else {
                Seq::empty()
            }).push(x),
        )
    }
}

proof fn lemma_group_map_update(gs: Seq<(PrefDomain, Vec<usize>)>, j: int, e: (PrefDomain, Vec<usize>))
    requires
        groups_distinct(gs),
        0 <= j < gs.len(),
        gs[j].0.spec_parts() == e.0.spec_parts(),
    ensures
        group_map(gs.update(j, e)) == group_map(gs).insert(e.0.spec_parts(), e.1@),
        groups_distinct(gs.update(j, e)),
    decreases gs.len(),
{
    let u = gs.update(j, e);
    if j == gs.len() - 1 {
        assert(u.drop_last() =~= gs.drop_last());
        assert(group_map(u) =~= group_map(gs).insert(e.0.spec_parts(), e.1@));
    } else {
        assert(u.drop_last() =~= gs.drop_last().update(j, e));
        lemma_group_map_update(gs.drop_last(), j, e);
        assert(group_map(u) =~= group_map(gs).insert(e.0.spec_parts(), e.1@));
    }
}

proof fn lemma_group_map_has(gs: Seq<(PrefDomain, Vec<usize>)>, i: int)
    requires
        groups_distinct(gs),
        0 <= i < gs.len(),
    ensures
        group_map(gs).contains_key(gs[i].0.spec_parts()),
        group_map(gs)[gs[i].0.spec_parts()] == gs[i].1@,
    decreases gs.len(),
{
    if i < gs.len() - 1 {
        lemma_group_map_has(gs.drop_last(), i);
    }
}

proof fn lemma_group_map_lacks(gs: Seq<(PrefDomain, Vec<usize>)>, k: DomainKey)
    requires
        forall|i: int| 0 <= i < gs.len() ==> gs[i].0.spec_parts() != k,
    ensures
        !group_map(gs).contains_key(k),
    decreases gs.len(),
{
    if gs.len() > 0 {
        lemma_group_map_lacks(gs.drop_last(), k);
    }
}

/// Adds position `x` at the end of the group of domain `d`, opening a group for `d`
/// at the end if there is none.
pub fn add_to_group(groups: &mut Vec<(PrefDomain, Vec<usize>)>, d: PrefDomain, x: usize)
    requires
        groups_distinct(old(groups)@),
    ensures
        groups_distinct(final(groups)@),
        group_map(final(groups)@) == ({
            let m = group_map(old(groups)@);
            let k = d.spec_parts();
            m.insert(
                k,
                (if m.contains_key(k) {
                    m[k]
                } else {
                    Seq::empty()
                }).push(x),
            )
        }),
{
    let mut j: usize = 0;
    while j < groups.len()
        invariant
            j <= groups@.len(),
            groups@ == old(groups)@,
            groups_distinct(groups@),
            forall|i: int| 0 <= i < j ==> groups@[i].0.spec_parts() != d.spec_parts(),
        decreases groups@.len() - j,
    {
        if groups[j].0.same(&d) {
            let ghost before = groups@;
            proof {
                lemma_group_map_has(groups@, j as int);
            }
            let (_, mut members) = groups.remove(j);
            members.push(x);
            proof {
                lemma_group_map_update(before, j as int, (d, members));
            }
            groups.insert(j, (d, members));
            assert(groups@ =~= before.update(j as int, (d, members)));
            return;
        }
        j = j + 1;
    }
    let ghost before = groups@;
    proof {
        lemma_group_map_lacks(groups@, d.spec_parts());
    }
    let mut members: Vec<usize> = Vec::new();
    members.push(x);
    assert(members@ =~= Seq::<usize>::empty().push(x));
    groups.push((d, members));
    assert(groups@.drop_last() =~= before);
}


/// A position lies in a domain's group exactly when the pair (domain, position) was
/// grouped.
pub proof fn lemma_group_fold_member(pairs: Seq<(DomainKey, usize)>, k: DomainKey, x: usize)
    ensures
        (group_fold(pairs).contains_key(k) && group_fold(pairs)[k].contains(x)) <==> pairs.contains(
            (k, x),
        ),
    decreases pairs.len(),
{
    if pairs.len() > 0 {
        let prev = pairs.drop_last();
        lemma_group_fold_member(prev, k, x);
        let m = group_fold(prev);
        let (k2, x2) = pairs.last();
        let old_k2 = if m.contains_key(k2) {
            m[k2]
        } else {
            Seq::empty()
        };
        assert(pairs =~= prev.push((k2, x2)));
        if pairs.contains((k, x)) {
            let j = choose|j: int| 0 <= j < pairs.len() && pairs[j] == (k, x);
            if j < pairs.len() - 1 {
                assert(prev[j] == (k, x));
                if k == k2 {
                    assert(old_k2.push(x2)[old_k2.index_of(x)] == x);
                }
            } else {
                assert(old_k2.push(x2)[old_k2.len() as int] == x);
            }
        }
        if group_fold(pairs).contains_key(k) && group_fold(pairs)[k].contains(x) {
            if k == k2 {
                let q = choose|q: int| 0 <= q < old_k2.push(x2).len() && old_k2.push(x2)[q] == x;
                if q == old_k2.len() {
                    assert(pairs[pairs.len() - 1] == (k, x));
                } else {
                    assert(old_k2[q] == x);
                    assert(m.contains_key(k));
                    let j = choose|j: int| 0 <= j < prev.len() && prev[j] == (k, x);
                    assert(pairs[j] == (k, x));
                }
            } else {
                let j = choose|j: int| 0 <= j < prev.len() && prev[j] == (k, x);
                assert(pairs[j] == (k, x));
            }
        }
    }
}

} // verus!
