//! The adjacent-run grouper: a generic, content-agnostic pass that splits a
//! sequence into maximal runs of consecutive items whose keys are equal.

use vstd::prelude::*;

use vstd::std_specs::cmp::PartialEqSpec;

verus! {

/// All items of all groups, in order: the flattening of a grouping.
pub open spec fn concat_groups<T>(gs: Seq<Seq<T>>) -> Seq<T>
    decreases gs.len(),
{
    if gs.len() == 0 {
        Seq::<T>::empty()
    } else {
        gs[0] + concat_groups(gs.drop_first())
    }
}

/// Flattening distributes over appending one group at the end.
pub proof fn lemma_concat_groups_push<T>(gs: Seq<Seq<T>>, g: Seq<T>)
    ensures
        concat_groups(gs.push(g)) == concat_groups(gs) + g,
    decreases gs.len(),
{
    if gs.len() == 0 {
        assert(gs.push(g).drop_first() =~= Seq::<Seq<T>>::empty());
        assert(concat_groups(Seq::<Seq<T>>::empty()) == Seq::<T>::empty());
        assert(gs.push(g)[0] == g);
        assert(concat_groups(gs.push(g)) == g + Seq::<T>::empty());
        assert(g + Seq::<T>::empty() =~= Seq::<T>::empty() + g);
    } else {
        assert(gs.push(g).drop_first() =~= gs.drop_first().push(g));
        lemma_concat_groups_push(gs.drop_first(), g);
        assert(gs[0] + (concat_groups(gs.drop_first()) + g) =~= (gs[0] + concat_groups(
            gs.drop_first(),
        )) + g);
    }
}

/// Every group is non-empty.
pub open spec fn all_nonempty<T>(gs: Seq<Seq<T>>) -> bool {
    forall|i: int| 0 <= i < gs.len() ==> #[trigger] gs[i].len() > 0
}

/// Every item of the single group `g` has a key (a value the key function
/// may return for it) that compares equal to a key of the group's first item.
pub open spec fn group_matches<T, K, F>(grouper: F, g: Seq<T>) -> bool where
    K: PartialEqSpec,
    F: Fn(&T) -> K,
{
    forall|j: int|
        #![trigger g[j]]
        0 < j < g.len() ==> exists|kj: K, k0: K|
            {
                &&& call_ensures(grouper, (&g[j],), kj)
                &&& call_ensures(grouper, (&g[0],), k0)
                &&& kj.eq_spec(&k0)
            }
}

/// Within each group, every item's key compares equal to a key of the
/// group's first item.
pub open spec fn key_consistent<T, K, F>(grouper: F, gs: Seq<Seq<T>>) -> bool where
    K: PartialEqSpec,
    F: Fn(&T) -> K,
{
    forall|i: int| 0 <= i < gs.len() ==> group_matches(grouper, #[trigger] gs[i])
}

/// No two adjacent groups could be merged: their first items have keys that
/// compare unequal.
pub open spec fn runs_maximal<T, K, F>(grouper: F, gs: Seq<Seq<T>>) -> bool where
    K: PartialEqSpec,
    F: Fn(&T) -> K,
{
    forall|i: int|
        #![trigger gs[i]]
        0 < i < gs.len() ==> exists|kn: K, kp: K|
            {
                &&& call_ensures(grouper, (&gs[i][0],), kn)
                &&& call_ensures(grouper, (&gs[i - 1][0],), kp)
                &&& !kn.eq_spec(&kp)
            }
}

/// Splits `items` into groups: each group is a non-empty maximal run of
/// consecutive items whose keys, as computed by `grouper`, compare equal.
/// Order is fully preserved: flattening the groups gives back `items`, and
/// no two adjacent groups could be merged (their first items' keys differ).
pub fn group_by<T, K, F>(items: Vec<T>, grouper: F) -> (groups: Vec<Vec<T>>) where
    K: PartialEq + PartialEqSpec,
    F: Fn(&T) -> K,

    requires
        K::obeys_eq_spec(),
        forall|i: int| 0 <= i < items@.len() ==> call_requires(grouper, (&items@[i],)),
    ensures
        concat_groups(groups@.map_values(|g: Vec<T>| g@)) == items@,
        all_nonempty(groups@.map_values(|g: Vec<T>| g@)),
        key_consistent(grouper, groups@.map_values(|g: Vec<T>| g@)),
        runs_maximal(grouper, groups@.map_values(|g: Vec<T>| g@)),
{
    let mut rest = items;
    let mut groups: Vec<Vec<T>> = Vec::new();
    let ghost all: Seq<T> = rest@;
    proof {
        assert(concat_groups(groups@.map_values(|g: Vec<T>| g@)) =~= Seq::<T>::empty());
        assert(Seq::<T>::empty() + rest@ =~= rest@);
        assert(groups@.map_values(|g: Vec<T>| g@).len() == 0);
    }
    while rest.len() > 0
        invariant
            K::obeys_eq_spec(),
            forall|i: int| 0 <= i < rest@.len() ==> call_requires(grouper, (&rest@[i],)),
            concat_groups(groups@.map_values(|g: Vec<T>| g@)) + rest@ == all,
            all_nonempty(groups@.map_values(|g: Vec<T>| g@)),
            key_consistent(grouper, groups@.map_values(|g: Vec<T>| g@)),
            runs_maximal(grouper, groups@.map_values(|g: Vec<T>| g@)),
            groups@.len() > 0 && rest@.len() > 0 ==> exists|kn: K, kp: K|
                {
                    &&& call_ensures(grouper, (&rest@[0],), kn)
                    &&& call_ensures(grouper, (&groups@[groups@.len() - 1]@[0],), kp)
                    &&& !kn.eq_spec(&kp)
                },
        decreases rest@.len(),
    {
        let ghost rest_entry: Seq<T> = rest@;
        let first_item = rest.remove(0);
        let key = grouper(&first_item);
        let mut group: Vec<T> = Vec::new();
        group.push(first_item);
        proof {
            assert(rest_entry =~= group@ + rest@);
            assert(group@[0] == first_item);
            assert(group_matches(grouper, group@));
        }
        loop
            invariant
                K::obeys_eq_spec(),
                forall|i: int| 0 <= i < rest@.len() ==> call_requires(grouper, (&rest@[i],)),
                group@.len() > 0,
                rest_entry == group@ + rest@,
                call_ensures(grouper, (&group@[0],), key),
                group_matches(grouper, group@),
            ensures
                rest@.len() > 0 ==> exists|kn: K|
                    {
                        &&& call_ensures(grouper, (&rest@[0],), kn)
                        &&& !kn.eq_spec(&key)
                    },
            decreases rest@.len(),
        {
            if rest.len() == 0 {
                break ;
            }
            let next_key = grouper(&rest[0]);
            if next_key != key {
                break ;
            }
            let ghost pre_group: Seq<T> = group@;
            let ghost pre_rest: Seq<T> = rest@;
            let next_item = rest.remove(0);
            group.push(next_item);
            proof {
                assert(pre_group + pre_rest =~= group@ + rest@);
                assert(group@[0] == pre_group[0]);
                assert(group@[group@.len() - 1] == next_item);
                assert(next_item == pre_rest[0]);
                assert forall|j: int|
                    #![trigger group@[j]]
                    0 < j < group@.len() implies exists|kj: K, k0: K|
                    {
                        &&& call_ensures(grouper, (&group@[j],), kj)
                        &&& call_ensures(grouper, (&group@[0],), k0)
                        &&& kj.eq_spec(&k0)
                    } by {
                    if j < pre_group.len() {
                        assert(group@[j] == pre_group[j]);
                        assert(group_matches(grouper, pre_group));
                        assert(pre_group[0] == group@[0]);
                    } else {
                        assert(group@[j] == next_item);
                    }
                }
                assert(group_matches(grouper, group@));
            }
        }
        let ghost gseq: Seq<T> = group@;
        let ghost pre_groups: Seq<Vec<T>> = groups@;
        groups.push(group);
        proof {
            let ogs = pre_groups.map_values(|g: Vec<T>| g@);
            let ngs = groups@.map_values(|g: Vec<T>| g@);
            assert(groups@[groups@.len() - 1]@ == gseq);
            assert(ngs =~= ogs.push(gseq));
            lemma_concat_groups_push(ogs, gseq);
            assert((concat_groups(ogs) + rest_entry) =~= (concat_groups(ogs) + gseq) + rest@);
            assert forall|i: int| 0 <= i < ngs.len() implies #[trigger] ngs[i].len() > 0 by {
                if i < ogs.len() {
                    assert(ngs[i] == ogs[i]);
                } else {
                    assert(ngs[i] == gseq);
                }
            }
            assert(all_nonempty(ngs));
            assert forall|i: int| 0 <= i < ngs.len() implies group_matches(
                grouper,
                #[trigger] ngs[i],
            ) by {
                if i < ogs.len() {
                    assert(ngs[i] == ogs[i]);
                    assert(group_matches(grouper, ogs[i]));
                } else {
                    assert(ngs[i] == gseq);
                    assert(group_matches(grouper, gseq));
                }
            }
            assert(key_consistent(grouper, ngs));
            assert forall|i: int| 0 < i < ngs.len() implies exists|kn: K, kp: K|
                {
                    &&& call_ensures(grouper, (&(#[trigger] ngs[i])[0],), kn)
                    &&& call_ensures(grouper, (&ngs[i - 1][0],), kp)
                    &&& !kn.eq_spec(&kp)
                } by {
                if i < ogs.len() {
                    assert(ngs[i] == ogs[i]);
                    assert(ngs[i - 1] == ogs[i - 1]);
                    assert(ogs[i][0] == ngs[i][0]);
                    assert(ogs[i - 1][0] == ngs[i - 1][0]);
                } else {
                    assert(ngs[i] == gseq);
                    assert(pre_groups.len() > 0 && rest_entry.len() > 0);
                    assert(gseq[0] == rest_entry[0]);
                    assert(ngs[i - 1] == ogs[i - 1]);
                    assert(ogs[i - 1][0] == pre_groups[i - 1]@[0]);
                }
            }
            assert(runs_maximal(grouper, ngs));
        }
    }
    proof {
        assert(concat_groups(groups@.map_values(|g: Vec<T>| g@)) + rest@ =~= concat_groups(
            groups@.map_values(|g: Vec<T>| g@),
        ));
    }
    groups
}

} // verus!
