//! Classification of items under configured label groups: each item
//! goes to the first group whose membership list holds its
//! repository, or to the unknown bucket.

use crate::item::Item;
use crate::text::{contains_string, views_of};
use vstd::multiset::Multiset;
use vstd::prelude::*;

verus! {

/// A named label group: the repositories that belong under it, and
/// the items assigned to it so far.
#[derive(Debug, PartialEq, Eq)]
pub struct RepoConfig {
    pub name: String,
    pub repos: Vec<String>,
    pub items: Vec<Item>,
}

/// Mathematical image of a [`RepoConfig`].
pub struct RepoConfigView {
    pub name: Seq<char>,
    pub repos: Seq<Seq<char>>,
    pub items: Seq<Item>,
}

impl View for RepoConfig {
    type V = RepoConfigView;

    open spec fn view(&self) -> RepoConfigView {
        RepoConfigView { name: self.name@, repos: views_of(self.repos@), items: self.items@ }
    }
}

/// The views of a sequence of groups, element for element.
pub open spec fn groups_view(gs: Seq<RepoConfig>) -> Seq<RepoConfigView> {
    gs.map_values(|g: RepoConfig| g@)
}

/// The index of the first group whose membership list holds `repo`,
/// if any group's does.
pub open spec fn first_match(groups: Seq<RepoConfigView>, repo: Seq<char>) -> Option<int>
    decreases groups.len(),
{
    if groups.len() == 0 {
        None
    } else if groups[0].repos.contains(repo) {
        Some(0int)
    } else {
        match first_match(groups.skip(1), repo) {
            Some(j) => Some(j + 1),
            None => None,
        }
    }
}

/// `first_match` returns `j` exactly when group `j` holds the
/// repository and no earlier group does.
pub proof fn lemma_first_match_at(groups: Seq<RepoConfigView>, repo: Seq<char>, j: int)
    requires
        0 <= j < groups.len(),
        groups[j].repos.contains(repo),
        forall|k: int| 0 <= k < j ==> !(#[trigger] groups[k].repos.contains(repo)),
    ensures
        first_match(groups, repo) == Some(j),
    decreases groups.len(),
{
    if j > 0 {
        let tail = groups.skip(1);
        assert(tail[j - 1] == groups[j]);
        assert forall|k: int| 0 <= k < j - 1 implies !(#[trigger] tail[k].repos.contains(
            repo,
        )) by {
            assert(tail[k] == groups[k + 1]);
        }
        lemma_first_match_at(tail, repo, j - 1);
    }
}

/// `first_match` returns nothing exactly when no group holds the
/// repository.
pub proof fn lemma_first_match_none(groups: Seq<RepoConfigView>, repo: Seq<char>)
    requires
        forall|k: int| 0 <= k < groups.len() ==> !(#[trigger] groups[k].repos.contains(repo)),
    ensures
        first_match(groups, repo) == None::<int>,
    decreases groups.len(),
{
    if groups.len() > 0 {
        let tail = groups.skip(1);
        assert forall|k: int| 0 <= k < tail.len() implies !(#[trigger] tail[k].repos.contains(
            repo,
        )) by {
            assert(tail[k] == groups[k + 1]);
        }
        lemma_first_match_none(tail, repo);
    }
}

/// A successful `first_match` points at a group that holds the
/// repository.
pub proof fn lemma_first_match_range(groups: Seq<RepoConfigView>, repo: Seq<char>)
    ensures
        match first_match(groups, repo) {
            Some(j) => 0 <= j < groups.len() && groups[j].repos.contains(repo),
            None => true,
        },
    decreases groups.len(),
{
    if groups.len() > 0 && !groups[0].repos.contains(repo) {
        lemma_first_match_range(groups.skip(1), repo);
    }
}

/// Only the membership lists decide a match: groups that agree on
/// them agree on `first_match`.
pub proof fn lemma_first_match_congruence(
    g1: Seq<RepoConfigView>,
    g2: Seq<RepoConfigView>,
    repo: Seq<char>,
)
    requires
        g1.len() == g2.len(),
        forall|k: int| 0 <= k < g1.len() ==> (#[trigger] g1[k]).repos == g2[k].repos,
    ensures
        first_match(g1, repo) == first_match(g2, repo),
    decreases g1.len(),
{
    if g1.len() > 0 {
        let t1 = g1.skip(1);
        let t2 = g2.skip(1);
        assert forall|k: int| 0 <= k < t1.len() implies (#[trigger] t1[k]).repos == t2[k].repos by {
            assert(t1[k] == g1[k + 1]);
            assert(t2[k] == g2[k + 1]);
        }
        lemma_first_match_congruence(t1, t2, repo);
    }
}

/// Finds the first group whose membership list holds `name`.
fn find_first_group(repos: &Vec<RepoConfig>, name: &String) -> (r: Option<usize>)
    ensures
        match r {
            Some(j) => j < repos@.len() && first_match(groups_view(repos@), name@) == Some(
                j as int,
            ),
            None => first_match(groups_view(repos@), name@) == None::<int>,
        },
{
    let ghost gv = groups_view(repos@);
    let mut j: usize = 0;
    while j < repos.len()
        invariant
            j <= repos@.len(),
            gv == groups_view(repos@),
            forall|k: int| 0 <= k < j ==> !(#[trigger] gv[k].repos.contains(name@)),
        decreases repos@.len() - j,
    {
        if contains_string(&repos[j].repos, name) {
            proof {
                assert(gv[j as int] == repos@[j as int]@);
                lemma_first_match_at(gv, name@, j as int);
            }
            return Some(j);
        }
        proof {
            assert(gv[j as int] == repos@[j as int]@);
        }
        j = j + 1;
    }
    proof {
        lemma_first_match_none(gv, name@);
    }
    None
}

/// The items of `items` whose first matching group is `j`, in their
/// scan order.
pub open spec fn matched_items(groups: Seq<RepoConfigView>, items: Seq<Item>, j: int) -> Seq<Item>
    decreases items.len(),
{
    if items.len() == 0 {
        Seq::empty()
    } else {
        let rest = matched_items(groups, items.drop_last(), j);
        if first_match(groups, items.last()@.repository_name) == Some(j) {
            rest.push(items.last())
        } else {
            rest
        }
    }
}

/// The items matched by no group, in their scan order.
pub open spec fn unmatched_items(groups: Seq<RepoConfigView>, items: Seq<Item>) -> Seq<Item>
    decreases items.len(),
{
    if items.len() == 0 {
        Seq::empty()
    } else {
        let rest = unmatched_items(groups, items.drop_last());
        if first_match(groups, items.last()@.repository_name) == None::<int> {
            rest.push(items.last())
        } else {
            rest
        }
    }
}

/// The multiset of items assigned to the groups before index `j`.
pub open spec fn assigned_upto(groups: Seq<RepoConfigView>, items: Seq<Item>, j: int) -> Multiset<
    Item,
>
    decreases j,
{
    if j <= 0 {
        Multiset::empty()
    } else {
        assigned_upto(groups, items, j - 1).add(matched_items(groups, items, j - 1).to_multiset())
    }
}

/// No group is assigned anything from an empty item sequence.
proof fn lemma_assigned_upto_empty(groups: Seq<RepoConfigView>, j: int)
    ensures
        assigned_upto(groups, Seq::<Item>::empty(), j) == Multiset::<Item>::empty(),
    decreases j,
{
    broadcast use vstd::seq_lib::group_to_multiset_ensures;

    if j > 0 {
        lemma_assigned_upto_empty(groups, j - 1);
        let e = Seq::<Item>::empty();
        assert forall|x: Item| #[trigger]
            e.to_multiset().count(x) == Multiset::<Item>::empty().count(x) by {
            assert(!e.contains(x));
        }
        assert(e.to_multiset() =~= Multiset::<Item>::empty());
        assert(assigned_upto(groups, e, j) =~= Multiset::<Item>::empty());
    }
}

/// Appending one item adds it to the one bucket its repository
/// selects, among the groups before index `m`.
proof fn lemma_assigned_upto_step(groups: Seq<RepoConfigView>, items: Seq<Item>, m: int)
    requires
        items.len() > 0,
    ensures
        assigned_upto(groups, items, m) == assigned_upto(groups, items.drop_last(), m).add(
            match first_match(groups, items.last()@.repository_name) {
                Some(j0) => if 0 <= j0 < m {
                    Multiset::<Item>::empty().insert(items.last())
                } else {
                    Multiset::<Item>::empty()
                },
                None => Multiset::<Item>::empty(),
            },
        ),
    decreases m,
{
    broadcast use vstd::seq_lib::group_to_multiset_ensures;

    let prev = items.drop_last();
    let x = items.last();
    let fm = first_match(groups, x@.repository_name);
    if m <= 0 {
        assert(assigned_upto(groups, items, m) =~= assigned_upto(groups, prev, m).add(
            Multiset::<Item>::empty(),
        ));
    } else {
        lemma_assigned_upto_step(groups, items, m - 1);
        if fm == Some(m - 1) {
            assert(matched_items(groups, items, m - 1) == matched_items(groups, prev, m - 1).push(
                x,
            ));
            assert(assigned_upto(groups, items, m) =~= assigned_upto(groups, prev, m).add(
                Multiset::<Item>::empty().insert(x),
            ));
        } else {
            assert(matched_items(groups, items, m - 1) == matched_items(groups, prev, m - 1));
            assert(assigned_upto(groups, items, m) =~= assigned_upto(groups, prev, m).add(
                match fm {
                    Some(j0) => if 0 <= j0 < m {
                        Multiset::<Item>::empty().insert(x)
                    } else {
                        Multiset::<Item>::empty()
                    },
                    None => Multiset::<Item>::empty(),
                },
            ));
        }
    }
}

/// Every item lands in exactly one place: the items assigned to all
/// the groups, together with the unknown bucket, are exactly the
/// input items, as a multiset.
pub proof fn lemma_partition_complete(groups: Seq<RepoConfigView>, items: Seq<Item>)
    ensures
        assigned_upto(groups, items, groups.len() as int).add(
            unmatched_items(groups, items).to_multiset(),
        ) == items.to_multiset(),
    decreases items.len(),
{
    broadcast use vstd::seq_lib::group_to_multiset_ensures;

    let n = groups.len() as int;
    if items.len() == 0 {
        lemma_assigned_upto_empty(groups, n);
        assert forall|x: Item| #[trigger]
            items.to_multiset().count(x) == Multiset::<Item>::empty().count(x) by {
            assert(!items.contains(x));
        }
        assert(items =~= Seq::<Item>::empty());
        assert(assigned_upto(groups, items, n).add(unmatched_items(groups, items).to_multiset())
            =~= items.to_multiset());
    } else {
        let prev = items.drop_last();
        let x = items.last();
        lemma_partition_complete(groups, prev);
        lemma_assigned_upto_step(groups, items, n);
        lemma_first_match_range(groups, x@.repository_name);
        assert(prev.push(x) =~= items);
        assert(items.to_multiset() == prev.to_multiset().insert(x));
        match first_match(groups, x@.repository_name) {
            Some(j0) => {
                assert(unmatched_items(groups, items) == unmatched_items(groups, prev));
                assert(assigned_upto(groups, items, n).add(
                    unmatched_items(groups, items).to_multiset(),
                ) =~= items.to_multiset());
            },
            None => {
                assert(unmatched_items(groups, items) == unmatched_items(groups, prev).push(x));
                assert(assigned_upto(groups, items, n).add(
                    unmatched_items(groups, items).to_multiset(),
                ) =~= items.to_multiset());
            },
        }
    }
}

/// Assigns every item to the first group whose membership list holds
/// its repository, appending to that group's item list; items that no
/// group claims are returned as the unknown bucket, in scan order.
pub fn match_items_with_labels(repos: &mut Vec<RepoConfig>, items: &Vec<Item>) -> (unknown: Vec<
    Item,
>)
    ensures
        final(repos)@.len() == old(repos)@.len(),
        forall|j: int|
            0 <= j < old(repos)@.len() ==> {
                &&& (#[trigger] final(repos)@[j])@.name == old(repos)@[j]@.name
                &&& final(repos)@[j]@.repos == old(repos)@[j]@.repos
                &&& final(repos)@[j].items@ == old(repos)@[j].items@ + matched_items(
                    groups_view(old(repos)@),
                    items@,
                    j,
                )
            },
        unknown@ == unmatched_items(groups_view(old(repos)@), items@),
{
    let ghost orig = old(repos)@;
    let ghost gv = groups_view(orig);
    let mut unknown: Vec<Item> = Vec::new();
    let mut i: usize = 0;
    proof {
        assert(items@.take(0) =~= Seq::<Item>::empty());
        assert forall|j: int| 0 <= j < orig.len() implies #[trigger] repos@[j].items@ == orig[
            j
        ].items@ + matched_items(gv, items@.take(0), j) by {
            assert(repos@[j].items@ =~= orig[j].items@ + Seq::<Item>::empty());
        }
    }
    while i < items.len()
        invariant
            i <= items@.len(),
            repos@.len() == orig.len(),
            gv == groups_view(orig),
            gv.len() == orig.len(),
            forall|j: int|
                0 <= j < orig.len() ==> (#[trigger] repos@[j])@.name == orig[j]@.name && repos@[
                    j
                ]@.repos == orig[j]@.repos,
            forall|j: int|
                0 <= j < orig.len() ==> #[trigger] repos@[j].items@ == orig[j].items@
                    + matched_items(gv, items@.take(i as int), j),
            unknown@ == unmatched_items(gv, items@.take(i as int)),
        decreases items@.len() - i,
    {
        let ghost taken = items@.take(i as int);
        let ghost name = items@[i as int]@.repository_name;
        let found = find_first_group(repos, &items[i].repository_name);
        proof {
            assert forall|k: int| 0 <= k < orig.len() implies (#[trigger] groups_view(
                repos@,
            )[k]).repos == gv[k].repos by {
                assert(groups_view(repos@)[k] == repos@[k]@);
                assert(gv[k] == orig[k]@);
            }
            lemma_first_match_congruence(groups_view(repos@), gv, name);
        }
        let it = items[i].clone();
        if let Some(j) = found {
            let mut g = repos.remove(j);
            let ghost g_snap = g;
            g.items.push(it);
            repos.insert(j, g);
            proof {
                assert forall|k: int| 0 <= k < orig.len() implies (#[trigger] repos@[k])@.name
                    == orig[k]@.name && repos@[k]@.repos == orig[k]@.repos by {
                    if k != j {
                        // removal and reinsertion at the same index leave
                        // every other element in place
                    }
                }
            }
        } else {
            unknown.push(it);
        }
        i = i + 1;
        proof {
            let t = items@.take(i as int);
            assert(t.drop_last() =~= taken);
            assert(t.last() == items@[i - 1]);
            assert forall|k: int| 0 <= k < orig.len() implies #[trigger] repos@[k].items@ == orig[
                k
            ].items@ + matched_items(gv, t, k) by {
                if first_match(gv, name) == Some(k) {
                    assert(matched_items(gv, t, k) == matched_items(gv, taken, k).push(
                        items@[i - 1],
                    ));
                    assert(repos@[k].items@ =~= orig[k].items@ + matched_items(gv, t, k));
                } else {
                    assert(matched_items(gv, t, k) == matched_items(gv, taken, k));
                }
            }
            assert(unknown@ =~= unmatched_items(gv, t));
        }
    }
    proof {
        assert(items@.take(items@.len() as int) =~= items@);
    }
    unknown
}

} // verus!
