//! The computing side of the fetch pipeline and of the report
//! orchestration: normalizing a raw search record into an item,
//! filtering excluded repositories, and the sorts the report applies
//! before rendering.

use crate::item::Item;
use crate::matcher::RepoConfig;
use crate::text::{
    contains_string, join_sep, join_strings, lemma_lex_lt_connected, lemma_lex_lt_transitive,
    lex_le, lex_lt, split_char, split_string, str_lt, views_of,
};
use vstd::multiset::Multiset;
use vstd::prelude::*;

verus! {

/// The `owner/repo` pair a pull-request URL names: its fourth and
/// fifth slash-separated parts, which for the standard
/// `scheme://host/owner/repo/pull/<id>` shape are the first two path
/// segments.
pub open spec fn repository_name_of(url: Seq<char>) -> Seq<char> {
    split_char(url, '/')[3] + "/"@ + split_char(url, '/')[4]
}

/// The repository URL a pull-request URL names: the URL with its last
/// two slash-separated parts (the `pull` marker and the id) removed.
pub open spec fn repository_url_of(url: Seq<char>) -> Seq<char> {
    let parts = split_char(url, '/');
    join_sep(parts.take(parts.len() - 2), "/"@)
}

/// Normalizes one raw search record into an item, deriving the
/// repository name and URL from the pull-request URL.
pub fn make_item(
    issue_number: String,
    issue_title: String,
    issue_url: String,
    user_login: String,
    user_url: String,
) -> (r: Item)
    requires
        split_char(issue_url@, '/').len() >= 7,
    ensures
        r@.issue_number == issue_number@,
        r@.issue_title == issue_title@,
        r@.issue_url == issue_url@,
        r@.user_login == user_login@,
        r@.user_url == user_url@,
        r@.repository_name == repository_name_of(issue_url@),
        r@.repository_url == repository_url_of(issue_url@),
{
    let ghost sp = split_char(issue_url@, '/');
    let parts = split_string(issue_url.as_str(), '/');
    let mut repository_name = parts[3].clone();
    repository_name.append("/");
    repository_name.append(parts[4].as_str());
    proof {
        assert(parts@[3]@ == sp[3] && parts@[4]@ == sp[4]);
        assert(repository_name@ =~= repository_name_of(issue_url@));
    }
    let mut prefix = parts;
    let ghost full = prefix@;
    prefix.pop();
    prefix.pop();
    proof {
        assert(prefix@ =~= full.take(full.len() - 2));
        assert(views_of(prefix@) =~= views_of(full).take(full.len() - 2));
    }
    let repository_url = join_strings(&prefix, "/");
    Item {
        issue_number,
        issue_title,
        issue_url,
        repository_name,
        repository_url,
        user_login,
        user_url,
    }
}

/// Normalizes one raw search record when the pull-request URL has the
/// expected shape, and reports the malformed URL otherwise.
pub fn try_make_item(
    issue_number: String,
    issue_title: String,
    issue_url: String,
    user_login: String,
    user_url: String,
) -> (r: Option<Item>)
    ensures
        match r {
            Some(item) => split_char(issue_url@, '/').len() >= 7 && item@.issue_number
                == issue_number@ && item@.issue_title == issue_title@ && item@.issue_url
                == issue_url@ && item@.user_login == user_login@ && item@.user_url == user_url@
                && item@.repository_name == repository_name_of(issue_url@)
                && item@.repository_url == repository_url_of(issue_url@),
            None => split_char(issue_url@, '/').len() < 7,
        },
{
    let parts = split_string(issue_url.as_str(), '/');
    if parts.len() < 7 {
        return None;
    }
    Some(make_item(issue_number, issue_title, issue_url, user_login, user_url))
}

/// The items whose repository is not in the exclusion set, in their
/// input order.
pub open spec fn kept_items(items: Seq<Item>, exclude: Seq<Seq<char>>) -> Seq<Item>
    decreases items.len(),
{
    if items.len() == 0 {
        Seq::empty()
    } else {
        let rest = kept_items(items.drop_last(), exclude);
        if exclude.contains(items.last()@.repository_name) {
            rest
        } else {
            rest.push(items.last())
        }
    }
}

/// Drops every item whose repository is in the exclusion set.
pub fn filter_excluded(items: &Vec<Item>, exclude: &Vec<String>) -> (r: Vec<Item>)
    ensures
        r@ == kept_items(items@, views_of(exclude@)),
{
    let ghost ev = views_of(exclude@);
    let mut r: Vec<Item> = Vec::new();
    let mut i: usize = 0;
    proof {
        assert(items@.take(0) =~= Seq::<Item>::empty());
    }
    while i < items.len()
        invariant
            i <= items@.len(),
            ev == views_of(exclude@),
            r@ == kept_items(items@.take(i as int), ev),
        decreases items@.len() - i,
    {
        if !contains_string(exclude, &items[i].repository_name) {
            r.push(items[i].clone());
        }
        i = i + 1;
        proof {
            let t = items@.take(i as int);
            assert(t.drop_last() =~= items@.take(i - 1));
            assert(t.last() == items@[i - 1]);
        }
    }
    proof {
        assert(items@.take(items@.len() as int) =~= items@);
    }
    r
}

/// A kept item is one of the input items, and its repository is not
/// excluded.
pub proof fn lemma_kept_items_sound(items: Seq<Item>, exclude: Seq<Seq<char>>, it: Item)
    requires
        kept_items(items, exclude).contains(it),
    ensures
        items.contains(it),
        !exclude.contains(it@.repository_name),
    decreases items.len(),
{
    if items.len() > 0 {
        let prev = items.drop_last();
        let rest = kept_items(prev, exclude);
        if !exclude.contains(items.last()@.repository_name) && it == items.last() {
            assert(items.contains(it)) by {
                assert(items[items.len() - 1] == it);
            }
            if rest.push(items.last()).contains(it) {
            }
        } else {
            assert(rest.contains(it)) by {
                let w = choose|w: int|
                    0 <= w < kept_items(items, exclude).len() && kept_items(items, exclude)[w]
                        == it;
                if exclude.contains(items.last()@.repository_name) {
                } else {
                    assert(rest.push(items.last())[w] == it);
                    assert(w < rest.len());
                }
            }
            lemma_kept_items_sound(prev, exclude, it);
            let w2 = choose|w2: int| 0 <= w2 < prev.len() && prev[w2] == it;
            assert(items[w2] == it);
        }
    }
}

/// A bucketed item comes from the input: the matcher invents nothing.
pub proof fn lemma_matched_items_subset(
    groups: Seq<crate::matcher::RepoConfigView>,
    items: Seq<Item>,
    j: int,
    it: Item,
)
    requires
        crate::matcher::matched_items(groups, items, j).contains(it),
    ensures
        items.contains(it),
    decreases items.len(),
{
    if items.len() > 0 {
        let prev = items.drop_last();
        let rest = crate::matcher::matched_items(groups, prev, j);
        let cur = crate::matcher::matched_items(groups, items, j);
        let w = choose|w: int| 0 <= w < cur.len() && cur[w] == it;
        if cur == rest.push(items.last()) && w == rest.len() {
            assert(items[items.len() - 1] == it);
        } else {
            assert(rest[w] == it);
            lemma_matched_items_subset(groups, prev, j, it);
            let w2 = choose|w2: int| 0 <= w2 < prev.len() && prev[w2] == it;
            assert(items[w2] == it);
        }
    }
}

/// An unknown-bucket item comes from the input as well.
pub proof fn lemma_unmatched_items_subset(
    groups: Seq<crate::matcher::RepoConfigView>,
    items: Seq<Item>,
    it: Item,
)
    requires
        crate::matcher::unmatched_items(groups, items).contains(it),
    ensures
        items.contains(it),
    decreases items.len(),
{
    if items.len() > 0 {
        let prev = items.drop_last();
        let rest = crate::matcher::unmatched_items(groups, prev);
        let cur = crate::matcher::unmatched_items(groups, items);
        let w = choose|w: int| 0 <= w < cur.len() && cur[w] == it;
        if cur == rest.push(items.last()) && w == rest.len() {
            assert(items[items.len() - 1] == it);
        } else {
            assert(rest[w] == it);
            lemma_unmatched_items_subset(groups, prev, it);
            let w2 = choose|w2: int| 0 <= w2 < prev.len() && prev[w2] == it;
            assert(items[w2] == it);
        }
    }
}

/// An item whose repository is in the exclusion set survives the
/// filter nowhere: not among the kept items, in no group's bucket and
/// not in the unknown bucket computed from them.
pub proof fn lemma_exclusion(
    groups: Seq<crate::matcher::RepoConfigView>,
    items: Seq<Item>,
    exclude: Seq<Seq<char>>,
    it: Item,
    j: int,
)
    requires
        exclude.contains(it@.repository_name),
    ensures
        !kept_items(items, exclude).contains(it),
        !crate::matcher::matched_items(groups, kept_items(items, exclude), j).contains(it),
        !crate::matcher::unmatched_items(groups, kept_items(items, exclude)).contains(it),
{
    let kept = kept_items(items, exclude);
    if kept.contains(it) {
        lemma_kept_items_sound(items, exclude, it);
    }
    if crate::matcher::matched_items(groups, kept, j).contains(it) {
        lemma_matched_items_subset(groups, kept, j, it);
        lemma_kept_items_sound(items, exclude, it);
    }
    if crate::matcher::unmatched_items(groups, kept).contains(it) {
        lemma_unmatched_items_subset(groups, kept, it);
        lemma_kept_items_sound(items, exclude, it);
    }
}

/// Every reference line extracted from the kept items arises from a
/// kept item, whose repository is not excluded.
pub proof fn lemma_exclusion_defs(
    items: Seq<Item>,
    exclude: Seq<Seq<char>>,
    s: Seq<Seq<char>>,
    x: Seq<char>,
)
    requires
        crate::refs::is_definitions(kept_items(items, exclude), s),
        s.contains(x),
    ensures
        exists|k: int|
            0 <= k < kept_items(items, exclude).len() && (x == crate::refs::user_def(
                #[trigger] kept_items(items, exclude)[k]@,
            ) || x == crate::refs::repo_def(kept_items(items, exclude)[k]@)) && !exclude.contains(
                kept_items(items, exclude)[k]@.repository_name,
            ),
{
    let kept = kept_items(items, exclude);
    let kk = choose|kk: int|
        0 <= kk <= s.len() && crate::refs::is_user_defs(kept, #[trigger] s.take(kk))
            && crate::refs::is_repo_defs(kept, s.skip(kk));
    let w = choose|w: int| 0 <= w < s.len() && s[w] == x;
    if w < kk {
        assert(s.take(kk)[w] == x);
        assert(s.take(kk).contains(x));
        let k = choose|k: int| 0 <= k < kept.len() && x == crate::refs::user_def(kept[k]@);
        assert(kept.contains(kept[k]));
        lemma_kept_items_sound(items, exclude, kept[k]);
    } else {
        assert(s.skip(kk)[w - kk] == x);
        assert(s.skip(kk).contains(x));
        let k = choose|k: int| 0 <= k < kept.len() && x == crate::refs::repo_def(kept[k]@);
        assert(kept.contains(kept[k]));
        lemma_kept_items_sound(items, exclude, kept[k]);
    }
}

/// Ascending by repository name in the lexicographic order.
pub open spec fn sorted_by_repository(items: Seq<Item>) -> bool {
    forall|p: int, q: int|
        0 <= p < q < items.len() ==> lex_le(items[p]@.repository_name, items[q]@.repository_name)
}

/// Sorts the items ascending by repository name. The items are
/// rearranged only: the multiset of items is unchanged.
pub fn sort_items_by_repository(items: Vec<Item>) -> (r: Vec<Item>)
    ensures
        sorted_by_repository(r@),
        r@.to_multiset() == items@.to_multiset(),
{
    broadcast use vstd::multiset::group_multiset_axioms;

    let mut rest = items;
    let mut out: Vec<Item> = Vec::new();
    proof {
        broadcast use vstd::seq_lib::group_to_multiset_ensures;

        assert forall|y: Item| #[trigger]
            out@.to_multiset().add(rest@.to_multiset()).count(y) == items@.to_multiset().count(
            y,
        ) by {
            assert(!out@.contains(y));
        }
        assert(out@.to_multiset().add(rest@.to_multiset()) =~= items@.to_multiset());
    }
    while rest.len() > 0
        invariant
            sorted_by_repository(out@),
            out@.to_multiset().add(rest@.to_multiset()) == items@.to_multiset(),
        decreases rest@.len(),
    {
        let ghost rest_snap = rest@;
        let x = rest.remove(0);
        proof {
            vstd::seq_lib::to_multiset_remove(rest_snap, 0);
        }
        let ghost out_snap = out@;
        let k = find_insert_position(&out, &x);
        proof {
            assert forall|m: int| 0 <= m < k implies lex_le(
                (#[trigger] out@[m])@.repository_name,
                x@.repository_name,
            ) by {
                if out@[m]@.repository_name != x@.repository_name {
                    lemma_lex_lt_connected_pair(x@.repository_name, out@[m]@.repository_name);
                }
            }
        }
        out.insert(k, x);
        proof {
            let nv = out@;
            assert(nv == out_snap.insert(k as int, x));
            assert forall|p: int, q: int| 0 <= p < q < nv.len() implies lex_le(
                (#[trigger] nv[p])@.repository_name,
                (#[trigger] nv[q])@.repository_name,
            ) by {
                assert(nv[p] == (if p < k {
                    out_snap[p]
                } else if p == k {
                    x
                } else {
                    out_snap[p - 1]
                }));
                assert(nv[q] == (if q < k {
                    out_snap[q]
                } else if q == k {
                    x
                } else {
                    out_snap[q - 1]
                }));
                if p < k && q == k {
                } else if p == k && q > k {
                    lemma_le_lt_le(
                        x@.repository_name,
                        out_snap[k as int]@.repository_name,
                        nv[q]@.repository_name,
                        out_snap,
                        k as int,
                        q - 1,
                    );
                }
            }
            vstd::seq_lib::to_multiset_insert(out_snap, k as int, x);
            vstd::seq_lib::to_multiset_contains(rest_snap, x);
            assert(rest_snap.contains(x)) by {
                assert(rest_snap[0] == x);
            }
            assert forall|y: Item| #[trigger]
                out@.to_multiset().add(rest@.to_multiset()).count(y) == out_snap.to_multiset().add(
                rest_snap.to_multiset(),
            ).count(y) by {
                assert(out@.to_multiset().count(y) == out_snap.to_multiset().insert(x).count(y));
                assert(rest@.to_multiset().count(y) == rest_snap.to_multiset().remove(x).count(y));
            }
            assert(out@.to_multiset().add(rest@.to_multiset()) =~= items@.to_multiset());
        }
    }
    proof {
        assert(rest@ =~= Seq::<Item>::empty());
        broadcast use vstd::seq_lib::group_to_multiset_ensures;

        assert forall|y: Item| #[trigger]
            rest@.to_multiset().count(y) == Multiset::<Item>::empty().count(y) by {
            assert(!rest@.contains(y));
        }
        assert(out@.to_multiset() =~= items@.to_multiset());
    }
    out
}

/// Finds the first position whose repository name the new item's
/// strictly precedes; equal names are passed over, keeping the scan
/// order among them.
fn find_insert_position(out: &Vec<Item>, x: &Item) -> (k: usize)
    requires
        sorted_by_repository(out@),
    ensures
        k <= out@.len(),
        forall|m: int|
            0 <= m < k ==> !lex_lt(x@.repository_name, (#[trigger] out@[m])@.repository_name),
        k < out@.len() ==> lex_lt(x@.repository_name, out@[k as int]@.repository_name),
{
    let mut k: usize = 0;
    while k < out.len()
        invariant
            k <= out@.len(),
            forall|m: int|
                0 <= m < k ==> !lex_lt(x@.repository_name, (#[trigger] out@[m])@.repository_name),
        decreases out@.len() - k,
    {
        if str_lt(x.repository_name.as_str(), out[k].repository_name.as_str()) {
            return k;
        }
        k = k + 1;
    }
    k
}

/// Ascending by group name in the lexicographic order.
pub open spec fn sorted_by_name(groups: Seq<RepoConfig>) -> bool {
    forall|p: int, q: int|
        0 <= p < q < groups.len() ==> lex_le(groups[p]@.name, groups[q]@.name)
}

/// Sorts the label groups ascending by name. The groups are
/// rearranged only: the multiset of groups is unchanged.
pub fn sort_labels_by_name(groups: Vec<RepoConfig>) -> (r: Vec<RepoConfig>)
    ensures
        sorted_by_name(r@),
        r@.to_multiset() == groups@.to_multiset(),
{
    broadcast use vstd::multiset::group_multiset_axioms;

    let mut rest = groups;
    let mut out: Vec<RepoConfig> = Vec::new();
    proof {
        broadcast use vstd::seq_lib::group_to_multiset_ensures;

        assert forall|y: RepoConfig| #[trigger]
            out@.to_multiset().add(rest@.to_multiset()).count(y) == groups@.to_multiset().count(
            y,
        ) by {
            assert(!out@.contains(y));
        }
        assert(out@.to_multiset().add(rest@.to_multiset()) =~= groups@.to_multiset());
    }
    while rest.len() > 0
        invariant
            sorted_by_name(out@),
            out@.to_multiset().add(rest@.to_multiset()) == groups@.to_multiset(),
        decreases rest@.len(),
    {
        let ghost rest_snap = rest@;
        let x = rest.remove(0);
        proof {
            vstd::seq_lib::to_multiset_remove(rest_snap, 0);
        }
        let ghost out_snap = out@;
        let k = find_label_position(&out, &x);
        proof {
            assert forall|m: int| 0 <= m < k implies lex_le(
                (#[trigger] out@[m])@.name,
                x@.name,
            ) by {
                if out@[m]@.name != x@.name {
                    lemma_lex_lt_connected_pair(x@.name, out@[m]@.name);
                }
            }
        }
        out.insert(k, x);
        proof {
            let nv = out@;
            assert(nv == out_snap.insert(k as int, x));
            assert forall|p: int, q: int| 0 <= p < q < nv.len() implies lex_le(
                (#[trigger] nv[p])@.name,
                (#[trigger] nv[q])@.name,
            ) by {
                assert(nv[p] == (if p < k {
                    out_snap[p]
                } else if p == k {
                    x
                } else {
                    out_snap[p - 1]
                }));
                assert(nv[q] == (if q < k {
                    out_snap[q]
                } else if q == k {
                    x
                } else {
                    out_snap[q - 1]
                }));
                if p < k && q == k {
                } else if p == k && q > k {
                    let y = out_snap[k as int]@.name;
                    let z = nv[q]@.name;
                    if k == q - 1 {
                        assert(lex_lt(x@.name, z));
                    } else {
                        assert(lex_le(y, z));
                        if y == z {
                            assert(lex_lt(x@.name, z));
                        } else {
                            lemma_lex_lt_transitive(x@.name, y, z);
                        }
                    }
                }
            }
            vstd::seq_lib::to_multiset_insert(out_snap, k as int, x);
            vstd::seq_lib::to_multiset_contains(rest_snap, x);
            assert(rest_snap.contains(x)) by {
                assert(rest_snap[0] == x);
            }
            assert forall|y: RepoConfig| #[trigger]
                out@.to_multiset().add(rest@.to_multiset()).count(y) == out_snap.to_multiset().add(
                rest_snap.to_multiset(),
            ).count(y) by {
                assert(out@.to_multiset().count(y) == out_snap.to_multiset().insert(x).count(y));
                assert(rest@.to_multiset().count(y) == rest_snap.to_multiset().remove(x).count(y));
            }
            assert(out@.to_multiset().add(rest@.to_multiset()) =~= groups@.to_multiset());
        }
    }
    proof {
        broadcast use vstd::seq_lib::group_to_multiset_ensures;

        assert(rest@ =~= Seq::<RepoConfig>::empty());
        assert forall|y: RepoConfig| #[trigger]
            rest@.to_multiset().count(y) == Multiset::<RepoConfig>::empty().count(y) by {
            assert(!rest@.contains(y));
        }
        assert(out@.to_multiset() =~= groups@.to_multiset());
    }
    out
}

/// Finds the first position whose group name the new group's strictly
/// precedes.
fn find_label_position(out: &Vec<RepoConfig>, x: &RepoConfig) -> (k: usize)
    requires
        sorted_by_name(out@),
    ensures
        k <= out@.len(),
        forall|m: int| 0 <= m < k ==> !lex_lt(x@.name, (#[trigger] out@[m])@.name),
        k < out@.len() ==> lex_lt(x@.name, out@[k as int]@.name),
{
    let mut k: usize = 0;
    while k < out.len()
        invariant
            k <= out@.len(),
            forall|m: int| 0 <= m < k ==> !lex_lt(x@.name, (#[trigger] out@[m])@.name),
        decreases out@.len() - k,
    {
        if str_lt(x.name.as_str(), out[k].name.as_str()) {
            return k;
        }
        k = k + 1;
    }
    k
}

/// The users the report covers: the configured list when it names
/// anyone, else the list given on the command line.
pub fn effective_users(config_users: Vec<String>, cli_users: Vec<String>) -> (r: Vec<String>)
    ensures
        r == (if config_users@.len() > 0 {
            config_users
        } else {
            cli_users
        }),
{
    if config_users.len() > 0 {
        config_users
    } else {
        cli_users
    }
}

/// When `a` does not precede `b` and they differ, `b` precedes `a`.
proof fn lemma_lex_lt_connected_pair(a: Seq<char>, b: Seq<char>)
    requires
        !lex_lt(a, b),
        a != b,
    ensures
        lex_lt(b, a),
{
    if !lex_lt(b, a) {
        lemma_lex_lt_connected(a, b);
    }
}

/// Chains a strict bound through a sorted run.
proof fn lemma_le_lt_le(
    x: Seq<char>,
    y: Seq<char>,
    z: Seq<char>,
    s: Seq<Item>,
    k: int,
    q: int,
)
    requires
        0 <= k <= q < s.len(),
        lex_lt(x, y),
        y == s[k]@.repository_name,
        z == s[q]@.repository_name,
        forall|p1: int, q1: int|
            0 <= p1 < q1 < s.len() ==> lex_le(s[p1]@.repository_name, s[q1]@.repository_name),
    ensures
        lex_le(x, z),
{
    if k == q {
        assert(lex_lt(x, z));
    } else {
        assert(lex_le(y, z));
        if y == z {
            assert(lex_lt(x, z));
        } else {
            lemma_lex_lt_transitive(x, y, z);
        }
    }
}

} // verus!
