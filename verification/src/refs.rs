//! Deduplicated, lexicographically sorted markdown reference
//! definitions for the users and repositories of an item set.

use crate::item::{Item, ItemView};
use crate::text::{
    lemma_lex_lt_connected, lemma_lex_lt_irreflexive, lemma_lex_lt_transitive, lex_lt, str_lt,
    string_eq, views_of,
};
use vstd::prelude::*;

verus! {

/// The user reference line of an item: `[@<login>]: <user_url>`.
pub open spec fn user_def(item: ItemView) -> Seq<char> {
    "[@"@ + item.user_login + "]: "@ + item.user_url
}

/// The repository reference line of an item:
/// `[<repository_name>]: <repository_url>`.
pub open spec fn repo_def(item: ItemView) -> Seq<char> {
    "["@ + item.repository_name + "]: "@ + item.repository_url
}

/// Strictly ascending in the lexicographic order; in particular, free
/// of duplicates.
pub open spec fn strictly_sorted(s: Seq<Seq<char>>) -> bool {
    forall|i: int, j: int| 0 <= i < j < s.len() ==> lex_lt(s[i], s[j])
}

/// `s` holds exactly the distinct user reference lines of `items`,
/// strictly sorted.
pub open spec fn is_user_defs(items: Seq<Item>, s: Seq<Seq<char>>) -> bool {
    &&& strictly_sorted(s)
    &&& forall|x: Seq<char>|
        #[trigger] s.contains(x) <==> exists|k: int|
            0 <= k < items.len() && x == user_def(#[trigger] items[k]@)
}

/// `s` holds exactly the distinct repository reference lines of
/// `items`, strictly sorted.
pub open spec fn is_repo_defs(items: Seq<Item>, s: Seq<Seq<char>>) -> bool {
    &&& strictly_sorted(s)
    &&& forall|x: Seq<char>|
        #[trigger] s.contains(x) <==> exists|k: int|
            0 <= k < items.len() && x == repo_def(#[trigger] items[k]@)
}

/// `s` is the sorted distinct user reference lines of `items`
/// followed by its sorted distinct repository reference lines.
pub open spec fn is_definitions(items: Seq<Item>, s: Seq<Seq<char>>) -> bool {
    exists|k: int|
        0 <= k <= s.len() && is_user_defs(items, #[trigger] s.take(k)) && is_repo_defs(
            items,
            s.skip(k),
        )
}

/// Inserts `x` into a strictly sorted vector, keeping it strictly
/// sorted; a string already present is not inserted again.
fn insert_def(v: &mut Vec<String>, x: String)
    requires
        strictly_sorted(views_of(old(v)@)),
    ensures
        strictly_sorted(views_of(final(v)@)),
        forall|y: Seq<char>|
            #[trigger] views_of(final(v)@).contains(y) <==> views_of(old(v)@).contains(y) || y
                == x@,
{
    let ghost vs = views_of(old(v)@);
    let mut i: usize = 0;
    loop
        invariant
            i <= v@.len(),
            v@ == old(v)@,
            vs == views_of(v@),
            strictly_sorted(vs),
            forall|k: int| 0 <= k < i ==> lex_lt(vs[k], x@),
        decreases v@.len() - i,
    {
        if i >= v.len() {
            let ghost v_snap = v@;
            v.push(x);
            proof {
                crate::text::lemma_views_of_push(v_snap, x);
                let nvs = views_of(v@);
                assert(nvs == vs.push(x@));
                assert forall|p: int, q: int| 0 <= p < q < nvs.len() implies lex_lt(
                    nvs[p],
                    nvs[q],
                ) by {
                    if q < vs.len() {
                        assert(nvs[p] == vs[p] && nvs[q] == vs[q]);
                    } else {
                        assert(nvs[q] == x@ && nvs[p] == vs[p]);
                    }
                }
                assert forall|y: Seq<char>| #[trigger]
                    nvs.contains(y) <==> vs.contains(y) || y == x@ by {
                    if vs.contains(y) {
                        let w = choose|w: int| 0 <= w < vs.len() && vs[w] == y;
                        assert(nvs[w] == y);
                    }
                    if y == x@ {
                        assert(nvs[vs.len() as int] == y);
                    }
                    if nvs.contains(y) {
                        let w = choose|w: int| 0 <= w < nvs.len() && nvs[w] == y;
                        if w < vs.len() {
                            assert(vs[w] == y);
                        }
                    }
                }
            }
            return ;
        }
        if string_eq(&v[i], &x) {
            proof {
                assert(views_of(v@)[i as int] == x@);
                assert(views_of(v@).contains(x@));
            }
            return ;
        }
        if str_lt(x.as_str(), v[i].as_str()) {
            let ghost v_snap = v@;
            v.insert(i, x);
            proof {
                let nvs = views_of(v@);
                assert(v@ == v_snap.insert(i as int, x));
                assert(nvs.len() == vs.len() + 1);
                assert forall|p: int| 0 <= p < nvs.len() implies nvs[p] == (if p < i {
                    vs[p]
                } else if p == i {
                    x@
                } else {
                    vs[p - 1]
                }) by {
                    assert(nvs[p] == v@[p]@);
                }
                assert forall|p: int, q: int| 0 <= p < q < nvs.len() implies lex_lt(
                    nvs[p],
                    nvs[q],
                ) by {
                    if p < i && q == i {
                        assert(lex_lt(vs[p], x@));
                    } else if p == i && q > i {
                        if q - 1 > i {
                            lemma_lex_lt_transitive(x@, vs[i as int], vs[q - 1]);
                        }
                    } else if p < i && q > i {
                        assert(lex_lt(vs[p], vs[q - 1]));
                    } else if q < i {
                        assert(lex_lt(vs[p], vs[q]));
                    } else {
                        assert(lex_lt(vs[p - 1], vs[q - 1]));
                    }
                }
                assert forall|y: Seq<char>| #[trigger]
                    nvs.contains(y) <==> vs.contains(y) || y == x@ by {
                    if vs.contains(y) {
                        let w = choose|w: int| 0 <= w < vs.len() && vs[w] == y;
                        if w < i {
                            assert(nvs[w] == y);
                        } else {
                            assert(nvs[w + 1] == y);
                        }
                    }
                    if y == x@ {
                        assert(nvs[i as int] == y);
                    }
                    if nvs.contains(y) {
                        let w = choose|w: int| 0 <= w < nvs.len() && nvs[w] == y;
                        if w < i {
                            assert(vs[w] == y);
                        } else if w > i {
                            assert(vs[w - 1] == y);
                        }
                    }
                }
            }
            return ;
        }
        proof {
            let xv = x@;
            let cv = views_of(v@)[i as int];
            assert(cv == v@[i as int]@);
            lemma_lex_lt_connected_choice(xv, cv);
        }
        i = i + 1;
    }
}

/// Of two distinct sequences where neither is known smaller, the
/// other one is: the order is total.
proof fn lemma_lex_lt_connected_choice(a: Seq<char>, b: Seq<char>)
    requires
        !lex_lt(a, b),
        a != b,
    ensures
        lex_lt(b, a),
{
    if !lex_lt(b, a) {
        lemma_lex_lt_connected(a, b);
    }
}

/// Builds the user reference line of an item.
fn user_def_string(item: &Item) -> (r: String)
    ensures
        r@ == user_def(item@),
{
    let mut r = String::from_str("[@");
    r.append(item.user_login.as_str());
    r.append("]: ");
    r.append(item.user_url.as_str());
    proof {
        assert(r@ =~= user_def(item@));
    }
    r
}

/// Builds the repository reference line of an item.
fn repo_def_string(item: &Item) -> (r: String)
    ensures
        r@ == repo_def(item@),
{
    let mut r = String::from_str("[");
    r.append(item.repository_name.as_str());
    r.append("]: ");
    r.append(item.repository_url.as_str());
    proof {
        assert(r@ =~= repo_def(item@));
    }
    r
}

/// Computes the reference definitions of an item set: one line per
/// distinct user login, then one per distinct repository, each block
/// deduplicated and sorted ascending by the full formatted line.
pub fn extract_definitions(items: &Vec<Item>) -> (r: Vec<String>)
    ensures
        is_definitions(items@, views_of(r@)),
{
    let mut users: Vec<String> = Vec::new();
    let mut repositories: Vec<String> = Vec::new();
    let mut i: usize = 0;
    while i < items.len()
        invariant
            i <= items@.len(),
            strictly_sorted(views_of(users@)),
            strictly_sorted(views_of(repositories@)),
            forall|x: Seq<char>|
                #[trigger] views_of(users@).contains(x) <==> exists|k: int|
                    0 <= k < i && x == user_def(#[trigger] items@[k]@),
            forall|x: Seq<char>|
                #[trigger] views_of(repositories@).contains(x) <==> exists|k: int|
                    0 <= k < i && x == repo_def(#[trigger] items@[k]@),
        decreases items@.len() - i,
    {
        let ghost us_old = views_of(users@);
        let ghost rs_old = views_of(repositories@);
        let u = user_def_string(&items[i]);
        let ghost uv = u@;
        insert_def(&mut users, u);
        let d = repo_def_string(&items[i]);
        let ghost dv = d@;
        insert_def(&mut repositories, d);
        i = i + 1;
        proof {
            assert forall|x: Seq<char>| #[trigger]
                views_of(users@).contains(x) <==> exists|k: int|
                    0 <= k < i && x == user_def(#[trigger] items@[k]@) by {
                if views_of(users@).contains(x) {
                    if us_old.contains(x) {
                        let k = choose|k: int| 0 <= k < i - 1 && x == user_def(items@[k]@);
                        assert(0 <= k < i && x == user_def(items@[k]@));
                    } else {
                        assert(x == user_def(items@[i - 1]@));
                    }
                }
                if exists|k: int| 0 <= k < i && x == user_def(items@[k]@) {
                    let k = choose|k: int| 0 <= k < i && x == user_def(items@[k]@);
                    if k < i - 1 {
                        assert(us_old.contains(x));
                    }
                }
            }
            assert forall|x: Seq<char>| #[trigger]
                views_of(repositories@).contains(x) <==> exists|k: int|
                    0 <= k < i && x == repo_def(#[trigger] items@[k]@) by {
                if views_of(repositories@).contains(x) {
                    if rs_old.contains(x) {
                        let k = choose|k: int| 0 <= k < i - 1 && x == repo_def(items@[k]@);
                        assert(0 <= k < i && x == repo_def(items@[k]@));
                    } else {
                        assert(x == repo_def(items@[i - 1]@));
                    }
                }
                if exists|k: int| 0 <= k < i && x == repo_def(items@[k]@) {
                    let k = choose|k: int| 0 <= k < i && x == repo_def(items@[k]@);
                    if k < i - 1 {
                        assert(rs_old.contains(x));
                    }
                }
            }
        }
    }
    let ghost us = views_of(users@);
    let ghost rs = views_of(repositories@);
    let ghost ulen = users@.len() as int;
    let ghost users_snap = users@;
    let ghost repositories_snap = repositories@;
    let mut r = users;
    r.append(&mut repositories);
    proof {
        assert(r@ == users_snap + repositories_snap);
        let rv = views_of(r@);
        assert(rv.take(ulen) =~= us) by {
            assert forall|p: int| 0 <= p < ulen implies rv.take(ulen)[p] == us[p] by {
                assert(rv[p] == r@[p]@);
                assert(r@[p] == users_snap[p]);
            }
        }
        assert(rv.skip(ulen) =~= rs) by {
            assert forall|p: int| 0 <= p < rs.len() implies rv.skip(ulen)[p] == rs[p] by {
                assert(rv[p + ulen] == r@[p + ulen]@);
                assert(r@[p + ulen] == repositories_snap[p]);
            }
        }
        assert(0 <= ulen <= rv.len() && is_user_defs(items@, rv.take(ulen)) && is_repo_defs(
            items@,
            rv.skip(ulen),
        ));
    }
    r
}

/// The definitions block is a function of the item set alone: any two
/// sequences that satisfy `is_definitions` for the same items are
/// equal, so extraction is deterministic and idempotent in its
/// ordering.
pub proof fn lemma_definitions_deterministic(
    items: Seq<Item>,
    a: Seq<Seq<char>>,
    b: Seq<Seq<char>>,
)
    requires
        is_definitions(items, a),
        is_definitions(items, b),
    ensures
        a == b,
{
    let ka = choose|k: int|
        0 <= k <= a.len() && is_user_defs(items, #[trigger] a.take(k)) && is_repo_defs(
            items,
            a.skip(k),
        );
    let kb = choose|k: int|
        0 <= k <= b.len() && is_user_defs(items, #[trigger] b.take(k)) && is_repo_defs(
            items,
            b.skip(k),
        );
    assert forall|x: Seq<char>|
        #![trigger a.take(ka).contains(x)]
        #![trigger b.take(kb).contains(x)]
        a.take(ka).contains(x) <==> b.take(kb).contains(x) by {}
    lemma_strictly_sorted_unique(a.take(ka), b.take(kb));
    assert(ka == kb);
    assert forall|x: Seq<char>|
        #![trigger a.skip(ka).contains(x)]
        #![trigger b.skip(kb).contains(x)]
        a.skip(ka).contains(x) <==> b.skip(kb).contains(x) by {}
    lemma_strictly_sorted_unique(a.skip(ka), b.skip(kb));
    assert(a.len() == b.len());
    assert forall|p: int| 0 <= p < a.len() implies a[p] == b[p] by {
        if p < ka {
            assert(a[p] == a.take(ka)[p]);
            assert(b[p] == b.take(kb)[p]);
        } else {
            assert(a[p] == a.skip(ka)[p - ka]);
            assert(b[p] == b.skip(kb)[p - kb]);
        }
    }
    assert(a =~= b);
}

/// Two strictly sorted sequences with the same members are equal.
pub proof fn lemma_strictly_sorted_unique(a: Seq<Seq<char>>, b: Seq<Seq<char>>)
    requires
        strictly_sorted(a),
        strictly_sorted(b),
        forall|x: Seq<char>|
            #![trigger a.contains(x)]
            #![trigger b.contains(x)]
            a.contains(x) <==> b.contains(x),
    ensures
        a == b,
    decreases a.len(),
{
    if a.len() == 0 && b.len() == 0 {
        assert(a =~= b);
    } else if a.len() == 0 {
        assert(b.contains(b[0]));
        assert(a.contains(b[0]));
        assert(false);
    } else if b.len() == 0 {
        assert(a.contains(a[0]));
        assert(b.contains(a[0]));
        assert(false);
    } else {
        // the heads are each the least member of the same set
        assert(a.contains(a[0]));
        assert(b.contains(b[0]));
        assert(b.contains(a[0]));
        assert(a.contains(b[0]));
        let j = choose|j: int| 0 <= j < b.len() && b[j] == a[0];
        let j2 = choose|j2: int| 0 <= j2 < a.len() && a[j2] == b[0];
        if j > 0 && j2 > 0 {
            assert(lex_lt(b[0], b[j]));
            assert(lex_lt(a[0], a[j2]));
            lemma_lex_lt_transitive(a[0], b[0], a[0]);
            lemma_lex_lt_irreflexive(a[0]);
            assert(false);
        }
        assert(a[0] == b[0]);
        let at = a.skip(1);
        let bt = b.skip(1);
        assert forall|x: Seq<char>| #[trigger] at.contains(x) implies bt.contains(x) by {
            lemma_tail_member(a, b, x);
        }
        assert forall|x: Seq<char>| #[trigger] bt.contains(x) implies at.contains(x) by {
            lemma_tail_member(b, a, x);
        }
        assert(strictly_sorted(at)) by {
            assert forall|p: int, q: int| 0 <= p < q < at.len() implies lex_lt(at[p], at[q]) by {
                assert(at[p] == a[p + 1] && at[q] == a[q + 1]);
            }
        }
        assert(strictly_sorted(bt)) by {
            assert forall|p: int, q: int| 0 <= p < q < bt.len() implies lex_lt(bt[p], bt[q]) by {
                assert(bt[p] == b[p + 1] && bt[q] == b[q + 1]);
            }
        }
        lemma_strictly_sorted_unique(at, bt);
        assert forall|i: int| 0 <= i < a.len() implies a[i] == b[i] by {
            if i > 0 {
                assert(a[i] == at[i - 1] && b[i] == bt[i - 1]);
            }
        }
        assert(a =~= b);
    }
}

/// A member of the tail of `a` is a member of the tail of `b`, when
/// the two strictly sorted sequences share their head and members.
proof fn lemma_tail_member(a: Seq<Seq<char>>, b: Seq<Seq<char>>, x: Seq<char>)
    requires
        strictly_sorted(a),
        strictly_sorted(b),
        a.len() > 0,
        b.len() > 0,
        a[0] == b[0],
        forall|y: Seq<char>|
            #![trigger a.contains(y)]
            #![trigger b.contains(y)]
            a.contains(y) <==> b.contains(y),
        a.skip(1).contains(x),
    ensures
        b.skip(1).contains(x),
{
    let at = a.skip(1);
    let m = choose|m: int| 0 <= m < at.len() && at[m] == x;
    assert(a[m + 1] == x);
    assert(a.contains(x));
    assert(b.contains(x));
    let w = choose|w: int| 0 <= w < b.len() && b[w] == x;
    if w == 0 {
        // then x equals the shared head, yet the head precedes x
        assert(lex_lt(a[0], a[m + 1]));
        lemma_lex_lt_irreflexive(x);
        assert(false);
    }
    assert(b.skip(1)[w - 1] == x);
}

} // verus!
