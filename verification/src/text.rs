//! Character-sequence tools: the lexicographic order on strings, the
//! view of a vector of strings, joining with a separator, and
//! splitting on a character.

use vstd::prelude::*;

verus! {

/// The views of a sequence of strings, element for element.
pub open spec fn views_of(s: Seq<String>) -> Seq<Seq<char>> {
    s.map_values(|x: String| x@)
}

/// A vector's deep view coincides with the views of its elements.
pub proof fn lemma_views_of_vec(v: Vec<String>)
    ensures
        v.deep_view() == views_of(v@),
{
    assert(v.deep_view() =~= views_of(v@));
}

/// Pushing a string pushes its view.
pub proof fn lemma_views_of_push(s: Seq<String>, x: String)
    ensures
        views_of(s.push(x)) == views_of(s).push(x@),
{
    assert(views_of(s.push(x)) =~= views_of(s).push(x@));
}

/// Concatenation commutes with taking views.
pub proof fn lemma_views_of_concat(a: Seq<String>, b: Seq<String>)
    ensures
        views_of(a + b) == views_of(a) + views_of(b),
{
    assert forall|i: int| 0 <= i < a.len() + b.len() implies views_of(a + b)[i] == (views_of(a)
        + views_of(b))[i] by {
        if i < a.len() {
            assert((a + b)[i] == a[i]);
        } else {
            assert((a + b)[i] == b[i - a.len()]);
        }
    }
    assert(views_of(a + b) =~= views_of(a) + views_of(b));
}

/// Strict lexicographic order on character sequences, comparing code
/// points position by position; a proper prefix precedes its
/// extensions.
pub open spec fn lex_lt(a: Seq<char>, b: Seq<char>) -> bool
    decreases a.len(),
{
    if b.len() == 0 {
        false
    } else if a.len() == 0 {
        true
    } else if a[0] == b[0] {
        lex_lt(a.skip(1), b.skip(1))
    } else {
        (a[0] as u32) < (b[0] as u32)
    }
}

/// Non-strict lexicographic order.
pub open spec fn lex_le(a: Seq<char>, b: Seq<char>) -> bool {
    a == b || lex_lt(a, b)
}

/// Distinct characters have distinct code points.
proof fn lemma_char_code_injective(a: char, b: char)
    requires
        (a as u32) == (b as u32),
    ensures
        a == b,
{
}

/// No sequence precedes itself.
pub proof fn lemma_lex_lt_irreflexive(a: Seq<char>)
    ensures
        !lex_lt(a, a),
    decreases a.len(),
{
    if a.len() > 0 {
        lemma_lex_lt_irreflexive(a.skip(1));
    }
}

/// Two sequences neither of which precedes the other are equal.
pub proof fn lemma_lex_lt_connected(a: Seq<char>, b: Seq<char>)
    requires
        !lex_lt(a, b),
        !lex_lt(b, a),
    ensures
        a == b,
    decreases a.len(),
{
    if a.len() == 0 || b.len() == 0 {
        assert(a =~= b);
    } else if a[0] == b[0] {
        lemma_lex_lt_connected(a.skip(1), b.skip(1));
        assert(a.skip(1) == b.skip(1));
        assert(a.len() == b.len());
        assert forall|i: int| 0 <= i < a.len() implies a[i] == b[i] by {
            if i > 0 {
                assert(a[i] == a.skip(1)[i - 1]);
                assert(b[i] == b.skip(1)[i - 1]);
            }
        }
        assert(a =~= b);
    } else {
        let x: char = a[0];
        let y: char = b[0];
        assert((x as u32) == (y as u32));
        lemma_char_code_injective(x, y);
        assert(false);
    }
}

/// The lexicographic order is transitive.
pub proof fn lemma_lex_lt_transitive(a: Seq<char>, b: Seq<char>, c: Seq<char>)
    requires
        lex_lt(a, b),
        lex_lt(b, c),
    ensures
        lex_lt(a, c),
    decreases a.len(),
{
    if b.len() == 0 || c.len() == 0 {
        // lex_lt(b, c) forces c nonempty, and lex_lt(a, b) forces b nonempty
    } else if a.len() == 0 {
        // the empty sequence precedes the nonempty c
    } else if a[0] == b[0] && b[0] == c[0] {
        lemma_lex_lt_transitive(a.skip(1), b.skip(1), c.skip(1));
    } else {
        // in every remaining case the head code points settle it
        assert((a[0] as u32) <= (b[0] as u32));
        assert((b[0] as u32) <= (c[0] as u32));
        assert((a[0] as u32) < (c[0] as u32));
        assert(a[0] != c[0]);
    }
}

/// Compares two strings in the lexicographic order.
pub fn str_lt(a: &str, b: &str) -> (r: bool)
    ensures
        r == lex_lt(a@, b@),
{
    let alen = a.unicode_len();
    let blen = b.unicode_len();
    let mut i: usize = 0;
    proof {
        assert(a@.skip(0) =~= a@);
        assert(b@.skip(0) =~= b@);
    }
    loop
        invariant
            i <= alen,
            i <= blen,
            alen == a@.len(),
            blen == b@.len(),
            lex_lt(a@, b@) == lex_lt(a@.skip(i as int), b@.skip(i as int)),
        decreases alen - i,
    {
        if i >= blen {
            return false;
        }
        if i >= alen {
            return true;
        }
        let ca = a.get_char(i);
        let cb = b.get_char(i);
        if ca == cb {
            proof {
                assert(a@.skip(i as int).skip(1) =~= a@.skip(i + 1));
                assert(b@.skip(i as int).skip(1) =~= b@.skip(i + 1));
            }
            i = i + 1;
        } else {
            return (ca as u32) < (cb as u32);
        }
    }
}

/// The parts joined with the separator between each adjacent pair.
pub open spec fn join_sep(parts: Seq<Seq<char>>, sep: Seq<char>) -> Seq<char>
    decreases parts.len(),
{
    if parts.len() == 0 {
        Seq::empty()
    } else if parts.len() == 1 {
        parts[0]
    } else {
        join_sep(parts.drop_last(), sep) + sep + parts.last()
    }
}

/// Joins the strings with the separator between each adjacent pair.
pub fn join_strings(v: &Vec<String>, sep: &str) -> (r: String)
    ensures
        r@ == join_sep(views_of(v@), sep@),
{
    let mut r = String::new();
    let mut i: usize = 0;
    while i < v.len()
        invariant
            i <= v@.len(),
            r@ == join_sep(views_of(v@).take(i as int), sep@),
        decreases v@.len() - i,
    {
        if i > 0 {
            r.append(sep);
        }
        r.append(v[i].as_str());
        i = i + 1;
        proof {
            let pv = views_of(v@);
            assert(pv.take(i as int).drop_last() =~= pv.take(i - 1));
            assert(pv.take(i as int).last() == v@[i - 1]@);
            if i == 1 {
                assert(r@ =~= pv.take(1)[0]);
            }
        }
    }
    proof {
        assert(views_of(v@).take(v@.len() as int) =~= views_of(v@));
    }
    r
}

/// The segments of `s` between occurrences of `c`: one segment when
/// `c` does not occur, a fresh empty segment after each occurrence.
pub open spec fn split_char(s: Seq<char>, c: char) -> Seq<Seq<char>>
    decreases s.len(),
{
    if s.len() == 0 {
        seq![Seq::<char>::empty()]
    } else {
        let prev = split_char(s.drop_last(), c);
        if s.last() == c {
            prev.push(Seq::empty())
        } else {
            prev.drop_last().push(prev.last().push(s.last()))
        }
    }
}

/// A split always yields at least one segment.
pub proof fn lemma_split_char_nonempty(s: Seq<char>, c: char)
    ensures
        split_char(s, c).len() >= 1,
    decreases s.len(),
{
    if s.len() > 0 {
        lemma_split_char_nonempty(s.drop_last(), c);
    }
}

/// Splits a string on each occurrence of `c`.
pub fn split_string(s: &str, c: char) -> (r: Vec<String>)
    ensures
        views_of(r@) == split_char(s@, c),
{
    let n = s.unicode_len();
    let mut r: Vec<String> = Vec::new();
    let mut start: usize = 0;
    let mut i: usize = 0;
    proof {
        assert(s@.take(0) =~= Seq::<char>::empty());
        assert(s@.subrange(0, 0) =~= Seq::<char>::empty());
        assert(views_of(r@).push(Seq::<char>::empty()) =~= seq![Seq::<char>::empty()]);
    }
    while i < n
        invariant
            start <= i <= n,
            n == s@.len(),
            views_of(r@).push(s@.subrange(start as int, i as int)) =~= split_char(
                s@.take(i as int),
                c,
            ),
        decreases n - i,
    {
        let ghost r_old = r@;
        let ghost start_old = start as int;
        let ch = s.get_char(i);
        if ch == c {
            let seg = String::from_str(s.substring_char(start, i));
            r.push(seg);
            start = i + 1;
            proof {
                lemma_views_of_push(r_old, seg);
            }
        }
        i = i + 1;
        proof {
            let t = s@.take(i as int);
            assert(t.drop_last() =~= s@.take(i - 1));
            assert(t.last() == s@[i - 1]);
            lemma_split_char_nonempty(s@.take(i - 1), c);
            if ch == c {
                assert(s@.subrange(start as int, i as int) =~= Seq::<char>::empty());
                assert(views_of(r@).push(s@.subrange(start as int, i as int)) =~= split_char(
                    t,
                    c,
                ));
            } else {
                assert(s@.subrange(start_old, i as int) =~= s@.subrange(start_old, i - 1).push(
                    s@[i - 1],
                ));
                let prev = split_char(s@.take(i - 1), c);
                assert(views_of(r@) =~= prev.drop_last());
                assert(views_of(r@).push(s@.subrange(start as int, i as int)) =~= split_char(
                    t,
                    c,
                ));
            }
        }
    }
    let ghost r_old = r@;
    let last = String::from_str(s.substring_char(start, n));
    r.push(last);
    proof {
        lemma_views_of_push(r_old, last);
        assert(s@.take(n as int) =~= s@);
        assert(views_of(r@) =~= split_char(s@, c));
    }
    r
}

/// Whether two strings hold the same characters.
pub fn string_eq(a: &String, b: &String) -> (r: bool)
    ensures
        r == (a@ == b@),
{
    *a == *b
}

/// Whether one of the strings in `v` has the view `s`.
pub fn contains_string(v: &Vec<String>, s: &String) -> (r: bool)
    ensures
        r == views_of(v@).contains(s@),
{
    let mut i: usize = 0;
    while i < v.len()
        invariant
            i <= v@.len(),
            forall|k: int| 0 <= k < i ==> v@[k]@ != s@,
        decreases v@.len() - i,
    {
        if string_eq(&v[i], s) {
            proof {
                assert(views_of(v@)[i as int] == s@);
            }
            return true;
        }
        i = i + 1;
    }
    proof {
        assert forall|k: int| 0 <= k < views_of(v@).len() implies views_of(v@)[k] != s@ by {
            assert(views_of(v@)[k] == v@[k]@);
        }
    }
    false
}

} // verus!
