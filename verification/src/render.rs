//! Deterministic markdown rendering: group sections in configured
//! order, the unknown section, and the final document text.

use crate::item::{bullet_lines, format_items, Item};
use crate::matcher::{groups_view, RepoConfig, RepoConfigView};
use crate::text::{
    join_sep, join_strings, lemma_views_of_concat, lemma_views_of_push, lemma_views_of_vec,
    views_of,
};
use vstd::prelude::*;

verus! {

/// The heading line of a label group: `## <name>`.
pub open spec fn format_label_spec(name: Seq<char>) -> Seq<char> {
    "## "@ + name
}

/// Renders a group's heading line.
pub fn format_label(repo: &RepoConfig) -> (r: String)
    ensures
        r@ == format_label_spec(repo@.name),
{
    let mut r = String::from_str("## ");
    r.append(repo.name.as_str());
    proof {
        assert(r@ =~= format_label_spec(repo@.name));
    }
    r
}

/// The lines one group contributes: nothing when it has no items;
/// otherwise a separating blank line (except before the first
/// rendered group), its heading, a blank line, and its bullets.
pub open spec fn group_section_lines(g: RepoConfigView, any_before: bool) -> Seq<Seq<char>> {
    if g.items.len() == 0 {
        Seq::empty()
    } else {
        (if any_before {
            seq![Seq::<char>::empty()]
        } else {
            Seq::<Seq<char>>::empty()
        }) + seq![format_label_spec(g.name), Seq::<char>::empty()] + bullet_lines(g.items)
    }
}

/// The lines of the group sections from a given point on;
/// `any_before` records whether some earlier group already rendered.
pub open spec fn groups_lines_from(groups: Seq<RepoConfigView>, any_before: bool) -> Seq<
    Seq<char>,
>
    decreases groups.len(),
{
    if groups.len() == 0 {
        Seq::empty()
    } else if groups[0].items.len() == 0 {
        groups_lines_from(groups.skip(1), any_before)
    } else {
        group_section_lines(groups[0], any_before) + groups_lines_from(groups.skip(1), true)
    }
}

/// The lines of the unknown section: nothing when the bucket is
/// empty, else a blank line, the `## Unknown` heading, a blank line,
/// and the bullets.
pub open spec fn unknown_section_lines(unknown: Seq<Item>) -> Seq<Seq<char>> {
    if unknown.len() == 0 {
        Seq::empty()
    } else {
        seq![Seq::<char>::empty(), "## Unknown"@, Seq::<char>::empty()] + bullet_lines(unknown)
    }
}

/// Every content line of the report: the group sections in their
/// configured order, then the unknown section.
pub open spec fn content_lines(groups: Seq<RepoConfigView>, unknown: Seq<Item>) -> Seq<Seq<char>> {
    groups_lines_from(groups, false) + unknown_section_lines(unknown)
}

/// A group without items contributes nothing: removing it leaves the
/// rendered lines unchanged.
pub proof fn lemma_empty_group_omitted(groups: Seq<RepoConfigView>, i: int, any_before: bool)
    requires
        0 <= i < groups.len(),
        groups[i].items.len() == 0,
    ensures
        groups_lines_from(groups.remove(i), any_before) == groups_lines_from(groups, any_before),
    decreases groups.len(),
{
    if i == 0 {
        assert(groups.remove(0) =~= groups.skip(1));
    } else {
        let tail = groups.skip(1);
        assert(groups.remove(i).skip(1) =~= tail.remove(i - 1));
        assert(tail[i - 1] == groups[i]);
        assert(groups.remove(i)[0] == groups[0]);
        if groups[0].items.len() == 0 {
            lemma_empty_group_omitted(tail, i - 1, any_before);
        } else {
            lemma_empty_group_omitted(tail, i - 1, true);
        }
    }
}

/// Builds the content lines of the report from the populated groups
/// and the unknown bucket.
pub fn build_content(repos: &Vec<RepoConfig>, unknown: &Vec<Item>) -> (r: Vec<String>)
    ensures
        views_of(r@) == content_lines(groups_view(repos@), unknown@),
{
    let ghost gv = groups_view(repos@);
    let mut content: Vec<String> = Vec::new();
    let mut any: bool = false;
    let mut i: usize = 0;
    proof {
        assert(gv.skip(0) =~= gv);
        assert(views_of(content@) + groups_lines_from(gv, false) =~= groups_lines_from(gv, false));
    }
    while i < repos.len()
        invariant
            i <= repos@.len(),
            gv == groups_view(repos@),
            groups_lines_from(gv, false) == views_of(content@) + groups_lines_from(
                gv.skip(i as int),
                any,
            ),
        decreases repos@.len() - i,
    {
        let ghost rest = gv.skip(i as int);
        proof {
            assert(rest[0] == gv[i as int]);
            assert(gv[i as int] == repos@[i as int]@);
            assert(rest.skip(1) =~= gv.skip(i + 1));
        }
        if repos[i].items.len() > 0 {
            let ghost c0 = content@;
            if any {
                content.push(String::new());
            }
            let ghost c1 = content@;
            content.push(format_label(&repos[i]));
            content.push(String::new());
            let ghost c2 = content@;
            let mut bullets = format_items(&repos[i].items);
            proof {
                lemma_views_of_vec(bullets);
            }
            let ghost bv = bullets@;
            content.append(&mut bullets);
            proof {
                lemma_views_of_concat(c2, bv);
                assert(views_of(content@) =~= views_of(c0) + group_section_lines(
                    gv[i as int],
                    any,
                ));
                lemma_views_of_concat(c0, content@.skip(c0.len() as int));
            }
            any = true;
        }
        i = i + 1;
        proof {
            assert(views_of(content@) + groups_lines_from(gv.skip(i as int), any)
                =~= groups_lines_from(gv, false));
        }
    }
    proof {
        assert(gv.skip(repos@.len() as int) =~= Seq::<RepoConfigView>::empty());
        assert(views_of(content@) =~= groups_lines_from(gv, false));
    }
    if unknown.len() > 0 {
        let ghost c3 = content@;
        content.push(String::new());
        content.push(String::from_str("## Unknown"));
        content.push(String::new());
        let ghost c4 = content@;
        let mut bullets = format_items(unknown);
        proof {
            lemma_views_of_vec(bullets);
        }
        let ghost bv = bullets@;
        content.append(&mut bullets);
        proof {
            lemma_views_of_concat(c4, bv);
            assert(views_of(content@) =~= views_of(c3) + unknown_section_lines(unknown@));
            assert(views_of(content@) =~= content_lines(gv, unknown@));
        }
    } else {
        proof {
            assert(views_of(content@) =~= content_lines(gv, unknown@));
        }
    }
    content
}

/// The newline separator between lines.
pub open spec fn newline() -> Seq<char> {
    "\n"@
}

/// The fixed break between the body and the reference block: the
/// bytes of one blank line inside the joined text.
pub open spec fn break_text() -> Seq<char> {
    "\n\n"@
}

/// The final document: the header lines joined by newline, then the
/// content lines joined by newline, the fixed break, and the
/// reference definitions joined by newline.
pub open spec fn document_spec(
    header: Seq<Seq<char>>,
    content: Seq<Seq<char>>,
    defs: Seq<Seq<char>>,
) -> Seq<char> {
    join_sep(header, newline()) + join_sep(content, newline()) + break_text() + join_sep(
        defs,
        newline(),
    )
}

/// Assembles the final document text.
pub fn render_document(header: &Vec<String>, content: &Vec<String>, defs: &Vec<String>) -> (r:
    String)
    ensures
        r@ == document_spec(views_of(header@), views_of(content@), views_of(defs@)),
{
    let mut r = join_strings(header, "\n");
    let c = join_strings(content, "\n");
    r.append(c.as_str());
    r.append("\n\n");
    let d = join_strings(defs, "\n");
    r.append(d.as_str());
    proof {
        assert(r@ =~= document_spec(views_of(header@), views_of(content@), views_of(defs@)));
    }
    r
}

/// The flat-mode document, used when no configuration could be read:
/// only the bullet lines of all the items, the fixed break, and the
/// reference definitions.
pub open spec fn flat_document_spec(items: Seq<Item>, defs: Seq<Seq<char>>) -> Seq<char> {
    join_sep(bullet_lines(items), newline()) + break_text() + join_sep(defs, newline())
}

/// Assembles the flat-mode document text.
pub fn render_flat(items: &Vec<Item>, defs: &Vec<String>) -> (r: String)
    ensures
        r@ == flat_document_spec(items@, views_of(defs@)),
{
    let lines = format_items(items);
    proof {
        lemma_views_of_vec(lines);
    }
    let mut r = join_strings(&lines, "\n");
    r.append("\n\n");
    let d = join_strings(defs, "\n");
    r.append(d.as_str());
    proof {
        assert(r@ =~= flat_document_spec(items@, views_of(defs@)));
    }
    r
}

} // verus!
