//! The normalized pull-request record and its bullet-line formatting.

use vstd::prelude::*;

verus! {

/// Mathematical image of an [`Item`]: every field as a sequence of
/// characters.
pub struct ItemView {
    pub issue_number: Seq<char>,
    pub issue_title: Seq<char>,
    pub issue_url: Seq<char>,
    pub repository_name: Seq<char>,
    pub repository_url: Seq<char>,
    pub user_login: Seq<char>,
    pub user_url: Seq<char>,
}

/// One normalized pull-request record.
///
/// `repository_name` holds the `owner/repo` pair taken from the first
/// two path segments of `issue_url`; `repository_url` is `issue_url`
/// with its final two path segments (the `pull` marker and the
/// pull-request id) removed.
#[derive(Debug, PartialEq, Eq)]
pub struct Item {
    pub issue_number: String,
    pub issue_title: String,
    pub issue_url: String,
    pub repository_name: String,
    pub repository_url: String,
    pub user_login: String,
    pub user_url: String,
}

impl View for Item {
    type V = ItemView;

    open spec fn view(&self) -> ItemView {
        ItemView {
            issue_number: self.issue_number@,
            issue_title: self.issue_title@,
            issue_url: self.issue_url@,
            repository_name: self.repository_name@,
            repository_url: self.repository_url@,
            user_login: self.user_login@,
            user_url: self.user_url@,
        }
    }
}

impl Clone for Item {
    /// Cloning an item reproduces it exactly, field for field.
    fn clone(&self) -> (r: Self)
        ensures
            r == *self,
    {
        Item {
            issue_number: self.issue_number.clone(),
            issue_title: self.issue_title.clone(),
            issue_url: self.issue_url.clone(),
            repository_name: self.repository_name.clone(),
            repository_url: self.repository_url.clone(),
            user_login: self.user_login.clone(),
            user_url: self.user_url.clone(),
        }
    }
}

/// The bullet line an item renders to, under a given author login:
/// `- [<repository_name>] [#<issue_number>](<issue_url>) <issue_title> ([@<login>])`.
pub open spec fn format_item_spec(user_login: Seq<char>, item: ItemView) -> Seq<char> {
    "- ["@ + item.repository_name + "] [#"@ + item.issue_number + "]("@ + item.issue_url + ") "@
        + item.issue_title + " ([@"@ + user_login + "])"@
}

/// Renders one item as its markdown bullet line.
pub fn format_item(user_login: String, item: &Item) -> (r: String)
    ensures
        r@ == format_item_spec(user_login@, item@),
{
    let mut r = String::from_str("- [");
    r.append(item.repository_name.as_str());
    r.append("] [#");
    r.append(item.issue_number.as_str());
    r.append("](");
    r.append(item.issue_url.as_str());
    r.append(") ");
    r.append(item.issue_title.as_str());
    r.append(" ([@");
    r.append(user_login.as_str());
    r.append("])");
    proof {
        assert(r@ =~= format_item_spec(user_login@, item@));
    }
    r
}

/// The bullet lines of a sequence of items, each under its own
/// author's login, in order.
pub open spec fn bullet_lines(items: Seq<Item>) -> Seq<Seq<char>> {
    items.map_values(|it: Item| format_item_spec(it@.user_login, it@))
}

/// Renders every item as its markdown bullet line, in order.
pub fn format_items(items: &Vec<Item>) -> (r: Vec<String>)
    ensures
        r.deep_view() == bullet_lines(items@),
{
    let mut r: Vec<String> = Vec::new();
    let mut i: usize = 0;
    while i < items.len()
        invariant
            0 <= i <= items@.len(),
            r.deep_view() =~= bullet_lines(items@.take(i as int)),
        decreases items@.len() - i,
    {
        let ghost r_old = r.deep_view();
        let ghost r_snap = r@;
        let login = items[i].user_login.clone();
        let line = format_item(login, &items[i]);
        r.push(line);
        i = i + 1;
        proof {
            let t = items@.take(i as int);
            assert(r@ == r_snap.push(line));
            assert(r@.len() == r_snap.len() + 1);
            assert(r_snap.len() == r_old.len());
            assert(r_old.len() == bullet_lines(items@.take(i - 1)).len());
            assert(r_old.len() == i - 1);
            assert(r.deep_view().len() == i);
            assert forall|k: int| 0 <= k < i implies #[trigger] r.deep_view()[k] == bullet_lines(
                t,
            )[k] by {
                assert(t[k] == items@[k]);
                assert(bullet_lines(t)[k] == format_item_spec(t[k]@.user_login, t[k]@));
                assert(r.deep_view()[k] == r@[k]@);
                if k < i - 1 {
                    assert(r@[k] == r_snap[k]);
                    assert(r_old[k] == r_snap[k]@);
                    assert(r_old[k] == bullet_lines(items@.take(i - 1))[k]);
                } else {
                    assert(r@[k] == line);
                }
            }
            assert(r.deep_view() =~= bullet_lines(t));
        }
    }
    proof {
        assert(items@.take(items@.len() as int) =~= items@);
    }
    r
}

} // verus!
