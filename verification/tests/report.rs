use pr_report::item::{format_item, format_items, Item};
use pr_report::matcher::{match_items_with_labels, RepoConfig};
use pr_report::pipeline::{
    effective_users, filter_excluded, sort_items_by_repository, sort_labels_by_name, try_make_item,
};
use pr_report::refs::extract_definitions;
use pr_report::render::{build_content, format_label, render_document, render_flat};
use pr_report::text::{contains_string, join_strings, split_string, str_lt, string_eq};

fn items_helper() -> Vec<Item> {
    vec![
        Item {
            issue_number: "63".to_string(),
            issue_title: "Update nan".to_string(),
            issue_url: "https://github.com/atom/keyboard-layout/pull/63".to_string(),
            repository_name: "atom/keyboard-layout".to_string(),
            repository_url: "https://github.com/atom/keyboard-layout".to_string(),
            user_login: "mansona".to_string(),
            user_url: "https://github.com/mansona".to_string(),
        },
        Item {
            issue_number: "798".to_string(),
            issue_title: "Ember 4 compatibility".to_string(),
            issue_url: "https://github.com/ember-engines/ember-engines/pull/798".to_string(),
            repository_name: "ember-engines/ember-engines".to_string(),
            repository_url: "https://github.com/ember-engines/ember-engines".to_string(),
            user_login: "BobrImperator".to_string(),
            user_url: "https://github.com/BobrImperator".to_string(),
        },
    ]
}

fn repo_configs_helper() -> Vec<RepoConfig> {
    vec![RepoConfig {
        name: "Ember".to_string(),
        repos: vec!["ember-engines/ember-engines".to_string()],
        items: vec![],
    }]
}

#[test]
fn it_formats_label() {
    assert_eq!("## Ember", format_label(&repo_configs_helper()[0]));
}

#[test]
fn it_formats_item() {
    assert_eq!(
        "- [atom/keyboard-layout] [#63](https://github.com/atom/keyboard-layout/pull/63) Update nan ([@mansona])",
        format_item("mansona".to_string(), &items_helper()[0])
    );
}

#[test]
fn it_formats_items() {
    let expected = vec![
        "- [atom/keyboard-layout] [#63](https://github.com/atom/keyboard-layout/pull/63) Update nan ([@mansona])",
        "- [ember-engines/ember-engines] [#798](https://github.com/ember-engines/ember-engines/pull/798) Ember 4 compatibility ([@BobrImperator])",
    ];
    assert_eq!(expected, format_items(&items_helper()));
}

#[test]
fn it_extracts_definitions() {
    let expected = vec![
        "[@BobrImperator]: https://github.com/BobrImperator",
        "[@mansona]: https://github.com/mansona",
        "[atom/keyboard-layout]: https://github.com/atom/keyboard-layout",
        "[ember-engines/ember-engines]: https://github.com/ember-engines/ember-engines",
    ];
    assert_eq!(expected, extract_definitions(&items_helper()));
}

#[test]
fn it_matches_items_with_labels() {
    let items = items_helper();
    let mut repo_configs = repo_configs_helper();
    let atom_keyboard_item = items[0].clone();
    let ember_engines_item = items[1].clone();

    let unknown_items = match_items_with_labels(&mut repo_configs, &items);
    let expected_labels = vec![RepoConfig {
        name: "Ember".to_string(),
        repos: vec!["ember-engines/ember-engines".to_string()],
        items: vec![ember_engines_item],
    }];

    assert_eq!(expected_labels, repo_configs);
    assert_eq!(vec![atom_keyboard_item], unknown_items);
}

#[test]
fn extraction_is_idempotent_and_sorted() {
    let items = items_helper();
    let once = extract_definitions(&items);
    let twice = extract_definitions(&items);
    assert_eq!(once, twice);
    let mut sorted = once.clone();
    sorted.sort();
    assert_eq!(once, sorted);
}

#[test]
fn extraction_collapses_duplicates() {
    let mut items = items_helper();
    items.push(items[0].clone());
    items.push(items[1].clone());
    assert_eq!(extract_definitions(&items).len(), 4);
}

#[test]
fn matching_keeps_every_item() {
    let items = items_helper();
    let mut repo_configs = repo_configs_helper();
    let unknown_items = match_items_with_labels(&mut repo_configs, &items);
    let placed: usize = repo_configs.iter().map(|g| g.items.len()).sum();
    assert_eq!(placed + unknown_items.len(), items.len());
}

#[test]
fn scenario_renders_ember_then_unknown() {
    let items = items_helper();
    let mut repo_configs = repo_configs_helper();
    let unknown_items = match_items_with_labels(&mut repo_configs, &items);
    let content = build_content(&repo_configs, &unknown_items);
    let expected = vec![
        "## Ember",
        "",
        "- [ember-engines/ember-engines] [#798](https://github.com/ember-engines/ember-engines/pull/798) Ember 4 compatibility ([@BobrImperator])",
        "",
        "## Unknown",
        "",
        "- [atom/keyboard-layout] [#63](https://github.com/atom/keyboard-layout/pull/63) Update nan ([@mansona])",
    ];
    assert_eq!(expected, content);
}

#[test]
fn empty_groups_produce_no_heading() {
    let repo_configs = vec![
        RepoConfig { name: "Empty".to_string(), repos: vec!["a/b".to_string()], items: vec![] },
        RepoConfig {
            name: "Ember".to_string(),
            repos: vec!["ember-engines/ember-engines".to_string()],
            items: vec![items_helper()[1].clone()],
        },
    ];
    let content = build_content(&repo_configs, &vec![]);
    assert_eq!(content[0], "## Ember");
    assert!(!content.iter().any(|line| line.contains("Empty")));
}

#[test]
fn groups_render_in_configured_order() {
    let items = items_helper();
    let repo_configs = vec![
        RepoConfig {
            name: "Second".to_string(),
            repos: vec![],
            items: vec![items[1].clone()],
        },
        RepoConfig {
            name: "First".to_string(),
            repos: vec![],
            items: vec![items[0].clone()],
        },
    ];
    let content = build_content(&repo_configs, &vec![]);
    assert_eq!(content[0], "## Second");
    assert_eq!(content[4], "## First");
    assert_eq!(content[3], "");
}

#[test]
fn document_has_break_before_definitions() {
    let header = vec!["# Report".to_string()];
    let content = vec!["- a line".to_string()];
    let defs = vec!["[@x]: y".to_string()];
    let text = render_document(&header, &content, &defs);
    assert_eq!(text, "# Report- a line\n\n[@x]: y");
}

#[test]
fn flat_document_lists_all_bullets() {
    let items = items_helper();
    let defs = extract_definitions(&items);
    let text = render_flat(&items, &defs);
    let mut expected = String::new();
    expected.push_str("- [atom/keyboard-layout] [#63](https://github.com/atom/keyboard-layout/pull/63) Update nan ([@mansona])\n");
    expected.push_str("- [ember-engines/ember-engines] [#798](https://github.com/ember-engines/ember-engines/pull/798) Ember 4 compatibility ([@BobrImperator])");
    expected.push_str("\n\n");
    expected.push_str("[@BobrImperator]: https://github.com/BobrImperator\n");
    expected.push_str("[@mansona]: https://github.com/mansona\n");
    expected.push_str("[atom/keyboard-layout]: https://github.com/atom/keyboard-layout\n");
    expected.push_str("[ember-engines/ember-engines]: https://github.com/ember-engines/ember-engines");
    assert_eq!(text, expected);
}

#[test]
fn excluded_repository_never_appears() {
    let items = items_helper();
    let exclude = vec!["atom/keyboard-layout".to_string()];
    let kept = filter_excluded(&items, &exclude);
    assert_eq!(kept.len(), 1);
    assert_eq!(kept[0].repository_name, "ember-engines/ember-engines");

    let mut repo_configs = repo_configs_helper();
    let unknown_items = match_items_with_labels(&mut repo_configs, &kept);
    assert!(unknown_items.is_empty());
    assert!(repo_configs[0]
        .items
        .iter()
        .all(|item| item.repository_name != "atom/keyboard-layout"));

    let defs = extract_definitions(&kept);
    assert!(!defs.iter().any(|line| line.contains("atom/keyboard-layout")));
}

#[test]
fn exclusion_of_nothing_keeps_everything() {
    let items = items_helper();
    let kept = filter_excluded(&items, &vec![]);
    assert_eq!(kept, items);
}

#[test]
fn normalizes_record_into_item() {
    let item = try_make_item(
        "63".to_string(),
        "Update nan".to_string(),
        "https://github.com/atom/keyboard-layout/pull/63".to_string(),
        "mansona".to_string(),
        "https://github.com/mansona".to_string(),
    )
    .unwrap();
    assert_eq!(item, items_helper()[0]);
}

#[test]
fn rejects_short_url() {
    let item = try_make_item(
        "1".to_string(),
        "t".to_string(),
        "https://github.com/short".to_string(),
        "u".to_string(),
        "https://github.com/u".to_string(),
    );
    assert!(item.is_none());
}

#[test]
fn sorts_items_by_repository_name() {
    let mut items = items_helper();
    items.reverse();
    let sorted = sort_items_by_repository(items);
    assert_eq!(sorted[0].repository_name, "atom/keyboard-layout");
    assert_eq!(sorted[1].repository_name, "ember-engines/ember-engines");
}

#[test]
fn sorts_labels_by_name() {
    let labels = vec![
        RepoConfig { name: "Zed".to_string(), repos: vec![], items: vec![] },
        RepoConfig { name: "Ember".to_string(), repos: vec![], items: vec![] },
    ];
    let sorted = sort_labels_by_name(labels);
    assert_eq!(sorted[0].name, "Ember");
    assert_eq!(sorted[1].name, "Zed");
}

#[test]
fn configured_users_win_over_cli_users() {
    let from_config = vec!["a".to_string()];
    let from_cli = vec!["b".to_string()];
    assert_eq!(effective_users(from_config.clone(), from_cli.clone()), from_config);
    assert_eq!(effective_users(vec![], from_cli.clone()), from_cli);
}

#[test]
fn splits_and_joins_strings() {
    let parts = split_string("https://github.com/a/b/pull/1", '/');
    assert_eq!(parts, vec!["https:", "", "github.com", "a", "b", "pull", "1"]);
    assert_eq!(join_strings(&parts, "/"), "https://github.com/a/b/pull/1");
    assert_eq!(split_string("", '/'), vec![""]);
    assert_eq!(split_string("a/", '/'), vec!["a", ""]);
}

#[test]
fn empty_input_produces_empty_blocks() {
    let no_items: Vec<Item> = vec![];
    assert!(extract_definitions(&no_items).is_empty());
    assert!(format_items(&no_items).is_empty());
    assert_eq!(render_flat(&no_items, &vec![]), "\n\n");
    let mut no_groups: Vec<RepoConfig> = vec![];
    let unknown = match_items_with_labels(&mut no_groups, &items_helper());
    assert_eq!(unknown, items_helper());
    assert!(build_content(&vec![], &vec![]).is_empty());
}

#[test]
fn first_matching_group_wins() {
    let items = vec![items_helper()[1].clone()];
    let mut groups = vec![
        RepoConfig {
            name: "A".to_string(),
            repos: vec!["ember-engines/ember-engines".to_string()],
            items: vec![],
        },
        RepoConfig {
            name: "B".to_string(),
            repos: vec!["ember-engines/ember-engines".to_string()],
            items: vec![],
        },
    ];
    let unknown = match_items_with_labels(&mut groups, &items);
    assert!(unknown.is_empty());
    assert_eq!(groups[0].items.len(), 1);
    assert!(groups[1].items.is_empty());
}

#[test]
fn compares_strings_lexicographically() {
    assert!(str_lt("abc", "abd"));
    assert!(str_lt("ab", "abc"));
    assert!(!str_lt("abc", "abc"));
    assert!(!str_lt("b", "abc"));
    assert!(string_eq(&"x".to_string(), &"x".to_string()));
    assert!(!string_eq(&"x".to_string(), &"y".to_string()));
    let v = vec!["a".to_string(), "b".to_string()];
    assert!(contains_string(&v, &"b".to_string()));
    assert!(!contains_string(&v, &"c".to_string()));
}
