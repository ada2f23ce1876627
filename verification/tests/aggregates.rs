use git_intel::authors::{bus_factor, AuthorStats};
use git_intel::classify::pad_or_truncate;
use git_intel::paths::dir_prefix;
use git_intel::trends::compute_dormant;

fn author(name: &str, email: &str, commits: u64, added: u64, deleted: u64) -> AuthorStats {
    AuthorStats {
        name: name.to_string(),
        email: email.to_string(),
        commits,
        lines_added: added,
        lines_deleted: deleted,
    }
}

#[test]
fn bus_factor_single_author() {
    let authors = vec![author("Alice", "alice@test.com", 10, 100, 20)];
    assert_eq!(bus_factor(&authors, 10), 1);
}

#[test]
fn bus_factor_two_equal_authors() {
    let authors = vec![
        author("Alice", "alice@test.com", 5, 50, 10),
        author("Bob", "bob@test.com", 5, 50, 10),
    ];
    assert_eq!(bus_factor(&authors, 10), 2);
}

#[test]
fn bus_factor_dominant_author() {
    let authors = vec![
        author("Alice", "alice@test.com", 8, 80, 10),
        author("Bob", "bob@test.com", 2, 20, 5),
    ];
    assert_eq!(bus_factor(&authors, 10), 1);
}

#[test]
fn bus_factor_empty() {
    let authors: Vec<AuthorStats> = vec![];
    assert_eq!(bus_factor(&authors, 0), 0);
}

#[test]
fn dir_prefix_depth_0() {
    assert_eq!(dir_prefix("src/lib.rs", 0), ".");
    assert_eq!(dir_prefix("README.md", 0), ".");
}

#[test]
fn common_dir_prefix_depth_1() {
    assert_eq!(dir_prefix("src/lib.rs", 1), "src");
    assert_eq!(dir_prefix("README.md", 1), ".");
}

#[test]
fn common_dir_prefix_depth_2() {
    assert_eq!(dir_prefix("src/utils/helper.rs", 2), "src/utils");
    assert_eq!(dir_prefix("src/lib.rs", 2), "src");
    assert_eq!(dir_prefix("README.md", 2), ".");
}

#[test]
fn dir_prefix_depth_0_aggregates_to_root() {
    assert_eq!(dir_prefix("src/lib.rs", 0), ".");
    assert_eq!(dir_prefix("a/b/c/d.rs", 0), ".");
    assert_eq!(dir_prefix("README.md", 0), ".");
}

#[test]
fn hotspots_dir_prefix_depth_1() {
    assert_eq!(dir_prefix("src/lib.rs", 1), "src");
    assert_eq!(dir_prefix("README.md", 1), ".");
    assert_eq!(dir_prefix(".gitignore", 1), ".");
}

#[test]
fn hotspots_dir_prefix_depth_2() {
    assert_eq!(dir_prefix("src/utils/helper.rs", 2), "src/utils");
    assert_eq!(dir_prefix("src/lib.rs", 2), "src");
    assert_eq!(dir_prefix("README.md", 2), ".");
}

#[test]
fn dir_prefix_depth_3() {
    assert_eq!(dir_prefix("a/b/c/d.rs", 3), "a/b/c");
    assert_eq!(dir_prefix("a/b/c.rs", 3), "a/b");
    assert_eq!(dir_prefix("a/b.rs", 3), "a");
    assert_eq!(dir_prefix("a.rs", 3), ".");
}

#[test]
fn pad_or_truncate_shorter() {
    let data = vec![1, 2, 3];
    let result = pad_or_truncate(&data, 5);
    assert_eq!(result, vec![1, 2, 3, 0, 0]);
}

#[test]
fn pad_or_truncate_exact() {
    let data = vec![1, 2, 3];
    let result = pad_or_truncate(&data, 3);
    assert_eq!(result, vec![1, 2, 3]);
}

#[test]
fn pad_or_truncate_longer() {
    let data = vec![1, 2, 3, 4, 5];
    let result = pad_or_truncate(&data, 3);
    assert_eq!(result, vec![1, 2, 3]);
}

fn set(items: &[&str]) -> Vec<String> {
    items.iter().map(|s| s.to_string()).collect()
}

#[test]
fn dormant_single_window_returns_empty() {
    let sets = vec![set(&["a.rs"])];
    assert_eq!(compute_dormant(&sets), Vec::<String>::new());
}

#[test]
fn dormant_no_windows_returns_empty() {
    let sets: Vec<Vec<String>> = vec![];
    assert_eq!(compute_dormant(&sets), Vec::<String>::new());
}

#[test]
fn dormant_file_in_older_not_newest() {
    let sets = vec![set(&["a.rs"]), set(&["a.rs", "b.rs"])];
    assert_eq!(compute_dormant(&sets), vec!["b.rs".to_string()]);
}

#[test]
fn dormant_file_active_in_both_not_dormant() {
    let sets = vec![set(&["a.rs", "b.rs"]), set(&["a.rs", "b.rs"])];
    assert_eq!(compute_dormant(&sets), Vec::<String>::new());
}

#[test]
fn dormant_union_across_multiple_older_windows() {
    let sets = vec![set(&["a.rs"]), set(&["b.rs"]), set(&["c.rs"])];
    assert_eq!(compute_dormant(&sets), vec!["b.rs".to_string(), "c.rs".to_string()]);
}

#[test]
fn dormant_output_sorted_alphabetically() {
    let sets = vec![set(&[]), set(&["z.rs", "a.rs", "m.rs"])];
    assert_eq!(
        compute_dormant(&sets),
        vec!["a.rs".to_string(), "m.rs".to_string(), "z.rs".to_string()]
    );
}

#[test]
fn dormant_new_file_only_in_newest_not_flagged() {
    let sets = vec![set(&["new.rs", "a.rs"]), set(&["a.rs"])];
    assert_eq!(compute_dormant(&sets), Vec::<String>::new());
}
