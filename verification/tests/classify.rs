use git_intel::classify::{classify_commit, classify_commit_with_parents};

fn c(msg: &str) -> &'static str {
    classify_commit(msg).as_str()
}

fn cp(msg: &str, parents: usize) -> &'static str {
    classify_commit_with_parents(msg, parents).as_str()
}

#[test]
fn classify_standard_types() {
    assert_eq!(c("feat: add login"), "feat");
    assert_eq!(c("fix: null pointer"), "fix");
    assert_eq!(c("chore: bump deps"), "chore");
    assert_eq!(c("docs: update README"), "docs");
    assert_eq!(c("refactor: extract method"), "refactor");
    assert_eq!(c("test: add unit tests"), "test");
    assert_eq!(c("style: format code"), "style");
    assert_eq!(c("perf: optimize query"), "perf");
    assert_eq!(c("ci: add workflow"), "ci");
    assert_eq!(c("build: update Makefile"), "build");
}

#[test]
fn classify_mixed_case() {
    assert_eq!(c("Feat: uppercase"), "feat");
    assert_eq!(c("FIX: all caps"), "fix");
    assert_eq!(c("CHORE: shouting"), "chore");
}

#[test]
fn classify_with_scope() {
    assert_eq!(c("feat(auth): add oauth"), "feat");
    assert_eq!(c("fix(db): connection leak"), "fix");
}

#[test]
fn classify_empty_string() {
    assert_eq!(c(""), "other");
}

#[test]
fn classify_multiline_uses_first_line() {
    assert_eq!(c("feat: first line\n\nThis is a body with fix: mentions"), "feat");
}

#[test]
fn classify_prefix_matching_edge_cases() {
    assert_eq!(c("fixing: something"), "other");
    assert_eq!(c("feature: something"), "other");
    assert_eq!(c("testing: something"), "other");
}

#[test]
fn classify_bare_type_with_space() {
    assert_eq!(c("fix typo"), "fix");
    assert_eq!(c("feat something new"), "feat");
    assert_eq!(c("test add coverage"), "test");
}

#[test]
fn classify_breaking_change_indicator() {
    assert_eq!(c("feat!: breaking change"), "feat");
    assert_eq!(c("fix!: breaking fix"), "fix");
}

#[test]
fn classify_type_alone() {
    assert_eq!(c("fix"), "fix");
    assert_eq!(c("feat"), "feat");
}

#[test]
fn classify_unrecognized() {
    assert_eq!(c("random commit message"), "other");
    assert_eq!(c("WIP"), "other");
}

#[test]
fn classify_nl_past_tense_fixed() {
    assert_eq!(c("Fixed null pointer in auth"), "fix");
    assert_eq!(c("fixed bug in parser"), "fix");
    assert_eq!(c("Fixed: handle edge case"), "fix");
}

#[test]
fn classify_nl_past_tense_added() {
    assert_eq!(c("Added support for dark mode"), "feat");
    assert_eq!(c("added new endpoint"), "feat");
    assert_eq!(c("Added: user profile page"), "feat");
}

#[test]
fn classify_nl_github_auto_close() {
    assert_eq!(c("Fixes #123"), "fix");
    assert_eq!(c("fixes #456 — null check"), "fix");
    assert_eq!(c("Fixed #789"), "fix");
    assert_eq!(c("Closes #42"), "fix");
    assert_eq!(c("Update parser, closes #99"), "fix");
}

#[test]
fn classify_nl_bugfix_compound() {
    assert_eq!(c("Bugfix: handle null"), "fix");
    assert_eq!(c("bugfix for login"), "fix");
    assert_eq!(c("Bug fix: race condition"), "fix");
    assert_eq!(c("bug fix in auth module"), "fix");
}

#[test]
fn classify_nl_hotfix() {
    assert_eq!(c("hotfix: emergency patch"), "fix");
    assert_eq!(c("Hotfix for prod crash"), "fix");
}

#[test]
fn classify_nl_conventional_still_wins() {
    assert_eq!(c("fix: proper conventional"), "fix");
    assert_eq!(c("feat: proper conventional"), "feat");
}

#[test]
fn classify_nl_strict_edge_cases() {
    assert_eq!(c("fixing: something"), "other");
    assert_eq!(c("feature: something"), "other");
}

#[test]
fn classify_revert_git_default_format() {
    assert_eq!(c("Revert \"feat: add login\""), "revert");
    assert_eq!(c("Revert \"fix: null pointer\""), "revert");
}

#[test]
fn classify_revert_conventional_colon() {
    assert_eq!(c("revert: undo login feature"), "revert");
    assert_eq!(c("Revert: undo login feature"), "revert");
    assert_eq!(c("REVERT: undo login feature"), "revert");
}

#[test]
fn classify_revert_conventional_scope() {
    assert_eq!(c("revert(auth): undo oauth"), "revert");
    assert_eq!(c("Revert(auth): undo oauth"), "revert");
}

#[test]
fn classify_revert_before_conventional_types() {
    assert_eq!(c("Revert \"feat: something\""), "revert");
}

#[test]
fn classify_revert_with_parents_normal_commit() {
    assert_eq!(cp("Revert \"feat: add login\"", 1), "revert");
    assert_eq!(cp("revert: undo feature", 1), "revert");
}

#[test]
fn classify_revert_merge_wins_over_revert() {
    assert_eq!(cp("Revert \"feat: add login\"", 2), "merge");
}

#[test]
fn classify_merge_commit_two_parents() {
    assert_eq!(cp("Merge branch 'feature'", 2), "merge");
}

#[test]
fn classify_merge_commit_overrides_conventional_type() {
    assert_eq!(cp("feat: merged feature branch", 2), "merge");
    assert_eq!(cp("fix: merge fix branch", 2), "merge");
}

#[test]
fn classify_merge_commit_three_parents() {
    assert_eq!(cp("Merge branches 'a' and 'b'", 3), "merge");
}

#[test]
fn classify_non_merge_with_parents_one() {
    assert_eq!(cp("feat: add login", 1), "feat");
    assert_eq!(cp("fix: null pointer", 1), "fix");
}

#[test]
fn classify_root_commit_with_parents_zero() {
    assert_eq!(cp("feat: initial commit", 0), "feat");
    assert_eq!(cp("initial commit", 0), "other");
}

#[test]
fn classify_release_semver_tag() {
    assert_eq!(c("v1.2.3"), "release");
    assert_eq!(c("v0.1.0"), "release");
    assert_eq!(c("v0.1.0-beta"), "release");
    assert_eq!(c("v2.0.0-rc.1"), "release");
}

#[test]
fn classify_release_semver_mixed_case() {
    assert_eq!(c("V1.2.3"), "release");
    assert_eq!(c("V0.1.0-beta"), "release");
}

#[test]
fn classify_release_keyword() {
    assert_eq!(c("Release 2.0"), "release");
    assert_eq!(c("release: v1.0"), "release");
    assert_eq!(c("RELEASE 3.0"), "release");
    assert_eq!(c("release v4.5.1"), "release");
}

#[test]
fn classify_release_bump_version() {
    assert_eq!(c("Bump version to 1.5"), "release");
    assert_eq!(c("bump version to 2.0.0"), "release");
    assert_eq!(c("Bump version"), "release");
}

#[test]
fn classify_release_not_false_positive() {
    assert_eq!(c("very important change"), "other");
    assert_eq!(c("various updates"), "other");
}

#[test]
fn classify_release_with_parents() {
    assert_eq!(cp("v1.2.3", 1), "release");
    assert_eq!(cp("v1.2.3", 2), "merge");
}
