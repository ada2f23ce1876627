use git_intel::commit::{CommitRecord, FileDelta, filter_range};
use git_intel::convergence::convergence_pairs;
use git_intel::patterns::patterns_run;
use git_intel::signals::SignalKind;

fn commit(id: &str, ts: i64, message: &str, files: &[(&str, u64, u64)]) -> CommitRecord {
    CommitRecord {
        id: id.to_string(),
        timestamp: ts,
        author_name: "Test Author".to_string(),
        author_email: "test@test.com".to_string(),
        message: message.to_string(),
        parent_count: 1,
        files: files
            .iter()
            .map(|(p, a, d)| FileDelta {
                path: p.to_string(),
                additions: *a,
                deletions: *d,
            })
            .collect(),
    }
}

#[test]
fn five_commit_fixture_yields_one_fix_after_feat_signal() {
    // Newest first: docs, fix (shares src/lib.rs with the first feat),
    // chore, feat, feat; commits a day apart.
    let day = 86400;
    let records = vec![
        commit("e5e5e5e5", 5 * day, "docs: notes", &[("README.md", 3, 0)]),
        commit("d4d4d4d4", 4 * day, "fix: handle null input", &[("src/lib.rs", 2, 1)]),
        commit("c3c3c3c3", 3 * day, "chore: tidy", &[("Cargo.toml", 1, 1)]),
        commit("b2b2b2b2", 2 * day, "feat: second feature", &[("src/other.rs", 5, 0)]),
        commit("a1a1a1a1", 1 * day, "feat: first feature", &[("src/lib.rs", 10, 0)]),
    ];
    let out = patterns_run(&records, None);
    assert_eq!(out.total_commits_analyzed, 5);
    assert_eq!(out.signals.len(), 1);
    let sig = &out.signals[0];
    assert_eq!(sig.kind, SignalKind::FixAfterFeat);
    assert_eq!(sig.files, vec!["src/lib.rs".to_string()]);
    assert_eq!(sig.commits, vec!["a1a1a1a".to_string(), "d4d4d4d".to_string()]);
    assert!(sig.severity_num <= sig.severity_den);
    assert_eq!(out.fix_after_feat.len(), 1);
    assert_eq!(out.fix_after_feat[0].shared_files, vec!["src/lib.rs".to_string()]);
    assert_eq!(out.multi_edit_chains.len(), 0);
    assert_eq!(out.temporal_clusters.len(), 0);
}

#[test]
fn fix_after_refactor_is_signal_only() {
    let day = 86400;
    let records = vec![
        commit("f1f1f1f1", 2 * day, "fix: repair regression", &[("src/utils.rs", 1, 1)]),
        commit("e2e2e2e2", 1 * day, "refactor: extract helper", &[("src/utils.rs", 4, 4)]),
    ];
    let out = patterns_run(&records, None);
    assert_eq!(out.signals.len(), 1);
    assert_eq!(out.signals[0].kind, SignalKind::FixAfterRefactor);
    assert_eq!(out.fix_after_feat.len(), 0);
}

#[test]
fn no_signal_without_shared_files() {
    let day = 86400;
    let records = vec![
        commit("f1f1f1f1", 2 * day, "fix: repair regression", &[("src/a.rs", 1, 1)]),
        commit("e2e2e2e2", 1 * day, "feat: unrelated", &[("src/b.rs", 4, 4)]),
    ];
    let out = patterns_run(&records, None);
    assert_eq!(out.signals.len(), 0);
}

#[test]
fn multi_edit_chain_needs_three_touches_and_heavy_churn() {
    let records = vec![
        commit("a1a1a1a1", 3000, "fix: third touch", &[("src/hot.rs", 60, 0)]),
        commit("b2b2b2b2", 2000, "feat: second touch", &[("src/hot.rs", 40, 10)]),
        commit("c3c3c3c3", 1000, "feat: first touch", &[("src/hot.rs", 5, 0)]),
    ];
    let out = patterns_run(&records, None);
    assert_eq!(out.multi_edit_chains.len(), 1);
    let chain = &out.multi_edit_chains[0];
    assert_eq!(chain.path, "src/hot.rs");
    assert_eq!(chain.edit_count, 3);
    assert_eq!(chain.total_churn, 115);
    assert_eq!(chain.commits.len(), 3);
    // The directory collects the same three commits.
    assert_eq!(out.directory_chains.len(), 1);
    assert_eq!(out.directory_chains[0].path, "src");
    assert_eq!(out.directory_chains[0].total_edit_count, 3);
    assert_eq!(out.directory_chains[0].files, vec!["src/hot.rs".to_string()]);
}

#[test]
fn light_churn_is_not_a_chain() {
    let records = vec![
        commit("a1a1a1a1", 3000, "fix: third touch", &[("src/hot.rs", 10, 0)]),
        commit("b2b2b2b2", 2000, "feat: second touch", &[("src/hot.rs", 10, 10)]),
        commit("c3c3c3c3", 1000, "feat: first touch", &[("src/hot.rs", 5, 0)]),
    ];
    let out = patterns_run(&records, None);
    assert_eq!(out.multi_edit_chains.len(), 0);
}

#[test]
fn temporal_cluster_detected_within_hour() {
    let records = vec![
        commit("a1a1a1a1", 7000, "fix: one", &[("a.rs", 1, 0)]),
        commit("b2b2b2b2", 6000, "fix: two", &[("b.rs", 1, 0)]),
        commit("c3c3c3c3", 5000, "fix: three", &[("c.rs", 1, 0)]),
        commit("d4d4d4d4", 100000, "feat: far away", &[("d.rs", 1, 0)]),
    ];
    let out = patterns_run(&records, None);
    assert_eq!(out.temporal_clusters.len(), 1);
    let cl = &out.temporal_clusters[0];
    assert_eq!(cl.commit_count, 3);
    assert_eq!(cl.commits.len(), 3);
    let first = cl.commits[0].timestamp;
    for m in &cl.commits {
        assert!(first <= m.timestamp && m.timestamp <= first + 3600);
    }
    assert_eq!(
        cl.affected_files,
        vec!["a.rs".to_string(), "b.rs".to_string(), "c.rs".to_string()]
    );
}

#[test]
fn spread_commits_do_not_cluster() {
    let day = 86400;
    let records = vec![
        commit("a1a1a1a1", 3 * day, "fix: one", &[("a.rs", 1, 0)]),
        commit("b2b2b2b2", 2 * day, "fix: two", &[("b.rs", 1, 0)]),
        commit("c3c3c3c3", 1 * day, "fix: three", &[("c.rs", 1, 0)]),
    ];
    let out = patterns_run(&records, None);
    assert_eq!(out.temporal_clusters.len(), 0);
}

#[test]
fn convergence_pairs_respect_ratio_floor_and_cap() {
    let files = vec![
        ("a.txt".to_string(), 100u64),
        ("b.txt".to_string(), 95u64),
        ("c.txt".to_string(), 50u64),
        ("tiny.txt".to_string(), 3u64),
    ];
    let report = convergence_pairs(&files, 10, 10, None);
    assert_eq!(report.pairs.len(), 1);
    let p = &report.pairs[0];
    assert_eq!(p.path_a, "b.txt");
    assert_eq!(p.path_b, "a.txt");
    assert_eq!(p.size_a, 95);
    assert_eq!(p.size_b, 100);
    assert_eq!(p.size_diff, 5);
    assert_eq!(p.ratio_nanos, 950_000_000);
    assert!(!report.truncated);
}

#[test]
fn convergence_cap_truncates_and_flags() {
    let files = vec![
        ("a.txt".to_string(), 100u64),
        ("b.txt".to_string(), 100u64),
        ("c.txt".to_string(), 100u64),
    ];
    let report = convergence_pairs(&files, 10, 10, Some(1));
    assert_eq!(report.pairs.len(), 1);
    assert!(report.truncated);
    assert!(report.pairs[0].ratio_nanos >= 900_000_000);
    assert!(report.pairs[0].ratio_nanos <= 1_000_000_000);
}

#[test]
fn filter_range_skips_new_and_stops_at_old() {
    let records = vec![
        commit("a1a1a1a1", 500, "feat: too new", &[]),
        commit("b2b2b2b2", 300, "feat: in range", &[]),
        commit("c3c3c3c3", 100, "feat: too old", &[]),
        commit("d4d4d4d4", 350, "feat: behind the stop", &[]),
    ];
    let kept = filter_range(&records, Some(200), Some(400));
    // The too-new commit is skipped; the walk stops at the first commit
    // older than the lower bound, so nothing after it survives.
    assert_eq!(kept.len(), 1);
    assert_eq!(kept[0].id, "b2b2b2b2");
}
