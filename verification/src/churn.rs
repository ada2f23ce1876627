//! File churn ranking: per-file added and deleted line totals and touch
//! counts over the walked range, sorted by total churn.
use vstd::prelude::*;
use crate::commit::{CommitRecord, CommitView, commit_views};
use crate::patterns::{records_bounded, total_delta_entries};
use crate::sorting::{sort_pairs_desc, lemma_permuted_membership, lemma_permuted_distinct};
use crate::text::{str_views, vec_contains_string};

verus! {

/// One file's churn statistics.
pub struct FileChurn {
    /// The file path.
    pub path: String,
    /// Lines added across the range.
    pub additions: u64,
    /// Lines deleted across the range.
    pub deletions: u64,
    /// Added plus deleted lines.
    pub total_churn: u64,
    /// How many diff entries touch the file.
    pub commit_count: u64,
}

/// The mathematical content of a `FileChurn`.
pub struct FileChurnView {
    /// The path.
    pub path: Seq<char>,
    /// Lines added.
    pub additions: u64,
    /// Lines deleted.
    pub deletions: u64,
    /// Total churn.
    pub total_churn: u64,
    /// Touch count.
    pub commit_count: u64,
}

impl View for FileChurn {
    type V = FileChurnView;

    open spec fn view(&self) -> FileChurnView {
        FileChurnView {
            path: self.path@,
            additions: self.additions,
            deletions: self.deletions,
            total_churn: self.total_churn,
            commit_count: self.commit_count,
        }
    }
}

/// The views of a churn table.
pub open spec fn fc_views(s: Seq<FileChurn>) -> Seq<FileChurnView> {
    s.map_values(|x: FileChurn| x@)
}

/// The churn report.
pub struct ChurnOutput {
    /// The per-file table, by total churn descending.
    pub files: Vec<FileChurn>,
    /// How many distinct files the whole range touches.
    pub total_files: usize,
    /// How many commits were analysed.
    pub total_commits_analyzed: usize,
}

/// Additions collected by path `p` among the first `j` files of one
/// commit.
pub open spec fn fadds_in(c: CommitView, p: Seq<char>, j: int) -> int
    decreases j,
{
    if j <= 0 {
        0
    } else {
        fadds_in(c, p, j - 1) + if c.files[j - 1].path == p {
            c.files[j - 1].additions as int
        } else {
            0int
        }
    }
}

/// Deletions collected by path `p` among the first `j` files.
pub open spec fn fdels_in(c: CommitView, p: Seq<char>, j: int) -> int
    decreases j,
{
    if j <= 0 {
        0
    } else {
        fdels_in(c, p, j - 1) + if c.files[j - 1].path == p {
            c.files[j - 1].deletions as int
        } else {
            0int
        }
    }
}

/// Occurrences of path `p` among the first `j` files.
pub open spec fn fcount_in(c: CommitView, p: Seq<char>, j: int) -> int
    decreases j,
{
    if j <= 0 {
        0
    } else {
        fcount_in(c, p, j - 1) + if c.files[j - 1].path == p {
            1int
        } else {
            0int
        }
    }
}

/// Additions collected by path `p` over a commit list.
pub open spec fn fadds(s: Seq<CommitView>, p: Seq<char>) -> int
    decreases s.len(),
{
    if s.len() == 0 {
        0
    } else {
        fadds(s.drop_last(), p) + fadds_in(s.last(), p, s.last().files.len() as int)
    }
}

/// Deletions collected by path `p` over a commit list.
pub open spec fn fdels(s: Seq<CommitView>, p: Seq<char>) -> int
    decreases s.len(),
{
    if s.len() == 0 {
        0
    } else {
        fdels(s.drop_last(), p) + fdels_in(s.last(), p, s.last().files.len() as int)
    }
}

/// Occurrences of path `p` over a commit list.
pub open spec fn focc(s: Seq<CommitView>, p: Seq<char>) -> int
    decreases s.len(),
{
    if s.len() == 0 {
        0
    } else {
        focc(s.drop_last(), p) + fcount_in(s.last(), p, s.last().files.len() as int)
    }
}

/// Per-commit sums and counts are bounded by the files scanned.
proof fn lemma_fin_bound(c: CommitView, p: Seq<char>, j: int)
    requires
        0 <= j <= c.files.len(),
        forall|l: int|
            0 <= l < c.files.len() ==> (#[trigger] c.files[l]).additions <= 0xFFFF_FFFF
                && c.files[l].deletions <= 0xFFFF_FFFF,
    ensures
        0 <= fadds_in(c, p, j) <= j * 0xFFFF_FFFF,
        0 <= fdels_in(c, p, j) <= j * 0xFFFF_FFFF,
        0 <= fcount_in(c, p, j) <= j,
    decreases j,
{
    if j > 0 {
        lemma_fin_bound(c, p, j - 1);
    }
}

/// Per-path totals are bounded by the entry total.
proof fn lemma_ftotals_bound(s: Seq<CommitView>, p: Seq<char>)
    requires
        crate::patterns::deltas_bounded(s),
    ensures
        0 <= fadds(s, p) <= total_delta_entries(s) * 0xFFFF_FFFF,
        0 <= fdels(s, p) <= total_delta_entries(s) * 0xFFFF_FFFF,
        0 <= focc(s, p) <= total_delta_entries(s),
    decreases s.len(),
{
    if s.len() > 0 {
        assert(crate::patterns::deltas_bounded(s.drop_last())) by {
            assert(forall|i: int|
                0 <= i < s.len() - 1 ==> #[trigger] s.drop_last()[i] == s[i]);
        }
        lemma_ftotals_bound(s.drop_last(), p);
        assert(s.last() == s[s.len() - 1]);
        lemma_fin_bound(s.last(), p, s.last().files.len() as int);
        vstd::arithmetic::mul::lemma_mul_is_distributive_add_other_way(
            0xFFFF_FFFF,
            total_delta_entries(s.drop_last()),
            s.last().files.len() as int,
        );
    }
}

/// Entry totals only grow with longer prefixes.
pub proof fn lemma_tde_take_pub(s: Seq<CommitView>, i: int)
    requires
        0 <= i <= s.len(),
    ensures
        total_delta_entries(s.take(i)) <= total_delta_entries(s),
        total_delta_entries(s.take(i)) >= 0,
    decreases s.len() - i,
{
    crate::patterns::lemma_tde_nonneg_pub(s.take(i));
    if i == s.len() {
        assert(s.take(i) =~= s);
    } else {
        assert(s.take(i + 1).drop_last() =~= s.take(i));
        lemma_tde_take_pub(s, i + 1);
    }
}

/// Some diff entry of the range touches this path.
pub open spec fn touched_path(s: Seq<CommitView>, p: Seq<char>) -> bool {
    exists|i: int, j: int|
        0 <= i < s.len() && 0 <= j < s[i].files.len() && (#[trigger] s[i].files[j]).path == p
}

/// Occurrence counts are never negative.
proof fn lemma_focc_nonneg(s: Seq<CommitView>, p: Seq<char>)
    ensures
        focc(s, p) >= 0,
    decreases s.len(),
{
    if s.len() > 0 {
        lemma_focc_nonneg(s.drop_last(), p);
        lemma_fcount_in_nonneg(s.last(), p, s.last().files.len() as int);
    }
}

/// Per-commit occurrence counts are never negative, and an occurrence
/// makes them positive.
proof fn lemma_fcount_in_pos(c: CommitView, p: Seq<char>, j: int, hit: int)
    requires
        0 <= hit < j,
        c.files[hit].path == p,
    ensures
        fcount_in(c, p, j) > 0,
    decreases j,
{
    if hit < j - 1 {
        lemma_fcount_in_pos(c, p, j - 1, hit);
        assert(fcount_in(c, p, j) >= fcount_in(c, p, j - 1)) by {
            if c.files[j - 1].path == p {
            }
        }
    } else {
        assert(fcount_in(c, p, j - 1) >= 0) by {
            lemma_fcount_in_nonneg(c, p, j - 1);
        }
    }
}

/// Per-commit occurrence counts are never negative.
proof fn lemma_fcount_in_nonneg(c: CommitView, p: Seq<char>, j: int)
    ensures
        fcount_in(c, p, j) >= 0,
    decreases j,
{
    if j > 0 {
        lemma_fcount_in_nonneg(c, p, j - 1);
    }
}

/// A touched path has a positive occurrence count.
proof fn lemma_focc_pos(s: Seq<CommitView>, p: Seq<char>, i: int, j: int)
    requires
        0 <= i < s.len(),
        0 <= j < s[i].files.len(),
        s[i].files[j].path == p,
    ensures
        focc(s, p) > 0,
    decreases s.len(),
{
    lemma_focc_nonneg(s.drop_last(), p);
    if i == s.len() - 1 {
        lemma_fcount_in_pos(s.last(), p, s.last().files.len() as int, j);
    } else {
        lemma_focc_pos(s.drop_last(), p, i, j);
        lemma_fcount_in_nonneg(s.last(), p, s.last().files.len() as int);
    }
}

/// The churn statistics of one path over a commit list.
fn churn_stats(records: &Vec<CommitRecord>, p: &String) -> (r: (u64, u64, u64))
    requires
        records_bounded(commit_views(records@)),
    ensures
        r.0 == fadds(commit_views(records@), p@),
        r.1 == fdels(commit_views(records@), p@),
        r.2 == focc(commit_views(records@), p@),
{
    let ghost cv = commit_views(records@);
    let mut adds: u64 = 0;
    let mut dels: u64 = 0;
    let mut cnt: u64 = 0;
    let mut i: usize = 0;
    while i < records.len()
        invariant
            0 <= i <= records@.len(),
            cv == commit_views(records@),
            cv.len() == records@.len(),
            records_bounded(cv),
            adds == fadds(cv.take(i as int), p@),
            dels == fdels(cv.take(i as int), p@),
            cnt == focc(cv.take(i as int), p@),
        decreases records@.len() - i,
    {
        proof {
            assert(cv[i as int] == records@[i as int]@);
            assert(crate::patterns::deltas_bounded(cv.take(i as int))) by {
                assert(forall|l: int| 0 <= l < i ==> #[trigger] cv.take(i as int)[l] == cv[l]);
            }
            lemma_ftotals_bound(cv.take(i as int), p@);
            lemma_tde_take_pub(cv, i as int);
            vstd::arithmetic::mul::lemma_mul_inequality(
                total_delta_entries(cv.take(i as int)),
                0x4000_0000,
                0xFFFF_FFFF,
            );
            assert(cv.take(i + 1).drop_last() =~= cv.take(i as int));
            assert(cv.take(i + 1).last() == cv[i as int]);
        }
        let ghost c = cv[i as int];
        let mut j: usize = 0;
        let mut ca: u64 = 0;
        let mut cd: u64 = 0;
        let mut cc: u64 = 0;
        while j < records[i].files.len()
            invariant
                0 <= j <= records@[i as int].files@.len(),
                i < records@.len(),
                cv == commit_views(records@),
                cv.len() == records@.len(),
                records_bounded(cv),
                c == cv[i as int],
                c == records@[i as int]@,
                c.files.len() == records@[i as int].files@.len(),
                ca == fadds_in(c, p@, j as int),
                cd == fdels_in(c, p@, j as int),
                cc == fcount_in(c, p@, j as int),
            decreases records@[i as int].files@.len() - j,
        {
            proof {
                assert(c.files[j as int] == records@[i as int].files@[j as int]@);
                lemma_fin_bound(c, p@, j as int);
                crate::patterns::lemma_entry_bound_cv_pub(cv, i as int);
                vstd::arithmetic::mul::lemma_mul_inequality(
                    j as int,
                    0x4000_0000,
                    0xFFFF_FFFF,
                );
            }
            if records[i].files[j].path == *p {
                ca = ca + records[i].files[j].additions;
                cd = cd + records[i].files[j].deletions;
                cc = cc + 1;
            } else {
                proof {
                    assert(c.files[j as int].path != p@);
                }
            }
            j = j + 1;
        }
        proof {
            lemma_fin_bound(c, p@, c.files.len() as int);
            crate::patterns::lemma_entry_bound_cv_pub(cv, i as int);
            vstd::arithmetic::mul::lemma_mul_inequality(
                c.files.len() as int,
                0x4000_0000,
                0xFFFF_FFFF,
            );
            vstd::arithmetic::mul::lemma_mul_is_distributive_add_other_way(
                0xFFFF_FFFF,
                total_delta_entries(cv.take(i as int)),
                c.files.len() as int,
            );
        }
        adds = adds + ca;
        dels = dels + cd;
        cnt = cnt + cc;
        i = i + 1;
    }
    proof {
        assert(cv.take(cv.len() as int) =~= cv);
    }
    (adds, dels, cnt)
}

/// Collect the distinct touched file paths of a walked list.
fn distinct_files(records: &Vec<CommitRecord>) -> (r: Vec<String>)
    ensures
        str_views(r@).no_duplicates(),
        forall|i: int, j: int|
            0 <= i < commit_views(records@).len() && 0 <= j < commit_views(
                records@,
            )[i].files.len() ==> str_views(r@).contains(
                (#[trigger] commit_views(records@)[i].files[j]).path,
            ),
        forall|k: int|
            0 <= k < r@.len() ==> touched_path(commit_views(records@), (#[trigger] r@[k])@),
{
    let ghost cv = commit_views(records@);
    let mut r: Vec<String> = Vec::new();
    let mut i: usize = 0;
    while i < records.len()
        invariant
            0 <= i <= records@.len(),
            cv == commit_views(records@),
            cv.len() == records@.len(),
            str_views(r@).no_duplicates(),
            forall|i2: int, j2: int|
                0 <= i2 < i && 0 <= j2 < cv[i2].files.len() ==> str_views(r@).contains(
                    (#[trigger] cv[i2].files[j2]).path,
                ),
            forall|k: int| 0 <= k < r@.len() ==> touched_path(cv, (#[trigger] r@[k])@),
        decreases records@.len() - i,
    {
        proof {
            assert(cv[i as int] == records@[i as int]@);
        }
        let mut j: usize = 0;
        while j < records[i].files.len()
            invariant
                0 <= i < records@.len(),
                0 <= j <= records@[i as int].files@.len(),
                cv == commit_views(records@),
                cv.len() == records@.len(),
                cv[i as int] == records@[i as int]@,
                cv[i as int].files.len() == records@[i as int].files@.len(),
                str_views(r@).no_duplicates(),
                forall|i2: int, j2: int|
                    0 <= i2 < i && 0 <= j2 < cv[i2].files.len() ==> str_views(r@).contains(
                        (#[trigger] cv[i2].files[j2]).path,
                    ),
                forall|j2: int|
                    0 <= j2 < j ==> str_views(r@).contains(
                        (#[trigger] cv[i as int].files[j2]).path,
                    ),
                forall|k: int| 0 <= k < r@.len() ==> touched_path(cv, (#[trigger] r@[k])@),
            decreases records@[i as int].files@.len() - j,
        {
            proof {
                assert(cv[i as int].files[j as int] == records@[i as int].files@[j as int]@);
            }
            let ghost x = cv[i as int].files[j as int].path;
            if !vec_contains_string(&r, &records[i].files[j].path) {
                proof {
                    assert(!str_views(r@).contains(x)) by {
                        if str_views(r@).contains(x) {
                            let w = choose|w: int|
                                0 <= w < str_views(r@).len() && str_views(r@)[w] == x;
                            assert(r@[w]@ == x);
                        }
                    }
                }
                let ghost prev = str_views(r@);
                r.push(records[i].files[j].path.clone());
                proof {
                    assert(touched_path(cv, x)) by {
                        assert(cv[i as int].files[j as int].path == x);
                    }
                    assert(str_views(r@) =~= prev.push(x));
                    assert(forall|w: int| 0 <= w < prev.len() ==> str_views(r@)[w] == prev[w]);
                    assert(str_views(r@).no_duplicates()) by {
                        assert forall|k1: int, k2: int|
                            0 <= k1 < k2 < str_views(r@).len() implies str_views(r@)[k1]
                            != str_views(r@)[k2] by {
                            if k2 == str_views(r@).len() - 1 {
                                assert(!prev.contains(x));
                                assert(prev[k1] != x);
                            }
                        }
                    }
                    assert forall|y: Seq<char>| prev.contains(y) implies str_views(
                        r@,
                    ).contains(y) by {
                        let w = choose|w: int| 0 <= w < prev.len() && prev[w] == y;
                        assert(str_views(r@)[w] == y);
                    }
                    assert(str_views(r@).contains(x)) by {
                        assert(str_views(r@)[str_views(r@).len() - 1] == x);
                    }
                }
            } else {
                proof {
                    assert(str_views(r@).contains(x)) by {
                        let w = choose|w: int| 0 <= w < r@.len() && r@[w]@ == x;
                        assert(str_views(r@)[w] == x);
                    }
                }
            }
            j = j + 1;
        }
        i = i + 1;
    }
    r
}

/// One churn entry is exact for its path.
pub open spec fn churn_ok(s: Seq<CommitView>, e: FileChurnView) -> bool {
    &&& e.additions == fadds(s, e.path)
    &&& e.deletions == fdels(s, e.path)
    &&& e.total_churn == e.additions + e.deletions
    &&& e.commit_count == focc(s, e.path)
    &&& e.commit_count > 0
    &&& touched_path(s, e.path)
}

/// The churn ranking of a walked, filtered commit list: one exact entry
/// per touched file, by total churn descending, truncated by the limit.
/// Without a limit the table length equals the distinct file count, so
/// every touched file is listed.
#[verifier::rlimit(100)]
pub fn churn_run(records: &Vec<CommitRecord>, limit: Option<usize>) -> (r: ChurnOutput)
    requires
        records_bounded(commit_views(records@)),
    ensures
        r.total_commits_analyzed == records@.len(),
        forall|k: int|
            0 <= k < r.files@.len() ==> churn_ok(commit_views(records@), (
            #[trigger] r.files@[k])@),
        forall|k1: int, k2: int|
            0 <= k1 < k2 < r.files@.len() ==> (#[trigger] r.files@[k1])@.path != (
            #[trigger] r.files@[k2])@.path,
        forall|a: int, b: int|
            0 <= a < b < r.files@.len() ==> (#[trigger] r.files@[a])@.total_churn >= (
            #[trigger] r.files@[b])@.total_churn,
        limit matches Some(l) ==> r.files@.len() <= l,
        limit is None ==> r.files@.len() == r.total_files,
        exists|ps: Seq<Seq<char>>|
            ps.no_duplicates() && r.total_files == ps.len() && (forall|i: int, j: int|
                0 <= i < commit_views(records@).len() && 0 <= j < commit_views(
                    records@,
                )[i].files.len() ==> ps.contains(
                    (#[trigger] commit_views(records@)[i].files[j]).path,
                )) && forall|k: int|
                0 <= k < ps.len() ==> touched_path(commit_views(records@), #[trigger] ps[k]),
{
    let ghost cv = commit_views(records@);
    let dp = distinct_files(records);
    let total_files = dp.len();
    let ghost dps = str_views(dp@);
    proof {
        assert(dps.no_duplicates() && total_files == dps.len() && (forall|i: int, j: int|
            0 <= i < cv.len() && 0 <= j < cv[i].files.len() ==> dps.contains(
                (#[trigger] cv[i].files[j]).path,
            )) && forall|k: int| 0 <= k < dps.len() ==> touched_path(cv, #[trigger] dps[k]));
    }
    let mut pairs: Vec<(u64, FileChurn)> = Vec::new();
    let mut t: usize = 0;
    while t < dp.len()
        invariant
            0 <= t <= dp@.len(),
            cv == commit_views(records@),
            records_bounded(cv),
            str_views(dp@).no_duplicates(),
            pairs@.len() == t,
            forall|k: int|
                0 <= k < t ==> churn_ok(cv, (#[trigger] pairs@[k]).1@) && pairs@[k].0
                    == pairs@[k].1@.total_churn && pairs@[k].1@.path == dp@[k]@,
        decreases dp@.len() - t,
    {
        let (adds, dels, cnt) = churn_stats(records, &dp[t]);
        proof {
            assert(crate::patterns::deltas_bounded(cv));
            lemma_ftotals_bound(cv, dp@[t as int]@);
            vstd::arithmetic::mul::lemma_mul_inequality(
                total_delta_entries(cv),
                0x4000_0000,
                0xFFFF_FFFF,
            );
        }
        proof {
            assert(touched_path(cv, dp@[t as int]@));
            let (wi, wj) = choose|wi: int, wj: int|
                0 <= wi < cv.len() && 0 <= wj < cv[wi].files.len() && (
                #[trigger] cv[wi].files[wj]).path == dp@[t as int]@;
            lemma_focc_pos(cv, dp@[t as int]@, wi, wj);
        }
        let entry = FileChurn {
            path: dp[t].clone(),
            additions: adds,
            deletions: dels,
            total_churn: adds + dels,
            commit_count: cnt,
        };
        pairs.push((adds + dels, entry));
        t = t + 1;
    }
    let ghost ppre = pairs@;
    proof {
        assert(ppre.map_values(|p: (u64, FileChurn)| p.1@.path) =~= str_views(dp@));
    }
    sort_pairs_desc(&mut pairs);
    proof {
        assert forall|k: int| 0 <= k < pairs@.len() implies churn_ok(
            cv,
            (#[trigger] pairs@[k]).1@,
        ) && pairs@[k].0 == pairs@[k].1@.total_churn by {
            lemma_permuted_membership(ppre, pairs@, k);
        }
        lemma_permuted_distinct(ppre, pairs@, |p: (u64, FileChurn)| p.1@.path);
    }
    let mut files: Vec<FileChurn> = Vec::new();
    let ghost sorted = pairs@;
    let total_pairs: usize = pairs.len();
    let mut q: usize = 0;
    while pairs.len() > 0
        invariant
            total_pairs == sorted.len(),
            q == sorted.len() - pairs@.len(),
            0 <= q <= total_pairs,
            pairs@ =~= sorted.skip(q as int),
            files@.len() == q,
            forall|k: int| 0 <= k < q ==> files@[k] == (#[trigger] sorted[k]).1,
            cv == commit_views(records@),
            forall|k: int|
                0 <= k < sorted.len() ==> churn_ok(cv, (#[trigger] sorted[k]).1@) && sorted[k].0
                    == sorted[k].1@.total_churn,
            forall|a: int, b: int|
                0 <= a < b < sorted.len() ==> (#[trigger] sorted[a]).0 >= (
                #[trigger] sorted[b]).0,
            sorted.map_values(|p: (u64, FileChurn)| p.1@.path).no_duplicates(),
        decreases pairs@.len(),
    {
        let p = pairs.remove(0);
        files.push(p.1);
        proof {
            assert(sorted.skip(q as int).drop_first() =~= sorted.skip(q + 1));
        }
        q = q + 1;
    }
    proof {
        assert forall|k1: int, k2: int| 0 <= k1 < k2 < files@.len() implies (
        #[trigger] files@[k1])@.path != (#[trigger] files@[k2])@.path by {
            let m = sorted.map_values(|p: (u64, FileChurn)| p.1@.path);
            assert(m[k1] == files@[k1]@.path && m[k2] == files@[k2]@.path);
        }
    }
    match limit {
        None => {},
        Some(l) => {
            let ghost pre_trunc = files@;
            files.truncate(l);
            proof {
                assert(forall|k: int|
                    0 <= k < files@.len() ==> #[trigger] files@[k] == pre_trunc[k]);
                assert(forall|k: int|
                    0 <= k < files@.len() ==> #[trigger] files@[k] == sorted[k].1);
            }
        },
    }
    proof {
        assert forall|k: int| 0 <= k < files@.len() implies churn_ok(
            cv,
            (#[trigger] files@[k])@,
        ) by {
            assert(files@[k] == sorted[k].1);
        }
        assert forall|a: int, b: int| 0 <= a < b < files@.len() implies (
        #[trigger] files@[a])@.total_churn >= (#[trigger] files@[b])@.total_churn by {
            assert(files@[a] == sorted[a].1);
            assert(files@[b] == sorted[b].1);
        }
        assert forall|k1: int, k2: int| 0 <= k1 < k2 < files@.len() implies (
        #[trigger] files@[k1])@.path != (#[trigger] files@[k2])@.path by {
            let m = sorted.map_values(|p: (u64, FileChurn)| p.1@.path);
            assert(files@[k1] == sorted[k1].1 && files@[k2] == sorted[k2].1);
            assert(m[k1] == files@[k1]@.path && m[k2] == files@[k2]@.path);
        }
    }
    ChurnOutput { files, total_files, total_commits_analyzed: records.len() }
}

} // verus!
