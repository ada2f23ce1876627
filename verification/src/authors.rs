//! Per-directory ownership: author statistics, top contributor and bus
//! factor, grouped by directory prefix at a chosen depth. Two raw
//! identities already canonicalised to the same identity by the caller
//! count as one author everywhere.
use vstd::prelude::*;
use crate::commit::{CommitRecord, CommitView, commit_views};
use crate::paths::spec_dir_prefix;
use crate::patterns::{records_bounded, total_delta_entries};
use crate::sorting::{sort_pairs_desc, lemma_permuted_membership, lemma_permuted_distinct};
use crate::text::{str_views, vec_contains_string};

verus! {

/// One author's statistics within a directory.
pub struct AuthorStats {
    /// The canonical author name.
    pub name: String,
    /// The canonical author email, the author's identity.
    pub email: String,
    /// Commits by this author touching the directory.
    pub commits: u64,
    /// Lines this author added under the directory.
    pub lines_added: u64,
    /// Lines this author deleted under the directory.
    pub lines_deleted: u64,
}

/// The mathematical content of an `AuthorStats`.
pub struct AuthorStatsView {
    /// The name.
    pub name: Seq<char>,
    /// The identity.
    pub email: Seq<char>,
    /// The commit count.
    pub commits: u64,
    /// Lines added.
    pub lines_added: u64,
    /// Lines deleted.
    pub lines_deleted: u64,
}

impl View for AuthorStats {
    type V = AuthorStatsView;

    open spec fn view(&self) -> AuthorStatsView {
        AuthorStatsView {
            name: self.name@,
            email: self.email@,
            commits: self.commits,
            lines_added: self.lines_added,
            lines_deleted: self.lines_deleted,
        }
    }
}

/// The views of a list of author statistics.
pub open spec fn as_views(s: Seq<AuthorStats>) -> Seq<AuthorStatsView> {
    s.map_values(|x: AuthorStats| x@)
}

/// One directory's ownership table.
pub struct DirectoryAuthors {
    /// The directory.
    pub path: String,
    /// Its authors, by commit count descending.
    pub authors: Vec<AuthorStats>,
    /// The name of the leading author, or empty.
    pub top_contributor: String,
    /// The bus factor of the directory.
    pub bus_factor: u64,
    /// Commits touching the directory.
    pub total_commits: u64,
}

/// The mathematical content of a `DirectoryAuthors`.
pub struct DirectoryAuthorsView {
    /// The directory.
    pub path: Seq<char>,
    /// Its authors.
    pub authors: Seq<AuthorStatsView>,
    /// The leading author's name.
    pub top_contributor: Seq<char>,
    /// The bus factor.
    pub bus_factor: u64,
    /// Commits touching the directory.
    pub total_commits: u64,
}

impl View for DirectoryAuthors {
    type V = DirectoryAuthorsView;

    open spec fn view(&self) -> DirectoryAuthorsView {
        DirectoryAuthorsView {
            path: self.path@,
            authors: as_views(self.authors@),
            top_contributor: self.top_contributor@,
            bus_factor: self.bus_factor,
            total_commits: self.total_commits,
        }
    }
}

/// The views of a list of directory tables.
pub open spec fn da_views(s: Seq<DirectoryAuthors>) -> Seq<DirectoryAuthorsView> {
    s.map_values(|x: DirectoryAuthors| x@)
}

/// The ownership report.
pub struct AuthorsOutput {
    /// The per-directory tables, by commit count descending.
    pub directories: Vec<DirectoryAuthors>,
    /// How many distinct authors the whole range has.
    pub total_authors: usize,
    /// How many commits were analysed.
    pub total_commits_analyzed: usize,
    /// The grouping depth.
    pub depth: usize,
}

/// The prefix sum of a commit distribution.
pub open spec fn csum(cs: Seq<u64>, i: int) -> int
    decreases i,
{
    if i <= 0 {
        0
    } else {
        csum(cs, i - 1) + cs[i - 1]
    }
}

/// The greedy bus-factor scan from position `i` with `acc` commits
/// already accumulated.
pub open spec fn bf_scan(cs: Seq<u64>, total: int, acc: int, i: int) -> int
    decreases cs.len() - i,
{
    if i < 0 || i >= cs.len() {
        cs.len() as int
    } else if 2 * (acc + cs[i]) > total {
        i + 1
    } else {
        bf_scan(cs, total, acc + cs[i], i + 1)
    }
}

/// The bus factor of a commit distribution: the smallest prefix whose
/// cumulative commits strictly exceed half the total; zero for an empty
/// table or an empty range.
pub open spec fn spec_bus_factor(cs: Seq<u64>, total: int) -> int {
    if total == 0 || cs.len() == 0 {
        0
    } else {
        bf_scan(cs, total, 0, 0)
    }
}

/// The scan really returns the smallest qualifying prefix.
proof fn lemma_bf_scan(cs: Seq<u64>, total: int, i: int)
    requires
        0 <= i <= cs.len(),
    ensures
        i <= bf_scan(cs, total, csum(cs, i), i) <= cs.len(),
        bf_scan(cs, total, csum(cs, i), i) < cs.len() ==> 2 * csum(
            cs,
            bf_scan(cs, total, csum(cs, i), i),
        ) > total,
        forall|m: int|
            i <= m < bf_scan(cs, total, csum(cs, i), i) && m < cs.len() ==> 2 * #[trigger] csum(
                cs,
                m + 1,
            ) <= total || m + 1 == bf_scan(cs, total, csum(cs, i), i),
    decreases cs.len() - i,
{
    if i < cs.len() {
        assert(csum(cs, i + 1) == csum(cs, i) + cs[i as int]);
        if !(2 * (csum(cs, i) + cs[i as int]) > total) {
            lemma_bf_scan(cs, total, i + 1);
        }
    }
}

/// The bus-factor law: for a distribution with a positive total, the
/// returned count marks a prefix whose doubled cumulative commits
/// exceed the total (unless every author is needed), and no shorter
/// prefix qualifies.
pub proof fn lemma_bus_factor_minimal(cs: Seq<u64>, total: int)
    requires
        total > 0,
        cs.len() > 0,
    ensures
        1 <= spec_bus_factor(cs, total) <= cs.len(),
        spec_bus_factor(cs, total) < cs.len() ==> 2 * csum(cs, spec_bus_factor(cs, total))
            > total,
        forall|m: int|
            0 <= m < spec_bus_factor(cs, total) - 1 ==> 2 * #[trigger] csum(cs, m + 1) <= total,
    decreases cs.len(),
{
    lemma_bf_scan(cs, total, 0);
    assert(csum(cs, 0) == 0);
    let r = bf_scan(cs, total, 0, 0);
    assert forall|m: int| 0 <= m < r - 1 implies 2 * #[trigger] csum(cs, m + 1) <= total by {
        assert(m < r && m < cs.len());
    }
}

/// The bus factor of an author table sorted by commits, against the
/// directory's total: the smallest number of top contributors whose
/// cumulative commits strictly exceed half of it.
pub fn bus_factor(authors: &Vec<AuthorStats>, total_commits: u64) -> (r: usize)
    ensures
        r == spec_bus_factor(
            as_views(authors@).map_values(|a: AuthorStatsView| a.commits),
            total_commits as int,
        ),
{
    let ghost cs = as_views(authors@).map_values(|a: AuthorStatsView| a.commits);
    if total_commits == 0 || authors.len() == 0 {
        return 0;
    }
    let mut acc: u128 = 0;
    let mut i: usize = 0;
    while i < authors.len()
        invariant
            0 <= i <= authors@.len(),
            cs == as_views(authors@).map_values(|a: AuthorStatsView| a.commits),
            cs.len() == authors@.len(),
            acc == csum(cs, i as int),
            2 * acc <= total_commits,
            bf_scan(cs, total_commits as int, 0, 0) == bf_scan(
                cs,
                total_commits as int,
                acc as int,
                i as int,
            ),
        decreases authors@.len() - i,
    {
        proof {
            assert(cs[i as int] == authors@[i as int]@.commits);
        }
        let next: u128 = acc + authors[i].commits as u128;
        if 2 * next > total_commits as u128 {
            return i + 1;
        }
        acc = next;
        i = i + 1;
    }
    authors.len()
}

/// Commit `c` touches directory `d` at the grouping depth.
pub open spec fn adir_touch(c: CommitView, depth: int, d: Seq<char>) -> bool {
    exists|j: int|
        0 <= j < c.files.len() && spec_dir_prefix((#[trigger] c.files[j]).path, depth) == d
}

/// How many commits touch directory `d`.
pub open spec fn dcommits(s: Seq<CommitView>, depth: int, d: Seq<char>) -> int
    decreases s.len(),
{
    if s.len() == 0 {
        0
    } else {
        dcommits(s.drop_last(), depth, d) + if adir_touch(s.last(), depth, d) {
            1int
        } else {
            0int
        }
    }
}

/// How many commits by the author `email` touch directory `d`.
pub open spec fn acommits(s: Seq<CommitView>, depth: int, d: Seq<char>, email: Seq<char>) -> int
    decreases s.len(),
{
    if s.len() == 0 {
        0
    } else {
        acommits(s.drop_last(), depth, d, email) + if adir_touch(s.last(), depth, d)
            && s.last().author_email == email {
            1int
        } else {
            0int
        }
    }
}

/// Lines added under directory `d` among the first `j` files of one
/// commit.
pub open spec fn adds_in(c: CommitView, depth: int, d: Seq<char>, j: int) -> int
    decreases j,
{
    if j <= 0 {
        0
    } else {
        adds_in(c, depth, d, j - 1) + if spec_dir_prefix(c.files[j - 1].path, depth) == d {
            c.files[j - 1].additions as int
        } else {
            0int
        }
    }
}

/// Lines deleted under directory `d` among the first `j` files.
pub open spec fn dels_in(c: CommitView, depth: int, d: Seq<char>, j: int) -> int
    decreases j,
{
    if j <= 0 {
        0
    } else {
        dels_in(c, depth, d, j - 1) + if spec_dir_prefix(c.files[j - 1].path, depth) == d {
            c.files[j - 1].deletions as int
        } else {
            0int
        }
    }
}

/// Lines the author `email` added under directory `d`, counted for the
/// commits that touch it.
pub open spec fn aadds(s: Seq<CommitView>, depth: int, d: Seq<char>, email: Seq<char>) -> int
    decreases s.len(),
{
    if s.len() == 0 {
        0
    } else {
        aadds(s.drop_last(), depth, d, email) + if adir_touch(s.last(), depth, d)
            && s.last().author_email == email {
            adds_in(s.last(), depth, d, s.last().files.len() as int)
        } else {
            0int
        }
    }
}

/// Lines the author `email` deleted under directory `d`.
pub open spec fn adels(s: Seq<CommitView>, depth: int, d: Seq<char>, email: Seq<char>) -> int
    decreases s.len(),
{
    if s.len() == 0 {
        0
    } else {
        adels(s.drop_last(), depth, d, email) + if adir_touch(s.last(), depth, d)
            && s.last().author_email == email {
            dels_in(s.last(), depth, d, s.last().files.len() as int)
        } else {
            0int
        }
    }
}

/// Per-commit line sums under a directory are bounded.
proof fn lemma_adds_in_bound(c: CommitView, depth: int, d: Seq<char>, j: int)
    requires
        0 <= j <= c.files.len(),
        forall|l: int|
            0 <= l < c.files.len() ==> (#[trigger] c.files[l]).additions <= 0xFFFF_FFFF
                && c.files[l].deletions <= 0xFFFF_FFFF,
    ensures
        0 <= adds_in(c, depth, d, j) <= j * 0xFFFF_FFFF,
        0 <= dels_in(c, depth, d, j) <= j * 0xFFFF_FFFF,
    decreases j,
{
    if j > 0 {
        lemma_adds_in_bound(c, depth, d, j - 1);
    }
}

/// Author line totals are bounded by the entry total.
proof fn lemma_aadds_bound(s: Seq<CommitView>, depth: int, d: Seq<char>, email: Seq<char>)
    requires
        crate::patterns::deltas_bounded(s),
    ensures
        0 <= aadds(s, depth, d, email) <= total_delta_entries(s) * 0xFFFF_FFFF,
        0 <= adels(s, depth, d, email) <= total_delta_entries(s) * 0xFFFF_FFFF,
        0 <= acommits(s, depth, d, email) <= s.len(),
        0 <= dcommits(s, depth, d) <= s.len(),
    decreases s.len(),
{
    if s.len() > 0 {
        assert(crate::patterns::deltas_bounded(s.drop_last())) by {
            assert(forall|i: int|
                0 <= i < s.len() - 1 ==> #[trigger] s.drop_last()[i] == s[i]);
        }
        lemma_aadds_bound(s.drop_last(), depth, d, email);
        assert(s.last() == s[s.len() - 1]);
        lemma_adds_in_bound(s.last(), depth, d, s.last().files.len() as int);
        vstd::arithmetic::mul::lemma_mul_is_distributive_add_other_way(
            0xFFFF_FFFF,
            total_delta_entries(s.drop_last()),
            s.last().files.len() as int,
        );
    }
}

/// Entry totals are never negative.
proof fn lemma_tde_nonneg(s: Seq<CommitView>)
    ensures
        total_delta_entries(s) >= 0,
    decreases s.len(),
{
    if s.len() > 0 {
        lemma_tde_nonneg(s.drop_last());
    }
}

/// Entry totals only grow with longer prefixes.
proof fn lemma_tde_take(s: Seq<CommitView>, i: int)
    requires
        0 <= i <= s.len(),
    ensures
        total_delta_entries(s.take(i)) <= total_delta_entries(s),
        total_delta_entries(s.take(i)) >= 0,
    decreases s.len() - i,
{
    lemma_tde_nonneg(s.take(i));
    if i == s.len() {
        assert(s.take(i) =~= s);
    } else {
        assert(s.take(i + 1).drop_last() =~= s.take(i));
        lemma_tde_take(s, i + 1);
    }
}

/// Some commit of the range carries this author email.
pub open spec fn has_email(s: Seq<CommitView>, em: Seq<char>) -> bool {
    exists|i: int| 0 <= i < s.len() && (#[trigger] s[i]).author_email == em
}

/// Collect the distinct canonical author emails of every commit.
fn global_emails(records: &Vec<CommitRecord>) -> (r: Vec<String>)
    ensures
        str_views(r@).no_duplicates(),
        forall|i: int|
            0 <= i < commit_views(records@).len() ==> str_views(r@).contains(
                (#[trigger] commit_views(records@)[i]).author_email,
            ),
        forall|k: int|
            0 <= k < r@.len() ==> has_email(commit_views(records@), (#[trigger] r@[k])@),
{
    let ghost cv = commit_views(records@);
    let mut r: Vec<String> = Vec::new();
    let mut i: usize = 0;
    while i < records.len()
        invariant
            0 <= i <= records@.len(),
            cv == commit_views(records@),
            cv.len() == records@.len(),
            str_views(r@).no_duplicates(),
            forall|i2: int|
                0 <= i2 < i ==> str_views(r@).contains((#[trigger] cv[i2]).author_email),
            forall|k: int| 0 <= k < r@.len() ==> has_email(cv, (#[trigger] r@[k])@),
        decreases records@.len() - i,
    {
        proof {
            assert(cv[i as int] == records@[i as int]@);
        }
        let ghost x = cv[i as int].author_email;
        if !vec_contains_string(&r, &records[i].author_email) {
            proof {
                assert(!str_views(r@).contains(x)) by {
                    if str_views(r@).contains(x) {
                        let w = choose|w: int|
                            0 <= w < str_views(r@).len() && str_views(r@)[w] == x;
                        assert(r@[w]@ == x);
                    }
                }
            }
            let ghost prev = str_views(r@);
            r.push(records[i].author_email.clone());
            proof {
                assert(has_email(cv, x)) by {
                    assert(cv[i as int].author_email == x);
                }
                assert(str_views(r@) =~= prev.push(x));
                assert(forall|w: int| 0 <= w < prev.len() ==> str_views(r@)[w] == prev[w]);
                assert(str_views(r@).no_duplicates()) by {
                    assert forall|k1: int, k2: int|
                        0 <= k1 < k2 < str_views(r@).len() implies str_views(r@)[k1]
                        != str_views(r@)[k2] by {
                        if k2 == str_views(r@).len() - 1 {
                            assert(!prev.contains(x));
                            assert(prev[k1] != x);
                        }
                    }
                }
                assert forall|y: Seq<char>| prev.contains(y) implies str_views(r@).contains(
                    y,
                ) by {
                    let w = choose|w: int| 0 <= w < prev.len() && prev[w] == y;
                    assert(str_views(r@)[w] == y);
                }
                assert(str_views(r@).contains(x)) by {
                    assert(str_views(r@)[str_views(r@).len() - 1] == x);
                }
            }
        } else {
            proof {
                assert(str_views(r@).contains(x)) by {
                    let w = choose|w: int| 0 <= w < r@.len() && r@[w]@ == x;
                    assert(str_views(r@)[w] == x);
                }
            }
        }
        i = i + 1;
    }
    r
}

/// Does commit `c` touch directory `d` at this depth?
pub fn touches_dir(c: &CommitRecord, depth: usize, d: &String) -> (r: bool)
    ensures
        r == adir_touch(c@, depth as int, d@),
{
    let mut j: usize = 0;
    while j < c.files.len()
        invariant
            0 <= j <= c.files@.len(),
            c@.files.len() == c.files@.len(),
            forall|j2: int|
                0 <= j2 < j ==> spec_dir_prefix((#[trigger] c@.files[j2]).path, depth as int)
                    != d@,
        decreases c.files@.len() - j,
    {
        proof {
            assert(c@.files[j as int] == c.files@[j as int]@);
        }
        let p = crate::paths::dir_prefix(c.files[j].path.as_str(), depth);
        if p == *d {
            proof {
                assert(spec_dir_prefix(c@.files[j as int].path, depth as int) == d@);
            }
            return true;
        }
        j = j + 1;
    }
    false
}

/// One author's statistics within one directory: commit count, line
/// sums, and a name the author appears under.
fn author_stats_for(records: &Vec<CommitRecord>, depth: usize, d: &String, email: &String) -> (r:
    (u64, u64, u64, Option<String>))
    requires
        records_bounded(commit_views(records@)),
    ensures
        r.0 == acommits(commit_views(records@), depth as int, d@, email@),
        r.1 == aadds(commit_views(records@), depth as int, d@, email@),
        r.2 == adels(commit_views(records@), depth as int, d@, email@),
        r.3 matches Some(n) ==> exists|i: int|
            0 <= i < commit_views(records@).len() && adir_touch(
                #[trigger] commit_views(records@)[i],
                depth as int,
                d@,
            ) && commit_views(records@)[i].author_email == email@ && commit_views(
                records@,
            )[i].author_name == n@,
        r.3 is None ==> r.0 == 0,
{
    let ghost cv = commit_views(records@);
    let mut cnt: u64 = 0;
    let mut adds: u64 = 0;
    let mut dels: u64 = 0;
    let mut name: Option<String> = None;
    let mut i: usize = 0;
    while i < records.len()
        invariant
            0 <= i <= records@.len(),
            cv == commit_views(records@),
            cv.len() == records@.len(),
            records_bounded(cv),
            cnt == acommits(cv.take(i as int), depth as int, d@, email@),
            adds == aadds(cv.take(i as int), depth as int, d@, email@),
            dels == adels(cv.take(i as int), depth as int, d@, email@),
            name matches Some(n) ==> exists|i2: int|
                0 <= i2 < cv.len() && adir_touch(#[trigger] cv[i2], depth as int, d@)
                    && cv[i2].author_email == email@ && cv[i2].author_name == n@,
            name is None ==> cnt == 0,
        decreases records@.len() - i,
    {
        proof {
            assert(cv[i as int] == records@[i as int]@);
            assert(crate::patterns::deltas_bounded(cv.take(i as int))) by {
                assert(forall|l: int| 0 <= l < i ==> #[trigger] cv.take(i as int)[l] == cv[l]);
            }
            lemma_aadds_bound(cv.take(i as int), depth as int, d@, email@);
            lemma_tde_take(cv, i as int);
            vstd::arithmetic::mul::lemma_mul_inequality(
                total_delta_entries(cv.take(i as int)),
                0x4000_0000,
                0xFFFF_FFFF,
            );
            assert(cv.take(i + 1).drop_last() =~= cv.take(i as int));
            assert(cv.take(i + 1).last() == cv[i as int]);
        }
        let is_author = records[i].author_email == *email;
        if is_author && touches_dir(&records[i], depth, d) {
            // Sum this commit's lines under the directory.
            let ghost c = cv[i as int];
            let mut j: usize = 0;
            let mut ca: u64 = 0;
            let mut cd: u64 = 0;
            while j < records[i].files.len()
                invariant
                    0 <= j <= records@[i as int].files@.len(),
                    i < records@.len(),
                    cv == commit_views(records@),
                    cv.len() == records@.len(),
                    records_bounded(cv),
                    c == cv[i as int],
                    c == records@[i as int]@,
                    c.files.len() == records@[i as int].files@.len(),
                    ca == adds_in(c, depth as int, d@, j as int),
                    cd == dels_in(c, depth as int, d@, j as int),
                decreases records@[i as int].files@.len() - j,
            {
                proof {
                    assert(c.files[j as int] == records@[i as int].files@[j as int]@);
                    lemma_adds_in_bound(c, depth as int, d@, j as int);
                    lemma_entry_bound_cv(cv, i as int);
                    vstd::arithmetic::mul::lemma_mul_inequality(
                        j as int,
                        0x4000_0000,
                        0xFFFF_FFFF,
                    );
                }
                let p = crate::paths::dir_prefix(records[i].files[j].path.as_str(), depth);
                if p == *d {
                    ca = ca + records[i].files[j].additions;
                    cd = cd + records[i].files[j].deletions;
                } else {
                    proof {
                        assert(spec_dir_prefix(c.files[j as int].path, depth as int) != d@);
                    }
                }
                j = j + 1;
            }
            proof {
                lemma_adds_in_bound(c, depth as int, d@, c.files.len() as int);
                lemma_entry_bound_cv(cv, i as int);
                lemma_tde_nonneg(cv);
                vstd::arithmetic::mul::lemma_mul_inequality(
                    c.files.len() as int,
                    0x4000_0000,
                    0xFFFF_FFFF,
                );
                vstd::arithmetic::mul::lemma_mul_is_distributive_add_other_way(
                    0xFFFF_FFFF,
                    total_delta_entries(cv.take(i as int)),
                    c.files.len() as int,
                );
                assert(aadds(cv.take(i + 1), depth as int, d@, email@) == aadds(
                    cv.take(i as int),
                    depth as int,
                    d@,
                    email@,
                ) + adds_in(c, depth as int, d@, c.files.len() as int));
            }
            cnt = cnt + 1;
            adds = adds + ca;
            dels = dels + cd;
            if name.is_none() {
                name = Some(records[i].author_name.clone());
            }
        }
        i = i + 1;
    }
    proof {
        assert(cv.take(cv.len() as int) =~= cv);
    }
    (cnt, adds, dels, name)
}

/// Each commit's file count is part of the entry total.
proof fn lemma_entry_bound_cv(s: Seq<CommitView>, i: int)
    requires
        0 <= i < s.len(),
    ensures
        s[i].files.len() <= total_delta_entries(s),
    decreases s.len(),
{
    if i == s.len() - 1 {
        lemma_tde_take(s.drop_last(), s.drop_last().len() as int);
        assert(s.drop_last().take(s.drop_last().len() as int) =~= s.drop_last());
    } else {
        lemma_entry_bound_cv(s.drop_last(), i);
    }
}

/// Author commit counts are never negative.
proof fn lemma_acommits_nonneg(s: Seq<CommitView>, depth: int, d: Seq<char>, email: Seq<char>)
    ensures
        acommits(s, depth, d, email) >= 0,
    decreases s.len(),
{
    if s.len() > 0 {
        lemma_acommits_nonneg(s.drop_last(), depth, d, email);
    }
}

/// A touching commit by an author makes that author's count positive.
proof fn lemma_acommits_pos(s: Seq<CommitView>, depth: int, d: Seq<char>, email: Seq<char>, i: int)
    requires
        0 <= i < s.len(),
        adir_touch(s[i], depth, d),
        s[i].author_email == email,
    ensures
        acommits(s, depth, d, email) > 0,
    decreases s.len(),
{
    lemma_acommits_nonneg(s.drop_last(), depth, d, email);
    if i < s.len() - 1 {
        lemma_acommits_pos(s.drop_last(), depth, d, email, i);
    }
}

/// Collect the distinct emails of the commits touching one directory.
fn dir_emails(records: &Vec<CommitRecord>, depth: usize, d: &String) -> (r: Vec<String>)
    ensures
        str_views(r@).no_duplicates(),
        forall|i: int|
            0 <= i < commit_views(records@).len() && adir_touch(
                #[trigger] commit_views(records@)[i],
                depth as int,
                d@,
            ) ==> str_views(r@).contains(commit_views(records@)[i].author_email),
{
    let ghost cv = commit_views(records@);
    let mut r: Vec<String> = Vec::new();
    let mut i: usize = 0;
    while i < records.len()
        invariant
            0 <= i <= records@.len(),
            cv == commit_views(records@),
            cv.len() == records@.len(),
            str_views(r@).no_duplicates(),
            forall|i2: int|
                0 <= i2 < i && adir_touch(#[trigger] cv[i2], depth as int, d@) ==> str_views(
                    r@,
                ).contains(cv[i2].author_email),
        decreases records@.len() - i,
    {
        proof {
            assert(cv[i as int] == records@[i as int]@);
        }
        if touches_dir(&records[i], depth, d) {
            let ghost x = cv[i as int].author_email;
            if !vec_contains_string(&r, &records[i].author_email) {
                proof {
                    assert(!str_views(r@).contains(x)) by {
                        if str_views(r@).contains(x) {
                            let w = choose|w: int|
                                0 <= w < str_views(r@).len() && str_views(r@)[w] == x;
                            assert(r@[w]@ == x);
                        }
                    }
                }
                let ghost prev = str_views(r@);
                let ghost oldr = r@;
                r.push(records[i].author_email.clone());
                proof {
                    assert(str_views(r@) =~= prev.push(x));
                    assert(forall|w: int| 0 <= w < prev.len() ==> str_views(r@)[w] == prev[w]);
                    assert(forall|w: int| 0 <= w < oldr.len() ==> r@[w] == oldr[w]);
                    assert(str_views(r@).no_duplicates()) by {
                        assert forall|k1: int, k2: int|
                            0 <= k1 < k2 < str_views(r@).len() implies str_views(r@)[k1]
                            != str_views(r@)[k2] by {
                            if k2 == str_views(r@).len() - 1 {
                                assert(!prev.contains(x));
                                assert(prev[k1] != x);
                            }
                        }
                    }
                    assert forall|y: Seq<char>| prev.contains(y) implies str_views(
                        r@,
                    ).contains(y) by {
                        let w = choose|w: int| 0 <= w < prev.len() && prev[w] == y;
                        assert(str_views(r@)[w] == y);
                    }
                    assert(str_views(r@).contains(x)) by {
                        assert(str_views(r@)[str_views(r@).len() - 1] == x);
                    }
                }
            } else {
                proof {
                    assert(str_views(r@).contains(x)) by {
                        let w = choose|w: int| 0 <= w < r@.len() && r@[w]@ == x;
                        assert(str_views(r@)[w] == x);
                    }
                }
            }
        }
        i = i + 1;
    }
    r
}

/// Collect the distinct directories touched at this depth, in
/// first-seen order.
pub fn distinct_adirs(records: &Vec<CommitRecord>, depth: usize) -> (r: Vec<String>)
    ensures
        str_views(r@).no_duplicates(),
        forall|i: int, j: int|
            0 <= i < commit_views(records@).len() && 0 <= j < commit_views(
                records@,
            )[i].files.len() ==> str_views(r@).contains(
                spec_dir_prefix(
                    (#[trigger] commit_views(records@)[i].files[j]).path,
                    depth as int,
                ),
            ),
{
    let ghost cv = commit_views(records@);
    let mut r: Vec<String> = Vec::new();
    let mut i: usize = 0;
    while i < records.len()
        invariant
            0 <= i <= records@.len(),
            cv == commit_views(records@),
            cv.len() == records@.len(),
            str_views(r@).no_duplicates(),
            forall|i2: int, j2: int|
                0 <= i2 < i && 0 <= j2 < cv[i2].files.len() ==> str_views(r@).contains(
                    spec_dir_prefix((#[trigger] cv[i2].files[j2]).path, depth as int),
                ),
        decreases records@.len() - i,
    {
        proof {
            assert(cv[i as int] == records@[i as int]@);
        }
        let mut j: usize = 0;
        while j < records[i].files.len()
            invariant
                0 <= i < records@.len(),
                0 <= j <= records@[i as int].files@.len(),
                cv == commit_views(records@),
                cv.len() == records@.len(),
                cv[i as int] == records@[i as int]@,
                cv[i as int].files.len() == records@[i as int].files@.len(),
                str_views(r@).no_duplicates(),
                forall|i2: int, j2: int|
                    0 <= i2 < i && 0 <= j2 < cv[i2].files.len() ==> str_views(r@).contains(
                        spec_dir_prefix((#[trigger] cv[i2].files[j2]).path, depth as int),
                    ),
                forall|j2: int|
                    0 <= j2 < j ==> str_views(r@).contains(
                        spec_dir_prefix(
                            (#[trigger] cv[i as int].files[j2]).path,
                            depth as int,
                        ),
                    ),
            decreases records@[i as int].files@.len() - j,
        {
            proof {
                assert(cv[i as int].files[j as int] == records@[i as int].files@[j as int]@);
            }
            let dp = crate::paths::dir_prefix(records[i].files[j].path.as_str(), depth);
            let ghost x = spec_dir_prefix(cv[i as int].files[j as int].path, depth as int);
            proof {
                assert(dp@ == x);
            }
            if !vec_contains_string(&r, &dp) {
                proof {
                    assert(!str_views(r@).contains(x)) by {
                        if str_views(r@).contains(x) {
                            let w = choose|w: int|
                                0 <= w < str_views(r@).len() && str_views(r@)[w] == x;
                            assert(r@[w]@ == x);
                        }
                    }
                }
                let ghost prev = str_views(r@);
                r.push(dp);
                proof {
                    assert(str_views(r@) =~= prev.push(x));
                    assert(forall|w: int| 0 <= w < prev.len() ==> str_views(r@)[w] == prev[w]);
                    assert(str_views(r@).no_duplicates()) by {
                        assert forall|k1: int, k2: int|
                            0 <= k1 < k2 < str_views(r@).len() implies str_views(r@)[k1]
                            != str_views(r@)[k2] by {
                            if k2 == str_views(r@).len() - 1 {
                                assert(!prev.contains(x));
                                assert(prev[k1] != x);
                            }
                        }
                    }
                    assert forall|y: Seq<char>| prev.contains(y) implies str_views(
                        r@,
                    ).contains(y) by {
                        let w = choose|w: int| 0 <= w < prev.len() && prev[w] == y;
                        assert(str_views(r@)[w] == y);
                    }
                    assert(str_views(r@).contains(x)) by {
                        assert(str_views(r@)[str_views(r@).len() - 1] == x);
                    }
                }
            } else {
                proof {
                    assert(str_views(r@).contains(x)) by {
                        let w = choose|w: int| 0 <= w < r@.len() && r@[w]@ == x;
                        assert(str_views(r@)[w] == x);
                    }
                }
            }
            j = j + 1;
        }
        i = i + 1;
    }
    r
}

/// How many commits touch one directory.
fn dir_total(records: &Vec<CommitRecord>, depth: usize, d: &String) -> (r: u64)
    requires
        records_bounded(commit_views(records@)),
    ensures
        r == dcommits(commit_views(records@), depth as int, d@),
{
    let ghost cv = commit_views(records@);
    let mut cnt: u64 = 0;
    let mut i: usize = 0;
    while i < records.len()
        invariant
            0 <= i <= records@.len(),
            cv == commit_views(records@),
            cv.len() == records@.len(),
            records_bounded(cv),
            cnt == dcommits(cv.take(i as int), depth as int, d@),
            cnt <= i,
        decreases records@.len() - i,
    {
        proof {
            assert(cv[i as int] == records@[i as int]@);
            assert(cv.take(i + 1).drop_last() =~= cv.take(i as int));
            assert(cv.take(i + 1).last() == cv[i as int]);
        }
        if touches_dir(&records[i], depth, d) {
            cnt = cnt + 1;
        }
        i = i + 1;
    }
    proof {
        assert(cv.take(cv.len() as int) =~= cv);
    }
    cnt
}

/// One entry of an ownership table is exact for its directory.
#[verifier::opaque]
pub open spec fn author_ok(
    s: Seq<CommitView>,
    depth: int,
    d: Seq<char>,
    a: AuthorStatsView,
) -> bool {
    &&& a.commits == acommits(s, depth, d, a.email)
    &&& a.lines_added == aadds(s, depth, d, a.email)
    &&& a.lines_deleted == adels(s, depth, d, a.email)
    &&& exists|i: int|
        0 <= i < s.len() && adir_touch(#[trigger] s[i], depth, d) && s[i].author_email == a.email
            && s[i].author_name == a.name
}

/// One directory table is exact: true per-author statistics, one entry
/// per author, every touching author listed, sorted by commits
/// descending, with the bus factor and top contributor derived from the
/// table itself.
#[verifier::opaque]
pub open spec fn dauth_ok(s: Seq<CommitView>, depth: int, e: DirectoryAuthorsView) -> bool {
    &&& e.total_commits == dcommits(s, depth, e.path)
    &&& forall|a: int| 0 <= a < e.authors.len() ==> author_ok(s, depth, e.path, #[trigger] e.authors[a])
    &&& e.authors.map_values(|a: AuthorStatsView| a.email).no_duplicates()
    &&& forall|i: int|
        0 <= i < s.len() && adir_touch(#[trigger] s[i], depth, e.path) ==> exists|a: int|
            0 <= a < e.authors.len() && (#[trigger] e.authors[a]).email == s[i].author_email
    &&& forall|a: int, b: int|
        0 <= a < b < e.authors.len() ==> (#[trigger] e.authors[a]).commits >= (
        #[trigger] e.authors[b]).commits
    &&& e.bus_factor == spec_bus_factor(
        e.authors.map_values(|a: AuthorStatsView| a.commits),
        e.total_commits as int,
    )
    &&& (e.authors.len() > 0 ==> e.top_contributor == e.authors[0].name)
    &&& (e.authors.len() == 0 ==> e.top_contributor == Seq::<char>::empty())
}

/// Build the ownership table of one directory.
/// Collect one exact author entry per author with commits in the
/// directory.
fn collect_author_entries(
    records: &Vec<CommitRecord>,
    depth: usize,
    d: &String,
    emails: &Vec<String>,
) -> (pairs: Vec<(u64, AuthorStats)>)
    requires
        records_bounded(commit_views(records@)),
        str_views(emails@).no_duplicates(),
    ensures
        forall|k: int|
            0 <= k < pairs@.len() ==> author_ok(
                commit_views(records@),
                depth as int,
                d@,
                (#[trigger] pairs@[k]).1@,
            ) && pairs@[k].0 == pairs@[k].1@.commits,
        forall|k1: int, k2: int|
            0 <= k1 < k2 < pairs@.len() ==> (#[trigger] pairs@[k1]).1@.email != (
            #[trigger] pairs@[k2]).1@.email,
        forall|u: int|
            0 <= u < emails@.len() && acommits(
                commit_views(records@),
                depth as int,
                d@,
                #[trigger] emails@[u]@,
            ) > 0 ==> exists|k: int|
                0 <= k < pairs@.len() && (#[trigger] pairs@[k]).1@.email == emails@[u]@,
{
    let ghost cv = commit_views(records@);
    let mut pairs: Vec<(u64, AuthorStats)> = Vec::new();
    let mut e: usize = 0;
    while e < emails.len()
        invariant
            0 <= e <= emails@.len(),
            cv == commit_views(records@),
            cv.len() == records@.len(),
            records_bounded(cv),
            str_views(emails@).no_duplicates(),
            forall|k: int|
                0 <= k < pairs@.len() ==> author_ok(
                    cv,
                    depth as int,
                    d@,
                    (#[trigger] pairs@[k]).1@,
                ) && pairs@[k].0 == pairs@[k].1@.commits,
            forall|k: int|
                0 <= k < pairs@.len() ==> exists|u: int|
                    0 <= u < e && (#[trigger] pairs@[k]).1@.email == emails@[u]@,
            forall|k1: int, k2: int|
                0 <= k1 < k2 < pairs@.len() ==> (#[trigger] pairs@[k1]).1@.email != (
                #[trigger] pairs@[k2]).1@.email,
            forall|u: int|
                0 <= u < e && acommits(cv, depth as int, d@, #[trigger] emails@[u]@) > 0
                    ==> exists|k: int|
                    0 <= k < pairs@.len() && (#[trigger] pairs@[k]).1@.email == emails@[u]@,
        decreases emails@.len() - e,
    {
        let (cnt, adds, dels, name) = author_stats_for(records, depth, d, &emails[e]);
        match name {
            Some(n) => {
                let a = AuthorStats {
                    name: n,
                    email: emails[e].clone(),
                    commits: cnt,
                    lines_added: adds,
                    lines_deleted: dels,
                };
                proof {
                    reveal(author_ok);
                    assert(author_ok(cv, depth as int, d@, a@));
                    assert forall|k: int|
                        0 <= k < pairs@.len() implies (#[trigger] pairs@[k]).1@.email
                        != emails@[e as int]@ by {
                        let u = choose|u: int| 0 <= u < e && pairs@[k].1@.email == emails@[u]@;
                        assert(str_views(emails@)[u] == pairs@[k].1@.email);
                        assert(str_views(emails@)[e as int] == emails@[e as int]@);
                    }
                }
                let ghost oldp = pairs@;
                pairs.push((cnt, a));
                proof {
                    assert(forall|k: int| 0 <= k < oldp.len() ==> pairs@[k] == oldp[k]);
                    assert(pairs@[oldp.len() as int].1@.email == emails@[e as int]@);
                    assert forall|u: int|
                        0 <= u < e + 1 && acommits(cv, depth as int, d@, #[trigger] emails@[u]@)
                            > 0 implies exists|k: int|
                        0 <= k < pairs@.len() && (#[trigger] pairs@[k]).1@.email == emails@[
                        u]@ by {
                        if u == e {
                            assert(pairs@[oldp.len() as int].1@.email == emails@[u]@);
                        } else {
                            let k0 = choose|k: int|
                                0 <= k < oldp.len() && (#[trigger] oldp[k]).1@.email
                                    == emails@[u]@;
                            assert(pairs@[k0].1@.email == emails@[u]@);
                        }
                    }
                }
            },
            None => {
                proof {
                    assert(acommits(cv, depth as int, d@, emails@[e as int]@) == 0);
                    assert forall|u: int|
                        0 <= u < e + 1 && acommits(cv, depth as int, d@, #[trigger] emails@[u]@)
                            > 0 implies exists|k: int|
                        0 <= k < pairs@.len() && (#[trigger] pairs@[k]).1@.email == emails@[
                        u]@ by {
                        assert(u < e);
                        let k0 = choose|k: int|
                            0 <= k < pairs@.len() && (#[trigger] pairs@[k]).1@.email
                                == emails@[u]@;
                    }
                }
            },
        }
        e = e + 1;
    }
    pairs
}

/// Build the ownership table of one directory.
#[verifier::rlimit(100)]
#[verifier::spinoff_prover]
fn build_dir_table(records: &Vec<CommitRecord>, depth: usize, d: &String) -> (r: DirectoryAuthors)
    requires
        records_bounded(commit_views(records@)),
    ensures
        dauth_ok(commit_views(records@), depth as int, r@),
        r@.path == d@,
{
    let ghost cv = commit_views(records@);
    let emails = dir_emails(records, depth, d);
    let mut pairs = collect_author_entries(records, depth, d, &emails);
    let ghost ppre = pairs@;
    proof {
        assert(ppre.map_values(|p: (u64, AuthorStats)| p.1@.email).no_duplicates()) by {
            let m = ppre.map_values(|p: (u64, AuthorStats)| p.1@.email);
            assert(forall|k: int| 0 <= k < m.len() ==> m[k] == (#[trigger] ppre[k]).1@.email);
        }
    }
    sort_pairs_desc(&mut pairs);
    proof {
        assert forall|k: int| 0 <= k < pairs@.len() implies author_ok(
            cv,
            depth as int,
            d@,
            (#[trigger] pairs@[k]).1@,
        ) && pairs@[k].0 == pairs@[k].1@.commits by {
            lemma_permuted_membership(ppre, pairs@, k);
        }
        lemma_permuted_distinct(ppre, pairs@, |p: (u64, AuthorStats)| p.1@.email);
        assert forall|i2: int|
            0 <= i2 < cv.len() && adir_touch(#[trigger] cv[i2], depth as int, d@) implies exists|
            a: int,
        |
            0 <= a < pairs@.len() && (#[trigger] pairs@[a]).1@.email == cv[
            i2].author_email by {
            assert(str_views(emails@).contains(cv[i2].author_email));
            let w = choose|w: int|
                0 <= w < str_views(emails@).len() && str_views(emails@)[w] == cv[
                i2].author_email;
            lemma_acommits_pos(cv, depth as int, d@, emails@[w]@, i2);
            let k0 = choose|k: int|
                0 <= k < ppre.len() && (#[trigger] ppre[k]).1@.email == emails@[w]@;
            lemma_permuted_membership(pairs@, ppre, k0);
            let k2 = choose|k2: int| 0 <= k2 < pairs@.len() && pairs@[k2] == ppre[k0];
            assert(pairs@[k2].1@.email == cv[i2].author_email);
        }
    }
    let mut authors: Vec<AuthorStats> = Vec::new();
    let ghost sorted = pairs@;
    let total_pairs: usize = pairs.len();
    let mut q: usize = 0;
    while pairs.len() > 0
        invariant
            total_pairs == sorted.len(),
            q == sorted.len() - pairs@.len(),
            0 <= q <= total_pairs,
            pairs@ =~= sorted.skip(q as int),
            authors@.len() == q,
            forall|k: int| 0 <= k < q ==> authors@[k] == (#[trigger] sorted[k]).1,
        decreases pairs@.len(),
    {
        let p = pairs.remove(0);
        authors.push(p.1);
        proof {
            assert(sorted.skip(q as int).drop_first() =~= sorted.skip(q + 1));
        }
        q = q + 1;
    }
    let total = dir_total(records, depth, d);
    let bf = bus_factor(&authors, total);
    let top = if authors.len() > 0 {
        authors[0].name.clone()
    } else {
        String::new()
    };
    let r = DirectoryAuthors {
        path: d.clone(),
        authors,
        top_contributor: top,
        bus_factor: bf as u64,
        total_commits: total,
    };
    proof {
        reveal(author_ok);
        reveal(dauth_ok);
        assert(forall|k: int|
            0 <= k < r@.authors.len() ==> #[trigger] r@.authors[k] == sorted[k].1@);
        assert(r@.authors.map_values(|a: AuthorStatsView| a.email) =~= sorted.map_values(
            |p: (u64, AuthorStats)| p.1@.email,
        ));
        assert(r@.authors.map_values(|a: AuthorStatsView| a.commits) =~= as_views(
            r.authors@,
        ).map_values(|a: AuthorStatsView| a.commits));
        assert forall|i2: int|
            0 <= i2 < cv.len() && adir_touch(#[trigger] cv[i2], depth as int, d@) implies exists|
            a: int,
        |
            0 <= a < r@.authors.len() && (#[trigger] r@.authors[a]).email == cv[
            i2].author_email by {
            let k2 = choose|k2: int|
                0 <= k2 < sorted.len() && (#[trigger] sorted[k2]).1@.email == cv[
                i2].author_email;
            assert(r@.authors[k2].email == cv[i2].author_email);
        }
        assert(dauth_ok(cv, depth as int, r@));
    }
    r
}

/// Some table of the report covers directory `d`.
pub open spec fn dir_listed(ds: Seq<DirectoryAuthorsView>, d: Seq<char>) -> bool {
    exists|k: int| 0 <= k < ds.len() && (#[trigger] ds[k]).path == d
}

/// Every directory touched at the grouping depth has a table.
pub open spec fn dirs_complete(
    s: Seq<CommitView>,
    depth: int,
    ds: Seq<DirectoryAuthorsView>,
) -> bool {
    forall|i: int, j: int|
        0 <= i < s.len() && 0 <= j < s[i].files.len() ==> dir_listed(
            ds,
            spec_dir_prefix((#[trigger] s[i].files[j]).path, depth),
        )
}

/// The ownership report over a walked, filtered commit list: one table
/// per touched directory, sorted by commit count descending and capped
/// by the explicit limit. Without a limit every touched directory is
/// reported.
pub fn authors_run(records: &Vec<CommitRecord>, depth: usize, limit: Option<usize>) -> (r:
    AuthorsOutput)
    requires
        records_bounded(commit_views(records@)),
    ensures
        r.depth == depth,
        r.total_commits_analyzed == records@.len(),
        forall|k: int|
            0 <= k < r.directories@.len() ==> dauth_ok(
                commit_views(records@),
                depth as int,
                (#[trigger] r.directories@[k])@,
            ),
        forall|a: int, b: int|
            0 <= a < b < r.directories@.len() ==> (
            #[trigger] r.directories@[a])@.total_commits >= (
            #[trigger] r.directories@[b])@.total_commits,
        limit matches Some(l) ==> r.directories@.len() <= l,
        limit is None ==> dirs_complete(
            commit_views(records@),
            depth as int,
            da_views(r.directories@),
        ),
        exists|es: Seq<Seq<char>>|
            es.no_duplicates() && r.total_authors == es.len() && (forall|i: int|
                0 <= i < commit_views(records@).len() ==> es.contains(
                    (#[trigger] commit_views(records@)[i]).author_email,
                )) && forall|k: int|
                0 <= k < es.len() ==> has_email(commit_views(records@), #[trigger] es[k]),
{
    let ghost cv = commit_views(records@);
    let ge = global_emails(records);
    let total_authors = ge.len();
    let ghost ges = str_views(ge@);
    proof {
        assert(ges.no_duplicates() && total_authors == ges.len() && (forall|i: int|
            0 <= i < cv.len() ==> ges.contains((#[trigger] cv[i]).author_email)) && forall|
            k: int,
        | 0 <= k < ges.len() ==> has_email(cv, #[trigger] ges[k]));
    }
    let dirs = distinct_adirs(records, depth);
    let mut pairs: Vec<(u64, DirectoryAuthors)> = Vec::new();
    let mut t: usize = 0;
    while t < dirs.len()
        invariant
            0 <= t <= dirs@.len(),
            cv == commit_views(records@),
            records_bounded(cv),
            pairs@.len() == t,
            forall|k: int|
                0 <= k < t ==> dauth_ok(cv, depth as int, (#[trigger] pairs@[k]).1@)
                    && pairs@[k].0 == pairs@[k].1@.total_commits && pairs@[k].1@.path == dirs@[
                    k]@,
        decreases dirs@.len() - t,
    {
        let table = build_dir_table(records, depth, &dirs[t]);
        let key = table.total_commits;
        pairs.push((key, table));
        t = t + 1;
    }
    let ghost ppre = pairs@;
    sort_pairs_desc(&mut pairs);
    proof {
        assert forall|k: int| 0 <= k < pairs@.len() implies dauth_ok(
            cv,
            depth as int,
            (#[trigger] pairs@[k]).1@,
        ) && pairs@[k].0 == pairs@[k].1@.total_commits by {
            lemma_permuted_membership(ppre, pairs@, k);
        }
    }
    let mut directories: Vec<DirectoryAuthors> = Vec::new();
    let ghost sorted = pairs@;
    let total_pairs: usize = pairs.len();
    let mut q: usize = 0;
    while pairs.len() > 0
        invariant
            total_pairs == sorted.len(),
            q == sorted.len() - pairs@.len(),
            0 <= q <= total_pairs,
            pairs@ =~= sorted.skip(q as int),
            directories@.len() == q,
            forall|k: int| 0 <= k < q ==> directories@[k] == (#[trigger] sorted[k]).1,
            cv == commit_views(records@),
            forall|k: int|
                0 <= k < sorted.len() ==> dauth_ok(cv, depth as int, (#[trigger] sorted[k]).1@)
                    && sorted[k].0 == sorted[k].1@.total_commits,
            forall|a: int, b: int|
                0 <= a < b < sorted.len() ==> (#[trigger] sorted[a]).0 >= (
                #[trigger] sorted[b]).0,
        decreases pairs@.len(),
    {
        let p = pairs.remove(0);
        directories.push(p.1);
        proof {
            assert(sorted.skip(q as int).drop_first() =~= sorted.skip(q + 1));
        }
        q = q + 1;
    }
    proof {
        assert(forall|k: int|
            0 <= k < directories@.len() ==> directories@[k] == (#[trigger] sorted[k]).1);
        if limit is None {
            assert forall|i: int, j: int|
                0 <= i < cv.len() && 0 <= j < cv[i].files.len() implies exists|k: int|
                0 <= k < directories@.len() && (#[trigger] directories@[k])@.path
                    == spec_dir_prefix(
                    (#[trigger] cv[i].files[j]).path,
                    depth as int,
                ) by {
                let x = spec_dir_prefix(cv[i].files[j].path, depth as int);
                assert(str_views(dirs@).contains(x));
                let w = choose|w: int|
                    0 <= w < str_views(dirs@).len() && str_views(dirs@)[w] == x;
                assert(ppre[w].1@.path == dirs@[w]@);
                crate::sorting::lemma_permuted_membership(sorted, ppre, w);
                let k2 = choose|k2: int| 0 <= k2 < sorted.len() && sorted[k2] == ppre[w];
                assert(directories@[k2]@.path == x);
            }
        }
    }
    match limit {
        None => {},
        Some(l) => {
            let ghost pre_trunc = directories@;
            directories.truncate(l);
            proof {
                assert(forall|k: int|
                    0 <= k < directories@.len() ==> #[trigger] directories@[k] == pre_trunc[k]);
                assert(forall|k: int|
                    0 <= k < directories@.len() ==> #[trigger] directories@[k] == sorted[k].1);
            }
        },
    }
    proof {
        if limit is None {
            assert(dirs_complete(cv, depth as int, da_views(directories@))) by {
                assert forall|i: int, j: int|
                    0 <= i < cv.len() && 0 <= j < cv[i].files.len() implies dir_listed(
                    da_views(directories@),
                    spec_dir_prefix((#[trigger] cv[i].files[j]).path, depth as int),
                ) by {
                    let x = spec_dir_prefix(cv[i].files[j].path, depth as int);
                    assert(str_views(dirs@).contains(x));
                    let w = choose|w: int|
                        0 <= w < str_views(dirs@).len() && str_views(dirs@)[w] == x;
                    assert(ppre[w].1@.path == dirs@[w]@);
                    crate::sorting::lemma_permuted_membership(sorted, ppre, w);
                    let k2 = choose|k2: int|
                        0 <= k2 < sorted.len() && sorted[k2] == ppre[w];
                    assert(directories@[k2] == sorted[k2].1);
                    assert(da_views(directories@)[k2].path == x);
                }
            }
        }
        assert forall|k: int| 0 <= k < directories@.len() implies dauth_ok(
            cv,
            depth as int,
            (#[trigger] directories@[k])@,
        ) by {
            assert(directories@[k] == sorted[k].1);
        }
        assert forall|a: int, b: int| 0 <= a < b < directories@.len() implies (
        #[trigger] directories@[a])@.total_commits >= (
        #[trigger] directories@[b])@.total_commits by {
            assert(directories@[a] == sorted[a].1);
            assert(directories@[b] == sorted[b].1);
        }
    }
    AuthorsOutput {
        directories,
        total_authors,
        total_commits_analyzed: records.len(),
        depth,
    }
}

} // verus!
