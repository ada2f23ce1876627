//! The pattern detectors: fix-after-feature/refactor linkage over an
//! enriched, newest-first commit list. Further passes over the same
//! input live beside it: edit chains, temporal clusters and convergence
//! pairs.
use vstd::prelude::*;
use vstd::multiset::Multiset;
use crate::classify::{Label, label_str, spec_classify_parents, classify_commit_with_parents};
use crate::commit::{
    CommitRecord, CommitView, FileDeltaView, commit_views, spec_short_id, short_id, date_str_of,
    format_date,
};
use crate::signals::{Signal, SignalKind, SignalView, signal_views};
use crate::text::{str_views, first_line, first_line_str, vec_contains_string};

verus! {

/// One commit with everything the detectors read: classification,
/// touched files and per-file churn, built once per analysis pass.
pub struct EnrichedCommit {
    /// The short commit hash.
    pub short_id: String,
    /// The commit date, rendered `YYYY-MM-DD`.
    pub date: String,
    /// The first line of the message.
    pub message: String,
    /// The classification label.
    pub label: Label,
    /// Seconds since the epoch.
    pub timestamp: i64,
    /// The touched file paths, in diff order.
    pub files: Vec<String>,
    /// Per-file churn, aligned with `files`.
    pub churn: Vec<u64>,
}

/// The mathematical content of an `EnrichedCommit`.
pub struct EnrichedView {
    /// The short hash characters.
    pub short_id: Seq<char>,
    /// The rendered date.
    pub date: Seq<char>,
    /// The first message line.
    pub message: Seq<char>,
    /// The label.
    pub label: Label,
    /// Seconds since the epoch.
    pub timestamp: i64,
    /// The touched paths.
    pub files: Seq<Seq<char>>,
    /// Per-file churn, aligned with `files`.
    pub churn: Seq<u64>,
}

impl View for EnrichedCommit {
    type V = EnrichedView;

    open spec fn view(&self) -> EnrichedView {
        EnrichedView {
            short_id: self.short_id@,
            date: self.date@,
            message: self.message@,
            label: self.label,
            timestamp: self.timestamp,
            files: str_views(self.files@),
            churn: self.churn@,
        }
    }
}

/// The views of a list of enriched commits.
pub open spec fn enriched_views(s: Seq<EnrichedCommit>) -> Seq<EnrichedView> {
    s.map_values(|c: EnrichedCommit| c@)
}

/// Every commit's diff counts fit comfortably, so churn sums cannot
/// overflow machine words.
pub open spec fn deltas_bounded(s: Seq<CommitView>) -> bool {
    forall|i: int, j: int|
        0 <= i < s.len() && 0 <= j < s[i].files.len() ==> (#[trigger] s[i].files[j]).additions
            <= 0xFFFF_FFFF && s[i].files[j].deletions <= 0xFFFF_FFFF
}

/// The enrichment of one walked commit: short hash, rendered date,
/// first message line, label, and the path/churn pair lists.
pub open spec fn spec_enrich_one(c: CommitView) -> EnrichedView {
    EnrichedView {
        short_id: spec_short_id(c.id),
        date: date_str_of(c.timestamp as int),
        message: first_line(c.message),
        label: spec_classify_parents(c.message, c.parent_count),
        timestamp: c.timestamp,
        files: c.files.map_values(|f: FileDeltaView| f.path),
        churn: c.files.map_values(|f: FileDeltaView| (f.additions + f.deletions) as u64),
    }
}

/// The enrichment of a whole walked list.
pub open spec fn spec_enrich(s: Seq<CommitView>) -> Seq<EnrichedView> {
    s.map_values(|c: CommitView| spec_enrich_one(c))
}

/// Enrich one commit record.
fn enrich_one(c: &CommitRecord) -> (r: EnrichedCommit)
    requires
        forall|j: int|
            0 <= j < c@.files.len() ==> (#[trigger] c@.files[j]).additions <= 0xFFFF_FFFF
                && c@.files[j].deletions <= 0xFFFF_FFFF,
    ensures
        r@ == spec_enrich_one(c@),
{
    let mut files: Vec<String> = Vec::new();
    let mut churn: Vec<u64> = Vec::new();
    let mut j: usize = 0;
    while j < c.files.len()
        invariant
            0 <= j <= c.files@.len(),
            forall|l: int|
                0 <= l < c@.files.len() ==> (#[trigger] c@.files[l]).additions <= 0xFFFF_FFFF
                    && c@.files[l].deletions <= 0xFFFF_FFFF,
            c@.files.len() == c.files@.len(),
            str_views(files@) =~= c@.files.take(j as int).map_values(|f: FileDeltaView| f.path),
            churn@ =~= c@.files.take(j as int).map_values(
                |f: FileDeltaView| (f.additions + f.deletions) as u64,
            ),
        decreases c.files@.len() - j,
    {
        proof {
            assert(c@.files[j as int] == c.files@[j as int]@);
        }
        files.push(c.files[j].path.clone());
        churn.push(c.files[j].additions + c.files[j].deletions);
        proof {
            assert(str_views(files@) =~= str_views(files@.drop_last()).push(files@.last()@));
            assert(c@.files.take(j + 1).map_values(|f: FileDeltaView| f.path) =~= c@.files.take(
                j as int,
            ).map_values(|f: FileDeltaView| f.path).push(c@.files[j as int].path));
            assert(c@.files.take(j + 1).map_values(
                |f: FileDeltaView| (f.additions + f.deletions) as u64,
            ) =~= c@.files.take(j as int).map_values(
                |f: FileDeltaView| (f.additions + f.deletions) as u64,
            ).push((c@.files[j as int].additions + c@.files[j as int].deletions) as u64));
        }
        j = j + 1;
    }
    proof {
        assert(c@.files.take(c@.files.len() as int) =~= c@.files);
    }
    EnrichedCommit {
        short_id: short_id(c.id.as_str()),
        date: format_date(c.timestamp),
        message: first_line_str(c.message.as_str()).to_owned(),
        label: classify_commit_with_parents(c.message.as_str(), c.parent_count),
        timestamp: c.timestamp,
        files,
        churn,
    }
}

/// Enrich a whole walked list, newest first.
pub fn build_enriched(records: &Vec<CommitRecord>) -> (r: Vec<EnrichedCommit>)
    requires
        deltas_bounded(commit_views(records@)),
    ensures
        enriched_views(r@) == spec_enrich(commit_views(records@)),
{
    let ghost all = commit_views(records@);
    let mut r: Vec<EnrichedCommit> = Vec::new();
    let mut i: usize = 0;
    while i < records.len()
        invariant
            0 <= i <= records@.len(),
            all == commit_views(records@),
            all.len() == records@.len(),
            deltas_bounded(all),
            enriched_views(r@) =~= spec_enrich(all.take(i as int)),
        decreases records@.len() - i,
    {
        proof {
            assert(all[i as int] == records@[i as int]@);
        }
        r.push(enrich_one(&records[i]));
        proof {
            assert(enriched_views(r@) =~= enriched_views(r@.drop_last()).push(r@.last()@));
            assert(spec_enrich(all.take(i + 1)) =~= spec_enrich(all.take(i as int)).push(
                spec_enrich_one(all[i as int]),
            ));
        }
        i = i + 1;
    }
    proof {
        assert(all.take(all.len() as int) =~= all);
    }
    r
}

/// The files of the older commit that the fix also touches, in the
/// older commit's order.
pub open spec fn shared_of(older: Seq<Seq<char>>, fix: Seq<Seq<char>>) -> Seq<Seq<char>>
    decreases older.len(),
{
    if older.len() == 0 {
        Seq::empty()
    } else {
        let rest = shared_of(older.drop_last(), fix);
        if fix.contains(older.last()) {
            rest.push(older.last())
        } else {
            rest
        }
    }
}

/// Exec computation of the shared files of two commits.
pub fn shared_files(older: &Vec<String>, fix: &Vec<String>) -> (r: Vec<String>)
    ensures
        str_views(r@) == shared_of(str_views(older@), str_views(fix@)),
{
    let mut r: Vec<String> = Vec::new();
    let mut i: usize = 0;
    while i < older.len()
        invariant
            0 <= i <= older@.len(),
            str_views(r@) =~= shared_of(str_views(older@).take(i as int), str_views(fix@)),
        decreases older@.len() - i,
    {
        proof {
            assert(str_views(older@).take(i + 1).drop_last() =~= str_views(older@).take(i as int));
            assert(str_views(older@).take(i + 1).last() == older@[i as int]@);
        }
        if vec_contains_string(fix, &older[i]) {
            proof {
                assert(str_views(fix@).contains(older@[i as int]@)) by {
                    let w = choose|w: int| 0 <= w < fix@.len() && fix@[w]@ == older@[i as int]@;
                    assert(str_views(fix@)[w] == older@[i as int]@);
                }
            }
            r.push(older[i].clone());
            proof {
                assert(str_views(r@) =~= str_views(r@.drop_last()).push(r@.last()@));
            }
        } else {
            proof {
                assert(!str_views(fix@).contains(older@[i as int]@)) by {
                    if str_views(fix@).contains(older@[i as int]@) {
                        let x = older@[i as int]@;
                        let w = choose|w: int|
                            0 <= w < str_views(fix@).len() && str_views(fix@)[w] == x;
                        assert(fix@[w]@ == x);
                    }
                }
            }
        }
        i = i + 1;
    }
    proof {
        assert(str_views(older@).take(older@.len() as int) =~= str_views(older@));
    }
    r
}

/// An older commit qualifies as the cause of a fix when it is a feature
/// or refactor and shares at least one touched file with the fix.
pub open spec fn link_candidate(s: Seq<EnrichedView>, i: int, g: int) -> bool {
    (s[i + g].label == Label::Feat || s[i + g].label == Label::Refactor) && shared_of(
        s[i + g].files,
        s[i].files,
    ).len() > 0
}

/// Scan forward from offset `g`, up to five positions from the fix, for
/// the nearest qualifying older commit: the nearest wins.
pub open spec fn link_scan(s: Seq<EnrichedView>, i: int, g: int) -> Option<int>
    decreases 6 - g,
{
    if g > 5 || i + g >= s.len() || g < 1 {
        None
    } else if link_candidate(s, i, g) {
        Some(g)
    } else {
        link_scan(s, i, g + 1)
    }
}

/// The linkage found for position `i`: only fixes link anywhere.
pub open spec fn link_at(s: Seq<EnrichedView>, i: int) -> Option<int> {
    if 0 <= i < s.len() && s[i].label == Label::Fix {
        link_scan(s, i, 1)
    } else {
        None
    }
}

/// A successful scan really found a qualifying candidate in the window.
pub proof fn lemma_link_scan_some(s: Seq<EnrichedView>, i: int, g0: int, g: int)
    requires
        link_scan(s, i, g0) == Some(g),
    ensures
        g0 <= g <= 5,
        i + g < s.len(),
        link_candidate(s, i, g),
    decreases 6 - g0,
{
    if !(g0 > 5 || i + g0 >= s.len() || g0 < 1) && !link_candidate(s, i, g0) {
        lemma_link_scan_some(s, i, g0 + 1, g);
    }
}

/// One legacy fix-after-feature record: only feature-origin matches are
/// recorded here; refactor-origin matches are signals only.
pub struct FixAfterFeat {
    /// The feature commit's short hash.
    pub feat_commit: String,
    /// The feature commit's date.
    pub feat_date: String,
    /// The feature commit's first message line.
    pub feat_message: String,
    /// The fix commit's short hash.
    pub fix_commit: String,
    /// The fix commit's date.
    pub fix_date: String,
    /// The fix commit's first message line.
    pub fix_message: String,
    /// How many commits lie strictly between the two.
    pub gap_commits: usize,
    /// The files touched by both.
    pub shared_files: Vec<String>,
}

/// The mathematical content of a `FixAfterFeat`.
pub struct FixAfterFeatView {
    /// The feature commit's short hash.
    pub feat_commit: Seq<char>,
    /// The feature commit's date.
    pub feat_date: Seq<char>,
    /// The feature commit's first message line.
    pub feat_message: Seq<char>,
    /// The fix commit's short hash.
    pub fix_commit: Seq<char>,
    /// The fix commit's date.
    pub fix_date: Seq<char>,
    /// The fix commit's first message line.
    pub fix_message: Seq<char>,
    /// Commits strictly between the two.
    pub gap_commits: nat,
    /// The shared paths.
    pub shared_files: Seq<Seq<char>>,
}

impl View for FixAfterFeat {
    type V = FixAfterFeatView;

    open spec fn view(&self) -> FixAfterFeatView {
        FixAfterFeatView {
            feat_commit: self.feat_commit@,
            feat_date: self.feat_date@,
            feat_message: self.feat_message@,
            fix_commit: self.fix_commit@,
            fix_date: self.fix_date@,
            fix_message: self.fix_message@,
            gap_commits: self.gap_commits as nat,
            shared_files: str_views(self.shared_files@),
        }
    }
}

/// The views of a list of fix-after-feature records.
pub open spec fn faf_views(s: Seq<FixAfterFeat>) -> Seq<FixAfterFeatView> {
    s.map_values(|x: FixAfterFeat| x@)
}

/// The one-liner of a linkage signal.
pub open spec fn signal_message(fix_id: Seq<char>, l: Label, older_id: Seq<char>) -> Seq<char> {
    "fix "@ + fix_id + " likely caused by "@ + label_str(l) + " "@ + older_id
}

/// The signal emitted for the link from fix `i` to the commit `g`
/// positions older. Severity is the exact rational
/// `min(shared, 5) / (5 * (gap + 1))`, where `gap` counts the commits
/// strictly between the two: closer and more shared files mean more
/// severe, with the file-count contribution capped at five.
pub open spec fn mk_signal(s: Seq<EnrichedView>, i: int, g: int) -> SignalView {
    let o = s[i + g];
    let shared = shared_of(o.files, s[i].files);
    SignalView {
        kind: if o.label == Label::Feat {
            SignalKind::FixAfterFeat
        } else {
            SignalKind::FixAfterRefactor
        },
        severity_num: if shared.len() < 5 {
            shared.len() as u64
        } else {
            5
        },
        severity_den: (5 * g) as u64,
        message: signal_message(s[i].short_id, o.label, o.short_id),
        commits: seq![o.short_id, s[i].short_id],
        files: shared,
    }
}

/// The legacy record for a feature-origin link.
pub open spec fn mk_faf(s: Seq<EnrichedView>, i: int, g: int) -> FixAfterFeatView {
    let o = s[i + g];
    FixAfterFeatView {
        feat_commit: o.short_id,
        feat_date: o.date,
        feat_message: o.message,
        fix_commit: s[i].short_id,
        fix_date: s[i].date,
        fix_message: s[i].message,
        gap_commits: (g - 1) as nat,
        shared_files: shared_of(o.files, s[i].files),
    }
}

/// The signals over the first `n` positions, in position order.
pub open spec fn signals_upto(s: Seq<EnrichedView>, n: int) -> Seq<SignalView>
    decreases n,
{
    if n <= 0 {
        Seq::empty()
    } else {
        let rest = signals_upto(s, n - 1);
        match link_at(s, n - 1) {
            Some(g) => rest.push(mk_signal(s, n - 1, g)),
            None => rest,
        }
    }
}

/// The legacy fix-after-feature records over the first `n` positions.
pub open spec fn faf_upto(s: Seq<EnrichedView>, n: int) -> Seq<FixAfterFeatView>
    decreases n,
{
    if n <= 0 {
        Seq::empty()
    } else {
        let rest = faf_upto(s, n - 1);
        match link_at(s, n - 1) {
            Some(g) => if s[n - 1 + g].label == Label::Feat {
                rest.push(mk_faf(s, n - 1, g))
            } else {
                rest
            },
            None => rest,
        }
    }
}

/// One commit's appearance in a chain.
pub struct ChainCommit {
    /// The short hash.
    pub commit: String,
    /// The rendered date.
    pub date: String,
    /// The first message line.
    pub message: String,
    /// The classification label.
    pub commit_type: Label,
    /// Seconds since the epoch.
    pub timestamp: i64,
}

/// The mathematical content of a `ChainCommit`.
pub struct ChainCommitView {
    /// The short hash.
    pub commit: Seq<char>,
    /// The rendered date.
    pub date: Seq<char>,
    /// The first message line.
    pub message: Seq<char>,
    /// The label.
    pub commit_type: Label,
    /// Seconds since the epoch.
    pub timestamp: i64,
}

impl View for ChainCommit {
    type V = ChainCommitView;

    open spec fn view(&self) -> ChainCommitView {
        ChainCommitView {
            commit: self.commit@,
            date: self.date@,
            message: self.message@,
            commit_type: self.commit_type,
            timestamp: self.timestamp,
        }
    }
}

/// The views of a list of chain commits.
pub open spec fn cc_views(s: Seq<ChainCommit>) -> Seq<ChainCommitView> {
    s.map_values(|x: ChainCommit| x@)
}

/// The chain appearance of one enriched commit.
pub open spec fn mk_cc(c: EnrichedView) -> ChainCommitView {
    ChainCommitView {
        commit: c.short_id,
        date: c.date,
        message: c.message,
        commit_type: c.label,
        timestamp: c.timestamp,
    }
}

/// Exec construction of a chain appearance.
fn mk_cc_exec(c: &EnrichedCommit) -> (r: ChainCommit)
    ensures
        r@ == mk_cc(c@),
{
    ChainCommit {
        commit: c.short_id.clone(),
        date: c.date.clone(),
        message: c.message.clone(),
        commit_type: c.label,
        timestamp: c.timestamp,
    }
}

/// How often path `p` appears among the first `j` files of a commit.
pub open spec fn count_in(c: EnrichedView, j: int, p: Seq<char>) -> int
    decreases j,
{
    if j <= 0 {
        0
    } else {
        count_in(c, j - 1, p) + if c.files[j - 1] == p {
            1int
        } else {
            0int
        }
    }
}

/// The churn path `p` collects among the first `j` files of a commit.
pub open spec fn churn_in(c: EnrichedView, j: int, p: Seq<char>) -> int
    decreases j,
{
    if j <= 0 {
        0
    } else {
        churn_in(c, j - 1, p) + if c.files[j - 1] == p {
            c.churn[j - 1] as int
        } else {
            0int
        }
    }
}

/// The chain appearances path `p` collects among the first `j` files.
pub open spec fn cc_in(c: EnrichedView, j: int, p: Seq<char>) -> Seq<ChainCommitView>
    decreases j,
{
    if j <= 0 {
        Seq::empty()
    } else {
        let rest = cc_in(c, j - 1, p);
        if c.files[j - 1] == p {
            rest.push(mk_cc(c))
        } else {
            rest
        }
    }
}

/// How often path `p` is touched across a commit list.
pub open spec fn occ(s: Seq<EnrichedView>, p: Seq<char>) -> int
    decreases s.len(),
{
    if s.len() == 0 {
        0
    } else {
        occ(s.drop_last(), p) + count_in(s.last(), s.last().files.len() as int, p)
    }
}

/// The total churn path `p` collects across a commit list.
pub open spec fn churn_total(s: Seq<EnrichedView>, p: Seq<char>) -> int
    decreases s.len(),
{
    if s.len() == 0 {
        0
    } else {
        churn_total(s.drop_last(), p) + churn_in(s.last(), s.last().files.len() as int, p)
    }
}

/// The chain appearances of path `p` across a commit list, in commit
/// order.
pub open spec fn ccs(s: Seq<EnrichedView>, p: Seq<char>) -> Seq<ChainCommitView>
    decreases s.len(),
{
    if s.len() == 0 {
        Seq::empty()
    } else {
        ccs(s.drop_last(), p) + cc_in(s.last(), s.last().files.len() as int, p)
    }
}

/// The file and churn lists of every commit are aligned.
pub open spec fn enriched_wf(s: Seq<EnrichedView>) -> bool {
    forall|i: int| 0 <= i < s.len() ==> (#[trigger] s[i]).files.len() == s[i].churn.len()
}

/// Per-file churn values fit well below a machine word.
pub open spec fn churn_bounded(s: Seq<EnrichedView>) -> bool {
    forall|i: int, j: int|
        0 <= i < s.len() && 0 <= j < s[i].churn.len() ==> (#[trigger] s[i].churn[j])
            <= 0x1_FFFF_FFFE
}

/// The total number of file entries across a commit list.
pub open spec fn total_entries(s: Seq<EnrichedView>) -> int
    decreases s.len(),
{
    if s.len() == 0 {
        0
    } else {
        total_entries(s.drop_last()) + s.last().files.len()
    }
}

/// Each commit's file count is part of the entry total.
pub proof fn lemma_entry_bound(s: Seq<EnrichedView>, i: int)
    requires
        0 <= i < s.len(),
    ensures
        s[i].files.len() <= total_entries(s),
        total_entries(s) >= 0,
    decreases s.len(),
{
    if s.len() > 0 {
        if i == s.len() - 1 {
            lemma_total_entries_nonneg(s.drop_last());
        } else {
            lemma_entry_bound(s.drop_last(), i);
        }
    }
}

/// Entry totals are never negative.
pub proof fn lemma_total_entries_nonneg(s: Seq<EnrichedView>)
    ensures
        total_entries(s) >= 0,
    decreases s.len(),
{
    if s.len() > 0 {
        lemma_total_entries_nonneg(s.drop_last());
    }
}

/// Entry totals only grow with longer prefixes.
pub proof fn lemma_total_entries_take(s: Seq<EnrichedView>, i: int)
    requires
        0 <= i <= s.len(),
    ensures
        total_entries(s.take(i)) <= total_entries(s),
    decreases s.len() - i,
{
    if i == s.len() {
        assert(s.take(i) =~= s);
    } else {
        assert(s.take(i + 1).drop_last() =~= s.take(i));
        lemma_total_entries_take(s, i + 1);
    }
}

/// A count is bounded by the files scanned.
pub proof fn lemma_count_in_bound(c: EnrichedView, j: int, p: Seq<char>)
    requires
        j >= 0,
    ensures
        0 <= count_in(c, j, p) <= j,
    decreases j,
{
    if j > 0 {
        lemma_count_in_bound(c, j - 1, p);
    }
}

/// Churn within one commit is bounded by the scanned entries.
pub proof fn lemma_churn_in_bound(c: EnrichedView, j: int, p: Seq<char>)
    requires
        0 <= j <= c.churn.len(),
        forall|l: int| 0 <= l < c.churn.len() ==> (#[trigger] c.churn[l]) <= 0x1_FFFF_FFFE,
    ensures
        0 <= churn_in(c, j, p) <= j * 0x1_FFFF_FFFE,
    decreases j,
{
    if j > 0 {
        lemma_churn_in_bound(c, j - 1, p);
    }
}

/// Occurrence totals are bounded by the entry total.
pub proof fn lemma_occ_bound(s: Seq<EnrichedView>, p: Seq<char>)
    ensures
        0 <= occ(s, p) <= total_entries(s),
    decreases s.len(),
{
    if s.len() > 0 {
        lemma_occ_bound(s.drop_last(), p);
        lemma_count_in_bound(s.last(), s.last().files.len() as int, p);
    }
}

/// Churn totals are bounded by the entry total times the per-entry cap.
pub proof fn lemma_churn_total_bound(s: Seq<EnrichedView>, p: Seq<char>)
    requires
        enriched_wf(s),
        churn_bounded(s),
    ensures
        0 <= churn_total(s, p) <= total_entries(s) * 0x1_FFFF_FFFE,
    decreases s.len(),
{
    if s.len() > 0 {
        assert(enriched_wf(s.drop_last()) && churn_bounded(s.drop_last())) by {
            assert(forall|i: int|
                0 <= i < s.len() - 1 ==> #[trigger] s.drop_last()[i] == s[i]);
        }
        lemma_churn_total_bound(s.drop_last(), p);
        assert(s.last() == s[s.len() - 1]);
        lemma_churn_in_bound(s.last(), s.last().files.len() as int, p);
        assert(total_entries(s) == total_entries(s.drop_last()) + s.last().files.len());
        vstd::arithmetic::mul::lemma_mul_is_distributive_add_other_way(
            0x1_FFFF_FFFE,
            total_entries(s.drop_last()),
            s.last().files.len() as int,
        );
    }
}

/// The combined statistics of one path across the whole list: how often
/// it is touched, its summed churn, and its chain appearances.
pub fn chain_stats(s: &Vec<EnrichedCommit>, path: &String) -> (r: (u64, u64, Vec<ChainCommit>))
    requires
        enriched_wf(enriched_views(s@)),
        churn_bounded(enriched_views(s@)),
        total_entries(enriched_views(s@)) <= 0x4000_0000,
    ensures
        r.0 == occ(enriched_views(s@), path@),
        r.1 == churn_total(enriched_views(s@), path@),
        cc_views(r.2@) == ccs(enriched_views(s@), path@),
{
    let ghost v = enriched_views(s@);
    let mut cnt: u64 = 0;
    let mut ch: u64 = 0;
    let mut out: Vec<ChainCommit> = Vec::new();
    let mut i: usize = 0;
    while i < s.len()
        invariant
            0 <= i <= s@.len(),
            v == enriched_views(s@),
            v.len() == s@.len(),
            enriched_wf(v),
            churn_bounded(v),
            total_entries(v) <= 0x4000_0000,
            cnt == occ(v.take(i as int), path@),
            ch == churn_total(v.take(i as int), path@),
            cc_views(out@) =~= ccs(v.take(i as int), path@),
        decreases s@.len() - i,
    {
        proof {
            assert(v[i as int] == s@[i as int]@);
        }
        let ghost c = v[i as int];
        let files_len = s[i].files.len();
        let mut j: usize = 0;
        let mut icnt: u64 = 0;
        let mut ich: u64 = 0;
        let ghost out0 = cc_views(out@);
        while j < files_len
            invariant
                0 <= j <= files_len,
                i < s@.len(),
                v == enriched_views(s@),
                v.len() == s@.len(),
                c == v[i as int],
                c == s@[i as int]@,
                enriched_wf(v),
                churn_bounded(v),
                total_entries(v) <= 0x4000_0000,
                files_len == c.files.len(),
                files_len == c.churn.len(),
                icnt == count_in(c, j as int, path@),
                ich == churn_in(c, j as int, path@),
                cc_views(out@) =~= out0 + cc_in(c, j as int, path@),
                out0 == ccs(v.take(i as int), path@),
            decreases files_len - j,
        {
            proof {
                lemma_count_in_bound(c, j as int, path@);
                lemma_churn_in_bound(c, j as int, path@);
                lemma_entry_bound(v, i as int);
                vstd::arithmetic::mul::lemma_mul_inequality(
                    j as int,
                    0x4000_0000,
                    0x1_FFFF_FFFE,
                );
            }
            if s[i].files[j] == *path {
                proof {
                    assert(c.files[j as int] == path@);
                }
                icnt = icnt + 1;
                ich = ich + s[i].churn[j];
                out.push(mk_cc_exec(&s[i]));
                proof {
                    assert(cc_views(out@) =~= cc_views(out@.drop_last()).push(out@.last()@));
                    assert(out@.last()@ == mk_cc(c));
                    assert((out0 + cc_in(c, j as int, path@)).push(mk_cc(c)) =~= out0 + cc_in(
                        c,
                        j as int,
                        path@,
                    ).push(mk_cc(c)));
                }
            } else {
                proof {
                    assert(c.files[j as int] != path@);
                }
            }
            j = j + 1;
        }
        proof {
            lemma_occ_bound(v.take(i as int), path@);
            lemma_total_entries_take(v, i as int);
            assert(enriched_wf(v.take(i as int)) && churn_bounded(v.take(i as int))) by {
                assert(forall|l: int| 0 <= l < i ==> #[trigger] v.take(i as int)[l] == v[l]);
            }
            lemma_churn_total_bound(v.take(i as int), path@);
            lemma_count_in_bound(c, files_len as int, path@);
            lemma_churn_in_bound(c, files_len as int, path@);
            lemma_entry_bound(v, i as int);
            vstd::arithmetic::mul::lemma_mul_inequality(
                files_len as int,
                0x4000_0000,
                0x1_FFFF_FFFE,
            );
            vstd::arithmetic::mul::lemma_mul_inequality(
                total_entries(v.take(i as int)),
                0x4000_0000,
                0x1_FFFF_FFFE,
            );
            assert(v.take(i + 1).drop_last() =~= v.take(i as int));
            assert(v.take(i + 1).last() == v[i as int]);
        }
        cnt = cnt + icnt;
        ch = ch + ich;
        i = i + 1;
    }
    proof {
        assert(v.take(v.len() as int) =~= v);
    }
    (cnt, ch, out)
}

/// Path `p` is touched somewhere in the commit list.
pub open spec fn touched(s: Seq<EnrichedView>, p: Seq<char>) -> bool {
    exists|i: int, j: int| 0 <= i < s.len() && 0 <= j < s[i].files.len() && s[i].files[j] == p
}

/// Collect every distinct touched path, in first-seen order.
pub fn distinct_paths(s: &Vec<EnrichedCommit>) -> (r: Vec<String>)
    ensures
        str_views(r@).no_duplicates(),
        forall|k: int| 0 <= k < r@.len() ==> touched(enriched_views(s@), #[trigger] r@[k]@),
        forall|i: int, j: int|
            0 <= i < enriched_views(s@).len() && 0 <= j < enriched_views(s@)[i].files.len()
                ==> str_views(r@).contains(#[trigger] enriched_views(s@)[i].files[j]),
{
    let ghost v = enriched_views(s@);
    let mut r: Vec<String> = Vec::new();
    let mut i: usize = 0;
    while i < s.len()
        invariant
            0 <= i <= s@.len(),
            v == enriched_views(s@),
            v.len() == s@.len(),
            str_views(r@).no_duplicates(),
            forall|k: int| 0 <= k < r@.len() ==> touched(v, #[trigger] r@[k]@),
            forall|i2: int, j2: int|
                0 <= i2 < i && 0 <= j2 < v[i2].files.len() ==> str_views(r@).contains(
                    #[trigger] v[i2].files[j2],
                ),
        decreases s@.len() - i,
    {
        proof {
            assert(v[i as int] == s@[i as int]@);
        }
        let mut j: usize = 0;
        while j < s[i].files.len()
            invariant
                0 <= i < s@.len(),
                0 <= j <= s@[i as int].files@.len(),
                v == enriched_views(s@),
                v.len() == s@.len(),
                v[i as int] == s@[i as int]@,
                v[i as int].files.len() == s@[i as int].files@.len(),
                str_views(r@).no_duplicates(),
                forall|k: int| 0 <= k < r@.len() ==> touched(v, #[trigger] r@[k]@),
                forall|i2: int, j2: int|
                    0 <= i2 < i && 0 <= j2 < v[i2].files.len() ==> str_views(r@).contains(
                        #[trigger] v[i2].files[j2],
                    ),
                forall|j2: int|
                    0 <= j2 < j ==> str_views(r@).contains(#[trigger] v[i as int].files[j2]),
            decreases s@[i as int].files@.len() - j,
        {
            proof {
                assert(v[i as int].files[j as int] == s@[i as int].files@[j as int]@);
            }
            if !vec_contains_string(&r, &s[i].files[j]) {
                proof {
                    assert(!str_views(r@).contains(v[i as int].files[j as int])) by {
                        if str_views(r@).contains(v[i as int].files[j as int]) {
                            let w = choose|w: int|
                                0 <= w < str_views(r@).len() && str_views(r@)[w] == v[
                                    i as int].files[j as int];
                            assert(r@[w]@ == v[i as int].files[j as int]);
                        }
                    }
                    assert(touched(v, v[i as int].files[j as int]));
                }
                let ghost prev = str_views(r@);
                let ghost x = v[i as int].files[j as int];
                r.push(s[i].files[j].clone());
                proof {
                    assert(str_views(r@) =~= prev.push(x));
                    assert(forall|w: int| 0 <= w < prev.len() ==> str_views(r@)[w] == prev[w]);
                    assert(str_views(r@).no_duplicates()) by {
                        assert forall|k1: int, k2: int|
                            0 <= k1 < k2 < str_views(r@).len() implies str_views(r@)[k1]
                            != str_views(r@)[k2] by {
                            if k2 == str_views(r@).len() - 1 {
                                assert(!prev.contains(x));
                                assert(prev[k1] != x);
                            }
                        }
                    }
                    assert forall|y: Seq<char>| prev.contains(y) implies str_views(
                        r@,
                    ).contains(y) by {
                        let w = choose|w: int| 0 <= w < prev.len() && prev[w] == y;
                        assert(str_views(r@)[w] == y);
                    }
                    assert(str_views(r@).contains(x)) by {
                        assert(str_views(r@)[str_views(r@).len() - 1] == x);
                    }
                }
            } else {
                proof {
                    assert(str_views(r@).contains(v[i as int].files[j as int])) by {
                        let w = choose|w: int|
                            0 <= w < r@.len() && r@[w]@ == v[i as int].files[j as int];
                        assert(str_views(r@)[w] == v[i as int].files[j as int]);
                    }
                }
            }
            j = j + 1;
        }
        i = i + 1;
    }
    r
}

/// One multi-edit chain: a file touched at least three times whose
/// summed churn exceeds one hundred lines.
pub struct MultiEditChain {
    /// The file path.
    pub path: String,
    /// How many times the file was touched.
    pub edit_count: u64,
    /// The summed add-plus-delete churn across those touches.
    pub total_churn: u64,
    /// The touching commits, newest first.
    pub commits: Vec<ChainCommit>,
}

/// The mathematical content of a `MultiEditChain`.
pub struct MultiEditChainView {
    /// The file path.
    pub path: Seq<char>,
    /// The touch count.
    pub edit_count: u64,
    /// The summed churn.
    pub total_churn: u64,
    /// The touching commits.
    pub commits: Seq<ChainCommitView>,
}

impl View for MultiEditChain {
    type V = MultiEditChainView;

    open spec fn view(&self) -> MultiEditChainView {
        MultiEditChainView {
            path: self.path@,
            edit_count: self.edit_count,
            total_churn: self.total_churn,
            commits: cc_views(self.commits@),
        }
    }
}

/// The views of a list of chains.
pub open spec fn mec_views(s: Seq<MultiEditChain>) -> Seq<MultiEditChainView> {
    s.map_values(|x: MultiEditChain| x@)
}

/// One chain entry is exact: its path qualifies and its statistics are
/// the path's true statistics over the whole input.
pub open spec fn chain_ok(v: Seq<EnrichedView>, e: MultiEditChainView) -> bool {
    &&& touched(v, e.path)
    &&& e.edit_count == occ(v, e.path)
    &&& e.edit_count >= 3
    &&& e.total_churn == churn_total(v, e.path)
    &&& e.total_churn > 100
    &&& e.commits == ccs(v, e.path)
}

/// The full chain list before the cap: exact entries, one per path,
/// covering every qualifying path, sorted by edit count descending.
pub open spec fn chains_property(v: Seq<EnrichedView>, full: Seq<MultiEditChainView>) -> bool {
    &&& forall|k: int| 0 <= k < full.len() ==> chain_ok(v, #[trigger] full[k])
    &&& full.map_values(|e: MultiEditChainView| e.path).no_duplicates()
    &&& forall|i: int, j: int|
        0 <= i < v.len() && 0 <= j < v[i].files.len() && occ(v, #[trigger] v[i].files[j]) >= 3
            && churn_total(v, v[i].files[j]) > 100 ==> exists|k: int|
            0 <= k < full.len() && #[trigger] full[k].path == v[i].files[j]
    &&& forall|a: int, b: int| 0 <= a < b < full.len() ==> full[a].edit_count >= full[b].edit_count
}

/// The cap on chain lists: ten, or an explicit smaller limit.
pub open spec fn chain_cap(limit: Option<usize>) -> int {
    match limit {
        Some(l) => if l < 10 {
            l as int
        } else {
            10
        },
        None => 10,
    }
}

/// Collect the exact chain entry of every qualifying distinct path.
fn collect_chain_entries(s: &Vec<EnrichedCommit>, dp: &Vec<String>) -> (pairs: Vec<(
    u64,
    MultiEditChain,
)>)
    requires
        enriched_wf(enriched_views(s@)),
        churn_bounded(enriched_views(s@)),
        total_entries(enriched_views(s@)) <= 0x4000_0000,
        str_views(dp@).no_duplicates(),
        forall|k: int| 0 <= k < dp@.len() ==> touched(enriched_views(s@), #[trigger] dp@[k]@),
    ensures
        forall|k: int|
            0 <= k < pairs@.len() ==> chain_ok(enriched_views(s@), (#[trigger] pairs@[k]).1@)
                && pairs@[k].0 == pairs@[k].1@.edit_count,
        forall|k1: int, k2: int|
            0 <= k1 < k2 < pairs@.len() ==> (#[trigger] pairs@[k1]).1@.path != (
            #[trigger] pairs@[k2]).1@.path,
        forall|u: int|
            0 <= u < dp@.len() && occ(enriched_views(s@), #[trigger] dp@[u]@) >= 3
                && churn_total(enriched_views(s@), dp@[u]@) > 100 ==> exists|k: int|
                0 <= k < pairs@.len() && (#[trigger] pairs@[k]).1@.path == dp@[u]@,
{
    let ghost v = enriched_views(s@);
    let mut pairs: Vec<(u64, MultiEditChain)> = Vec::new();
    let mut t: usize = 0;
    while t < dp.len()
        invariant
            0 <= t <= dp@.len(),
            v == enriched_views(s@),
            enriched_wf(v),
            churn_bounded(v),
            total_entries(v) <= 0x4000_0000,
            str_views(dp@).no_duplicates(),
            forall|k: int| 0 <= k < dp@.len() ==> touched(v, #[trigger] dp@[k]@),
            forall|k: int|
                0 <= k < pairs@.len() ==> chain_ok(v, (#[trigger] pairs@[k]).1@) && pairs@[k].0
                    == pairs@[k].1@.edit_count,
            forall|k: int|
                0 <= k < pairs@.len() ==> exists|u: int|
                    0 <= u < t && (#[trigger] pairs@[k]).1@.path == dp@[u]@,
            forall|k1: int, k2: int|
                0 <= k1 < k2 < pairs@.len() ==> (#[trigger] pairs@[k1]).1@.path != (
                #[trigger] pairs@[k2]).1@.path,
            forall|u: int|
                0 <= u < t && occ(v, #[trigger] dp@[u]@) >= 3 && churn_total(v, dp@[u]@) > 100
                    ==> exists|k: int|
                    0 <= k < pairs@.len() && (#[trigger] pairs@[k]).1@.path == dp@[u]@,
        decreases dp@.len() - t,
    {
        let (cnt, ch, commits) = chain_stats(s, &dp[t]);
        if cnt >= 3 && ch > 100 {
            let entry = MultiEditChain {
                path: dp[t].clone(),
                edit_count: cnt,
                total_churn: ch,
                commits,
            };
            proof {
                assert(chain_ok(v, entry@));
                assert forall|k: int|
                    0 <= k < pairs@.len() implies (#[trigger] pairs@[k]).1@.path != dp@[
                    t as int]@ by {
                    let u = choose|u: int| 0 <= u < t && pairs@[k].1@.path == dp@[u]@;
                    assert(str_views(dp@)[u] == pairs@[k].1@.path);
                    assert(str_views(dp@)[t as int] == dp@[t as int]@);
                }
            }
            let ghost oldp = pairs@;
            pairs.push((cnt, entry));
            proof {
                assert(forall|k: int| 0 <= k < oldp.len() ==> pairs@[k] == oldp[k]);
                assert(pairs@[oldp.len() as int].1@.path == dp@[t as int]@);
                assert forall|u: int|
                    0 <= u < t + 1 && occ(v, #[trigger] dp@[u]@) >= 3 && churn_total(
                        v,
                        dp@[u]@,
                    ) > 100 implies exists|k: int|
                    0 <= k < pairs@.len() && (#[trigger] pairs@[k]).1@.path == dp@[u]@ by {
                    if u == t {
                        assert(pairs@[oldp.len() as int].1@.path == dp@[u]@);
                    } else {
                        let k0 = choose|k: int|
                            0 <= k < oldp.len() && (#[trigger] oldp[k]).1@.path == dp@[u]@;
                        assert(pairs@[k0].1@.path == dp@[u]@);
                    }
                }
            }
        } else {
            proof {
                assert(!(occ(v, dp@[t as int]@) >= 3 && churn_total(v, dp@[t as int]@) > 100));
                assert forall|u: int|
                    0 <= u < t + 1 && occ(v, #[trigger] dp@[u]@) >= 3 && churn_total(
                        v,
                        dp@[u]@,
                    ) > 100 implies exists|k: int|
                    0 <= k < pairs@.len() && (#[trigger] pairs@[k]).1@.path == dp@[u]@ by {
                    assert(u < t);
                    let k0 = choose|k: int|
                        0 <= k < pairs@.len() && (#[trigger] pairs@[k]).1@.path == dp@[u]@;
                }
            }
        }
        t = t + 1;
    }
    pairs
}

/// Detect multi-edit chains: files touched at least three times with
/// more than one hundred lines of summed churn, sorted by edit count
/// descending and capped at ten unless a smaller limit is supplied.
#[verifier::rlimit(100)]
#[verifier::spinoff_prover]
pub fn detect_multi_edit_chains(s: &Vec<EnrichedCommit>, limit: Option<usize>) -> (r: Vec<
    MultiEditChain,
>)
    requires
        enriched_wf(enriched_views(s@)),
        churn_bounded(enriched_views(s@)),
        total_entries(enriched_views(s@)) <= 0x4000_0000,
    ensures
        exists|full: Seq<MultiEditChainView>|
            chains_property(enriched_views(s@), full) && mec_views(r@) == (if chain_cap(limit)
                < full.len() {
                full.take(chain_cap(limit))
            } else {
                full
            }),
{
    let ghost v = enriched_views(s@);
    let dp = distinct_paths(s);
    let mut pairs = collect_chain_entries(s, &dp);
    let ghost pre = pairs@;
    proof {
        assert(pre.map_values(|p: (u64, MultiEditChain)| p.1@.path).no_duplicates());
    }
    crate::sorting::sort_pairs_desc(&mut pairs);
    proof {
        assert forall|k: int| 0 <= k < pairs@.len() implies chain_ok(
            v,
            (#[trigger] pairs@[k]).1@,
        ) && pairs@[k].0 == pairs@[k].1@.edit_count by {
            crate::sorting::lemma_permuted_membership(pre, pairs@, k);
        }
        crate::sorting::lemma_permuted_distinct(
            pre,
            pairs@,
            |p: (u64, MultiEditChain)| p.1@.path,
        );
        assert forall|u: int|
            0 <= u < dp@.len() && occ(v, #[trigger] dp@[u]@) >= 3 && churn_total(v, dp@[u]@)
                > 100 implies exists|k: int|
            0 <= k < pairs@.len() && (#[trigger] pairs@[k]).1@.path == dp@[u]@ by {
            let k0 = choose|k: int|
                0 <= k < pre.len() && (#[trigger] pre[k]).1@.path == dp@[u]@;
            crate::sorting::lemma_permuted_membership(pairs@, pre, k0);
            let k1 = choose|k: int| 0 <= k < pairs@.len() && pairs@[k] == pre[k0];
            assert(pairs@[k1].1@.path == dp@[u]@);
        }
    }
    let mut out: Vec<MultiEditChain> = Vec::new();
    let ghost sorted = pairs@;
    let total: usize = pairs.len();
    let mut q: usize = 0;
    while pairs.len() > 0
        invariant
            total == sorted.len(),
            q == sorted.len() - pairs@.len(),
            0 <= q <= total,
            pairs@ =~= sorted.skip(q as int),
            out@.len() == q,
            forall|k: int| 0 <= k < q ==> out@[k] == (#[trigger] sorted[k]).1,
        decreases pairs@.len(),
    {
        let p = pairs.remove(0);
        out.push(p.1);
        proof {
            assert(sorted.skip(q as int).drop_first() =~= sorted.skip(q + 1));
        }
        q = q + 1;
    }
    let ghost full = mec_views(out@);
    proof {
        assert(chains_property(v, full)) by {
            assert(forall|k: int|
                0 <= k < full.len() ==> #[trigger] full[k] == sorted[k].1@);
            assert(full.map_values(|e: MultiEditChainView| e.path) =~= sorted.map_values(
                |p: (u64, MultiEditChain)| p.1@.path,
            ));
            assert forall|i: int, j: int|
                0 <= i < v.len() && 0 <= j < v[i].files.len() && occ(
                    v,
                    #[trigger] v[i].files[j],
                ) >= 3 && churn_total(v, v[i].files[j]) > 100 implies exists|k: int|
                0 <= k < full.len() && #[trigger] full[k].path == v[i].files[j] by {
                assert(str_views(dp@).contains(v[i].files[j]));
                let u = choose|u: int|
                    0 <= u < str_views(dp@).len() && str_views(dp@)[u] == v[i].files[j];
                assert(dp@[u]@ == v[i].files[j]);
                let k = choose|k: int|
                    0 <= k < sorted.len() && (#[trigger] sorted[k]).1@.path == dp@[u]@;
                assert(full[k].path == v[i].files[j]);
            }
        }
    }
    let cap = match limit {
        Some(l) => if l < 10 {
            l
        } else {
            10
        },
        None => 10,
    };
    out.truncate(cap);
    proof {
        if chain_cap(limit) < full.len() {
            assert(mec_views(out@) =~= full.take(chain_cap(limit)));
        } else {
            assert(mec_views(out@) =~= full);
        }
    }
    out
}

/// The top-level directory of a path.
pub open spec fn dir_of(p: Seq<char>) -> Seq<char> {
    crate::paths::spec_dir_prefix(p, 1)
}

/// Commit `c` touches directory `d`.
pub open spec fn dir_touch(c: EnrichedView, d: Seq<char>) -> bool {
    exists|j: int| 0 <= j < c.files.len() && dir_of(#[trigger] c.files[j]) == d
}

/// How many commits touch directory `d`: each commit counts once.
pub open spec fn dedit(s: Seq<EnrichedView>, d: Seq<char>) -> int
    decreases s.len(),
{
    if s.len() == 0 {
        0
    } else {
        dedit(s.drop_last(), d) + if dir_touch(s.last(), d) {
            1int
        } else {
            0int
        }
    }
}

/// The churn directory `d` collects among the first `j` files of a
/// commit.
pub open spec fn dchurn_in(c: EnrichedView, j: int, d: Seq<char>) -> int
    decreases j,
{
    if j <= 0 {
        0
    } else {
        dchurn_in(c, j - 1, d) + if dir_of(c.files[j - 1]) == d {
            c.churn[j - 1] as int
        } else {
            0int
        }
    }
}

/// The total churn directory `d` collects across a commit list.
pub open spec fn dchurn(s: Seq<EnrichedView>, d: Seq<char>) -> int
    decreases s.len(),
{
    if s.len() == 0 {
        0
    } else {
        dchurn(s.drop_last(), d) + dchurn_in(s.last(), s.last().files.len() as int, d)
    }
}

/// Per-commit directory churn is bounded by the scanned entries.
pub proof fn lemma_dchurn_in_bound(c: EnrichedView, j: int, d: Seq<char>)
    requires
        0 <= j <= c.churn.len(),
        forall|l: int| 0 <= l < c.churn.len() ==> (#[trigger] c.churn[l]) <= 0x1_FFFF_FFFE,
    ensures
        0 <= dchurn_in(c, j, d) <= j * 0x1_FFFF_FFFE,
    decreases j,
{
    if j > 0 {
        lemma_dchurn_in_bound(c, j - 1, d);
    }
}

/// Directory churn totals are bounded like path churn totals.
pub proof fn lemma_dchurn_bound(s: Seq<EnrichedView>, d: Seq<char>)
    requires
        enriched_wf(s),
        churn_bounded(s),
    ensures
        0 <= dchurn(s, d) <= total_entries(s) * 0x1_FFFF_FFFE,
    decreases s.len(),
{
    if s.len() > 0 {
        assert(enriched_wf(s.drop_last()) && churn_bounded(s.drop_last())) by {
            assert(forall|i: int|
                0 <= i < s.len() - 1 ==> #[trigger] s.drop_last()[i] == s[i]);
        }
        lemma_dchurn_bound(s.drop_last(), d);
        assert(s.last() == s[s.len() - 1]);
        lemma_dchurn_in_bound(s.last(), s.last().files.len() as int, d);
        vstd::arithmetic::mul::lemma_mul_is_distributive_add_other_way(
            0x1_FFFF_FFFE,
            total_entries(s.drop_last()),
            s.last().files.len() as int,
        );
    }
}

/// Commit counts per directory are bounded by the commit count.
pub proof fn lemma_dedit_bound(s: Seq<EnrichedView>, d: Seq<char>)
    ensures
        0 <= dedit(s, d) <= s.len(),
    decreases s.len(),
{
    if s.len() > 0 {
        lemma_dedit_bound(s.drop_last(), d);
    }
}

/// The statistics of one directory: commits touching it, its summed
/// churn, and the deduplicated, lexicographically sorted list of its
/// touched files.
fn dir_stats(s: &Vec<EnrichedCommit>, d: &String) -> (r: (u64, u64, Vec<String>))
    requires
        enriched_wf(enriched_views(s@)),
        churn_bounded(enriched_views(s@)),
        total_entries(enriched_views(s@)) <= 0x4000_0000,
        s@.len() <= 0x4000_0000,
    ensures
        r.0 == dedit(enriched_views(s@), d@),
        r.1 == dchurn(enriched_views(s@), d@),
        str_views(r.2@).no_duplicates(),
        forall|a: int, b: int|
            0 <= a < b < r.2@.len() ==> crate::text::lex_le(r.2@[a]@, r.2@[b]@),
        forall|k: int|
            0 <= k < r.2@.len() ==> touched(enriched_views(s@), #[trigger] r.2@[k]@) && dir_of(
                r.2@[k]@,
            ) == d@,
        forall|i: int, j: int|
            0 <= i < enriched_views(s@).len() && 0 <= j < enriched_views(s@)[i].files.len()
                && dir_of(#[trigger] enriched_views(s@)[i].files[j]) == d@ ==> str_views(
                r.2@,
            ).contains(enriched_views(s@)[i].files[j]),
{
    let ghost v = enriched_views(s@);
    let mut edits: u64 = 0;
    let mut ch: u64 = 0;
    let mut files: Vec<String> = Vec::new();
    let mut i: usize = 0;
    while i < s.len()
        invariant
            0 <= i <= s@.len(),
            v == enriched_views(s@),
            v.len() == s@.len(),
            enriched_wf(v),
            churn_bounded(v),
            total_entries(v) <= 0x4000_0000,
            s@.len() <= 0x4000_0000,
            edits == dedit(v.take(i as int), d@),
            ch == dchurn(v.take(i as int), d@),
            str_views(files@).no_duplicates(),
            forall|k: int|
                0 <= k < files@.len() ==> touched(v, #[trigger] files@[k]@) && dir_of(
                    files@[k]@,
                ) == d@,
            forall|i2: int, j2: int|
                0 <= i2 < i && 0 <= j2 < v[i2].files.len() && dir_of(
                    #[trigger] v[i2].files[j2],
                ) == d@ ==> str_views(files@).contains(v[i2].files[j2]),
        decreases s@.len() - i,
    {
        proof {
            assert(v[i as int] == s@[i as int]@);
        }
        let ghost c = v[i as int];
        let files_len = s[i].files.len();
        let mut j: usize = 0;
        let mut hit = false;
        let mut ich: u64 = 0;
        while j < files_len
            invariant
                0 <= j <= files_len,
                i < s@.len(),
                v == enriched_views(s@),
                v.len() == s@.len(),
                c == v[i as int],
                c == s@[i as int]@,
                enriched_wf(v),
                churn_bounded(v),
                total_entries(v) <= 0x4000_0000,
                files_len == c.files.len(),
                files_len == c.churn.len(),
                hit <==> exists|j2: int| 0 <= j2 < j && dir_of(#[trigger] c.files[j2]) == d@,
                ich == dchurn_in(c, j as int, d@),
                str_views(files@).no_duplicates(),
                forall|k: int|
                    0 <= k < files@.len() ==> touched(v, #[trigger] files@[k]@) && dir_of(
                        files@[k]@,
                    ) == d@,
                forall|i2: int, j2: int|
                    0 <= i2 < i && 0 <= j2 < v[i2].files.len() && dir_of(
                        #[trigger] v[i2].files[j2],
                    ) == d@ ==> str_views(files@).contains(v[i2].files[j2]),
                forall|j2: int|
                    0 <= j2 < j && dir_of(#[trigger] c.files[j2]) == d@ ==> str_views(
                        files@,
                    ).contains(c.files[j2]),
            decreases files_len - j,
        {
            proof {
                lemma_dchurn_in_bound(c, j as int, d@);
                lemma_entry_bound(v, i as int);
                vstd::arithmetic::mul::lemma_mul_inequality(
                    j as int,
                    0x4000_0000,
                    0x1_FFFF_FFFE,
                );
                assert(c.files[j as int] == s@[i as int].files@[j as int]@);
            }
            let fd = crate::paths::dir_prefix(s[i].files[j].as_str(), 1);
            if fd == *d {
                proof {
                    assert(dir_of(c.files[j as int]) == d@);
                    assert(touched(v, c.files[j as int]));
                }
                hit = true;
                ich = ich + s[i].churn[j];
                if !vec_contains_string(&files, &s[i].files[j]) {
                    proof {
                        assert(!str_views(files@).contains(c.files[j as int])) by {
                            if str_views(files@).contains(c.files[j as int]) {
                                let x = c.files[j as int];
                                let w = choose|w: int|
                                    0 <= w < str_views(files@).len() && str_views(files@)[w]
                                        == x;
                                assert(files@[w]@ == x);
                            }
                        }
                    }
                    let ghost prev = str_views(files@);
                    let ghost x = c.files[j as int];
                    files.push(s[i].files[j].clone());
                    proof {
                        assert(str_views(files@) =~= prev.push(x));
                        assert(forall|w: int|
                            0 <= w < prev.len() ==> str_views(files@)[w] == prev[w]);
                        assert(str_views(files@).no_duplicates()) by {
                            assert forall|k1: int, k2: int|
                                0 <= k1 < k2 < str_views(files@).len() implies str_views(
                                files@,
                            )[k1] != str_views(files@)[k2] by {
                                if k2 == str_views(files@).len() - 1 {
                                    assert(!prev.contains(x));
                                    assert(prev[k1] != x);
                                }
                            }
                        }
                        assert forall|y: Seq<char>| prev.contains(y) implies str_views(
                            files@,
                        ).contains(y) by {
                            let w = choose|w: int| 0 <= w < prev.len() && prev[w] == y;
                            assert(str_views(files@)[w] == y);
                        }
                        assert(str_views(files@).contains(x)) by {
                            assert(str_views(files@)[str_views(files@).len() - 1] == x);
                        }
                    }
                } else {
                    proof {
                        assert(str_views(files@).contains(c.files[j as int])) by {
                            let x = c.files[j as int];
                            let w = choose|w: int| 0 <= w < files@.len() && files@[w]@ == x;
                            assert(str_views(files@)[w] == x);
                        }
                    }
                }
            } else {
                proof {
                    assert(dir_of(c.files[j as int]) != d@);
                }
            }
            j = j + 1;
        }
        proof {
            lemma_dedit_bound(v.take(i as int), d@);
            assert(enriched_wf(v.take(i as int)) && churn_bounded(v.take(i as int))) by {
                assert(forall|l: int| 0 <= l < i ==> #[trigger] v.take(i as int)[l] == v[l]);
            }
            lemma_dchurn_bound(v.take(i as int), d@);
            lemma_dchurn_in_bound(c, files_len as int, d@);
            lemma_entry_bound(v, i as int);
            lemma_total_entries_take(v, i as int);
            vstd::arithmetic::mul::lemma_mul_inequality(
                files_len as int,
                0x4000_0000,
                0x1_FFFF_FFFE,
            );
            vstd::arithmetic::mul::lemma_mul_inequality(
                total_entries(v.take(i as int)),
                0x4000_0000,
                0x1_FFFF_FFFE,
            );
            assert(v.take(i + 1).drop_last() =~= v.take(i as int));
            assert(v.take(i + 1).last() == v[i as int]);
            assert(hit == dir_touch(c, d@));
        }
        if hit {
            edits = edits + 1;
        }
        ch = ch + ich;
        i = i + 1;
    }
    proof {
        assert(v.take(v.len() as int) =~= v);
    }
    let ghost fpre = files@;
    crate::sorting::sort_strings(&mut files);
    proof {
        assert forall|k: int| 0 <= k < files@.len() implies touched(
            v,
            #[trigger] files@[k]@,
        ) && dir_of(files@[k]@) == d@ by {
            crate::sorting::lemma_permuted_membership(fpre, files@, k);
        }
        crate::sorting::lemma_permuted_distinct(fpre, files@, |x: String| x@);
        assert(str_views(files@) =~= files@.map_values(|x: String| x@));
        assert(str_views(fpre) =~= fpre.map_values(|x: String| x@));
        assert forall|y: Seq<char>| str_views(fpre).contains(y) implies str_views(
            files@,
        ).contains(y) by {
            let w = choose|w: int| 0 <= w < fpre.len() && str_views(fpre)[w] == y;
            crate::sorting::lemma_permuted_membership(files@, fpre, w);
            let w2 = choose|w2: int| 0 <= w2 < files@.len() && files@[w2] == fpre[w];
            assert(str_views(files@)[w2] == y);
        }
    }
    (edits, ch, files)
}

/// One directory chain: a top-level directory touched by at least
/// three commits, aggregated by churn.
pub struct DirectoryChain {
    /// The directory.
    pub path: String,
    /// How many commits touch it, each counted once.
    pub total_edit_count: u64,
    /// Its summed churn.
    pub total_churn: u64,
    /// Its touched files, deduplicated and sorted.
    pub files: Vec<String>,
}

/// The mathematical content of a `DirectoryChain`.
pub struct DirectoryChainView {
    /// The directory.
    pub path: Seq<char>,
    /// Its commit count.
    pub total_edit_count: u64,
    /// Its summed churn.
    pub total_churn: u64,
    /// Its touched files.
    pub files: Seq<Seq<char>>,
}

impl View for DirectoryChain {
    type V = DirectoryChainView;

    open spec fn view(&self) -> DirectoryChainView {
        DirectoryChainView {
            path: self.path@,
            total_edit_count: self.total_edit_count,
            total_churn: self.total_churn,
            files: str_views(self.files@),
        }
    }
}

/// The views of a list of directory chains.
pub open spec fn dc_views(s: Seq<DirectoryChain>) -> Seq<DirectoryChainView> {
    s.map_values(|x: DirectoryChain| x@)
}

/// One directory entry is exact: its statistics are the directory's
/// true statistics, and its file list is the sorted deduplication of
/// everything touched under it.
pub open spec fn dchain_ok(v: Seq<EnrichedView>, e: DirectoryChainView) -> bool {
    &&& e.total_edit_count == dedit(v, e.path)
    &&& e.total_edit_count >= 3
    &&& e.total_churn == dchurn(v, e.path)
    &&& e.files.no_duplicates()
    &&& forall|a: int, b: int|
        0 <= a < b < e.files.len() ==> crate::text::lex_le(e.files[a], e.files[b])
    &&& forall|k: int|
        0 <= k < e.files.len() ==> touched(v, #[trigger] e.files[k]) && dir_of(e.files[k])
            == e.path
    &&& forall|i: int, j: int|
        0 <= i < v.len() && 0 <= j < v[i].files.len() && dir_of(#[trigger] v[i].files[j])
            == e.path ==> e.files.contains(v[i].files[j])
}

/// The full directory-chain list before the cap.
pub open spec fn dchains_property(v: Seq<EnrichedView>, full: Seq<DirectoryChainView>) -> bool {
    &&& forall|k: int| 0 <= k < full.len() ==> dchain_ok(v, #[trigger] full[k])
    &&& full.map_values(|e: DirectoryChainView| e.path).no_duplicates()
    &&& forall|i: int, j: int|
        0 <= i < v.len() && 0 <= j < v[i].files.len() && dedit(
            v,
            dir_of(#[trigger] v[i].files[j]),
        ) >= 3 ==> exists|k: int|
            0 <= k < full.len() && #[trigger] full[k].path == dir_of(v[i].files[j])
    &&& forall|a: int, b: int|
        0 <= a < b < full.len() ==> full[a].total_churn >= full[b].total_churn
}

/// Collect every distinct touched top-level directory, in first-seen
/// order.
fn distinct_dirs(s: &Vec<EnrichedCommit>) -> (r: Vec<String>)
    ensures
        str_views(r@).no_duplicates(),
        forall|i: int, j: int|
            0 <= i < enriched_views(s@).len() && 0 <= j < enriched_views(s@)[i].files.len()
                ==> str_views(r@).contains(dir_of(#[trigger] enriched_views(s@)[i].files[j])),
{
    let ghost v = enriched_views(s@);
    let mut r: Vec<String> = Vec::new();
    let mut i: usize = 0;
    while i < s.len()
        invariant
            0 <= i <= s@.len(),
            v == enriched_views(s@),
            v.len() == s@.len(),
            str_views(r@).no_duplicates(),
            forall|i2: int, j2: int|
                0 <= i2 < i && 0 <= j2 < v[i2].files.len() ==> str_views(r@).contains(
                    dir_of(#[trigger] v[i2].files[j2]),
                ),
        decreases s@.len() - i,
    {
        proof {
            assert(v[i as int] == s@[i as int]@);
        }
        let mut j: usize = 0;
        while j < s[i].files.len()
            invariant
                0 <= i < s@.len(),
                0 <= j <= s@[i as int].files@.len(),
                v == enriched_views(s@),
                v.len() == s@.len(),
                v[i as int] == s@[i as int]@,
                v[i as int].files.len() == s@[i as int].files@.len(),
                str_views(r@).no_duplicates(),
                forall|i2: int, j2: int|
                    0 <= i2 < i && 0 <= j2 < v[i2].files.len() ==> str_views(r@).contains(
                        dir_of(#[trigger] v[i2].files[j2]),
                    ),
                forall|j2: int|
                    0 <= j2 < j ==> str_views(r@).contains(
                        dir_of(#[trigger] v[i as int].files[j2]),
                    ),
            decreases s@[i as int].files@.len() - j,
        {
            proof {
                assert(v[i as int].files[j as int] == s@[i as int].files@[j as int]@);
            }
            let d = crate::paths::dir_prefix(s[i].files[j].as_str(), 1);
            let ghost x = dir_of(v[i as int].files[j as int]);
            proof {
                assert(d@ == x);
            }
            if !vec_contains_string(&r, &d) {
                proof {
                    assert(!str_views(r@).contains(x)) by {
                        if str_views(r@).contains(x) {
                            let w = choose|w: int|
                                0 <= w < str_views(r@).len() && str_views(r@)[w] == x;
                            assert(r@[w]@ == x);
                        }
                    }
                }
                let ghost prev = str_views(r@);
                r.push(d);
                proof {
                    assert(str_views(r@) =~= prev.push(x));
                    assert(forall|w: int| 0 <= w < prev.len() ==> str_views(r@)[w] == prev[w]);
                    assert(str_views(r@).no_duplicates()) by {
                        assert forall|k1: int, k2: int|
                            0 <= k1 < k2 < str_views(r@).len() implies str_views(r@)[k1]
                            != str_views(r@)[k2] by {
                            if k2 == str_views(r@).len() - 1 {
                                assert(!prev.contains(x));
                                assert(prev[k1] != x);
                            }
                        }
                    }
                    assert forall|y: Seq<char>| prev.contains(y) implies str_views(
                        r@,
                    ).contains(y) by {
                        let w = choose|w: int| 0 <= w < prev.len() && prev[w] == y;
                        assert(str_views(r@)[w] == y);
                    }
                    assert(str_views(r@).contains(x)) by {
                        assert(str_views(r@)[str_views(r@).len() - 1] == x);
                    }
                }
            } else {
                proof {
                    assert(str_views(r@).contains(x)) by {
                        let w = choose|w: int| 0 <= w < r@.len() && r@[w]@ == x;
                        assert(str_views(r@)[w] == x);
                    }
                }
            }
            j = j + 1;
        }
        i = i + 1;
    }
    r
}

/// Collect the exact entry of every qualifying directory.
fn collect_dir_entries(s: &Vec<EnrichedCommit>, dd: &Vec<String>) -> (pairs: Vec<(
    u64,
    DirectoryChain,
)>)
    requires
        enriched_wf(enriched_views(s@)),
        churn_bounded(enriched_views(s@)),
        total_entries(enriched_views(s@)) <= 0x4000_0000,
        s@.len() <= 0x4000_0000,
        str_views(dd@).no_duplicates(),
    ensures
        forall|k: int|
            0 <= k < pairs@.len() ==> dchain_ok(enriched_views(s@), (#[trigger] pairs@[k]).1@)
                && pairs@[k].0 == pairs@[k].1@.total_churn,
        forall|k1: int, k2: int|
            0 <= k1 < k2 < pairs@.len() ==> (#[trigger] pairs@[k1]).1@.path != (
            #[trigger] pairs@[k2]).1@.path,
        forall|u: int|
            0 <= u < dd@.len() && dedit(enriched_views(s@), #[trigger] dd@[u]@) >= 3 ==> exists|
                k: int,
            |
                0 <= k < pairs@.len() && (#[trigger] pairs@[k]).1@.path == dd@[u]@,
{
    let ghost v = enriched_views(s@);
    let mut pairs: Vec<(u64, DirectoryChain)> = Vec::new();
    let mut t: usize = 0;
    while t < dd.len()
        invariant
            0 <= t <= dd@.len(),
            v == enriched_views(s@),
            enriched_wf(v),
            churn_bounded(v),
            total_entries(v) <= 0x4000_0000,
            s@.len() <= 0x4000_0000,
            str_views(dd@).no_duplicates(),
            forall|k: int|
                0 <= k < pairs@.len() ==> dchain_ok(v, (#[trigger] pairs@[k]).1@) && pairs@[k].0
                    == pairs@[k].1@.total_churn,
            forall|k: int|
                0 <= k < pairs@.len() ==> exists|u: int|
                    0 <= u < t && (#[trigger] pairs@[k]).1@.path == dd@[u]@,
            forall|k1: int, k2: int|
                0 <= k1 < k2 < pairs@.len() ==> (#[trigger] pairs@[k1]).1@.path != (
                #[trigger] pairs@[k2]).1@.path,
            forall|u: int|
                0 <= u < t && dedit(v, #[trigger] dd@[u]@) >= 3 ==> exists|k: int|
                    0 <= k < pairs@.len() && (#[trigger] pairs@[k]).1@.path == dd@[u]@,
        decreases dd@.len() - t,
    {
        let (edits, ch, files) = dir_stats(s, &dd[t]);
        if edits >= 3 {
            let entry = DirectoryChain {
                path: dd[t].clone(),
                total_edit_count: edits,
                total_churn: ch,
                files,
            };
            proof {
                assert(dchain_ok(v, entry@));
                assert forall|k: int|
                    0 <= k < pairs@.len() implies (#[trigger] pairs@[k]).1@.path != dd@[
                    t as int]@ by {
                    let u = choose|u: int| 0 <= u < t && pairs@[k].1@.path == dd@[u]@;
                    assert(str_views(dd@)[u] == pairs@[k].1@.path);
                    assert(str_views(dd@)[t as int] == dd@[t as int]@);
                }
            }
            let ghost oldp = pairs@;
            pairs.push((ch, entry));
            proof {
                assert(forall|k: int| 0 <= k < oldp.len() ==> pairs@[k] == oldp[k]);
                assert(pairs@[oldp.len() as int].1@.path == dd@[t as int]@);
                assert forall|u: int|
                    0 <= u < t + 1 && dedit(v, #[trigger] dd@[u]@) >= 3 implies exists|k: int|
                    0 <= k < pairs@.len() && (#[trigger] pairs@[k]).1@.path == dd@[u]@ by {
                    if u == t {
                        assert(pairs@[oldp.len() as int].1@.path == dd@[u]@);
                    } else {
                        let k0 = choose|k: int|
                            0 <= k < oldp.len() && (#[trigger] oldp[k]).1@.path == dd@[u]@;
                        assert(pairs@[k0].1@.path == dd@[u]@);
                    }
                }
            }
        } else {
            proof {
                assert(!(dedit(v, dd@[t as int]@) >= 3));
                assert forall|u: int|
                    0 <= u < t + 1 && dedit(v, #[trigger] dd@[u]@) >= 3 implies exists|k: int|
                    0 <= k < pairs@.len() && (#[trigger] pairs@[k]).1@.path == dd@[u]@ by {
                    assert(u < t);
                    let k0 = choose|k: int|
                        0 <= k < pairs@.len() && (#[trigger] pairs@[k]).1@.path == dd@[u]@;
                }
            }
        }
        t = t + 1;
    }
    pairs
}

/// Detect directory chains: top-level directories touched by at least
/// three commits, sorted by churn descending and capped at ten unless a
/// smaller limit is supplied.
#[verifier::rlimit(100)]
#[verifier::spinoff_prover]
pub fn detect_directory_chains(s: &Vec<EnrichedCommit>, limit: Option<usize>) -> (r: Vec<
    DirectoryChain,
>)
    requires
        enriched_wf(enriched_views(s@)),
        churn_bounded(enriched_views(s@)),
        total_entries(enriched_views(s@)) <= 0x4000_0000,
        s@.len() <= 0x4000_0000,
    ensures
        exists|full: Seq<DirectoryChainView>|
            dchains_property(enriched_views(s@), full) && dc_views(r@) == (if chain_cap(limit)
                < full.len() {
                full.take(chain_cap(limit))
            } else {
                full
            }),
{
    let ghost v = enriched_views(s@);
    let dd = distinct_dirs(s);
    let mut pairs = collect_dir_entries(s, &dd);
    let ghost pre = pairs@;
    proof {
        assert(pre.map_values(|p: (u64, DirectoryChain)| p.1@.path).no_duplicates());
    }
    crate::sorting::sort_pairs_desc(&mut pairs);
    proof {
        assert forall|k: int| 0 <= k < pairs@.len() implies dchain_ok(
            v,
            (#[trigger] pairs@[k]).1@,
        ) && pairs@[k].0 == pairs@[k].1@.total_churn by {
            crate::sorting::lemma_permuted_membership(pre, pairs@, k);
        }
        crate::sorting::lemma_permuted_distinct(
            pre,
            pairs@,
            |p: (u64, DirectoryChain)| p.1@.path,
        );
        assert forall|u: int|
            0 <= u < dd@.len() && dedit(v, #[trigger] dd@[u]@) >= 3 implies exists|k: int|
            0 <= k < pairs@.len() && (#[trigger] pairs@[k]).1@.path == dd@[u]@ by {
            let k0 = choose|k: int| 0 <= k < pre.len() && (#[trigger] pre[k]).1@.path == dd@[u]@;
            crate::sorting::lemma_permuted_membership(pairs@, pre, k0);
            let k1 = choose|k: int| 0 <= k < pairs@.len() && pairs@[k] == pre[k0];
            assert(pairs@[k1].1@.path == dd@[u]@);
        }
    }
    let mut out: Vec<DirectoryChain> = Vec::new();
    let ghost sorted = pairs@;
    let total: usize = pairs.len();
    let mut q: usize = 0;
    while pairs.len() > 0
        invariant
            total == sorted.len(),
            q == sorted.len() - pairs@.len(),
            0 <= q <= total,
            pairs@ =~= sorted.skip(q as int),
            out@.len() == q,
            forall|k: int| 0 <= k < q ==> out@[k] == (#[trigger] sorted[k]).1,
        decreases pairs@.len(),
    {
        let p = pairs.remove(0);
        out.push(p.1);
        proof {
            assert(sorted.skip(q as int).drop_first() =~= sorted.skip(q + 1));
        }
        q = q + 1;
    }
    let ghost full = dc_views(out@);
    proof {
        assert(dchains_property(v, full)) by {
            assert(forall|k: int|
                0 <= k < full.len() ==> #[trigger] full[k] == sorted[k].1@);
            assert(full.map_values(|e: DirectoryChainView| e.path) =~= sorted.map_values(
                |p: (u64, DirectoryChain)| p.1@.path,
            ));
            assert forall|i: int, j: int|
                0 <= i < v.len() && 0 <= j < v[i].files.len() && dedit(
                    v,
                    dir_of(#[trigger] v[i].files[j]),
                ) >= 3 implies exists|k: int|
                0 <= k < full.len() && #[trigger] full[k].path == dir_of(v[i].files[j]) by {
                assert(str_views(dd@).contains(dir_of(v[i].files[j])));
                let u = choose|u: int|
                    0 <= u < str_views(dd@).len() && str_views(dd@)[u] == dir_of(
                        v[i].files[j],
                    );
                assert(dd@[u]@ == dir_of(v[i].files[j]));
                let k = choose|k: int|
                    0 <= k < sorted.len() && (#[trigger] sorted[k]).1@.path == dd@[u]@;
                assert(full[k].path == dir_of(v[i].files[j]));
            }
        }
    }
    let cap = match limit {
        Some(l) => if l < 10 {
            l
        } else {
            10
        },
        None => 10,
    };
    out.truncate(cap);
    proof {
        if chain_cap(limit) < full.len() {
            assert(dc_views(out@) =~= full.take(chain_cap(limit)));
        } else {
            assert(dc_views(out@) =~= full);
        }
    }
    out
}

/// One temporal cluster: at least three same-label commits within one
/// hour of the run's earliest member.
pub struct TemporalCluster {
    /// The shared label of the members.
    pub cluster_type: Label,
    /// The earliest member's time, rendered.
    pub start_time: String,
    /// The latest member's time, rendered.
    pub end_time: String,
    /// The member count.
    pub commit_count: u64,
    /// The members, earliest first.
    pub commits: Vec<ChainCommit>,
    /// The deduplicated, sorted union of files the members touch.
    pub affected_files: Vec<String>,
}

/// The mathematical content of a `TemporalCluster`.
pub struct TemporalClusterView {
    /// The shared label.
    pub cluster_type: Label,
    /// The earliest member's rendered time.
    pub start_time: Seq<char>,
    /// The latest member's rendered time.
    pub end_time: Seq<char>,
    /// The member count.
    pub commit_count: u64,
    /// The members.
    pub commits: Seq<ChainCommitView>,
    /// The touched-file union.
    pub affected_files: Seq<Seq<char>>,
}

impl View for TemporalCluster {
    type V = TemporalClusterView;

    open spec fn view(&self) -> TemporalClusterView {
        TemporalClusterView {
            cluster_type: self.cluster_type,
            start_time: self.start_time@,
            end_time: self.end_time@,
            commit_count: self.commit_count,
            commits: cc_views(self.commits@),
            affected_files: str_views(self.affected_files@),
        }
    }
}

/// The views of a list of clusters.
pub open spec fn tc_views(s: Seq<TemporalCluster>) -> Seq<TemporalClusterView> {
    s.map_values(|x: TemporalCluster| x@)
}

/// Every commit timestamp is far from the extremes of its type, so
/// window arithmetic cannot overflow.
pub open spec fn times_bounded(s: Seq<EnrichedView>) -> bool {
    forall|i: int|
        0 <= i < s.len() ==> -0x2000_0000_0000_0000 <= (#[trigger] s[i]).timestamp
            <= 0x2000_0000_0000_0000
}

/// A well-formed emitted cluster: at least three members, all bearing
/// the cluster's label, each a real commit of the input, ordered by
/// time and all within one hour of the earliest, with the boundary
/// renderings taken from the earliest and latest members.
#[verifier::opaque]
pub open spec fn cluster_wf(v: Seq<EnrichedView>, e: TemporalClusterView) -> bool {
    &&& e.commit_count == e.commits.len()
    &&& e.commits.len() >= 3
    &&& forall|m: int|
        0 <= m < e.commits.len() ==> (#[trigger] e.commits[m]).commit_type == e.cluster_type
    &&& forall|m: int|
        0 <= m < e.commits.len() ==> e.commits[0].timestamp <= (
        #[trigger] e.commits[m]).timestamp <= e.commits[0].timestamp + 3600
    &&& forall|m1: int, m2: int|
        0 <= m1 < m2 < e.commits.len() ==> (#[trigger] e.commits[m1]).timestamp <= (
        #[trigger] e.commits[m2]).timestamp
    &&& e.start_time == crate::commit::datetime_str_of(e.commits[0].timestamp as int)
    &&& e.end_time == crate::commit::datetime_str_of(
        e.commits[e.commits.len() - 1].timestamp as int,
    )
    &&& e.affected_files.no_duplicates()
    &&& forall|a: int, b: int|
        0 <= a < b < e.affected_files.len() ==> crate::text::lex_le(
            e.affected_files[a],
            e.affected_files[b],
        )
    &&& exists|idxs: Seq<int>| cluster_members(v, e, idxs)
}

/// The members of a cluster are real input commits at the given
/// positions, and the affected files are exactly the union of those
/// members' touched files.
pub open spec fn cluster_members(v: Seq<EnrichedView>, e: TemporalClusterView, idxs: Seq<int>)
    -> bool {
    &&& idxs.len() == e.commits.len()
    &&& forall|q: int|
        0 <= q < idxs.len() ==> 0 <= #[trigger] idxs[q] < v.len() && mk_cc(v[idxs[q]])
            == e.commits[q]
    &&& forall|p: Seq<char>|
        #[trigger] e.affected_files.contains(p) <==> exists|q: int|
            0 <= q < idxs.len() && v[#[trigger] idxs[q]].files.contains(p)
}

/// Where the greedy run starting at `start` ends on an ascending
/// timestamp sequence: the first later position more than an hour past
/// the run's first member, or the end.
pub open spec fn range_end(ts: Seq<i64>, start: int) -> int {
    if exists|j: int| start < j < ts.len() && ts[j] - ts[start] > 3600 {
        let e = choose|j: int|
            start < j < ts.len() && ts[j] - ts[start] > 3600 && forall|l: int|
                start < l < j ==> ts[l] - ts[start] <= 3600;
        if start < e <= ts.len() {
            e
        } else {
            ts.len() as int
        }
    } else {
        ts.len() as int
    }
}

/// `range_end` is pinned down by the first-violation characterisation.
pub proof fn lemma_range_end(ts: Seq<i64>, start: int, e: int)
    requires
        0 <= start < ts.len(),
        start < e <= ts.len(),
        forall|l: int| start < l < e ==> ts[l] - ts[start] <= 3600,
        e < ts.len() ==> ts[e] - ts[start] > 3600,
    ensures
        range_end(ts, start) == e,
{
    if e < ts.len() {
        assert(start < e < ts.len() && ts[e] - ts[start] > 3600 && forall|l: int|
            start < l < e ==> ts[l] - ts[start] <= 3600);
        let k = choose|j: int|
            start < j < ts.len() && ts[j] - ts[start] > 3600 && forall|l: int|
                start < l < j ==> ts[l] - ts[start] <= 3600;
        if k < e {
            assert(ts[k] - ts[start] <= 3600);
        }
        if k > e {
            assert(ts[e] - ts[start] <= 3600);
        }
    } else {
        assert(forall|j: int| start < j < ts.len() ==> ts[j] - ts[start] <= 3600);
    }
}

/// The greedy partition of an ascending timestamp sequence into maximal
/// hour-wide runs, keeping only runs of three or more: once a run is
/// closed, scanning resumes strictly after it, so commits are never
/// reused.
pub open spec fn cluster_ranges(ts: Seq<i64>, start: int) -> Seq<(int, int)>
    decreases ts.len() - start,
{
    if start < 0 || start >= ts.len() {
        Seq::empty()
    } else {
        let e = range_end(ts, start);
        let e2 = if start < e <= ts.len() {
            e
        } else {
            start + 1
        };
        if e2 - start >= 3 {
            seq![(start, e2)] + cluster_ranges(ts, e2)
        } else {
            cluster_ranges(ts, e2)
        }
    }
}

/// The greedy partition never reuses a commit: its ranges lie in order,
/// inside the sequence, pairwise disjoint, and each holds at least
/// three members. This is the non-overlap guarantee for temporal
/// clusters: within one label group no commit can appear in two
/// clusters, and groups of different labels are disjoint by
/// construction.
#[verifier::rlimit(100)]
pub proof fn lemma_cluster_ranges_disjoint(ts: Seq<i64>, start: int)
    ensures
        forall|k: int|
            0 <= k < cluster_ranges(ts, start).len() ==> start <= (
            #[trigger] cluster_ranges(ts, start)[k]).0 < cluster_ranges(ts, start)[k].1
                <= ts.len(),
        forall|k: int|
            0 <= k < cluster_ranges(ts, start).len() ==> (#[trigger] cluster_ranges(
                ts,
                start,
            )[k]).1 - cluster_ranges(ts, start)[k].0 >= 3,
        forall|k1: int, k2: int|
            0 <= k1 < k2 < cluster_ranges(ts, start).len() ==> (#[trigger] cluster_ranges(
                ts,
                start,
            )[k1]).1 <= (#[trigger] cluster_ranges(ts, start)[k2]).0,
    decreases ts.len() - start,
{
    if !(start < 0 || start >= ts.len()) {
        let e = range_end(ts, start);
        let e2 = if start < e <= ts.len() {
            e
        } else {
            start + 1
        };
        lemma_cluster_ranges_disjoint(ts, e2);
        let rest = cluster_ranges(ts, e2);
        if e2 - start >= 3 {
            assert(cluster_ranges(ts, start) =~= seq![(start, e2)] + rest);
            assert(cluster_ranges(ts, start)[0] == (start, e2));
            assert(forall|k: int|
                0 <= k < rest.len() ==> cluster_ranges(ts, start)[k + 1] == #[trigger] rest[k]);
            assert(forall|k: int|
                1 <= k < cluster_ranges(ts, start).len() ==> #[trigger] cluster_ranges(
                    ts,
                    start,
                )[k] == rest[k - 1]);
        } else {
            assert(cluster_ranges(ts, start) =~= rest);
        }
    } else {
        assert(cluster_ranges(ts, start) =~= Seq::<(int, int)>::empty());
    }
}

/// Ascending order on timestamps.
pub open spec fn ts_le() -> spec_fn(i64, i64) -> bool {
    |a: i64, b: i64| a <= b
}

/// The timestamps of the commits bearing one label, in input order.
#[verifier::opaque]
pub open spec fn label_ts(s: Seq<EnrichedView>, lab: Label) -> Seq<i64>
    decreases s.len(),
{
    if s.len() == 0 {
        Seq::empty()
    } else {
        label_ts(s.drop_last(), lab) + if s.last().label == lab {
            seq![s.last().timestamp]
        } else {
            Seq::empty()
        }
    }
}

/// The same timestamps, sorted ascending: the canonical time-sorted
/// group the greedy partition runs over.
pub open spec fn label_ts_sorted(s: Seq<EnrichedView>, lab: Label) -> Seq<i64> {
    label_ts(s, lab).sort_by(ts_le())
}

/// The timestamps the greedy partition clusters, scanning from `start`:
/// the concatenation of every qualifying run.
#[verifier::opaque]
pub open spec fn clustered_from(ts: Seq<i64>, start: int) -> Seq<i64>
    decreases ts.len() - start,
{
    if start < 0 || start >= ts.len() {
        Seq::empty()
    } else {
        let e = range_end(ts, start);
        let e2 = if start < e <= ts.len() {
            e
        } else {
            start + 1
        };
        if e2 - start >= 3 {
            ts.subrange(start, e2) + clustered_from(ts, e2)
        } else {
            clustered_from(ts, e2)
        }
    }
}

/// One cluster's contribution to a label's member timestamps.
pub open spec fn cluster_contrib(e: TemporalClusterView, lab: Label) -> Multiset<i64> {
    if e.cluster_type == lab {
        e.commits.map_values(|c: ChainCommitView| c.timestamp).to_multiset()
    } else {
        Multiset::empty()
    }
}

/// The member timestamps of all clusters bearing one label.
#[verifier::opaque]
pub open spec fn member_ts(cs: Seq<TemporalClusterView>, lab: Label) -> Multiset<i64>
    decreases cs.len(),
{
    if cs.len() == 0 {
        Multiset::empty()
    } else {
        member_ts(cs.drop_last(), lab).add(cluster_contrib(cs.last(), lab))
    }
}

/// Taking one cluster out removes exactly its contribution.
proof fn lemma_member_ts_remove(cs: Seq<TemporalClusterView>, lab: Label, i: int)
    requires
        0 <= i < cs.len(),
    ensures
        member_ts(cs, lab) =~= member_ts(cs.remove(i), lab).add(cluster_contrib(cs[i], lab)),
    decreases cs.len(),
{
    reveal(member_ts);
    if i == cs.len() - 1 {
        assert(cs.remove(i) =~= cs.drop_last());
    } else {
        lemma_member_ts_remove(cs.drop_last(), lab, i);
        assert(cs.remove(i).drop_last() =~= cs.drop_last().remove(i));
        assert(cs.remove(i).last() == cs.last());
    }
}

/// Member timestamps depend only on the multiset of clusters.
proof fn lemma_member_ts_perm(a: Seq<TemporalClusterView>, b: Seq<TemporalClusterView>, lab: Label)
    requires
        a.to_multiset() == b.to_multiset(),
    ensures
        member_ts(a, lab) == member_ts(b, lab),
    decreases a.len(),
{
    broadcast use vstd::seq_lib::group_to_multiset_ensures;

    reveal(member_ts);
    if a.len() == 0 {
        assert(a.to_multiset().len() == 0);
        assert(b.len() == 0);
    } else {
        let x = a.last();
        assert(a.to_multiset().contains(x)) by {
            assert(a[a.len() - 1] == x);
        }
        assert(b.contains(x));
        let j = choose|j: int| 0 <= j < b.len() && b[j] == x;
        assert(a.drop_last().to_multiset() =~= a.to_multiset().remove(x)) by {
            assert(a.drop_last() =~= a.remove(a.len() - 1));
        }
        assert(b.remove(j).to_multiset() =~= b.to_multiset().remove(x));
        lemma_member_ts_perm(a.drop_last(), b.remove(j), lab);
        lemma_member_ts_remove(b, lab, j);
    }
}

/// A label borne by no cluster collects no member timestamps.
proof fn lemma_member_ts_absent(cs: Seq<TemporalClusterView>, lab: Label)
    requires
        forall|k: int| 0 <= k < cs.len() ==> (#[trigger] cs[k]).cluster_type != lab,
    ensures
        member_ts(cs, lab) =~= Multiset::empty(),
    decreases cs.len(),
{
    reveal(member_ts);
    if cs.len() > 0 {
        assert(cs.last() == cs[cs.len() - 1]);
        lemma_member_ts_absent(cs.drop_last(), lab);
    }
}

/// Some member at the given input positions touches this path.
pub open spec fn files_of_members(v: Seq<EnrichedView>, idxs: Seq<int>, p: Seq<char>) -> bool {
    exists|q: int|
        0 <= q < idxs.len() && 0 <= idxs[q] < v.len() && v[#[trigger] idxs[q]].files.contains(p)
}

/// Build one cluster from a sorted run of member positions.
#[verifier::rlimit(30)]
fn build_cluster(
    s: &Vec<EnrichedCommit>,
    lab: Label,
    pairs: &Vec<(i64, usize)>,
    from: usize,
    to: usize,
) -> (r: TemporalCluster)
    requires
        from < to <= pairs@.len(),
        to - from >= 3,
        forall|m: int|
            0 <= m < pairs@.len() ==> (#[trigger] pairs@[m]).1 < s@.len()
                && s@[pairs@[m].1 as int]@.label == lab && pairs@[m].0 == s@[
                pairs@[m].1 as int]@.timestamp,
        forall|m1: int, m2: int|
            0 <= m1 < m2 < pairs@.len() ==> (#[trigger] pairs@[m1]).0 <= (
            #[trigger] pairs@[m2]).0,
        forall|m: int|
            from <= m < to ==> (#[trigger] pairs@[m]).0 <= pairs@[from as int].0 + 3600,
    ensures
        cluster_wf(enriched_views(s@), r@),
        r@.cluster_type == lab,
        r@.commit_count == to - from,
        r@.commits.map_values(|c: ChainCommitView| c.timestamp) =~= pairs@.map_values(
            |pp: (i64, usize)| pp.0,
        ).subrange(from as int, to as int),
{
    let ghost v = enriched_views(s@);
    let ghost gidx: Seq<int> = Seq::new((to - from) as nat, |q: int| pairs@[from + q].1 as int);
    let mut commits: Vec<ChainCommit> = Vec::new();
    let mut files: Vec<String> = Vec::new();
    let mut m = from;
    while m < to
        invariant
            from <= m <= to <= pairs@.len(),
            v == enriched_views(s@),
            v.len() == s@.len(),
            gidx == Seq::new((to - from) as nat, |q: int| pairs@[from + q].1 as int),
            forall|m2: int|
                0 <= m2 < pairs@.len() ==> (#[trigger] pairs@[m2]).1 < s@.len()
                    && s@[pairs@[m2].1 as int]@.label == lab && pairs@[m2].0 == s@[
                    pairs@[m2].1 as int]@.timestamp,
            forall|m1: int, m2: int|
                0 <= m1 < m2 < pairs@.len() ==> (#[trigger] pairs@[m1]).0 <= (
                #[trigger] pairs@[m2]).0,
            commits@.len() == m - from,
            forall|q: int|
                0 <= q < commits@.len() ==> (#[trigger] commits@[q])@ == mk_cc(
                    v[pairs@[from + q].1 as int],
                ),
            str_views(files@).no_duplicates(),
            forall|k: int|
                0 <= k < files@.len() ==> files_of_members(v, gidx, (#[trigger] files@[k])@),
            forall|q: int, jf: int|
                0 <= q < m - from && 0 <= jf < v[gidx[q]].files.len() ==> str_views(
                    files@,
                ).contains(#[trigger] v[gidx[q]].files[jf]),
        decreases to - m,
    {
        let idx = pairs[m].1;
        proof {
            assert(v[idx as int] == s@[idx as int]@);
            assert(gidx[m - from] == idx as int);
        }
        commits.push(mk_cc_exec(&s[idx]));
        let mut j: usize = 0;
        while j < s[idx].files.len()
            invariant
                0 <= j <= s@[idx as int].files@.len(),
                idx < s@.len(),
                from <= m < to <= pairs@.len(),
                idx == pairs@[m as int].1,
                v == enriched_views(s@),
                v.len() == s@.len(),
                v[idx as int] == s@[idx as int]@,
                v[idx as int].files.len() == s@[idx as int].files@.len(),
                gidx == Seq::new((to - from) as nat, |q: int| pairs@[from + q].1 as int),
                gidx[m - from] == idx as int,
                str_views(files@).no_duplicates(),
                forall|k: int|
                    0 <= k < files@.len() ==> files_of_members(v, gidx, (#[trigger] files@[k])@),
                forall|q: int, jf: int|
                    0 <= q < m - from && 0 <= jf < v[gidx[q]].files.len() ==> str_views(
                        files@,
                    ).contains(#[trigger] v[gidx[q]].files[jf]),
                forall|jf: int|
                    0 <= jf < j ==> str_views(files@).contains(
                        #[trigger] v[idx as int].files[jf],
                    ),
            decreases s@[idx as int].files@.len() - j,
        {
            proof {
                assert(v[idx as int].files[j as int] == s@[idx as int].files@[j as int]@);
            }
            let ghost x = v[idx as int].files[j as int];
            if !vec_contains_string(&files, &s[idx].files[j]) {
                proof {
                    assert(!str_views(files@).contains(x)) by {
                        if str_views(files@).contains(x) {
                            let w = choose|w: int|
                                0 <= w < str_views(files@).len() && str_views(files@)[w] == x;
                            assert(files@[w]@ == x);
                        }
                    }
                    assert(files_of_members(v, gidx, x)) by {
                        assert(v[gidx[m - from]].files[j as int] == x);
                        assert(v[gidx[m - from]].files.contains(x));
                    }
                }
                let ghost prev = str_views(files@);
                files.push(s[idx].files[j].clone());
                proof {
                    assert(str_views(files@) =~= prev.push(x));
                    assert(forall|w: int|
                        0 <= w < prev.len() ==> str_views(files@)[w] == prev[w]);
                    assert(str_views(files@).no_duplicates()) by {
                        assert forall|k1: int, k2: int|
                            0 <= k1 < k2 < str_views(files@).len() implies str_views(files@)[k1]
                            != str_views(files@)[k2] by {
                            if k2 == str_views(files@).len() - 1 {
                                assert(!prev.contains(x));
                                assert(prev[k1] != x);
                            }
                        }
                    }
                    assert forall|y: Seq<char>| prev.contains(y) implies str_views(
                        files@,
                    ).contains(y) by {
                        let w = choose|w: int| 0 <= w < prev.len() && prev[w] == y;
                        assert(str_views(files@)[w] == y);
                    }
                    assert(str_views(files@).contains(x)) by {
                        assert(str_views(files@)[str_views(files@).len() - 1] == x);
                    }
                }
            } else {
                proof {
                    assert(str_views(files@).contains(x)) by {
                        let w = choose|w: int| 0 <= w < files@.len() && files@[w]@ == x;
                        assert(str_views(files@)[w] == x);
                    }
                }
            }
            j = j + 1;
        }
        m = m + 1;
    }
    let ghost fpre = files@;
    crate::sorting::sort_strings(&mut files);
    proof {
        assert forall|k: int| 0 <= k < files@.len() implies files_of_members(
            v,
            gidx,
            (#[trigger] files@[k])@,
        ) by {
            crate::sorting::lemma_permuted_membership(fpre, files@, k);
        }
        crate::sorting::lemma_permuted_distinct(fpre, files@, |x: String| x@);
        assert(str_views(files@) =~= files@.map_values(|x: String| x@));
        assert(str_views(fpre) =~= fpre.map_values(|x: String| x@));
        assert forall|y: Seq<char>| str_views(fpre).contains(y) implies str_views(
            files@,
        ).contains(y) by {
            let w = choose|w: int| 0 <= w < fpre.len() && str_views(fpre)[w] == y;
            crate::sorting::lemma_permuted_membership(files@, fpre, w);
            let w2 = choose|w2: int| 0 <= w2 < files@.len() && files@[w2] == fpre[w];
            assert(str_views(files@)[w2] == y);
        }
    }
    let start_time = crate::commit::format_datetime(pairs[from].0);
    let end_time = crate::commit::format_datetime(pairs[to - 1].0);
    let count = (to - from) as u64;
    let r = TemporalCluster {
        cluster_type: lab,
        start_time,
        end_time,
        commit_count: count,
        commits,
        affected_files: files,
    };
    proof {
        assert forall|q: int| 0 <= q < r@.commits.len() implies (
        #[trigger] r@.commits[q]).commit_type == lab by {
            assert(r@.commits[q] == mk_cc(v[pairs@[from + q].1 as int]));
        }
        assert forall|q: int| 0 <= q < r@.commits.len() implies r@.commits[0].timestamp <= (
        #[trigger] r@.commits[q]).timestamp <= r@.commits[0].timestamp + 3600 by {
            assert(r@.commits[q] == mk_cc(v[pairs@[from + q].1 as int]));
            assert(r@.commits[0] == mk_cc(v[pairs@[from as int].1 as int]));
            assert(r@.commits[q].timestamp == pairs@[from + q].0);
            assert(r@.commits[0].timestamp == pairs@[from as int].0);
        }
        assert forall|m1: int, m2: int| 0 <= m1 < m2 < r@.commits.len() implies (
        #[trigger] r@.commits[m1]).timestamp <= (#[trigger] r@.commits[m2]).timestamp by {
            assert(r@.commits[m1].timestamp == pairs@[from + m1].0);
            assert(r@.commits[m2].timestamp == pairs@[from + m2].0);
        }
        assert(r@.commits[0].timestamp == pairs@[from as int].0);
        assert(r@.commits[r@.commits.len() - 1].timestamp == pairs@[from + (to - from) - 1].0);
        reveal(cluster_wf);
        assert(cluster_members(v, r@, gidx)) by {
            assert(forall|q: int|
                0 <= q < gidx.len() ==> 0 <= #[trigger] gidx[q] < v.len() && mk_cc(v[gidx[q]])
                    == r@.commits[q]);
            assert forall|p: Seq<char>| #[trigger] r@.affected_files.contains(p) implies exists|
                q: int,
            | 0 <= q < gidx.len() && v[#[trigger] gidx[q]].files.contains(p) by {
                let k = choose|k: int|
                    0 <= k < r@.affected_files.len() && r@.affected_files[k] == p;
                assert(files@[k]@ == p);
                assert(files_of_members(v, gidx, p));
                let q = choose|q: int|
                    0 <= q < gidx.len() && 0 <= gidx[q] < v.len() && v[
                    #[trigger] gidx[q]].files.contains(p);
                assert(v[gidx[q]].files.contains(p));
            }
            assert forall|p: Seq<char>|
                exists|q: int|
                    0 <= q < gidx.len() && v[#[trigger] gidx[q]].files.contains(
                        p,
                    ) implies #[trigger] r@.affected_files.contains(p) by {
                let q = choose|q: int|
                    0 <= q < gidx.len() && v[#[trigger] gidx[q]].files.contains(p);
                let jf = choose|jf: int|
                    0 <= jf < v[gidx[q]].files.len() && v[gidx[q]].files[jf] == p;
                assert(str_views(fpre).contains(v[gidx[q]].files[jf]));
                assert(str_views(files@).contains(p));
            }
        }
        assert(cluster_wf(v, r@));
        assert(r@.commits.map_values(|c: ChainCommitView| c.timestamp) =~= pairs@.map_values(
            |pp: (i64, usize)| pp.0,
        ).subrange(from as int, to as int)) by {
            assert(forall|q: int|
                0 <= q < to - from ==> (#[trigger] r@.commits[q]).timestamp == pairs@[from
                    + q].0);
        }
    }
    r
}

/// Every label of the taxonomy, in a fixed order.
pub open spec fn label_order() -> Seq<Label> {
    seq![
        Label::Merge,
        Label::Revert,
        Label::Release,
        Label::Feat,
        Label::Fix,
        Label::Chore,
        Label::Docs,
        Label::Refactor,
        Label::Test,
        Label::Style,
        Label::Perf,
        Label::Ci,
        Label::Build,
        Label::Other,
    ]
}

/// Every label appears in the fixed order.
pub proof fn lemma_label_order_total(l: Label)
    ensures
        label_order().contains(l),
{
    if l == Label::Merge {
        assert(label_order()[0] == l);
    } else if l == Label::Revert {
        assert(label_order()[1] == l);
    } else if l == Label::Release {
        assert(label_order()[2] == l);
    } else if l == Label::Feat {
        assert(label_order()[3] == l);
    } else if l == Label::Fix {
        assert(label_order()[4] == l);
    } else if l == Label::Chore {
        assert(label_order()[5] == l);
    } else if l == Label::Docs {
        assert(label_order()[6] == l);
    } else if l == Label::Refactor {
        assert(label_order()[7] == l);
    } else if l == Label::Test {
        assert(label_order()[8] == l);
    } else if l == Label::Style {
        assert(label_order()[9] == l);
    } else if l == Label::Perf {
        assert(label_order()[10] == l);
    } else if l == Label::Ci {
        assert(label_order()[11] == l);
    } else if l == Label::Build {
        assert(label_order()[12] == l);
    } else {
        assert(label_order()[13] == l);
    }
}

/// Every label of the taxonomy, as a vector in the fixed order.
pub fn all_labels() -> (r: Vec<Label>)
    ensures
        r@ =~= label_order(),
        r@ =~= seq![
            Label::Merge,
            Label::Revert,
            Label::Release,
            Label::Feat,
            Label::Fix,
            Label::Chore,
            Label::Docs,
            Label::Refactor,
            Label::Test,
            Label::Style,
            Label::Perf,
            Label::Ci,
            Label::Build,
            Label::Other,
        ],
{
    let mut r: Vec<Label> = Vec::new();
    r.push(Label::Merge);
    r.push(Label::Revert);
    r.push(Label::Release);
    r.push(Label::Feat);
    r.push(Label::Fix);
    r.push(Label::Chore);
    r.push(Label::Docs);
    r.push(Label::Refactor);
    r.push(Label::Test);
    r.push(Label::Style);
    r.push(Label::Perf);
    r.push(Label::Ci);
    r.push(Label::Build);
    r.push(Label::Other);
    r
}

/// The cluster views of a keyed accumulator.
pub open spec fn tcp_views(ps: Seq<(u64, TemporalCluster)>) -> Seq<TemporalClusterView> {
    ps.map_values(|p: (u64, TemporalCluster)| p.1@)
}

/// Collect one label's commits as (timestamp, position) pairs, sorted
/// by time ascending.
#[verifier::rlimit(30)]
fn collect_label_pairs(s: &Vec<EnrichedCommit>, lab: Label) -> (pairs: Vec<(i64, usize)>)
    ensures
        forall|m: int|
            0 <= m < pairs@.len() ==> (#[trigger] pairs@[m]).1 < s@.len()
                && s@[pairs@[m].1 as int]@.label == lab && pairs@[m].0 == s@[
                pairs@[m].1 as int]@.timestamp,
        forall|m1: int, m2: int|
            0 <= m1 < m2 < pairs@.len() ==> (#[trigger] pairs@[m1]).0 <= (
            #[trigger] pairs@[m2]).0,
        pairs@.map_values(|pp: (i64, usize)| pp.0) =~= label_ts_sorted(
            enriched_views(s@),
            lab,
        ),
{
    let ghost v = enriched_views(s@);
    let mut pairs: Vec<(i64, usize)> = Vec::new();
    let mut idx: usize = 0;
    proof {
        reveal(label_ts);
        assert(pairs@.map_values(|pp: (i64, usize)| pp.0) =~= label_ts(v.take(0), lab));
    }
    while idx < s.len()
        invariant
            0 <= idx <= s@.len(),
            v == enriched_views(s@),
            v.len() == s@.len(),
            forall|m: int|
                0 <= m < pairs@.len() ==> (#[trigger] pairs@[m]).1 < s@.len()
                    && s@[pairs@[m].1 as int]@.label == lab && pairs@[m].0 == s@[
                    pairs@[m].1 as int]@.timestamp,
            pairs@.map_values(|pp: (i64, usize)| pp.0) =~= label_ts(v.take(idx as int), lab),
        decreases s@.len() - idx,
    {
        proof {
            reveal(label_ts);
            assert(v[idx as int] == s@[idx as int]@);
            assert(v.take(idx + 1).drop_last() =~= v.take(idx as int));
            assert(v.take(idx + 1).last() == v[idx as int]);
        }
        if s[idx].label == lab {
            pairs.push((s[idx].timestamp, idx));
            proof {
                assert(pairs@.map_values(|pp: (i64, usize)| pp.0) =~= pairs@.drop_last(
                ).map_values(|pp: (i64, usize)| pp.0).push(pairs@.last().0));
                assert(label_ts(v.take(idx as int), lab) + seq![v[idx as int].timestamp]
                    =~= label_ts(v.take(idx as int), lab).push(v[idx as int].timestamp));
            }
        }
        idx = idx + 1;
    }
    proof {
        assert(v.take(v.len() as int) =~= v);
    }
    let ghost ppre = pairs@;
    crate::sorting::sort_pairs_asc_i64(&mut pairs);
    let ghost lts = pairs@.map_values(|pp: (i64, usize)| pp.0);
    proof {
        assert forall|m: int|
            0 <= m < pairs@.len() implies (#[trigger] pairs@[m]).1 < s@.len()
            && s@[pairs@[m].1 as int]@.label == lab && pairs@[m].0 == s@[
            pairs@[m].1 as int]@.timestamp by {
            crate::sorting::lemma_permuted_membership(ppre, pairs@, m);
        }
        assert(lts =~= label_ts_sorted(v, lab)) by {
            crate::sorting::lemma_map_values_multiset(ppre, pairs@, |pp: (i64, usize)| pp.0);
            label_ts(v, lab).lemma_sort_by_ensures(ts_le());
            assert(vstd::relations::total_ordering(ts_le())) by {
                assert(forall|x: i64, y: i64| #[trigger] ts_le()(x, y) == (x <= y));
            }
            assert(vstd::relations::sorted_by(lts, ts_le())) by {
                assert(forall|x: i64, y: i64| #[trigger] ts_le()(x, y) == (x <= y));
                assert(forall|a: int, b: int| 0 <= a < b < lts.len() ==> lts[a] <= lts[b]);
            }
            vstd::seq_lib::lemma_sorted_unique(
                lts,
                label_ts(v, lab).sort_by(ts_le()),
                ts_le(),
            );
        }
    }
    pairs
}

/// Splitting a cluster list splits its member timestamps.
proof fn lemma_member_ts_concat(
    a: Seq<TemporalClusterView>,
    b: Seq<TemporalClusterView>,
    lab: Label,
)
    ensures
        member_ts(a + b, lab) == member_ts(a, lab).add(member_ts(b, lab)),
    decreases b.len(),
{
    reveal(member_ts);
    if b.len() == 0 {
        assert(a + b =~= a);
        assert(member_ts(a, lab).add(member_ts(b, lab)) =~= member_ts(a, lab));
    } else {
        assert((a + b).drop_last() =~= a + b.drop_last());
        assert((a + b).last() == b.last());
        lemma_member_ts_concat(a, b.drop_last(), lab);
        assert(member_ts(a, lab).add(member_ts(b.drop_last(), lab)).add(
            cluster_contrib(b.last(), lab),
        ) =~= member_ts(a, lab).add(
            member_ts(b.drop_last(), lab).add(cluster_contrib(b.last(), lab)),
        ));
    }
}

/// The qualifying greedy runs of one label's time-sorted commits.
#[verifier::rlimit(100)]
fn greedy_runs(s: &Vec<EnrichedCommit>, lab: Label, pairs: &Vec<(i64, usize)>) -> (out: Vec<(
    u64,
    TemporalCluster,
)>)
    requires
        times_bounded(enriched_views(s@)),
        forall|m: int|
            0 <= m < pairs@.len() ==> (#[trigger] pairs@[m]).1 < s@.len()
                && s@[pairs@[m].1 as int]@.label == lab && pairs@[m].0 == s@[
                pairs@[m].1 as int]@.timestamp,
        forall|m1: int, m2: int|
            0 <= m1 < m2 < pairs@.len() ==> (#[trigger] pairs@[m1]).0 <= (
            #[trigger] pairs@[m2]).0,
    ensures
        forall|k: int|
            0 <= k < out@.len() ==> cluster_wf(enriched_views(s@), (#[trigger] out@[k]).1@)
                && out@[k].0 == out@[k].1@.commit_count && out@[k].1@.cluster_type == lab,
        member_ts(tcp_views(out@), lab) == clustered_from(
            pairs@.map_values(|pp: (i64, usize)| pp.0),
            0,
        ).to_multiset(),
{
    let ghost v = enriched_views(s@);
    let ghost lts = pairs@.map_values(|pp: (i64, usize)| pp.0);
    let mut out: Vec<(u64, TemporalCluster)> = Vec::new();
    let mut i: usize = 0;
    proof {
        reveal(member_ts);
        assert(tcp_views(out@) =~= Seq::<TemporalClusterView>::empty());
        assert(member_ts(tcp_views(out@), lab) =~= Multiset::<i64>::empty());
        assert(Multiset::<i64>::empty().add(clustered_from(lts, 0).to_multiset())
            =~= clustered_from(lts, 0).to_multiset());
    }
    while i < pairs.len()
        invariant
            0 <= i <= pairs@.len(),
            v == enriched_views(s@),
            v.len() == s@.len(),
            times_bounded(v),
            lts == pairs@.map_values(|pp: (i64, usize)| pp.0),
            forall|m: int|
                0 <= m < pairs@.len() ==> (#[trigger] pairs@[m]).1 < s@.len()
                    && s@[pairs@[m].1 as int]@.label == lab && pairs@[m].0 == s@[
                    pairs@[m].1 as int]@.timestamp,
            forall|m1: int, m2: int|
                0 <= m1 < m2 < pairs@.len() ==> (#[trigger] pairs@[m1]).0 <= (
                #[trigger] pairs@[m2]).0,
            forall|k: int|
                0 <= k < out@.len() ==> cluster_wf(v, (#[trigger] out@[k]).1@) && out@[k].0
                    == out@[k].1@.commit_count && out@[k].1@.cluster_type == lab,
            member_ts(tcp_views(out@), lab).add(clustered_from(lts, i as int).to_multiset())
                == clustered_from(lts, 0).to_multiset(),
        decreases pairs@.len() - i,
    {
        let start_ts = pairs[i].0;
        proof {
            assert(pairs@[i as int].1 < s@.len());
            assert(-0x2000_0000_0000_0000 <= start_ts <= 0x2000_0000_0000_0000) by {
                assert(v[pairs@[i as int].1 as int] == s@[pairs@[i as int].1 as int]@);
            }
        }
        let mut j: usize = i + 1;
        while j < pairs.len() && pairs[j].0 <= start_ts + 3600
            invariant
                i < j <= pairs@.len(),
                start_ts == pairs@[i as int].0,
                -0x2000_0000_0000_0000 <= start_ts <= 0x2000_0000_0000_0000,
                lts == pairs@.map_values(|pp: (i64, usize)| pp.0),
                forall|l: int| i < l < j ==> (#[trigger] pairs@[l]).0 <= start_ts + 3600,
            decreases pairs@.len() - j,
        {
            j = j + 1;
        }
        proof {
            lemma_range_end(lts, i as int, j as int);
            assert(clustered_from(lts, i as int) == (if j - i >= 3 {
                lts.subrange(i as int, j as int) + clustered_from(lts, j as int)
            } else {
                clustered_from(lts, j as int)
            })) by {
                reveal(clustered_from);
            }
        }
        if j - i >= 3 {
            let c = build_cluster(s, lab, &pairs, i, j);
            let count = c.commit_count;
            let ghost outp = out@;
            proof {
                assert(c@.commit_count == count);
            }
            out.push((count, c));
            proof {
                reveal(member_ts);
                assert(tcp_views(out@).drop_last() =~= tcp_views(outp));
                assert(tcp_views(out@).last() == c@);
                assert(cluster_contrib(c@, lab) =~= lts.subrange(
                    i as int,
                    j as int,
                ).to_multiset()) by {
                    assert(c@.commits.map_values(|cc: ChainCommitView| cc.timestamp)
                        =~= lts.subrange(i as int, j as int));
                }
                vstd::seq_lib::lemma_multiset_commutative(
                    lts.subrange(i as int, j as int),
                    clustered_from(lts, j as int),
                );
                assert(member_ts(tcp_views(out@), lab).add(
                    clustered_from(lts, j as int).to_multiset(),
                ) =~= clustered_from(lts, 0).to_multiset());
            }
        }
        i = j;
    }
    proof {
        broadcast use vstd::seq_lib::group_to_multiset_ensures;

        assert(clustered_from(lts, pairs@.len() as int) =~= Seq::<i64>::empty()) by {
            reveal(clustered_from);
        }
        assert(Seq::<i64>::empty().to_multiset() =~= Multiset::<i64>::empty());
        assert(member_ts(tcp_views(out@), lab).add(Multiset::<i64>::empty()) =~= member_ts(
            tcp_views(out@),
            lab,
        ));
    }
    out
}

/// One label's clustering pass: append the qualifying greedy runs of
/// that label's time-sorted commits to the accumulator.
#[verifier::rlimit(100)]
fn cluster_label_pass(s: &Vec<EnrichedCommit>, lab: Label, acc: &mut Vec<(u64, TemporalCluster)>)
    requires
        times_bounded(enriched_views(s@)),
    ensures
        old(acc)@.len() <= final(acc)@.len(),
        forall|k: int| 0 <= k < old(acc)@.len() ==> #[trigger] final(acc)@[k] == old(acc)@[k],
        forall|k: int|
            old(acc)@.len() <= k < final(acc)@.len() ==> cluster_wf(
                enriched_views(s@),
                (#[trigger] final(acc)@[k]).1@,
            ) && final(acc)@[k].0 == final(acc)@[k].1@.commit_count
                && final(acc)@[k].1@.cluster_type == lab,
        forall|l: Label|
            l != lab ==> member_ts(tcp_views(final(acc)@), l) == member_ts(
                tcp_views(old(acc)@),
                l,
            ),
        member_ts(tcp_views(final(acc)@), lab) == member_ts(tcp_views(old(acc)@), lab).add(
            clustered_from(label_ts_sorted(enriched_views(s@), lab), 0).to_multiset(),
        ),
{
    let ghost v = enriched_views(s@);
    let ghost acc0 = acc@;
    let pairs = collect_label_pairs(s, lab);
    let mut fresh = greedy_runs(s, lab, &pairs);
    let ghost freshg = fresh@;
    let total: usize = fresh.len();
    let mut t: usize = 0;
    while fresh.len() > 0
        invariant
            total == freshg.len(),
            t == freshg.len() - fresh@.len(),
            0 <= t <= total,
            fresh@ =~= freshg.skip(t as int),
            acc@.len() == acc0.len() + t,
            forall|k: int| 0 <= k < acc0.len() ==> #[trigger] acc@[k] == acc0[k],
            forall|k: int|
                0 <= k < t ==> #[trigger] acc@[acc0.len() + k] == freshg[k],
        decreases fresh@.len(),
    {
        let p = fresh.remove(0);
        acc.push(p);
        proof {
            assert(freshg.skip(t as int).drop_first() =~= freshg.skip(t + 1));
        }
        t = t + 1;
    }
    proof {
        assert forall|n: int| 0 <= n < acc@.len() implies #[trigger] acc@[n] == (acc0
            + freshg)[n] by {
            if n >= acc0.len() {
                assert(acc@[acc0.len() + (n - acc0.len())] == freshg[n - acc0.len()]);
            }
        }
        assert(acc@ =~= acc0 + freshg);
        assert(tcp_views(acc@) =~= tcp_views(acc0) + tcp_views(freshg));
        assert forall|l: Label| l != lab implies member_ts(tcp_views(acc@), l) == member_ts(
            tcp_views(acc0),
            l,
        ) by {
            lemma_member_ts_concat(tcp_views(acc0), tcp_views(freshg), l);
            assert(member_ts(tcp_views(freshg), l) =~= Multiset::empty()) by {
                assert forall|k: int|
                    0 <= k < tcp_views(freshg).len() implies (
                #[trigger] tcp_views(freshg)[k]).cluster_type != l by {
                    assert(freshg[k].1@.cluster_type == lab);
                }
                lemma_member_ts_absent(tcp_views(freshg), l);
            }
            assert(member_ts(tcp_views(acc0), l).add(Multiset::<i64>::empty()) =~= member_ts(
                tcp_views(acc0),
                l,
            ));
        }
        lemma_member_ts_concat(tcp_views(acc0), tcp_views(freshg), lab);
        assert(member_ts(tcp_views(freshg), lab) == clustered_from(
            pairs@.map_values(|pp: (i64, usize)| pp.0),
            0,
        ).to_multiset());
        assert(pairs@.map_values(|pp: (i64, usize)| pp.0) == label_ts_sorted(v, lab));
    }
}

/// Detect temporal clusters: group commits by label, sort each group by
/// time, and greedily cut maximal hour-wide runs, keeping runs of three
/// or more. Clusters are sorted by size descending and truncated by the
/// explicit limit. Without a limit, the member timestamps of each
/// label's clusters are exactly the timestamps the greedy partition of
/// that label's time-sorted commits clusters: every qualifying run is
/// emitted, and no commit is reused across clusters.
#[verifier::rlimit(30)]
pub fn detect_temporal_clusters(s: &Vec<EnrichedCommit>, limit: Option<usize>) -> (r: Vec<
    TemporalCluster,
>)
    requires
        times_bounded(enriched_views(s@)),
    ensures
        forall|k: int|
            0 <= k < r@.len() ==> cluster_wf(enriched_views(s@), (#[trigger] r@[k])@),
        forall|a: int, b: int|
            0 <= a < b < r@.len() ==> (#[trigger] r@[a])@.commit_count >= (
            #[trigger] r@[b])@.commit_count,
        limit matches Some(l) ==> r@.len() <= l,
        limit is None ==> forall|l: Label|
            member_ts(tc_views(r@), l) == clustered_from(
                label_ts_sorted(enriched_views(s@), l),
                0,
            ).to_multiset(),
{
    let ghost v = enriched_views(s@);
    let labels = all_labels();
    let mut acc: Vec<(u64, TemporalCluster)> = Vec::new();
    let mut li: usize = 0;
    proof {
        assert(tcp_views(acc@) =~= Seq::<TemporalClusterView>::empty());
    }
    while li < labels.len()
        invariant
            0 <= li <= labels@.len(),
            v == enriched_views(s@),
            v.len() == s@.len(),
            times_bounded(v),
            labels@ =~= label_order(),
            forall|k: int|
                0 <= k < acc@.len() ==> cluster_wf(v, (#[trigger] acc@[k]).1@) && acc@[k].0
                    == acc@[k].1@.commit_count,
            forall|k: int|
                0 <= k < acc@.len() ==> exists|u: int|
                    0 <= u < li && (#[trigger] acc@[k]).1@.cluster_type == labels@[u],
            forall|u: int|
                0 <= u < li ==> member_ts(tcp_views(acc@), #[trigger] labels@[u])
                    == clustered_from(label_ts_sorted(v, labels@[u]), 0).to_multiset(),
        decreases labels@.len() - li,
    {
        let lab = labels[li];
        let ghost accb = acc@;
        proof {
            assert(member_ts(tcp_views(acc@), lab) =~= Multiset::empty()) by {
                assert forall|k: int|
                    0 <= k < tcp_views(acc@).len() implies (
                #[trigger] tcp_views(acc@)[k]).cluster_type != lab by {
                    let u = choose|u: int|
                        0 <= u < li && (#[trigger] acc@[k]).1@.cluster_type == labels@[u];
                }
                lemma_member_ts_absent(tcp_views(acc@), lab);
            }
        }
        cluster_label_pass(s, lab, &mut acc);
        proof {
            assert forall|k: int| 0 <= k < acc@.len() implies exists|u: int|
                0 <= u < li + 1 && (#[trigger] acc@[k]).1@.cluster_type == labels@[u] by {
                if k < accb.len() {
                    assert(acc@[k] == accb[k]);
                    let u = choose|u: int|
                        0 <= u < li && (#[trigger] accb[k]).1@.cluster_type == labels@[u];
                    assert(acc@[k].1@.cluster_type == labels@[u]);
                } else {
                    assert(acc@[k].1@.cluster_type == labels@[li as int]);
                }
            }
            assert(member_ts(tcp_views(accb), lab).add(
                clustered_from(label_ts_sorted(v, lab), 0).to_multiset(),
            ) =~= clustered_from(label_ts_sorted(v, lab), 0).to_multiset());
            assert forall|u: int|
                0 <= u < li + 1 implies member_ts(tcp_views(acc@), #[trigger] labels@[u])
                == clustered_from(label_ts_sorted(v, labels@[u]), 0).to_multiset() by {
                if u < li {
                    assert(labels@[u] != lab);
                    assert(member_ts(tcp_views(acc@), labels@[u]) == member_ts(
                        tcp_views(accb),
                        labels@[u],
                    ));
                }
            }
        }
        li = li + 1;
    }
    let ghost apre = acc@;
    crate::sorting::sort_pairs_desc(&mut acc);
    proof {
        assert forall|k: int| 0 <= k < acc@.len() implies cluster_wf(
            v,
            (#[trigger] acc@[k]).1@,
        ) && acc@[k].0 == acc@[k].1@.commit_count by {
            crate::sorting::lemma_permuted_membership(apre, acc@, k);
        }
        crate::sorting::lemma_map_values_multiset(apre, acc@, |p: (u64, TemporalCluster)| p.1@);
        assert forall|u: int|
            0 <= u < labels@.len() implies member_ts(tcp_views(acc@), #[trigger] labels@[u])
            == clustered_from(label_ts_sorted(v, labels@[u]), 0).to_multiset() by {
            lemma_member_ts_perm(tcp_views(apre), tcp_views(acc@), labels@[u]);
        }
    }
    let mut out: Vec<TemporalCluster> = Vec::new();
    let ghost sorted = acc@;
    let total: usize = acc.len();
    let mut q: usize = 0;
    while acc.len() > 0
        invariant
            total == sorted.len(),
            q == sorted.len() - acc@.len(),
            0 <= q <= total,
            acc@ =~= sorted.skip(q as int),
            out@.len() == q,
            forall|k: int| 0 <= k < q ==> out@[k] == (#[trigger] sorted[k]).1,
            v == enriched_views(s@),
            labels@ =~= label_order(),
            forall|k: int|
                0 <= k < sorted.len() ==> cluster_wf(v, (#[trigger] sorted[k]).1@)
                    && sorted[k].0 == sorted[k].1@.commit_count,
            forall|a: int, b: int|
                0 <= a < b < sorted.len() ==> (#[trigger] sorted[a]).0 >= (
                #[trigger] sorted[b]).0,
            forall|u: int|
                0 <= u < labels@.len() ==> member_ts(tcp_views(sorted), #[trigger] labels@[u])
                    == clustered_from(label_ts_sorted(v, labels@[u]), 0).to_multiset(),
        decreases acc@.len(),
    {
        let p = acc.remove(0);
        out.push(p.1);
        proof {
            assert(sorted.skip(q as int).drop_first() =~= sorted.skip(q + 1));
        }
        q = q + 1;
    }
    proof {
        assert(forall|k: int| 0 <= k < out@.len() ==> out@[k] == (#[trigger] sorted[k]).1);
        assert forall|k: int| 0 <= k < out@.len() implies cluster_wf(
            v,
            (#[trigger] out@[k])@,
        ) && out@[k]@.commit_count == sorted[k].0 by {
            assert(out@[k] == sorted[k].1);
        }
        if limit is None {
            assert(tc_views(out@) =~= tcp_views(sorted));
            assert forall|l: Label| member_ts(tc_views(out@), l) == clustered_from(
                label_ts_sorted(v, l),
                0,
            ).to_multiset() by {
                lemma_label_order_total(l);
                let u = choose|u: int| 0 <= u < label_order().len() && label_order()[u] == l;
                assert(labels@[u] == l);
                assert(member_ts(tcp_views(sorted), labels@[u]) == clustered_from(
                    label_ts_sorted(v, labels@[u]),
                    0,
                ).to_multiset());
                assert(member_ts(tc_views(out@), l) =~= member_ts(tcp_views(sorted), l));
            }
        }
    }
    match limit {
        None => {},
        Some(l) => {
            out.truncate(l);
        },
    }
    out
}

/// Scan for the nearest qualifying older commit of a fix.
fn scan_link(s: &Vec<EnrichedCommit>, i: usize) -> (r: Option<usize>)
    requires
        i < s@.len(),
    ensures
        r matches Some(g) ==> link_scan(enriched_views(s@), i as int, 1) == Some(g as int) && 1
            <= g <= 5 && i + g < s@.len(),
        r is None ==> link_scan(enriched_views(s@), i as int, 1) is None,
{
    let ghost v = enriched_views(s@);
    let len = s.len();
    let mut g: usize = 1;
    while g <= 5 && g < len - i
        invariant
            1 <= g <= 6,
            i < s@.len(),
            len == s@.len(),
            v == enriched_views(s@),
            v.len() == s@.len(),
            link_scan(v, i as int, 1) == link_scan(v, i as int, g as int),
        decreases 6 - g,
    {
        let older = &s[i + g];
        if older.label == Label::Feat || older.label == Label::Refactor {
            let shared = shared_files(&older.files, &s[i].files);
            if shared.len() > 0 {
                proof {
                    assert(v[i + g] == s@[i + g as int]@);
                    assert(v[i as int] == s@[i as int]@);
                    assert(link_candidate(v, i as int, g as int));
                }
                return Some(g);
            }
        }
        proof {
            assert(v[i + g] == s@[i + g as int]@);
            assert(v[i as int] == s@[i as int]@);
            assert(!link_candidate(v, i as int, g as int));
        }
        g = g + 1;
    }
    None
}

/// Detect fix-after-feature and fix-after-refactor links: for each fix,
/// the nearest older feature or refactor within five positions that
/// shares a touched file. Feature-origin links are also recorded in the
/// legacy list, truncated by `limit`.
pub fn detect_fix_links(s: &Vec<EnrichedCommit>, limit: Option<usize>) -> (r: (
    Vec<FixAfterFeat>,
    Vec<Signal>,
))
    ensures
        signal_views(r.1@) == signals_upto(enriched_views(s@), s@.len() as int),
        ({
            let full = faf_upto(enriched_views(s@), s@.len() as int);
            match limit {
                None => faf_views(r.0@) == full,
                Some(l) => faf_views(r.0@) == (if l < full.len() {
                    full.take(l as int)
                } else {
                    full
                }),
            }
        }),
{
    let ghost v = enriched_views(s@);
    let mut fafs: Vec<FixAfterFeat> = Vec::new();
    let mut sigs: Vec<Signal> = Vec::new();
    let mut i: usize = 0;
    while i < s.len()
        invariant
            0 <= i <= s@.len(),
            v == enriched_views(s@),
            v.len() == s@.len(),
            signal_views(sigs@) =~= signals_upto(v, i as int),
            faf_views(fafs@) =~= faf_upto(v, i as int),
        decreases s@.len() - i,
    {
        proof {
            assert(v[i as int] == s@[i as int]@);
        }
        if s[i].label == Label::Fix {
            match scan_link(s, i) {
                Some(g) => {
                    proof {
                        lemma_link_scan_some(v, i as int, 1, g as int);
                        assert(v[i + g as int] == s@[i + g as int]@);
                    }
                    let older = &s[i + g];
                    let shared = shared_files(&older.files, &s[i].files);
                    let kind = if older.label == Label::Feat {
                        SignalKind::FixAfterFeat
                    } else {
                        SignalKind::FixAfterRefactor
                    };
                    let num: u64 = if shared.len() < 5 {
                        shared.len() as u64
                    } else {
                        5
                    };
                    let mut message = String::from_str("fix ");
                    message.append(s[i].short_id.as_str());
                    message.append(" likely caused by ");
                    message.append(older.label.as_str());
                    message.append(" ");
                    message.append(older.short_id.as_str());
                    let mut commits: Vec<String> = Vec::new();
                    commits.push(older.short_id.clone());
                    commits.push(s[i].short_id.clone());
                    if older.label == Label::Feat {
                        let faf = FixAfterFeat {
                            feat_commit: older.short_id.clone(),
                            feat_date: older.date.clone(),
                            feat_message: older.message.clone(),
                            fix_commit: s[i].short_id.clone(),
                            fix_date: s[i].date.clone(),
                            fix_message: s[i].message.clone(),
                            gap_commits: g - 1,
                            shared_files: crate::text::clone_strings(&shared),
                        };
                        fafs.push(faf);
                        proof {
                            assert(faf_views(fafs@) =~= faf_views(fafs@.drop_last()).push(
                                fafs@.last()@,
                            ));
                            assert(fafs@.last()@ == mk_faf(v, i as int, g as int));
                        }
                    }
                    let sig = Signal {
                        kind,
                        severity_num: num,
                        severity_den: 5 * (g as u64),
                        message,
                        commits,
                        files: shared,
                    };
                    sigs.push(sig);
                    proof {
                        assert(signal_views(sigs@) =~= signal_views(sigs@.drop_last()).push(
                            sigs@.last()@,
                        ));
                        assert(str_views(sigs@.last().commits@) =~= seq![
                            v[i + g as int].short_id,
                            v[i as int].short_id,
                        ]);
                        assert(sigs@.last()@ == mk_signal(v, i as int, g as int));
                    }
                },
                None => {},
            }
        }
        i = i + 1;
    }
    match limit {
        None => {},
        Some(l) => {
            fafs.truncate(l);
            proof {
                let full = faf_upto(v, v.len() as int);
                if l < full.len() {
                    assert(faf_views(fafs@) =~= full.take(l as int));
                } else {
                    assert(faf_views(fafs@) =~= full);
                }
            }
        },
    }
    (fafs, sigs)
}

/// The total number of diff entries across walked commits.
pub open spec fn total_delta_entries(s: Seq<CommitView>) -> int
    decreases s.len(),
{
    if s.len() == 0 {
        0
    } else {
        total_delta_entries(s.drop_last()) + s.last().files.len()
    }
}

/// Walked entry totals are never negative.
pub proof fn lemma_tde_nonneg_pub(s: Seq<CommitView>)
    ensures
        total_delta_entries(s) >= 0,
    decreases s.len(),
{
    if s.len() > 0 {
        lemma_tde_nonneg_pub(s.drop_last());
    }
}

/// Each walked commit's file count is part of the entry total.
pub proof fn lemma_entry_bound_cv_pub(s: Seq<CommitView>, i: int)
    requires
        0 <= i < s.len(),
    ensures
        s[i].files.len() <= total_delta_entries(s),
    decreases s.len(),
{
    if i == s.len() - 1 {
        lemma_tde_nonneg_pub(s.drop_last());
    } else {
        lemma_entry_bound_cv_pub(s.drop_last(), i);
    }
}

/// The bounds the pattern pass asks of its input: per-file line counts,
/// the total number of diff entries, and timestamps all fit comfortably.
pub open spec fn records_bounded(s: Seq<CommitView>) -> bool {
    &&& deltas_bounded(s)
    &&& total_delta_entries(s) <= 0x4000_0000
    &&& s.len() <= 0x4000_0000
    &&& forall|i: int|
        0 <= i < s.len() ==> -0x2000_0000_0000_0000 <= (#[trigger] s[i]).timestamp
            <= 0x2000_0000_0000_0000
}

/// Enrichment preserves the shape bounds the detectors need.
pub proof fn lemma_enrich_wf(s: Seq<CommitView>)
    requires
        records_bounded(s),
    ensures
        enriched_wf(spec_enrich(s)),
        churn_bounded(spec_enrich(s)),
        total_entries(spec_enrich(s)) == total_delta_entries(s),
        times_bounded(spec_enrich(s)),
        spec_enrich(s).len() == s.len(),
    decreases s.len(),
{
    if s.len() > 0 {
        assert(records_bounded(s.drop_last())) by {
            assert(forall|i: int|
                0 <= i < s.len() - 1 ==> #[trigger] s.drop_last()[i] == s[i]);
            assert(total_delta_entries(s) == total_delta_entries(s.drop_last())
                + s.last().files.len());
            assert(s.last().files.len() >= 0);
        }
        lemma_enrich_wf(s.drop_last());
        assert(spec_enrich(s).drop_last() =~= spec_enrich(s.drop_last()));
        assert(spec_enrich(s).last() == spec_enrich_one(s.last()));
        assert(total_entries(spec_enrich(s)) == total_entries(spec_enrich(s).drop_last())
            + spec_enrich(s).last().files.len());
    }
}

/// The pattern and signal report: the four detector outputs over one
/// enriched pass, plus how many commits were analysed.
pub struct PatternsOutput {
    /// Feature-origin links, legacy shape.
    pub fix_after_feat: Vec<FixAfterFeat>,
    /// Files repeatedly edited with heavy churn.
    pub multi_edit_chains: Vec<MultiEditChain>,
    /// Directories repeatedly edited.
    pub directory_chains: Vec<DirectoryChain>,
    /// Same-label commit bursts.
    pub temporal_clusters: Vec<TemporalCluster>,
    /// How many commits the pass analysed.
    pub total_commits_analyzed: usize,
    /// All causal signals.
    pub signals: Vec<Signal>,
}

/// Run every pattern detector over one walked, filtered commit list.
/// All detectors are independent passes over the same enriched input.
pub fn patterns_run(records: &Vec<CommitRecord>, limit: Option<usize>) -> (r: PatternsOutput)
    requires
        records_bounded(commit_views(records@)),
    ensures
        r.total_commits_analyzed == records@.len(),
        signal_views(r.signals@) == signals_upto(
            spec_enrich(commit_views(records@)),
            records@.len() as int,
        ),
        ({
            let full = faf_upto(spec_enrich(commit_views(records@)), records@.len() as int);
            match limit {
                None => faf_views(r.fix_after_feat@) == full,
                Some(l) => faf_views(r.fix_after_feat@) == (if l < full.len() {
                    full.take(l as int)
                } else {
                    full
                }),
            }
        }),
        exists|full: Seq<MultiEditChainView>|
            chains_property(spec_enrich(commit_views(records@)), full) && mec_views(
                r.multi_edit_chains@,
            ) == (if chain_cap(limit) < full.len() {
                full.take(chain_cap(limit))
            } else {
                full
            }),
        exists|full: Seq<DirectoryChainView>|
            dchains_property(spec_enrich(commit_views(records@)), full) && dc_views(
                r.directory_chains@,
            ) == (if chain_cap(limit) < full.len() {
                full.take(chain_cap(limit))
            } else {
                full
            }),
        forall|k: int|
            0 <= k < r.temporal_clusters@.len() ==> cluster_wf(
                spec_enrich(commit_views(records@)),
                (#[trigger] r.temporal_clusters@[k])@,
            ),
        forall|a: int, b: int|
            0 <= a < b < r.temporal_clusters@.len() ==> (
            #[trigger] r.temporal_clusters@[a])@.commit_count >= (
            #[trigger] r.temporal_clusters@[b])@.commit_count,
        limit matches Some(l) ==> r.temporal_clusters@.len() <= l,
        limit is None ==> forall|l: Label|
            member_ts(tc_views(r.temporal_clusters@), l) == clustered_from(
                label_ts_sorted(spec_enrich(commit_views(records@)), l),
                0,
            ).to_multiset(),
{
    proof {
        lemma_enrich_wf(commit_views(records@));
    }
    let enriched = build_enriched(records);
    let (fix_after_feat, signals) = detect_fix_links(&enriched, limit);
    let multi_edit_chains = detect_multi_edit_chains(&enriched, limit);
    let directory_chains = detect_directory_chains(&enriched, limit);
    let temporal_clusters = detect_temporal_clusters(&enriched, limit);
    let total_commits_analyzed = records.len();
    PatternsOutput {
        fix_after_feat,
        multi_edit_chains,
        directory_chains,
        temporal_clusters,
        total_commits_analyzed,
        signals,
    }
}

} // verus!
