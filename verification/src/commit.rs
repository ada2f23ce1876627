//! The commit record handed in by the repository walker, the
//! time-window filter over the newest-first stream, and the derived
//! short identifier and date renderings.
use vstd::prelude::*;

verus! {

/// One file of a commit's diff: the new-file path with its line counts.
pub struct FileDelta {
    /// The path of the file after the commit.
    pub path: String,
    /// Lines added to this file by the commit.
    pub additions: u64,
    /// Lines deleted from this file by the commit.
    pub deletions: u64,
}

/// The mathematical content of a `FileDelta`.
pub struct FileDeltaView {
    /// The path characters.
    pub path: Seq<char>,
    /// Lines added.
    pub additions: u64,
    /// Lines deleted.
    pub deletions: u64,
}

impl View for FileDelta {
    type V = FileDeltaView;

    open spec fn view(&self) -> FileDeltaView {
        FileDeltaView { path: self.path@, additions: self.additions, deletions: self.deletions }
    }
}

impl FileDelta {
    /// An equal copy.
    pub fn duplicate(&self) -> (r: FileDelta)
        ensures
            r@ == self@,
    {
        FileDelta { path: self.path.clone(), additions: self.additions, deletions: self.deletions }
    }
}

/// The views of a list of file deltas.
pub open spec fn delta_views(s: Seq<FileDelta>) -> Seq<FileDeltaView> {
    s.map_values(|f: FileDelta| f@)
}

/// One commit as produced by the walker: identity, time, author,
/// message, parent count and the files its diff touches.
pub struct CommitRecord {
    /// The full commit id, as a hex string.
    pub id: String,
    /// The commit time, in seconds since the epoch.
    pub timestamp: i64,
    /// The author's name, already canonicalised through any identity
    /// mapping by the caller.
    pub author_name: String,
    /// The author's email, canonicalised the same way.
    pub author_email: String,
    /// The full commit message.
    pub message: String,
    /// How many parents the commit has.
    pub parent_count: usize,
    /// The files the commit's diff touches, with per-file line counts.
    pub files: Vec<FileDelta>,
}

/// The mathematical content of a `CommitRecord`.
pub struct CommitView {
    /// The full id characters.
    pub id: Seq<char>,
    /// Seconds since the epoch.
    pub timestamp: i64,
    /// The canonical author name.
    pub author_name: Seq<char>,
    /// The canonical author email.
    pub author_email: Seq<char>,
    /// The message characters.
    pub message: Seq<char>,
    /// The parent count.
    pub parent_count: nat,
    /// The views of the touched files.
    pub files: Seq<FileDeltaView>,
}

impl View for CommitRecord {
    type V = CommitView;

    open spec fn view(&self) -> CommitView {
        CommitView {
            id: self.id@,
            timestamp: self.timestamp,
            author_name: self.author_name@,
            author_email: self.author_email@,
            message: self.message@,
            parent_count: self.parent_count as nat,
            files: delta_views(self.files@),
        }
    }
}

/// The views of a list of commit records.
pub open spec fn commit_views(s: Seq<CommitRecord>) -> Seq<CommitView> {
    s.map_values(|c: CommitRecord| c@)
}

impl CommitRecord {
    /// An equal copy.
    pub fn duplicate(&self) -> (r: CommitRecord)
        ensures
            r@ == self@,
    {
        let mut files: Vec<FileDelta> = Vec::new();
        let mut i: usize = 0;
        while i < self.files.len()
            invariant
                0 <= i <= self.files@.len(),
                delta_views(files@) =~= delta_views(self.files@.take(i as int)),
                files@.len() == i,
            decreases self.files@.len() - i,
        {
            files.push(self.files[i].duplicate());
            proof {
                assert(delta_views(files@) =~= delta_views(files@.drop_last()).push(
                    files@.last()@,
                ));
                assert(delta_views(self.files@.take(i + 1)) =~= delta_views(
                    self.files@.take(i as int),
                ).push(self.files@[i as int]@));
            }
            i = i + 1;
        }
        let r = CommitRecord {
            id: self.id.clone(),
            timestamp: self.timestamp,
            author_name: self.author_name.clone(),
            author_email: self.author_email.clone(),
            message: self.message.clone(),
            parent_count: self.parent_count,
            files,
        };
        proof {
            assert(delta_views(self.files@.take(self.files@.len() as int)) =~= delta_views(
                self.files@,
            ));
        }
        r
    }
}

/// The short form of a commit id: its first seven characters, or the
/// whole id when it is shorter.
pub open spec fn spec_short_id(id: Seq<char>) -> Seq<char> {
    if id.len() >= 7 {
        id.take(7)
    } else {
        id
    }
}

/// The short hash of a commit id.
pub fn short_id(id: &str) -> (r: String)
    ensures
        r@ == spec_short_id(id@),
{
    let len = id.unicode_len();
    if len >= 7 {
        id.substring_char(0, 7).to_owned()
    } else {
        id.to_owned()
    }
}

/// The time-window filter over the newest-first stream: commits newer
/// than `until` are skipped, and the walk stops at the first commit
/// older than `since`, because no older commit can satisfy the bound on
/// a time-sorted stream.
pub open spec fn spec_filter_range(
    s: Seq<CommitView>,
    since: Option<i64>,
    until: Option<i64>,
) -> Seq<CommitView>
    decreases s.len(),
{
    if s.len() == 0 {
        Seq::empty()
    } else {
        let c = s[0];
        if until matches Some(u) && c.timestamp > u {
            spec_filter_range(s.drop_first(), since, until)
        } else if since matches Some(l) && c.timestamp < l {
            Seq::empty()
        } else {
            seq![c] + spec_filter_range(s.drop_first(), since, until)
        }
    }
}

/// Filter a materialised newest-first stream by the optional bounds.
pub fn filter_range(records: &Vec<CommitRecord>, since: Option<i64>, until: Option<i64>) -> (r:
    Vec<CommitRecord>)
    ensures
        commit_views(r@) == spec_filter_range(commit_views(records@), since, until),
{
    let ghost all = commit_views(records@);
    let mut out: Vec<CommitRecord> = Vec::new();
    let mut i: usize = 0;
    let mut stopped = false;
    proof {
        assert(all.skip(0) =~= all);
    }
    while i < records.len() && !stopped
        invariant
            0 <= i <= records@.len(),
            all == commit_views(records@),
            all.len() == records@.len(),
            stopped ==> commit_views(out@) == spec_filter_range(all, since, until),
            !stopped ==> spec_filter_range(all, since, until) == commit_views(out@)
                + spec_filter_range(all.skip(i as int), since, until),
        decreases records@.len() - i + (if stopped {
            0int
        } else {
            1int
        }),
    {
        let skip_new = match until {
            Some(u) => records[i].timestamp > u,
            None => false,
        };
        let stop_old = match since {
            Some(l) => records[i].timestamp < l,
            None => false,
        };
        proof {
            assert(all.skip(i as int)[0] == all[i as int]);
            assert(all[i as int] == records@[i as int]@);
            assert(all.skip(i as int).drop_first() =~= all.skip(i + 1));
        }
        if skip_new {
            i = i + 1;
        } else if stop_old {
            stopped = true;
        } else {
            out.push(records[i].duplicate());
            proof {
                assert(commit_views(out@) =~= commit_views(out@.drop_last()) + seq![
                    all[i as int],
                ]);
                assert(commit_views(out@.drop_last()) + (seq![all[i as int]]
                    + spec_filter_range(all.skip(i + 1), since, until)) =~= commit_views(out@)
                    + spec_filter_range(all.skip(i + 1), since, until));
            }
            i = i + 1;
        }
    }
    proof {
        if !stopped {
            assert(all.skip(records@.len() as int) =~= Seq::<CommitView>::empty());
        }
    }
    out
}

/// The `YYYY-MM-DD` rendering of a commit timestamp, as the reports
/// print it.
///
/// Relies on `chrono::DateTime::from_timestamp` and `format`: the
/// rendering depends on the timestamp alone, with the epoch date
/// substituted for a timestamp outside chrono's range, so the call is a
/// pure function of its argument.
#[verifier::external_body]
pub fn format_date(ts: i64) -> (r: String)
    ensures
        r@ == date_str_of(ts as int),
{
    chrono::DateTime::from_timestamp(ts, 0).unwrap_or_default().format("%Y-%m-%d").to_string()
}

/// What `format_date` renders for a timestamp.
pub uninterp spec fn date_str_of(ts: int) -> Seq<char>;

/// The `YYYY-MM-DDTHH:MM:SSZ` rendering of a commit timestamp, used for
/// cluster boundaries.
///
/// Relies on `chrono::DateTime::from_timestamp` and `format`: the
/// rendering depends on the timestamp alone, with the epoch substituted
/// for a timestamp outside chrono's range.
#[verifier::external_body]
pub fn format_datetime(ts: i64) -> (r: String)
    ensures
        r@ == datetime_str_of(ts as int),
{
    chrono::DateTime::from_timestamp(ts, 0)
        .unwrap_or_default()
        .format("%Y-%m-%dT%H:%M:%SZ")
        .to_string()
}

/// What `format_datetime` renders for a timestamp.
pub uninterp spec fn datetime_str_of(ts: int) -> Seq<char>;

} // verus!
