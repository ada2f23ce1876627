//! The message classifier: maps a commit message and parent count to one
//! label of a closed taxonomy, through an ordered rule chain evaluated on
//! the first line only, case-insensitively.
use vstd::prelude::*;
use crate::text::{
    fold_lower, first_line, is_prefix, contains_seq, is_digit, is_space, space_char,
    first_line_chars, lower_chars, has_prefix, match_at, contains_pat, digit_char,
};

verus! {

/// The closed classification taxonomy. A commit has exactly one label per
/// classification run.
#[derive(Clone, Copy, Debug, PartialEq, Eq, Structural)]
pub enum Label {
    Merge,
    Revert,
    Release,
    Feat,
    Fix,
    Chore,
    Docs,
    Refactor,
    Test,
    Style,
    Perf,
    Ci,
    Build,
    Other,
}

/// The lower-case name of a label, as it appears in reports.
pub open spec fn label_str(l: Label) -> Seq<char> {
    match l {
        Label::Merge => "merge"@,
        Label::Revert => "revert"@,
        Label::Release => "release"@,
        Label::Feat => "feat"@,
        Label::Fix => "fix"@,
        Label::Chore => "chore"@,
        Label::Docs => "docs"@,
        Label::Refactor => "refactor"@,
        Label::Test => "test"@,
        Label::Style => "style"@,
        Label::Perf => "perf"@,
        Label::Ci => "ci"@,
        Label::Build => "build"@,
        Label::Other => "other"@,
    }
}

impl Label {
    /// The report name of this label.
    pub fn as_str(&self) -> (r: &'static str)
        ensures
            r@ == label_str(*self),
    {
        match self {
            Label::Merge => "merge",
            Label::Revert => "revert",
            Label::Release => "release",
            Label::Feat => "feat",
            Label::Fix => "fix",
            Label::Chore => "chore",
            Label::Docs => "docs",
            Label::Refactor => "refactor",
            Label::Test => "test",
            Label::Style => "style",
            Label::Perf => "perf",
            Label::Ci => "ci",
            Label::Build => "build",
            Label::Other => "other",
        }
    }
}

/// A character that may close a conventional-commit prefix: `:`, `(`, `!`
/// or whitespace. This excludes false matches such as `fixing:`.
pub open spec fn is_separator(c: char) -> bool {
    c == ':' || c == '(' || c == '!' || is_space(c)
}

/// The lowered first line starts with the conventional type `p` and the
/// prefix is immediately followed by end-of-line or a separator.
pub open spec fn conv_match(l: Seq<char>, p: Seq<char>) -> bool {
    is_prefix(l, p) && (l.len() == p.len() || is_separator(l[p.len() as int]))
}

/// The lowered first line announces a revert: git's default
/// `revert "..."` form, or the conventional `revert:` / `revert(` forms.
pub open spec fn is_revert(l: Seq<char>) -> bool {
    is_prefix(l, "revert \""@) || is_prefix(l, "revert:"@) || is_prefix(l, "revert("@)
}

/// The lowered first line announces a release: `v` followed immediately
/// by a digit, or `release` / `bump version` anywhere in the line.
pub open spec fn is_release(l: Seq<char>) -> bool {
    (l.len() >= 2 && l[0] == 'v' && is_digit(l[1])) || contains_seq(l, "release"@)
        || contains_seq(l, "bump version"@)
}

/// The conventional-prefix step of the chain: the first matching type,
/// or `None` when none matches.
pub open spec fn conv_label(l: Seq<char>) -> Option<Label> {
    if conv_match(l, "feat"@) {
        Some(Label::Feat)
    } else if conv_match(l, "fix"@) {
        Some(Label::Fix)
    } else if conv_match(l, "chore"@) {
        Some(Label::Chore)
    } else if conv_match(l, "docs"@) {
        Some(Label::Docs)
    } else if conv_match(l, "refactor"@) {
        Some(Label::Refactor)
    } else if conv_match(l, "test"@) {
        Some(Label::Test)
    } else if conv_match(l, "style"@) {
        Some(Label::Style)
    } else if conv_match(l, "perf"@) {
        Some(Label::Perf)
    } else if conv_match(l, "ci"@) {
        Some(Label::Ci)
    } else if conv_match(l, "build"@) {
        Some(Label::Build)
    } else {
        None
    }
}

/// The natural-language fallback of the chain: past-tense and compound
/// forms at line start, and auto-close phrases anywhere in the line.
pub open spec fn nl_label(l: Seq<char>) -> Option<Label> {
    if is_prefix(l, "fixed "@) || is_prefix(l, "fixed:"@) {
        Some(Label::Fix)
    } else if is_prefix(l, "added "@) || is_prefix(l, "added:"@) {
        Some(Label::Feat)
    } else if is_prefix(l, "bugfix"@) || is_prefix(l, "bug fix"@) || is_prefix(l, "hotfix"@) {
        Some(Label::Fix)
    } else if contains_seq(l, "fixes #"@) || contains_seq(l, "fixed #"@) || contains_seq(
        l,
        "closes #"@,
    ) {
        Some(Label::Fix)
    } else {
        Some(Label::Other)
    }
}

/// The full message-only rule chain, in priority order:
/// revert, release, conventional prefix, natural-language heuristics,
/// `other`. A pure function of the message.
#[verifier::opaque]
pub open spec fn spec_classify(msg: Seq<char>) -> Label {
    let l = fold_lower(first_line(msg));
    if is_revert(l) {
        Label::Revert
    } else if is_release(l) {
        Label::Release
    } else if conv_label(l) is Some {
        conv_label(l)->0
    } else if nl_label(l) is Some && nl_label(l)->0 != Label::Other {
        nl_label(l)->0
    } else {
        Label::Other
    }
}

/// The chain with parent count: a merge (two or more parents) always wins
/// regardless of message content.
pub open spec fn spec_classify_parents(msg: Seq<char>, parent_count: nat) -> Label {
    if parent_count >= 2 {
        Label::Merge
    } else {
        spec_classify(msg)
    }
}

/// One conventional-prefix test: prefix plus boundary.
fn conv_one(l: &Vec<char>, p: &str) -> (r: bool)
    ensures
        r == conv_match(l@, p@),
{
    if !match_at(l, p, 0) {
        return false;
    }
    let plen = p.unicode_len();
    if l.len() == plen {
        true
    } else {
        let c = l[plen];
        c == ':' || c == '(' || c == '!' || space_char(c)
    }
}

/// Classify a commit message alone, without parent information.
///
/// The chain, evaluated on the lowered first line: revert, release,
/// conventional prefix with strict boundary, natural-language heuristics,
/// and finally `other`.
pub fn classify_commit(message: &str) -> (r: Label)
    ensures
        r == spec_classify(message@),
{
    proof {
        reveal(spec_classify);
    }
    let fl = first_line_chars(message);
    let l = lower_chars(&fl);
    if has_prefix(&l, "revert \"") || has_prefix(&l, "revert:") || has_prefix(&l, "revert(") {
        return Label::Revert;
    }
    let release = (l.len() >= 2 && l[0] == 'v' && digit_char(l[1])) || contains_pat(&l, "release")
        || contains_pat(&l, "bump version");
    if release {
        return Label::Release;
    }
    if conv_one(&l, "feat") {
        return Label::Feat;
    }
    if conv_one(&l, "fix") {
        return Label::Fix;
    }
    if conv_one(&l, "chore") {
        return Label::Chore;
    }
    if conv_one(&l, "docs") {
        return Label::Docs;
    }
    if conv_one(&l, "refactor") {
        return Label::Refactor;
    }
    if conv_one(&l, "test") {
        return Label::Test;
    }
    if conv_one(&l, "style") {
        return Label::Style;
    }
    if conv_one(&l, "perf") {
        return Label::Perf;
    }
    if conv_one(&l, "ci") {
        return Label::Ci;
    }
    if conv_one(&l, "build") {
        return Label::Build;
    }
    if has_prefix(&l, "fixed ") || has_prefix(&l, "fixed:") {
        return Label::Fix;
    }
    if has_prefix(&l, "added ") || has_prefix(&l, "added:") {
        return Label::Feat;
    }
    if has_prefix(&l, "bugfix") || has_prefix(&l, "bug fix") || has_prefix(&l, "hotfix") {
        return Label::Fix;
    }
    if contains_pat(&l, "fixes #") || contains_pat(&l, "fixed #") || contains_pat(&l, "closes #") {
        return Label::Fix;
    }
    Label::Other
}

/// Classify a commit by message and parent count: merges always win.
pub fn classify_commit_with_parents(message: &str, parent_count: usize) -> (r: Label)
    ensures
        r == spec_classify_parents(message@, parent_count as nat),
{
    if parent_count >= 2 {
        return Label::Merge;
    }
    classify_commit(message)
}

/// The chain with an optional external label: it is consulted only
/// when the rule chain yields `other`, and its absence degrades to
/// `other`. The caller applies the confidence threshold first.
pub open spec fn spec_classify_ml(msg: Seq<char>, parent_count: nat, ml_label: Option<Label>)
    -> Label {
    let rule = spec_classify_parents(msg, parent_count);
    if rule != Label::Other {
        rule
    } else {
        match ml_label {
            Some(l) => l,
            None => Label::Other,
        }
    }
}

/// Classify with an optional external text-classifier label, used only
/// when the rule chain yields `other`.
pub fn classify_commit_with_ml(message: &str, parent_count: usize, ml_label: Option<Label>) -> (r:
    Label)
    ensures
        r == spec_classify_ml(message@, parent_count as nat, ml_label),
{
    let rule = classify_commit_with_parents(message, parent_count);
    if rule != Label::Other {
        return rule;
    }
    match ml_label {
        Some(l) => l,
        None => Label::Other,
    }
}

/// Rule-chain classification when no external classifier is available.
pub fn classify_commit_with_ml_disabled(message: &str, parent_count: usize) -> (r: Label)
    ensures
        r == spec_classify_parents(message@, parent_count as nat),
{
    classify_commit_with_parents(message, parent_count)
}

/// Pad a token-id sequence with zeros to `len`, or truncate it when it is
/// longer, as the external classifier's fixed input window requires.
pub fn pad_or_truncate(data: &[u32], len: usize) -> (r: Vec<u32>)
    ensures
        r@.len() == len,
        forall|i: int| 0 <= i < len && i < data@.len() ==> r@[i] == data@[i],
        forall|i: int| data@.len() <= i < len ==> r@[i] == 0,
{
    let mut r: Vec<u32> = Vec::new();
    let take = if data.len() < len {
        data.len()
    } else {
        len
    };
    let mut i: usize = 0;
    while i < take
        invariant
            0 <= i <= take,
            take <= data@.len(),
            take <= len,
            r@.len() == i,
            forall|k: int| 0 <= k < i ==> r@[k] == data@[k],
        decreases take - i,
    {
        r.push(data[i]);
        i = i + 1;
    }
    while r.len() < len
        invariant
            take <= r@.len() <= len,
            forall|k: int| 0 <= k < take ==> r@[k] == data@[k],
            forall|k: int| take <= k < r@.len() ==> r@[k] == 0,
            take == if data@.len() < len {
                data@.len() as int
            } else {
                len as int
            },
        decreases len - r@.len(),
    {
        r.push(0);
    }
    r
}

} // verus!
