//! Ticket-reference extraction from the first line of a commit message:
//! bracketed JIRA-style tokens first, then bare JIRA-style tokens with
//! word boundaries, then auto-close phrases, then bare issue numbers.
use vstd::prelude::*;
use crate::text::{
    is_upper, is_digit, is_alnum, upper_end, digit_end, char_pos, pat_pos, fold_lower, first_line,
    contains_seq, matches_at, str_chars, first_line_str, first_line_chars, lower_chars, scan_upper,
    scan_digits, find_char, find_pat, upper_char, alnum_char,
};

verus! {

/// Inside an uppercase run no token can begin: every such position is
/// preceded by an uppercase letter, which breaks the word boundary.
pub proof fn lemma_jira_inner(s: Seq<char>, i: int, u: int)
    requires
        0 <= i,
        i < u <= s.len(),
        forall|j: int| i <= j < u ==> is_upper(s[j]),
    ensures
        forall|k: int| i < k < u ==> !jira_at(s, k),
{
    assert forall|k: int| i < k < u implies !jira_at(s, k) by {
        reveal(jira_at);
        assert(is_upper(s[k - 1]));
    }
}

/// A whole string of JIRA shape: two or more uppercase letters, a dash,
/// one or more digits, and nothing else.
pub open spec fn jira_shape(s: Seq<char>) -> bool {
    let u = upper_end(s, 0);
    u >= 2 && u < s.len() && s[u] == '-' && s.len() >= u + 2 && digit_end(s, u + 1) == s.len()
}

/// A JIRA-style token begins at position `i` of `s`, with a word
/// boundary on each side: not preceded by a letter, digit or dash, and
/// not followed by a letter or digit.
#[verifier::opaque]
pub open spec fn jira_at(s: Seq<char>, i: int) -> bool {
    &&& 0 <= i < s.len()
    &&& is_upper(s[i])
    &&& (i == 0 || !(is_alnum(s[i - 1]) || s[i - 1] == '-'))
    &&& {
        let u = upper_end(s, i);
        &&& u - i >= 2
        &&& u < s.len()
        &&& s[u] == '-'
        &&& {
            let d = digit_end(s, u + 1);
            &&& d > u + 1
            &&& (d == s.len() || !is_alnum(s[d]))
        }
    }
}

/// Where the token beginning at `i` ends: after its digit run.
pub open spec fn jira_end(s: Seq<char>, i: int) -> int {
    digit_end(s, upper_end(s, i) + 1)
}

/// The position of the first JIRA-style token in `s`, or `s.len()` when
/// there is none.
#[verifier::opaque]
pub open spec fn jira_first(s: Seq<char>) -> int {
    if exists|i: int| jira_at(s, i) {
        choose|i: int| jira_at(s, i) && forall|j: int| 0 <= j < i ==> !jira_at(s, j)
    } else {
        s.len() as int
    }
}

/// `jira_first` is pinned down by the first-occurrence characterisation.
pub proof fn lemma_jira_first(s: Seq<char>, i: int)
    requires
        jira_at(s, i),
        forall|j: int| 0 <= j < i ==> !jira_at(s, j),
    ensures
        jira_first(s) == i,
{
    reveal(jira_at);
    reveal(jira_first);
    assert(jira_at(s, i) && forall|j: int| 0 <= j < i ==> !jira_at(s, j));
    let k = choose|k: int| jira_at(s, k) && forall|j: int| 0 <= j < k ==> !jira_at(s, j);
    if k < i {
        assert(!jira_at(s, k));
    }
    if k > i {
        assert(!jira_at(s, i));
    }
}

/// The first JIRA-style token of `s`, scanning left to right with word
/// boundaries on both sides.
#[verifier::opaque]
pub open spec fn spec_find_jira(s: Seq<char>) -> Option<Seq<char>> {
    if exists|i: int| jira_at(s, i) {
        Some(s.subrange(jira_first(s), jira_end(s, jira_first(s))))
    } else {
        None
    }
}

/// The bracketed-token step: the first `[`, the first `]` after it, and
/// the bracket interior when it has JIRA shape.
pub open spec fn bracket_ref(line: Seq<char>) -> Option<Seq<char>> {
    let lb = char_pos(line, 0, '[');
    if lb < line.len() {
        let rb = char_pos(line, lb + 1, ']');
        if rb < line.len() && jira_shape(line.subrange(lb + 1, rb)) {
            Some(line.subrange(lb + 1, rb))
        } else {
            None
        }
    } else {
        None
    }
}

/// One auto-close keyword step: the keyword located case-insensitively,
/// the digits right after it, rendered as `#N`.
pub open spec fn auto_close_ref(line: Seq<char>, kw: Seq<char>) -> Option<Seq<char>> {
    let low = fold_lower(line);
    if contains_seq(low, kw) {
        let ns = pat_pos(low, kw) + kw.len();
        let d = digit_end(line, ns);
        if d > ns {
            Some(seq!['#'] + line.subrange(ns as int, d))
        } else {
            None
        }
    } else {
        None
    }
}

/// The bare-issue step: the first `#` of the line and the digits right
/// after it.
pub open spec fn bare_issue_ref(line: Seq<char>) -> Option<Seq<char>> {
    let h = char_pos(line, 0, '#');
    if h < line.len() && digit_end(line, h + 1) > h + 1 {
        Some(seq!['#'] + line.subrange(h + 1, digit_end(line, h + 1)))
    } else {
        None
    }
}

/// Ticket extraction over the first line, in priority order: bracketed
/// JIRA token, bare JIRA token, auto-close phrase, bare issue number.
pub open spec fn spec_extract_ticket(msg: Seq<char>) -> Option<Seq<char>> {
    let line = first_line(msg);
    if bracket_ref(line) is Some {
        bracket_ref(line)
    } else if spec_find_jira(line) is Some {
        spec_find_jira(line)
    } else if auto_close_ref(line, "fixes #"@) is Some {
        auto_close_ref(line, "fixes #"@)
    } else if auto_close_ref(line, "fixed #"@) is Some {
        auto_close_ref(line, "fixed #"@)
    } else if auto_close_ref(line, "closes #"@) is Some {
        auto_close_ref(line, "closes #"@)
    } else if auto_close_ref(line, "closed #"@) is Some {
        auto_close_ref(line, "closed #"@)
    } else {
        bare_issue_ref(line)
    }
}

/// Does the whole string have JIRA shape (`CORE-99`)? A single letter
/// before the dash is not enough.
pub fn is_jira_ref(s: &str) -> (r: bool)
    ensures
        r == jira_shape(s@),
{
    let v = str_chars(s);
    let u = scan_upper(&v, 0);
    if u < 2 || u >= v.len() {
        return false;
    }
    if v[u] != '-' {
        return false;
    }
    let d = scan_digits(&v, u + 1);
    d > u + 1 && d == v.len()
}

/// Test one word-boundary-clean candidate position: either the token end
/// when a token begins there, or the run end from which scanning resumes.
fn jira_token_at(v: &Vec<char>, i: usize) -> (r: (Option<usize>, usize))
    requires
        i < v@.len(),
        is_upper(v@[i as int]),
        i == 0 || !(is_alnum(v@[i as int - 1]) || v@[i as int - 1] == '-'),
    ensures
        r.0 matches Some(d) ==> jira_at(v@, i as int) && d == jira_end(v@, i as int) && i < d
            <= v@.len(),
        r.0 is None ==> forall|k: int| i <= k < r.1 ==> !jira_at(v@, k),
        i < r.1 <= v@.len(),
{
    let len = v.len();
    let u = scan_upper(v, i);
    proof {
        lemma_jira_inner(v@, i as int, u as int);
    }
    if u - i >= 2 && u < len && v[u] == '-' {
        let d = scan_digits(v, u + 1);
        if d > u + 1 && (d == len || !alnum_char(v[d])) {
            proof {
                reveal(jira_at);
                assert(jira_at(v@, i as int));
            }
            return (Some(d), u);
        }
    }
    proof {
        reveal(jira_at);
        assert(!jira_at(v@, i as int));
    }
    (None, u)
}

/// Find the first JIRA-style token in `text`, with word-boundary checks
/// on both sides.
#[verifier::rlimit(100)]
#[verifier::spinoff_prover]
pub fn find_jira_ref(text: &str) -> (r: Option<String>)
    ensures
        r is Some <==> spec_find_jira(text@) is Some,
        r matches Some(t) ==> spec_find_jira(text@) matches Some(v) && t@ == v,
{
    let v = str_chars(text);
    let len = v.len();
    let mut i: usize = 0;
    while i < len
        invariant
            len == v@.len(),
            v@ == text@,
            0 <= i <= len,
            forall|k: int| 0 <= k < i ==> !jira_at(text@, k),
        decreases len - i,
    {
        if upper_char(v[i]) {
            let boundary = i == 0 || !(alnum_char(v[i - 1]) || v[i - 1] == '-');
            if boundary {
                let (found, u) = jira_token_at(&v, i);
                if let Some(d) = found {
                    proof {
                        lemma_jira_first(text@, i as int);
                        reveal(spec_find_jira);
                    }
                    let t = text.substring_char(i, d).to_owned();
                    return Some(t);
                }
                i = u;
            } else {
                proof {
                    reveal(jira_at);
                    assert(!jira_at(text@, i as int));
                }
                i = i + 1;
            }
        } else {
            proof {
                reveal(jira_at);
                assert(!jira_at(text@, i as int));
            }
            i = i + 1;
        }
    }
    proof {
        reveal(jira_at);
        assert forall|k: int| !jira_at(text@, k) by {
            if 0 <= k < text@.len() {
                assert(!jira_at(text@, k));
            }
        }
        reveal(spec_find_jira);
    }
    None
}

/// The run of digits at the start of `s`, when there is one.
pub fn extract_digits(s: &str) -> (r: Option<String>)
    ensures
        r is Some <==> digit_end(s@, 0) > 0,
        r matches Some(t) ==> t@ == s@.take(digit_end(s@, 0)),
{
    let v = str_chars(s);
    let d = scan_digits(&v, 0);
    if d == 0 {
        None
    } else {
        let t = s.substring_char(0, d).to_owned();
        proof {
            assert(t@ =~= s@.take(digit_end(s@, 0)));
        }
        Some(t)
    }
}

/// One auto-close keyword, evaluated on the lowered line, rendering the
/// digits after the keyword as `#N`.
#[verifier::rlimit(60)]
fn try_auto_close(line: &str, v: &Vec<char>, low: &Vec<char>, kw: &str) -> (r: Option<String>)
    requires
        v@ == line@,
        low@ == fold_lower(line@),
    ensures
        r is Some <==> auto_close_ref(line@, kw@) is Some,
        r matches Some(t) ==> auto_close_ref(line@, kw@) matches Some(x) && t@ == x,
{
    match find_pat(low, kw) {
        Some(pos) => {
            let ll = low.len();
            let klen = kw.unicode_len();
            proof {
                assert(pos + klen <= ll);
            }
            let ns = pos + klen;
            let d = scan_digits(v, ns);
            if d > ns {
                let mut t = String::from_str("#");
                let digits = line.substring_char(ns, d);
                t.append(digits);
                proof {
                    reveal_strlit("#");
                    assert(t@ =~= seq!['#'] + line@.subrange(ns as int, d as int));
                }
                Some(t)
            } else {
                None
            }
        },
        None => None,
    }
}

/// Extract a ticket reference from a commit message, scanning the first
/// line only, in priority order: a bracketed `[XX-99]` token, the first
/// bare JIRA-style token, `fixes #N`-style phrases, and finally the
/// first bare `#N`. Returns `None` when nothing matches.
pub fn extract_ticket_ref(message: &str) -> (r: Option<String>)
    ensures
        r is Some <==> spec_extract_ticket(message@) is Some,
        r matches Some(t) ==> spec_extract_ticket(message@) matches Some(x) && t@ == x,
{
    let line = first_line_str(message);
    let v = first_line_chars(message);
    let low = lower_chars(&v);
    // 1. Bracketed JIRA-style token.
    let lb = find_char(&v, 0, '[');
    if lb < v.len() {
        let rb = find_char(&v, lb + 1, ']');
        if rb < v.len() {
            let inner = line.substring_char(lb + 1, rb);
            if is_jira_ref(inner) {
                return Some(inner.to_owned());
            }
        }
    }
    // 2. First bare JIRA-style token.
    let jira = find_jira_ref(line);
    if let Some(t) = jira {
        return Some(t);
    }
    // 3. Auto-close phrases, case-insensitively.
    if let Some(t) = try_auto_close(line, &v, &low, "fixes #") {
        return Some(t);
    }
    if let Some(t) = try_auto_close(line, &v, &low, "fixed #") {
        return Some(t);
    }
    if let Some(t) = try_auto_close(line, &v, &low, "closes #") {
        return Some(t);
    }
    if let Some(t) = try_auto_close(line, &v, &low, "closed #") {
        return Some(t);
    }
    // 4. First bare issue number.
    let h = find_char(&v, 0, '#');
    if h < v.len() {
        let d = scan_digits(&v, h + 1);
        if d > h + 1 {
            let mut t = String::from_str("#");
            let digits = line.substring_char(h + 1, d);
            t.append(digits);
            proof {
                reveal_strlit("#");
                assert(t@ =~= seq!['#'] + line@.subrange(h + 1, d as int));
            }
            return Some(t);
        }
    }
    None
}

} // verus!
