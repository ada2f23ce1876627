//! Directory prefixes of file paths, used to group files for hotspot,
//! ownership and chain aggregation.
use vstd::prelude::*;
use crate::text::{char_pos, find_char, str_chars};

verus! {

/// The position of the `n`-th `/` of `s`, or `s.len()` when there are
/// fewer than `n`.
pub open spec fn slash_pos(s: Seq<char>, n: int) -> int
    decreases n,
{
    if n <= 1 {
        char_pos(s, 0, '/')
    } else {
        let p = slash_pos(s, n - 1);
        if p >= s.len() {
            s.len() as int
        } else {
            char_pos(s, p + 1, '/')
        }
    }
}

/// Once the slashes run out, later slash positions saturate at the end.
pub proof fn lemma_slash_pos_sat(s: Seq<char>, m0: int, m: int)
    requires
        1 <= m0 <= m,
        slash_pos(s, m0) >= s.len(),
    ensures
        slash_pos(s, m) >= s.len(),
    decreases m,
{
    if m > m0 {
        lemma_slash_pos_sat(s, m0, m - 1);
    }
}

/// The position of the last `/` of `s`, or `-1` when there is none.
#[verifier::opaque]
pub open spec fn last_slash(s: Seq<char>) -> int {
    if exists|k: int| 0 <= k < s.len() && s[k] == '/' {
        choose|k: int|
            0 <= k < s.len() && s[k] == '/' && forall|j: int| k < j < s.len() ==> s[j] != '/'
    } else {
        -1
    }
}

/// `last_slash` is pinned down by the last-occurrence characterisation.
pub proof fn lemma_last_slash(s: Seq<char>, i: int)
    requires
        0 <= i < s.len(),
        s[i] == '/',
        forall|j: int| i < j < s.len() ==> s[j] != '/',
    ensures
        last_slash(s) == i,
{
    reveal(last_slash);
    assert(0 <= i < s.len() && s[i] == '/' && forall|j: int| i < j < s.len() ==> s[j] != '/');
    let k = choose|k: int|
        0 <= k < s.len() && s[k] == '/' && forall|j: int| k < j < s.len() ==> s[j] != '/';
    if k < i {
        assert(s[i] != '/');
    }
    if k > i {
        assert(s[k] != '/');
    }
}

/// The directory prefix of a path at a given depth: the first `depth`
/// path segments, the parent directory when the path is shallower, and
/// `.` at depth zero or for a top-level file.
#[verifier::opaque]
pub open spec fn spec_dir_prefix(s: Seq<char>, depth: int) -> Seq<char> {
    if depth <= 0 {
        "."@
    } else if slash_pos(s, depth) < s.len() {
        s.take(slash_pos(s, depth))
    } else if last_slash(s) >= 0 {
        s.take(last_slash(s))
    } else {
        "."@
    }
}

/// The directory prefix of a path at the given depth.
#[verifier::rlimit(100)]
#[verifier::spinoff_prover]
pub fn dir_prefix(path: &str, depth: usize) -> (r: String)
    ensures
        r@ == spec_dir_prefix(path@, depth as int),
{
    proof {
        reveal(spec_dir_prefix);
    }
    if depth == 0 {
        return String::from_str(".");
    }
    let v = str_chars(path);
    let len = v.len();
    let mut k: usize = 0;
    let mut lastpos: usize = 0;
    let mut cur = find_char(&v, 0, '/');
    while k < depth && cur < len
        invariant
            v@ == path@,
            len == path@.len(),
            0 <= k <= depth,
            1 <= depth,
            cur == slash_pos(path@, k + 1 as int),
            cur <= len,
            cur < len ==> path@[cur as int] == '/',
            k > 0 ==> lastpos < len && lastpos == slash_pos(path@, k as int)
                && path@[lastpos as int] == '/',
            k > 0 ==> forall|j: int| lastpos < j < cur && j < len ==> path@[j] != '/',
            k == 0 ==> forall|j: int| 0 <= j < cur && j < len ==> path@[j] != '/',
        decreases depth - k,
    {
        k = k + 1;
        lastpos = cur;
        cur = find_char(&v, cur + 1, '/');
    }
    if k == depth && lastpos < len && k > 0 {
        // The depth-th slash exists: cut there.
        proof {
            assert(slash_pos(path@, depth as int) == lastpos);
        }
        let r = path.substring_char(0, lastpos);
        proof {
            assert(r@ =~= spec_dir_prefix(path@, depth as int));
        }
        return r.to_owned();
    }
    // Fewer than `depth` slashes: cur reached the end.
    proof {
        assert(cur >= len);
        assert(slash_pos(path@, k + 1 as int) >= len);
        lemma_slash_pos_sat(path@, k + 1 as int, depth as int);
    }
    if k == 0 {
        // No slash at all: a top-level file.
        proof {
            assert(forall|j: int| 0 <= j < path@.len() ==> path@[j] != '/');
            assert(last_slash(path@) == -1) by {
                reveal(last_slash);
            }
        }
        return String::from_str(".");
    }
    // The k-th slash is the last one.
    proof {
        assert(forall|j: int| lastpos < j < path@.len() ==> path@[j] != '/');
        lemma_last_slash(path@, lastpos as int);
    }
    let r = path.substring_char(0, lastpos);
    proof {
        assert(r@ =~= spec_dir_prefix(path@, depth as int));
    }
    r.to_owned()
}

} // verus!
