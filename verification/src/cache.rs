//! Result-cache keying and freshness: a deterministic key derived from
//! the command name, the time range and the extra parameters, and the
//! rule that a stored entry is served only while the repository's head
//! is unchanged.
//!
//! Reading and writing the cache directory is input/output and stays
//! outside the library; the decisions live here.
use vstd::prelude::*;
use vstd::multiset::Multiset;
use vstd::relations::{sorted_by, total_ordering};
use vstd::seq_lib::lemma_sorted_unique;
use crate::text::dec_str_i64;
use crate::sorting::{sort_u64s, lemma_map_values_multiset};

verus! {

/// The modulus of the rolling hash: the largest 32-bit prime.
pub open spec fn hash_mod() -> int {
    0xFFFF_FFFB
}

/// A deterministic rolling hash of one string, over its characters.
pub open spec fn str_hash(s: Seq<char>) -> u64
    decreases s.len(),
{
    if s.len() == 0 {
        5381
    } else {
        (((str_hash(s.drop_last()) * 31 + (s.last() as u32)) as int % hash_mod()) as u64)
    }
}

/// The combination of a sequence of hashes into one value.
pub open spec fn combine_hashes(hs: Seq<u64>) -> u64
    decreases hs.len(),
{
    if hs.len() == 0 {
        5381
    } else {
        (((combine_hashes(hs.drop_last()) * 31 + hs.last()) as int % hash_mod()) as u64)
    }
}

/// Ascending order on unsigned hash values.
pub open spec fn u64_le() -> spec_fn(u64, u64) -> bool {
    |x: u64, y: u64| x <= y
}

/// The order-independent hash of a list of strings: each string hashed,
/// the hashes sorted, then combined. Sorting first makes the result a
/// function of the multiset alone.
pub open spec fn files_hash(fs: Seq<Seq<char>>) -> u64 {
    combine_hashes(fs.map_values(|s: Seq<char>| str_hash(s)).sort_by(u64_le()))
}

/// A hash stays below the modulus.
pub proof fn lemma_str_hash_bound(s: Seq<char>)
    ensures
        str_hash(s) < 0xFFFF_FFFB,
{
    if s.len() > 0 {
        vstd::arithmetic::div_mod::lemma_mod_bound(
            (str_hash(s.drop_last()) * 31 + (s.last() as u32)) as int,
            hash_mod(),
        );
    }
}

/// Exec rolling hash of one string.
pub fn str_hash_exec(s: &str) -> (r: u64)
    ensures
        r == str_hash(s@),
{
    let len = s.unicode_len();
    let mut acc: u64 = 5381;
    let mut i: usize = 0;
    while i < len
        invariant
            0 <= i <= len,
            len == s@.len(),
            acc == str_hash(s@.take(i as int)),
            acc < 0xFFFF_FFFB,
        decreases len - i,
    {
        let c = s.get_char(i) as u32;
        let next: u64 = (acc * 31 + c as u64) % 0xFFFF_FFFB;
        proof {
            assert(s@.take(i + 1).drop_last() =~= s@.take(i as int));
            assert(s@.take(i + 1).last() == s@[i as int]);
        }
        acc = next;
        i = i + 1;
    }
    proof {
        assert(s@.take(len as int) =~= s@);
    }
    acc
}

/// The hexadecimal rendering of a natural number.
pub open spec fn hex_str(n: nat) -> Seq<char>
    decreases n,
{
    if n < 16 {
        seq![hex_char(n as int)]
    } else {
        hex_str(n / 16).push(hex_char((n % 16) as int))
    }
}

/// One hexadecimal digit character.
pub open spec fn hex_char(d: int) -> char {
    if d < 10 {
        (48 + d) as char
    } else {
        (87 + d) as char
    }
}

/// One hexadecimal digit as a string slice.
fn hex_lit(d: u64) -> (r: &'static str)
    requires
        d < 16,
    ensures
        r@ =~= seq![hex_char(d as int)],
{
    proof {
        reveal_strlit("0");
        reveal_strlit("1");
        reveal_strlit("2");
        reveal_strlit("3");
        reveal_strlit("4");
        reveal_strlit("5");
        reveal_strlit("6");
        reveal_strlit("7");
        reveal_strlit("8");
        reveal_strlit("9");
        reveal_strlit("a");
        reveal_strlit("b");
        reveal_strlit("c");
        reveal_strlit("d");
        reveal_strlit("e");
        reveal_strlit("f");
    }
    match d {
        0 => "0",
        1 => "1",
        2 => "2",
        3 => "3",
        4 => "4",
        5 => "5",
        6 => "6",
        7 => "7",
        8 => "8",
        9 => "9",
        10 => "a",
        11 => "b",
        12 => "c",
        13 => "d",
        14 => "e",
        _ => "f",
    }
}

/// Hexadecimal rendering of an unsigned number.
pub fn u64_to_hex(n: u64) -> (s: String)
    ensures
        s@ == hex_str(n as nat),
    decreases n,
{
    let d = n % 16;
    let ds = hex_lit(d);
    if n < 16 {
        String::from_str(ds)
    } else {
        let mut s = u64_to_hex(n / 16);
        s.append(ds);
        proof {
            assert(hex_str((n / 16) as nat) + ds@ =~= hex_str(n as nat));
        }
        s
    }
}

/// The label of one bound in the key: the literal epoch value, or `all`.
pub open spec fn bound_label(b: Option<i64>) -> Seq<char> {
    match b {
        Some(t) => dec_str_i64(t as int),
        None => "all"@,
    }
}

/// The cache key: command name, optional file-list hash, and the two
/// bound labels, ending in `.json`. A pure function of its arguments;
/// the file list enters only through its multiset.
pub open spec fn spec_cache_key(
    cmd: Seq<char>,
    since: Option<i64>,
    until: Option<i64>,
    files: Option<Seq<Seq<char>>>,
) -> Seq<char> {
    let sl = bound_label(since);
    let ul = bound_label(until);
    match files {
        None => cmd + "-"@ + sl + "-"@ + ul + ".json"@,
        Some(fs) => cmd + "-"@ + hex_str(files_hash(fs) as nat) + "-"@ + sl + "-"@ + ul
            + ".json"@,
    }
}

/// Exec label of one bound.
fn bound_label_exec(b: Option<i64>) -> (s: String)
    ensures
        s@ == bound_label(b),
{
    match b {
        Some(t) => crate::text::i64_to_string(t),
        None => String::from_str("all"),
    }
}

/// Build the cache key for a command and its parameters. List-valued
/// parameters are hashed order-independently: their hashes are sorted
/// before combination.
pub fn cache_key(
    subcommand: &str,
    since: Option<i64>,
    until: Option<i64>,
    files: Option<&Vec<String>>,
) -> (k: String)
    ensures
        files is None ==> k@ == spec_cache_key(subcommand@, since, until, None),
        files matches Some(f) ==> k@ == spec_cache_key(
            subcommand@,
            since,
            until,
            Some(f@.map_values(|s: String| s@)),
        ),
{
    let sl = bound_label_exec(since);
    let ul = bound_label_exec(until);
    let mut k = String::from_str(subcommand);
    k.append("-");
    match files {
        None => {},
        Some(f) => {
            let mut hs: Vec<u64> = Vec::new();
            let mut i: usize = 0;
            while i < f.len()
                invariant
                    0 <= i <= f@.len(),
                    hs@ == f@.take(i as int).map_values(|s: String| str_hash(s@)),
                decreases f@.len() - i,
            {
                hs.push(str_hash_exec(f[i].as_str()));
                proof {
                    assert(f@.take(i + 1).drop_last() =~= f@.take(i as int));
                    assert(f@.take(i + 1).map_values(|s: String| str_hash(s@)) =~= f@.take(
                        i as int,
                    ).map_values(|s: String| str_hash(s@)).push(str_hash(f@[i as int]@)));
                }
                i = i + 1;
            }
            proof {
                assert(f@.take(f@.len() as int) =~= f@);
            }
            let ghost fs = f@.map_values(|s: String| s@);
            let ghost mapped = fs.map_values(|s: Seq<char>| str_hash(s));
            sort_u64s(&mut hs);
            proof {
                assert(mapped =~= f@.map_values(|s: String| str_hash(s@)));
                mapped.lemma_sort_by_ensures(u64_le());
                assert(total_ordering(u64_le())) by {
                    assert(forall|x: u64, y: u64| #[trigger] u64_le()(x, y) == (x <= y));
                }
                assert(sorted_by(hs@, u64_le())) by {
                    assert(forall|x: u64, y: u64| #[trigger] u64_le()(x, y) == (x <= y));
                }
                lemma_sorted_unique(hs@, mapped.sort_by(u64_le()), u64_le());
                assert(hs@ == mapped.sort_by(u64_le()));
                broadcast use vstd::seq_lib::group_to_multiset_ensures;

                assert forall|l: int| 0 <= l < hs@.len() implies hs@[l] < 0xFFFF_FFFB by {
                    assert(hs@.to_multiset().contains(hs@[l]));
                    assert(mapped.to_multiset().contains(hs@[l]));
                    assert(mapped.contains(hs@[l]));
                    let w = choose|w: int| 0 <= w < mapped.len() && mapped[w] == hs@[l];
                    lemma_str_hash_bound(fs[w]);
                }
            }
            let mut c: u64 = 5381;
            let mut i2: usize = 0;
            while i2 < hs.len()
                invariant
                    0 <= i2 <= hs@.len(),
                    c == combine_hashes(hs@.take(i2 as int)),
                    c < 0xFFFF_FFFB,
                    forall|l: int| 0 <= l < hs@.len() ==> hs@[l] < 0xFFFF_FFFB,
                decreases hs@.len() - i2,
            {
                let next: u64 = (c * 31 + hs[i2]) % 0xFFFF_FFFB;
                proof {
                    assert(hs@.take(i2 + 1).drop_last() =~= hs@.take(i2 as int));
                    assert(hs@.take(i2 + 1).last() == hs@[i2 as int]);
                }
                c = next;
                i2 = i2 + 1;
            }
            proof {
                assert(hs@.take(hs@.len() as int) =~= hs@);
            }
            let hex = u64_to_hex(c);
            k.append(hex.as_str());
            k.append("-");
        },
    }
    k.append(sl.as_str());
    k.append("-");
    k.append(ul.as_str());
    k.append(".json");
    proof {
        if files is None {
            assert(k@ =~= spec_cache_key(subcommand@, since, until, None));
        } else {
            let f = files->0;
            assert(k@ =~= spec_cache_key(
                subcommand@,
                since,
                until,
                Some(f@.map_values(|s: String| s@)),
            ));
        }
    }
    k
}

/// Two calls with the same logical parameters give the same key: the
/// order of a list-valued parameter never changes it.
pub proof fn lemma_cache_key_order_independent(
    cmd: Seq<char>,
    since: Option<i64>,
    until: Option<i64>,
    a: Seq<Seq<char>>,
    b: Seq<Seq<char>>,
)
    requires
        a.to_multiset() == b.to_multiset(),
    ensures
        spec_cache_key(cmd, since, until, Some(a)) == spec_cache_key(cmd, since, until, Some(b)),
{
    let f = |s: Seq<char>| str_hash(s);
    lemma_map_values_multiset(a, b, f);
    let ma = a.map_values(f);
    let mb = b.map_values(f);
    ma.lemma_sort_by_ensures(u64_le());
    mb.lemma_sort_by_ensures(u64_le());
    assert(total_ordering(u64_le())) by {
        assert(forall|x: u64, y: u64| #[trigger] u64_le()(x, y) == (x <= y));
    }
    lemma_sorted_unique(ma.sort_by(u64_le()), mb.sort_by(u64_le()), u64_le());
    assert(ma.sort_by(u64_le()) == mb.sort_by(u64_le()));
    assert(files_hash(a) == files_hash(b));
}

/// One stored cache entry: the head it was computed at, the time of the
/// computation, and the rendered analysis payload.
pub struct CacheEntry {
    /// The repository head the payload was computed against.
    pub head_commit: String,
    /// When the payload was computed, as rendered by the writer.
    pub computed_at: String,
    /// The rendered analysis payload.
    pub result: String,
}

/// An entry is usable exactly while its recorded head equals the
/// repository's current head; the check is re-made on every read.
pub open spec fn entry_fresh(entry_head: Seq<char>, current_head: Seq<char>) -> bool {
    entry_head == current_head
}

/// Serve a cached payload: a parsed entry, if one was read, is returned
/// only when it is fresh against the current head. A missing or stale
/// entry degrades to `None`, never to an error.
pub fn cache_serve(entry: &Option<CacheEntry>, current_head: &String) -> (r: Option<String>)
    ensures
        r is Some <==> (entry matches Some(e) && entry_fresh(e.head_commit@, current_head@)),
        r matches Some(p) ==> entry matches Some(e) && p@ == e.result@,
{
    match entry {
        Some(e) => {
            if e.head_commit == *current_head {
                Some(e.result.clone())
            } else {
                None
            }
        },
        None => None,
    }
}

} // verus!
