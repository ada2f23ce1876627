//! Size-convergence pairs: near-duplicate detection over the current
//! snapshot's files, pairing files whose byte sizes lie within ten
//! percent of each other.
use vstd::prelude::*;
use vstd::multiset::Multiset;
use crate::sorting::{
    sort_pairs_asc, sort_pairs_desc, lemma_permuted_membership, lemma_map_values_multiset,
};

verus! {

/// One convergence pair: two similar-sized files, smaller first.
pub struct ConvergencePair {
    /// The smaller file.
    pub path_a: String,
    /// The larger file.
    pub path_b: String,
    /// The smaller size, in bytes.
    pub size_a: u64,
    /// The larger size, in bytes.
    pub size_b: u64,
    /// The absolute size difference.
    pub size_diff: u64,
    /// The size ratio `size_a / size_b`, in billionths.
    pub ratio_nanos: u64,
}

/// The mathematical content of a `ConvergencePair`.
pub struct ConvergencePairView {
    /// The smaller file.
    pub path_a: Seq<char>,
    /// The larger file.
    pub path_b: Seq<char>,
    /// The smaller size.
    pub size_a: u64,
    /// The larger size.
    pub size_b: u64,
    /// The size difference.
    pub size_diff: u64,
    /// The ratio in billionths.
    pub ratio_nanos: u64,
}

impl View for ConvergencePair {
    type V = ConvergencePairView;

    open spec fn view(&self) -> ConvergencePairView {
        ConvergencePairView {
            path_a: self.path_a@,
            path_b: self.path_b@,
            size_a: self.size_a,
            size_b: self.size_b,
            size_diff: self.size_diff,
            ratio_nanos: self.ratio_nanos,
        }
    }
}

/// The views of a pair list.
pub open spec fn cp_views(s: Seq<ConvergencePair>) -> Seq<ConvergencePairView> {
    s.map_values(|x: ConvergencePair| x@)
}

/// The convergence report: the capped pair list and whether the cap cut
/// anything off.
pub struct ConvergenceReport {
    /// The qualifying pairs, by ratio descending.
    pub pairs: Vec<ConvergencePair>,
    /// Whether the effective limit truncated the list.
    pub truncated: bool,
}

/// A pair is sound for floor `min_size`: both sizes at or above the
/// floor, the smaller within ten percent of the larger, the difference
/// and the billionths ratio exact. The ratio therefore lies in
/// `[0.9, 1.0]`.
pub open spec fn pair_ok(e: ConvergencePairView, min_size: u64) -> bool {
    &&& min_size <= e.size_a <= e.size_b
    &&& 10 * e.size_a >= 9 * e.size_b
    &&& e.size_diff == e.size_b - e.size_a
    &&& e.size_b > 0
    &&& e.ratio_nanos == (e.size_a * 1_000_000_000) as int / (e.size_b as int)
}

/// The effective cap: the smaller of the dedicated pair limit and the
/// general result limit, when both are supplied.
pub open spec fn effective_cap(max_pairs: usize, limit: Option<usize>) -> int {
    match limit {
        Some(l) => if l < max_pairs {
            l as int
        } else {
            max_pairs as int
        },
        None => max_pairs as int,
    }
}

/// The size-keyed view of the snapshot's file list.
pub open spec fn size_views(files: Seq<(String, u64)>) -> Seq<(u64, Seq<char>)> {
    files.map_values(|f: (String, u64)| (f.1, f.0@))
}

/// The snapshot entries at or above the floor, in input order.
pub open spec fn min_filter(fs: Seq<(u64, Seq<char>)>, min_size: u64) -> Seq<(u64, Seq<char>)>
    decreases fs.len(),
{
    if fs.len() == 0 {
        Seq::empty()
    } else {
        min_filter(fs.drop_last(), min_size) + if fs.last().0 >= min_size {
            seq![fs.last()]
        } else {
            Seq::empty()
        }
    }
}

/// Two entries of the size-sorted list converge: the smaller is within
/// ten percent of the larger.
pub open spec fn pair_qual(sized: Seq<(u64, Seq<char>)>, a: int, b: int) -> bool {
    10 * sized[a].0 >= 9 * sized[b].0
}

/// The pair record of positions `a < b` of the size-sorted list.
pub open spec fn mk_pair(sized: Seq<(u64, Seq<char>)>, a: int, b: int) -> ConvergencePairView {
    ConvergencePairView {
        path_a: sized[a].1,
        path_b: sized[b].1,
        size_a: sized[a].0,
        size_b: sized[b].0,
        size_diff: (sized[b].0 - sized[a].0) as u64,
        ratio_nanos: ((sized[a].0 * 1_000_000_000) as int / (sized[b].0 as int)) as u64,
    }
}

/// The pairs of position `a` with partners from `b` on.
pub open spec fn gp_row(sized: Seq<(u64, Seq<char>)>, a: int, b: int) -> Seq<ConvergencePairView>
    decreases sized.len() - b,
{
    if b < a + 1 || b >= sized.len() {
        Seq::empty()
    } else {
        (if pair_qual(sized, a, b) {
            seq![mk_pair(sized, a, b)]
        } else {
            Seq::empty()
        }) + gp_row(sized, a, b + 1)
    }
}

/// Every qualifying pair of the size-sorted list, scanning each
/// position's larger partners, from position `a` on.
pub open spec fn gen_pairs(sized: Seq<(u64, Seq<char>)>, a: int) -> Seq<ConvergencePairView>
    decreases sized.len() - a,
{
    if a < 0 || a >= sized.len() {
        Seq::empty()
    } else {
        gp_row(sized, a, a + 1) + gen_pairs(sized, a + 1)
    }
}

/// Once a partner breaks the ratio on a sorted list, no later partner
/// restores it: the rest of the row is empty.
proof fn lemma_gp_row_empty(sized: Seq<(u64, Seq<char>)>, a: int, b: int)
    requires
        forall|b2: int| b <= b2 < sized.len() ==> !pair_qual(sized, a, b2),
        a + 1 <= b,
    ensures
        gp_row(sized, a, b) =~= Seq::<ConvergencePairView>::empty(),
    decreases sized.len() - b,
{
    if b < sized.len() {
        lemma_gp_row_empty(sized, a, b + 1);
    }
}

/// Detect size-convergence pairs among the current snapshot's files.
///
/// Files under the floor are excluded; the rest are sorted by size
/// ascending and every pair within ten percent is generated. The full
/// pair list is sorted by ratio descending and only then capped by the
/// effective limit, with a flag recording whether the cap cut anything.
#[verifier::rlimit(100)]
pub fn convergence_pairs(
    files: &Vec<(String, u64)>,
    min_size: u64,
    max_pairs: usize,
    limit: Option<usize>,
) -> (r: ConvergenceReport)
    requires
        min_size >= 1,
        forall|i: int| 0 <= i < files@.len() ==> (#[trigger] files@[i]).1 <= 0x1000_0000_0000,
    ensures
        exists|sized: Seq<(u64, Seq<char>)>, full: Seq<ConvergencePairView>|
            {
                &&& (forall|a: int, b: int|
                    0 <= a < b < sized.len() ==> (#[trigger] sized[a]).0 <= (
                    #[trigger] sized[b]).0)
                &&& sized.to_multiset() == min_filter(size_views(files@), min_size).to_multiset()
                &&& full.to_multiset() == gen_pairs(sized, 0).to_multiset()
                &&& (forall|k: int| 0 <= k < full.len() ==> pair_ok(#[trigger] full[k], min_size))
                &&& (forall|a: int, b: int|
                    0 <= a < b < full.len() ==> (#[trigger] full[a]).ratio_nanos >= (
                    #[trigger] full[b]).ratio_nanos)
                &&& cp_views(r.pairs@) == (if effective_cap(max_pairs, limit) < full.len() {
                    full.take(effective_cap(max_pairs, limit))
                } else {
                    full
                })
                &&& r.truncated == (full.len() > effective_cap(max_pairs, limit))
            },
{
    let cap: usize = match limit {
        Some(l) => if l < max_pairs {
            l
        } else {
            max_pairs
        },
        None => max_pairs,
    };
    // Keep only files at or above the floor, keyed by size.
    let ghost fvs = size_views(files@);
    let mut sized: Vec<(u64, String)> = Vec::new();
    let mut i: usize = 0;
    while i < files.len()
        invariant
            0 <= i <= files@.len(),
            fvs == size_views(files@),
            fvs.len() == files@.len(),
            min_size >= 1,
            forall|m: int| 0 <= m < files@.len() ==> (#[trigger] files@[m]).1 <= 0x1000_0000_0000,
            sized@.map_values(|p: (u64, String)| (p.0, p.1@)) =~= min_filter(
                fvs.take(i as int),
                min_size,
            ),
            forall|m: int|
                0 <= m < sized@.len() ==> min_size <= (#[trigger] sized@[m]).0
                    <= 0x1000_0000_0000,
        decreases files@.len() - i,
    {
        proof {
            assert(fvs[i as int] == (files@[i as int].1, files@[i as int].0@));
            assert(fvs.take(i + 1).drop_last() =~= fvs.take(i as int));
            assert(fvs.take(i + 1).last() == fvs[i as int]);
        }
        if files[i].1 >= min_size {
            sized.push((files[i].1, files[i].0.clone()));
            proof {
                assert(sized@.map_values(|p: (u64, String)| (p.0, p.1@)) =~= sized@.drop_last(
                ).map_values(|p: (u64, String)| (p.0, p.1@)).push(
                    (sized@.last().0, sized@.last().1@),
                ));
                assert(min_filter(fvs.take(i as int), min_size) + seq![fvs[i as int]]
                    =~= min_filter(fvs.take(i as int), min_size).push(fvs[i as int]));
            }
        }
        i = i + 1;
    }
    proof {
        assert(fvs.take(fvs.len() as int) =~= fvs);
    }
    let ghost spre = sized@;
    sort_pairs_asc(&mut sized);
    let ghost sv = sized@.map_values(|p: (u64, String)| (p.0, p.1@));
    proof {
        assert forall|m: int| 0 <= m < sized@.len() implies min_size <= (
        #[trigger] sized@[m]).0 <= 0x1000_0000_0000 by {
            lemma_permuted_membership(spre, sized@, m);
        }
        lemma_map_values_multiset(spre, sized@, |p: (u64, String)| (p.0, p.1@));
        assert(sv.to_multiset() == min_filter(fvs, min_size).to_multiset());
        assert(forall|a: int, b: int| 0 <= a < b < sv.len() ==> (#[trigger] sv[a]).0 <= (
        #[trigger] sv[b]).0);
        assert(forall|m: int|
            0 <= m < sv.len() ==> min_size <= (#[trigger] sv[m]).0 <= 0x1000_0000_0000);
    }
    // Generate every qualifying pair, in size order.
    let mut found: Vec<(u64, ConvergencePair)> = Vec::new();
    let mut a: usize = 0;
    proof {
        assert(cp_views(Seq::<ConvergencePair>::empty()) =~= Seq::<ConvergencePairView>::empty());
    }
    while a < sized.len()
        invariant
            0 <= a <= sized@.len(),
            min_size >= 1,
            sv == sized@.map_values(|p: (u64, String)| (p.0, p.1@)),
            sv.len() == sized@.len(),
            forall|m1: int, m2: int|
                0 <= m1 < m2 < sized@.len() ==> (#[trigger] sized@[m1]).0 <= (
                #[trigger] sized@[m2]).0,
            forall|m: int|
                0 <= m < sized@.len() ==> min_size <= (#[trigger] sized@[m]).0
                    <= 0x1000_0000_0000,
            forall|k: int|
                0 <= k < found@.len() ==> pair_ok((#[trigger] found@[k]).1@, min_size)
                    && found@[k].0 == found@[k].1@.ratio_nanos,
            found@.map_values(|p: (u64, ConvergencePair)| p.1@) + gen_pairs(sv, a as int)
                =~= gen_pairs(sv, 0),
        decreases sized@.len() - a,
    {
        let sa = sized[a].0;
        let ghost row_done = found@;
        let mut b: usize = a + 1;
        while b < sized.len() && 10 * sa >= 9 * sized[b].0
            invariant
                a < b <= sized@.len(),
                a < sized@.len(),
                sa == sized@[a as int].0,
                min_size >= 1,
                sv == sized@.map_values(|p: (u64, String)| (p.0, p.1@)),
                sv.len() == sized@.len(),
                forall|m1: int, m2: int|
                    0 <= m1 < m2 < sized@.len() ==> (#[trigger] sized@[m1]).0 <= (
                    #[trigger] sized@[m2]).0,
                forall|m: int|
                    0 <= m < sized@.len() ==> min_size <= (#[trigger] sized@[m]).0
                        <= 0x1000_0000_0000,
                forall|k: int|
                    0 <= k < found@.len() ==> pair_ok((#[trigger] found@[k]).1@, min_size)
                        && found@[k].0 == found@[k].1@.ratio_nanos,
                found@.map_values(|p: (u64, ConvergencePair)| p.1@) + gp_row(
                    sv,
                    a as int,
                    b as int,
                ) + gen_pairs(sv, a + 1) =~= gen_pairs(sv, 0),
            decreases sized@.len() - b,
        {
            let sb = sized[b].0;
            proof {
                vstd::arithmetic::mul::lemma_mul_inequality(
                    sa as int,
                    0x1000_0000_0000,
                    1_000_000_000,
                );
                vstd::arithmetic::mul::lemma_mul_inequality(
                    sa as int,
                    sb as int,
                    1_000_000_000,
                );
                vstd::arithmetic::div_mod::lemma_div_is_ordered(
                    (sa as int) * 1_000_000_000,
                    (sb as int) * 1_000_000_000,
                    sb as int,
                );
                vstd::arithmetic::div_mod::lemma_div_multiples_vanish(
                    1_000_000_000,
                    sb as int,
                );
                vstd::arithmetic::div_mod::lemma_div_pos_is_pos(
                    (sa as int) * 1_000_000_000,
                    sb as int,
                );
            }
            let ratio: u64 = ((sa as u128) * 1_000_000_000 / (sb as u128)) as u64;
            let p = ConvergencePair {
                path_a: sized[a].1.clone(),
                path_b: sized[b].1.clone(),
                size_a: sa,
                size_b: sb,
                size_diff: sb - sa,
                ratio_nanos: ratio,
            };
            proof {
                assert(sv[a as int] == (sized@[a as int].0, sized@[a as int].1@));
                assert(sv[b as int] == (sized@[b as int].0, sized@[b as int].1@));
                assert(pair_qual(sv, a as int, b as int));
                assert(p@ == mk_pair(sv, a as int, b as int));
                assert(pair_ok(p@, min_size));
            }
            found.push((ratio, p));
            proof {
                assert(found@.map_values(|pp: (u64, ConvergencePair)| pp.1@)
                    =~= found@.drop_last().map_values(|pp: (u64, ConvergencePair)| pp.1@).push(
                    found@.last().1@,
                ));
                assert(gp_row(sv, a as int, b as int) == seq![mk_pair(sv, a as int, b as int)]
                    + gp_row(sv, a as int, b + 1));
            }
            b = b + 1;
        }
        proof {
            if b < sized@.len() {
                assert(!pair_qual(sv, a as int, b as int));
                assert forall|b2: int| b <= b2 < sv.len() implies !pair_qual(
                    sv,
                    a as int,
                    b2,
                ) by {
                    assert(sv[b as int].0 <= sv[b2].0);
                }
            }
            lemma_gp_row_empty(sv, a as int, b as int);
            assert(gen_pairs(sv, a as int) == gp_row(sv, a as int, a + 1) + gen_pairs(
                sv,
                a + 1,
            ));
        }
        a = a + 1;
    }
    proof {
        assert(gen_pairs(sv, sized@.len() as int) =~= Seq::<ConvergencePairView>::empty());
        assert(found@.map_values(|p: (u64, ConvergencePair)| p.1@) =~= gen_pairs(sv, 0));
    }
    let ghost fpre = found@;
    sort_pairs_desc(&mut found);
    proof {
        assert forall|k: int| 0 <= k < found@.len() implies pair_ok(
            (#[trigger] found@[k]).1@,
            min_size,
        ) && found@[k].0 == found@[k].1@.ratio_nanos by {
            lemma_permuted_membership(fpre, found@, k);
        }
        lemma_map_values_multiset(fpre, found@, |p: (u64, ConvergencePair)| p.1@);
    }
    let truncated = found.len() > cap;
    let mut pairs: Vec<ConvergencePair> = Vec::new();
    let ghost sorted = found@;
    let total: usize = found.len();
    let mut q: usize = 0;
    while found.len() > 0
        invariant
            total == sorted.len(),
            q == sorted.len() - found@.len(),
            0 <= q <= total,
            found@ =~= sorted.skip(q as int),
            pairs@.len() == q,
            forall|k: int| 0 <= k < q ==> pairs@[k] == (#[trigger] sorted[k]).1,
            forall|k: int|
                0 <= k < sorted.len() ==> pair_ok((#[trigger] sorted[k]).1@, min_size)
                    && sorted[k].0 == sorted[k].1@.ratio_nanos,
            forall|m1: int, m2: int|
                0 <= m1 < m2 < sorted.len() ==> (#[trigger] sorted[m1]).0 >= (
                #[trigger] sorted[m2]).0,
        decreases found@.len(),
    {
        let p = found.remove(0);
        pairs.push(p.1);
        proof {
            assert(sorted.skip(q as int).drop_first() =~= sorted.skip(q + 1));
        }
        q = q + 1;
    }
    let ghost full = cp_views(pairs@);
    proof {
        assert(forall|k: int| 0 <= k < pairs@.len() ==> pairs@[k] == (#[trigger] sorted[k]).1);
        assert(full =~= sorted.map_values(|p: (u64, ConvergencePair)| p.1@));
        assert(full.to_multiset() == gen_pairs(sv, 0).to_multiset());
        assert forall|k: int| 0 <= k < full.len() implies pair_ok(
            #[trigger] full[k],
            min_size,
        ) by {
            assert(full[k] == sorted[k].1@);
        }
        assert forall|x: int, y: int| 0 <= x < y < full.len() implies (
        #[trigger] full[x]).ratio_nanos >= (#[trigger] full[y]).ratio_nanos by {
            assert(full[x] == sorted[x].1@ && full[y] == sorted[y].1@);
        }
    }
    pairs.truncate(cap);
    proof {
        if effective_cap(max_pairs, limit) < full.len() {
            assert(cp_views(pairs@) =~= full.take(effective_cap(max_pairs, limit)));
        } else {
            assert(cp_views(pairs@) =~= full);
        }
        assert(truncated == (full.len() > effective_cap(max_pairs, limit)));
    }
    ConvergenceReport { pairs, truncated }
}

} // verus!
