//! Multi-window trend comparison: direction labels for commit counts
//! and fix rates, and the dormant-file computation across windows.
use vstd::prelude::*;
use crate::sorting::{sort_strings, lemma_permuted_membership, lemma_permuted_distinct};
use crate::text::{str_views, vec_contains_string, lex_le};

verus! {

/// A trend direction between two windows.
#[derive(Clone, Copy, Debug, PartialEq, Eq, Structural)]
pub enum Trend {
    /// The newer value exceeds the older by more than ten percent.
    Increasing,
    /// The newer value falls short by more than ten percent.
    Decreasing,
    /// The two values lie within ten percent of each other.
    Stable,
}

impl Trend {
    /// The report name of this direction.
    pub fn as_str(&self) -> (r: &'static str)
        ensures
            (*self == Trend::Increasing ==> r@ == "increasing"@) && (*self == Trend::Decreasing
                ==> r@ == "decreasing"@) && (*self == Trend::Stable ==> r@ == "stable"@),
    {
        match self {
            Trend::Increasing => "increasing",
            Trend::Decreasing => "decreasing",
            Trend::Stable => "stable",
        }
    }
}

/// The trend between two counts: stable within ten percent, otherwise
/// the direction of the change. A rise from zero is increasing; two
/// zeroes are stable.
pub open spec fn spec_trend(latest: int, previous: int) -> Trend {
    if previous == 0 && latest == 0 {
        Trend::Stable
    } else if previous == 0 {
        Trend::Increasing
    } else if 10 * (latest - previous) > previous {
        Trend::Increasing
    } else if 10 * (previous - latest) > previous {
        Trend::Decreasing
    } else {
        Trend::Stable
    }
}

/// The trend between two window commit counts.
pub fn trend_of_counts(latest: u64, previous: u64) -> (r: Trend)
    ensures
        r == spec_trend(latest as int, previous as int),
{
    if previous == 0 && latest == 0 {
        Trend::Stable
    } else if previous == 0 {
        Trend::Increasing
    } else if latest > previous && 10 * ((latest - previous) as u128) > previous as u128 {
        Trend::Increasing
    } else if previous > latest && 10 * ((previous - latest) as u128) > previous as u128 {
        Trend::Decreasing
    } else {
        Trend::Stable
    }
}

/// The trend between two fix rates `lf/lt` and `pf/pt`, compared
/// exactly by cross-multiplication. A window without commits has rate
/// zero.
pub open spec fn spec_rate_trend(lf: int, lt: int, pf: int, pt: int) -> Trend {
    let prev_zero = pf == 0 || pt == 0;
    let latest_zero = lf == 0 || lt == 0;
    if prev_zero && latest_zero {
        Trend::Stable
    } else if prev_zero {
        Trend::Increasing
    } else if latest_zero {
        Trend::Decreasing
    } else if 10 * (lf * pt - pf * lt) > pf * lt {
        Trend::Increasing
    } else if 10 * (pf * lt - lf * pt) > pf * lt {
        Trend::Decreasing
    } else {
        Trend::Stable
    }
}

/// The trend between two windows' fix rates.
pub fn fix_rate_trend(lf: u64, lt: u64, pf: u64, pt: u64) -> (r: Trend)
    requires
        lf <= 0xFFFF_FFFF,
        lt <= 0xFFFF_FFFF,
        pf <= 0xFFFF_FFFF,
        pt <= 0xFFFF_FFFF,
    ensures
        r == spec_rate_trend(lf as int, lt as int, pf as int, pt as int),
{
    let prev_zero = pf == 0 || pt == 0;
    let latest_zero = lf == 0 || lt == 0;
    if prev_zero && latest_zero {
        return Trend::Stable;
    }
    if prev_zero {
        return Trend::Increasing;
    }
    if latest_zero {
        return Trend::Decreasing;
    }
    proof {
        vstd::arithmetic::mul::lemma_mul_inequality(lf as int, 0xFFFF_FFFF, pt as int);
        vstd::arithmetic::mul::lemma_mul_inequality(pt as int, 0xFFFF_FFFF, 0xFFFF_FFFF);
        vstd::arithmetic::mul::lemma_mul_inequality(pf as int, 0xFFFF_FFFF, lt as int);
        vstd::arithmetic::mul::lemma_mul_inequality(lt as int, 0xFFFF_FFFF, 0xFFFF_FFFF);
    }
    let a: u128 = (lf as u128) * (pt as u128);
    let b: u128 = (pf as u128) * (lt as u128);
    if a > b && 10 * (a - b) > b {
        Trend::Increasing
    } else if b > a && 10 * (b - a) > b {
        Trend::Decreasing
    } else {
        Trend::Stable
    }
}

/// The trend pair comparing the newest window to the prior one.
pub struct Deltas {
    /// How the commit count moved.
    pub commit_trend: Trend,
    /// How the fix rate moved.
    pub fix_rate_trend: Trend,
}

/// A path is active in some window older than the newest.
pub open spec fn in_older(sets: Seq<Seq<String>>, p: Seq<char>) -> bool {
    exists|w: int| 1 <= w < sets.len() && str_views(#[trigger] sets[w]).contains(p)
}

/// Dormant files across windows: active in an older window, absent from
/// the newest, deduplicated and sorted. Fewer than two windows yield
/// nothing.
pub fn compute_dormant(file_sets: &Vec<Vec<String>>) -> (r: Vec<String>)
    ensures
        file_sets@.len() < 2 ==> r@.len() == 0,
        str_views(r@).no_duplicates(),
        forall|a: int, b: int| 0 <= a < b < r@.len() ==> lex_le(r@[a]@, r@[b]@),
        file_sets@.len() >= 2 ==> forall|k: int|
            0 <= k < r@.len() ==> in_older(
                file_sets@.map_values(|v: Vec<String>| v@),
                (#[trigger] r@[k])@,
            ) && !str_views(file_sets@[0]@).contains(r@[k]@),
        forall|w: int, m: int|
            1 <= w < file_sets@.len() && 0 <= m < file_sets@[w]@.len() && !str_views(
                file_sets@[0]@,
            ).contains((#[trigger] file_sets@[w]@[m])@) ==> str_views(r@).contains(
                file_sets@[w]@[m]@,
            ),
{
    let ghost sets = file_sets@.map_values(|v: Vec<String>| v@);
    if file_sets.len() < 2 {
        proof {
            assert(str_views(Seq::<String>::empty()).no_duplicates()) by {
                assert(str_views(Seq::<String>::empty()) =~= Seq::<Seq<char>>::empty());
            }
        }
        return Vec::new();
    }
    let mut r: Vec<String> = Vec::new();
    let mut w: usize = 1;
    while w < file_sets.len()
        invariant
            1 <= w <= file_sets@.len(),
            2 <= file_sets@.len(),
            sets == file_sets@.map_values(|v: Vec<String>| v@),
            sets.len() == file_sets@.len(),
            str_views(r@).no_duplicates(),
            forall|k: int|
                0 <= k < r@.len() ==> in_older(sets, (#[trigger] r@[k])@) && !str_views(
                    file_sets@[0]@,
                ).contains(r@[k]@),
            forall|w2: int, m: int|
                1 <= w2 < w && 0 <= m < file_sets@[w2]@.len() && !str_views(
                    file_sets@[0]@,
                ).contains((#[trigger] file_sets@[w2]@[m])@) ==> str_views(r@).contains(
                    file_sets@[w2]@[m]@,
                ),
        decreases file_sets@.len() - w,
    {
        let mut m: usize = 0;
        while m < file_sets[w].len()
            invariant
                1 <= w < file_sets@.len(),
                2 <= file_sets@.len(),
                0 <= m <= file_sets@[w as int]@.len(),
                sets == file_sets@.map_values(|v: Vec<String>| v@),
                sets.len() == file_sets@.len(),
                str_views(r@).no_duplicates(),
                forall|k: int|
                    0 <= k < r@.len() ==> in_older(sets, (#[trigger] r@[k])@) && !str_views(
                        file_sets@[0]@,
                    ).contains(r@[k]@),
                forall|w2: int, m2: int|
                    1 <= w2 < w && 0 <= m2 < file_sets@[w2]@.len() && !str_views(
                        file_sets@[0]@,
                    ).contains((#[trigger] file_sets@[w2]@[m2])@) ==> str_views(r@).contains(
                        file_sets@[w2]@[m2]@,
                    ),
                forall|m2: int|
                    0 <= m2 < m && !str_views(file_sets@[0]@).contains(
                        (#[trigger] file_sets@[w as int]@[m2])@,
                    ) ==> str_views(r@).contains(file_sets@[w as int]@[m2]@),
            decreases file_sets@[w as int]@.len() - m,
        {
            let ghost x = file_sets@[w as int]@[m as int]@;
            let in_newest = vec_contains_string(&file_sets[0], &file_sets[w][m]);
            proof {
                if in_newest {
                    let w0 = choose|w0: int|
                        0 <= w0 < file_sets@[0]@.len() && file_sets@[0]@[w0]@ == x;
                    assert(str_views(file_sets@[0]@)[w0] == x);
                } else {
                    if str_views(file_sets@[0]@).contains(x) {
                        let w0 = choose|w0: int|
                            0 <= w0 < str_views(file_sets@[0]@).len() && str_views(
                                file_sets@[0]@,
                            )[w0] == x;
                        assert(file_sets@[0]@[w0]@ == x);
                    }
                }
            }
            if !in_newest {
                if !vec_contains_string(&r, &file_sets[w][m]) {
                    proof {
                        assert(!str_views(r@).contains(x)) by {
                            if str_views(r@).contains(x) {
                                let w0 = choose|w0: int|
                                    0 <= w0 < str_views(r@).len() && str_views(r@)[w0] == x;
                                assert(r@[w0]@ == x);
                            }
                        }
                        assert(in_older(sets, x)) by {
                            assert(sets[w as int] == file_sets@[w as int]@);
                            assert(str_views(sets[w as int])[m as int] == x);
                        }
                    }
                    let ghost prev = str_views(r@);
                    r.push(file_sets[w][m].clone());
                    proof {
                        assert(str_views(r@) =~= prev.push(x));
                        assert(forall|w0: int|
                            0 <= w0 < prev.len() ==> str_views(r@)[w0] == prev[w0]);
                        assert(str_views(r@).no_duplicates()) by {
                            assert forall|k1: int, k2: int|
                                0 <= k1 < k2 < str_views(r@).len() implies str_views(r@)[k1]
                                != str_views(r@)[k2] by {
                                if k2 == str_views(r@).len() - 1 {
                                    assert(!prev.contains(x));
                                    assert(prev[k1] != x);
                                }
                            }
                        }
                        assert forall|y: Seq<char>| prev.contains(y) implies str_views(
                            r@,
                        ).contains(y) by {
                            let w0 = choose|w0: int| 0 <= w0 < prev.len() && prev[w0] == y;
                            assert(str_views(r@)[w0] == y);
                        }
                        assert(str_views(r@).contains(x)) by {
                            assert(str_views(r@)[str_views(r@).len() - 1] == x);
                        }
                    }
                } else {
                    proof {
                        assert(str_views(r@).contains(x)) by {
                            let w0 = choose|w0: int| 0 <= w0 < r@.len() && r@[w0]@ == x;
                            assert(str_views(r@)[w0] == x);
                        }
                    }
                }
            }
            m = m + 1;
        }
        w = w + 1;
    }
    let ghost rpre = r@;
    sort_strings(&mut r);
    proof {
        assert forall|k: int| 0 <= k < r@.len() implies in_older(
            sets,
            (#[trigger] r@[k])@,
        ) && !str_views(file_sets@[0]@).contains(r@[k]@) by {
            lemma_permuted_membership(rpre, r@, k);
        }
        lemma_permuted_distinct(rpre, r@, |x: String| x@);
        assert(str_views(r@) =~= r@.map_values(|x: String| x@));
        assert(str_views(rpre) =~= rpre.map_values(|x: String| x@));
        assert forall|w2: int, m2: int|
            1 <= w2 < file_sets@.len() && 0 <= m2 < file_sets@[w2]@.len() && !str_views(
                file_sets@[0]@,
            ).contains((#[trigger] file_sets@[w2]@[m2])@) implies str_views(r@).contains(
            file_sets@[w2]@[m2]@,
        ) by {
            let y = file_sets@[w2]@[m2]@;
            let w0 = choose|w0: int| 0 <= w0 < rpre.len() && str_views(rpre)[w0] == y;
            lemma_permuted_membership(r@, rpre, w0);
            let w1 = choose|w1: int| 0 <= w1 < r@.len() && r@[w1] == rpre[w0];
            assert(str_views(r@)[w1] == y);
        }
    }
    r
}

} // verus!
