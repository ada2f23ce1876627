//! Insertion sorts used by the aggregators, each stating order and
//! multiset preservation.
use vstd::prelude::*;
use vstd::seq_lib::lemma_multiset_commutative;
use vstd::multiset::Multiset;
use crate::text::{lex_le, lemma_lex_total, lemma_lex_trans};

verus! {

/// Inserting an element adds exactly it to the multiset of a sequence.
pub proof fn lemma_insert_multiset<T>(s: Seq<T>, k: int, x: T)
    requires
        0 <= k <= s.len(),
    ensures
        s.insert(k, x).to_multiset() =~= s.to_multiset().insert(x),
{
    broadcast use vstd::seq_lib::group_to_multiset_ensures;

    let left = s.take(k);
    let right = s.skip(k);
    assert(s.insert(k, x) =~= left + (seq![x] + right));
    lemma_multiset_commutative(left, seq![x] + right);
    lemma_multiset_commutative(seq![x], right);
    assert(s =~= left + right);
    lemma_multiset_commutative(left, right);
    assert(seq![x].to_multiset() =~= Multiset::<T>::empty().insert(x));
}

/// Taking an element out and putting it back elsewhere leaves the
/// multiset of a sequence unchanged.
pub proof fn lemma_remove_insert_multiset<T>(s: Seq<T>, i: int, k: int)
    requires
        0 <= i < s.len(),
        0 <= k <= s.len() - 1,
    ensures
        s.remove(i).insert(k, s[i]).to_multiset() =~= s.to_multiset(),
{
    broadcast use vstd::seq_lib::group_to_multiset_ensures;

    lemma_insert_multiset(s.remove(i), k, s[i]);
}

/// Sort unsigned keys ascending.
pub fn sort_u64s(v: &mut Vec<u64>) -> (r: ())
    ensures
        forall|a: int, b: int| 0 <= a < b < final(v)@.len() ==> final(v)@[a] <= final(v)@[b],
        final(v)@.to_multiset() == old(v)@.to_multiset(),
        final(v)@.len() == old(v)@.len(),
{
    let mut i: usize = 1;
    while i < v.len()
        invariant
            1 <= i <= v@.len() || v@.len() == 0,
            v@.len() == old(v)@.len(),
            v@.to_multiset() == old(v)@.to_multiset(),
            forall|a: int, b: int| 0 <= a < b < i ==> v@[a] <= v@[b],
        decreases v@.len() - i,
    {
        let mut j: usize = 0;
        while j < i && v[j] <= v[i]
            invariant
                0 <= j <= i < v@.len(),
                forall|l: int| 0 <= l < j ==> v@[l] <= v@[i as int],
            decreases i - j,
        {
            j = j + 1;
        }
        let ghost prev = v@;
        let x = v.remove(i);
        v.insert(j, x);
        proof {
            lemma_remove_insert_multiset(prev, i as int, j as int);
            assert(v@ =~= prev.remove(i as int).insert(j as int, prev[i as int]));
            assert forall|a: int, b: int| 0 <= a < b < i + 1 implies v@[a] <= v@[b] by {
                assert(forall|l: int| 0 <= l < v@.len() ==> v@[l] == (if l < j {
                    prev[l]
                } else if l == j {
                    prev[i as int]
                } else if l <= i {
                    prev[l - 1]
                } else {
                    prev[l]
                }));
            }
        }
        i = i + 1;
    }
}

/// Sort unsigned keys descending, any payload carried along.
pub fn sort_pairs_desc<T>(v: &mut Vec<(u64, T)>) -> (r: ())
    ensures
        forall|a: int, b: int| 0 <= a < b < final(v)@.len() ==> final(v)@[a].0 >= final(v)@[b].0,
        final(v)@.to_multiset() == old(v)@.to_multiset(),
        final(v)@.len() == old(v)@.len(),
{
    let mut i: usize = 1;
    while i < v.len()
        invariant
            1 <= i <= v@.len() || v@.len() == 0,
            v@.len() == old(v)@.len(),
            v@.to_multiset() == old(v)@.to_multiset(),
            forall|a: int, b: int| 0 <= a < b < i ==> v@[a].0 >= v@[b].0,
        decreases v@.len() - i,
    {
        let mut j: usize = 0;
        while j < i && v[j].0 >= v[i].0
            invariant
                0 <= j <= i < v@.len(),
                forall|l: int| 0 <= l < j ==> v@[l].0 >= v@[i as int].0,
            decreases i - j,
        {
            j = j + 1;
        }
        let ghost prev = v@;
        let ghost jg = j as int;
        let ghost ig = i as int;
        let x = v.remove(i);
        v.insert(j, x);
        proof {
            lemma_remove_insert_multiset(prev, ig, jg);
            assert(v@ =~= prev.remove(ig).insert(jg, prev[ig]));
            assert(forall|l: int| 0 <= l < v@.len() ==> v@[l] == (if l < jg {
                prev[l]
            } else if l == jg {
                prev[ig]
            } else if l <= ig {
                prev[l - 1]
            } else {
                prev[l]
            }));
        }
        i = i + 1;
    }
}

/// Sort unsigned keys ascending, any payload carried along.
pub fn sort_pairs_asc<T>(v: &mut Vec<(u64, T)>) -> (r: ())
    ensures
        forall|a: int, b: int| 0 <= a < b < final(v)@.len() ==> final(v)@[a].0 <= final(v)@[b].0,
        final(v)@.to_multiset() == old(v)@.to_multiset(),
        final(v)@.len() == old(v)@.len(),
{
    let mut i: usize = 1;
    while i < v.len()
        invariant
            1 <= i <= v@.len() || v@.len() == 0,
            v@.len() == old(v)@.len(),
            v@.to_multiset() == old(v)@.to_multiset(),
            forall|a: int, b: int| 0 <= a < b < i ==> v@[a].0 <= v@[b].0,
        decreases v@.len() - i,
    {
        let mut j: usize = 0;
        while j < i && v[j].0 <= v[i].0
            invariant
                0 <= j <= i < v@.len(),
                forall|l: int| 0 <= l < j ==> v@[l].0 <= v@[i as int].0,
            decreases i - j,
        {
            j = j + 1;
        }
        let ghost prev = v@;
        let ghost jg = j as int;
        let ghost ig = i as int;
        let x = v.remove(i);
        v.insert(j, x);
        proof {
            lemma_remove_insert_multiset(prev, ig, jg);
            assert(v@ =~= prev.remove(ig).insert(jg, prev[ig]));
            assert(forall|l: int| 0 <= l < v@.len() ==> v@[l] == (if l < jg {
                prev[l]
            } else if l == jg {
                prev[ig]
            } else if l <= ig {
                prev[l - 1]
            } else {
                prev[l]
            }));
        }
        i = i + 1;
    }
}

/// Sort signed keys ascending, any payload carried along.
pub fn sort_pairs_asc_i64<T>(v: &mut Vec<(i64, T)>) -> (r: ())
    ensures
        forall|a: int, b: int| 0 <= a < b < final(v)@.len() ==> final(v)@[a].0 <= final(v)@[b].0,
        final(v)@.to_multiset() == old(v)@.to_multiset(),
        final(v)@.len() == old(v)@.len(),
{
    let mut i: usize = 1;
    while i < v.len()
        invariant
            1 <= i <= v@.len() || v@.len() == 0,
            v@.len() == old(v)@.len(),
            v@.to_multiset() == old(v)@.to_multiset(),
            forall|a: int, b: int| 0 <= a < b < i ==> v@[a].0 <= v@[b].0,
        decreases v@.len() - i,
    {
        let mut j: usize = 0;
        while j < i && v[j].0 <= v[i].0
            invariant
                0 <= j <= i < v@.len(),
                forall|l: int| 0 <= l < j ==> v@[l].0 <= v@[i as int].0,
            decreases i - j,
        {
            j = j + 1;
        }
        let ghost prev = v@;
        let ghost jg = j as int;
        let ghost ig = i as int;
        let x = v.remove(i);
        v.insert(j, x);
        proof {
            lemma_remove_insert_multiset(prev, ig, jg);
            assert(v@ =~= prev.remove(ig).insert(jg, prev[ig]));
            assert(forall|l: int| 0 <= l < v@.len() ==> v@[l] == (if l < jg {
                prev[l]
            } else if l == jg {
                prev[ig]
            } else if l <= ig {
                prev[l - 1]
            } else {
                prev[l]
            }));
        }
        i = i + 1;
    }
}

/// Sort strings ascending in lexicographic order.
pub fn sort_strings(v: &mut Vec<String>) -> (r: ())
    ensures
        forall|a: int, b: int|
            0 <= a < b < final(v)@.len() ==> lex_le(final(v)@[a]@, final(v)@[b]@),
        final(v)@.to_multiset() == old(v)@.to_multiset(),
        final(v)@.len() == old(v)@.len(),
{
    let mut i: usize = 1;
    while i < v.len()
        invariant
            1 <= i <= v@.len() || v@.len() == 0,
            v@.len() == old(v)@.len(),
            v@.to_multiset() == old(v)@.to_multiset(),
            forall|a: int, b: int| 0 <= a < b < i ==> lex_le(v@[a]@, v@[b]@),
        decreases v@.len() - i,
    {
        let mut j: usize = 0;
        while j < i && crate::text::str_lex_le(v[j].as_str(), v[i].as_str())
            invariant
                0 <= j <= i < v@.len(),
                forall|l: int| 0 <= l < j ==> lex_le(v@[l]@, v@[i as int]@),
            decreases i - j,
        {
            j = j + 1;
        }
        proof {
            if j < i {
                lemma_lex_total(v@[j as int]@, v@[i as int]@);
            }
        }
        let ghost prev = v@;
        let ghost jg = j as int;
        let ghost ig = i as int;
        let x = v.remove(i);
        v.insert(j, x);
        proof {
            lemma_remove_insert_multiset(prev, ig, jg);
            assert(v@ =~= prev.remove(ig).insert(jg, prev[ig]));
            assert(forall|l: int| 0 <= l < v@.len() ==> v@[l] == (if l < jg {
                prev[l]
            } else if l == jg {
                prev[ig]
            } else if l <= ig {
                prev[l - 1]
            } else {
                prev[l]
            }));
            assert forall|a: int, b: int| 0 <= a < b < i + 1 implies lex_le(v@[a]@, v@[b]@) by {
                if a == jg && b > jg {
                    if b - 1 > jg {
                        lemma_lex_trans(prev[ig]@, prev[jg]@, prev[b - 1]@);
                    }
                }
            }
        }
        i = i + 1;
    }
}

/// Sort string keys ascending in lexicographic order, any payload
/// carried along.
pub fn sort_by_str<T>(v: &mut Vec<(String, T)>) -> (r: ())
    ensures
        forall|a: int, b: int|
            0 <= a < b < final(v)@.len() ==> lex_le(final(v)@[a].0@, final(v)@[b].0@),
        final(v)@.to_multiset() == old(v)@.to_multiset(),
        final(v)@.len() == old(v)@.len(),
{
    let mut i: usize = 1;
    while i < v.len()
        invariant
            1 <= i <= v@.len() || v@.len() == 0,
            v@.len() == old(v)@.len(),
            v@.to_multiset() == old(v)@.to_multiset(),
            forall|a: int, b: int| 0 <= a < b < i ==> lex_le(v@[a].0@, v@[b].0@),
        decreases v@.len() - i,
    {
        let mut j: usize = 0;
        while j < i && crate::text::str_lex_le(v[j].0.as_str(), v[i].0.as_str())
            invariant
                0 <= j <= i < v@.len(),
                forall|l: int| 0 <= l < j ==> lex_le(v@[l].0@, v@[i as int].0@),
            decreases i - j,
        {
            j = j + 1;
        }
        proof {
            if j < i {
                lemma_lex_total(v@[j as int].0@, v@[i as int].0@);
            }
        }
        let ghost prev = v@;
        let ghost jg = j as int;
        let ghost ig = i as int;
        let x = v.remove(i);
        v.insert(j, x);
        proof {
            lemma_remove_insert_multiset(prev, ig, jg);
            assert(v@ =~= prev.remove(ig).insert(jg, prev[ig]));
            assert(forall|l: int| 0 <= l < v@.len() ==> v@[l] == (if l < jg {
                prev[l]
            } else if l == jg {
                prev[ig]
            } else if l <= ig {
                prev[l - 1]
            } else {
                prev[l]
            }));
            assert forall|a: int, b: int| 0 <= a < b < i + 1 implies lex_le(
                v@[a].0@,
                v@[b].0@,
            ) by {
                if a == jg && b > jg {
                    if b - 1 > jg {
                        lemma_lex_trans(prev[ig].0@, prev[jg].0@, prev[b - 1].0@);
                    }
                }
            }
        }
        i = i + 1;
    }
}

/// Under a fixed mapping, multiset-equal sequences map to multiset-equal
/// sequences.
pub proof fn lemma_map_values_multiset<A, B>(a: Seq<A>, b: Seq<A>, f: spec_fn(A) -> B)
    requires
        a.to_multiset() == b.to_multiset(),
    ensures
        a.map_values(f).to_multiset() == b.map_values(f).to_multiset(),
    decreases a.len(),
{
    broadcast use vstd::seq_lib::group_to_multiset_ensures;

    if a.len() == 0 {
        assert(a.to_multiset().len() == 0);
        assert(b.len() == 0);
        assert(a.map_values(f) =~= b.map_values(f));
    } else {
        let x = a[0];
        assert(a.to_multiset().contains(x));
        assert(b.to_multiset().contains(x));
        assert(b.contains(x));
        let j = choose|j: int| 0 <= j < b.len() && b[j] == x;
        let a1 = a.remove(0);
        let b1 = b.remove(j);
        assert(a1.to_multiset() =~= a.to_multiset().remove(x));
        assert(b1.to_multiset() =~= b.to_multiset().remove(x));
        lemma_map_values_multiset(a1, b1, f);
        assert(a.map_values(f).remove(0) =~= a1.map_values(f));
        assert(b.map_values(f).remove(j) =~= b1.map_values(f));
        assert(a.map_values(f).remove(0).to_multiset() =~= a.map_values(f).to_multiset().remove(
            f(x),
        ));
        assert(b.map_values(f).remove(j).to_multiset() =~= b.map_values(f).to_multiset().remove(
            f(x),
        ));
        assert(a.map_values(f).to_multiset().contains(f(x)));
        assert(b.map_values(f).to_multiset().contains(f(x)));
        assert(a.map_values(f).to_multiset() =~= a1.map_values(f).to_multiset().insert(f(x)));
        assert(b.map_values(f).to_multiset() =~= b1.map_values(f).to_multiset().insert(f(x)));
    }
}

/// A permutation cannot introduce duplicate keys: if the keys of `a`
/// are pairwise distinct, so are the keys of any reordering `b`.
pub proof fn lemma_permuted_distinct<A, B>(a: Seq<A>, b: Seq<A>, f: spec_fn(A) -> B)
    requires
        a.to_multiset() == b.to_multiset(),
        a.map_values(f).no_duplicates(),
    ensures
        b.map_values(f).no_duplicates(),
{
    lemma_map_values_multiset(a, b, f);
    a.map_values(f).lemma_multiset_has_no_duplicates();
    b.map_values(f).lemma_multiset_has_no_duplicates_conv();
}

/// Every element of a reordering is an element of the original.
pub proof fn lemma_permuted_membership<A>(a: Seq<A>, b: Seq<A>, k: int)
    requires
        a.to_multiset() == b.to_multiset(),
        0 <= k < b.len(),
    ensures
        exists|u: int| 0 <= u < a.len() && a[u] == b[k],
{
    broadcast use vstd::seq_lib::group_to_multiset_ensures;

    assert(b.to_multiset().contains(b[k]));
    assert(a.contains(b[k]));
}

} // verus!
