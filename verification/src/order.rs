use vstd::prelude::*;

verus! {

use core::cmp::Ordering;
use vstd::relations::transitive;
use vstd::relations::total_ordering;
use vstd::multiset::Multiset;
use vstd::seq_lib::lemma_multiset_commutative;
use vstd::seq_lib::lemma_sorted_unique;
use vstd::relations::sorted_by;

/// What a single answer of a three-way comparator says about a candidate
/// order `leq`: any answer other than `Greater` places the pair in order,
/// and `Greater` places it in the reverse order.
pub open spec fn answer_respects<T>(leq: spec_fn(T, T) -> bool, x: T, y: T, o: Ordering) -> bool {
    &&& o != Ordering::Greater ==> leq(x, y)
    &&& o != Ordering::Less ==> leq(y, x)
}

/// The comparator `c` agrees with the transitive relation `leq`: every
/// answer `c` can give about a pair of values orders that pair under `leq`.
pub open spec fn cmp_agrees<T, C: Fn(&T, &T) -> Ordering>(c: C, leq: spec_fn(T, T) -> bool) -> bool {
    &&& transitive(leq)
    &&& forall|x: T, y: T, o: Ordering|
        #[trigger] call_ensures(c, (&x, &y), o) ==> answer_respects(leq, x, y, o)
}

/// The comparator may be applied to any two values drawn from `m`.
pub open spec fn cmp_callable<T, C: Fn(&T, &T) -> Ordering>(c: C, m: Multiset<T>) -> bool {
    forall|x: T, y: T|
        m.contains(x) && m.contains(y) ==> #[trigger] call_requires(c, (&x, &y))
}

/// `s` is ordered by `leq` on the index range `[lo, hi)`.
pub open spec fn sorted_range<T>(s: Seq<T>, lo: int, hi: int, leq: spec_fn(T, T) -> bool) -> bool {
    forall|i: int, j: int| lo <= i < j < hi ==> leq(#[trigger] s[i], #[trigger] s[j])
}

/// The sequence `s` with the values at `i` and `j` exchanged.
pub open spec fn swapped<T>(s: Seq<T>, i: int, j: int) -> Seq<T> {
    s.update(i, s[j]).update(j, s[i])
}

/// Updating one position replaces exactly that element in the multiset.
pub proof fn lemma_update_multiset<T>(s: Seq<T>, i: int, a: T)
    requires
        0 <= i < s.len(),
    ensures
        s.update(i, a).to_multiset() == s.to_multiset().remove(s[i]).insert(a),
{
    assert(s.update(i, a) =~= s.remove(i).insert(i, a));
    vstd::seq_lib::to_multiset_remove(s, i);
    vstd::seq_lib::to_multiset_insert(s.remove(i), i, a);
}

/// Exchanging two positions leaves the multiset of elements unchanged.
pub proof fn lemma_swap_multiset<T>(s: Seq<T>, i: int, j: int)
    requires
        0 <= i < s.len(),
        0 <= j < s.len(),
    ensures
        swapped(s, i, j).to_multiset() == s.to_multiset(),
{
    if i == j {
        assert(swapped(s, i, j) =~= s);
    } else {
        broadcast use vstd::seq_lib::group_to_multiset_ensures;

        let s1 = s.update(i, s[j]);
        lemma_update_multiset(s, i, s[j]);
        assert(s1[j] == s[j]);
        lemma_update_multiset(s1, j, s[i]);
        assert(s.contains(s[i]));
        assert(s.contains(s[j]));
        assert(s.to_multiset().count(s[i]) > 0);
        assert(s.to_multiset().count(s[j]) > 0);
        assert(swapped(s, i, j).to_multiset() =~= s.to_multiset());
    }
}

/// Two sequences that agree outside `[lo, hi)` hold the same elements as a
/// whole exactly when their `[lo, hi)` parts hold the same elements.
pub proof fn lemma_frame_multiset<T>(s1: Seq<T>, s2: Seq<T>, lo: int, hi: int)
    requires
        s1.len() == s2.len(),
        0 <= lo <= hi <= s1.len(),
        forall|k: int| 0 <= k < s1.len() && !(lo <= k < hi) ==> s1[k] == s2[k],
    ensures
        (s1.subrange(lo, hi).to_multiset() == s2.subrange(lo, hi).to_multiset())
            <==> (s1.to_multiset() == s2.to_multiset()),
{
    let n = s1.len() as int;
    let a1 = s1.subrange(0, lo);
    let b1 = s1.subrange(lo, hi);
    let c1 = s1.subrange(hi, n);
    let a2 = s2.subrange(0, lo);
    let b2 = s2.subrange(lo, hi);
    let c2 = s2.subrange(hi, n);
    assert(a1 =~= a2);
    assert(c1 =~= c2);
    assert(s1 =~= (a1 + b1) + c1);
    assert(s2 =~= (a2 + b2) + c2);
    lemma_multiset_commutative(a1 + b1, c1);
    lemma_multiset_commutative(a1, b1);
    lemma_multiset_commutative(a2 + b2, c2);
    lemma_multiset_commutative(a2, b2);
    if b1.to_multiset() == b2.to_multiset() {
        assert(s1.to_multiset() =~= s2.to_multiset());
    }
    if s1.to_multiset() == s2.to_multiset() {
        assert forall|x: T| true implies b1.to_multiset().count(x) == b2.to_multiset().count(x) by {
            assert(s1.to_multiset().count(x)
                == a1.to_multiset().count(x) + b1.to_multiset().count(x)
                    + c1.to_multiset().count(x));
            assert(s2.to_multiset().count(x)
                == a2.to_multiset().count(x) + b2.to_multiset().count(x)
                    + c2.to_multiset().count(x));
        }
        assert(b1.to_multiset() =~= b2.to_multiset());
    }
}

/// Relies on `<[T]>::swap`: exchanges the elements at indices `i` and `j`.
#[verifier::external_body]
fn swap_raw<T>(v: &mut Vec<T>, i: usize, j: usize)
    requires
        i < old(v)@.len(),
        j < old(v)@.len(),
    ensures
        final(v)@ == swapped(old(v)@, i as int, j as int),
{
    v.as_mut_slice().swap(i, j);
}

/// Exchange two elements in place, tracking the effect on the sequence.
pub(crate) fn exchange<T>(v: &mut Vec<T>, i: usize, j: usize)
    requires
        i < old(v)@.len(),
        j < old(v)@.len(),
    ensures
        final(v)@ == swapped(old(v)@, i as int, j as int),
        final(v)@.len() == old(v)@.len(),
        final(v)@.to_multiset() == old(v)@.to_multiset(),
        final(v)@[i as int] == old(v)@[j as int],
        final(v)@[j as int] == old(v)@[i as int],
        forall|k: int| 0 <= k < old(v)@.len() && k != i && k != j ==> final(v)@[k] == old(v)@[k],
{
    proof {
        lemma_swap_multiset(v@, i as int, j as int);
    }
    swap_raw(v, i, j);
}

/// Two sorted rearrangements of the same elements are the same sequence.
///
/// Under a total order, a sequence has exactly one sorted arrangement; so
/// sorting an already-sorted sequence returns it unchanged, and sorting
/// twice gives the same result as sorting once.
pub proof fn lemma_sorted_permutation_unique<T>(s1: Seq<T>, s2: Seq<T>, leq: spec_fn(T, T) -> bool)
    requires
        sorted_by(s1, leq),
        sorted_by(s2, leq),
        s1.to_multiset() == s2.to_multiset(),
        total_ordering(leq),
    ensures
        s1 == s2,
{
    lemma_sorted_unique(s1, s2, leq);
    assert(s1 =~= s2);
}

/// A rearrangement of a sequence of length at most one is that sequence.
pub proof fn lemma_short_range_fixed<T>(s1: Seq<T>, s2: Seq<T>)
    requires
        s1.to_multiset() == s2.to_multiset(),
        s1.len() <= 1,
    ensures
        s1 == s2,
{
    broadcast use vstd::seq_lib::group_to_multiset_ensures;

    assert(s1.to_multiset().len() == s1.len());
    assert(s2.to_multiset().len() == s2.len());
    if s1.len() == 0 {
        assert(s2.len() == 0);
        assert(s1 =~= s2);
    } else {
        assert(s2.len() == 1);
        assert(s1.contains(s1[0]));
        assert(s2.to_multiset().count(s1[0]) > 0);
        assert(s2.contains(s1[0]));
        assert(s2[0] == s1[0]);
        assert(s1 =~= s2);
    }
}

} // verus!
