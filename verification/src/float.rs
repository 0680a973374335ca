use vstd::prelude::*;

verus! {

use core::cmp::Ordering;
use vstd::multiset::Multiset;
use vstd::relations::sorted_by;
use crate::order::cmp_agrees;
use crate::order::answer_respects;
use crate::order::lemma_update_multiset;
use crate::sort::sort_range;
use crate::sort::lemma_permutes_whole;

/// Minimal trait required for sorting floating-point-like values.
///
/// The three specification functions classify a value (NaN, numerically
/// zero, sign bit set) and `le_spec` is the hardware order, meaningful
/// between values that are not NaN. The executable methods decide these;
/// an implementation outside this crate is trusted to meet their contracts.
pub trait Float: Sized + Copy {
    /// The value is NaN.
    spec fn is_nan_spec(self) -> bool;

    /// The value is numerically zero, of either sign.
    spec fn is_zero_spec(self) -> bool;

    /// The sign bit is set: negative values, `-0.0` and `-inf`.
    spec fn sign_neg_spec(self) -> bool;

    /// Hardware `<=`, meaningful when neither side is NaN.
    spec fn le_spec(self, other: Self) -> bool;

    /// Returns `1.0`.
    fn one() -> (r: Self)
        ensures
            !r.is_nan_spec(),
            !r.is_zero_spec(),
            !r.sign_neg_spec(),
    ;

    /// Returns `0.0`.
    fn zero() -> (r: Self)
        ensures
            r.is_zero_spec(),
            !r.sign_neg_spec(),
            !r.is_nan_spec(),
    ;

    /// Returns `-0.0`.
    fn neg_zero() -> (r: Self)
        ensures
            r.is_zero_spec(),
            r.sign_neg_spec(),
            !r.is_nan_spec(),
    ;

    /// Returns `true` if this value is `NaN` and `false` otherwise.
    fn is_nan(self) -> (r: bool)
        ensures
            r == self.is_nan_spec(),
    ;

    /// Returns `true` if the sign bit is set, including `-0.0` and `-inf`.
    fn is_sign_negative(self) -> (r: bool)
        ensures
            r == self.sign_neg_spec(),
    ;

    /// Hardware three-way comparison; `None` exactly when a side is NaN.
    fn pcmp(&self, other: &Self) -> (o: Option<Ordering>)
        ensures
            (o is None) <==> (self.is_nan_spec() || other.is_nan_spec()),
            o == Some(Ordering::Less) ==> self.le_spec(*other) && !other.le_spec(*self),
            o == Some(Ordering::Equal) ==> self.le_spec(*other) && other.le_spec(*self),
            o == Some(Ordering::Greater) ==> other.le_spec(*self) && !self.le_spec(*other),
    ;
}

/// What hardware comparison guarantees on any faithful `Float` type: the
/// order is total and transitive away from NaN, the two zeros compare
/// equal to each other and to nothing else, zeros are not NaN, and a value
/// is strictly below zero exactly when its sign bit is set and it is not
/// itself a zero.
pub open spec fn float_laws<T: Float>() -> bool {
    &&& forall|a: T, b: T|
        !a.is_nan_spec() && !b.is_nan_spec() ==> #[trigger] a.le_spec(b) || #[trigger] b.le_spec(a)
    &&& forall|a: T, b: T, c: T|
        !a.is_nan_spec() && !b.is_nan_spec() && !c.is_nan_spec() && #[trigger] a.le_spec(b)
            && #[trigger] b.le_spec(c) ==> a.le_spec(c)
    &&& forall|a: T| #[trigger] a.is_zero_spec() ==> !a.is_nan_spec()
    &&& forall|a: T, z: T|
        !a.is_nan_spec() && z.is_zero_spec() ==> ((#[trigger] a.le_spec(z) && #[trigger] z.le_spec(
            a,
        )) <==> a.is_zero_spec())
    &&& forall|a: T, z: T|
        !a.is_nan_spec() && z.is_zero_spec() ==> ((#[trigger] a.le_spec(z) && !z.le_spec(a)) <==> (
        a.sign_neg_spec() && !a.is_zero_spec()))
}

/// Hardware order, extended so NaN sits below everything: a transitive
/// relation that equals `le_spec` wherever no NaN is involved.
pub open spec fn hw_le<T: Float>(a: T, b: T) -> bool {
    if a.is_nan_spec() {
        true
    } else if b.is_nan_spec() {
        false
    } else {
        a.le_spec(b)
    }
}

pub open spec fn hw_le_fn<T: Float>() -> spec_fn(T, T) -> bool {
    |a: T, b: T| hw_le(a, b)
}

/// The total order the float sort establishes:
/// `-inf < negative < -0 < +0 < positive < +inf < NaN`.
pub open spec fn float_le<T: Float>(a: T, b: T) -> bool {
    if a.is_nan_spec() {
        b.is_nan_spec()
    } else if b.is_nan_spec() {
        true
    } else if a.is_zero_spec() && b.is_zero_spec() {
        a.sign_neg_spec() || !b.sign_neg_spec()
    } else {
        a.le_spec(b)
    }
}

pub open spec fn float_le_fn<T: Float>() -> spec_fn(T, T) -> bool {
    |a: T, b: T| float_le(a, b)
}

/// Strictly below zero under the hardware order.
pub open spec fn below_zero<T: Float>(a: T) -> bool {
    !a.is_nan_spec() && a.sign_neg_spec() && !a.is_zero_spec()
}

/// The value is a zero of negative sign.
pub open spec fn is_neg_zero<T: Float>(a: T) -> bool {
    a.is_zero_spec() && a.sign_neg_spec()
}

/// The value is a zero of positive sign.
pub open spec fn is_pos_zero<T: Float>(a: T) -> bool {
    a.is_zero_spec() && !a.sign_neg_spec()
}

/// No element of `s` is NaN.
pub open spec fn nan_free<T: Float>(s: Seq<T>) -> bool {
    forall|k: int| 0 <= k < s.len() ==> !(#[trigger] s[k]).is_nan_spec()
}

/// How many elements of the multiset satisfy `p`.
pub open spec fn class_count<T>(m: Multiset<T>, p: spec_fn(T) -> bool) -> nat {
    m.filter(p).len()
}

proof fn lemma_class_count_insert<T>(m: Multiset<T>, p: spec_fn(T) -> bool, x: T)
    ensures
        class_count(m.insert(x), p) == class_count(m, p) + (if p(x) {
            1nat
        } else {
            0nat
        }),
{
    broadcast use vstd::multiset::group_multiset_axioms;
    broadcast use vstd::multiset::lemma_insert_len;

    if p(x) {
        assert(m.insert(x).filter(p) =~= m.filter(p).insert(x));
    } else {
        assert(m.insert(x).filter(p) =~= m.filter(p));
    }
}

proof fn lemma_class_count_remove<T>(m: Multiset<T>, p: spec_fn(T) -> bool, x: T)
    requires
        m.count(x) > 0,
    ensures
        class_count(m, p) == class_count(m.remove(x), p) + (if p(x) {
            1nat
        } else {
            0nat
        }),
{
    broadcast use vstd::multiset::group_multiset_axioms;

    assert(m =~= m.remove(x).insert(x));
    lemma_class_count_insert(m.remove(x), p, x);
}


/// A value is strictly below a zero exactly when it is sign-negative and
/// not itself a zero.
proof fn lemma_strict_neg_iff<T: Float>(x: T, z: T)
    requires
        float_laws::<T>(),
        !x.is_nan_spec(),
        z.is_zero_spec(),
    ensures
        (x.le_spec(z) && !z.le_spec(x)) <==> (x.sign_neg_spec() && !x.is_zero_spec()),
        !z.is_nan_spec(),
{
}

/// A value compares equal to a zero exactly when it is itself a zero.
proof fn lemma_zero_iff<T: Float>(x: T, z: T)
    requires
        float_laws::<T>(),
        !x.is_nan_spec(),
        z.is_zero_spec(),
    ensures
        (x.le_spec(z) && z.le_spec(x)) <==> x.is_zero_spec(),
        !z.is_nan_spec(),
{
}

/// Hardware order is total away from NaN.
proof fn lemma_hw_total<T: Float>(x: T, y: T)
    requires
        float_laws::<T>(),
        !x.is_nan_spec(),
        !y.is_nan_spec(),
    ensures
        x.le_spec(y) || y.le_spec(x),
{
}

/// Hardware order is transitive away from NaN.
proof fn lemma_hw_trans<T: Float>(x: T, y: T, z: T)
    requires
        float_laws::<T>(),
        !x.is_nan_spec(),
        !y.is_nan_spec(),
        !z.is_nan_spec(),
        x.le_spec(y),
        y.le_spec(z),
    ensures
        x.le_spec(z),
{
}

/// Find the first index of a sorted, NaN-free sequence whose value is not
/// strictly below zero: a lower-bound halving search followed by a short
/// defensive forward walk.
pub fn find_first_zero<T: Float>(v: &[T]) -> (r: usize)
    ensures
        r <= v@.len(),
        (float_laws::<T>() && nan_free(v@) && sorted_by(v@, hw_le_fn::<T>())) ==> {
            &&& forall|k: int| 0 <= k < r ==> below_zero(#[trigger] v@[k])
            &&& r < v@.len() ==> !below_zero(v@[r as int])
        },
{
    let ghost ok = float_laws::<T>() && nan_free(v@) && sorted_by(v@, hw_le_fn::<T>());
    let z: T = T::zero();
    let n: usize = v.len();
    if n == 0 {
        return 0;
    }
    let mut hi: usize = n - 1;
    let mut left: usize = 0;
    while left < hi
        invariant
            left <= hi <= n - 1,
            n == v@.len(),
            z.is_zero_spec() && !z.sign_neg_spec() && !z.is_nan_spec(),
            ok == (float_laws::<T>() && nan_free(v@) && sorted_by(v@, hw_le_fn::<T>())),
            ok ==> forall|k: int| 0 <= k < left ==> below_zero(#[trigger] v@[k]),
            ok ==> forall|k: int| hi < k < n ==> !below_zero(#[trigger] v@[k]),
        decreases hi - left,
    {
        let mid: usize = ((hi - left) / 2) + left;
        let o = v[mid].pcmp(&z);
        match o {
            Some(Ordering::Less) => {
                proof {
                    if ok {
                        assert(!v@[mid as int].is_nan_spec());
                        lemma_strict_neg_iff(v@[mid as int], z);
                        assert(below_zero(v@[mid as int]));
                        assert forall|k: int| 0 <= k < mid + 1 implies below_zero(
                            #[trigger] v@[k],
                        ) by {
                            if k < mid {
                                assert(hw_le_fn::<T>()(v@[k], v@[mid as int]));
                                assert(v@[k].le_spec(v@[mid as int]));
                                assert(v@[mid as int].le_spec(z));
                                lemma_hw_trans(v@[k], v@[mid as int], z);
                                lemma_strict_neg_iff(v@[k], z);
                                if z.le_spec(v@[k]) {
                                    lemma_hw_trans(z, v@[k], v@[mid as int]);
                                }
                            }
                        }
                    }
                }
                left = mid + 1;
            },
            _ => {
                proof {
                    if ok {
                        assert(!v@[mid as int].is_nan_spec());
                        assert(z.le_spec(v@[mid as int]));
                        assert forall|k: int| mid < k < n implies !below_zero(
                            #[trigger] v@[k],
                        ) by {
                            assert(hw_le_fn::<T>()(v@[mid as int], v@[k]));
                            assert(v@[mid as int].le_spec(v@[k]));
                            lemma_hw_trans(z, v@[mid as int], v@[k]);
                            assert(z.le_spec(v@[k]));
                            assert(!v@[k].is_nan_spec());
                            lemma_strict_neg_iff(v@[k], z);
                        }
                    }
                }
                hi = mid;
            },
        }
    }
    let mut go: bool = true;
    while go && left < n
        invariant
            left <= n == v@.len(),
            z.is_zero_spec() && !z.sign_neg_spec() && !z.is_nan_spec(),
            ok == (float_laws::<T>() && nan_free(v@) && sorted_by(v@, hw_le_fn::<T>())),
            ok ==> forall|k: int| 0 <= k < left ==> below_zero(#[trigger] v@[k]),
            ok && !go && left < n ==> !below_zero(v@[left as int]),
        decreases 2 * (n - left) + (if go {
            1int
        } else {
            0int
        }),
    {
        let o = v[left].pcmp(&z);
        match o {
            Some(Ordering::Less) => {
                proof {
                    if ok {
                        lemma_strict_neg_iff(v@[left as int], z);
                        assert(below_zero(v@[left as int]));
                    }
                }
                left = left + 1;
            },
            _ => {
                proof {
                    if ok {
                        assert(!v@[left as int].is_nan_spec());
                        assert(z.le_spec(v@[left as int]));
                        lemma_strict_neg_iff(v@[left as int], z);
                    }
                }
                go = false;
            },
        }
    }
    left
}

/// A NaN-free range keeps that property under any rearrangement of its
/// contents.
proof fn lemma_nan_free_transfer<T: Float>(pre: Seq<T>, post: Seq<T>, hi: int)
    requires
        0 <= hi <= pre.len(),
        hi <= post.len(),
        pre.subrange(0, hi).to_multiset() == post.subrange(0, hi).to_multiset(),
        forall|k: int| 0 <= k < hi ==> !(#[trigger] pre[k]).is_nan_spec(),
    ensures
        forall|k: int| 0 <= k < hi ==> !(#[trigger] post[k]).is_nan_spec(),
{
    broadcast use vstd::seq_lib::group_to_multiset_ensures;

    assert forall|k: int| 0 <= k < hi implies !(#[trigger] post[k]).is_nan_spec() by {
        assert(post.subrange(0, hi)[k] == post[k]);
        assert(post.subrange(0, hi).contains(post[k]));
        assert(pre.subrange(0, hi).to_multiset().count(post[k]) > 0);
        assert(pre.subrange(0, hi).contains(post[k]));
        let w = choose|w: int| 0 <= w < hi && #[trigger] pre.subrange(0, hi)[w] == post[k];
        assert(pre[w] == post[k]);
    }
}

/// Sorts floating point numbers in place.
/// The ordering used is
/// `-inf < negative < -0 < +0 < positive < +inf < NaN`.
///
/// Three passes: NaN values move to a trailing suffix by swaps, the NaN-free
/// prefix is sorted by hardware comparison, and the run of zeros is then
/// rewritten in place so negative zeros precede positive zeros. Counts of
/// each zero sign and of every non-zero value are preserved.
#[verifier::rlimit(100)]
#[verifier::spinoff_prover]
pub fn sort_floats<T: Float>(v: &mut Vec<T>)
    ensures
        final(v)@.len() == old(v)@.len(),
        float_laws::<T>() ==> {
            &&& sorted_by(final(v)@, float_le_fn::<T>())
            &&& forall|i: int, j: int|
                0 <= i < j < final(v)@.len() && (#[trigger] final(v)@[i]).is_nan_spec()
                    ==> (#[trigger] final(v)@[j]).is_nan_spec()
            &&& forall|x: T|
                !x.is_zero_spec() ==> #[trigger] final(v)@.to_multiset().count(x) == old(
                    v,
                )@.to_multiset().count(x)
            &&& class_count(final(v)@.to_multiset(), (|a: T| is_neg_zero(a))) == class_count(
                old(v)@.to_multiset(),
                (|a: T| is_neg_zero(a)),
            )
            &&& class_count(final(v)@.to_multiset(), (|a: T| is_pos_zero(a))) == class_count(
                old(v)@.to_multiset(),
                (|a: T| is_pos_zero(a)),
            )
        },
{
    let ghost s0 = v@;
    let ghost pneg = (|a: T| is_neg_zero(a));
    let ghost ppos = (|a: T| is_pos_zero(a));
    let n: usize = v.len();
    if n <= 1 {
        return;
    }
    // First move all NaN values to the end: skip a NaN suffix already in
    // place, then sweep leftwards, swapping each NaN found to the boundary.
    let mut rnan: usize = n - 1;
    let mut scanning: bool = true;
    while scanning && rnan > 0
        invariant
            rnan < n,
            n == v@.len(),
            v@ == s0,
            forall|k: int| rnan < k < n ==> (#[trigger] v@[k]).is_nan_spec(),
            !scanning ==> !v@[rnan as int].is_nan_spec(),
        decreases 2 * (rnan as int) + (if scanning { 1int } else { 0int }),
    {
        if v[rnan].is_nan() {
            rnan = rnan - 1;
        } else {
            scanning = false;
        }
    }
    let mut p: usize = rnan;
    while p > 0
        invariant
            p <= rnan < n,
            n == v@.len(),
            v@.to_multiset() == s0.to_multiset(),
            forall|k: int| rnan < k < n ==> (#[trigger] v@[k]).is_nan_spec(),
            rnan == 0 || forall|k: int| p <= k <= rnan ==> !(#[trigger] v@[k]).is_nan_spec(),
        decreases p,
    {
        p = p - 1;
        if v[p].is_nan() {
            crate::order::exchange(v, p, rnan);
            rnan = rnan - 1;
        }
    }
    // The prefix `[0, rnan]` is now NaN-free, except that when `rnan == 0`
    // the single remaining element may itself be NaN.
    let ghost sn = v@;
    let ghost prefix_clean = rnan > 0;
    proof {
        if rnan > 0 {
            assert(forall|k: int| 0 <= k <= rnan ==> !(#[trigger] v@[k]).is_nan_spec());
        }
    }
    // Sort the NaN-free prefix with plain hardware comparison; the NaN
    // pass makes an incomparable pair impossible, which is checked, not
    // assumed, inside the comparator.
    let cl = |x: &T, y: &T| -> (o: Ordering)
        requires
            !x.is_nan_spec(),
            !y.is_nan_spec(),
        ensures
            o != Ordering::Greater ==> hw_le(*x, *y),
            o != Ordering::Less ==> hw_le(*y, *x),
        {
            match x.pcmp(y) {
                Some(ord) => ord,
                None => vstd::pervasive::unreached(),
            }
        };
    if rnan > 0 {
        proof {
            broadcast use vstd::seq_lib::group_to_multiset_ensures;

            let pm = v@.subrange(0, rnan + 1).to_multiset();
            assert forall|x: T, y: T| pm.contains(x) && pm.contains(y) implies #[trigger] call_requires(
                cl,
                (&x, &y),
            ) by {
                assert(v@.subrange(0, rnan + 1).contains(x));
                assert(v@.subrange(0, rnan + 1).contains(y));
                let w1 = choose|w: int| 0 <= w < rnan + 1 && #[trigger] v@.subrange(0, rnan + 1)[w] == x;
                let w2 = choose|w: int| 0 <= w < rnan + 1 && #[trigger] v@.subrange(0, rnan + 1)[w] == y;
                assert(v@[w1] == x);
                assert(v@[w2] == y);
            }
        }
        sort_range(v, 0, rnan + 1, &cl);
    }
    let ghost sr = v@;
    proof {
        if rnan > 0 {
            lemma_permutes_whole(sn, sr, 0, rnan + 1);
            lemma_nan_free_transfer::<T>(sn, sr, rnan + 1);
        }
        assert(sr.to_multiset() == s0.to_multiset());
        assert(forall|k: int| rnan < k < n ==> (#[trigger] sr[k]).is_nan_spec());
        assert(prefix_clean ==> forall|k: int| 0 <= k <= rnan ==> !(#[trigger] sr[k]).is_nan_spec());
        if float_laws::<T>() && rnan > 0 {
            assert(cmp_agrees(cl, hw_le_fn::<T>())) by {
                assert forall|x: T, y: T, zz: T|
                    #[trigger] hw_le_fn::<T>()(x, y) && #[trigger] hw_le_fn::<T>()(y, zz)
                        implies hw_le_fn::<T>()(x, zz) by {
                    if !x.is_nan_spec() && !zz.is_nan_spec() {
                        if y.is_nan_spec() {
                            assert(!hw_le(y, zz));
                        } else {
                            lemma_hw_trans(x, y, zz);
                        }
                    }
                }
                assert forall|x: T, y: T, o: Ordering| #[trigger] call_ensures(cl, (&x, &y), o)
                    implies answer_respects(hw_le_fn::<T>(), x, y, o) by {}
            }
            assert(crate::order::sorted_range(sr, 0, rnan + 1, hw_le_fn::<T>()));
        }
    }
    // Locate the zero run inside the sorted prefix.
    let left: usize = find_first_zero(&v.as_slice()[0..rnan + 1]);
    proof {
        if float_laws::<T>() && prefix_clean {
            assert(nan_free(sr.subrange(0, rnan + 1)));
            assert forall|i: int, j: int| 0 <= i < j < rnan + 1 implies #[trigger] hw_le_fn::<T>()(
                sr.subrange(0, rnan + 1)[i],
                sr.subrange(0, rnan + 1)[j],
            ) by {
                assert(crate::order::sorted_range(sr, 0, rnan + 1, hw_le_fn::<T>()));
                assert(hw_le_fn::<T>()(sr[i], sr[j]));
            }
            assert(sorted_by(sr.subrange(0, rnan + 1), hw_le_fn::<T>()));
        }
    }
    // Count the zeros of each sign in the run.
    let z: T = T::zero();
    let nzv: T = T::neg_zero();
    let mut nz: usize = 0;
    let mut pz: usize = 0;
    let mut k: usize = left;
    let mut counting: bool = true;
    proof {
        broadcast use vstd::seq_lib::group_to_multiset_ensures;
        broadcast use vstd::multiset::group_multiset_axioms;

        let e = sr.subrange(left as int, left as int);
        assert(e =~= Seq::<T>::empty());
        assert(e.to_multiset().len() == 0);
        assert(e.to_multiset().filter(pneg) =~= e.to_multiset());
        assert(e.to_multiset().filter(ppos) =~= e.to_multiset());
    }
    while counting && k < n
        invariant
            left <= k <= n,
            n == v@.len(),
            v@ == sr,
            z.is_zero_spec() && !z.sign_neg_spec() && !z.is_nan_spec(),
            nzv.is_zero_spec() && nzv.sign_neg_spec() && !nzv.is_nan_spec(),
            nz + pz == k - left,
            pneg == (|a: T| is_neg_zero(a)),
            ppos == (|a: T| is_pos_zero(a)),
            float_laws::<T>() ==> {
                &&& forall|i: int|
                    left <= i < k ==> (#[trigger] sr[i]).is_zero_spec() && !sr[i].is_nan_spec()
                &&& nz == class_count(sr.subrange(left as int, k as int).to_multiset(), pneg)
                &&& pz == class_count(sr.subrange(left as int, k as int).to_multiset(), ppos)
                &&& (!counting && k < n ==> !sr[k as int].is_zero_spec())
            },
        decreases 2 * (n - k) + (if counting { 1int } else { 0int }),
    {
        let o = v[k].pcmp(&z);
        match o {
            Some(Ordering::Equal) => {
                proof {
                    assert(!sr[k as int].is_nan_spec());
                    if float_laws::<T>() {
                        broadcast use vstd::seq_lib::group_to_multiset_ensures;

                        lemma_zero_iff(sr[k as int], z);
                        assert(sr[k as int].is_zero_spec());
                        let sub = sr.subrange(left as int, k as int);
                        assert(sr.subrange(left as int, k + 1) =~= sub.push(sr[k as int]));
                        assert(sub.push(sr[k as int]).to_multiset() =~= sub.to_multiset().insert(
                            sr[k as int],
                        ));
                        lemma_class_count_insert(sub.to_multiset(), pneg, sr[k as int]);
                        lemma_class_count_insert(sub.to_multiset(), ppos, sr[k as int]);
                    }
                }
                if v[k].is_sign_negative() {
                    nz = nz + 1;
                } else {
                    pz = pz + 1;
                }
                k = k + 1;
            },
            _ => {
                proof {
                    if float_laws::<T>() {
                        if !sr[k as int].is_nan_spec() {
                            lemma_zero_iff(sr[k as int], z);
                        }
                    }
                }
                counting = false;
            },
        }
    }
    let kend: usize = k;
    // Rewrite the run in place: all the negative zeros first, then the
    // positive zeros.
    let ghost msr = sr.to_multiset();
    let mut j: usize = left;
    proof {
        broadcast use vstd::seq_lib::group_to_multiset_ensures;
        broadcast use vstd::multiset::group_multiset_axioms;

        let e = sr.subrange(left as int, left as int);
        assert(e =~= Seq::<T>::empty());
        assert(e.to_multiset().len() == 0);
        assert(e.to_multiset().filter(pneg) =~= e.to_multiset());
        assert(e.to_multiset().filter(ppos) =~= e.to_multiset());
    }
    while j < kend
        invariant
            left <= j <= kend <= n,
            n == v@.len(),
            sr.len() == n,
            nz + pz == kend - left,
            z.is_zero_spec() && !z.sign_neg_spec() && !z.is_nan_spec(),
            nzv.is_zero_spec() && nzv.sign_neg_spec() && !nzv.is_nan_spec(),
            msr == sr.to_multiset(),
            pneg == (|a: T| is_neg_zero(a)),
            ppos == (|a: T| is_pos_zero(a)),
            forall|i: int| 0 <= i < n && !(left <= i < j) ==> v@[i] == sr[i],
            float_laws::<T>() ==> {
                &&& forall|i: int| left <= i < kend ==> (#[trigger] sr[i]).is_zero_spec()
                &&& forall|i: int| left <= i < j && i - left < nz ==> v@[i] == nzv
                &&& forall|i: int| left <= i < j && i - left >= nz ==> v@[i] == z
                &&& class_count(v@.to_multiset(), pneg) + class_count(
                    sr.subrange(left as int, j as int).to_multiset(),
                    pneg,
                ) == class_count(msr, pneg) + (if j - left <= nz {
                    (j - left) as nat
                } else {
                    nz as nat
                })
                &&& class_count(v@.to_multiset(), ppos) + class_count(
                    sr.subrange(left as int, j as int).to_multiset(),
                    ppos,
                ) == class_count(msr, ppos) + (if j - left <= nz {
                    0nat
                } else {
                    (j - left - nz) as nat
                })
                &&& forall|x: T|
                    !x.is_zero_spec() ==> #[trigger] v@.to_multiset().count(x) == msr.count(x)
            },
        decreases kend - j,
    {
        let val: T = if j - left < nz {
            nzv
        } else {
            z
        };
        let ghost sb = v@;
        v[j] = val;
        proof {
            assert(v@ == sb.update(j as int, val));
            lemma_update_multiset(sb, j as int, val);
            if float_laws::<T>() {
                broadcast use vstd::seq_lib::group_to_multiset_ensures;

                assert(sb[j as int] == sr[j as int]);
                assert(sb.contains(sb[j as int]));
                assert(sb.to_multiset().count(sb[j as int]) > 0);
                lemma_class_count_remove(sb.to_multiset(), pneg, sr[j as int]);
                lemma_class_count_insert(sb.to_multiset().remove(sr[j as int]), pneg, val);
                lemma_class_count_remove(sb.to_multiset(), ppos, sr[j as int]);
                lemma_class_count_insert(sb.to_multiset().remove(sr[j as int]), ppos, val);
                let sub = sr.subrange(left as int, j as int);
                assert(sr.subrange(left as int, j + 1) =~= sub.push(sr[j as int]));
                assert(sub.push(sr[j as int]).to_multiset() =~= sub.to_multiset().insert(
                    sr[j as int],
                ));
                lemma_class_count_insert(sub.to_multiset(), pneg, sr[j as int]);
                lemma_class_count_insert(sub.to_multiset(), ppos, sr[j as int]);
                assert(sr[j as int].is_zero_spec());
                assert(pneg(sr[j as int]) || ppos(sr[j as int]));
                assert(!(pneg(sr[j as int]) && ppos(sr[j as int])));
                assert forall|x: T| !x.is_zero_spec() implies #[trigger] v@.to_multiset().count(x)
                    == msr.count(x) by {
                    assert(x != sr[j as int]);
                    assert(x != val);
                }
            }
        }
        j = j + 1;
    }
    proof {
        if float_laws::<T>() {
            // the zero run cannot reach into the NaN suffix
            assert(kend <= rnan + 1) by {
                if kend > rnan + 1 {
                    assert(!sr[rnan + 1].is_nan_spec());
                }
            }
            // counts of each zero sign, and of everything else
            assert(class_count(v@.to_multiset(), pneg) == class_count(s0.to_multiset(), pneg));
            assert(class_count(v@.to_multiset(), ppos) == class_count(s0.to_multiset(), ppos));
            assert(forall|x: T|
                !x.is_zero_spec() ==> #[trigger] v@.to_multiset().count(x) == s0.to_multiset().count(
                    x,
                ));
            // the rewritten run and the regions around it
            assert(forall|i: int| rnan < i < n ==> v@[i] == sr[i]);
            if prefix_clean {
                assert(nan_free(sr.subrange(0, rnan + 1)));
                assert(sorted_by(sr.subrange(0, rnan + 1), hw_le_fn::<T>()));
                assert(forall|k2: int| 0 <= k2 < left ==> below_zero(#[trigger] sr.subrange(
                    0,
                    rnan + 1,
                )[k2]));
                assert forall|k2: int| 0 <= k2 < left implies below_zero(#[trigger] sr[k2]) by {
                    assert(sr.subrange(0, rnan + 1)[k2] == sr[k2]);
                    assert(below_zero(sr.subrange(0, rnan + 1)[k2]));
                }
                assert(left < rnan + 1 ==> !below_zero(sr[left as int]));
                // everything at or after the run's end is above every zero
                if kend <= rnan {
                    assert(z.le_spec(sr[kend as int]) && !sr[kend as int].is_zero_spec()) by {
                        assert(!sr[kend as int].is_nan_spec());
                        if kend > left {
                            assert(sr[kend - 1].is_zero_spec());
                            lemma_zero_iff(sr[kend - 1], z);
                            assert(z.le_spec(sr[kend - 1]));
                            assert(hw_le_fn::<T>()(sr[kend - 1], sr[kend as int]));
                            lemma_hw_trans(z, sr[kend - 1], sr[kend as int]);
                        } else {
                            assert(!below_zero(sr[left as int]));
                            lemma_strict_neg_iff(sr[kend as int], z);
                            lemma_hw_total(sr[kend as int], z);
                        }
                        lemma_zero_iff(sr[kend as int], z);
                    }
                    assert forall|i: int| kend <= i <= rnan implies z.le_spec(#[trigger] sr[i])
                        && !sr[i].is_zero_spec() && !sr[i].is_nan_spec() by {
                        if i > kend {
                            assert(hw_le_fn::<T>()(sr[kend as int], sr[i]));
                            lemma_hw_trans(z, sr[kend as int], sr[i]);
                            if sr[i].is_zero_spec() {
                                lemma_zero_iff(sr[i], z);
                                assert(sr[i].le_spec(z));
                                lemma_hw_trans(sr[kend as int], sr[i], z);
                                lemma_zero_iff(sr[kend as int], z);
                            }
                        }
                    }
                }
                assert forall|i: int| 0 <= i < left implies below_zero(#[trigger] v@[i])
                    && v@[i].le_spec(z) && !z.le_spec(v@[i]) by {
                    assert(v@[i] == sr[i]);
                    lemma_strict_neg_iff(sr[i], z);
                }
                assert forall|i: int| left <= i < kend implies (#[trigger] v@[i]).is_zero_spec()
                    && !v@[i].is_nan_spec() by {
                    assert(v@[i] == nzv || v@[i] == z);
                }
            }
            // the sorted order, pair by pair
            assert forall|i: int, j2: int| 0 <= i < j2 < n implies float_le_fn::<T>()(
                #[trigger] v@[i],
                #[trigger] v@[j2],
            ) by {
                if i > rnan {
                    assert(v@[i] == sr[i] && v@[j2] == sr[j2]);
                    assert(sr[i].is_nan_spec() && sr[j2].is_nan_spec());
                } else if j2 > rnan {
                    assert(v@[j2] == sr[j2]);
                    assert(sr[j2].is_nan_spec());
                } else {
                    // two prefix positions: only possible when the prefix
                    // was NaN-free, since otherwise it has one element
                    assert(rnan > 0);
                    let a = v@[i];
                    let b = v@[j2];
                    if i < left {
                        assert(below_zero(a));
                        if j2 < left {
                            assert(b == sr[j2]);
                            assert(hw_le_fn::<T>()(sr[i], sr[j2]));
                            assert(a.le_spec(b));
                        } else if j2 < kend {
                            lemma_zero_iff(b, z);
                            assert(b.le_spec(z) && z.le_spec(b));
                            lemma_hw_trans(a, z, b);
                        } else {
                            assert(b == sr[j2]);
                            assert(z.le_spec(sr[j2]) && !sr[j2].is_zero_spec()
                                && !sr[j2].is_nan_spec());
                            lemma_hw_trans(a, z, b);
                        }
                        assert(!a.is_zero_spec() && !a.is_nan_spec());
                        assert(float_le(a, b));
                    } else if i < kend {
                        assert(a.is_zero_spec() && (a == nzv || a == z));
                        if j2 < kend {
                            assert(b.is_zero_spec() && (b == nzv || b == z));
                            if i - left < nz {
                                assert(a == nzv);
                                assert(float_le(a, b));
                            } else {
                                assert(a == z);
                                assert(j2 - left >= nz);
                                assert(b == z);
                                assert(float_le(a, b));
                            }
                        } else {
                            assert(b == sr[j2]);
                            assert(z.le_spec(sr[j2]) && !sr[j2].is_zero_spec()
                                && !sr[j2].is_nan_spec());
                            lemma_zero_iff(a, z);
                            assert(a.le_spec(z));
                            lemma_hw_trans(a, z, b);
                            assert(float_le(a, b));
                        }
                    } else {
                        assert(a == sr[i] && b == sr[j2]);
                        assert(!a.is_zero_spec() && !b.is_zero_spec());
                        assert(hw_le_fn::<T>()(sr[i], sr[j2]));
                        assert(float_le(a, b));
                    }
                }
            }
            assert(sorted_by(v@, float_le_fn::<T>()));
            // NaN values occupy exactly the trailing suffix
            assert forall|i: int, j2: int|
                0 <= i < j2 < n && (#[trigger] v@[i]).is_nan_spec() implies (
            #[trigger] v@[j2]).is_nan_spec() by {
                if i <= rnan {
                    if prefix_clean {
                        if i >= kend {
                            assert(v@[i] == sr[i]);
                            assert(!sr[i].is_nan_spec());
                        }
                        assert(!v@[i].is_nan_spec());
                    } else {
                        assert(i == 0 && j2 > rnan);
                    }
                }
            }
        }
    }
}

} // verus!
