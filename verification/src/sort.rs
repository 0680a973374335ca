use vstd::prelude::*;

verus! {

use core::cmp::Ordering;
use vstd::multiset::Multiset;
use crate::order::cmp_agrees;
use crate::order::cmp_callable;
use crate::order::sorted_range;
use crate::order::answer_respects;
use crate::order::swapped;
use crate::order::exchange;
use crate::order::lemma_frame_multiset;
use vstd::relations::sorted_by;

/// `post` rearranges `pre` inside `[lo, hi)` and leaves the rest alone.
pub open spec fn permutes_range<T>(pre: Seq<T>, post: Seq<T>, lo: int, hi: int) -> bool {
    &&& post.len() == pre.len()
    &&& post.subrange(lo, hi).to_multiset() == pre.subrange(lo, hi).to_multiset()
    &&& forall|k: int| 0 <= k < pre.len() && !(lo <= k < hi) ==> post[k] == pre[k]
}

pub proof fn lemma_permutes_trans<T>(s0: Seq<T>, s1: Seq<T>, s2: Seq<T>, lo: int, hi: int)
    requires
        0 <= lo <= hi <= s0.len(),
        permutes_range(s0, s1, lo, hi),
        permutes_range(s1, s2, lo, hi),
    ensures
        permutes_range(s0, s2, lo, hi),
{
}

/// A rearrangement within a narrow range is one within any enclosing range.
pub proof fn lemma_permutes_widen<T>(pre: Seq<T>, post: Seq<T>, lo: int, hi: int, lo2: int, hi2: int)
    requires
        0 <= lo <= lo2 <= hi2 <= hi <= pre.len(),
        permutes_range(pre, post, lo2, hi2),
    ensures
        permutes_range(pre, post, lo, hi),
{
    lemma_frame_multiset(pre, post, lo2, hi2);
    lemma_frame_multiset(pre, post, lo, hi);
}

pub proof fn lemma_permutes_whole<T>(pre: Seq<T>, post: Seq<T>, lo: int, hi: int)
    requires
        0 <= lo <= hi <= pre.len(),
        permutes_range(pre, post, lo, hi),
    ensures
        pre.to_multiset() == post.to_multiset(),
{
    lemma_frame_multiset(pre, post, lo, hi);
}

/// The comparator may be applied to the values at two indices of a range
/// whose contents are drawn from the multiset `m`.
proof fn lemma_pair_callable<T, C: Fn(&T, &T) -> Ordering>(
    c: C,
    m: Multiset<T>,
    s: Seq<T>,
    lo: int,
    hi: int,
    i: int,
    j: int,
)
    requires
        cmp_callable(c, m),
        s.subrange(lo, hi).to_multiset() == m,
        0 <= lo <= i < hi,
        lo <= j < hi,
        hi <= s.len(),
    ensures
        call_requires(c, (&s[i], &s[j])),
{
    broadcast use vstd::seq_lib::group_to_multiset_ensures;

    let sub = s.subrange(lo, hi);
    assert(sub[i - lo] == s[i]);
    assert(sub[j - lo] == s[j]);
    assert(sub.contains(s[i]));
    assert(sub.contains(s[j]));
    assert(m.count(s[i]) > 0);
    assert(m.count(s[j]) > 0);
}

/// Exchange two positions of `[lo, hi)`, keeping track that the range is
/// still a rearrangement of the range of `pre`.
fn swap_in_range<T>(v: &mut Vec<T>, lo: usize, hi: usize, i: usize, j: usize, Ghost(pre): Ghost<Seq<T>>)
    requires
        lo <= i < hi,
        lo <= j < hi,
        hi <= old(v)@.len(),
        permutes_range(pre, old(v)@, lo as int, hi as int),
    ensures
        final(v)@ == swapped(old(v)@, i as int, j as int),
        final(v)@.len() == old(v)@.len(),
        final(v)@[i as int] == old(v)@[j as int],
        final(v)@[j as int] == old(v)@[i as int],
        forall|k: int| 0 <= k < old(v)@.len() && k != i && k != j ==> final(v)@[k] == old(v)@[k],
        permutes_range(pre, final(v)@, lo as int, hi as int),
{
    let ghost before = v@;
    exchange(v, i, j);
    proof {
        lemma_frame_multiset(before, v@, lo as int, hi as int);
        lemma_permutes_trans(pre, before, v@, lo as int, hi as int);
    }
}

/// The order facts that hold midway through inserting the element at `j`
/// into the sorted prefix: both sides of `j` are sorted, and everything
/// before `j` is below everything after it.
spec fn insertion_frame<T>(s: Seq<T>, lo: int, i: int, j: int, leq: spec_fn(T, T) -> bool) -> bool {
    &&& sorted_range(s, lo, j, leq)
    &&& sorted_range(s, j, i + 1, leq)
    &&& forall|a: int, b: int| lo <= a < j && j < b < i + 1 ==> leq(#[trigger] s[a], #[trigger] s[b])
}

/// Insertion sort on `[lo, hi)`: nearly linear on nearly sorted input, and
/// the engine's choice for small ranges.
pub(crate) fn insertion_sort_range<T, C: Fn(&T, &T) -> Ordering>(
    v: &mut Vec<T>,
    lo: usize,
    hi: usize,
    c: &C,
)
    requires
        lo <= hi,
        hi <= old(v)@.len(),
        cmp_callable(*c, old(v)@.subrange(lo as int, hi as int).to_multiset()),
    ensures
        permutes_range(old(v)@, final(v)@, lo as int, hi as int),
        forall|leq: spec_fn(T, T) -> bool|
            #[trigger] cmp_agrees(*c, leq) ==> sorted_range(final(v)@, lo as int, hi as int, leq),
{
    let ghost s0 = v@;
    let ghost m = s0.subrange(lo as int, hi as int).to_multiset();
    if hi - lo < 2 {
        return;
    }
    let mut i: usize = lo + 1;
    while i < hi
        invariant
            lo + 1 <= i <= hi,
            hi <= v@.len(),
            v@.len() == s0.len(),
            cmp_callable(*c, m),
            m == s0.subrange(lo as int, hi as int).to_multiset(),
            permutes_range(s0, v@, lo as int, hi as int),
            forall|leq: spec_fn(T, T) -> bool|
                #[trigger] cmp_agrees(*c, leq) ==> sorted_range(v@, lo as int, i as int, leq),
        decreases hi - i,
    {
        let mut j: usize = i;
        let mut moving: bool = true;
        while moving && j > lo
            invariant
                lo <= j <= i < hi <= v@.len(),
                v@.len() == s0.len(),
                cmp_callable(*c, m),
                m == s0.subrange(lo as int, hi as int).to_multiset(),
                permutes_range(s0, v@, lo as int, hi as int),
                forall|leq: spec_fn(T, T) -> bool|
                    #[trigger] cmp_agrees(*c, leq) ==> insertion_frame(v@, lo as int, i as int, j as int, leq),
                forall|leq: spec_fn(T, T) -> bool|
                    #[trigger] cmp_agrees(*c, leq) && !moving
                        ==> sorted_range(v@, lo as int, i + 1, leq),
            decreases 2 * (j as int) + (if moving { 1int } else { 0int }),
        {
            proof {
                lemma_pair_callable(*c, m, v@, lo as int, hi as int, j - 1, j as int);
            }
            let ghost sb = v@;
            let o = (*c)(&v[j - 1], &v[j]);
            match o {
                Ordering::Greater => {
                    swap_in_range(v, lo, hi, j - 1, j, Ghost(s0));
                    proof {
                        assert forall|leq: spec_fn(T, T) -> bool|
                            #[trigger] cmp_agrees(*c, leq) implies insertion_frame(
                            v@,
                            lo as int,
                            i as int,
                            j - 1,
                            leq,
                        ) by {
                            assert(answer_respects(leq, sb[j - 1], sb[j as int], o));
                            assert(insertion_frame(sb, lo as int, i as int, j as int, leq));
                            assert(leq(sb[j as int], sb[j - 1]));
                            assert(v@[j - 1] == sb[j as int]);
                            assert(v@[j as int] == sb[j - 1]);
                            assert forall|a: int, b: int|
                                lo <= a < j - 1 && j - 1 < b < i + 1 implies leq(
                                #[trigger] v@[a],
                                #[trigger] v@[b],
                            ) by {
                                if b == j {
                                    assert(leq(sb[a], sb[j - 1]));
                                } else {
                                    assert(leq(sb[a], sb[b]));
                                }
                            }
                        }
                    }
                    j = j - 1;
                },
                _ => {
                    proof {
                        assert forall|leq: spec_fn(T, T) -> bool|
                            #[trigger] cmp_agrees(*c, leq) implies sorted_range(
                            v@,
                            lo as int,
                            i + 1,
                            leq,
                        ) by {
                            assert(answer_respects(leq, sb[j - 1], sb[j as int], o));
                            assert(insertion_frame(v@, lo as int, i as int, j as int, leq));
                            assert(leq(v@[j - 1], v@[j as int]));
                            assert forall|a: int, b: int| lo <= a < b < i + 1 implies leq(
                                #[trigger] v@[a],
                                #[trigger] v@[b],
                            ) by {
                                if a < j && b == j {
                                    if a < j - 1 {
                                        assert(leq(v@[a], v@[j - 1]));
                                        assert(leq(v@[j - 1], v@[j as int]));
                                    }
                                } else if a < j && b > j {
                                } else {
                                }
                            }
                        }
                    }
                    moving = false;
                },
            }
        }
        proof {
            assert forall|leq: spec_fn(T, T) -> bool| #[trigger] cmp_agrees(*c, leq) implies sorted_range(
                v@,
                lo as int,
                i + 1,
                leq,
            ) by {
                if moving {
                    assert(j == lo);
                    assert(insertion_frame(v@, lo as int, i as int, lo as int, leq));
                    assert forall|a: int, b: int| lo <= a < b < i + 1 implies leq(
                        #[trigger] v@[a],
                        #[trigger] v@[b],
                    ) by {
                        assert(sorted_range(v@, lo as int, i + 1, leq) == sorted_range(
                            v@,
                            j as int,
                            i + 1,
                            leq,
                        ));
                    }
                }
            }
        }
        i = i + 1;
    }
}

/// Heap parent of relative index `k`.
spec fn hparent(k: int) -> int {
    (k - 1) / 2
}

/// Relative index `k` lies in the binary-heap subtree rooted at `root`.
spec fn in_subtree(root: int, k: int) -> bool
    decreases k,
{
    if root < 0 || k < root {
        false
    } else if k == root {
        true
    } else {
        in_subtree(root, hparent(k))
    }
}

proof fn lemma_subtree_ge(root: int, k: int)
    requires
        in_subtree(root, k),
    ensures
        k >= root >= 0,
    decreases k,
{
    if k != root {
        lemma_subtree_ge(root, hparent(k));
    }
}

proof fn lemma_subtree_child(root: int, k: int, ch: int)
    requires
        in_subtree(root, k),
        ch == 2 * k + 1 || ch == 2 * k + 2,
    ensures
        in_subtree(root, ch),
{
    lemma_subtree_ge(root, k);
    assert(hparent(ch) == k);
}

proof fn lemma_subtree_all(k: int)
    requires
        k >= 0,
    ensures
        in_subtree(0, k),
    decreases k,
{
    if k > 0 {
        lemma_subtree_all(hparent(k));
    }
}

/// Every heap edge holds on relative range `[0, end)` placed at `lo`.
spec fn heap_on<T>(s: Seq<T>, lo: int, end: int, leq: spec_fn(T, T) -> bool) -> bool {
    forall|k: int| 1 <= k < end ==> leq(#[trigger] s[lo + k], s[lo + hparent(k)])
}

/// Every heap edge inside the subtree of `root` holds, except the edges
/// leaving `root` itself.
spec fn almost_heap<T>(s: Seq<T>, lo: int, end: int, root: int, leq: spec_fn(T, T) -> bool) -> bool {
    forall|k: int|
        1 <= k < end && in_subtree(root, k) && k != root && hparent(k) != root
            ==> leq(#[trigger] s[lo + k], s[lo + hparent(k)])
}

/// Every heap edge inside the subtree of `root` holds.
spec fn subtree_heap<T>(s: Seq<T>, lo: int, end: int, root: int, leq: spec_fn(T, T) -> bool) -> bool {
    forall|k: int|
        1 <= k < end && in_subtree(root, k) && k != root
            ==> leq(#[trigger] s[lo + k], s[lo + hparent(k)])
}

/// Midway through sifting: every subtree edge holds except the ones out of
/// the hole, and the hole's children sit below the hole's parent.
spec fn sift_mid<T>(s: Seq<T>, lo: int, end: int, root: int, hole: int, leq: spec_fn(T, T) -> bool) -> bool {
    &&& forall|k: int|
        1 <= k < end && in_subtree(root, k) && k != root && hparent(k) != hole
            ==> leq(#[trigger] s[lo + k], s[lo + hparent(k)])
    &&& forall|k: int|
        1 <= k < end && hparent(k) == hole && hole != root
            ==> leq(#[trigger] s[lo + k], s[lo + hparent(hole)])
}

/// Let a value that may be out of place at `root` sink to its position,
/// re-establishing the heap shape of the subtree.
fn sift_down<T, C: Fn(&T, &T) -> Ordering>(
    v: &mut Vec<T>,
    lo: usize,
    root: usize,
    end: usize,
    c: &C,
    Ghost(m): Ghost<Multiset<T>>,
)
    requires
        root < end,
        lo + end <= old(v)@.len(),
        cmp_callable(*c, m),
        old(v)@.subrange(lo as int, lo + end).to_multiset() == m,
    ensures
        permutes_range(old(v)@, final(v)@, lo as int, lo + end),
        forall|k: int|
            0 <= k < end && !in_subtree(root as int, k) ==> final(v)@[lo + k] == old(v)@[lo + k],
        forall|leq: spec_fn(T, T) -> bool|
            #[trigger] cmp_agrees(*c, leq) && almost_heap(old(v)@, lo as int, end as int, root as int, leq)
                ==> subtree_heap(final(v)@, lo as int, end as int, root as int, leq),
{
    let ghost s0 = v@;
    let total: usize = v.len();
    let mut hole: usize = root;
    let mut moving: bool = true;
    while moving && end - hole > hole + 1
        invariant
            root <= hole < end,
            v@.len() == total,
            lo + end <= v@.len(),
            v@.len() == s0.len(),
            in_subtree(root as int, hole as int),
            cmp_callable(*c, m),
            v@.subrange(lo as int, lo + end).to_multiset() == m,
            permutes_range(s0, v@, lo as int, lo + end),
            forall|k: int| 0 <= k < end && !in_subtree(root as int, k) ==> v@[lo + k] == s0[lo + k],
            forall|leq: spec_fn(T, T) -> bool|
                #[trigger] cmp_agrees(*c, leq) && almost_heap(s0, lo as int, end as int, root as int, leq)
                    ==> (moving ==> sift_mid(v@, lo as int, end as int, root as int, hole as int, leq)),
            forall|leq: spec_fn(T, T) -> bool|
                #[trigger] cmp_agrees(*c, leq) && almost_heap(s0, lo as int, end as int, root as int, leq)
                    ==> (!moving ==> subtree_heap(v@, lo as int, end as int, root as int, leq)),
        decreases 2 * (end - hole) + (if moving { 1int } else { 0int }),
    {
        let child: usize = 2 * hole + 1;
        let ghost sb = v@;
        let mut ch: usize = child;
        let ghost mut o2: Ordering = Ordering::Less;
        let mut two: bool = false;
        if child + 1 < end {
            two = true;
            proof {
                lemma_pair_callable(*c, m, v@, lo as int, lo + end, lo + child, lo + child + 1);
            }
            let oc = (*c)(&v[lo + child], &v[lo + child + 1]);
            proof {
                o2 = oc;
            }
            match oc {
                Ordering::Less => {
                    ch = child + 1;
                },
                _ => {},
            }
        }
        proof {
            lemma_subtree_child(root as int, hole as int, ch as int);
            if two && ch == child {
                lemma_subtree_child(root as int, hole as int, child + 1);
            }
            lemma_pair_callable(*c, m, v@, lo as int, lo + end, lo + hole, lo + ch);
        }
        let o = (*c)(&v[lo + hole], &v[lo + ch]);
        match o {
            Ordering::Less => {
                swap_in_range(v, lo, lo + end, lo + hole, lo + ch, Ghost(s0));
                proof {
                    assert forall|leq: spec_fn(T, T) -> bool|
                        #[trigger] cmp_agrees(*c, leq) && almost_heap(
                            s0,
                            lo as int,
                            end as int,
                            root as int,
                            leq,
                        ) implies sift_mid(v@, lo as int, end as int, root as int, ch as int, leq) by {
                        assert(answer_respects(leq, sb[lo + hole], sb[lo + ch], o));
                        if two {
                            assert(answer_respects(leq, sb[lo + child], sb[lo + child + 1], o2));
                        }
                        assert(sift_mid(sb, lo as int, end as int, root as int, hole as int, leq));
                        assert(leq(sb[lo + hole], sb[lo + ch]));
                        assert forall|k: int|
                            1 <= k < end && in_subtree(root as int, k) && k != root && hparent(k)
                                != ch implies leq(#[trigger] v@[lo + k], v@[lo + hparent(k)]) by {
                            if k == ch {
                                assert(v@[lo + ch] == sb[lo + hole]);
                                assert(v@[lo + hole] == sb[lo + ch]);
                            } else if k == hole {
                                if hole != root {
                                    assert(leq(sb[lo + ch], sb[lo + hparent(hole as int)]));
                                    assert(v@[lo + hparent(hole as int)] == sb[lo + hparent(
                                        hole as int,
                                    )]);
                                }
                            } else if hparent(k) == hole {
                                // the other child of the old hole
                                assert(k == 2 * hole + 1 || k == 2 * hole + 2);
                                if two {
                                    assert(leq(sb[lo + k], sb[lo + ch]));
                                } else {
                                    assert(k == ch);
                                }
                                assert(v@[lo + k] == sb[lo + k]);
                                assert(v@[lo + hole] == sb[lo + ch]);
                            } else {
                                assert(leq(sb[lo + k], sb[lo + hparent(k)]));
                                assert(v@[lo + k] == sb[lo + k]);
                                assert(v@[lo + hparent(k)] == sb[lo + hparent(k)]);
                            }
                        }
                        assert forall|k: int|
                            1 <= k < end && hparent(k) == ch && ch != root implies leq(
                            #[trigger] v@[lo + k],
                            v@[lo + hparent(ch as int)],
                        ) by {
                            assert(k == 2 * ch + 1 || k == 2 * ch + 2);
                            assert(hparent(ch as int) == hole);
                            lemma_subtree_child(root as int, ch as int, k);
                            assert(leq(sb[lo + k], sb[lo + ch]));
                            assert(v@[lo + k] == sb[lo + k]);
                            assert(v@[lo + hole] == sb[lo + ch]);
                        }
                    }
                }
                hole = ch;
            },
            _ => {
                proof {
                    assert forall|leq: spec_fn(T, T) -> bool|
                        #[trigger] cmp_agrees(*c, leq) && almost_heap(
                            s0,
                            lo as int,
                            end as int,
                            root as int,
                            leq,
                        ) implies subtree_heap(v@, lo as int, end as int, root as int, leq) by {
                        assert(answer_respects(leq, sb[lo + hole], sb[lo + ch], o));
                        if two {
                            assert(answer_respects(leq, sb[lo + child], sb[lo + child + 1], o2));
                        }
                        assert(sift_mid(v@, lo as int, end as int, root as int, hole as int, leq));
                        assert(leq(v@[lo + ch], v@[lo + hole]));
                        assert forall|k: int|
                            1 <= k < end && in_subtree(root as int, k) && k != root implies leq(
                            #[trigger] v@[lo + k],
                            v@[lo + hparent(k)],
                        ) by {
                            if hparent(k) == hole {
                                assert(k == 2 * hole + 1 || k == 2 * hole + 2);
                                if two && k != ch {
                                    assert(leq(v@[lo + k], v@[lo + ch]));
                                    assert(leq(v@[lo + ch], v@[lo + hole]));
                                }
                            }
                        }
                    }
                }
                moving = false;
            },
        }
    }
    proof {
        assert forall|leq: spec_fn(T, T) -> bool|
            #[trigger] cmp_agrees(*c, leq) && almost_heap(s0, lo as int, end as int, root as int, leq)
                implies subtree_heap(v@, lo as int, end as int, root as int, leq) by {
            if moving {
                assert(sift_mid(v@, lo as int, end as int, root as int, hole as int, leq));
                assert forall|k: int|
                    1 <= k < end && in_subtree(root as int, k) && k != root implies leq(
                    #[trigger] v@[lo + k],
                    v@[lo + hparent(k)],
                ) by {
                    if hparent(k) == hole {
                        assert(k == 2 * hole + 1 || k == 2 * hole + 2);
                        assert(k >= end);
                    }
                }
            }
        }
    }
}

/// Everything drawn from `ms` sits below every element of `s[from..to)`.
spec fn below_all<T>(ms: Multiset<T>, s: Seq<T>, from: int, to: int, leq: spec_fn(T, T) -> bool) -> bool {
    forall|x: T, b: int| #![trigger ms.count(x), s[b]]
        ms.count(x) > 0 && from <= b < to ==> leq(x, s[b])
}

/// In a max-heap every element sits below the root.
proof fn lemma_heap_root_max<T>(s: Seq<T>, lo: int, end: int, leq: spec_fn(T, T) -> bool, k: int)
    requires
        vstd::relations::transitive(leq),
        heap_on(s, lo, end, leq),
        1 <= k < end,
    ensures
        leq(s[lo + k], s[lo]),
    decreases k,
{
    assert(leq(s[lo + k], s[lo + hparent(k)]));
    if hparent(k) >= 1 {
        lemma_heap_root_max(s, lo, end, leq, hparent(k));
    }
}

/// Callability restricts to the contents of a narrower range.
proof fn lemma_callable_sub<T, C: Fn(&T, &T) -> Ordering>(
    c: C,
    m: Multiset<T>,
    s: Seq<T>,
    lo: int,
    hi: int,
    a: int,
    b: int,
)
    requires
        cmp_callable(c, m),
        s.subrange(lo, hi).to_multiset() == m,
        0 <= lo <= a <= b <= hi <= s.len(),
    ensures
        cmp_callable(c, s.subrange(a, b).to_multiset()),
{
    broadcast use vstd::seq_lib::group_to_multiset_ensures;

    let msub = s.subrange(a, b).to_multiset();
    assert forall|x: T, y: T| msub.contains(x) && msub.contains(y) implies #[trigger] call_requires(
        c,
        (&x, &y),
    ) by {
        assert(s.subrange(a, b).contains(x));
        assert(s.subrange(a, b).contains(y));
        let i = choose|i: int| 0 <= i < b - a && s.subrange(a, b)[i] == x;
        let j = choose|j: int| 0 <= j < b - a && s.subrange(a, b)[j] == y;
        assert(s.subrange(lo, hi)[a - lo + i] == x);
        assert(s.subrange(lo, hi)[a - lo + j] == y);
        assert(s.subrange(lo, hi).contains(x));
        assert(s.subrange(lo, hi).contains(y));
        assert(m.count(x) > 0);
        assert(m.count(y) > 0);
    }
}

/// In-place heapsort on `[lo, hi)`: build a max-heap, then repeatedly move
/// the root past the shrinking heap. The engine's fallback once the
/// recursion budget is spent; `O(n log n)` regardless of the input.
#[verifier::rlimit(100)]
#[verifier::spinoff_prover]
pub(crate) fn heapsort_range<T, C: Fn(&T, &T) -> Ordering>(
    v: &mut Vec<T>,
    lo: usize,
    hi: usize,
    c: &C,
)
    requires
        lo <= hi,
        hi <= old(v)@.len(),
        cmp_callable(*c, old(v)@.subrange(lo as int, hi as int).to_multiset()),
    ensures
        permutes_range(old(v)@, final(v)@, lo as int, hi as int),
        forall|leq: spec_fn(T, T) -> bool|
            #[trigger] cmp_agrees(*c, leq) ==> sorted_range(final(v)@, lo as int, hi as int, leq),
{
    let ghost s0 = v@;
    let ghost m = s0.subrange(lo as int, hi as int).to_multiset();
    let total: usize = v.len();
    if hi - lo < 2 {
        return;
    }
    let n: usize = hi - lo;
    let mut b: usize = n / 2;
    while b > 0
        invariant
            b <= n,
            n == hi - lo,
            hi <= total,
            v@.len() == total,
            cmp_callable(*c, m),
            m == s0.subrange(lo as int, hi as int).to_multiset(),
            v@.subrange(lo as int, hi as int).to_multiset() == m,
            permutes_range(s0, v@, lo as int, hi as int),
            forall|leq: spec_fn(T, T) -> bool|
                #[trigger] cmp_agrees(*c, leq) ==> (forall|k: int|
                    1 <= k < n && hparent(k) >= b ==> leq(#[trigger] v@[lo + k], v@[lo + hparent(k)])),
        decreases b,
    {
        b = b - 1;
        let ghost sb = v@;
        sift_down(v, lo, b, n, c, Ghost(m));
        proof {
            assert forall|leq: spec_fn(T, T) -> bool| #[trigger] cmp_agrees(*c, leq) implies (forall|
                k: int,
            |
                1 <= k < n && hparent(k) >= b ==> leq(
                    #[trigger] v@[lo + k],
                    v@[lo + hparent(k)],
                )) by {
                assert(almost_heap(sb, lo as int, n as int, b as int, leq)) by {
                    assert forall|k: int|
                        1 <= k < n && in_subtree(b as int, k) && k != b && hparent(k) != b implies leq(
                        #[trigger] sb[lo + k],
                        sb[lo + hparent(k)],
                    ) by {
                        lemma_subtree_ge(b as int, hparent(k));
                    }
                }
                assert(subtree_heap(v@, lo as int, n as int, b as int, leq));
                assert forall|k: int| 1 <= k < n && hparent(k) >= b implies leq(
                    #[trigger] v@[lo + k],
                    v@[lo + hparent(k)],
                ) by {
                    if in_subtree(b as int, k) {
                        assert(k >= 2 * b + 1);
                        assert(k != b);
                    } else {
                        if in_subtree(b as int, hparent(k)) {
                            lemma_subtree_child(b as int, hparent(k), k);
                        } else {
                            assert(v@[lo + k] == sb[lo + k]);
                            assert(v@[lo + hparent(k)] == sb[lo + hparent(k)]);
                            assert(hparent(k) >= b + 1);
                            assert(leq(sb[lo + k], sb[lo + hparent(k)]));
                        }
                    }
                }
            }
        }
    }
    let mut t: usize = n;
    while t > 1
        invariant
            1 <= t <= n,
            n == hi - lo,
            hi <= total,
            v@.len() == total,
            cmp_callable(*c, m),
            m == s0.subrange(lo as int, hi as int).to_multiset(),
            v@.subrange(lo as int, hi as int).to_multiset() == m,
            permutes_range(s0, v@, lo as int, hi as int),
            forall|leq: spec_fn(T, T) -> bool|
                #[trigger] cmp_agrees(*c, leq) ==> heap_on(v@, lo as int, t as int, leq),
            forall|leq: spec_fn(T, T) -> bool|
                #[trigger] cmp_agrees(*c, leq) ==> sorted_range(v@, lo + t, lo + n, leq),
            forall|leq: spec_fn(T, T) -> bool|
                #[trigger] cmp_agrees(*c, leq) ==> below_all(
                    v@.subrange(lo as int, lo + t).to_multiset(),
                    v@,
                    lo + t,
                    lo + n,
                    leq,
                ),
        decreases t,
    {
        t = t - 1;
        let ghost sb = v@;
        swap_in_range(v, lo, hi, lo, lo + t, Ghost(s0));
        let ghost sw = v@;
        proof {
            broadcast use vstd::seq_lib::group_to_multiset_ensures;

            assert forall|leq: spec_fn(T, T) -> bool| #[trigger] cmp_agrees(*c, leq) implies {
                &&& almost_heap(sw, lo as int, t as int, 0, leq)
                &&& sorted_range(sw, lo + t, lo + n, leq)
                &&& below_all(sw.subrange(lo as int, lo + t).to_multiset(), sw, lo + t, lo + n, leq)
            } by {
                assert(heap_on(sb, lo as int, t + 1, leq));
                assert forall|k: int|
                    1 <= k < t && in_subtree(0, k) && k != 0 && hparent(k) != 0 implies leq(
                    #[trigger] sw[lo + k],
                    sw[lo + hparent(k)],
                ) by {
                    assert(sw[lo + k] == sb[lo + k]);
                    assert(sw[lo + hparent(k)] == sb[lo + hparent(k)]);
                }
                assert(sb.subrange(lo as int, lo + t + 1).to_multiset().contains(sb[lo as int])) by {
                    assert(sb.subrange(lo as int, lo + t + 1)[0] == sb[lo as int]);
                    assert(sb.subrange(lo as int, lo + t + 1).contains(sb[lo as int]));
                }
                assert forall|i: int, j: int| lo + t <= i < j < lo + n implies leq(
                    #[trigger] sw[i],
                    #[trigger] sw[j],
                ) by {
                    if i == lo + t {
                        assert(sw[i] == sb[lo as int]);
                        assert(sw[j] == sb[j]);
                        assert(leq(sb[lo as int], sb[j]));
                    } else {
                        assert(leq(sb[i], sb[j]));
                    }
                }
                let msw = sw.subrange(lo as int, lo + t).to_multiset();
                assert forall|x: T, b2: int|
                    #![trigger msw.count(x), sw[b2]]
                    msw.count(x) > 0 && lo + t <= b2 < lo + n implies leq(x, sw[b2]) by {
                    assert(sw.subrange(lo as int, lo + t).contains(x));
                    let k = choose|k: int|
                        0 <= k < t && #[trigger] sw.subrange(lo as int, lo + t)[k] == x;
                    if k == 0 {
                        assert(x == sb[lo + t]);
                        lemma_heap_root_max(sb, lo as int, t + 1, leq, t as int);
                    } else {
                        assert(x == sb[lo + k]);
                        lemma_heap_root_max(sb, lo as int, t + 1, leq, k);
                    }
                    assert(leq(x, sb[lo as int]));
                    if b2 == lo + t {
                        assert(sw[b2] == sb[lo as int]);
                    } else {
                        let kk: int = if k == 0 { t as int } else { k };
                        assert(sb.subrange(lo as int, lo + t + 1)[kk] == x);
                        assert(sb.subrange(lo as int, lo + t + 1).to_multiset().contains(x)) by {
                            assert(sb.subrange(lo as int, lo + t + 1).contains(x));
                        }
                        assert(leq(x, sb[b2]));
                        assert(sw[b2] == sb[b2]);
                    }
                }
            }
            lemma_callable_sub(*c, m, v@, lo as int, hi as int, lo as int, lo + t);
        }
        let ghost msub = v@.subrange(lo as int, lo + t).to_multiset();
        sift_down(v, lo, 0, t, c, Ghost(msub));
        proof {
            broadcast use vstd::seq_lib::group_to_multiset_ensures;

            lemma_permutes_widen(sw, v@, lo as int, hi as int, lo as int, lo + t);
            lemma_permutes_trans(s0, sw, v@, lo as int, hi as int);
            assert forall|leq: spec_fn(T, T) -> bool| #[trigger] cmp_agrees(*c, leq) implies {
                &&& heap_on(v@, lo as int, t as int, leq)
                &&& sorted_range(v@, lo + t, lo + n, leq)
                &&& below_all(v@.subrange(lo as int, lo + t).to_multiset(), v@, lo + t, lo + n, leq)
            } by {
                assert(subtree_heap(v@, lo as int, t as int, 0, leq));
                assert forall|k: int| 1 <= k < t implies leq(
                    #[trigger] v@[lo + k],
                    v@[lo + hparent(k)],
                ) by {
                    lemma_subtree_all(k);
                }
                assert forall|i: int, j: int| lo + t <= i < j < lo + n implies leq(
                    #[trigger] v@[i],
                    #[trigger] v@[j],
                ) by {
                    assert(v@[i] == sw[i]);
                    assert(v@[j] == sw[j]);
                }
                assert(v@.subrange(lo as int, lo + t).to_multiset() == sw.subrange(
                    lo as int,
                    lo + t,
                ).to_multiset());
                assert forall|x: T, b2: int|
                    #![trigger v@.subrange(lo as int, lo + t).to_multiset().count(x), v@[b2]]
                    v@.subrange(lo as int, lo + t).to_multiset().count(x) > 0 && lo + t <= b2 < lo
                        + n implies leq(x, v@[b2]) by {
                    assert(sw.subrange(lo as int, lo + t).to_multiset().count(x) > 0);
                    assert(leq(x, sw[b2]));
                    assert(v@[b2] == sw[b2]);
                }
            }
        }
    }
    proof {
        assert forall|leq: spec_fn(T, T) -> bool| #[trigger] cmp_agrees(*c, leq) implies sorted_range(
            v@,
            lo as int,
            hi as int,
            leq,
        ) by {
            broadcast use vstd::seq_lib::group_to_multiset_ensures;

            assert forall|i: int, j: int| lo <= i < j < hi implies leq(
                #[trigger] v@[i],
                #[trigger] v@[j],
            ) by {
                if i == lo {
                    assert(v@.subrange(lo as int, lo + 1)[0] == v@[lo as int]);
                    assert(v@.subrange(lo as int, lo + 1).contains(v@[lo as int]));
                    assert(v@.subrange(lo as int, lo + 1).to_multiset().count(v@[lo as int]) > 0);
                    assert(leq(v@[lo as int], v@[j]));
                }
            }
        }
    }
}

/// The sub-range size at or below which the engine uses insertion sort.
pub const SMALL_SORT: usize = 16;

/// Everything in `ms` sits at or below `p`.
spec fn all_below<T>(ms: Multiset<T>, p: T, leq: spec_fn(T, T) -> bool) -> bool {
    forall|x: T| #[trigger] ms.count(x) > 0 ==> leq(x, p)
}

/// Everything in `ms` sits at or above `p`.
spec fn all_above<T>(ms: Multiset<T>, p: T, leq: spec_fn(T, T) -> bool) -> bool {
    forall|x: T| #[trigger] ms.count(x) > 0 ==> leq(p, x)
}

proof fn lemma_index_in_ms<T>(s: Seq<T>, a: int, b: int, i: int)
    requires
        0 <= a <= i < b <= s.len(),
    ensures
        s.subrange(a, b).to_multiset().count(s[i]) > 0,
{
    broadcast use vstd::seq_lib::group_to_multiset_ensures;

    assert(s.subrange(a, b)[i - a] == s[i]);
    assert(s.subrange(a, b).contains(s[i]));
}

/// A three-way single-pivot partition of `[lo, hi)` around the value first
/// found at `lo`: one linear scan with three region pointers. Returns
/// `(a, b)` with the pivot at `a`, pivot-equal values on `[a, b)`, smaller
/// values before and larger values after. Equal runs are resolved here in
/// linear time, which is the engine's answer to duplicate-heavy ranges.
fn partition_single<T, C: Fn(&T, &T) -> Ordering>(
    v: &mut Vec<T>,
    lo: usize,
    hi: usize,
    c: &C,
) -> (r: (usize, usize))
    requires
        lo < hi <= old(v)@.len(),
        cmp_callable(*c, old(v)@.subrange(lo as int, hi as int).to_multiset()),
    ensures
        permutes_range(old(v)@, final(v)@, lo as int, hi as int),
        lo <= r.0 < r.1 <= hi,
        forall|leq: spec_fn(T, T) -> bool|
            #[trigger] cmp_agrees(*c, leq) ==> {
                &&& forall|k: int|
                    r.0 < k < r.1 ==> leq(#[trigger] final(v)@[k], final(v)@[r.0 as int])
                        && leq(final(v)@[r.0 as int], final(v)@[k])
                &&& all_below(
                    final(v)@.subrange(lo as int, r.0 as int).to_multiset(),
                    final(v)@[r.0 as int],
                    leq,
                )
                &&& all_above(
                    final(v)@.subrange(r.1 as int, hi as int).to_multiset(),
                    final(v)@[r.0 as int],
                    leq,
                )
            },
{
    let ghost s0 = v@;
    let ghost m = s0.subrange(lo as int, hi as int).to_multiset();
    let total: usize = v.len();
    let mut lt: usize = lo + 1;
    let mut i: usize = lo + 1;
    let mut gt: usize = hi;
    while i < gt
        invariant
            lo + 1 <= lt <= i <= gt <= hi <= total,
            v@.len() == total,
            cmp_callable(*c, m),
            m == s0.subrange(lo as int, hi as int).to_multiset(),
            v@.subrange(lo as int, hi as int).to_multiset() == m,
            permutes_range(s0, v@, lo as int, hi as int),
            forall|leq: spec_fn(T, T) -> bool|
                #[trigger] cmp_agrees(*c, leq) ==> {
                    &&& forall|k: int| lo + 1 <= k < lt ==> leq(#[trigger] v@[k], v@[lo as int])
                    &&& forall|k: int|
                        lt <= k < i ==> leq(#[trigger] v@[k], v@[lo as int])
                            && leq(v@[lo as int], v@[k])
                    &&& forall|k: int| gt <= k < hi ==> leq(v@[lo as int], #[trigger] v@[k])
                },
        decreases gt - i,
    {
        proof {
            lemma_pair_callable(*c, m, v@, lo as int, hi as int, i as int, lo as int);
        }
        let ghost sb = v@;
        let o = (*c)(&v[i], &v[lo]);
        proof {
            assert forall|leq: spec_fn(T, T) -> bool| #[trigger] cmp_agrees(*c, leq) implies
                answer_respects(leq, sb[i as int], sb[lo as int], o) by {}
        }
        match o {
            Ordering::Less => {
                swap_in_range(v, lo, hi, i, lt, Ghost(s0));
                lt = lt + 1;
                i = i + 1;
            },
            Ordering::Greater => {
                gt = gt - 1;
                swap_in_range(v, lo, hi, i, gt, Ghost(s0));
            },
            Ordering::Equal => {
                i = i + 1;
            },
        }
    }
    swap_in_range(v, lo, hi, lo, lt - 1, Ghost(s0));
    let a: usize = lt - 1;
    proof {
        assert forall|leq: spec_fn(T, T) -> bool| #[trigger] cmp_agrees(*c, leq) implies {
            &&& forall|k: int|
                a < k < gt ==> leq(#[trigger] v@[k], v@[a as int]) && leq(v@[a as int], v@[k])
            &&& all_below(v@.subrange(lo as int, a as int).to_multiset(), v@[a as int], leq)
            &&& all_above(v@.subrange(gt as int, hi as int).to_multiset(), v@[a as int], leq)
        } by {
            broadcast use vstd::seq_lib::group_to_multiset_ensures;

            assert forall|x: T|
                #[trigger] v@.subrange(lo as int, a as int).to_multiset().count(x) > 0 implies leq(
                x,
                v@[a as int],
            ) by {
                assert(v@.subrange(lo as int, a as int).contains(x));
                let k = choose|k: int|
                    0 <= k < a - lo && #[trigger] v@.subrange(lo as int, a as int)[k] == x;
                assert(v@[lo + k] == x);
            }
            assert forall|x: T|
                #[trigger] v@.subrange(gt as int, hi as int).to_multiset().count(x) > 0 implies leq(
                v@[a as int],
                x,
            ) by {
                assert(v@.subrange(gt as int, hi as int).contains(x));
                let k = choose|k: int|
                    0 <= k < hi - gt && #[trigger] v@.subrange(gt as int, hi as int)[k] == x;
                assert(v@[gt + k] == x);
            }
        }
    }
    (a, gt)
}

/// A dual-pivot partition of `[lo, hi)` in a single linear scan with three
/// region pointers: values below the low pivot, values between the pivots,
/// values above the high pivot. Returns the two pivot positions.
fn partition_dual<T, C: Fn(&T, &T) -> Ordering>(
    v: &mut Vec<T>,
    lo: usize,
    hi: usize,
    c: &C,
) -> (r: (usize, usize))
    requires
        lo + 2 <= hi <= old(v)@.len(),
        cmp_callable(*c, old(v)@.subrange(lo as int, hi as int).to_multiset()),
        forall|leq: spec_fn(T, T) -> bool|
            #[trigger] cmp_agrees(*c, leq) ==> leq(old(v)@[lo as int], old(v)@[hi - 1]),
    ensures
        permutes_range(old(v)@, final(v)@, lo as int, hi as int),
        lo <= r.0 < r.1 < hi,
        forall|leq: spec_fn(T, T) -> bool|
            #[trigger] cmp_agrees(*c, leq) ==> {
                &&& leq(final(v)@[r.0 as int], final(v)@[r.1 as int])
                &&& all_below(
                    final(v)@.subrange(lo as int, r.0 as int).to_multiset(),
                    final(v)@[r.0 as int],
                    leq,
                )
                &&& forall|x: T|
                    #[trigger] final(v)@.subrange(r.0 + 1, r.1 as int).to_multiset().count(x) > 0
                        ==> leq(final(v)@[r.0 as int], x) && leq(x, final(v)@[r.1 as int])
                &&& all_above(
                    final(v)@.subrange(r.1 + 1, hi as int).to_multiset(),
                    final(v)@[r.1 as int],
                    leq,
                )
            },
{
    let ghost s0 = v@;
    let ghost m = s0.subrange(lo as int, hi as int).to_multiset();
    let total: usize = v.len();
    let mut lt: usize = lo + 1;
    let mut i: usize = lo + 1;
    let mut gt: usize = hi - 1;
    while i < gt
        invariant
            lo + 1 <= lt <= i <= gt <= hi - 1,
            hi <= total,
            v@.len() == total,
            cmp_callable(*c, m),
            m == s0.subrange(lo as int, hi as int).to_multiset(),
            v@.subrange(lo as int, hi as int).to_multiset() == m,
            permutes_range(s0, v@, lo as int, hi as int),
            v@[lo as int] == s0[lo as int],
            v@[hi - 1] == s0[hi - 1],
            forall|leq: spec_fn(T, T) -> bool|
                #[trigger] cmp_agrees(*c, leq) ==> {
                    &&& forall|k: int| lo + 1 <= k < lt ==> leq(#[trigger] v@[k], v@[lo as int])
                    &&& forall|k: int|
                        lt <= k < i ==> leq(v@[lo as int], #[trigger] v@[k]) && leq(v@[k], v@[hi - 1])
                    &&& forall|k: int| gt <= k < hi - 1 ==> leq(v@[hi - 1], #[trigger] v@[k])
                },
        decreases gt - i,
    {
        proof {
            lemma_pair_callable(*c, m, v@, lo as int, hi as int, i as int, lo as int);
            lemma_pair_callable(*c, m, v@, lo as int, hi as int, i as int, hi - 1);
        }
        let ghost sb = v@;
        let o1 = (*c)(&v[i], &v[lo]);
        proof {
            assert forall|leq: spec_fn(T, T) -> bool| #[trigger] cmp_agrees(*c, leq) implies
                answer_respects(leq, sb[i as int], sb[lo as int], o1) by {}
        }
        match o1 {
            Ordering::Less => {
                swap_in_range(v, lo, hi, i, lt, Ghost(s0));
                lt = lt + 1;
                i = i + 1;
            },
            _ => {
                let o2 = (*c)(&v[i], &v[hi - 1]);
                proof {
                    assert forall|leq: spec_fn(T, T) -> bool| #[trigger] cmp_agrees(*c, leq) implies
                        answer_respects(leq, sb[i as int], sb[hi - 1], o2) by {}
                }
                match o2 {
                    Ordering::Greater => {
                        gt = gt - 1;
                        swap_in_range(v, lo, hi, i, gt, Ghost(s0));
                    },
                    _ => {
                        i = i + 1;
                    },
                }
            },
        }
    }
    swap_in_range(v, lo, hi, lo, lt - 1, Ghost(s0));
    swap_in_range(v, lo, hi, gt, hi - 1, Ghost(s0));
    let a: usize = lt - 1;
    proof {
        assert forall|leq: spec_fn(T, T) -> bool| #[trigger] cmp_agrees(*c, leq) implies {
            &&& leq(v@[a as int], v@[gt as int])
            &&& all_below(v@.subrange(lo as int, a as int).to_multiset(), v@[a as int], leq)
            &&& forall|x: T|
                #[trigger] v@.subrange(a + 1, gt as int).to_multiset().count(x) > 0
                    ==> leq(v@[a as int], x) && leq(x, v@[gt as int])
            &&& all_above(v@.subrange(gt + 1, hi as int).to_multiset(), v@[gt as int], leq)
        } by {
            broadcast use vstd::seq_lib::group_to_multiset_ensures;

            assert(v@[a as int] == s0[lo as int]);
            assert(v@[gt as int] == s0[hi - 1]);
            assert forall|x: T|
                #[trigger] v@.subrange(lo as int, a as int).to_multiset().count(x) > 0 implies leq(
                x,
                v@[a as int],
            ) by {
                assert(v@.subrange(lo as int, a as int).contains(x));
                let k = choose|k: int|
                    0 <= k < a - lo && #[trigger] v@.subrange(lo as int, a as int)[k] == x;
                assert(v@[lo + k] == x);
            }
            assert forall|x: T|
                #[trigger] v@.subrange(a + 1, gt as int).to_multiset().count(x) > 0 implies leq(
                v@[a as int],
                x,
            ) && leq(x, v@[gt as int]) by {
                assert(v@.subrange(a + 1, gt as int).contains(x));
                let k = choose|k: int|
                    0 <= k < gt - a - 1 && #[trigger] v@.subrange(a + 1, gt as int)[k] == x;
                assert(v@[a + 1 + k] == x);
            }
            assert forall|x: T|
                #[trigger] v@.subrange(gt + 1, hi as int).to_multiset().count(x) > 0 implies leq(
                v@[gt as int],
                x,
            ) by {
                assert(v@.subrange(gt + 1, hi as int).contains(x));
                let k = choose|k: int|
                    0 <= k < hi - gt - 1 && #[trigger] v@.subrange(gt + 1, hi as int)[k] == x;
                assert(v@[gt + 1 + k] == x);
            }
        }
    }
    (a, gt)
}

/// Three sorted segments whose elements respect the segment boundaries
/// form one sorted range.
proof fn lemma_glue<T>(s: Seq<T>, lo: int, a: int, b: int, hi: int, leq: spec_fn(T, T) -> bool)
    requires
        0 <= lo <= a <= b <= hi <= s.len(),
        sorted_range(s, lo, a, leq),
        sorted_range(s, a, b, leq),
        sorted_range(s, b, hi, leq),
        forall|i: int, j: int| lo <= i < a && a <= j < hi ==> leq(#[trigger] s[i], #[trigger] s[j]),
        forall|i: int, j: int| a <= i < b && b <= j < hi ==> leq(#[trigger] s[i], #[trigger] s[j]),
    ensures
        sorted_range(s, lo, hi, leq),
{
}

/// The facts about the final state that the glue needs from one completed
/// sub-sort: it is sorted there, it rearranged only that sub-range, and it
/// left the rest of the sequence alone.
spec fn subsort_done<T, C: Fn(&T, &T) -> Ordering>(c: C, pre: Seq<T>, post: Seq<T>, lo: int, hi: int) -> bool {
    &&& permutes_range(pre, post, lo, hi)
    &&& forall|leq: spec_fn(T, T) -> bool|
        #[trigger] cmp_agrees(c, leq) ==> sorted_range(post, lo, hi, leq)
}

/// Introsort around a single-pivot three-way partition: the route taken
/// when the two pivot candidates compare equal or when the between-pivots
/// region of a dual-pivot step dominates its range.
fn introsort_onepivot<T, C: Fn(&T, &T) -> Ordering>(
    v: &mut Vec<T>,
    lo: usize,
    hi: usize,
    depth: usize,
    c: &C,
)
    requires
        lo <= hi <= old(v)@.len(),
        cmp_callable(*c, old(v)@.subrange(lo as int, hi as int).to_multiset()),
    ensures
        subsort_done(*c, old(v)@, final(v)@, lo as int, hi as int),
    decreases depth, 0int,
{
    if hi - lo <= SMALL_SORT {
        insertion_sort_range(v, lo, hi, c);
        return;
    }
    if depth == 0 {
        heapsort_range(v, lo, hi, c);
        return;
    }
    let ghost s0 = v@;
    let ghost m = s0.subrange(lo as int, hi as int).to_multiset();
    let (a, b) = partition_single(v, lo, hi, c);
    let ghost sp = v@;
    proof {
        lemma_callable_sub(*c, m, v@, lo as int, hi as int, lo as int, a as int);
    }
    introsort_rec(v, lo, a, depth - 1, c);
    let ghost s1 = v@;
    proof {
        assert(s1.subrange(b as int, hi as int) =~= sp.subrange(b as int, hi as int));
        lemma_callable_sub(*c, m, sp, lo as int, hi as int, b as int, hi as int);
    }
    introsort_rec(v, b, hi, depth - 1, c);
    let ghost s2 = v@;
    proof {
        lemma_permutes_widen(sp, s1, lo as int, hi as int, lo as int, a as int);
        lemma_permutes_widen(s1, s2, lo as int, hi as int, b as int, hi as int);
        lemma_permutes_trans(s0, sp, s1, lo as int, hi as int);
        lemma_permutes_trans(s0, s1, s2, lo as int, hi as int);
        assert(s2.subrange(lo as int, a as int) =~= s1.subrange(lo as int, a as int));
        assert(s1.subrange(b as int, hi as int) =~= sp.subrange(b as int, hi as int));
        assert(s2[a as int] == sp[a as int]);
        assert forall|k: int| a <= k < b implies s2[k] == sp[k] by {}
        assert forall|leq: spec_fn(T, T) -> bool| #[trigger] cmp_agrees(*c, leq) implies sorted_range(
            s2,
            lo as int,
            hi as int,
            leq,
        ) by {
            let p = sp[a as int];
            assert(sorted_range(s2, lo as int, a as int, leq));
            assert(sorted_range(s2, b as int, hi as int, leq));
            assert forall|i: int, j: int| a <= i < j < b implies leq(#[trigger] s2[i], #[trigger] s2[j]) by {
                if i > a {
                    assert(leq(sp[i], p));
                }
                assert(leq(p, sp[j]));
                if i > a {
                    assert(leq(s2[i], p) && leq(p, s2[j]));
                }
            }
            assert forall|i: int, j: int| lo <= i < a && a <= j < hi implies leq(
                #[trigger] s2[i],
                #[trigger] s2[j],
            ) by {
                lemma_index_in_ms(s2, lo as int, a as int, i);
                assert(s2.subrange(lo as int, a as int).to_multiset() == sp.subrange(
                    lo as int,
                    a as int,
                ).to_multiset());
                assert(leq(s2[i], p));
                if j == a {
                } else if j < b {
                    assert(leq(p, sp[j]));
                    assert(leq(p, s2[j]));
                } else {
                    lemma_index_in_ms(s2, b as int, hi as int, j);
                    assert(s2.subrange(b as int, hi as int).to_multiset() == sp.subrange(
                        b as int,
                        hi as int,
                    ).to_multiset());
                    assert(leq(p, s2[j]));
                }
            }
            assert forall|i: int, j: int| a <= i < b && b <= j < hi implies leq(
                #[trigger] s2[i],
                #[trigger] s2[j],
            ) by {
                if i > a {
                    assert(leq(s2[i], p));
                }
                lemma_index_in_ms(s2, b as int, hi as int, j);
                assert(s2.subrange(b as int, hi as int).to_multiset() == sp.subrange(
                    b as int,
                    hi as int,
                ).to_multiset());
                assert(leq(p, s2[j]));
            }
            lemma_glue(s2, lo as int, a as int, b as int, hi as int, leq);
        }
    }
}

/// The hybrid engine on `[lo, hi)`: insertion sort below the small-range
/// cutoff, heapsort once the recursion budget is spent, and otherwise a
/// dual-pivot quicksort step whose three parts are sorted recursively. A
/// between-pivots part that dominates the range is handed to the
/// single-pivot route, which resolves equal runs in linear time.
fn introsort_rec<T, C: Fn(&T, &T) -> Ordering>(
    v: &mut Vec<T>,
    lo: usize,
    hi: usize,
    depth: usize,
    c: &C,
)
    requires
        lo <= hi <= old(v)@.len(),
        cmp_callable(*c, old(v)@.subrange(lo as int, hi as int).to_multiset()),
    ensures
        subsort_done(*c, old(v)@, final(v)@, lo as int, hi as int),
    decreases depth, 1int,
{
    if hi - lo <= SMALL_SORT {
        insertion_sort_range(v, lo, hi, c);
        return;
    }
    if depth == 0 {
        heapsort_range(v, lo, hi, c);
        return;
    }
    let ghost s0 = v@;
    let ghost m = s0.subrange(lo as int, hi as int).to_multiset();
    // pivot candidates near the first and last thirds, to keep sorted and
    // reverse-sorted inputs away from the worst case
    let third: usize = (hi - lo) / 3;
    swap_in_range(v, lo, hi, lo, lo + third, Ghost(s0));
    swap_in_range(v, lo, hi, hi - 1, hi - 1 - third, Ghost(s0));
    proof {
        lemma_pair_callable(*c, m, v@, lo as int, hi as int, lo as int, hi - 1);
    }
    let ghost sc = v@;
    let op = (*c)(&v[lo], &v[hi - 1]);
    proof {
        assert forall|leq: spec_fn(T, T) -> bool| #[trigger] cmp_agrees(*c, leq) implies
            answer_respects(leq, sc[lo as int], sc[hi - 1], op) by {}
    }
    match op {
        Ordering::Equal => {
            introsort_onepivot(v, lo, hi, depth, c);
            proof {
                lemma_permutes_trans(s0, sc, v@, lo as int, hi as int);
            }
            return;
        },
        Ordering::Greater => {
            swap_in_range(v, lo, hi, lo, hi - 1, Ghost(s0));
        },
        Ordering::Less => {},
    }
    let ghost sd = v@;
    proof {
        assert forall|leq: spec_fn(T, T) -> bool| #[trigger] cmp_agrees(*c, leq) implies leq(
            sd[lo as int],
            sd[hi - 1],
        ) by {}
    }
    let (a, b) = partition_dual(v, lo, hi, c);
    let ghost sp = v@;
    proof {
        lemma_permutes_trans(s0, sd, sp, lo as int, hi as int);
        lemma_callable_sub(*c, m, sp, lo as int, hi as int, lo as int, a as int);
    }
    introsort_rec(v, lo, a, depth - 1, c);
    let ghost s1 = v@;
    proof {
        assert(s1.subrange(a + 1, b as int) =~= sp.subrange(a + 1, b as int));
        lemma_callable_sub(*c, m, sp, lo as int, hi as int, a + 1, b as int);
    }
    if b - a - 1 > (hi - lo) / 2 {
        introsort_onepivot(v, a + 1, b, depth, c);
    } else {
        introsort_rec(v, a + 1, b, depth - 1, c);
    }
    let ghost s2 = v@;
    proof {
        assert(s2.subrange(b + 1, hi as int) =~= s1.subrange(b + 1, hi as int));
        assert(s1.subrange(b + 1, hi as int) =~= sp.subrange(b + 1, hi as int));
        lemma_callable_sub(*c, m, sp, lo as int, hi as int, b + 1, hi as int);
    }
    introsort_rec(v, b + 1, hi, depth - 1, c);
    let ghost s3 = v@;
    proof {
        lemma_permutes_widen(sp, s1, lo as int, hi as int, lo as int, a as int);
        lemma_permutes_widen(s1, s2, lo as int, hi as int, a + 1, b as int);
        lemma_permutes_widen(s2, s3, lo as int, hi as int, b + 1, hi as int);
        lemma_permutes_trans(s0, sp, s1, lo as int, hi as int);
        lemma_permutes_trans(s0, s1, s2, lo as int, hi as int);
        lemma_permutes_trans(s0, s2, s3, lo as int, hi as int);
        assert(s3.subrange(lo as int, a as int) =~= s1.subrange(lo as int, a as int));
        assert(s3.subrange(a + 1, b as int) =~= s2.subrange(a + 1, b as int));
        assert(s3[a as int] == sp[a as int]);
        assert(s3[b as int] == sp[b as int]);
        assert forall|leq: spec_fn(T, T) -> bool| #[trigger] cmp_agrees(*c, leq) implies sorted_range(
            s3,
            lo as int,
            hi as int,
            leq,
        ) by {
            let p1 = sp[a as int];
            let p2 = sp[b as int];
            assert(leq(p1, p2));
            assert(sorted_range(s3, lo as int, a as int, leq));
            assert(sorted_range(s3, a + 1, b as int, leq));
            assert(sorted_range(s3, b + 1, hi as int, leq));
            assert forall|k: int| lo <= k < a implies leq(#[trigger] s3[k], p1) by {
                lemma_index_in_ms(s3, lo as int, a as int, k);
                assert(s3.subrange(lo as int, a as int).to_multiset() == sp.subrange(
                    lo as int,
                    a as int,
                ).to_multiset());
            }
            assert forall|k: int| a < k < b implies leq(p1, #[trigger] s3[k]) && leq(s3[k], p2) by {
                lemma_index_in_ms(s3, a + 1, b as int, k);
                assert(s3.subrange(a + 1, b as int).to_multiset() == sp.subrange(
                    a + 1,
                    b as int,
                ).to_multiset());
            }
            assert forall|k: int| b < k < hi implies leq(p2, #[trigger] s3[k]) by {
                lemma_index_in_ms(s3, b + 1, hi as int, k);
                assert(s3.subrange(b + 1, hi as int).to_multiset() == sp.subrange(
                    b + 1,
                    hi as int,
                ).to_multiset());
            }
            assert(sorted_range(s3, a as int, b as int, leq));
            assert(sorted_range(s3, b as int, hi as int, leq));
            assert forall|i: int, j: int| lo <= i < a && a <= j < hi implies leq(
                #[trigger] s3[i],
                #[trigger] s3[j],
            ) by {
                assert(leq(s3[i], p1));
                if j == a {
                } else if j < b {
                    assert(leq(p1, s3[j]));
                } else if j == b {
                    assert(leq(p1, p2));
                } else {
                    assert(leq(p2, s3[j]));
                }
            }
            assert forall|i: int, j: int| a <= i < b && b <= j < hi implies leq(
                #[trigger] s3[i],
                #[trigger] s3[j],
            ) by {
                if i == a {
                    if j == b {
                    } else {
                        assert(leq(p2, s3[j]));
                    }
                } else {
                    assert(leq(s3[i], p2));
                    if j > b {
                        assert(leq(p2, s3[j]));
                    }
                }
            }
            lemma_glue(s3, lo as int, a as int, b as int, hi as int, leq);
        }
    }
}

/// Recursion budget for one top-level sort: about twice the base-two
/// logarithm of the length, so quicksort that keeps picking poor pivots is
/// cut over to heapsort before it can go quadratic.
fn depth_budget(n: usize) -> (d: usize) {
    let mut d: usize = 0;
    let mut m: usize = n;
    while m > 1 && d < 128
        invariant
            d <= 128,
        decreases m,
    {
        m = m / 2;
        d = d + 1;
    }
    2 * d
}

/// The engine on one sub-range, with a fresh recursion budget.
pub(crate) fn sort_range<T, C: Fn(&T, &T) -> Ordering>(v: &mut Vec<T>, lo: usize, hi: usize, c: &C)
    requires
        lo <= hi <= old(v)@.len(),
        cmp_callable(*c, old(v)@.subrange(lo as int, hi as int).to_multiset()),
    ensures
        permutes_range(old(v)@, final(v)@, lo as int, hi as int),
        forall|leq: spec_fn(T, T) -> bool|
            #[trigger] cmp_agrees(*c, leq) ==> sorted_range(final(v)@, lo as int, hi as int, leq),
{
    let depth: usize = depth_budget(hi - lo);
    introsort_rec(v, lo, hi, depth, c);
}

/// Sort in place with a three-way comparator.
///
/// The sequence afterwards holds the same elements, and is sorted under
/// every transitive relation the comparator agrees with; a comparator that
/// is no valid order still leaves some rearrangement of the input.
pub fn sort_by<T, C: Fn(&T, &T) -> Ordering>(v: &mut Vec<T>, compare: &C)
    requires
        cmp_callable(*compare, old(v)@.to_multiset()),
    ensures
        final(v)@.to_multiset() == old(v)@.to_multiset(),
        final(v)@.len() == old(v)@.len(),
        forall|leq: spec_fn(T, T) -> bool|
            #[trigger] cmp_agrees(*compare, leq) ==> sorted_by(final(v)@, leq),
{
    let n: usize = v.len();
    proof {
        assert(v@.subrange(0, n as int) =~= v@);
    }
    let depth: usize = depth_budget(n);
    introsort_rec(v, 0, n, depth, compare);
    proof {
        lemma_permutes_whole(old(v)@, v@, 0, n as int);
        assert forall|leq: spec_fn(T, T) -> bool| #[trigger] cmp_agrees(*compare, leq) implies sorted_by(
            v@,
            leq,
        ) by {
            assert(sorted_range(v@, 0, n as int, leq));
        }
    }
}

/// Insertion sort over the whole sequence, exposed as a primitive for
/// callers whose data is small or already nearly sorted.
pub fn insertion_sort<T, C: Fn(&T, &T) -> Ordering>(v: &mut Vec<T>, compare: &C)
    requires
        cmp_callable(*compare, old(v)@.to_multiset()),
    ensures
        final(v)@.to_multiset() == old(v)@.to_multiset(),
        final(v)@.len() == old(v)@.len(),
        forall|leq: spec_fn(T, T) -> bool|
            #[trigger] cmp_agrees(*compare, leq) ==> sorted_by(final(v)@, leq),
{
    let n: usize = v.len();
    proof {
        assert(v@.subrange(0, n as int) =~= v@);
    }
    insertion_sort_range(v, 0, n, compare);
    proof {
        lemma_permutes_whole(old(v)@, v@, 0, n as int);
        assert forall|leq: spec_fn(T, T) -> bool| #[trigger] cmp_agrees(*compare, leq) implies sorted_by(
            v@,
            leq,
        ) by {
            assert(sorted_range(v@, 0, n as int, leq));
        }
    }
}

/// Heapsort over the whole sequence, exposed as a primitive; `O(n log n)`
/// on every input.
pub fn heapsort<T, C: Fn(&T, &T) -> Ordering>(v: &mut Vec<T>, compare: &C)
    requires
        cmp_callable(*compare, old(v)@.to_multiset()),
    ensures
        final(v)@.to_multiset() == old(v)@.to_multiset(),
        final(v)@.len() == old(v)@.len(),
        forall|leq: spec_fn(T, T) -> bool|
            #[trigger] cmp_agrees(*compare, leq) ==> sorted_by(final(v)@, leq),
{
    let n: usize = v.len();
    proof {
        assert(v@.subrange(0, n as int) =~= v@);
    }
    heapsort_range(v, 0, n, compare);
    proof {
        lemma_permutes_whole(old(v)@, v@, 0, n as int);
        assert forall|leq: spec_fn(T, T) -> bool| #[trigger] cmp_agrees(*compare, leq) implies sorted_by(
            v@,
            leq,
        ) by {
            assert(sorted_range(v@, 0, n as int, leq));
        }
    }
}

/// A type with a natural total order, stated by `le` and decided at run
/// time by `cmp_to`.
pub trait TotalOrdered: Sized {
    spec fn le(self, other: Self) -> bool;

    proof fn le_total(a: Self, b: Self)
        ensures
            a.le(b) || b.le(a),
    ;

    proof fn le_trans(a: Self, b: Self, c: Self)
        requires
            a.le(b),
            b.le(c),
        ensures
            a.le(c),
    ;

    proof fn le_antisym(a: Self, b: Self)
        requires
            a.le(b),
            b.le(a),
        ensures
            a == b,
    ;

    fn cmp_to(&self, other: &Self) -> (o: Ordering)
        ensures
            o != Ordering::Greater ==> self.le(*other),
            o != Ordering::Less ==> other.le(*self),
    ;
}

/// The natural order of a `TotalOrdered` type, as a relation.
pub open spec fn natural_leq<T: TotalOrdered>() -> spec_fn(T, T) -> bool {
    |x: T, y: T| x.le(y)
}

/// Sort elements with a natural total order in place, ascending.
pub fn sort<T: TotalOrdered>(v: &mut Vec<T>)
    ensures
        final(v)@.to_multiset() == old(v)@.to_multiset(),
        final(v)@.len() == old(v)@.len(),
        sorted_by(final(v)@, natural_leq::<T>()),
{
    let cl = |a: &T, b: &T| -> (o: Ordering)
        ensures
            o != Ordering::Greater ==> (*a).le(*b),
            o != Ordering::Less ==> (*b).le(*a),
        { a.cmp_to(b) };
    proof {
        assert forall|x: T, y: T|
            old(v)@.to_multiset().contains(x) && old(v)@.to_multiset().contains(y)
                implies #[trigger] call_requires(cl, (&x, &y)) by {}
    }
    sort_by(v, &cl);
    proof {
        assert(cmp_agrees(cl, natural_leq::<T>())) by {
            assert forall|x: T, y: T, z: T|
                #[trigger] natural_leq::<T>()(x, y) && #[trigger] natural_leq::<T>()(y, z)
                    implies natural_leq::<T>()(x, z) by {
                T::le_trans(x, y, z);
            }
            assert forall|x: T, y: T, o: Ordering| #[trigger] call_ensures(cl, (&x, &y), o) implies
                answer_respects(natural_leq::<T>(), x, y, o) by {}
        }
    }
}

/// The natural order of a `TotalOrdered` type is a total order, so
/// `lemma_sorted_permutation_unique` applies to it: `sort` has exactly one
/// possible output for a given input, sorting a sorted sequence returns it
/// unchanged, and sorting twice equals sorting once.
pub proof fn lemma_natural_total_ordering<T: TotalOrdered>()
    ensures
        vstd::relations::total_ordering(natural_leq::<T>()),
{
    assert forall|x: T| #[trigger] natural_leq::<T>()(x, x) by {
        T::le_total(x, x);
    }
    assert forall|x: T, y: T, z: T|
        #[trigger] natural_leq::<T>()(x, y) && #[trigger] natural_leq::<T>()(y, z)
            implies natural_leq::<T>()(x, z) by {
        T::le_trans(x, y, z);
    }
    assert forall|x: T, y: T|
        #[trigger] natural_leq::<T>()(x, y) && #[trigger] natural_leq::<T>()(y, x) implies x
        == y by {
        T::le_antisym(x, y);
    }
    assert forall|x: T, y: T| #[trigger] natural_leq::<T>()(x, y) || #[trigger] natural_leq::<T>()(
        y,
        x,
    ) by {
        T::le_total(x, y);
    }
}

/// The key extractor `f` computes the function `kf`.
pub open spec fn key_agrees<T, K, F: Fn(&T) -> K>(f: F, kf: spec_fn(T) -> K) -> bool {
    forall|x: T, k: K| #[trigger] call_ensures(f, (&x,), k) ==> k == kf(x)
}

/// Order values by the images their keys take under `kf`.
pub open spec fn key_leq<T, K: TotalOrdered>(kf: spec_fn(T) -> K) -> spec_fn(T, T) -> bool {
    |x: T, y: T| kf(x).le(kf(y))
}

/// Sort in place by a derived key: equivalent to sorting with the
/// comparator that compares extracted keys.
pub fn sort_by_key<T, K: TotalOrdered, F: Fn(&T) -> K + Copy>(v: &mut Vec<T>, key: F)
    requires
        forall|x: T| old(v)@.to_multiset().contains(x) ==> #[trigger] call_requires(key, (&x,)),
    ensures
        final(v)@.to_multiset() == old(v)@.to_multiset(),
        final(v)@.len() == old(v)@.len(),
        forall|kf: spec_fn(T) -> K|
            #[trigger] key_agrees(key, kf) ==> sorted_by(final(v)@, key_leq(kf)),
{
    let cl = |a: &T, b: &T| -> (o: Ordering)
        requires
            call_requires(key, (a,)),
            call_requires(key, (b,)),
        ensures
            exists|ka: K, kb: K|
                {
                    &&& #[trigger] call_ensures(key, (a,), ka)
                    &&& #[trigger] call_ensures(key, (b,), kb)
                    &&& o != Ordering::Greater ==> ka.le(kb)
                    &&& o != Ordering::Less ==> kb.le(ka)
                },
        {
            let ka = key(a);
            let kb = key(b);
            ka.cmp_to(&kb)
        };
    proof {
        assert forall|x: T, y: T|
            old(v)@.to_multiset().contains(x) && old(v)@.to_multiset().contains(y)
                implies #[trigger] call_requires(cl, (&x, &y)) by {}
    }
    sort_by(v, &cl);
    proof {
        assert forall|kf: spec_fn(T) -> K| #[trigger] key_agrees(key, kf) implies sorted_by(
            v@,
            key_leq(kf),
        ) by {
            assert(cmp_agrees(cl, key_leq(kf))) by {
                assert forall|x: T, y: T, z: T|
                    #[trigger] key_leq(kf)(x, y) && #[trigger] key_leq(kf)(y, z)
                        implies key_leq(kf)(x, z) by {
                    K::le_trans(kf(x), kf(y), kf(z));
                }
                assert forall|x: T, y: T, o: Ordering| #[trigger] call_ensures(cl, (&x, &y), o)
                    implies answer_respects(key_leq(kf), x, y, o) by {
                    let (ka, kb) = choose|ka: K, kb: K|
                        {
                            &&& #[trigger] call_ensures(key, (&x,), ka)
                            &&& #[trigger] call_ensures(key, (&y,), kb)
                            &&& o != Ordering::Greater ==> ka.le(kb)
                            &&& o != Ordering::Less ==> kb.le(ka)
                        };
                    assert(ka == kf(x));
                    assert(kb == kf(y));
                }
            }
        }
    }
}

impl TotalOrdered for u8 {
    open spec fn le(self, other: Self) -> bool {
        self <= other
    }

    proof fn le_total(a: Self, b: Self) {
    }

    proof fn le_trans(a: Self, b: Self, c: Self) {
    }

    proof fn le_antisym(a: Self, b: Self) {
    }

    fn cmp_to(&self, other: &Self) -> (o: Ordering) {
        if *self < *other {
            Ordering::Less
        } else if *other < *self {
            Ordering::Greater
        } else {
            Ordering::Equal
        }
    }
}

impl TotalOrdered for u32 {
    open spec fn le(self, other: Self) -> bool {
        self <= other
    }

    proof fn le_total(a: Self, b: Self) {
    }

    proof fn le_trans(a: Self, b: Self, c: Self) {
    }

    proof fn le_antisym(a: Self, b: Self) {
    }

    fn cmp_to(&self, other: &Self) -> (o: Ordering) {
        if *self < *other {
            Ordering::Less
        } else if *other < *self {
            Ordering::Greater
        } else {
            Ordering::Equal
        }
    }
}

impl TotalOrdered for u64 {
    open spec fn le(self, other: Self) -> bool {
        self <= other
    }

    proof fn le_total(a: Self, b: Self) {
    }

    proof fn le_trans(a: Self, b: Self, c: Self) {
    }

    proof fn le_antisym(a: Self, b: Self) {
    }

    fn cmp_to(&self, other: &Self) -> (o: Ordering) {
        if *self < *other {
            Ordering::Less
        } else if *other < *self {
            Ordering::Greater
        } else {
            Ordering::Equal
        }
    }
}

impl TotalOrdered for usize {
    open spec fn le(self, other: Self) -> bool {
        self <= other
    }

    proof fn le_total(a: Self, b: Self) {
    }

    proof fn le_trans(a: Self, b: Self, c: Self) {
    }

    proof fn le_antisym(a: Self, b: Self) {
    }

    fn cmp_to(&self, other: &Self) -> (o: Ordering) {
        if *self < *other {
            Ordering::Less
        } else if *other < *self {
            Ordering::Greater
        } else {
            Ordering::Equal
        }
    }
}

impl TotalOrdered for i32 {
    open spec fn le(self, other: Self) -> bool {
        self <= other
    }

    proof fn le_total(a: Self, b: Self) {
    }

    proof fn le_trans(a: Self, b: Self, c: Self) {
    }

    proof fn le_antisym(a: Self, b: Self) {
    }

    fn cmp_to(&self, other: &Self) -> (o: Ordering) {
        if *self < *other {
            Ordering::Less
        } else if *other < *self {
            Ordering::Greater
        } else {
            Ordering::Equal
        }
    }
}

impl TotalOrdered for i64 {
    open spec fn le(self, other: Self) -> bool {
        self <= other
    }

    proof fn le_total(a: Self, b: Self) {
    }

    proof fn le_trans(a: Self, b: Self, c: Self) {
    }

    proof fn le_antisym(a: Self, b: Self) {
    }

    fn cmp_to(&self, other: &Self) -> (o: Ordering) {
        if *self < *other {
            Ordering::Less
        } else if *other < *self {
            Ordering::Greater
        } else {
            Ordering::Equal
        }
    }
}

} // verus!
