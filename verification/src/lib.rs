//! An introspective in-place comparison sort.
//!
//! The core is a hybrid engine: dual-pivot quicksort with a single-pivot
//! fallback for ranges dominated by equal elements, a recursion budget that
//! switches a sub-range to heapsort when exhausted, and insertion sort for
//! small ranges. A separate adapter sorts floating-point-like values into the
//! total order `-inf < negative < -0 < +0 < positive < +inf < NaN`.
//!
//! Every sort rearranges the sequence in place: the multiset of elements is
//! preserved, and the result is ordered under every transitive relation the
//! supplied comparator agrees with.

mod order;
mod sort;
mod float;

pub use order::answer_respects;
pub use order::cmp_agrees;
pub use order::cmp_callable;
pub use order::sorted_range;
pub use order::lemma_sorted_permutation_unique;
pub use order::lemma_short_range_fixed;
pub use sort::sort;
pub use sort::sort_by;
pub use sort::sort_by_key;
pub use sort::insertion_sort;
pub use sort::heapsort;
pub use sort::TotalOrdered;
pub use sort::natural_leq;
pub use sort::lemma_natural_total_ordering;
pub use sort::key_agrees;
pub use sort::key_leq;
pub use float::Float;
pub use float::sort_floats;
pub use float::find_first_zero;
pub use float::float_laws;
pub use float::float_le;
pub use float::float_le_fn;
pub use float::hw_le;
pub use float::hw_le_fn;
pub use float::below_zero;
pub use float::is_neg_zero;
pub use float::is_pos_zero;
pub use float::nan_free;
pub use float::class_count;
