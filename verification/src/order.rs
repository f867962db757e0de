//! The order of texts, and sorting.

use vstd::prelude::*;
use vstd::seq_lib::{
    group_to_multiset_ensures, seq_to_set_is_finite, to_multiset_build, to_multiset_insert,
};
use vstd::set_lib::{lemma_int_range, lemma_subset_equality, set_int_range};

use crate::text::{chars_of, texts_view};

verus! {

/// One text comes before another: character by character, by code point,
/// which is the order of their UTF-8 bytes. A prefix comes first.
pub open spec fn text_less(a: Seq<char>, b: Seq<char>) -> bool
    decreases a.len(),
{
    if b.len() == 0 {
        false
    } else if a.len() == 0 {
        true
    } else if a.first() != b.first() {
        a.first() < b.first()
    } else {
        text_less(a.drop_first(), b.drop_first())
    }
}

/// No text comes before itself.
pub proof fn lemma_text_less_irreflexive(a: Seq<char>)
    ensures
        !text_less(a, a),
    decreases a.len(),
{
    if a.len() > 0 {
        lemma_text_less_irreflexive(a.drop_first());
    }
}

pub proof fn lemma_text_less_transitive(a: Seq<char>, b: Seq<char>, c: Seq<char>)
    requires
        text_less(a, b),
        text_less(b, c),
    ensures
        text_less(a, c),
    decreases a.len(),
{
    if a.len() > 0 && a.first() == b.first() && b.first() == c.first() {
        lemma_text_less_transitive(a.drop_first(), b.drop_first(), c.drop_first());
    }
}

/// Of two texts that differ one comes before the other.
pub proof fn lemma_text_less_total(a: Seq<char>, b: Seq<char>)
    ensures
        a == b || text_less(a, b) || text_less(b, a),
    decreases a.len(),
{
    if a.len() > 0 && b.len() > 0 {
        if a.first() == b.first() {
            lemma_text_less_total(a.drop_first(), b.drop_first());
            if a.drop_first() == b.drop_first() {
                assert(a =~= seq![a.first()] + a.drop_first());
            }
        }
    }
}

/// Whether one text comes before another.
pub fn comes_before(a: &str, b: &str) -> (less: bool)
    ensures
        less == text_less(a@, b@),
{
    let a_chars = chars_of(a);
    let b_chars = chars_of(b);
    let mut i: usize = 0;
    assert(a@.skip(0) == a@);
    assert(b@.skip(0) == b@);
    while i < a_chars.len() && i < b_chars.len()
        invariant
            a_chars@ == a@,
            b_chars@ == b@,
            i <= a@.len(),
            i <= b@.len(),
            text_less(a@, b@) == text_less(a@.skip(i as int), b@.skip(i as int)),
        decreases a@.len() - i,
    {
        if a_chars[i] != b_chars[i] {
            return a_chars[i] < b_chars[i];
        }
        assert(a@.skip(i as int).drop_first() == a@.skip(i + 1));
        assert(b@.skip(i as int).drop_first() == b@.skip(i + 1));
        i += 1;
    }
    i < b_chars.len()
}

/// What can be sorted: values with an order in which two can share a rank.
pub trait Ranked: Sized {
    /// This value comes before another.
    spec fn before(&self, other: &Self) -> bool;

    /// The order is strict, and values of one rank can stand for one another.
    proof fn before_is_strict(a: &Self, b: &Self, c: &Self)
        ensures
            !a.before(a),
            a.before(b) && b.before(c) ==> a.before(c),
            !a.before(b) && !b.before(c) ==> !a.before(c),
    ;

    fn is_before(&self, other: &Self) -> (is: bool)
        ensures
            is == self.before(other),
    ;
}

impl Ranked for String {
    open spec fn before(&self, other: &Self) -> bool {
        text_less(self@, other@)
    }

    proof fn before_is_strict(a: &Self, b: &Self, c: &Self) {
        lemma_text_less_irreflexive(a@);
        if a.before(b) && b.before(c) {
            lemma_text_less_transitive(a@, b@, c@);
        }
        lemma_text_less_total(b@, c@);
        if !a.before(b) && !b.before(c) && a.before(c) {
            if text_less(c@, b@) {
                lemma_text_less_transitive(a@, c@, b@);
            }
        }
    }

    fn is_before(&self, other: &Self) -> (is: bool) {
        comes_before(self.as_str(), other.as_str())
    }
}

/// The value at one index comes before that at another; of two values of one
/// rank, the one at the lower index does.
pub open spec fn index_before<T: Ranked>(items: Seq<T>, i: int, j: int) -> bool {
    items[i].before(&items[j]) || (!items[j].before(&items[i]) && i < j)
}

/// `order` lists every index of `items` once, in the order of the values;
/// values of one rank keep theirs.
pub open spec fn is_stable_order<T: Ranked>(items: Seq<T>, order: Seq<usize>) -> bool {
    &&& order.len() == items.len()
    &&& in_range(order, 0, items.len() as int)
    &&& is_rising(items, order)
}

/// All indices are in a range.
pub open spec fn in_range(order: Seq<usize>, lo: int, hi: int) -> bool {
    forall|k: int| 0 <= k < order.len() ==> lo <= #[trigger] order[k] < hi
}

/// Each index comes before those behind it.
pub open spec fn is_rising<T: Ranked>(items: Seq<T>, order: Seq<usize>) -> bool {
    forall|j: int, k: int|
        0 <= j < k < order.len() ==> index_before(
            items,
            #[trigger] order[j] as int,
            #[trigger] order[k] as int,
        )
}

proof fn lemma_index_before<T: Ranked>(items: Seq<T>, i: int, j: int, k: int)
    ensures
        !index_before(items, i, i),
        index_before(items, i, j) && index_before(items, j, k) ==> index_before(items, i, k),
        i != j ==> index_before(items, i, j) || index_before(items, j, i),
{
    T::before_is_strict(&items[i], &items[j], &items[k]);
    T::before_is_strict(&items[k], &items[j], &items[i]);
    T::before_is_strict(&items[k], &items[i], &items[j]);
    T::before_is_strict(&items[j], &items[k], &items[i]);
    T::before_is_strict(&items[i], &items[k], &items[j]);
    T::before_is_strict(&items[j], &items[i], &items[k]);
    T::before_is_strict(&items[i], &items[j], &items[i]);
}

/// Whether the value at one index comes before that at another.
fn is_index_before<T: Ranked>(items: &[T], i: usize, j: usize) -> (is: bool)
    requires
        i < items@.len(),
        j < items@.len(),
    ensures
        is == index_before(items@, i as int, j as int),
{
    items[i].is_before(&items[j]) || (!items[j].is_before(&items[i]) && i < j)
}

/// The first index of what is left of a run comes before the rest of it.
spec fn heads<T: Ranked>(items: Seq<T>, out: Seq<usize>, run: Seq<usize>, from: int) -> bool {
    forall|j: int, k: int|
        0 <= j < out.len() && from <= k < run.len() ==> index_before(
            items,
            #[trigger] out[j] as int,
            #[trigger] run[k] as int,
        )
}

/// Merges two runs of indices that have none in common.
fn merge<T: Ranked>(items: &[T], a: Vec<usize>, b: Vec<usize>, Ghost(mid): Ghost<int>) -> (out: Vec<
    usize,
>)
    requires
        is_rising(items@, a@),
        is_rising(items@, b@),
        in_range(a@, 0, mid),
        in_range(b@, mid, items@.len() as int),
        0 <= mid <= items@.len(),
        a@.len() + b@.len() <= usize::MAX,
    ensures
        is_rising(items@, out@),
        out@.len() == a@.len() + b@.len(),
        forall|k: int|
            0 <= k < out@.len() ==> a@.contains(#[trigger] out@[k]) || b@.contains(out@[k]),
{
    let mut out: Vec<usize> = Vec::new();
    let mut i: usize = 0;
    let mut j: usize = 0;
    while i < a.len() || j < b.len()
        invariant
            i <= a@.len(),
            j <= b@.len(),
            out@.len() == i + j,
            0 <= mid <= items@.len(),
            in_range(a@, 0, mid),
            in_range(b@, mid, items@.len() as int),
            is_rising(items@, a@),
            is_rising(items@, b@),
            is_rising(items@, out@),
            heads(items@, out@, a@, i as int),
            heads(items@, out@, b@, j as int),
            forall|k: int|
                0 <= k < out@.len() ==> a@.contains(#[trigger] out@[k]) || b@.contains(out@[k]),
        decreases a@.len() - i + b@.len() - j,
    {
        let from_a = if i >= a.len() {
            false
        } else if j >= b.len() {
            true
        } else {
            is_index_before(items, a[i], b[j])
        };
        if from_a {
            out.push(a[i]);
            proof {
                let x = a@[i as int];
                assert forall|k: int| j <= k < b@.len() implies index_before(
                    items@,
                    x as int,
                    #[trigger] b@[k] as int,
                ) by {
                    lemma_index_before(items@, x as int, b@[j as int] as int, b@[k] as int);
                }
            }
            i += 1;
        } else {
            out.push(b[j]);
            proof {
                let x = b@[j as int];
                assert forall|k: int| i <= k < a@.len() implies index_before(
                    items@,
                    x as int,
                    #[trigger] a@[k] as int,
                ) by {
                    lemma_index_before(items@, x as int, a@[i as int] as int, a@[k] as int);
                }
            }
            j += 1;
        }
    }
    out
}

/// Sorts the indices from `lo` up to `hi`.
fn sort_range<T: Ranked>(items: &[T], lo: usize, hi: usize) -> (order: Vec<usize>)
    requires
        lo <= hi <= items@.len(),
    ensures
        order@.len() == hi - lo,
        in_range(order@, lo as int, hi as int),
        is_rising(items@, order@),
    decreases hi - lo,
{
    if hi - lo == 0 {
        return Vec::new();
    }
    if hi - lo == 1 {
        let mut order: Vec<usize> = Vec::new();
        order.push(lo);
        return order;
    }
    let mid: usize = lo + (hi - lo) / 2;
    let a = sort_range(items, lo, mid);
    let b = sort_range(items, mid, hi);
    let order = merge(items, a, b, Ghost(mid as int));
    order
}

/// The order of the values of a list. It is stable: values of one rank keep
/// the order that they have.
pub fn stable_order<T: Ranked>(items: &[T]) -> (order: Vec<usize>)
    ensures
        is_stable_order(items@, order@),
{
    sort_range(items, 0, items.len())
}

// ---------------------------------------------------------------------------
// Sorted lists
// ---------------------------------------------------------------------------

/// Every index occurs in a stable order.
pub proof fn law_stable_order_covers_all<T: Ranked>(items: Seq<T>, order: Seq<usize>, i: int)
    requires
        is_stable_order(items, order),
        0 <= i < items.len(),
    ensures
        exists|k: int| 0 <= k < order.len() && order[k] == i,
{
    let indices = order.map_values(|k: usize| k as int);
    assert forall|j: int, k: int|
        0 <= j < indices.len() && 0 <= k < indices.len() && j != k implies indices[j]
        != indices[k] by {
        lemma_index_before(items, order[j] as int, order[j] as int, order[j] as int);
    }
    indices.unique_seq_to_set();
    let range = set_int_range(0, items.len() as int);
    lemma_int_range(0, items.len() as int);
    seq_to_set_is_finite(indices);
    lemma_subset_equality(indices.to_set(), range);
    assert(range.contains(i));
    let k = choose|k: int| 0 <= k < indices.len() && indices[k] == i;
}

/// Putting the values of a sequence into another order keeps which there are.
pub proof fn lemma_reordered<A>(s: Seq<A>, order: Seq<int>)
    requires
        order.len() == s.len(),
        order.no_duplicates(),
        forall|k: int| 0 <= k < order.len() ==> 0 <= #[trigger] order[k] < s.len(),
    ensures
        order.map_values(|k: int| s[k]).to_multiset() == s.to_multiset(),
    decreases s.len(),
{
    broadcast use group_to_multiset_ensures;

    let out = order.map_values(|k: int| s[k]);
    if s.len() > 0 {
        let last = s.len() - 1;
        order.unique_seq_to_set();
        let range = set_int_range(0, s.len() as int);
        lemma_int_range(0, s.len() as int);
        seq_to_set_is_finite(order);
        lemma_subset_equality(order.to_set(), range);
        assert(range.contains(last));
        let p = choose|p: int| 0 <= p < order.len() && order[p] == last;
        let rest = order.remove(p);
        lemma_reordered(s.drop_last(), rest);
        assert(rest.map_values(|k: int| s.drop_last()[k]) =~= out.remove(p));
        to_multiset_insert(out.remove(p), p, s[last]);
        assert(s.drop_last().push(s[last]) =~= s);
        to_multiset_build(s.drop_last(), s[last]);
    }
}

/// The same texts, one before the other.
pub open spec fn is_sorted_form(texts: Seq<Seq<char>>, sorted: Seq<Seq<char>>) -> bool {
    &&& sorted.to_multiset() == texts.to_multiset()
    &&& forall|i: int, j: int|
        0 <= i < j < sorted.len() ==> !text_less(#[trigger] sorted[j], #[trigger] sorted[i])
}

/// Sorts texts.
pub fn sort_texts(texts: Vec<String>) -> (sorted: Vec<String>)
    ensures
        is_sorted_form(texts_view(texts@), texts_view(sorted@)),
{
    let order = stable_order(texts.as_slice());
    let ghost all = texts_view(texts@);
    let ghost indices = order@.map_values(|k: usize| k as int);
    let mut sorted: Vec<String> = Vec::new();
    let mut n: usize = 0;
    while n < order.len()
        invariant
            n <= order@.len(),
            all == texts_view(texts@),
            is_stable_order(texts@, order@),
            sorted@.len() == n,
            forall|k: int| 0 <= k < n ==> (#[trigger] sorted@[k])@ == all[order@[k] as int],
        decreases order@.len() - n,
    {
        sorted.push(texts[order[n]].clone());
        n += 1;
    }
    proof {
        assert forall|j: int, k: int|
            0 <= j < indices.len() && 0 <= k < indices.len() && j != k implies indices[j]
            != indices[k] by {
            lemma_index_before(texts@, order@[j] as int, order@[j] as int, order@[j] as int);
        }
        lemma_reordered(all, indices);
        assert(texts_view(sorted@) =~= indices.map_values(|k: int| all[k]));
        let out = texts_view(sorted@);
        assert forall|i: int, j: int| 0 <= i < j < out.len() implies !text_less(
            #[trigger] out[j],
            #[trigger] out[i],
        ) by {
            let (a, b) = (order@[i] as int, order@[j] as int);
            String::before_is_strict(&texts@[b], &texts@[a], &texts@[b]);
        }
    }
    sorted
}

/// Which of two texts comes first: their first difference decides, by code
/// point; where one ends before they differ, that one comes first.
pub proof fn law_first_difference_decides(a: Seq<char>, b: Seq<char>, n: int)
    requires
        0 <= n <= a.len(),
        n <= b.len(),
        forall|i: int| 0 <= i < n ==> a[i] == b[i],
        n < a.len() && n < b.len() ==> a[n] != b[n],
    ensures
        n < a.len() && n < b.len() ==> (text_less(a, b) <==> (a[n] as int) < b[n] as int),
        n == a.len() ==> (text_less(a, b) <==> n < b.len()),
        n == b.len() ==> !text_less(a, b),
    decreases n,
{
    if n > 0 {
        let (x, y) = (a.drop_first(), b.drop_first());
        assert forall|i: int| 0 <= i < n - 1 implies x[i] == y[i] by {
            assert(a[i + 1] == b[i + 1]);
        }
        law_first_difference_decides(x, y, n - 1);
        assert(a[0] == b[0]);
    }
}

/// Distinct indices, as many as there are, reach each.
pub proof fn lemma_index_is_reached(indices: Seq<int>, i: int)
    requires
        indices.no_duplicates(),
        forall|k: int| 0 <= k < indices.len() ==> 0 <= #[trigger] indices[k] < indices.len(),
        0 <= i < indices.len(),
    ensures
        exists|k: int| 0 <= k < indices.len() && indices[k] == i,
{
    indices.unique_seq_to_set();
    let range = set_int_range(0, indices.len() as int);
    lemma_int_range(0, indices.len() as int);
    seq_to_set_is_finite(indices);
    lemma_subset_equality(indices.to_set(), range);
    assert(range.contains(i));
}

/// A sorted list has the same texts, each as often, and of two that differ the one that
/// comes before the other stands first.
pub proof fn law_sorted_texts_ascend(texts: Seq<Seq<char>>, sorted: Seq<Seq<char>>)
    requires
        is_sorted_form(texts, sorted),
    ensures
        sorted.len() == texts.len(),
        forall|text: Seq<char>| #[trigger]
            sorted.to_multiset().count(text) == texts.to_multiset().count(text),
        forall|i: int, j: int|
            0 <= i < j < sorted.len() ==> sorted[i] == sorted[j] || text_less(
                #[trigger] sorted[i],
                #[trigger] sorted[j],
            ),
{
    texts.to_multiset_ensures();
    sorted.to_multiset_ensures();
    assert forall|i: int, j: int| 0 <= i < j < sorted.len() implies sorted[i] == sorted[j]
        || text_less(#[trigger] sorted[i], #[trigger] sorted[j]) by {
        lemma_text_less_total(sorted[i], sorted[j]);
    }
}

} // verus!
