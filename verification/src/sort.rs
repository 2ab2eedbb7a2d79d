//! Top-down merge sort by a "comes before" predicate.
//!
//! The contracts speak of a predicate through what it can answer: a call that
//! returned `true` for `(x, y)` shows that the predicate can say that `x` comes
//! before `y`. What the result of a sort is, is stated by replaying the
//! algorithm over these answers (`sorts_to`); that the result is a
//! rearrangement of the input, that it is ordered and that tied items keep
//! their order follows from that as laws.

use vstd::prelude::*;
use vstd::seq_lib::lemma_multiset_commutative;

verus! {

// What the contracts speak of

/// Whether a clone of a `T` always equals the value it was made from.
pub open spec fn clone_is_exact<T: Clone>() -> bool {
    forall|a: T, b: T| cloned(a, b) ==> a == b
}

/// The predicate `before` can answer that `x` comes before `y`.
pub open spec fn says_before<T, F: Fn(&T, &T) -> bool>(before: F, x: T, y: T) -> bool {
    call_ensures(before, (&x, &y), true)
}

/// The predicate `before` can answer that `x` does not come before `y`.
pub open spec fn says_not_before<T, F: Fn(&T, &T) -> bool>(before: F, x: T, y: T) -> bool {
    call_ensures(before, (&x, &y), false)
}

/// `x` may stand directly in front of `y`: it comes before `y`, or else `y`
/// does not come before it (the two are tied, or `x` comes first).
pub open spec fn in_order<T, F: Fn(&T, &T) -> bool>(before: F, x: T, y: T) -> bool {
    says_before(before, x, y) || says_not_before(before, y, x)
}

/// Every item of `s` may stand directly in front of the next one.
pub open spec fn ordered<T, F: Fn(&T, &T) -> bool>(before: F, s: Seq<T>) -> bool {
    forall|k: int| 0 <= k < s.len() - 1 ==> in_order(before, #[trigger] s[k], s[k + 1])
}

/// No item of `s` comes before an item that stands earlier in `s`.
pub open spec fn never_swapped<T, F: Fn(&T, &T) -> bool>(before: F, s: Seq<T>) -> bool {
    forall|i: int, j: int|
        0 <= i < j < s.len() ==> !says_before(before, #[trigger] s[j], #[trigger] s[i])
}

// What a merge and a sort result in

/// `out`, from position `i + j` on, is a merge of `a` from `i` on and `b` from
/// `j` on: at each step the head of `b` is taken where `before` puts it in
/// front of the head of `a`, and the head of `a` otherwise; once one of the two
/// is used up, the rest of the other follows.
pub open spec fn merged_from<T, F: Fn(&T, &T) -> bool>(
    before: F,
    a: Seq<T>,
    b: Seq<T>,
    out: Seq<T>,
    i: int,
    j: int,
) -> bool
    decreases a.len() - i + b.len() - j,
    when 0 <= i <= a.len() && 0 <= j <= b.len()
{
    if i == a.len() {
        out.skip(i + j) == b.skip(j)
    } else if j == b.len() {
        out.skip(i + j) == a.skip(i)
    } else {
        ||| {
            &&& says_before(before, b[j], a[i])
            &&& out[i + j] == b[j]
            &&& merged_from(before, a, b, out, i, j + 1)
        }
        ||| {
            &&& says_not_before(before, b[j], a[i])
            &&& out[i + j] == a[i]
            &&& merged_from(before, a, b, out, i + 1, j)
        }
    }
}

/// `out` is a merge of `a` and `b` in which `a`'s head wins every tie.
pub open spec fn merges_to<T, F: Fn(&T, &T) -> bool>(
    before: F,
    a: Seq<T>,
    b: Seq<T>,
    out: Seq<T>,
) -> bool {
    out.len() == a.len() + b.len() && merged_from(before, a, b, out, 0, 0)
}

/// `out` is what top-down merge sort makes of `s`: a sequence of at most one
/// item stays as it is; a longer one is cut in the middle (the first half gets
/// the smaller part of an odd length), both halves are sorted, and the results
/// are merged.
pub open spec fn sorts_to<T, F: Fn(&T, &T) -> bool>(before: F, s: Seq<T>, out: Seq<T>) -> bool
    decreases s.len(),
{
    if s.len() <= 1 {
        out == s
    } else {
        exists|left: Seq<T>, right: Seq<T>|
            #![trigger merges_to(before, left, right, out)]
            {
                &&& sorts_to(before, s.take((s.len() / 2) as int), left)
                &&& sorts_to(before, s.skip((s.len() / 2) as int), right)
                &&& merges_to(before, left, right, out)
            }
    }
}

// The functions

/// Sorts `array` into a new vector by top-down merge sort. `compare(x, y)`
/// answers whether `x` comes before `y`; items that tie keep their order.
pub fn merge_sort<T, F>(array: &[T], compare: F) -> (out: Vec<T>) where
    T: Clone,
    F: Fn(&T, &T) -> bool,

    requires
        forall|x: &T, y: &T| compare.requires((x, y)),
    ensures
        out.len() == array.len(),
        clone_is_exact::<T>() ==> sorts_to(compare, array@, out@),
        clone_is_exact::<T>() ==> out@.to_multiset() == array@.to_multiset(),
        clone_is_exact::<T>() ==> ordered(compare, out@),
        clone_is_exact::<T>() && never_swapped(compare, array@) ==> out@ == array@,
{
    let out = sort_halves(array, &compare);
    proof {
        if clone_is_exact::<T>() {
            lemma_sort_keeps_items(compare, array@, out@);
            lemma_sort_is_ordered(compare, array@, out@);
            if never_swapped(compare, array@) {
                lemma_sort_leaves_sorted(compare, array@, out@);
            }
        }
    }
    out
}

/// The recursion of `merge_sort`, with the predicate passed by reference.
fn sort_halves<T, F>(array: &[T], compare: &F) -> (out: Vec<T>) where
    T: Clone,
    F: Fn(&T, &T) -> bool,

    requires
        forall|x: &T, y: &T| compare.requires((x, y)),
    ensures
        out.len() == array.len(),
        clone_is_exact::<T>() ==> sorts_to(*compare, array@, out@),
    decreases array.len(),
{
    if array.len() == 0 {
        let out = Vec::new();
        assert(out@ =~= array@);
        return out;
    }
    if array.len() == 1 {
        let item = array[0].clone();
        assert(cloned(array[0], item));
        let out = vec![item];
        assert(clone_is_exact::<T>() ==> out@ =~= array@);
        return out;
    }
    let split_index: usize = array.len() / 2;
    let (a, b) = array.split_at(split_index);
    assert(a@ =~= array@.take(split_index as int));
    assert(b@ =~= array@.skip(split_index as int));

    let sorted_a = sort_halves(a, compare);
    let sorted_b = sort_halves(b, compare);

    merge(sorted_a.as_slice(), sorted_b.as_slice(), compare)
}

/// Merges two sequences into a new one: repeatedly takes the head of `b` where
/// `compare` puts it in front of the head of `a`, and the head of `a` otherwise,
/// so that `a`'s head wins every tie.
pub fn merge<T, F>(a: &[T], b: &[T], compare: &F) -> (out: Vec<T>) where
    T: Clone,
    F: Fn(&T, &T) -> bool,

    requires
        a.len() + b.len() <= usize::MAX,
        forall|x: &T, y: &T| compare.requires((x, y)),
    ensures
        out.len() == a.len() + b.len(),
        clone_is_exact::<T>() ==> merges_to(*compare, a@, b@, out@),
        clone_is_exact::<T>() ==> out@.to_multiset() == a@.to_multiset().add(b@.to_multiset()),
        clone_is_exact::<T>() && ordered(*compare, a@) && ordered(*compare, b@) ==> ordered(
            *compare,
            out@,
        ),
{
    let mut out: Vec<T> = Vec::with_capacity(a.len() + b.len());

    let mut index_a: usize = 0;
    let mut index_b: usize = 0;
    loop
        invariant
            index_a <= a.len(),
            index_b <= b.len(),
            out.len() == index_a + index_b,
            forall|x: &T, y: &T| compare.requires((x, y)),
            clone_is_exact::<T>() ==> forall|full: Seq<T>|
                full.len() == a@.len() + b@.len() && full.take(index_a + index_b) == out@
                    && #[trigger] merged_from(
                    *compare,
                    a@,
                    b@,
                    full,
                    index_a as int,
                    index_b as int,
                ) ==> merged_from(*compare, a@, b@, full, 0, 0),
        ensures
            index_a == a.len(),
            index_b == b.len(),
        decreases a.len() - index_a + b.len() - index_b,
    {
        let item_a = a.get(index_a);
        let item_b = b.get(index_b);
        let ghost before = out@;
        let ghost i = index_a as int;
        let ghost j = index_b as int;

        match (item_a, item_b) {
            (Some(item_a), Some(item_b)) => {
                if compare(item_b, item_a) {
                    let item = item_b.clone();
                    assert(cloned(*item_b, item));
                    out.push(item);
                    index_b += 1;
                } else {
                    let item = item_a.clone();
                    assert(cloned(*item_a, item));
                    out.push(item);
                    index_a += 1;
                }
            },
            (Some(item_a), None) => {
                let item = item_a.clone();
                assert(cloned(*item_a, item));
                out.push(item);
                index_a += 1;
            },
            (None, Some(item_b)) => {
                let item = item_b.clone();
                assert(cloned(*item_b, item));
                out.push(item);
                index_b += 1;
            },
            (None, None) => break ,
        }
        proof {
            if clone_is_exact::<T>() {
                assert forall|full: Seq<T>|
                    full.len() == a@.len() + b@.len() && full.take(index_a + index_b) == out@
                        && #[trigger] merged_from(
                        *compare,
                        a@,
                        b@,
                        full,
                        index_a as int,
                        index_b as int,
                    ) implies merged_from(*compare, a@, b@, full, 0, 0) by {
                    assert(full.take(i + j) =~= before);
                    assert(full[i + j] == out@[i + j]);
                    if i == a@.len() {
                        assert(full.skip(i + j + 1) == b@.skip(j + 1));
                        assert forall|k: int| 0 <= k < b@.len() - j implies full.skip(i + j)[k]
                            == b@.skip(j)[k] by {
                            if k > 0 {
                                assert(full.skip(i + j + 1)[k - 1] == b@.skip(j + 1)[k - 1]);
                            }
                        }
                        assert(full.skip(i + j) =~= b@.skip(j));
                    } else if j == b@.len() {
                        assert(full.skip(i + j + 1) == a@.skip(i + 1));
                        assert forall|k: int| 0 <= k < a@.len() - i implies full.skip(i + j)[k]
                            == a@.skip(i)[k] by {
                            if k > 0 {
                                assert(full.skip(i + j + 1)[k - 1] == a@.skip(i + 1)[k - 1]);
                            }
                        }
                        assert(full.skip(i + j) =~= a@.skip(i));
                    }
                    assert(merged_from(*compare, a@, b@, full, i, j));
                }
            }
        }
    }
    proof {
        if clone_is_exact::<T>() {
            assert(out@.take(index_a + index_b) =~= out@);
            assert(out@.skip(index_a + index_b) =~= b@.skip(index_b as int));
            assert(merged_from(*compare, a@, b@, out@, index_a as int, index_b as int));
            lemma_merge_keeps_items(*compare, a@, b@, out@);
            if ordered(*compare, a@) && ordered(*compare, b@) {
                lemma_merge_is_ordered(*compare, a@, b@, out@);
            }
        }
    }
    out
}

// Laws of the merge

/// A merge holds the items of both sequences, each as often as the two hold it together.
pub proof fn lemma_merge_keeps_items<T, F: Fn(&T, &T) -> bool>(
    before: F,
    a: Seq<T>,
    b: Seq<T>,
    out: Seq<T>,
)
    requires
        merges_to(before, a, b, out),
    ensures
        out.to_multiset() == a.to_multiset().add(b.to_multiset()),
{
    assert(out.take(0) =~= Seq::<T>::empty());
    assert(a.take(0) =~= Seq::<T>::empty());
    assert(b.take(0) =~= Seq::<T>::empty());
    assert(Seq::<T>::empty().to_multiset() =~= vstd::multiset::Multiset::<T>::empty()) by {
        broadcast use vstd::seq_lib::group_to_multiset_ensures;

    }
    assert(out.take(0).to_multiset() =~= a.take(0).to_multiset().add(b.take(0).to_multiset()));
    lemma_merged_from_keeps_items(before, a, b, out, 0, 0);
}

proof fn lemma_merged_from_keeps_items<T, F: Fn(&T, &T) -> bool>(
    before: F,
    a: Seq<T>,
    b: Seq<T>,
    out: Seq<T>,
    i: int,
    j: int,
)
    requires
        0 <= i <= a.len(),
        0 <= j <= b.len(),
        out.len() == a.len() + b.len(),
        merged_from(before, a, b, out, i, j),
        out.take(i + j).to_multiset() == a.take(i).to_multiset().add(b.take(j).to_multiset()),
    ensures
        out.to_multiset() == a.to_multiset().add(b.to_multiset()),
    decreases a.len() - i + b.len() - j,
{
    broadcast use vstd::seq_lib::group_to_multiset_ensures;

    if i == a.len() || j == b.len() {
        let rest = out.skip(i + j);
        assert(out =~= out.take(i + j) + rest);
        assert(a =~= a.take(i) + a.skip(i));
        assert(b =~= b.take(j) + b.skip(j));
        lemma_multiset_commutative(out.take(i + j), rest);
        lemma_multiset_commutative(a.take(i), a.skip(i));
        lemma_multiset_commutative(b.take(j), b.skip(j));
        if i == a.len() {
            assert(a.skip(i) =~= Seq::<T>::empty());
            assert(a.skip(i).to_multiset() =~= vstd::multiset::Multiset::<T>::empty());
        } else {
            assert(b.skip(j) =~= Seq::<T>::empty());
            assert(b.skip(j).to_multiset() =~= vstd::multiset::Multiset::<T>::empty());
        }
        assert(out.to_multiset() =~= a.to_multiset().add(b.to_multiset()));
    } else {
        assert(out.take(i + j + 1) =~= out.take(i + j).push(out[i + j]));
        if says_before(before, b[j], a[i]) && out[i + j] == b[j] && merged_from(
            before,
            a,
            b,
            out,
            i,
            j + 1,
        ) {
            assert(b.take(j + 1) =~= b.take(j).push(b[j]));
            assert(out.take(i + j + 1).to_multiset() =~= a.take(i).to_multiset().add(
                b.take(j + 1).to_multiset(),
            ));
            lemma_merged_from_keeps_items(before, a, b, out, i, j + 1);
        } else {
            assert(a.take(i + 1) =~= a.take(i).push(a[i]));
            assert(out.take(i + j + 1).to_multiset() =~= a.take(i + 1).to_multiset().add(
                b.take(j).to_multiset(),
            ));
            lemma_merged_from_keeps_items(before, a, b, out, i + 1, j);
        }
    }
}

/// A merge of two ordered sequences is ordered.
pub proof fn lemma_merge_is_ordered<T, F: Fn(&T, &T) -> bool>(
    before: F,
    a: Seq<T>,
    b: Seq<T>,
    out: Seq<T>,
)
    requires
        merges_to(before, a, b, out),
        ordered(before, a),
        ordered(before, b),
    ensures
        ordered(before, out),
{
    lemma_merged_from_is_ordered(before, a, b, out, 0, 0);
}

proof fn lemma_merged_from_is_ordered<T, F: Fn(&T, &T) -> bool>(
    before: F,
    a: Seq<T>,
    b: Seq<T>,
    out: Seq<T>,
    i: int,
    j: int,
)
    requires
        0 <= i <= a.len(),
        0 <= j <= b.len(),
        out.len() == a.len() + b.len(),
        merged_from(before, a, b, out, i, j),
        ordered(before, a),
        ordered(before, b),
    ensures
        forall|k: int|
            i + j <= k < out.len() - 1 ==> in_order(before, #[trigger] out[k], out[k + 1]),
        i + j < out.len() ==> (i < a.len() && out[i + j] == a[i]) || (j < b.len() && out[i + j]
            == b[j]),
    decreases a.len() - i + b.len() - j,
{
    if i == a.len() {
        assert forall|k: int| i + j <= k < out.len() implies out[k] == b[k - i] by {
            assert(out.skip(i + j)[k - i - j] == b.skip(j)[k - i - j]);
        }
        assert forall|k: int| i + j <= k < out.len() - 1 implies in_order(
            before,
            #[trigger] out[k],
            out[k + 1],
        ) by {
            assert(in_order(before, b[k - i], b[k - i + 1]));
        }
    } else if j == b.len() {
        assert forall|k: int| i + j <= k < out.len() implies out[k] == a[k - j] by {
            assert(out.skip(i + j)[k - i - j] == a.skip(i)[k - i - j]);
        }
        assert forall|k: int| i + j <= k < out.len() - 1 implies in_order(
            before,
            #[trigger] out[k],
            out[k + 1],
        ) by {
            assert(in_order(before, a[k - j], a[k - j + 1]));
        }
    } else {
        if says_before(before, b[j], a[i]) && out[i + j] == b[j] && merged_from(
            before,
            a,
            b,
            out,
            i,
            j + 1,
        ) {
            lemma_merged_from_is_ordered(before, a, b, out, i, j + 1);
            if j + 1 < b.len() {
                assert(in_order(before, b[j], b[j + 1]));
            }
            assert(in_order(before, out[i + j], out[i + j + 1]));
        } else {
            lemma_merged_from_is_ordered(before, a, b, out, i + 1, j);
            if i + 1 < a.len() {
                assert(in_order(before, a[i], a[i + 1]));
            }
            assert(in_order(before, out[i + j], out[i + j + 1]));
        }
    }
}

/// Where no item of `b` comes before any item of `a`, the merge is `a` followed by `b`.
pub proof fn lemma_merge_appends<T, F: Fn(&T, &T) -> bool>(
    before: F,
    a: Seq<T>,
    b: Seq<T>,
    out: Seq<T>,
)
    requires
        merges_to(before, a, b, out),
        forall|m: int, n: int|
            0 <= m < a.len() && 0 <= n < b.len() ==> !says_before(
                before,
                #[trigger] b[n],
                #[trigger] a[m],
            ),
    ensures
        out == a + b,
{
    lemma_merged_from_appends(before, a, b, out, 0);
    assert(out.skip(0) =~= out);
    assert(a.skip(0) =~= a);
}

proof fn lemma_merged_from_appends<T, F: Fn(&T, &T) -> bool>(
    before: F,
    a: Seq<T>,
    b: Seq<T>,
    out: Seq<T>,
    i: int,
)
    requires
        0 <= i <= a.len(),
        out.len() == a.len() + b.len(),
        merged_from(before, a, b, out, i, 0),
        forall|m: int, n: int|
            0 <= m < a.len() && 0 <= n < b.len() ==> !says_before(
                before,
                #[trigger] b[n],
                #[trigger] a[m],
            ),
    ensures
        out.skip(i) == a.skip(i) + b,
    decreases a.len() - i,
{
    if i == a.len() {
        assert(b.skip(0) =~= b);
        assert(out.skip(i) =~= a.skip(i) + b);
    } else if b.len() == 0 {
        assert(out.skip(i) =~= a.skip(i) + b);
    } else {
        assert(!says_before(before, b[0], a[i]));
        lemma_merged_from_appends(before, a, b, out, i + 1);
        assert forall|k: int| 0 <= k < out.len() - i implies out.skip(i)[k] == (a.skip(i)
            + b)[k] by {
            if k > 0 {
                assert(out.skip(i + 1)[k - 1] == (a.skip(i + 1) + b)[k - 1]);
            }
        }
        assert(out.skip(i) =~= a.skip(i) + b);
    }
}

// Laws of the sort

/// Sorting neither adds nor drops an item: the result holds each item as often
/// as the input does.
pub proof fn lemma_sort_keeps_items<T, F: Fn(&T, &T) -> bool>(before: F, s: Seq<T>, out: Seq<T>)
    requires
        sorts_to(before, s, out),
    ensures
        out.len() == s.len(),
        out.to_multiset() == s.to_multiset(),
    decreases s.len(),
{
    if s.len() > 1 {
        let mid = (s.len() / 2) as int;
        let (left, right) = choose|left: Seq<T>, right: Seq<T>|
            #![trigger merges_to(before, left, right, out)]
            {
                &&& sorts_to(before, s.take(mid), left)
                &&& sorts_to(before, s.skip(mid), right)
                &&& merges_to(before, left, right, out)
            };
        lemma_sort_keeps_items(before, s.take(mid), left);
        lemma_sort_keeps_items(before, s.skip(mid), right);
        lemma_merge_keeps_items(before, left, right, out);
        assert(s =~= s.take(mid) + s.skip(mid));
        lemma_multiset_commutative(s.take(mid), s.skip(mid));
    }
}

/// The result of sorting is ordered: every item may stand directly in front of the next.
pub proof fn lemma_sort_is_ordered<T, F: Fn(&T, &T) -> bool>(before: F, s: Seq<T>, out: Seq<T>)
    requires
        sorts_to(before, s, out),
    ensures
        ordered(before, out),
    decreases s.len(),
{
    if s.len() > 1 {
        let mid = (s.len() / 2) as int;
        let (left, right) = choose|left: Seq<T>, right: Seq<T>|
            #![trigger merges_to(before, left, right, out)]
            {
                &&& sorts_to(before, s.take(mid), left)
                &&& sorts_to(before, s.skip(mid), right)
                &&& merges_to(before, left, right, out)
            };
        lemma_sort_is_ordered(before, s.take(mid), left);
        lemma_sort_is_ordered(before, s.skip(mid), right);
        lemma_merge_is_ordered(before, left, right, out);
    }
}

/// Sorting a sequence in which no item comes before an earlier one gives the
/// same sequence back.
pub proof fn lemma_sort_leaves_sorted<T, F: Fn(&T, &T) -> bool>(before: F, s: Seq<T>, out: Seq<T>)
    requires
        sorts_to(before, s, out),
        never_swapped(before, s),
    ensures
        out == s,
    decreases s.len(),
{
    if s.len() > 1 {
        let mid = (s.len() / 2) as int;
        let (left, right) = choose|left: Seq<T>, right: Seq<T>|
            #![trigger merges_to(before, left, right, out)]
            {
                &&& sorts_to(before, s.take(mid), left)
                &&& sorts_to(before, s.skip(mid), right)
                &&& merges_to(before, left, right, out)
            };
        assert forall|i: int, j: int| 0 <= i < j < s.take(mid).len() implies !says_before(
            before,
            #[trigger] s.take(mid)[j],
            #[trigger] s.take(mid)[i],
        ) by {
            assert(!says_before(before, s[j], s[i]));
        }
        assert forall|i: int, j: int| 0 <= i < j < s.skip(mid).len() implies !says_before(
            before,
            #[trigger] s.skip(mid)[j],
            #[trigger] s.skip(mid)[i],
        ) by {
            assert(!says_before(before, s[mid + j], s[mid + i]));
        }
        lemma_sort_leaves_sorted(before, s.take(mid), left);
        lemma_sort_leaves_sorted(before, s.skip(mid), right);
        assert forall|m: int, n: int|
            0 <= m < left.len() && 0 <= n < right.len() implies !says_before(
            before,
            #[trigger] right[n],
            #[trigger] left[m],
        ) by {
            assert(!says_before(before, s[mid + n], s[m]));
        }
        lemma_merge_appends(before, left, right, out);
        assert(s =~= s.take(mid) + s.skip(mid));
    }
}

/// Sorting leaves a sequence of no item or of one item as it is.
pub proof fn lemma_sort_of_at_most_one<T, F: Fn(&T, &T) -> bool>(before: F, s: Seq<T>, out: Seq<T>)
    requires
        s.len() <= 1,
        sorts_to(before, s, out),
    ensures
        out == s,
{
}

/// Sorting two items puts the second in front where `before` can say that it
/// comes before the first, and leaves them as they are where `before` can say
/// that it does not.
pub proof fn lemma_sort_of_two<T, F: Fn(&T, &T) -> bool>(before: F, x: T, y: T, out: Seq<T>)
    requires
        sorts_to(before, seq![x, y], out),
    ensures
        (out == seq![y, x] && says_before(before, y, x)) || (out == seq![x, y] && says_not_before(
            before,
            y,
            x,
        )),
{
    let s = seq![x, y];
    let (left, right) = choose|left: Seq<T>, right: Seq<T>|
        #![trigger merges_to(before, left, right, out)]
        {
            &&& sorts_to(before, s.take((s.len() / 2) as int), left)
            &&& sorts_to(before, s.skip((s.len() / 2) as int), right)
            &&& merges_to(before, left, right, out)
        };
    assert(s.take(1) =~= seq![x]);
    assert(s.skip(1) =~= seq![y]);
    assert(left =~= seq![x]);
    assert(right =~= seq![y]);
    if says_before(before, y, x) && out[0] == y && merged_from(before, left, right, out, 0, 1) {
        assert(out.skip(1)[0] == left.skip(0)[0]);
        assert(out =~= seq![y, x]);
    } else {
        assert(merged_from(before, left, right, out, 1, 0));
        assert(out.skip(1)[0] == right.skip(0)[0]);
        assert(out =~= seq![x, y]);
    }
}

// Laws of sorting by a strict weak order

/// Whether `before` computes `less`: whatever it answers when asked whether
/// `x` comes before `y` is the value of `less(x, y)`.
pub open spec fn answers_to<T, F: Fn(&T, &T) -> bool>(
    before: F,
    less: spec_fn(T, T) -> bool,
) -> bool {
    forall|x: T, y: T, answer: bool| #[trigger]
        call_ensures(before, (&x, &y), answer) ==> answer == less(x, y)
}

/// Whether `less` is a strict weak order: no two items are each less than the
/// other, and where `x` is less than `z`, every `y` has `x` less than it or is
/// itself less than `z`.
pub open spec fn strict_weak_order<T>(less: spec_fn(T, T) -> bool) -> bool {
    &&& forall|x: T, y: T| #[trigger] less(x, y) ==> !less(y, x)
    &&& forall|x: T, y: T, z: T| #[trigger] less(x, z) ==> #[trigger] less(x, y) || less(y, z)
}

/// `x` has its place in front of `y`: it is less than `y`, or the two tie and
/// `then` puts `x` first.
pub open spec fn precedes<T>(
    less: spec_fn(T, T) -> bool,
    then: spec_fn(T, T) -> bool,
    x: T,
    y: T,
) -> bool {
    less(x, y) || (!less(y, x) && then(x, y))
}

/// Every item of `s` has its place in front of all that follow it.
pub open spec fn ranked<T>(
    less: spec_fn(T, T) -> bool,
    then: spec_fn(T, T) -> bool,
    s: Seq<T>,
) -> bool {
    forall|i: int, j: int|
        0 <= i < j < s.len() ==> precedes(less, then, #[trigger] s[i], #[trigger] s[j])
}

/// Sorting by a strict weak order is stable. Let `then` put each item of the
/// input in front of all that follow it there. Then each item of the result
/// is less than the items behind it, or ties with them and stood in front of
/// them in the input.
pub proof fn lemma_sort_is_stable<T, F: Fn(&T, &T) -> bool>(
    before: F,
    less: spec_fn(T, T) -> bool,
    then: spec_fn(T, T) -> bool,
    s: Seq<T>,
    out: Seq<T>,
)
    requires
        answers_to(before, less),
        strict_weak_order(less),
        sorts_to(before, s, out),
        forall|i: int, j: int| 0 <= i < j < s.len() ==> then(#[trigger] s[i], #[trigger] s[j]),
    ensures
        ranked(less, then, out),
    decreases s.len(),
{
    if s.len() > 1 {
        let mid = (s.len() / 2) as int;
        let (left, right) = choose|left: Seq<T>, right: Seq<T>|
            #![trigger merges_to(before, left, right, out)]
            {
                &&& sorts_to(before, s.take(mid), left)
                &&& sorts_to(before, s.skip(mid), right)
                &&& merges_to(before, left, right, out)
            };
        let front = s.take(mid);
        let back = s.skip(mid);
        assert forall|i: int, j: int| 0 <= i < j < front.len() implies then(
            #[trigger] front[i],
            #[trigger] front[j],
        ) by {
            assert(then(s[i], s[j]));
        }
        assert forall|i: int, j: int| 0 <= i < j < back.len() implies then(
            #[trigger] back[i],
            #[trigger] back[j],
        ) by {
            assert(then(s[mid + i], s[mid + j]));
        }
        lemma_sort_is_stable(before, less, then, front, left);
        lemma_sort_is_stable(before, less, then, back, right);
        lemma_sort_keeps_items(before, front, left);
        lemma_sort_keeps_items(before, back, right);
        front.to_multiset_ensures();
        back.to_multiset_ensures();
        left.to_multiset_ensures();
        right.to_multiset_ensures();
        assert forall|m: int, n: int| 0 <= m < left.len() && 0 <= n < right.len() implies then(
            left[m],
            right[n],
        ) by {
            assert(left.contains(left[m]));
            assert(front.to_multiset().count(left[m]) > 0);
            assert(front.contains(left[m]));
            let i = choose|i: int| 0 <= i < front.len() && front[i] == left[m];
            assert(right.contains(right[n]));
            assert(back.to_multiset().count(right[n]) > 0);
            assert(back.contains(right[n]));
            let k = choose|k: int| 0 <= k < back.len() && back[k] == right[n];
            assert(then(s[i], s[mid + k]));
        }
        lemma_merge_is_ranked(before, less, then, left, right, out);
    }
}

/// Merging by a strict weak order keeps every item in its place: where both
/// sequences are ranked and `then` puts each item of `a` in front of each
/// item of `b`, the merge is ranked too.
pub proof fn lemma_merge_is_ranked<T, F: Fn(&T, &T) -> bool>(
    before: F,
    less: spec_fn(T, T) -> bool,
    then: spec_fn(T, T) -> bool,
    a: Seq<T>,
    b: Seq<T>,
    out: Seq<T>,
)
    requires
        answers_to(before, less),
        strict_weak_order(less),
        merges_to(before, a, b, out),
        ranked(less, then, a),
        ranked(less, then, b),
        forall|m: int, n: int| 0 <= m < a.len() && 0 <= n < b.len() ==> then(a[m], b[n]),
    ensures
        ranked(less, then, out),
{
    lemma_merged_from_is_ranked(before, less, then, a, b, out, 0, 0);
}

/// `x` is an item of `a` at `i` or later, or of `b` at `j` or later.
spec fn still_to_come<T>(a: Seq<T>, b: Seq<T>, i: int, j: int, x: T) -> bool {
    (exists|m: int| i <= m < a.len() && a[m] == x) || (exists|n: int| j <= n < b.len() && b[n] == x)
}

proof fn lemma_merged_from_is_ranked<T, F: Fn(&T, &T) -> bool>(
    before: F,
    less: spec_fn(T, T) -> bool,
    then: spec_fn(T, T) -> bool,
    a: Seq<T>,
    b: Seq<T>,
    out: Seq<T>,
    i: int,
    j: int,
)
    requires
        answers_to(before, less),
        strict_weak_order(less),
        0 <= i <= a.len(),
        0 <= j <= b.len(),
        out.len() == a.len() + b.len(),
        merged_from(before, a, b, out, i, j),
        ranked(less, then, a),
        ranked(less, then, b),
        forall|m: int, n: int| 0 <= m < a.len() && 0 <= n < b.len() ==> then(a[m], b[n]),
    ensures
        forall|p: int, q: int|
            i + j <= p < q < out.len() ==> precedes(
                less,
                then,
                #[trigger] out[p],
                #[trigger] out[q],
            ),
        forall|p: int| i + j <= p < out.len() ==> still_to_come(a, b, i, j, #[trigger] out[p]),
    decreases a.len() - i + b.len() - j,
{
    if i == a.len() {
        assert forall|p: int| i + j <= p < out.len() implies out[p] == b[p - i] by {
            assert(out.skip(i + j)[p - i - j] == b.skip(j)[p - i - j]);
        }
        assert forall|p: int, q: int| i + j <= p < q < out.len() implies precedes(
            less,
            then,
            #[trigger] out[p],
            #[trigger] out[q],
        ) by {
            assert(precedes(less, then, b[p - i], b[q - i]));
        }
        assert forall|p: int| i + j <= p < out.len() implies still_to_come(
            a,
            b,
            i,
            j,
            #[trigger] out[p],
        ) by {
            assert(j <= p - i < b.len() && b[p - i] == out[p]);
        }
    } else if j == b.len() {
        assert forall|p: int| i + j <= p < out.len() implies out[p] == a[p - j] by {
            assert(out.skip(i + j)[p - i - j] == a.skip(i)[p - i - j]);
        }
        assert forall|p: int, q: int| i + j <= p < q < out.len() implies precedes(
            less,
            then,
            #[trigger] out[p],
            #[trigger] out[q],
        ) by {
            assert(precedes(less, then, a[p - j], a[q - j]));
        }
        assert forall|p: int| i + j <= p < out.len() implies still_to_come(
            a,
            b,
            i,
            j,
            #[trigger] out[p],
        ) by {
            assert(i <= p - j < a.len() && a[p - j] == out[p]);
        }
    } else {
        let head = out[i + j];
        if says_before(before, b[j], a[i]) && head == b[j] && merged_from(
            before,
            a,
            b,
            out,
            i,
            j + 1,
        ) {
            assert(less(b[j], a[i]));
            lemma_merged_from_is_ranked(before, less, then, a, b, out, i, j + 1);
            assert forall|p: int| i + j <= p < out.len() implies still_to_come(
                a,
                b,
                i,
                j,
                #[trigger] out[p],
            ) by {
                if p == i + j {
                    assert(j <= j < b.len() && b[j] == out[p]);
                } else {
                    assert(still_to_come(a, b, i, j + 1, out[p]));
                    if !(exists|m: int| i <= m < a.len() && a[m] == out[p]) {
                        let n = choose|n: int| j + 1 <= n < b.len() && b[n] == out[p];
                        assert(j <= n < b.len() && b[n] == out[p]);
                    }
                }
            }
            assert forall|q: int| i + j < q < out.len() implies precedes(
                less,
                then,
                head,
                #[trigger] out[q],
            ) by {
                assert(still_to_come(a, b, i, j + 1, out[q]));
                if exists|m: int| i <= m < a.len() && a[m] == out[q] {
                    let m = choose|m: int| i <= m < a.len() && a[m] == out[q];
                    // `b[j]` is less than `a[i]`, and `a[m]` is not.
                    if i < m {
                        assert(precedes(less, then, a[i], a[m]));
                    }
                    assert(!less(a[m], a[i]));
                    assert(less(b[j], a[m]) || less(a[m], a[i]));
                } else {
                    let n = choose|n: int| j + 1 <= n < b.len() && b[n] == out[q];
                    assert(precedes(less, then, b[j], b[n]));
                }
            }
        } else {
            assert(says_not_before(before, b[j], a[i]) && head == a[i]);
            assert(!less(b[j], a[i]));
            lemma_merged_from_is_ranked(before, less, then, a, b, out, i + 1, j);
            assert forall|p: int| i + j <= p < out.len() implies still_to_come(
                a,
                b,
                i,
                j,
                #[trigger] out[p],
            ) by {
                if p == i + j {
                    assert(i <= i < a.len() && a[i] == out[p]);
                } else {
                    assert(still_to_come(a, b, i + 1, j, out[p]));
                    if exists|m: int| i + 1 <= m < a.len() && a[m] == out[p] {
                        let m = choose|m: int| i + 1 <= m < a.len() && a[m] == out[p];
                        assert(i <= m < a.len() && a[m] == out[p]);
                    }
                }
            }
            assert forall|q: int| i + j < q < out.len() implies precedes(
                less,
                then,
                head,
                #[trigger] out[q],
            ) by {
                assert(still_to_come(a, b, i + 1, j, out[q]));
                if exists|m: int| i + 1 <= m < a.len() && a[m] == out[q] {
                    let m = choose|m: int| i + 1 <= m < a.len() && a[m] == out[q];
                    assert(precedes(less, then, a[i], a[m]));
                } else {
                    let n = choose|n: int| j <= n < b.len() && b[n] == out[q];
                    // `b[n]` is not less than `b[j]`, which is not less than `a[i]`.
                    if j < n {
                        assert(precedes(less, then, b[j], b[n]));
                    }
                    assert(!less(b[n], b[j]));
                    if less(b[n], a[i]) {
                        assert(less(b[n], b[j]) || less(b[j], a[i]));
                    }
                    assert(then(a[i], b[n]));
                }
            }
        }
        assert forall|p: int, q: int| i + j <= p < q < out.len() implies precedes(
            less,
            then,
            #[trigger] out[p],
            #[trigger] out[q],
        ) by {
            if p == i + j {
                assert(out[p] == head);
            }
        }
    }
}

/// In a sequence that is ordered by a strict weak order no two items are out
/// of order: none is less than an item that stands in front of it.
pub proof fn lemma_ordered_is_never_swapped<T, F: Fn(&T, &T) -> bool>(
    before: F,
    less: spec_fn(T, T) -> bool,
    s: Seq<T>,
)
    requires
        answers_to(before, less),
        strict_weak_order(less),
        ordered(before, s),
    ensures
        forall|i: int, j: int| 0 <= i < j < s.len() ==> !less(#[trigger] s[j], #[trigger] s[i]),
        never_swapped(before, s),
{
    assert forall|i: int, j: int| 0 <= i < j < s.len() implies !less(
        #[trigger] s[j],
        #[trigger] s[i],
    ) by {
        lemma_not_less_than_earlier(before, less, s, i, j);
    }
}

proof fn lemma_not_less_than_earlier<T, F: Fn(&T, &T) -> bool>(
    before: F,
    less: spec_fn(T, T) -> bool,
    s: Seq<T>,
    i: int,
    j: int,
)
    requires
        answers_to(before, less),
        strict_weak_order(less),
        ordered(before, s),
        0 <= i < j < s.len(),
    ensures
        !less(s[j], s[i]),
    decreases j - i,
{
    assert(in_order(before, s[j - 1], s[j]));
    assert(!less(s[j], s[j - 1]));
    if i < j - 1 {
        lemma_not_less_than_earlier(before, less, s, i, j - 1);
        if less(s[j], s[i]) {
            assert(less(s[j], s[j - 1]) || less(s[j - 1], s[i]));
        }
    }
}

} // verus!
