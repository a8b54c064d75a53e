//! Operations on sequences: the recycling walk over two operands and the
//! element-wise operations built on it, the scans for the smallest and the
//! largest element, sorting, and the reductions.

use crate::property::{
    comparison_known, greater, less, ranks, strict_weak_order, CalcChoose, CalcFactorial, IsOrd,
};
use core::ops::{Add, Div, Mul, Neg, Rem, Sub};
use vstd::arithmetic::div_mod::{
    lemma_fundamental_div_mod, lemma_fundamental_div_mod_converse, lemma_mod_bound,
    lemma_small_mod,
};
use vstd::prelude::*;
use vstd::std_specs::cmp::PartialEqSpec;
use vstd::std_specs::ops::{AddSpec, DivSpec, MulSpec, NegSpec, RemSpec, SubSpec};

verus! {

/// Two lengths can be combined when neither is zero and one divides the other.
pub open spec fn recyclable(a: nat, b: nat) -> bool {
    a > 0 && b > 0 && (a % b == 0 || b % a == 0)
}

/// The length of the combination of two operands: the longer of the two.
pub open spec fn recycled_len(a: nat, b: nat) -> nat {
    if a >= b {
        a
    } else {
        b
    }
}

/// The element of `s` met at step `i` of a cyclic walk over it.
pub open spec fn recycle<T>(s: Seq<T>, i: int) -> T {
    s[i % (s.len() as int)]
}

/// The position that follows `i % n` on a cyclic walk is `(i + 1) % n`.
pub proof fn lemma_mod_step(i: int, n: int)
    requires
        0 <= i,
        0 < n,
    ensures
        0 <= i % n < n,
        (i + 1) % n == (if i % n + 1 == n {
            0
        } else {
            i % n + 1
        }),
{
    lemma_mod_bound(i, n);
    lemma_fundamental_div_mod(i, n);
    if i % n + 1 == n {
        assert(i + 1 == (i / n + 1) * n + 0) by (nonlinear_arith)
            requires
                i == n * (i / n) + i % n,
                i % n + 1 == n,
        ;
        lemma_fundamental_div_mod_converse(i + 1, n, i / n + 1, 0);
    } else {
        assert(i + 1 == (i / n) * n + (i % n + 1)) by (nonlinear_arith)
            requires
                i == n * (i / n) + i % n,
        ;
        lemma_fundamental_div_mod_converse(i + 1, n, i / n, i % n + 1);
    }
}

/// Steps one position forward on a cyclic walk over `end` positions.
pub fn wrapping_incr(curr: usize, end: usize) -> (next: usize)
    requires
        curr < end,
    ensures
        next < end,
        next == (if curr + 1 == end {
            0
        } else {
            curr + 1
        }),
{
    let new: usize = curr + 1;
    if new == end {
        0
    } else {
        new
    }
}

/// Tells whether two operand lengths can be combined.
pub fn can_recycle(a: usize, b: usize) -> (ok: bool)
    ensures
        ok == recyclable(a as nat, b as nat),
{
    a != 0 && b != 0 && (a % b == 0 || b % a == 0)
}

/// Combines two sequences element by element, each walked cyclically, over as
/// many steps as the longer one has elements.
pub fn circle_zip<A: Copy, B: Copy, C, F: Fn(A, B) -> C>(a: &[A], b: &[B], reduce_one: F) -> (out:
    Vec<C>)
    requires
        recyclable(a@.len(), b@.len()),
        forall|i: int|
            0 <= i < recycled_len(a@.len(), b@.len()) ==> call_requires(
                reduce_one,
                (#[trigger] recycle(a@, i), recycle(b@, i)),
            ),
    ensures
        out@.len() == recycled_len(a@.len(), b@.len()),
        forall|i: int|
            0 <= i < out@.len() ==> call_ensures(
                reduce_one,
                (recycle(a@, i), recycle(b@, i)),
                #[trigger] out@[i],
            ),
{
    let steps: usize = if a.len() >= b.len() {
        a.len()
    } else {
        b.len()
    };
    let mut a_i: usize = 0;
    let mut b_i: usize = 0;
    let mut out: Vec<C> = Vec::new();
    proof {
        lemma_small_mod(0, a@.len());
        lemma_small_mod(0, b@.len());
    }
    while out.len() < steps
        invariant
            a@.len() > 0,
            b@.len() > 0,
            steps == recycled_len(a@.len(), b@.len()),
            out@.len() <= steps,
            a_i == out@.len() % a@.len(),
            b_i == out@.len() % b@.len(),
            forall|i: int|
                0 <= i < steps ==> call_requires(
                    reduce_one,
                    (#[trigger] recycle(a@, i), recycle(b@, i)),
                ),
            forall|i: int|
                0 <= i < out@.len() ==> call_ensures(
                    reduce_one,
                    (recycle(a@, i), recycle(b@, i)),
                    #[trigger] out@[i],
                ),
        decreases steps - out@.len(),
    {
        let ghost step = out@.len() as int;
        proof {
            lemma_mod_step(step, a@.len() as int);
            lemma_mod_step(step, b@.len() as int);
            assert(a[a_i as int] == recycle(a@, step));
            assert(b[b_i as int] == recycle(b@, step));
        }
        let c = reduce_one(a[a_i], b[b_i]);
        out.push(c);
        a_i = wrapping_incr(a_i, a.len());
        b_i = wrapping_incr(b_i, b.len());
    }
    out
}

/// Repeats whole copies of `vector` until the result has `length` elements.
pub fn extend_to_len<T: Copy>(vector: &[T], length: usize) -> (out: Vec<T>)
    requires
        vector@.len() == 0 ==> length == 0,
        vector@.len() > 0 ==> (length as nat) % vector@.len() == 0,
    ensures
        out@.len() == length,
        forall|i: int| 0 <= i < length ==> #[trigger] out@[i] == recycle(vector@, i),
{
    let mut out: Vec<T> = Vec::with_capacity(length);
    if vector.len() == 0 {
        return out;
    }
    let mut pos: usize = 0;
    proof {
        lemma_small_mod(0, vector@.len());
    }
    while out.len() < length
        invariant
            vector@.len() > 0,
            out@.len() <= length,
            pos == out@.len() % vector@.len(),
            forall|i: int| 0 <= i < out@.len() ==> #[trigger] out@[i] == recycle(vector@, i),
        decreases length - out@.len(),
    {
        proof {
            lemma_mod_step(out@.len() as int, vector@.len() as int);
        }
        out.push(vector[pos]);
        pos = wrapping_incr(pos, vector.len());
    }
    out
}

/// All elements of `s` before position `end` are ordered.
pub open spec fn ordered_before<T: IsOrd>(s: Seq<T>, end: int) -> bool {
    forall|j: int| 0 <= j < end ==> (#[trigger] s[j]).is_ord_spec()
}

/// `s[i]` is the first element of `s` that nothing in `s` is `below`.
pub open spec fn first_best<T>(s: Seq<T>, below: spec_fn(T, T) -> bool, i: int) -> bool {
    &&& 0 <= i < s.len()
    &&& forall|j: int| 0 <= j < s.len() ==> !below(#[trigger] s[j], s[i])
    &&& forall|j: int| 0 <= j < i ==> below(s[i], #[trigger] s[j])
}

/// Every call of `choose_left` returns what `below` says.
pub open spec fn decides<T, F: Fn(T, T) -> bool>(
    choose_left: F,
    below: spec_fn(T, T) -> bool,
) -> bool {
    forall|a: T, b: T, left: bool|
        #[trigger] call_ensures(choose_left, (a, b), left) ==> left == below(a, b)
}

/// What a scan of `s` settles on: one of its elements; the first element that
/// is not ordered, if there is one; and, where all are ordered and `below` is
/// known to rank them, the first element that nothing is below.
pub open spec fn scan_picks<T: IsOrd>(
    s: Seq<T>,
    below: spec_fn(T, T) -> bool,
    known: bool,
    out: T,
) -> bool {
    &&& exists|i: int| 0 <= i < s.len() && out == s[i]
    &&& forall|i: int|
        0 <= i < s.len() && !(#[trigger] s[i]).is_ord_spec() && ordered_before(s, i) ==> out
            == s[i]
    &&& known && ranks(below) && ordered_before(s, s.len() as int) ==> exists|i: int|
        first_best(s, below, i) && out == s[i]
}

/// Scans `vector` from its start. The first element that is not ordered is
/// the result at once. Otherwise the result is the element held at the end,
/// where a later element takes the place of the held one only if
/// `choose_left` picks it over the held one.
pub(crate) fn find_ord_one_by<T: IsOrd + Copy, F: Fn(T, T) -> bool>(
    vector: &[T],
    choose_left: F,
    Ghost(below): Ghost<spec_fn(T, T) -> bool>,
) -> (out: T)
    requires
        vector@.len() > 0,
        forall|a: T, b: T| call_requires(choose_left, (a, b)),
    ensures
        scan_picks(vector@, below, decides(choose_left, below), out),
{
    let first = vector[0];
    if !first.is_ord() {
        assert forall|i: int|
            0 <= i < vector@.len() && !(#[trigger] vector@[i]).is_ord_spec() && ordered_before(
                vector@,
                i,
            ) implies first == vector@[i] by {
            if i > 0 {
                assert(vector@[0].is_ord_spec());
            }
        }
        return first;
    }
    let mut curr_choice = first;
    let ghost mut held: int = 0;
    let mut k: usize = 1;
    while k < vector.len()
        invariant
            1 <= k <= vector@.len(),
            forall|a: T, b: T| call_requires(choose_left, (a, b)),
            ordered_before(vector@, k as int),
            0 <= held < k,
            curr_choice == vector@[held],
            decides(choose_left, below) && ranks(below) ==> first_best(
                vector@.take(k as int),
                below,
                held,
            ),
        decreases vector@.len() - k,
    {
        let item = vector[k];
        if !item.is_ord() {
            assert forall|i: int|
                0 <= i < vector@.len() && !(#[trigger] vector@[i]).is_ord_spec() && ordered_before(
                    vector@,
                    i,
                ) implies item == vector@[i] by {
                if i < k {
                    assert(vector@[i].is_ord_spec());
                } else if i > k {
                    assert(vector@[k as int].is_ord_spec());
                }
            }
            assert(!ordered_before(vector@, vector@.len() as int)) by {
                if ordered_before(vector@, vector@.len() as int) {
                    assert(vector@[k as int].is_ord_spec());
                }
            }
            return item;
        }
        let ghost seen = vector@.take(k as int);
        let ghost grown = vector@.take(k + 1);
        let left = choose_left(item, curr_choice);
        proof {
            if decides(choose_left, below) && ranks(below) {
                assert(left == below(item, curr_choice));
                assert forall|j: int| 0 <= j < k implies seen[j] == grown[j] by {}
                if left {
                    assert forall|j: int| 0 <= j < grown.len() implies !below(
                        #[trigger] grown[j],
                        item,
                    ) by {
                        if j < k {
                            assert(!below(seen[j], curr_choice));
                            assert(below(item, curr_choice));
                            if below(grown[j], item) {
                                assert(below(grown[j], curr_choice));
                            }
                        }
                    }
                    assert forall|j: int| 0 <= j < k implies below(item, #[trigger] grown[j]) by {
                        assert(!below(seen[j], curr_choice));
                        if !below(item, grown[j]) {
                            assert(!below(item, curr_choice));
                        }
                    }
                    assert(first_best(grown, below, k as int));
                } else {
                    assert forall|j: int| 0 <= j < grown.len() implies !below(
                        #[trigger] grown[j],
                        curr_choice,
                    ) by {
                        if j < k {
                            assert(!below(seen[j], curr_choice));
                        }
                    }
                    assert forall|j: int| 0 <= j < held implies below(
                        curr_choice,
                        #[trigger] grown[j],
                    ) by {
                        assert(below(curr_choice, seen[j]));
                    }
                    assert(first_best(grown, below, held));
                }
            }
        }
        if left {
            curr_choice = item;
            proof {
                held = k as int;
            }
        }
        k += 1;
    }
    proof {
        assert(vector@.take(k as int) =~= vector@);
        assert forall|i: int|
            0 <= i < vector@.len() && !(#[trigger] vector@[i]).is_ord_spec() && ordered_before(
                vector@,
                i,
            ) implies curr_choice == vector@[i] by {
            assert(vector@[i].is_ord_spec());
        }
    }
    curr_choice
}

/// `out` is what a scan of `s` for its smallest element settles on.
pub open spec fn is_min<T: IsOrd + PartialOrd>(s: Seq<T>, out: T) -> bool {
    scan_picks(s, |a: T, b: T| less(a, b), comparison_known::<T>(), out)
}

/// `out` is what a scan of `s` for its largest element settles on.
pub open spec fn is_max<T: IsOrd + PartialOrd>(s: Seq<T>, out: T) -> bool {
    scan_picks(s, |a: T, b: T| less(b, a), comparison_known::<T>(), out)
}

/// The smallest element of `vector`, or the first one that is not ordered.
pub fn min<T: IsOrd + Copy + PartialOrd>(vector: &[T]) -> (out: T)
    requires
        vector@.len() > 0,
    ensures
        is_min(vector@, out),
{
    let ghost below = |a: T, b: T| less(a, b);
    let choose_left = |a: T, b: T| -> (left: bool)
        ensures
            comparison_known::<T>() ==> left == less(a, b),
        { a < b };
    find_ord_one_by(vector, choose_left, Ghost(below))
}

/// The largest element of `vector`, or the first one that is not ordered.
pub fn max<T: IsOrd + Copy + PartialOrd>(vector: &[T]) -> (out: T)
    requires
        vector@.len() > 0,
    ensures
        is_max(vector@, out),
{
    let ghost below = |a: T, b: T| less(b, a);
    let choose_left = |a: T, b: T| -> (left: bool)
        ensures
            comparison_known::<T>() ==> left == less(b, a),
        { b < a };
    proof {
        if strict_weak_order::<T>() {
            let up = |a: T, b: T| less(a, b);
            assert forall|a: T| !#[trigger] below(a, a) by {
                assert(!up(a, a));
            }
            assert forall|a: T, b: T, c: T| #[trigger]
                below(a, b) && #[trigger] below(b, c) implies below(a, c) by {
                assert(up(c, b) && up(b, a));
            }
            assert forall|a: T, b: T, c: T|
                !#[trigger] below(a, b) && !#[trigger] below(b, c) implies !below(a, c) by {
                assert(!up(c, b) && !up(b, a));
            }
        }
    }
    find_ord_one_by(vector, choose_left, Ghost(below))
}

/// No element of `s` is below an earlier one.
pub open spec fn ascending<T: PartialOrd>(s: Seq<T>) -> bool {
    forall|i: int, j: int| 0 <= i < j < s.len() ==> !less(#[trigger] s[j], #[trigger] s[i])
}

/// The elements that sorting keeps: all of them for a kind that is always
/// ordered, else those that are ordered, in their order.
pub open spec fn kept<T: IsOrd>(s: Seq<T>) -> Seq<T> {
    if T::always_ord_spec() {
        s
    } else {
        s.filter(|item: T| item.is_ord_spec())
    }
}

/// Not being below carries over, for a kind whose order ranks its values.
proof fn lemma_not_less_carries<T: PartialOrd>(a: T, b: T, c: T)
    requires
        strict_weak_order::<T>(),
        !less(a, b),
        !less(b, c),
    ensures
        !less(a, c),
{
    let below = |x: T, y: T| less(x, y);
    assert(!below(a, b) && !below(b, c));
    assert(!below(a, c));
}

/// Of two values of a kind whose order ranks its values, at most one is
/// below the other.
proof fn lemma_less_one_way<T: PartialOrd>(a: T, b: T)
    requires
        strict_weak_order::<T>(),
        less(a, b),
    ensures
        !less(b, a),
{
    let below = |x: T, y: T| less(x, y);
    assert(below(a, b));
    assert(!below(a, a));
    if less(b, a) {
        assert(below(b, a));
        assert(below(a, a));
    }
}

/// Merges two runs into one that holds the elements of both; the result is
/// ascending where both runs are.
fn merge<T: Copy + PartialOrd>(left: &Vec<T>, right: &Vec<T>) -> (out: Vec<T>)
    ensures
        out@.to_multiset() == left@.to_multiset().add(right@.to_multiset()),
        strict_weak_order::<T>() && ascending(left@) && ascending(right@) ==> ascending(out@),
{
    let ghost sorts = strict_weak_order::<T>() && ascending(left@) && ascending(right@);
    let mut out: Vec<T> = Vec::new();
    let mut i: usize = 0;
    let mut j: usize = 0;
    proof {
        broadcast use vstd::seq_lib::group_to_multiset_ensures;

        assert(left@.take(0) =~= Seq::<T>::empty());
        assert(right@.take(0) =~= Seq::<T>::empty());
        assert(out@.to_multiset() =~= left@.take(0).to_multiset().add(
            right@.take(0).to_multiset(),
        ));
    }
    while i < left.len() || j < right.len()
        invariant
            i <= left@.len(),
            j <= right@.len(),
            sorts == (strict_weak_order::<T>() && ascending(left@) && ascending(right@)),
            out@.to_multiset() == left@.take(i as int).to_multiset().add(
                right@.take(j as int).to_multiset(),
            ),
            sorts ==> ascending(out@),
            sorts ==> forall|k: int, m: int|
                0 <= k < out@.len() && i <= m < left@.len() ==> !less(
                    #[trigger] left@[m],
                    #[trigger] out@[k],
                ),
            sorts ==> forall|k: int, m: int|
                0 <= k < out@.len() && j <= m < right@.len() ==> !less(
                    #[trigger] right@[m],
                    #[trigger] out@[k],
                ),
        decreases (left@.len() - i) + (right@.len() - j),
    {
        let take_left = if j >= right.len() {
            true
        } else if i >= left.len() {
            false
        } else {
            !(right[j] < left[i])
        };
        let ghost before = out@;
        if take_left {
            let item = left[i];
            out.push(item);
            proof {
                broadcast use vstd::seq_lib::group_to_multiset_ensures;

                assert(left@.take(i + 1) =~= left@.take(i as int).push(item));
                assert(out@.to_multiset() =~= left@.take(i + 1).to_multiset().add(
                    right@.take(j as int).to_multiset(),
                ));
                if sorts {
                    assert forall|k: int, m: int|
                        0 <= k < out@.len() && j <= m < right@.len() implies !less(
                        #[trigger] right@[m],
                        #[trigger] out@[k],
                    ) by {
                        if k == before.len() {
                            assert(!less(right@[j as int], item));
                            if m > j {
                                assert(!less(right@[m], right@[j as int]));
                                lemma_not_less_carries(right@[m], right@[j as int], item);
                            }
                        } else {
                            assert(out@[k] == before[k]);
                        }
                    }
                    assert forall|k: int, m: int|
                        0 <= k < out@.len() && i + 1 <= m < left@.len() implies !less(
                        #[trigger] left@[m],
                        #[trigger] out@[k],
                    ) by {
                        if k == before.len() {
                            assert(!less(left@[m], left@[i as int]));
                        } else {
                            assert(out@[k] == before[k]);
                        }
                    }
                    assert forall|a: int, b: int| 0 <= a < b < out@.len() implies !less(
                        #[trigger] out@[b],
                        #[trigger] out@[a],
                    ) by {
                        assert(out@[a] == before[a]);
                        if b == before.len() {
                            assert(!less(left@[i as int], before[a]));
                        } else {
                            assert(out@[b] == before[b]);
                        }
                    }
                }
            }
            i += 1;
        } else {
            let item = right[j];
            out.push(item);
            proof {
                broadcast use vstd::seq_lib::group_to_multiset_ensures;

                assert(right@.take(j + 1) =~= right@.take(j as int).push(item));
                assert(out@.to_multiset() =~= left@.take(i as int).to_multiset().add(
                    right@.take(j + 1).to_multiset(),
                ));
                if sorts {
                    assert forall|k: int, m: int|
                        0 <= k < out@.len() && i <= m < left@.len() implies !less(
                        #[trigger] left@[m],
                        #[trigger] out@[k],
                    ) by {
                        if k == before.len() {
                            assert(less(item, left@[i as int]));
                            lemma_less_one_way(item, left@[i as int]);
                            if m > i {
                                assert(!less(left@[m], left@[i as int]));
                                lemma_not_less_carries(left@[m], left@[i as int], item);
                            }
                        } else {
                            assert(out@[k] == before[k]);
                        }
                    }
                    assert forall|k: int, m: int|
                        0 <= k < out@.len() && j + 1 <= m < right@.len() implies !less(
                        #[trigger] right@[m],
                        #[trigger] out@[k],
                    ) by {
                        if k == before.len() {
                            assert(!less(right@[m], right@[j as int]));
                        } else {
                            assert(out@[k] == before[k]);
                        }
                    }
                    assert forall|a: int, b: int| 0 <= a < b < out@.len() implies !less(
                        #[trigger] out@[b],
                        #[trigger] out@[a],
                    ) by {
                        assert(out@[a] == before[a]);
                        if b == before.len() {
                            assert(!less(right@[j as int], before[a]));
                        } else {
                            assert(out@[b] == before[b]);
                        }
                    }
                }
            }
            j += 1;
        }
    }
    proof {
        assert(left@.take(i as int) =~= left@);
        assert(right@.take(j as int) =~= right@);
    }
    out
}

/// Sorts by splitting in halves, sorting each and merging them.
fn merge_sort<T: Copy + PartialOrd>(items: Vec<T>) -> (out: Vec<T>)
    ensures
        out@.to_multiset() == items@.to_multiset(),
        strict_weak_order::<T>() ==> ascending(out@),
    decreases items@.len(),
{
    if items.len() <= 1 {
        return items;
    }
    let ghost whole = items@;
    let mut left = items;
    let mid: usize = left.len() / 2;
    let right = left.split_off(mid);
    proof {
        assert(whole =~= left@ + right@);
        vstd::seq_lib::lemma_multiset_commutative(left@, right@);
    }
    let left = merge_sort(left);
    let right = merge_sort(right);
    merge(&left, &right)
}

/// The elements of `vector` in ascending order. A kind that is always
/// ordered keeps every element; of another kind the elements that are not
/// ordered are left out.
pub fn sort<T: IsOrd + Copy + PartialOrd>(vector: &[T]) -> (out: Vec<T>)
    ensures
        out@.to_multiset() == kept(vector@).to_multiset(),
        T::always_ord_spec() ==> out@.to_multiset() == vector@.to_multiset() && out@.len()
            == vector@.len(),
        strict_weak_order::<T>() ==> ascending(out@),
{
    let mut items: Vec<T> = Vec::new();
    let always = T::always_ord();
    let ghost ordered = |item: T| item.is_ord_spec();
    let mut k: usize = 0;
    while k < vector.len()
        invariant
            k <= vector@.len(),
            always == T::always_ord_spec(),
            ordered == (|item: T| item.is_ord_spec()),
            always ==> items@ == vector@.take(k as int),
            !always ==> items@ == vector@.take(k as int).filter(ordered),
        decreases vector@.len() - k,
    {
        let item = vector[k];
        proof {
            reveal(Seq::filter);
            assert(vector@.take(k + 1).drop_last() =~= vector@.take(k as int));
            assert(vector@.take(k + 1).last() == item);
        }
        if always || item.is_ord() {
            items.push(item);
            assert(always ==> items@ =~= vector@.take(k + 1));
            assert(!always ==> items@ =~= vector@.take(k + 1).filter(ordered));
        } else {
            assert(vector@.take(k + 1).filter(ordered) =~= vector@.take(k as int).filter(ordered));
        }
        k += 1;
    }
    proof {
        assert(vector@.take(k as int) =~= vector@);
        broadcast use vstd::seq_lib::group_to_multiset_ensures;

    }
    let out = merge_sort(items);
    proof {
        broadcast use vstd::seq_lib::group_to_multiset_ensures;

        assert(out@.len() == out@.to_multiset().len());
        assert(kept(vector@).len() == kept(vector@).to_multiset().len());
    }
    out
}

/// Every pair of elements met on the cyclic walk over `a` and `b` meets `ok`.
pub open spec fn all_pairs<A, B>(a: Seq<A>, b: Seq<B>, ok: spec_fn(A, B) -> bool) -> bool {
    forall|i: int|
        0 <= i < recycled_len(a.len(), b.len()) ==> ok(#[trigger] recycle(a, i), recycle(b, i))
}

/// The pairs of elements met on the cyclic walk over `a` and `b`, combined by
/// `f`.
pub open spec fn zipped<A, B, C>(a: Seq<A>, b: Seq<B>, f: spec_fn(A, B) -> C) -> Seq<C> {
    Seq::new(recycled_len(a.len(), b.len()), |i: int| f(recycle(a, i), recycle(b, i)))
}

/// Operands of the same length are combined position by position.
pub proof fn lemma_zipped_same_len<A, B, C>(a: Seq<A>, b: Seq<B>, f: spec_fn(A, B) -> C, i: int)
    requires
        a.len() == b.len(),
        0 <= i < a.len(),
    ensures
        zipped(a, b, f).len() == a.len(),
        zipped(a, b, f)[i] == f(a[i], b[i]),
{
    lemma_small_mod(i as nat, a.len());
}

/// An operand of a single element is combined with each element of the
/// other.
pub proof fn lemma_zipped_single<A, B, C>(a: Seq<A>, b: Seq<B>, f: spec_fn(A, B) -> C, i: int)
    requires
        b.len() == 1,
        0 <= i < a.len(),
    ensures
        zipped(a, b, f).len() == a.len(),
        zipped(a, b, f)[i] == f(a[i], b[0]),
{
    lemma_small_mod(i as nat, a.len());
    assert(i % 1 == 0);
}

/// Element-wise sum, with recycling.
pub fn add<T: Copy + Add<Output = T>>(a: &[T], b: &[T]) -> (out: Vec<T>)
    requires
        recyclable(a@.len(), b@.len()),
        all_pairs(a@, b@, |x: T, y: T| x.add_req(y)),
    ensures
        out@.len() == recycled_len(a@.len(), b@.len()),
        T::obeys_add_spec() ==> out@ == zipped(a@, b@, |x: T, y: T| x.add_spec(y)),
{
    let combine = |x: T, y: T| -> (z: T)
        requires
            x.add_req(y),
        ensures
            T::obeys_add_spec() ==> z == (x.add_spec(y)),
        { x + y };
    let out = circle_zip(a, b, combine);
    assert(T::obeys_add_spec() ==> out@ =~= zipped(a@, b@, |x: T, y: T| x.add_spec(y)));
    out
}

/// Element-wise difference, with recycling.
pub fn sub<T: Copy + Sub<Output = T>>(a: &[T], b: &[T]) -> (out: Vec<T>)
    requires
        recyclable(a@.len(), b@.len()),
        all_pairs(a@, b@, |x: T, y: T| x.sub_req(y)),
    ensures
        out@.len() == recycled_len(a@.len(), b@.len()),
        T::obeys_sub_spec() ==> out@ == zipped(a@, b@, |x: T, y: T| x.sub_spec(y)),
{
    let combine = |x: T, y: T| -> (z: T)
        requires
            x.sub_req(y),
        ensures
            T::obeys_sub_spec() ==> z == (x.sub_spec(y)),
        { x - y };
    let out = circle_zip(a, b, combine);
    assert(T::obeys_sub_spec() ==> out@ =~= zipped(a@, b@, |x: T, y: T| x.sub_spec(y)));
    out
}

/// Element-wise product, with recycling.
pub fn mul<T: Copy + Mul<Output = T>>(a: &[T], b: &[T]) -> (out: Vec<T>)
    requires
        recyclable(a@.len(), b@.len()),
        all_pairs(a@, b@, |x: T, y: T| x.mul_req(y)),
    ensures
        out@.len() == recycled_len(a@.len(), b@.len()),
        T::obeys_mul_spec() ==> out@ == zipped(a@, b@, |x: T, y: T| x.mul_spec(y)),
{
    let combine = |x: T, y: T| -> (z: T)
        requires
            x.mul_req(y),
        ensures
            T::obeys_mul_spec() ==> z == (x.mul_spec(y)),
        { x * y };
    let out = circle_zip(a, b, combine);
    assert(T::obeys_mul_spec() ==> out@ =~= zipped(a@, b@, |x: T, y: T| x.mul_spec(y)));
    out
}

/// Element-wise quotient, with recycling.
pub fn div<T: Copy + Div<Output = T>>(a: &[T], b: &[T]) -> (out: Vec<T>)
    requires
        recyclable(a@.len(), b@.len()),
        all_pairs(a@, b@, |x: T, y: T| x.div_req(y)),
    ensures
        out@.len() == recycled_len(a@.len(), b@.len()),
        T::obeys_div_spec() ==> out@ == zipped(a@, b@, |x: T, y: T| x.div_spec(y)),
{
    let combine = |x: T, y: T| -> (z: T)
        requires
            x.div_req(y),
        ensures
            T::obeys_div_spec() ==> z == (x.div_spec(y)),
        { x / y };
    let out = circle_zip(a, b, combine);
    assert(T::obeys_div_spec() ==> out@ =~= zipped(a@, b@, |x: T, y: T| x.div_spec(y)));
    out
}

/// Element-wise remainder, with recycling.
pub fn modulo<T: Copy + Rem<Output = T>>(a: &[T], b: &[T]) -> (out: Vec<T>)
    requires
        recyclable(a@.len(), b@.len()),
        all_pairs(a@, b@, |x: T, y: T| x.rem_req(y)),
    ensures
        out@.len() == recycled_len(a@.len(), b@.len()),
        T::obeys_rem_spec() ==> out@ == zipped(a@, b@, |x: T, y: T| x.rem_spec(y)),
{
    let combine = |x: T, y: T| -> (z: T)
        requires
            x.rem_req(y),
        ensures
            T::obeys_rem_spec() ==> z == (x.rem_spec(y)),
        { x % y };
    let out = circle_zip(a, b, combine);
    assert(T::obeys_rem_spec() ==> out@ =~= zipped(a@, b@, |x: T, y: T| x.rem_spec(y)));
    out
}

/// Element-wise `<`, with recycling.
pub fn lt<T: Copy + PartialOrd>(a: &[T], b: &[T]) -> (out: Vec<bool>)
    requires
        recyclable(a@.len(), b@.len()),
    ensures
        out@.len() == recycled_len(a@.len(), b@.len()),
        comparison_known::<T>() ==> out@ == zipped(a@, b@, |x: T, y: T| less(x, y)),
{
    let combine = |x: T, y: T| -> (z: bool)
        ensures
            comparison_known::<T>() ==> z == (less(x, y)),
        { x < y };
    let out = circle_zip(a, b, combine);
    assert(comparison_known::<T>() ==> out@ =~= zipped(a@, b@, |x: T, y: T| less(x, y)));
    out
}

/// Element-wise `>`, with recycling.
pub fn gt<T: Copy + PartialOrd>(a: &[T], b: &[T]) -> (out: Vec<bool>)
    requires
        recyclable(a@.len(), b@.len()),
    ensures
        out@.len() == recycled_len(a@.len(), b@.len()),
        comparison_known::<T>() ==> out@ == zipped(a@, b@, |x: T, y: T| greater(x, y)),
{
    let combine = |x: T, y: T| -> (z: bool)
        ensures
            comparison_known::<T>() ==> z == (greater(x, y)),
        { x > y };
    let out = circle_zip(a, b, combine);
    assert(comparison_known::<T>() ==> out@ =~= zipped(a@, b@, |x: T, y: T| greater(x, y)));
    out
}

/// Element-wise `==`, with recycling.
pub fn eq<T: Copy + PartialEq>(a: &[T], b: &[T]) -> (out: Vec<bool>)
    requires
        recyclable(a@.len(), b@.len()),
    ensures
        out@.len() == recycled_len(a@.len(), b@.len()),
        T::obeys_eq_spec() ==> out@ == zipped(a@, b@, |x: T, y: T| x.eq_spec(&y)),
{
    let combine = |x: T, y: T| -> (z: bool)
        ensures
            T::obeys_eq_spec() ==> z == (x.eq_spec(&y)),
        { x == y };
    let out = circle_zip(a, b, combine);
    assert(T::obeys_eq_spec() ==> out@ =~= zipped(a@, b@, |x: T, y: T| x.eq_spec(&y)));
    out
}

/// Element-wise `!=`, with recycling.
pub fn neq<T: Copy + PartialEq>(a: &[T], b: &[T]) -> (out: Vec<bool>)
    requires
        recyclable(a@.len(), b@.len()),
    ensures
        out@.len() == recycled_len(a@.len(), b@.len()),
        T::obeys_eq_spec() ==> out@ == zipped(a@, b@, |x: T, y: T| !x.eq_spec(&y)),
{
    let combine = |x: T, y: T| -> (z: bool)
        ensures
            T::obeys_eq_spec() ==> z == (!x.eq_spec(&y)),
        { x != y };
    let out = circle_zip(a, b, combine);
    assert(T::obeys_eq_spec() ==> out@ =~= zipped(a@, b@, |x: T, y: T| !x.eq_spec(&y)));
    out
}

/// Element-wise disjunction, with recycling.
pub fn or(a: &[bool], b: &[bool]) -> (out: Vec<bool>)
    requires
        recyclable(a@.len(), b@.len()),
    ensures
        out@.len() == recycled_len(a@.len(), b@.len()),
        out@ == zipped(a@, b@, |x: bool, y: bool| x || y),
{
    let combine = |x: bool, y: bool| -> (z: bool)
        ensures
            z == (x || y),
        { x || y };
    let out = circle_zip(a, b, combine);
    assert(out@ =~= zipped(a@, b@, |x: bool, y: bool| x || y));
    out
}

/// Element-wise conjunction, with recycling.
pub fn and(a: &[bool], b: &[bool]) -> (out: Vec<bool>)
    requires
        recyclable(a@.len(), b@.len()),
    ensures
        out@.len() == recycled_len(a@.len(), b@.len()),
        out@ == zipped(a@, b@, |x: bool, y: bool| x && y),
{
    let combine = |x: bool, y: bool| -> (z: bool)
        ensures
            z == (x && y),
        { x && y };
    let out = circle_zip(a, b, combine);
    assert(out@ =~= zipped(a@, b@, |x: bool, y: bool| x && y));
    out
}

/// Element-wise exclusive disjunction, with recycling.
pub fn xor(a: &[bool], b: &[bool]) -> (out: Vec<bool>)
    requires
        recyclable(a@.len(), b@.len()),
    ensures
        out@.len() == recycled_len(a@.len(), b@.len()),
        out@ == zipped(a@, b@, |x: bool, y: bool| x != y),
{
    let combine = |x: bool, y: bool| -> (z: bool)
        ensures
            z == (x != y),
        { x ^ y };
    let out = circle_zip(a, b, combine);
    assert(out@ =~= zipped(a@, b@, |x: bool, y: bool| x != y));
    out
}

/// Applies `fmap` to each element.
pub fn map<A: Copy, B, F: Fn(A) -> B>(vector: &[A], fmap: F) -> (out: Vec<B>)
    requires
        forall|i: int| 0 <= i < vector@.len() ==> call_requires(fmap, (#[trigger] vector@[i],)),
    ensures
        out@.len() == vector@.len(),
        forall|i: int|
            0 <= i < vector@.len() ==> call_ensures(fmap, (vector@[i],), #[trigger] out@[i]),
{
    let mut out: Vec<B> = Vec::with_capacity(vector.len());
    let mut k: usize = 0;
    while k < vector.len()
        invariant
            k <= vector@.len(),
            out@.len() == k,
            forall|i: int| 0 <= i < vector@.len() ==> call_requires(fmap, (#[trigger] vector@[i],)),
            forall|i: int| 0 <= i < k ==> call_ensures(fmap, (vector@[i],), #[trigger] out@[i]),
        decreases vector@.len() - k,
    {
        out.push(fmap(vector[k]));
        k += 1;
    }
    out
}

/// Element-wise negation.
pub fn neg<T: Copy + Neg<Output = T>>(vector: &[T]) -> (out: Vec<T>)
    requires
        forall|i: int| 0 <= i < vector@.len() ==> (#[trigger] vector@[i]).neg_req(),
    ensures
        out@.len() == vector@.len(),
        T::obeys_neg_spec() ==> out@ == vector@.map_values(|x: T| x.neg_spec()),
{
    let apply = |x: T| -> (z: T)
        requires
            x.neg_req(),
        ensures
            T::obeys_neg_spec() ==> z == x.neg_spec(),
        { x.neg() };
    let out = map(vector, apply);
    assert(T::obeys_neg_spec() ==> out@ =~= vector@.map_values(|x: T| x.neg_spec()));
    out
}

/// Element-wise logical negation.
pub fn not(vector: &[bool]) -> (out: Vec<bool>)
    ensures
        out@ == vector@.map_values(|x: bool| !x),
{
    let apply = |x: bool| -> (z: bool)
        ensures
            z == !x,
        { !x };
    let out = map(vector, apply);
    assert(out@ =~= vector@.map_values(|x: bool| !x));
    out
}

/// Whether some element is true.
pub fn any(vector: &[bool]) -> (out: bool)
    ensures
        out == exists|i: int| 0 <= i < vector@.len() && vector@[i],
{
    let mut k: usize = 0;
    while k < vector.len()
        invariant
            k <= vector@.len(),
            forall|i: int| 0 <= i < k ==> !vector@[i],
        decreases vector@.len() - k,
    {
        if vector[k] {
            return true;
        }
        k += 1;
    }
    false
}

/// Whether every element is true.
pub fn all(vector: &[bool]) -> (out: bool)
    ensures
        out == forall|i: int| 0 <= i < vector@.len() ==> vector@[i],
{
    let mut k: usize = 0;
    while k < vector.len()
        invariant
            k <= vector@.len(),
            forall|i: int| 0 <= i < k ==> vector@[i],
        decreases vector@.len() - k,
    {
        if !vector[k] {
            return false;
        }
        k += 1;
    }
    true
}

/// The elements of `s` whose flag is set, in their order.
pub open spec fn picked<T>(s: Seq<T>, flags: Seq<bool>) -> Seq<T>
    decreases s.len(),
{
    if s.len() == 0 {
        s
    } else if flags.last() {
        picked(s.drop_last(), flags.drop_last()).push(s.last())
    } else {
        picked(s.drop_last(), flags.drop_last())
    }
}

/// The elements for which `filter` returns true, in their order.
pub fn subset<T: Copy, F: Fn(T) -> bool>(vector: &[T], filter: F) -> (out: Vec<T>)
    requires
        forall|i: int| 0 <= i < vector@.len() ==> call_requires(filter, (#[trigger] vector@[i],)),
    ensures
        exists|flags: Seq<bool>|
            {
                &&& flags.len() == vector@.len()
                &&& forall|i: int|
                    0 <= i < vector@.len() ==> call_ensures(
                        filter,
                        (vector@[i],),
                        #[trigger] flags[i],
                    )
                &&& out@ == picked(vector@, flags)
            },
{
    let mut out: Vec<T> = Vec::new();
    let ghost mut flags: Seq<bool> = Seq::empty();
    let mut k: usize = 0;
    assert(vector@.take(0) =~= Seq::<T>::empty());
    while k < vector.len()
        invariant
            k <= vector@.len(),
            flags.len() == k,
            forall|i: int|
                0 <= i < vector@.len() ==> call_requires(filter, (#[trigger] vector@[i],)),
            forall|i: int| 0 <= i < k ==> call_ensures(filter, (vector@[i],), #[trigger] flags[i]),
            out@ == picked(vector@.take(k as int), flags),
        decreases vector@.len() - k,
    {
        let item = vector[k];
        let keep = filter(item);
        proof {
            assert(vector@.take(k + 1).drop_last() =~= vector@.take(k as int));
            assert(flags.push(keep).drop_last() =~= flags);
            flags = flags.push(keep);
        }
        if keep {
            out.push(item);
        }
        k += 1;
    }
    assert(vector@.take(k as int) =~= vector@);
    out
}

/// The positions of `flags` that are set, in ascending order.
pub open spec fn set_positions(flags: Seq<bool>) -> Seq<usize>
    decreases flags.len(),
{
    if flags.len() == 0 {
        Seq::empty()
    } else if flags.last() {
        set_positions(flags.drop_last()).push((flags.len() - 1) as usize)
    } else {
        set_positions(flags.drop_last())
    }
}

/// The positions of the elements that are true, in ascending order.
pub fn which(vector: &[bool]) -> (out: Vec<usize>)
    ensures
        out@ == set_positions(vector@),
{
    let mut out: Vec<usize> = Vec::new();
    let mut k: usize = 0;
    assert(vector@.take(0) =~= Seq::<bool>::empty());
    while k < vector.len()
        invariant
            k <= vector@.len(),
            out@ == set_positions(vector@.take(k as int)),
        decreases vector@.len() - k,
    {
        proof {
            assert(vector@.take(k + 1).drop_last() =~= vector@.take(k as int));
        }
        if vector[k] {
            out.push(k);
        }
        k += 1;
    }
    assert(vector@.take(k as int) =~= vector@);
    out
}

/// The smallest element of each vector.
pub fn pmin<T: IsOrd + Copy + PartialOrd>(vectors: &[&[T]]) -> (out: Vec<T>)
    requires
        forall|k: int| 0 <= k < vectors@.len() ==> (#[trigger] vectors@[k])@.len() > 0,
    ensures
        out@.len() == vectors@.len(),
        forall|k: int| 0 <= k < vectors@.len() ==> is_min(vectors@[k]@, #[trigger] out@[k]),
{
    let mut out: Vec<T> = Vec::with_capacity(vectors.len());
    let mut k: usize = 0;
    while k < vectors.len()
        invariant
            k <= vectors@.len(),
            out@.len() == k,
            forall|k: int| 0 <= k < vectors@.len() ==> (#[trigger] vectors@[k])@.len() > 0,
            forall|j: int| 0 <= j < k ==> is_min(vectors@[j]@, #[trigger] out@[j]),
        decreases vectors@.len() - k,
    {
        out.push(min(vectors[k]));
        k += 1;
    }
    out
}

/// The largest element of each vector.
pub fn pmax<T: IsOrd + Copy + PartialOrd>(vectors: &[&[T]]) -> (out: Vec<T>)
    requires
        forall|k: int| 0 <= k < vectors@.len() ==> (#[trigger] vectors@[k])@.len() > 0,
    ensures
        out@.len() == vectors@.len(),
        forall|k: int| 0 <= k < vectors@.len() ==> is_max(vectors@[k]@, #[trigger] out@[k]),
{
    let mut out: Vec<T> = Vec::with_capacity(vectors.len());
    let mut k: usize = 0;
    while k < vectors.len()
        invariant
            k <= vectors@.len(),
            out@.len() == k,
            forall|k: int| 0 <= k < vectors@.len() ==> (#[trigger] vectors@[k])@.len() > 0,
            forall|j: int| 0 <= j < k ==> is_max(vectors@[j]@, #[trigger] out@[j]),
        decreases vectors@.len() - k,
    {
        out.push(max(vectors[k]));
        k += 1;
    }
    out
}

/// The elements of `s` added up from `zero`, left to right.
pub open spec fn summed<T: Add<Output = T>>(s: Seq<T>, zero: T) -> T
    decreases s.len(),
{
    if s.len() == 0 {
        zero
    } else {
        summed(s.drop_last(), zero).add_spec(s.last())
    }
}

/// Every addition made while adding up `s` from `zero` is allowed. For a
/// kind whose sums are not known this asks that any two values can be added.
pub open spec fn sum_defined<T: Add<Output = T>>(s: Seq<T>, zero: T) -> bool {
    if T::obeys_add_spec() {
        forall|k: int| 0 <= k < s.len() ==> (#[trigger] summed(s.take(k), zero)).add_req(s[k])
    } else {
        forall|x: T, y: T| #[trigger] x.add_req(y)
    }
}

/// The elements of `s` multiplied up from `one`, left to right.
pub open spec fn multiplied<T: Mul<Output = T>>(s: Seq<T>, one: T) -> T
    decreases s.len(),
{
    if s.len() == 0 {
        one
    } else {
        multiplied(s.drop_last(), one).mul_spec(s.last())
    }
}

/// Every multiplication made while multiplying up `s` from `one` is allowed.
/// For a kind whose products are not known this asks that any two values can
/// be multiplied.
pub open spec fn prod_defined<T: Mul<Output = T>>(s: Seq<T>, one: T) -> bool {
    if T::obeys_mul_spec() {
        forall|k: int| 0 <= k < s.len() ==> (#[trigger] multiplied(s.take(k), one)).mul_req(s[k])
    } else {
        forall|x: T, y: T| #[trigger] x.mul_req(y)
    }
}

/// The sum of the elements, added to `zero` from left to right.
pub fn sum<T: Copy + Add<Output = T>>(vector: &[T], zero: T) -> (out: T)
    requires
        sum_defined(vector@, zero),
    ensures
        T::obeys_add_spec() ==> out == summed(vector@, zero),
{
    let mut cum = zero;
    let mut k: usize = 0;
    assert(vector@.take(0) =~= Seq::<T>::empty());
    while k < vector.len()
        invariant
            k <= vector@.len(),
            sum_defined(vector@, zero),
            T::obeys_add_spec() ==> cum == summed(vector@.take(k as int), zero),
        decreases vector@.len() - k,
    {
        proof {
            assert(vector@.take(k + 1).drop_last() =~= vector@.take(k as int));
        }
        cum = cum + vector[k];
        k += 1;
    }
    assert(vector@.take(k as int) =~= vector@);
    cum
}

/// The product of the elements, multiplied to `one` from left to right.
pub fn prod<T: Copy + Mul<Output = T>>(vector: &[T], one: T) -> (out: T)
    requires
        prod_defined(vector@, one),
    ensures
        T::obeys_mul_spec() ==> out == multiplied(vector@, one),
{
    let mut cum = one;
    let mut k: usize = 0;
    assert(vector@.take(0) =~= Seq::<T>::empty());
    while k < vector.len()
        invariant
            k <= vector@.len(),
            prod_defined(vector@, one),
            T::obeys_mul_spec() ==> cum == multiplied(vector@.take(k as int), one),
        decreases vector@.len() - k,
    {
        proof {
            assert(vector@.take(k + 1).drop_last() =~= vector@.take(k as int));
        }
        cum = cum * vector[k];
        k += 1;
    }
    assert(vector@.take(k as int) =~= vector@);
    cum
}

/// The running sums of the elements: at each position the sum of the
/// elements up to and with it.
pub fn cumsum<T: Copy + Add<Output = T>>(vector: &[T], zero: T) -> (out: Vec<T>)
    requires
        sum_defined(vector@, zero),
    ensures
        out@.len() == vector@.len(),
        T::obeys_add_spec() ==> forall|i: int|
            0 <= i < vector@.len() ==> #[trigger] out@[i] == summed(vector@.take(i + 1), zero),
{
    let mut out: Vec<T> = Vec::with_capacity(vector.len());
    let mut cum = zero;
    let mut k: usize = 0;
    assert(vector@.take(0) =~= Seq::<T>::empty());
    while k < vector.len()
        invariant
            k <= vector@.len(),
            out@.len() == k,
            sum_defined(vector@, zero),
            T::obeys_add_spec() ==> cum == summed(vector@.take(k as int), zero),
            T::obeys_add_spec() ==> forall|i: int|
                0 <= i < k ==> #[trigger] out@[i] == summed(vector@.take(i + 1), zero),
        decreases vector@.len() - k,
    {
        proof {
            assert(vector@.take(k + 1).drop_last() =~= vector@.take(k as int));
        }
        cum = cum + vector[k];
        out.push(cum);
        k += 1;
    }
    out
}

/// Element-wise factorial.
pub fn factorial<T: Copy + CalcFactorial>(vector: &[T]) -> (out: Vec<T>)
    requires
        forall|i: int| 0 <= i < vector@.len() ==> (#[trigger] vector@[i]).factorial_req(),
    ensures
        out@ == vector@.map_values(|x: T| x.factorial_spec()),
{
    let apply = |x: T| -> (z: T)
        requires
            x.factorial_req(),
        ensures
            z == x.factorial_spec(),
        { x.factorial() };
    let out = map(vector, apply);
    assert(out@ =~= vector@.map_values(|x: T| x.factorial_spec()));
    out
}

/// Element-wise binomial coefficient, with recycling: the number of ways to
/// pick as many as `b` says out of as many as `a` says.
pub fn binomial<T: Copy + CalcChoose>(a: &[T], b: &[T]) -> (out: Vec<T>)
    requires
        recyclable(a@.len(), b@.len()),
        all_pairs(a@, b@, |x: T, y: T| x.binomial_req(y)),
    ensures
        out@.len() == recycled_len(a@.len(), b@.len()),
        out@ == zipped(a@, b@, |x: T, y: T| x.binomial_spec(y)),
{
    let combine = |x: T, y: T| -> (z: T)
        requires
            x.binomial_req(y),
        ensures
            z == x.binomial_spec(y),
        { x.binomial(y) };
    let out = circle_zip(a, b, combine);
    assert(out@ =~= zipped(a@, b@, |x: T, y: T| x.binomial_spec(y)));
    out
}

/// The elements of `s`, each divided by `len`.
pub open spec fn shares<T: Div<Output = T>>(s: Seq<T>, len: T) -> Seq<T> {
    s.map_values(|x: T| x.div_spec(len))
}

/// The mean of `s`: its elements, each divided by `len`, added up from `zero`.
pub open spec fn mean_of<T: Add<Output = T> + Div<Output = T>>(s: Seq<T>, len: T, zero: T) -> T {
    summed(shares(s, len), zero)
}

/// Sums and quotients of the kind are known.
pub open spec fn mean_known<T: Add<Output = T> + Div<Output = T>>() -> bool {
    T::obeys_add_spec() && T::obeys_div_spec()
}

/// Every division and addition made on the way to the mean of `s` is
/// allowed. For a kind whose sums or quotients are not known this asks that
/// any two values can be divided and added.
pub open spec fn mean_defined<T: Add<Output = T> + Div<Output = T>>(
    s: Seq<T>,
    len: T,
    zero: T,
) -> bool {
    if mean_known::<T>() {
        &&& forall|i: int| 0 <= i < s.len() ==> (#[trigger] s[i]).div_req(len)
        &&& sum_defined(shares(s, len), zero)
    } else {
        &&& forall|x: T, y: T| #[trigger] x.div_req(y)
        &&& forall|x: T, y: T| #[trigger] x.add_req(y)
    }
}

/// The mean of the elements, where `len` is their number as a value of the
/// kind: each element is divided by `len` before it is added to the sum, which
/// starts at `zero`.
pub fn mean<T: Copy + Add<Output = T> + Div<Output = T>>(vector: &[T], len: T, zero: T) -> (out: T)
    requires
        vector@.len() > 0,
        mean_defined(vector@, len, zero),
    ensures
        mean_known::<T>() ==> out == mean_of(vector@, len, zero),
{
    let ghost parts = shares(vector@, len);
    let mut partial_mean = zero;
    let mut k: usize = 0;
    assert(parts.take(0) =~= Seq::<T>::empty());
    while k < vector.len()
        invariant
            k <= vector@.len(),
            parts == shares(vector@, len),
            mean_defined(vector@, len, zero),
            mean_known::<T>() ==> partial_mean == summed(parts.take(k as int), zero),
        decreases vector@.len() - k,
    {
        proof {
            assert(parts.take(k + 1).drop_last() =~= parts.take(k as int));
            assert(parts[k as int] == vector@[k as int].div_spec(len));
        }
        let a = vector[k] / len;
        partial_mean = partial_mean + a;
        k += 1;
    }
    assert(parts.take(k as int) =~= parts);
    partial_mean
}

/// The share of the sample variance that the element `x` has, for the mean
/// `mean`: its squared distance from the mean, divided by `len_less_one`.
pub open spec fn var_term<T: Sub<Output = T> + Mul<Output = T> + Div<Output = T>>(
    x: T,
    mean: T,
    len_less_one: T,
) -> T {
    x.sub_spec(mean).mul_spec(x.sub_spec(mean)).div_spec(len_less_one)
}

/// The sample variance of `s`: the shares of its elements, added up from
/// `zero`.
pub open spec fn var_of<
    T: Add<Output = T> + Sub<Output = T> + Mul<Output = T> + Div<Output = T>,
>(s: Seq<T>, len: T, len_less_one: T, zero: T) -> T {
    summed(s.map_values(|x: T| var_term(x, mean_of(s, len, zero), len_less_one)), zero)
}

/// Sums, differences, products and quotients of the kind are known.
pub open spec fn arithmetic_known<
    T: Add<Output = T> + Sub<Output = T> + Mul<Output = T> + Div<Output = T>,
>() -> bool {
    T::obeys_add_spec() && T::obeys_sub_spec() && T::obeys_mul_spec() && T::obeys_div_spec()
}

/// Any two values of the kind can be added, subtracted, multiplied and
/// divided.
pub open spec fn arithmetic_total<
    T: Add<Output = T> + Sub<Output = T> + Mul<Output = T> + Div<Output = T>,
>() -> bool {
    &&& forall|x: T, y: T| #[trigger] x.add_req(y)
    &&& forall|x: T, y: T| #[trigger] x.sub_req(y)
    &&& forall|x: T, y: T| #[trigger] x.mul_req(y)
    &&& forall|x: T, y: T| #[trigger] x.div_req(y)
}

/// Every operation made on the way to the sample variance of `s` is allowed.
/// For a kind whose arithmetic is not known this asks that any two values can
/// be combined.
pub open spec fn var_defined<
    T: Add<Output = T> + Sub<Output = T> + Mul<Output = T> + Div<Output = T>,
>(s: Seq<T>, len: T, len_less_one: T, zero: T) -> bool {
    if arithmetic_known::<T>() {
        let mean = mean_of(s, len, zero);
        &&& mean_defined(s, len, zero)
        &&& forall|i: int|
            0 <= i < s.len() ==> {
                &&& (#[trigger] s[i]).sub_req(mean)
                &&& s[i].sub_spec(mean).mul_req(s[i].sub_spec(mean))
                &&& s[i].sub_spec(mean).mul_spec(s[i].sub_spec(mean)).div_req(len_less_one)
            }
        &&& sum_defined(s.map_values(|x: T| var_term(x, mean, len_less_one)), zero)
    } else {
        arithmetic_total::<T>()
    }
}

/// The sample variance of the elements, where `len` is their number and
/// `len_less_one` that number less one, as values of the kind. A single
/// element has the variance `nan`.
pub fn var<T: Copy + Add<Output = T> + Sub<Output = T> + Mul<Output = T> + Div<Output = T>>(
    vector: &[T],
    len: T,
    len_less_one: T,
    zero: T,
    nan: T,
) -> (out: T)
    requires
        vector@.len() > 0,
        vector@.len() > 1 ==> var_defined(vector@, len, len_less_one, zero),
    ensures
        vector@.len() == 1 ==> out == nan,
        vector@.len() > 1 && arithmetic_known::<T>() ==> out == var_of(
            vector@,
            len,
            len_less_one,
            zero,
        ),
{
    if vector.len() == 1 {
        return nan;
    }
    let mean = mean(vector, len, zero);
    let ghost terms = vector@.map_values(|x: T| var_term(x, mean, len_less_one));
    let mut partial_var = zero;
    let mut k: usize = 0;
    assert(terms.take(0) =~= Seq::<T>::empty());
    while k < vector.len()
        invariant
            k <= vector@.len(),
            var_defined(vector@, len, len_less_one, zero),
            arithmetic_known::<T>() ==> mean == mean_of(vector@, len, zero),
            terms == vector@.map_values(|x: T| var_term(x, mean, len_less_one)),
            arithmetic_known::<T>() ==> partial_var == summed(terms.take(k as int), zero),
        decreases vector@.len() - k,
    {
        proof {
            assert(terms.take(k + 1).drop_last() =~= terms.take(k as int));
            assert(terms[k as int] == var_term(vector@[k as int], mean, len_less_one));
        }
        let d = vector[k] - mean;
        let a = d * d;
        let a = a / len_less_one;
        partial_var = partial_var + a;
        k += 1;
    }
    assert(terms.take(k as int) =~= terms);
    partial_var
}

/// The scale that a comparison up to a tolerance goes by where none is
/// given: the mean of the absolute values of the first operand, or `one` where
/// that mean is not finite or below the tolerance.
pub fn auto_scale<T: Copy + PartialOrd>(mean_abs: T, finite: bool, tolerance: T, one: T) -> (scale:
    T)
    ensures
        comparison_known::<T>() ==> scale == (if !finite || less(mean_abs, tolerance) {
            one
        } else {
            mean_abs
        }),
        !finite ==> scale == one,
{
    let is_abs = !finite || mean_abs < tolerance;
    if is_abs {
        one
    } else {
        mean_abs
    }
}

/// The scales, each multiplied by `len`.
pub open spec fn scaled_by<T: Mul<Output = T>>(scale: Seq<T>, len: T) -> Seq<T> {
    zipped(scale, seq![len], |x: T, y: T| x.mul_spec(y))
}

/// The measure that is held against the tolerance: the distances, each
/// divided by its scale times `len`, added up from `zero`. The scales are
/// recycled over the distances.
pub open spec fn scaled_error<T: Add<Output = T> + Mul<Output = T> + Div<Output = T>>(
    distance: Seq<T>,
    scale: Seq<T>,
    len: T,
    zero: T,
) -> T {
    summed(zipped(distance, scaled_by(scale, len), |x: T, y: T| x.div_spec(y)), zero)
}

/// Sums, products and quotients of the kind are known, and so is its order.
pub open spec fn error_known<
    T: PartialOrd + Add<Output = T> + Mul<Output = T> + Div<Output = T>,
>() -> bool {
    &&& T::obeys_add_spec()
    &&& T::obeys_mul_spec()
    &&& T::obeys_div_spec()
    &&& comparison_known::<T>()
}

/// Every operation made on the way to the scaled error is allowed. For a
/// kind whose arithmetic is not known this asks that any two values can be
/// combined.
pub open spec fn error_defined<T: Add<Output = T> + Mul<Output = T> + Div<Output = T>>(
    distance: Seq<T>,
    scale: Seq<T>,
    len: T,
    zero: T,
) -> bool {
    if T::obeys_add_spec() && T::obeys_mul_spec() && T::obeys_div_spec() {
        &&& forall|i: int| 0 <= i < scale.len() ==> (#[trigger] scale[i]).mul_req(len)
        &&& all_pairs(distance, scaled_by(scale, len), |x: T, y: T| x.div_req(y))
        &&& sum_defined(
            zipped(distance, scaled_by(scale, len), |x: T, y: T| x.div_spec(y)),
            zero,
        )
    } else {
        &&& forall|x: T, y: T| #[trigger] x.add_req(y)
        &&& forall|x: T, y: T| #[trigger] x.mul_req(y)
        &&& forall|x: T, y: T| #[trigger] x.div_req(y)
    }
}

/// What a comparison up to a tolerance goes by: the tolerance, and the scale
/// of the distances, if one is given.
#[derive(Debug, Clone, Copy)]
pub struct AllEqParams<'a, T> {
    pub tolerance: T,
    pub scale: Option<&'a [T]>,
}

impl<'a, T> AllEqParams<'a, T> {
    /// The scale that is gone by: the given one, or else `auto` alone.
    pub open spec fn scale_or(self, auto: T) -> Seq<T> {
        match self.scale {
            Some(scale) => scale@,
            None => seq![auto],
        }
    }
}

/// No scale: the comparison goes by the automatic one.
pub fn all_eq_no_scale<'a, T>() -> (scale: Option<&'a [T]>)
    ensures
        scale.is_none(),
{
    None
}

/// `out` holds, for each pair of elements met on the cyclic walk over `a` and
/// `b`, a value that `distance` can return for it.
pub open spec fn distances<T, F: Fn(T, T) -> T>(
    a: Seq<T>,
    b: Seq<T>,
    distance: F,
    out: Seq<T>,
) -> bool {
    &&& out.len() == recycled_len(a.len(), b.len())
    &&& forall|i: int|
        0 <= i < out.len() ==> call_ensures(
            distance,
            (recycle(a, i), recycle(b, i)),
            #[trigger] out[i],
        )
}

/// Whether two sequences are equal up to a tolerance: the distances of their
/// elements, each divided by its scale times `len`, add up to less than the
/// tolerance.
///
/// The second sequence is recycled over the first, and the scale over the
/// distances. `distance` gives the distance of two elements, `len` is the
/// number of elements of the first sequence as a value of the kind, and `auto`
/// the scale to go by where `params` gives none.
pub fn all_eq<
    T: Copy + PartialOrd + Add<Output = T> + Mul<Output = T> + Div<Output = T>,
    F: Fn(T, T) -> T,
>(a: &[T], b: &[T], params: &AllEqParams<T>, distance: F, auto: T, len: T, zero: T) -> (equal:
    bool)
    requires
        recyclable(a@.len(), b@.len()),
        recyclable(recycled_len(a@.len(), b@.len()), params.scale_or(auto).len()),
        forall|i: int|
            0 <= i < recycled_len(a@.len(), b@.len()) ==> call_requires(
                distance,
                (#[trigger] recycle(a@, i), recycle(b@, i)),
            ),
        forall|d: Seq<T>| #[trigger]
            distances(a@, b@, distance, d) ==> error_defined(
                d,
                params.scale_or(auto),
                len,
                zero,
            ),
    ensures
        exists|d: Seq<T>|
            {
                &&& #[trigger] distances(a@, b@, distance, d)
                &&& error_known::<T>() ==> equal == less(
                    scaled_error(d, params.scale_or(auto), len, zero),
                    params.tolerance,
                )
            },
{
    let diffs = circle_zip(a, b, distance);
    assert(distances(a@, b@, distance, diffs@));
    let alone = [auto];
    let scale: &[T] = match params.scale {
        Some(scale) => scale,
        None => alone.as_slice(),
    };
    let by = [len];
    proof {
        assert(alone@ =~= seq![auto]);
        assert(scale@ == params.scale_or(auto));
        assert(by@ =~= seq![len]);
        assert forall|i: int| 0 <= i < recycled_len(scale@.len(), 1) implies (#[trigger] recycle(
            scale@,
            i,
        )).mul_req(recycle(by@, i)) by {
            lemma_small_mod(i as nat, scale@.len());
            assert(i % 1 == 0);
        }
    }
    let scaled = self::mul(scale, by.as_slice());
    let shares = self::div(diffs.as_slice(), scaled.as_slice());
    let diff = sum(shares.as_slice(), zero);
    diff < params.tolerance
}

} // verus!
