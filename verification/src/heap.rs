//! A binary heap of subscripts, ordered by a test that tells when a
//! parent and its child are in the wrong order.

use vstd::prelude::*;
use crate::order::{lemma_natural_order, natural_lt, totally_ordered};
use crate::rank::{swapped};
use crate::window::{lemma_swap_span};

verus! {

/// `wrong` orders the subscripts below `bound`: no subscript is in the
/// wrong order with itself, and both being in the wrong order and not being
/// so carry over from two pairs to the pair of their ends.
pub open spec fn orders(wrong: spec_fn(usize, usize) -> bool, bound: nat) -> bool {
    &&& forall|a: usize| a < bound ==> !#[trigger] wrong(a, a)
    &&& forall|a: usize, b: usize, c: usize|
        a < bound && b < bound && c < bound && #[trigger] wrong(a, b) && #[trigger] wrong(b, c)
            ==> wrong(a, c)
    &&& forall|a: usize, b: usize, c: usize|
        a < bound && b < bound && c < bound && !#[trigger] wrong(a, b) && !#[trigger] wrong(b, c)
            ==> !wrong(a, c)
}

/// The test `f` computes `wrong` on the subscripts below `bound`.
pub open spec fn settles<F: Fn(usize, usize) -> bool>(
    f: F,
    wrong: spec_fn(usize, usize) -> bool,
    bound: nat,
) -> bool {
    &&& orders(wrong, bound)
    &&& forall|a: usize, b: usize| a < bound && b < bound ==> #[trigger] call_requires(f, (a, b))
    &&& forall|a: usize, b: usize, r: bool|
        a < bound && b < bound && #[trigger] call_ensures(f, (a, b), r) ==> r == wrong(a, b)
}

/// `f` can be called on every two subscripts below `bound`.
pub open spec fn tests_below<F: Fn(usize, usize) -> bool>(f: F, bound: nat) -> bool {
    forall|a: usize, b: usize| a < bound && b < bound ==> #[trigger] call_requires(f, (a, b))
}

/// Every item of `index` is a subscript below `bound`.
pub open spec fn all_below(index: Seq<usize>, bound: nat) -> bool {
    forall|i: int| 0 <= i < index.len() ==> #[trigger] index[i] < bound
}

/// `index` is a heap: no item is in the wrong order with its parent.
pub open spec fn is_heap(index: Seq<usize>, wrong: spec_fn(usize, usize) -> bool) -> bool {
    forall|i: int| 1 <= i < index.len() ==> !wrong(index[(i - 1) / 2], #[trigger] index[i])
}

/// `index` is a heap but for the item at `hole`, which may be in the wrong
/// order with its children; the children of `hole` are in order with its
/// parent.
pub open spec fn heap_but_below(
    index: Seq<usize>,
    wrong: spec_fn(usize, usize) -> bool,
    hole: int,
) -> bool {
    &&& forall|i: int|
        1 <= i < index.len() && (i - 1) / 2 != hole ==> !wrong(
            index[(i - 1) / 2],
            #[trigger] index[i],
        )
    &&& hole > 0 ==> forall|i: int|
        1 <= i < index.len() && (i - 1) / 2 == hole ==> !wrong(
            index[(hole - 1) / 2],
            #[trigger] index[i],
        )
}

/// `index` is a heap but for the item at `hole`, which may be in the wrong
/// order with its parent; the children of `hole` are in order with its
/// parent.
pub open spec fn heap_but_above(
    index: Seq<usize>,
    wrong: spec_fn(usize, usize) -> bool,
    hole: int,
) -> bool {
    &&& forall|i: int|
        1 <= i < index.len() && i != hole ==> !wrong(index[(i - 1) / 2], #[trigger] index[i])
    &&& hole > 0 ==> forall|i: int|
        1 <= i < index.len() && (i - 1) / 2 == hole ==> !wrong(
            index[(hole - 1) / 2],
            #[trigger] index[i],
        )
}

/// In a heap the root is in order with every item.
pub proof fn lemma_heap_root(index: Seq<usize>, wrong: spec_fn(usize, usize) -> bool, bound: nat, i: int)
    requires
        orders(wrong, bound),
        all_below(index, bound),
        is_heap(index, wrong),
        0 <= i < index.len(),
    ensures
        !wrong(index[0], index[i]),
    decreases i,
{
    if i > 0 {
        lemma_heap_root(index, wrong, bound, (i - 1) / 2);
        assert(!wrong(index[(i - 1) / 2], index[i]));
    }
}

/// Moves the item at `start` down until it is in order with its children.
fn sift_down<F: Fn(usize, usize) -> bool>(
    index: &mut Vec<usize>,
    start: usize,
    is_wrong: &F,
    Ghost(bound): Ghost<nat>,
)
    requires
        tests_below(*is_wrong, bound),
        all_below(old(index)@, bound),
        start < old(index)@.len(),
    ensures
        final(index)@.len() == old(index)@.len(),
        final(index)@.to_multiset() == old(index)@.to_multiset(),
        all_below(final(index)@, bound),
        forall|wrong: spec_fn(usize, usize) -> bool| #[trigger]
            settles(*is_wrong, wrong, bound) && heap_but_below(old(index)@, wrong, start as int)
                ==> is_heap(final(index)@, wrong),
{
    let n = index.len();
    let mut i = start;
    while i < n / 2
        invariant
            n == index@.len(),
            n == old(index)@.len(),
            i < n,
            tests_below(*is_wrong, bound),
            all_below(index@, bound),
            index@.to_multiset() == old(index)@.to_multiset(),
            forall|wrong: spec_fn(usize, usize) -> bool| #[trigger]
                settles(*is_wrong, wrong, bound) && heap_but_below(
                    old(index)@,
                    wrong,
                    start as int,
                ) ==> heap_but_below(index@, wrong, i as int),
        decreases n - i,
    {
        let left_child = 2 * i + 1;
        let right_child = 2 * i + 2;
        let mut largest = i;
        let wl = is_wrong(index[largest], index[left_child]);
        if wl {
            largest = left_child;
        }
        let mut wr = false;
        if right_child < n {
            wr = is_wrong(index[largest], index[right_child]);
            if wr {
                largest = right_child;
            }
        }
        if largest == i {
            proof {
                assert forall|wrong: spec_fn(usize, usize) -> bool| #[trigger]
                    settles(*is_wrong, wrong, bound) && heap_but_below(
                        old(index)@,
                        wrong,
                        start as int,
                    ) implies is_heap(index@, wrong) by {
                    assert forall|j: int| 1 <= j < index@.len() implies !wrong(
                        index@[(j - 1) / 2],
                        #[trigger] index@[j],
                    ) by {
                        if (j - 1) / 2 == i {
                            assert(j == left_child || j == right_child);
                        }
                    }
                }
            }
            return ;
        }
        let ghost before = index@;
        let a = index[i];
        let b = index[largest];
        index[i] = b;
        index[largest] = a;
        proof {
            lemma_swap_span(before, i as int, largest as int, 0, n as int);
            assert(index@ =~= swapped(before, i, largest));
            assert(before.subrange(0, n as int) =~= before);
            assert(index@.subrange(0, n as int) =~= index@);
            assert forall|wrong: spec_fn(usize, usize) -> bool| #[trigger]
                settles(*is_wrong, wrong, bound) && heap_but_below(
                    old(index)@,
                    wrong,
                    start as int,
                ) implies heap_but_below(index@, wrong, largest as int) by {
                assert(heap_but_below(before, wrong, i as int));
                let l = before[left_child as int];
                assert forall|j: int|
                    1 <= j < index@.len() && (j - 1) / 2 != largest implies !wrong(
                    index@[(j - 1) / 2],
                    #[trigger] index@[j],
                ) by {
                    let p = (j - 1) / 2;
                    if p == i {
                        // the children of the place where the greater child went
                        assert(j == left_child || j == right_child);
                        if j == largest {
                            // the item that moved down, under the child that moved up
                            if wrong(b, a) {
                                if largest == right_child && wl {
                                    assert(wrong(a, l) && wrong(l, b));
                                    assert(wrong(a, b));
                                }
                                assert(wrong(a, b));
                                assert(wrong(a, a));
                            }
                        } else if j == left_child {
                            // the left child, under the right child that moved up
                            if wrong(b, l) {
                                if wl {
                                    assert(wrong(l, b));
                                    assert(wrong(b, b));
                                } else {
                                    assert(wrong(a, b));
                                    assert(!wrong(a, l));
                                    assert(wrong(a, l));
                                }
                            }
                        } else {
                            // the right child, under the left child that moved up
                            assert(!wr);
                        }
                    } else if j == i {
                        // the child that moved up, under the parent of the hole
                        assert(i > 0);
                        assert(!wrong(before[(i - 1) / 2], before[largest as int]));
                    } else {
                        assert(index@[j] == before[j] && index@[p] == before[p]);
                    }
                }
                assert forall|j: int|
                    1 <= j < index@.len() && (j - 1) / 2 == largest implies !wrong(
                    index@[(largest - 1) / 2],
                    #[trigger] index@[j],
                ) by {
                    // the children of the new hole were in order with the child that moved up
                    assert(index@[j] == before[j]);
                    assert(!wrong(before[largest as int], before[j]));
                }
            }
        }
        i = largest;
    }
    proof {
        assert forall|wrong: spec_fn(usize, usize) -> bool| #[trigger]
            settles(*is_wrong, wrong, bound) && heap_but_below(
                old(index)@,
                wrong,
                start as int,
            ) implies is_heap(index@, wrong) by {
            assert forall|j: int| 1 <= j < index@.len() implies !wrong(
                index@[(j - 1) / 2],
                #[trigger] index@[j],
            ) by {
                assert((j - 1) / 2 != i);
            }
        }
    }
}

/// Moves the item at `start` up until it is in order with its parent.
fn sift_up<F: Fn(usize, usize) -> bool>(
    index: &mut Vec<usize>,
    start: usize,
    is_wrong: &F,
    Ghost(bound): Ghost<nat>,
)
    requires
        tests_below(*is_wrong, bound),
        all_below(old(index)@, bound),
        start < old(index)@.len(),
    ensures
        final(index)@.len() == old(index)@.len(),
        final(index)@.to_multiset() == old(index)@.to_multiset(),
        all_below(final(index)@, bound),
        forall|wrong: spec_fn(usize, usize) -> bool| #[trigger]
            settles(*is_wrong, wrong, bound) && heap_but_above(old(index)@, wrong, start as int)
                ==> is_heap(final(index)@, wrong),
{
    let n = index.len();
    let mut i = start;
    while i > 0
        invariant
            n == index@.len(),
            n == old(index)@.len(),
            i < n,
            tests_below(*is_wrong, bound),
            all_below(index@, bound),
            index@.to_multiset() == old(index)@.to_multiset(),
            forall|wrong: spec_fn(usize, usize) -> bool| #[trigger]
                settles(*is_wrong, wrong, bound) && heap_but_above(
                    old(index)@,
                    wrong,
                    start as int,
                ) ==> heap_but_above(index@, wrong, i as int),
        decreases i,
    {
        let parent = (i - 1) / 2;
        let w = is_wrong(index[parent], index[i]);
        if !w {
            proof {
                assert forall|wrong: spec_fn(usize, usize) -> bool| #[trigger]
                    settles(*is_wrong, wrong, bound) && heap_but_above(
                        old(index)@,
                        wrong,
                        start as int,
                    ) implies is_heap(index@, wrong) by {
                    assert(heap_but_above(index@, wrong, i as int));
                }
            }
            return ;
        }
        let ghost before = index@;
        let a = index[parent];
        let b = index[i];
        index[parent] = b;
        index[i] = a;
        proof {
            lemma_swap_span(before, parent as int, i as int, 0, n as int);
            assert(index@ =~= swapped(before, parent, i));
            assert(before.subrange(0, n as int) =~= before);
            assert(index@.subrange(0, n as int) =~= index@);
            assert forall|wrong: spec_fn(usize, usize) -> bool| #[trigger]
                settles(*is_wrong, wrong, bound) && heap_but_above(
                    old(index)@,
                    wrong,
                    start as int,
                ) implies heap_but_above(index@, wrong, parent as int) by {
                assert(heap_but_above(before, wrong, i as int));
                assert(wrong(a, b));
                assert forall|j: int| 1 <= j < index@.len() && j != parent implies !wrong(
                    index@[(j - 1) / 2],
                    #[trigger] index@[j],
                ) by {
                    let p = (j - 1) / 2;
                    if j == i {
                        // the old parent, under the item that moved up
                        if wrong(b, a) {
                            assert(wrong(a, a));
                        }
                    } else if p == i {
                        // the children of the old hole, under the old parent
                        assert(!wrong(before[parent as int], before[j]));
                    } else if p == parent {
                        // the other child of the old parent, under the item that moved up
                        assert(!wrong(a, before[j]));
                        if wrong(b, before[j]) {
                            assert(wrong(a, before[j]));
                        }
                    } else {
                        assert(index@[j] == before[j] && index@[p] == before[p]);
                    }
                }
                if parent > 0 {
                    assert forall|j: int|
                        1 <= j < index@.len() && (j - 1) / 2 == parent implies !wrong(
                        index@[(parent - 1) / 2],
                        #[trigger] index@[j],
                    ) by {
                        let g = before[(parent - 1) / 2];
                        assert(!wrong(g, a));
                        if j == i {
                        } else {
                            assert(!wrong(a, before[j]));
                        }
                    }
                }
            }
        }
        i = parent;
    }
    proof {
        assert forall|wrong: spec_fn(usize, usize) -> bool| #[trigger]
            settles(*is_wrong, wrong, bound) && heap_but_above(
                old(index)@,
                wrong,
                start as int,
            ) implies is_heap(index@, wrong) by {
            assert(heap_but_above(index@, wrong, 0));
        }
    }
}

/// Puts `item` into the heap `index`.
fn insert<F: Fn(usize, usize) -> bool>(
    item: usize,
    index: &mut Vec<usize>,
    is_wrong: &F,
    Ghost(bound): Ghost<nat>,
)
    requires
        tests_below(*is_wrong, bound),
        all_below(old(index)@, bound),
        item < bound,
    ensures
        final(index)@.to_multiset() == old(index)@.to_multiset().insert(item),
        final(index)@.len() == old(index)@.len() + 1,
        all_below(final(index)@, bound),
        forall|wrong: spec_fn(usize, usize) -> bool| #[trigger]
            settles(*is_wrong, wrong, bound) && is_heap(old(index)@, wrong) ==> is_heap(
                final(index)@,
                wrong,
            ),
{
    index.push(item);
    proof {
        vstd::seq_lib::to_multiset_build(old(index)@, item);
        assert forall|wrong: spec_fn(usize, usize) -> bool| #[trigger]
            settles(*is_wrong, wrong, bound) && is_heap(old(index)@, wrong) implies heap_but_above(
            index@,
            wrong,
            index@.len() - 1,
        ) by {
            assert forall|i: int| 1 <= i < index@.len() && i != index@.len() - 1 implies !wrong(
                index@[(i - 1) / 2],
                #[trigger] index@[i],
            ) by {
                assert(index@[i] == old(index)@[i]);
            }
        }
    }
    let last = index.len() - 1;
    sift_up(index, last, is_wrong, Ghost(bound));
}

/// Takes the root out of the heap `index` and returns it; nothing where
/// the heap is empty. The last item takes the place of the root and moves
/// down to where it belongs.
fn get<F: Fn(usize, usize) -> bool>(
    index: &mut Vec<usize>,
    is_wrong: &F,
    Ghost(bound): Ghost<nat>,
) -> (r: Option<usize>)
    requires
        tests_below(*is_wrong, bound),
        all_below(old(index)@, bound),
    ensures
        old(index)@.len() == 0 ==> r is None && final(index)@ == old(index)@,
        old(index)@.len() > 0 ==> r == Some(old(index)@[0]) && final(index)@.len() + 1 == old(
            index,
        )@.len() && final(index)@.to_multiset().insert(old(index)@[0]) == old(index)@.to_multiset(),
        all_below(final(index)@, bound),
        forall|wrong: spec_fn(usize, usize) -> bool| #[trigger]
            settles(*is_wrong, wrong, bound) && is_heap(old(index)@, wrong) ==> is_heap(
                final(index)@,
                wrong,
            ),
{
    if index.len() == 0 {
        return None;
    }
    let root = index[0];
    let ghost whole = index@;
    let last = index.pop().unwrap();
    proof {
        broadcast use vstd::multiset::group_multiset_axioms;
        assert(whole =~= index@.push(last));
        vstd::seq_lib::to_multiset_build(index@, last);
    }
    if index.len() > 0 {
        let ghost popped = index@;
        index[0] = last;
        proof {
            broadcast use vstd::multiset::group_multiset_axioms;
            vstd::seq_lib::to_multiset_update(popped, 0, last);
            vstd::seq_lib::to_multiset_contains(popped, popped[0]);
            assert(index@.to_multiset().insert(root) =~= whole.to_multiset());
            assert forall|wrong: spec_fn(usize, usize) -> bool| #[trigger]
                settles(*is_wrong, wrong, bound) && is_heap(whole, wrong) implies heap_but_below(
                index@,
                wrong,
                0,
            ) by {
                assert forall|i: int| 1 <= i < index@.len() && (i - 1) / 2 != 0 implies !wrong(
                    index@[(i - 1) / 2],
                    #[trigger] index@[i],
                ) by {
                    assert(index@[i] == whole[i] && index@[(i - 1) / 2] == whole[(i - 1) / 2]);
                }
            }
        }
        let ghost filled = index@;
        sift_down(index, 0, is_wrong, Ghost(bound));
        proof {
            broadcast use vstd::multiset::group_multiset_axioms;
            assert(index@.to_multiset().insert(root) =~= whole.to_multiset());
        }
    }
    Some(root)
}

/// The heap of the subscripts `0..len`, by the test `is_wrong`.
pub fn heapify<F: Fn(usize, usize) -> bool>(len: usize, is_wrong: F) -> (idx: Vec<usize>)
    requires
        tests_below(is_wrong, len as nat),
    ensures
        idx@.to_multiset() == Seq::new(len as nat, |i: int| i as usize).to_multiset(),
        idx@.len() == len,
        forall|wrong: spec_fn(usize, usize) -> bool| #[trigger]
            settles(is_wrong, wrong, len as nat) ==> is_heap(idx@, wrong),
{
    let mut idx: Vec<usize> = Vec::new();
    let mut i: usize = 0;
    proof {
        assert(idx@ =~= Seq::new(0, |i: int| i as usize));
    }
    while i < len
        invariant
            i <= len,
            tests_below(is_wrong, len as nat),
            all_below(idx@, len as nat),
            idx@.len() == i,
            idx@.to_multiset() == Seq::new(i as nat, |j: int| j as usize).to_multiset(),
            forall|wrong: spec_fn(usize, usize) -> bool| #[trigger]
                settles(is_wrong, wrong, len as nat) ==> is_heap(idx@, wrong),
        decreases len - i,
    {
        proof {
            let upto = Seq::new(i as nat, |j: int| j as usize);
            assert(Seq::new((i + 1) as nat, |j: int| j as usize) =~= upto.push(i));
            vstd::seq_lib::to_multiset_build(upto, i);
        }
        insert(i, &mut idx, &is_wrong, Ghost(len as nat));
        i += 1;
    }
    idx
}

/// The order of the subscripts into `set` by which `heap_ksort` takes
/// them from the heap: a parent and its child are in the wrong order where
/// the item of the parent is below the item of the child, for `ascending`,
/// and where it is above it otherwise.
pub open spec fn wrong_in<T: PartialOrd>(set: Seq<T>, ascending: bool) -> spec_fn(usize, usize) -> bool {
    |a: usize, b: usize|
        a < set.len() && b < set.len() && if ascending {
            natural_lt::<T>()(set[a as int], set[b as int])
        } else {
            natural_lt::<T>()(set[b as int], set[a as int])
        }
}

/// Takes the first `k` subscripts from the heap `idx` of subscripts into
/// `set`, or all of them where there are fewer, each time the root: the
/// subscript that is in order with all others in the heap.
pub fn heap_ksort<T: PartialOrd>(set: &[T], idx: &mut Vec<usize>, k: usize, ascending: bool) -> (res:
    Vec<usize>)
    requires
        totally_ordered::<T>(),
        all_below(old(idx)@, set@.len()),
    ensures
        res@.len() == if k < old(idx)@.len() { k as nat } else { old(idx)@.len() },
        (res@ + final(idx)@).to_multiset() == old(idx)@.to_multiset(),
        all_below(final(idx)@, set@.len()),
        is_heap(old(idx)@, wrong_in(set@, ascending)) ==> {
            &&& is_heap(final(idx)@, wrong_in(set@, ascending))
            &&& forall|i: int, j: int|
                0 <= i < j < res@.len() ==> !wrong_in(set@, ascending)(
                    #[trigger] res@[i],
                    #[trigger] res@[j],
                )
            &&& forall|i: int, j: int|
                0 <= i < res@.len() && 0 <= j < final(idx)@.len() ==> !wrong_in(set@, ascending)(
                    #[trigger] res@[i],
                    #[trigger] final(idx)@[j],
                )
        },
{
    let ghost wrong = wrong_in(set@, ascending);
    let ghost bound = set@.len();
    let n = idx.len();
    let mut res: Vec<usize> = Vec::new();
    if n == 0 {
        proof {
            assert(res@ + idx@ =~= idx@);
        }
        return res;
    }
    // tells when the items at two subscripts are in the wrong order
    let is_wrong = |a: usize, b: usize| -> (r: bool)
        requires
            a < set@.len(),
            b < set@.len(),
        ensures
            r == wrong(a, b),
        {
            proof {
                lemma_natural_order(set@[a as int], set@[b as int]);
            }
            if ascending {
                set[a] < set[b]
            } else {
                set[a] > set[b]
            }
        };
    proof {
        assert(orders(wrong, bound)) by {
            let lt = natural_lt::<T>();
            assert forall|a: usize, b: usize, c: usize|
                a < bound && b < bound && c < bound && !#[trigger] wrong(a, b) && !#[trigger] wrong(
                    b,
                    c,
                ) implies !wrong(a, c) by {
                if wrong(a, c) {
                    if ascending {
                        assert(lt(set@[a as int], set@[b as int]) || lt(
                            set@[b as int],
                            set@[c as int],
                        ));
                    } else {
                        assert(lt(set@[c as int], set@[b as int]) || lt(
                            set@[b as int],
                            set@[a as int],
                        ));
                    }
                }
            }
        }
        assert(settles(is_wrong, wrong, bound));
        assert(res@ + idx@ =~= idx@);
    }
    let mut taken: usize = 0;
    while taken < k && idx.len() > 0
        invariant
            taken <= k,
            taken == res@.len(),
            res@.len() + idx@.len() == n,
            n == old(idx)@.len(),
            bound == set@.len(),
            wrong == wrong_in(set@, ascending),
            tests_below(is_wrong, bound),
            settles(is_wrong, wrong, bound),
            all_below(idx@, bound),
            all_below(res@, bound),
            (res@ + idx@).to_multiset() == old(idx)@.to_multiset(),
            is_heap(old(idx)@, wrong) ==> {
                &&& is_heap(idx@, wrong)
                &&& forall|i: int, j: int|
                    0 <= i < j < res@.len() ==> !wrong(#[trigger] res@[i], #[trigger] res@[j])
                &&& forall|i: int, j: int|
                    0 <= i < res@.len() && 0 <= j < idx@.len() ==> !wrong(
                        #[trigger] res@[i],
                        #[trigger] idx@[j],
                    )
            },
        decreases k - taken,
    {
        let ghost heap0 = idx@;
        let ghost res0 = res@;
        let r = get(idx, &is_wrong, Ghost(bound)).unwrap();
        res.push(r);
        proof {
            broadcast use vstd::multiset::group_multiset_axioms;
            vstd::seq_lib::lemma_multiset_commutative(res0, heap0);
            vstd::seq_lib::lemma_multiset_commutative(res@, idx@);
            vstd::seq_lib::to_multiset_build(res0, r);
            assert((res@ + idx@).to_multiset() =~= (res0 + heap0).to_multiset());
            if is_heap(old(idx)@, wrong) {
                // what is left in the heap was in the heap, under the root
                assert forall|j: int| 0 <= j < idx@.len() implies !wrong(
                    r,
                    #[trigger] idx@[j],
                ) && heap0.contains(idx@[j]) by {
                    vstd::seq_lib::to_multiset_contains(idx@, idx@[j]);
                    vstd::seq_lib::to_multiset_contains(heap0, idx@[j]);
                    assert(idx@.contains(idx@[j]));
                    assert(heap0.to_multiset().count(idx@[j]) > 0);
                    let t = choose|t: int| 0 <= t < heap0.len() && heap0[t] == idx@[j];
                    lemma_heap_root(heap0, wrong, bound, t);
                }
                assert forall|i: int, j: int| 0 <= i < j < res@.len() implies !wrong(
                    #[trigger] res@[i],
                    #[trigger] res@[j],
                ) by {
                    if j == res0.len() {
                        assert(res@[i] == res0[i]);
                        assert(!wrong(res0[i], heap0[0]));
                    } else {
                        assert(res@[i] == res0[i] && res@[j] == res0[j]);
                    }
                }
                assert forall|i: int, j: int|
                    0 <= i < res@.len() && 0 <= j < idx@.len() implies !wrong(
                    #[trigger] res@[i],
                    #[trigger] idx@[j],
                ) by {
                    if i < res0.len() {
                        assert(res@[i] == res0[i]);
                        let t = choose|t: int| 0 <= t < heap0.len() && heap0[t] == idx@[j];
                        assert(!wrong(res0[i], heap0[t]));
                    }
                }
            }
        }
        taken += 1;
    }
    res
}

} // verus!
