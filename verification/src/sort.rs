//! A stable sort.
use vstd::prelude::*;

verus! {

/// Whether an order holds between any two elements one way or the other, and is transitive.
pub open spec fn total<T>(items: Seq<T>, le: spec_fn(T, T) -> bool) -> bool {
    &&& forall|i: int, j: int|
        #![trigger items[i], items[j]]
        0 <= i < items.len() && 0 <= j < items.len() ==> le(items[i], items[j]) || le(
            items[j],
            items[i],
        )
    &&& forall|i: int, j: int, k: int|
        #![trigger items[i], items[j], items[k]]
        0 <= i < items.len() && 0 <= j < items.len() && 0 <= k < items.len() && le(
            items[i],
            items[j],
        ) && le(items[j], items[k]) ==> le(items[i], items[k])
}

/// Whether the element at `i` comes before that at `j`: by the order, and of equal ones the one that
/// stands first.
pub open spec fn comes_before<T>(
    items: Seq<T>,
    le: spec_fn(T, T) -> bool,
    i: usize,
    j: usize,
) -> bool {
    le(items[i as int], items[j as int]) && (le(items[j as int], items[i as int]) ==> i < j)
}

/// Whether places are in the order of the elements at them.
pub open spec fn ordered<T>(
    items: Seq<T>,
    le: spec_fn(T, T) -> bool,
    order: Seq<usize>,
) -> bool {
    forall|a: int, b: int|
        0 <= a < b < order.len() ==> comes_before(items, le, #[trigger] order[a], #[trigger] order[b])
}

/// Whether places are those from `lo` up to `hi`, each once.
pub open spec fn places(order: Seq<usize>, lo: int, hi: int) -> bool {
    &&& order.len() == hi - lo
    &&& forall|a: int| 0 <= a < order.len() ==> lo <= #[trigger] order[a] < hi
    &&& forall|x: usize| lo <= x < hi ==> #[trigger] order.contains(x)
}

/// Whether places are all those of the elements, in the order of the elements, and equal elements in
/// the order in which they stand.
pub open spec fn sorting<T>(items: Seq<T>, le: spec_fn(T, T) -> bool, order: Seq<usize>) -> bool {
    ordered(items, le, order) && places(order, 0, items.len() as int)
}

/// What comes before something comes before all that this comes before.
proof fn lemma_transitive<T>(
    items: Seq<T>,
    le: spec_fn(T, T) -> bool,
    i: usize,
    j: usize,
    k: usize,
)
    requires
        total(items, le),
        i < items.len(),
        j < items.len(),
        k < items.len(),
        comes_before(items, le, i, j),
        comes_before(items, le, j, k),
    ensures
        comes_before(items, le, i, k),
{
    let (x, y, z) = (items[i as int], items[j as int], items[k as int]);
    assert(le(x, z));
    if le(z, x) {
        assert(le(z, y));
        assert(le(y, x));
    }
}

/// Whether `f` decides the order.
pub open spec fn decides<T, F: Fn(&T, &T) -> bool>(
    items: Seq<T>,
    le: spec_fn(T, T) -> bool,
    f: F,
) -> bool {
    &&& forall|i: int, j: int|
        0 <= i < items.len() && 0 <= j < items.len() ==> call_requires(
            f,
            (&#[trigger] items[i], &#[trigger] items[j]),
        )
    &&& forall|i: int, j: int, b: bool|
        0 <= i < items.len() && 0 <= j < items.len() && #[trigger] call_ensures(
            f,
            (&items[i], &items[j]),
            b,
        ) ==> b == le(items[i], items[j])
}

/// Merges two parts that are in order.
fn merge<T, F: Fn(&T, &T) -> bool>(
    items: &Vec<T>,
    f: &F,
    left: &Vec<usize>,
    right: &Vec<usize>,
    Ghost(le): Ghost<spec_fn(T, T) -> bool>,
    Ghost(lo): Ghost<int>,
    Ghost(mid): Ghost<int>,
    Ghost(hi): Ghost<int>,
) -> (r: Vec<usize>)
    requires
        total(items@, le),
        decides(items@, le, *f),
        0 <= lo <= mid <= hi <= items@.len(),
        ordered(items@, le, left@),
        ordered(items@, le, right@),
        places(left@, lo, mid),
        places(right@, mid, hi),
    ensures
        ordered(items@, le, r@),
        places(r@, lo, hi),
{
    let mut r: Vec<usize> = Vec::new();
    let mut a: usize = 0;
    let mut b: usize = 0;
    while a < left.len() || b < right.len()
        invariant
            total(items@, le),
            decides(items@, le, *f),
            0 <= lo <= mid <= hi <= items@.len(),
            ordered(items@, le, left@),
            ordered(items@, le, right@),
            places(left@, lo, mid),
            places(right@, mid, hi),
            a <= left@.len(),
            b <= right@.len(),
            r@.len() == a + b,
            ordered(items@, le, r@),
            forall|k: int| 0 <= k < r@.len() ==> lo <= #[trigger] r@[k] < hi,
            forall|k: int| 0 <= k < a ==> r@.contains(#[trigger] left@[k]),
            forall|k: int| 0 <= k < b ==> r@.contains(#[trigger] right@[k]),
            forall|j: int, k: int|
                0 <= j < r@.len() && a <= k < left@.len() ==> comes_before(
                    items@,
                    le,
                    #[trigger] r@[j],
                    #[trigger] left@[k],
                ),
            forall|j: int, k: int|
                0 <= j < r@.len() && b <= k < right@.len() ==> comes_before(
                    items@,
                    le,
                    #[trigger] r@[j],
                    #[trigger] right@[k],
                ),
        decreases left@.len() + right@.len() - a - b,
    {
        let ghost before = r@;
        let from_left = if a >= left.len() {
            false
        } else if b >= right.len() {
            true
        } else {
            f(&items[left[a]], &items[right[b]])
        };
        if from_left {
            let x = left[a];
            proof {
                assert forall|k: int| b <= k < right@.len() implies comes_before(
                    items@,
                    le,
                    x,
                    #[trigger] right@[k],
                ) by {
                    assert(comes_before(items@, le, x, right@[b as int]));
                    if k > b {
                        lemma_transitive(items@, le, x, right@[b as int], right@[k]);
                    }
                }
            }
            r.push(x);
            a = a + 1;
        } else {
            let x = right[b];
            proof {
                assert forall|k: int| a <= k < left@.len() implies comes_before(
                    items@,
                    le,
                    x,
                    #[trigger] left@[k],
                ) by {
                    assert(!le(items@[left@[a as int] as int], items@[x as int]));
                    assert(comes_before(items@, le, x, left@[a as int]));
                    if k > a {
                        lemma_transitive(items@, le, x, left@[a as int], left@[k]);
                    }
                }
            }
            r.push(x);
            b = b + 1;
        }
        proof {
            assert(r@.drop_last() =~= before);
            assert forall|k: int| 0 <= k < a implies r@.contains(#[trigger] left@[k]) by {
                lemma_still_there(before, r@, left@[k]);
            }
            assert forall|k: int| 0 <= k < b implies r@.contains(#[trigger] right@[k]) by {
                lemma_still_there(before, r@, right@[k]);
            }
        }
    }
    assert forall|x: usize| lo <= x < hi implies #[trigger] r@.contains(x) by {
        if x < mid {
            assert(left@.contains(x));
            let k = left@.index_of(x);
            assert(r@.contains(left@[k]));
        } else {
            assert(right@.contains(x));
            let k = right@.index_of(x);
            assert(r@.contains(right@[k]));
        }
    }
    r
}

/// What was pushed is there, and what was there still is.
proof fn lemma_still_there(before: Seq<usize>, after: Seq<usize>, x: usize)
    requires
        after.len() == before.len() + 1,
        after.drop_last() == before,
        before.contains(x) || after.last() == x,
    ensures
        after.contains(x),
{
    if before.contains(x) {
        let k = before.index_of(x);
        assert(after.drop_last()[k] == x);
        assert(after[k] == x);
    } else {
        assert(after[after.len() - 1] == x);
    }
}

/// Sorts the places from `lo` up to `hi`.
fn sort_part<T, F: Fn(&T, &T) -> bool>(
    items: &Vec<T>,
    f: &F,
    lo: usize,
    hi: usize,
    Ghost(le): Ghost<spec_fn(T, T) -> bool>,
) -> (r: Vec<usize>)
    requires
        total(items@, le),
        decides(items@, le, *f),
        lo <= hi <= items@.len(),
    ensures
        ordered(items@, le, r@),
        places(r@, lo as int, hi as int),
    decreases hi - lo,
{
    let mut r: Vec<usize> = Vec::new();
    if hi - lo <= 1 {
        if lo < hi {
            r.push(lo);
            assert(r@[0] == lo);
        }
        return r;
    }
    let mid = lo + (hi - lo) / 2;
    let left = sort_part(items, f, lo, mid, Ghost(le));
    let right = sort_part(items, f, mid, hi, Ghost(le));
    merge(
        items,
        f,
        &left,
        &right,
        Ghost(le),
        Ghost(lo as int),
        Ghost(mid as int),
        Ghost(hi as int),
    )
}

/// The places of the elements in the order that `f` decides.
pub(crate) fn sort_by<T, F: Fn(&T, &T) -> bool>(
    items: &Vec<T>,
    f: F,
    Ghost(le): Ghost<spec_fn(T, T) -> bool>,
) -> (r: Vec<usize>)
    requires
        total(items@, le),
        decides(items@, le, f),
    ensures
        sorting(items@, le, r@),
{
    sort_part(items, &f, 0, items.len(), Ghost(le))
}

/// There is one order of the elements in which equal ones keep their places.
pub proof fn law_sorting_is_unique<T>(
    items: Seq<T>,
    le: spec_fn(T, T) -> bool,
    a: Seq<usize>,
    b: Seq<usize>,
)
    requires
        total(items, le),
        items.len() <= usize::MAX,
        sorting(items, le, a),
        sorting(items, le, b),
    ensures
        a == b,
{
    lemma_agree(items, le, a, b, items.len() as int);
    assert(a =~= b);
}

/// Two such orders agree on their first `n` places.
proof fn lemma_agree<T>(
    items: Seq<T>,
    le: spec_fn(T, T) -> bool,
    a: Seq<usize>,
    b: Seq<usize>,
    n: int,
)
    requires
        total(items, le),
        sorting(items, le, a),
        sorting(items, le, b),
        0 <= n <= items.len(),
    ensures
        forall|k: int| 0 <= k < n ==> a[k] == b[k],
    decreases n,
{
    if n > 0 {
        lemma_agree(items, le, a, b, n - 1);
        let k = n - 1;
        if a[k] != b[k] {
            assert(b.contains(a[k]));
            assert(a.contains(b[k]));
            let i = b.index_of(a[k]);
            let j = a.index_of(b[k]);
            // Neither stands among the first places, on which the two agree.
            if i < k {
                assert(a[i] == a[k]);
                assert(comes_before(items, le, a[i], a[k]));
            } else if j < k {
                assert(b[j] == b[k]);
                assert(comes_before(items, le, b[j], b[k]));
            } else {
                assert(comes_before(items, le, b[k], b[i]));
                assert(comes_before(items, le, a[k], a[j]));
            }
        }
    }
}

}
