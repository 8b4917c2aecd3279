//! Tables that find the rows whose number is near a given one.
//!
//! Nearness is not transitive, so that numbers cannot be put in classes. Their rows are kept in the
//! order of the numbers instead, in which those near a number stand together.
use vstd::prelude::*;
use crate::number::Number;
use crate::sort::sort_by;

verus! {

/// Whether each row has a number that is near the one looked for.
pub open spec fn near_flags(column: Seq<Option<Number>>, v: Number) -> Seq<bool> {
    Seq::new(column.len(), |i: int| near_at(column, v, i))
}

/// Whether a row has a number that is near the one looked for.
pub open spec fn near_at(column: Seq<Option<Number>>, v: Number, i: int) -> bool {
    match column[i] {
        Some(x) => v.near(x),
        None => false,
    }
}

/// The rows of a column with numbers, in the order of the numbers.
pub(crate) struct NumberIndex {
    numbers: Vec<Number>,
    rows: Vec<usize>,
}

/// A number further away on the same side is not near either.
proof fn lemma_further(v: Number, a: Number, b: Number)
    requires
        v.finite(),
        !a.nan(),
        !b.nan(),
        !v.near(b),
        a.place() <= b.place() < v.place() || v.place() < b.place() <= a.place(),
    ensures
        !v.near(a),
{
    if a.finite() && b.finite() {
        crate::number::law_order_is_by_value(a, b);
        crate::number::law_order_is_by_value(a, v);
        crate::number::law_order_is_by_value(b, v);
    }
}

/// A finite number is near those with the same place.
proof fn lemma_same_place(v: Number, a: Number)
    requires
        v.finite(),
        a.place() == v.place(),
    ensures
        v.near(a),
{
    crate::number::law_order_is_by_value(a, v);
    crate::number::lemma_tolerance_is_positive();
}

/// Rows in ascending order that are all the hits are the rows that are hit.
pub(crate) proof fn lemma_ascending_rows(s: Seq<usize>, hits: Seq<bool>)
    requires
        hits.len() <= usize::MAX,
        forall|j: int, k: int| 0 <= j < k < s.len() ==> #[trigger] s[j] < #[trigger] s[k],
        forall|k: int| 0 <= k < s.len() ==> #[trigger] s[k] < hits.len() && hits[s[k] as int],
        forall|i: int| 0 <= i < hits.len() && #[trigger] hits[i] ==> s.contains(i as usize),
    ensures
        s == crate::selection::rows(hits),
    decreases hits.len(),
{
    if hits.len() == 0 {
        if s.len() > 0 {
            assert(s[0] < hits.len());
        }
        assert(s =~= Seq::empty());
    } else {
        let n = hits.len() - 1;
        let before = hits.drop_last();
        if hits[n] {
            assert(s.contains(n as usize));
            let k = s.index_of(n as usize);
            if k < s.len() - 1 {
                assert(s[k] < s[s.len() - 1]);
            }
            let t = s.drop_last();
            assert forall|j: int| 0 <= j < t.len() implies #[trigger] t[j] < before.len()
                && before[t[j] as int] by {
                assert(s[j] < s[s.len() - 1]);
            }
            assert forall|i: int| 0 <= i < before.len() && #[trigger] before[i] implies t.contains(
                i as usize,
            ) by {
                assert(hits[i]);
                let j = s.index_of(i as usize);
                assert(t[j] == i as usize);
            }
            lemma_ascending_rows(t, before);
            assert(s =~= t.push(n as usize));
        } else {
            assert forall|j: int| 0 <= j < s.len() implies #[trigger] s[j] < before.len()
                && before[s[j] as int] by {
                assert(hits[s[j] as int]);
            }
            assert forall|i: int| 0 <= i < before.len() && #[trigger] before[i] implies s.contains(
                i as usize,
            ) by {
                assert(hits[i]);
            }
            lemma_ascending_rows(s, before);
        }
    }
}

impl NumberIndex {
    /// Whether this is the index of a column.
    pub(crate) closed spec fn indexes(&self, column: Seq<Option<Number>>) -> bool {
        let n = self.rows@.len();
        &&& self.numbers@.len() == n
        &&& forall|k: int|
            0 <= k < n ==> #[trigger] self.rows@[k] < column.len() && column[self.rows@[k] as int]
                == Some(self.numbers@[k]) && !self.numbers@[k].nan()
        &&& forall|j: int, k: int|
            0 <= j < k < n ==> (#[trigger] self.numbers@[j]).place() <= (
            #[trigger] self.numbers@[k]).place()
        &&& forall|j: int, k: int|
            0 <= j < k < n ==> #[trigger] self.rows@[j] != #[trigger] self.rows@[k]
        &&& forall|i: int|
            0 <= i < column.len() && (#[trigger] column[i] matches Some(x) && !x.nan())
                ==> self.rows@.contains(i as usize)
    }

    /// The index of a column.
    pub(crate) fn build(column: &Vec<Option<Number>>) -> (r: NumberIndex)
        ensures
            r.indexes(column@),
    {
        let mut all: Vec<Number> = Vec::new();
        let mut places: Vec<usize> = Vec::new();
        let mut i: usize = 0;
        while i < column.len()
            invariant
                i <= column@.len(),
                all@.len() == places@.len(),
                forall|k: int|
                    0 <= k < places@.len() ==> #[trigger] places@[k] < i
                        && column@[places@[k] as int] == Some(all@[k]) && !all@[k].nan(),
                forall|j: int, k: int|
                    0 <= j < k < places@.len() ==> #[trigger] places@[j] < #[trigger] places@[k],
                forall|j: int|
                    0 <= j < i && (#[trigger] column@[j] matches Some(x) && !x.nan())
                        ==> places@.contains(j as usize),
            decreases column@.len() - i,
        {
            let ghost before = places@;
            if let Some(x) = column[i] {
                if !x.is_nan() {
                    all.push(x);
                    places.push(i);
                }
            }
            proof {
                assert forall|j: int|
                    0 <= j < i + 1 && (#[trigger] column@[j] matches Some(x)
                        && !x.nan()) implies places@.contains(j as usize) by {
                    if j < i {
                        let k = before.index_of(j as usize);
                        assert(places@[k] == j as usize);
                    } else {
                        assert(places@[places@.len() - 1] == i);
                    }
                }
            }
            i = i + 1;
        }
        proof {
            assert forall|k: int| 0 <= k < all@.len() implies !(#[trigger] all@[k]).nan() by {
                assert(places@[k] < i);
            }
        }
        let ghost le = crate::summary::by_value();
        let order = sort_by(
            &all,
            |a: &Number, b: &Number| -> (r: bool)
                ensures
                    r == a.le(*b)
                {
                    a.at_most(*b)
                },
            Ghost(le),
        );
        let mut numbers: Vec<Number> = Vec::new();
        let mut rows: Vec<usize> = Vec::new();
        let mut k: usize = 0;
        while k < order.len()
            invariant
                k <= order@.len() == all@.len() == places@.len(),
                forall|j: int| 0 <= j < order@.len() ==> 0 <= #[trigger] order@[j] < all@.len(),
                numbers@.len() == k,
                rows@.len() == k,
                forall|j: int| 0 <= j < k ==> #[trigger] numbers@[j] == all@[order@[j] as int],
                forall|j: int| 0 <= j < k ==> #[trigger] rows@[j] == places@[order@[j] as int],
            decreases order@.len() - k,
        {
            numbers.push(all[order[k]]);
            rows.push(places[order[k]]);
            k = k + 1;
        }
        proof {
            assert forall|j: int, m: int| 0 <= j < m < k implies (#[trigger] numbers@[j]).place()
                <= (#[trigger] numbers@[m]).place() by {
                assert(crate::sort::comes_before(all@, le, order@[j], order@[m]));
            }
            assert forall|j: int, m: int|
                0 <= j < m < k implies #[trigger] rows@[j] != #[trigger] rows@[m] by {
                assert(crate::sort::comes_before(all@, le, order@[j], order@[m]));
                assert(order@[j] != order@[m]);
                let (a, b) = (order@[j] as int, order@[m] as int);
                assert(places@[a] != places@[b]);
            }
            assert forall|i: int|
                0 <= i < column@.len() && (#[trigger] column@[i] matches Some(x)
                    && !x.nan()) implies rows@.contains(i as usize) by {
                let p = places@.index_of(i as usize);
                assert(order@.contains(p as usize));
                let j = order@.index_of(p as usize);
                assert(rows@[j] == i as usize);
            }
        }
        NumberIndex { numbers, rows }
    }

    /// From where to where the numbers near a finite one stand.
    fn window(&self, v: Number, Ghost(column): Ghost<Seq<Option<Number>>>) -> (r: (usize, usize))
        requires
            v.finite(),
            self.indexes(column),
        ensures
            r.0 <= self.rows@.len(),
            r.1 <= self.rows@.len(),
            forall|k: int|
                0 <= k < self.rows@.len() ==> (r.0 <= k < r.1 <==> v.near(
                    #[trigger] self.numbers@[k],
                )),
    {
        let n = self.numbers.len();
        let mut lo: usize = 0;
        let mut end: usize = n;
        while lo < end
            invariant
                lo <= end <= n == self.numbers@.len(),
                v.finite(),
                self.indexes(column),
                forall|k: int|
                    0 <= k < lo ==> (#[trigger] self.numbers@[k]).place() < v.place() && !v.near(
                        self.numbers@[k],
                    ),
                forall|k: int|
                    end <= k < n ==> !((#[trigger] self.numbers@[k]).place() < v.place()
                        && !v.near(self.numbers@[k])),
            decreases end - lo,
        {
            let mid = lo + (end - lo) / 2;
            let x = self.numbers[mid];
            assert(self.rows@[mid as int] < column.len());
            if x.below(v) && !v.is_near(x) {
                proof {
                    assert forall|k: int| 0 <= k < mid + 1 implies (
                    #[trigger] self.numbers@[k]).place() < v.place() && !v.near(
                        self.numbers@[k],
                    ) by {
                        if k < mid {
                            assert(self.numbers@[k].place() <= x.place());
                            assert(self.rows@[k] < column.len());
                            lemma_further(v, self.numbers@[k], x);
                        }
                    }
                }
                lo = mid + 1;
            } else {
                proof {
                    assert forall|k: int| mid <= k < n implies !((
                    #[trigger] self.numbers@[k]).place() < v.place() && !v.near(
                        self.numbers@[k],
                    )) by {
                        if k > mid {
                            assert(x.place() <= self.numbers@[k].place());
                            assert(self.rows@[k] < column.len());
                            if self.numbers@[k].place() < v.place() && !v.near(self.numbers@[k]) {
                                lemma_further(v, x, self.numbers@[k]);
                            }
                        }
                    }
                }
                end = mid;
            }
        }
        let mut hi: usize = lo;
        let mut end: usize = n;
        while hi < end
            invariant
                lo <= hi <= end <= n == self.numbers@.len(),
                v.finite(),
                self.indexes(column),
                forall|k: int|
                    lo <= k < n ==> !((#[trigger] self.numbers@[k]).place() < v.place()
                        && !v.near(self.numbers@[k])),
                forall|k: int| lo <= k < hi ==> v.near(#[trigger] self.numbers@[k]),
                forall|k: int| end <= k < n ==> !v.near(#[trigger] self.numbers@[k]),
            decreases end - hi,
        {
            let mid = hi + (end - hi) / 2;
            let x = self.numbers[mid];
            assert(self.rows@[mid as int] < column.len());
            if v.is_near(x) {
                proof {
                    assert forall|k: int| lo <= k < mid + 1 implies v.near(
                        #[trigger] self.numbers@[k],
                    ) by {
                        if k < mid {
                            assert(self.numbers@[k].place() <= x.place());
                            assert(self.rows@[k] < column.len());
                            if !v.near(self.numbers@[k]) {
                                if self.numbers@[k].place() == v.place() {
                                    lemma_same_place(v, self.numbers@[k]);
                                } else {
                                    lemma_further(v, x, self.numbers@[k]);
                                }
                            }
                        }
                    }
                }
                hi = mid + 1;
            } else {
                proof {
                    if x.place() == v.place() {
                        lemma_same_place(v, x);
                    }
                    assert forall|k: int| mid <= k < n implies !v.near(
                        #[trigger] self.numbers@[k],
                    ) by {
                        if k > mid {
                            assert(x.place() <= self.numbers@[k].place());
                            assert(self.rows@[k] < column.len());
                            lemma_further(v, self.numbers@[k], x);
                        }
                    }
                }
                end = mid;
            }
        }
        (lo, hi)
    }

    /// What the window holds is what is near.
    proof fn lemma_window(&self, v: Number, column: Seq<Option<Number>>, lo: int, hi: int)
        requires
            self.indexes(column),
            column.len() <= usize::MAX,
            forall|k: int|
                0 <= k < self.rows@.len() ==> (lo <= k < hi <==> v.near(
                    #[trigger] self.numbers@[k],
                )),
        ensures
            forall|k: int|
                0 <= k < self.rows@.len() && lo <= k < hi ==> near_at(
                    column,
                    v,
                    #[trigger] self.rows@[k] as int,
                ),
            forall|i: int|
                0 <= i < column.len() && #[trigger] near_at(column, v, i) ==> exists|k: int|
                    lo <= k < hi && 0 <= k < self.rows@.len() && #[trigger] self.rows@[k] == i,
    {
        assert forall|k: int|
            0 <= k < self.rows@.len() && lo <= k < hi implies near_at(
                column,
                v,
                #[trigger] self.rows@[k] as int,
            ) by {
            assert(v.near(self.numbers@[k]));
        }
        assert forall|i: int| 0 <= i < column.len() && #[trigger] near_at(column, v, i) implies exists|k: int|
            lo <= k < hi && 0 <= k < self.rows@.len() && #[trigger] self.rows@[k] == i by {
            assert(column[i] is Some);
            assert(self.rows@.contains(i as usize));
            let k = self.rows@.index_of(i as usize);
            assert(self.rows@[k] == i);
            assert(v.near(self.numbers@[k]));
        }
    }

    /// The rows whose number is near the one looked for.
    pub(crate) fn near_rows(
        &self,
        v: Number,
        Ghost(column): Ghost<Seq<Option<Number>>>,
    ) -> (r: Vec<usize>)
        requires
            self.indexes(column),
            column.len() <= usize::MAX,
        ensures
            r@ == crate::selection::rows(near_flags(column, v)),
    {
        let ghost hits = near_flags(column, v);
        if v.magnitude_bits() >= crate::number::INFINITY {
            proof {
                lemma_ascending_rows(Seq::empty(), hits);
            }
            return Vec::new();
        }
        let (lo, hi) = self.window(v, Ghost(column));
        proof {
            self.lemma_window(v, column, lo as int, hi as int);
        }
        let mut found: Vec<usize> = Vec::new();
        let mut k: usize = lo;
        while k < hi
            invariant
                hi <= self.rows@.len(),
                lo < hi ==> lo <= k <= hi,
                lo >= hi ==> k == lo,
                found@.len() == k - lo,
                forall|j: int| 0 <= j < found@.len() ==> #[trigger] found@[j] == self.rows@[lo + j],
            decreases hi - k,
        {
            found.push(self.rows[k]);
            k = k + 1;
        }
        let ghost le = |a: usize, b: usize| a <= b;
        let order = sort_by(
            &found,
            |a: &usize, b: &usize| -> (r: bool)
                ensures
                    r == (*a <= *b)
                {
                    *a <= *b
                },
            Ghost(le),
        );
        let mut r: Vec<usize> = Vec::new();
        let mut j: usize = 0;
        while j < order.len()
            invariant
                j <= order@.len() == found@.len(),
                forall|m: int| 0 <= m < order@.len() ==> 0 <= #[trigger] order@[m] < found@.len(),
                r@.len() == j,
                forall|m: int| 0 <= m < j ==> #[trigger] r@[m] == found@[order@[m] as int],
            decreases order@.len() - j,
        {
            r.push(found[order[j]]);
            j = j + 1;
        }
        proof {
            assert forall|a: int, b: int|
                0 <= a < b < r@.len() implies #[trigger] r@[a] < #[trigger] r@[b] by {
                assert(crate::sort::comes_before(found@, le, order@[a], order@[b]));
                let (x, y) = (order@[a] as int, order@[b] as int);
                assert(x != y);
                assert(found@[x] == self.rows@[lo + x] && found@[y] == self.rows@[lo + y]);
                if x < y {
                    assert(self.rows@[lo + x] != self.rows@[lo + y]);
                } else {
                    assert(self.rows@[lo + y] != self.rows@[lo + x]);
                }
            }
            assert forall|m: int| 0 <= m < r@.len() implies #[trigger] r@[m] < hits.len()
                && hits[r@[m] as int] by {
                let x = order@[m] as int;
                assert(found@[x] == self.rows@[lo + x]);
                assert(near_at(column, v, self.rows@[lo + x] as int));
            }
            assert forall|i: int| 0 <= i < hits.len() && #[trigger] hits[i] implies r@.contains(
                i as usize,
            ) by {
                assert(near_at(column, v, i));
                let q = choose|q: int|
                    lo <= q < hi && 0 <= q < self.rows@.len() && #[trigger] self.rows@[q] == i;
                assert(found@[q - lo] == i);
                assert(order@.contains((q - lo) as usize));
                let m = order@.index_of((q - lo) as usize);
                assert(r@[m] == i as usize);
            }
            lemma_ascending_rows(r@, hits);
        }
        r
    }

    /// The first row whose number is near the one looked for.
    pub(crate) fn first_near(
        &self,
        v: Number,
        Ghost(column): Ghost<Seq<Option<Number>>>,
    ) -> (r: Option<usize>)
        requires
            self.indexes(column),
            column.len() <= usize::MAX,
        ensures
            r == crate::lookup::first_hit(near_flags(column, v)),
    {
        let ghost hits = near_flags(column, v);
        proof {
            crate::lookup::law_first_hit(hits);
        }
        if v.magnitude_bits() >= crate::number::INFINITY {
            return None;
        }
        let (lo, hi) = self.window(v, Ghost(column));
        proof {
            self.lemma_window(v, column, lo as int, hi as int);
        }
        if lo >= hi {
            proof {
                if let Some(i) = crate::lookup::first_hit(hits) {
                    assert(near_at(column, v, i as int));
                }
            }
            return None;
        }
        let mut least = self.rows[lo];
        let ghost mut at = lo as int;
        let mut k: usize = lo + 1;
        while k < hi
            invariant
                lo < k <= hi <= self.rows@.len(),
                lo <= at < k,
                least == self.rows@[at],
                forall|j: int| lo <= j < k ==> least <= #[trigger] self.rows@[j],
            decreases hi - k,
        {
            if self.rows[k] < least {
                least = self.rows[k];
                proof {
                    at = k as int;
                }
            }
            k = k + 1;
        }
        proof {
            assert(near_at(column, v, self.rows@[at] as int));
            assert(least < column.len());
            assert(hits[least as int]);
            if let Some(i) = crate::lookup::first_hit(hits) {
                assert(near_at(column, v, i as int));
                let q = choose|q: int|
                    lo <= q < hi && 0 <= q < self.rows@.len() && #[trigger] self.rows@[q] == i;
                assert(least <= self.rows@[q]);
                if least < i {
                    assert(!hits[least as int]);
                }
            }
        }
        Some(least)
    }
}

}
