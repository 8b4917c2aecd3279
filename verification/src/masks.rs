//! Masks: for each row whether it is selected, one mask for each criterion.
use vstd::prelude::*;
use crate::arith::sum_of;
use crate::arrow_text::cell_eq;
use crate::number::Number;
use crate::parallel::{count_rows, filter_rows, map_rows};

verus! {

/// Some masks, as contracts speak of them.
pub open spec fn mask_views(masks: Seq<Vec<bool>>) -> Seq<Seq<bool>> {
    Seq::new(masks.len(), |m: int| masks[m]@)
}

/// Whether a row is selected in every mask.
pub open spec fn in_all(masks: Seq<Seq<bool>>, i: int) -> bool {
    forall|m: int| 0 <= m < masks.len() ==> (#[trigger] masks[m])[i]
}

/// Which of `n` rows are selected in every mask. Without masks, none is.
pub open spec fn common(masks: Seq<Seq<bool>>, n: nat) -> Seq<bool> {
    Seq::new(n, |i: int| masks.len() > 0 && in_all(masks, i))
}

/// Some texts, as contracts speak of them.
pub open spec fn text_views(texts: Seq<Option<String>>) -> Seq<Option<Seq<char>>> {
    Seq::new(
        texts.len(),
        |i: int|
            match texts[i] {
                Some(s) => Some(s@),
                None => None,
            },
    )
}

/// The numbers of a column in which what is not a number counts as blank.
pub open spec fn non_nan(values: Seq<Number>) -> Seq<Option<Number>> {
    Seq::new(
        values.len(),
        |i: int|
            if values[i].nan() {
                None
            } else {
                Some(values[i])
            },
    )
}

/// Whether each cell equals a text but for case, or with `negate` whether it does not. A missing
/// text and a blank one equal none.
pub fn native_text_eq_mask(v: &Vec<Option<String>>, needle: &str, negate: bool) -> (r: Vec<bool>)
    ensures
        r@ == crate::arrow_text::equal_mask(text_views(v@), needle@, negate),
{
    let n = v.len();
    let mask = map_rows(
        n,
        |i: usize| -> (b: bool)
            requires
                i < v@.len(),
            ensures
                b == crate::arrow_text::equal_cell(text_views(v@)[i as int], needle@, negate)
            {
                match &v[i] {
                    Some(hay) => cell_eq(hay.as_str(), needle) != negate,
                    None => negate,
                }
            },
    );
    assert(mask@ =~= crate::arrow_text::equal_mask(text_views(v@), needle@, negate));
    mask
}

/// Whether a row is selected in every mask.
fn in_all_masks(masks: &Vec<Vec<bool>>, i: usize) -> (r: bool)
    requires
        forall|m: int| 0 <= m < masks@.len() ==> i < (#[trigger] masks@[m])@.len(),
    ensures
        r == in_all(mask_views(masks@), i as int),
{
    let mut m: usize = 0;
    while m < masks.len()
        invariant
            m <= masks@.len(),
            forall|k: int| 0 <= k < masks@.len() ==> i < (#[trigger] masks@[k])@.len(),
            forall|k: int| 0 <= k < m ==> (#[trigger] mask_views(masks@)[k])[i as int],
        decreases masks@.len() - m,
    {
        if !masks[m][i] {
            assert(!mask_views(masks@)[m as int][i as int]);
            return false;
        }
        m = m + 1;
    }
    true
}

/// Flags that answer the same question for each row are the same.
proof fn lemma_common<F: Fn(usize) -> bool>(keep: F, wanted: Seq<bool>, flags: Seq<bool>)
    requires
        wanted.len() == flags.len(),
        wanted.len() <= usize::MAX,
        crate::parallel::answers(keep, flags),
        forall|i: usize, b: bool|
            i < wanted.len() && #[trigger] call_ensures(keep, (i,), b) ==> b == wanted[i as int],
    ensures
        flags == wanted,
{
    assert forall|i: int| 0 <= i < flags.len() implies #[trigger] flags[i] == wanted[i] by {
        let k = i as usize;
        assert(call_ensures(keep, (k,), flags[i]));
        assert(wanted[k as int] == wanted[i]);
    }
    assert(flags =~= wanted);
}

/// How many rows are selected in every mask. A single mask counts to its end.
pub fn count_all_masks_true(masks: &Vec<Vec<bool>>, n: usize) -> (r: usize)
    requires
        masks@.len() > 1 ==> forall|m: int|
            0 <= m < masks@.len() ==> n <= (#[trigger] masks@[m])@.len(),
    ensures
        masks@.len() == 0 ==> r == 0,
        masks@.len() == 1 ==> r == crate::selection::rows(masks@[0]@).len(),
        masks@.len() > 1 ==> r == crate::selection::rows(
            common(mask_views(masks@), n as nat),
        ).len(),
{
    if masks.len() == 0 {
        return 0;
    }
    if masks.len() == 1 {
        let only = &masks[0];
        let keep = |i: usize| -> (b: bool)
            requires
                i < only@.len(),
            ensures
                b == only@[i as int]
            {
                only[i]
            };
        let r = count_rows(only.len(), keep);
        proof {
            let rows = choose|rows: Seq<usize>| #[trigger]
                crate::parallel::keeps(keep, only@.len() as usize, rows) && r == rows.len();
            let flags = choose|flags: Seq<bool>|
                flags.len() == only@.len() && #[trigger] crate::parallel::answers(keep, flags)
                    && rows == crate::selection::rows(flags);
            lemma_common(keep, only@, flags);
        }
        return r;
    }
    let ghost wanted = common(mask_views(masks@), n as nat);
    let keep = |i: usize| -> (b: bool)
        requires
            i < n,
            forall|m: int| 0 <= m < masks@.len() ==> n <= (#[trigger] masks@[m])@.len(),
        ensures
            b == in_all(mask_views(masks@), i as int)
        {
            in_all_masks(masks, i)
        };
    let r = count_rows(n, keep);
    proof {
        let rows = choose|rows: Seq<usize>| #[trigger]
            crate::parallel::keeps(keep, n, rows) && r == rows.len();
        let flags = choose|flags: Seq<bool>|
            flags.len() == n && #[trigger] crate::parallel::answers(keep, flags) && rows
                == crate::selection::rows(flags);
        lemma_common(keep, wanted, flags);
    }
    r
}

/// The rows that are selected in every mask.
pub(crate) fn common_rows(masks: &Vec<Vec<bool>>, n: usize) -> (r: Vec<usize>)
    requires
        forall|m: int| 0 <= m < masks@.len() ==> n <= (#[trigger] masks@[m])@.len(),
    ensures
        r@ == crate::selection::rows(common(mask_views(masks@), n as nat)),
{
    let ghost wanted = common(mask_views(masks@), n as nat);
    let some = masks.len() > 0;
    let keep = |i: usize| -> (b: bool)
        requires
            i < n,
            forall|m: int| 0 <= m < masks@.len() ==> n <= (#[trigger] masks@[m])@.len(),
        ensures
            b == (some && in_all(mask_views(masks@), i as int))
        {
            some && in_all_masks(masks, i)
        };
    let r = filter_rows(n, keep);
    proof {
        let flags = choose|flags: Seq<bool>|
            flags.len() == n && #[trigger] crate::parallel::answers(keep, flags) && r@
                == crate::selection::rows(flags);
        lemma_common(keep, wanted, flags);
    }
    r
}

/// The numbers of a column in the rows that are selected in every mask.
fn numbers_where(values: &Vec<Number>, masks: &Vec<Vec<bool>>, n: usize) -> (r: Vec<Number>)
    requires
        forall|m: int| 0 <= m < masks@.len() ==> n <= (#[trigger] masks@[m])@.len(),
        forall|i: int|
            0 <= i < n && #[trigger] common(mask_views(masks@), n as nat)[i] ==> i < values@.len(),
    ensures
        r@ == crate::selection::picked(
            crate::selection::rows(common(mask_views(masks@), n as nat)),
            non_nan(values@),
        ),
{
    let rows = common_rows(masks, n);
    let ghost column = non_nan(values@);
    let ghost all = Seq::new(rows@.len(), |k: int| column[rows@[k] as int]);
    proof {
        crate::selection::law_rows_are_the_hits(common(mask_views(masks@), n as nat));
    }
    let mut r: Vec<Number> = Vec::new();
    let mut k: usize = 0;
    while k < rows.len()
        invariant
            k <= rows@.len() == all.len(),
            column == non_nan(values@),
            all == Seq::new(rows@.len(), |k: int| column[rows@[k] as int]),
            forall|j: int| 0 <= j < rows@.len() ==> #[trigger] rows@[j] < values@.len(),
            r@ == crate::selection::present(all.take(k as int)),
        decreases rows@.len() - k,
    {
        proof {
            crate::selection::lemma_present_step(all, k as int);
        }
        let v = values[rows[k]];
        if !v.is_nan() {
            r.push(v);
        }
        k = k + 1;
    }
    assert(all.take(k as int) =~= all);
    r
}

/// The sum of the numbers of a column in the rows that are selected in every mask.
pub fn sum_where_all_masks_true(values: &Vec<Number>, masks: &Vec<Vec<bool>>, n: usize) -> (r: Number)
    requires
        forall|m: int| 0 <= m < masks@.len() ==> n <= (#[trigger] masks@[m])@.len(),
        forall|i: int|
            0 <= i < n && #[trigger] common(mask_views(masks@), n as nat)[i] ==> i < values@.len(),
    ensures
        r == crate::arith::total(
            crate::selection::picked(
                crate::selection::rows(common(mask_views(masks@), n as nat)),
                non_nan(values@),
            ),
        ),
        values@.len() == n ==> r == crate::arith::total(
            crate::selection_laws::chosen(
                crate::selection_laws::selected_by_all(mask_views(masks@), n as nat),
                crate::selection_laws::numbers_only(values@),
            ),
        ),
{
    proof {
        if values@.len() == n {
            crate::selection_laws::lemma_masked_numbers(mask_views(masks@), values@);
        }
    }
    sum_of(&numbers_where(values, masks, n))
}

/// The sum of the numbers of a column in the rows that are selected in every mask, and how many they
/// are.
pub fn sum_and_count_where_all_masks_true(
    values: &Vec<Number>,
    masks: &Vec<Vec<bool>>,
    n: usize,
) -> (r: (Number, usize))
    requires
        forall|m: int| 0 <= m < masks@.len() ==> n <= (#[trigger] masks@[m])@.len(),
        forall|i: int|
            0 <= i < n && #[trigger] common(mask_views(masks@), n as nat)[i] ==> i < values@.len(),
    ensures
        r.0 == crate::arith::total(
            crate::selection::picked(
                crate::selection::rows(common(mask_views(masks@), n as nat)),
                non_nan(values@),
            ),
        ),
        r.1 == crate::selection::picked(
            crate::selection::rows(common(mask_views(masks@), n as nat)),
            non_nan(values@),
        ).len(),
        values@.len() == n ==> r.1 == crate::selection_laws::chosen(
            crate::selection_laws::selected_by_all(mask_views(masks@), n as nat),
            crate::selection_laws::numbers_only(values@),
        ).len(),
{
    proof {
        if values@.len() == n {
            crate::selection_laws::lemma_masked_numbers(mask_views(masks@), values@);
        }
    }
    let addends = numbers_where(values, masks, n);
    (sum_of(&addends), addends.len())
}

}
