//! What holds of the categories of a column of texts, and of merging their spellings.
use vstd::prelude::*;
use crate::categories::{Category, TextReport, TextSummary};
use crate::column::FastColumn;
use crate::number::Number;

verus! {

/// How often a text stands among others.
pub open spec fn occurrences(texts: Seq<Seq<char>>, t: Seq<char>) -> nat {
    texts.filter(|u: Seq<char>| u == t).len()
}

/// The count of a text is how often it stands among the texts.
pub proof fn law_count_is_of_occurrences(texts: Seq<Seq<char>>, t: Seq<char>)
    ensures
        crate::tally::count_of(texts, t) == occurrences(texts, t),
    decreases texts.len(),
{
    reveal(Seq::filter);
    if texts.len() > 0 {
        law_count_is_of_occurrences(texts.drop_last(), t);
    }
}

/// Whether the first place of one text is before that of another.
pub open spec fn seen_before(texts: Seq<Seq<char>>, a: Seq<char>, b: Seq<char>) -> bool {
    exists|i: int|
        0 <= i < texts.len() && #[trigger] texts[i] == a && forall|j: int|
            0 <= j <= i ==> #[trigger] texts[j] != b
}

/// The different texts are in the order in which they are first seen.
pub proof fn law_distinct_in_order(texts: Seq<Seq<char>>)
    ensures
        forall|i: int, j: int|
            #![trigger crate::tally::distinct(texts)[i], crate::tally::distinct(texts)[j]]
            0 <= i < j < crate::tally::distinct(texts).len() ==> seen_before(
                texts,
                crate::tally::distinct(texts)[i],
                crate::tally::distinct(texts)[j],
            ),
    decreases texts.len(),
{
    if texts.len() > 0 {
        let before = texts.drop_last();
        let d = crate::tally::distinct(before);
        let all = crate::tally::distinct(texts);
        law_distinct_in_order(before);
        crate::tally::law_distinct(before);
        assert forall|i: int, j: int|
            #![trigger all[i], all[j]]
            0 <= i < j < all.len() implies seen_before(texts, all[i], all[j]) by {
            assert(d[i] == all[i]);
            assert(d.contains(d[i]));
            if j < d.len() {
                assert(d[j] == all[j]);
                let k = choose|k: int|
                    0 <= k < before.len() && #[trigger] before[k] == d[i] && forall|l: int|
                        0 <= l <= k ==> #[trigger] before[l] != d[j];
                assert(texts[k] == all[i]);
                assert forall|l: int| 0 <= l <= k implies #[trigger] texts[l] != all[j] by {
                    assert(before[l] == texts[l]);
                }
            } else {
                let k = before.index_of(d[i]);
                assert(texts[k] == all[i]);
                assert forall|l: int| 0 <= l <= k implies #[trigger] texts[l] != all[j] by {
                    assert(before[l] == texts[l]);
                    assert(before.contains(before[l]));
                }
            }
        }
    }
}

/// Of two different texts, one is seen first.
proof fn lemma_seen_once(texts: Seq<Seq<char>>, a: Seq<char>, b: Seq<char>)
    requires
        a != b,
        seen_before(texts, a, b),
    ensures
        !seen_before(texts, b, a),
{
    let i = choose|i: int|
        0 <= i < texts.len() && #[trigger] texts[i] == a && forall|j: int|
            0 <= j <= i ==> #[trigger] texts[j] != b;
    if seen_before(texts, b, a) {
        let k = choose|k: int|
            0 <= k < texts.len() && #[trigger] texts[k] == b && forall|j: int|
                0 <= j <= k ==> #[trigger] texts[j] != a;
        if i <= k {
            assert(texts[i] != a);
        } else {
            assert(texts[k] != b);
        }
    }
}

/// Whether two texts are spellings of the same category: without the white space at the ends they
/// differ in letter case alone.
pub open spec fn same_category(a: Seq<char>, b: Seq<char>) -> bool {
    crate::text::same_text(crate::text::trimmed(a), crate::text::trimmed(b))
}

/// The normal form of texts is the same exactly where they are spellings of the same category.
pub proof fn law_normal(a: Seq<char>, b: Seq<char>)
    ensures
        crate::categories::normal(a) == crate::categories::normal(b) <==> same_category(a, b),
{
}

/// Whether a spelling is the one of its category that stays: no other is more frequent, and of those
/// as frequent it is seen first.
pub open spec fn stays(texts: Seq<Seq<char>>, b: Seq<char>) -> bool {
    texts.contains(b) && forall|u: Seq<char>|
        #![trigger texts.contains(u)]
        texts.contains(u) && u != b && same_category(u, b) ==> {
            ||| occurrences(texts, u) < occurrences(texts, b)
            ||| occurrences(texts, u) == occurrences(texts, b) && seen_before(texts, b, u)
        }
}

/// The merges of some texts.
pub open spec fn merges_of(texts: Seq<Seq<char>>) -> Seq<(Seq<char>, Seq<char>)> {
    crate::categories::merges(
        texts,
        crate::tally::distinct(texts),
        crate::tally::distinct(texts).len() as int,
    )
}

/// The mapping is complete and makes one spelling of each category: every spelling but the one that
/// stays is replaced by that one, exactly once; a spelling that stays is not replaced; and nothing
/// else is replaced.
pub proof fn law_merge_mapping(texts: Seq<Seq<char>>)
    ensures
        forall|a: Seq<char>|
            #![trigger texts.contains(a)]
            texts.contains(a) && !stays(texts, a) ==> exists|k: int|
                0 <= k < merges_of(texts).len() && (#[trigger] merges_of(texts)[k]).0 == a,
        forall|k: int|
            0 <= k < merges_of(texts).len() ==> {
                let m = #[trigger] merges_of(texts)[k];
                &&& texts.contains(m.0)
                &&& !stays(texts, m.0)
                &&& stays(texts, m.1)
                &&& same_category(m.0, m.1)
            },
        forall|j: int, k: int|
            #![trigger merges_of(texts)[j], merges_of(texts)[k]]
            0 <= j < k < merges_of(texts).len() ==> merges_of(texts)[j].0 != merges_of(texts)[k].0,
{
    let names = crate::tally::distinct(texts);
    let n = names.len() as int;
    let all = merges_of(texts);
    crate::tally::law_distinct(texts);
    assert forall|a: Seq<char>|
        #![trigger texts.contains(a)]
        texts.contains(a) && !stays(texts, a) implies exists|k: int|
        0 <= k < all.len() && (#[trigger] all[k]).0 == a by {
        assert(names.contains(a));
        let i = names.index_of(a);
        crate::categories::law_canonical(texts, names, crate::categories::normal(a));
        let b = crate::categories::canonical(texts, names, crate::categories::normal(a))->0;
        lemma_canonical_stays(texts, a, b);
        let k = lemma_merged(texts, names, n, i, b);
        assert(all[k].0 == a);
    }
    assert forall|k: int| 0 <= k < all.len() implies {
        let m = #[trigger] all[k];
        &&& texts.contains(m.0)
        &&& !stays(texts, m.0)
        &&& stays(texts, m.1)
        &&& same_category(m.0, m.1)
    } by {
        lemma_merge(texts, k);
    }
    assert forall|j: int, k: int|
        #![trigger all[j], all[k]]
        0 <= j < k < all.len() implies all[j].0 != all[k].0 by {
        lemma_merged_once(texts, names, n, j, k);
    }
}

/// A merge replaces a spelling that does not stay by the one that does.
proof fn lemma_merge(texts: Seq<Seq<char>>, k: int)
    requires
        0 <= k < merges_of(texts).len(),
    ensures
        texts.contains(merges_of(texts)[k].0),
        !stays(texts, merges_of(texts)[k].0),
        stays(texts, merges_of(texts)[k].1),
        same_category(merges_of(texts)[k].0, merges_of(texts)[k].1),
{
    let names = crate::tally::distinct(texts);
    crate::tally::law_distinct(texts);
    let i = lemma_made(texts, names, names.len() as int, k);
    let b = crate::categories::canonical(texts, names, crate::categories::normal(names[i]))->0;
    assert(names.contains(names[i]));
    lemma_canonical_stays(texts, names[i], b);
    if stays(texts, names[i]) {
        lemma_one_stays(texts, names[i], names[b]);
        assert(names[i] == names[b]);
    }
}

/// Whether a merge is that of the name at `i`.
spec fn made_by(
    texts: Seq<Seq<char>>,
    names: Seq<Seq<char>>,
    m: (Seq<char>, Seq<char>),
    i: int,
) -> bool {
    0 <= i < names.len() && (crate::categories::canonical(
        texts,
        names,
        crate::categories::normal(names[i]),
    ) matches Some(b) && b != i && m == (names[i], names[b]))
}

/// Each merge is that of one of the names.
proof fn lemma_made(texts: Seq<Seq<char>>, names: Seq<Seq<char>>, n: int, k: int) -> (i: int)
    requires
        0 <= n <= names.len(),
        0 <= k < crate::categories::merges(texts, names, n).len(),
    ensures
        i < n,
        made_by(texts, names, crate::categories::merges(texts, names, n)[k], i),
    decreases n,
{
    let before = crate::categories::merges(texts, names, n - 1);
    if k < before.len() {
        lemma_made(texts, names, n - 1, k)
    } else {
        n - 1
    }
}

/// Each name that is not the one of its group has its merge.
proof fn lemma_merged(texts: Seq<Seq<char>>, names: Seq<Seq<char>>, n: int, i: int, b: int) -> (k:
    int)
    requires
        0 <= i < n <= names.len(),
        crate::categories::canonical(texts, names, crate::categories::normal(names[i])) == Some(b),
        b != i,
    ensures
        0 <= k < crate::categories::merges(texts, names, n).len(),
        crate::categories::merges(texts, names, n)[k] == (names[i], names[b]),
    decreases n,
{
    let before = crate::categories::merges(texts, names, n - 1);
    if i < n - 1 {
        lemma_merged(texts, names, n - 1, i, b)
    } else {
        before.len() as int
    }
}

/// No name has two merges.
proof fn lemma_merged_once(texts: Seq<Seq<char>>, names: Seq<Seq<char>>, n: int, j: int, k: int)
    requires
        0 <= n <= names.len(),
        names.no_duplicates(),
        0 <= j < k < crate::categories::merges(texts, names, n).len(),
    ensures
        crate::categories::merges(texts, names, n)[j].0 != crate::categories::merges(
            texts,
            names,
            n,
        )[k].0,
    decreases n,
{
    let before = crate::categories::merges(texts, names, n - 1);
    if k < before.len() {
        lemma_merged_once(texts, names, n - 1, j, k);
    } else {
        let i = lemma_made(texts, names, n - 1, j);
        assert(names[i] != names[n - 1]);
    }
}

/// The spelling found for a category stays.
proof fn lemma_canonical_stays(texts: Seq<Seq<char>>, a: Seq<char>, b: int)
    requires
        crate::categories::canonical(
            texts,
            crate::tally::distinct(texts),
            crate::categories::normal(a),
        ) == Some(b),
    ensures
        0 <= b < crate::tally::distinct(texts).len(),
        stays(texts, crate::tally::distinct(texts)[b]),
        same_category(a, crate::tally::distinct(texts)[b]),
{
    let names = crate::tally::distinct(texts);
    crate::tally::law_distinct(texts);
    crate::categories::law_canonical(texts, names, crate::categories::normal(a));
    assert(names.contains(names[b]));
    law_distinct_in_order(texts);
    law_count_is_of_occurrences(texts, names[b]);
    assert forall|u: Seq<char>|
        #![trigger texts.contains(u)]
        texts.contains(u) && u != names[b] && same_category(u, names[b]) implies {
        ||| occurrences(texts, u) < occurrences(texts, names[b])
        ||| occurrences(texts, u) == occurrences(texts, names[b]) && seen_before(texts, names[b], u)
    } by {
        assert(names.contains(u));
        let i = names.index_of(u);
        law_count_is_of_occurrences(texts, u);
        assert(crate::categories::normal(names[i]) == crate::categories::normal(a));
        if b < i {
            assert(seen_before(texts, names[b], names[i]));
        }
    }
}

/// One spelling of a category stays.
proof fn lemma_one_stays(texts: Seq<Seq<char>>, a: Seq<char>, b: Seq<char>)
    requires
        stays(texts, a),
        stays(texts, b),
        same_category(a, b),
    ensures
        a == b,
{
    if a != b {
        assert(texts.contains(a) && texts.contains(b));
        if seen_before(texts, a, b) {
            lemma_seen_once(texts, a, b);
        }
        assert(false);
    }
}

/// The spellings of a column are its texts that are not blank, in the order of the rows.
pub proof fn law_spellings_of_a_column(column: FastColumn)
    ensures
        crate::categories::column_spellings(column) == Seq::new(
            column.size(),
            |i: int| column.text(i)->0,
        ).filter(|t: Seq<char>| !crate::text::blank(t)),
        crate::categories::all_text(column) <==> forall|i: int|
            0 <= i < column.size() ==> #[trigger] column.text(i) is Some,
{
    law_filled(crate::categories::column_texts(column));
}

/// The filled texts are those that are not blank.
pub proof fn law_filled(texts: Seq<Seq<char>>)
    ensures
        crate::categories::filled(texts) == texts.filter(|t: Seq<char>| !crate::text::blank(t)),
    decreases texts.len(),
{
    reveal(Seq::filter);
    if texts.len() > 0 {
        law_filled(texts.drop_last());
    }
}

/// Whether a category comes before another: it is more frequent, or as frequent and first in the
/// order of texts.
pub open spec fn outranks(texts: Seq<Seq<char>>, a: Seq<char>, b: Seq<char>) -> bool {
    ||| occurrences(texts, a) > occurrences(texts, b)
    ||| occurrences(texts, a) == occurrences(texts, b) && crate::text::text_before(a, b)
}

/// Whether a category is a text with how often it occurs.
pub open spec fn counted(texts: Seq<Seq<char>>, c: Category) -> bool {
    texts.contains(c.name@) && c.count == occurrences(texts, c.name@)
}

/// Whether a text is the name of one of some categories.
pub open spec fn listed(categories: Seq<Category>, t: Seq<char>) -> bool {
    exists|k: int| 0 <= k < categories.len() && (#[trigger] categories[k]).name@ == t
}

/// The most frequent categories of texts are texts with their counts, from the most frequent down, of
/// equally frequent ones in the order of texts, and all others come after them. The least frequent
/// ones are listed the other way round. As many are listed as asked for, as far as there are so many,
/// and of the least frequent ones at most five.
pub proof fn law_extreme_categories(
    s: TextSummary,
    texts: Seq<Seq<char>>,
    top_n: usize,
    max_unique: usize,
    max_ratio: Number,
)
    requires
        s.describes(texts, top_n, max_unique, max_ratio),
        s.is_categorical,
    ensures
        ({
            let top = s.top_categories@;
            let bottom = s.bottom_categories@;
            &&& top.len() == (if top_n <= s.unique {
                top_n
            } else {
                s.unique
            })
            &&& bottom.len() == (if top_n <= 5 && top_n <= s.unique {
                top_n
            } else if s.unique <= 5 {
                s.unique
            } else {
                5
            })
            &&& forall|k: int| 0 <= k < top.len() ==> counted(texts, #[trigger] top[k])
            &&& forall|k: int| 0 <= k < bottom.len() ==> counted(texts, #[trigger] bottom[k])
            &&& forall|j: int, k: int|
                0 <= j < k < top.len() ==> outranks(
                    texts,
                    (#[trigger] top[j]).name@,
                    (#[trigger] top[k]).name@,
                )
            &&& forall|j: int, k: int|
                0 <= j < k < bottom.len() ==> outranks(
                    texts,
                    (#[trigger] bottom[k]).name@,
                    (#[trigger] bottom[j]).name@,
                )
            &&& forall|t: Seq<char>, k: int|
                #![trigger texts.contains(t), top[k]]
                texts.contains(t) && !listed(top, t) && 0 <= k < top.len() ==> outranks(
                    texts,
                    top[k].name@,
                    t,
                )
            &&& forall|t: Seq<char>, k: int|
                #![trigger texts.contains(t), bottom[k]]
                texts.contains(t) && !listed(bottom, t) && 0 <= k < bottom.len() ==> outranks(
                    texts,
                    t,
                    bottom[k].name@,
                )
        }),
{
    let names = crate::tally::distinct(texts);
    let es = crate::categories::entries(texts);
    let n = es.len() as int;
    let top = s.top_categories@;
    let bottom = s.bottom_categories@;
    let by_rank = crate::categories::by_rank();
    let order = choose|order: Seq<usize>| #[trigger]
        crate::sort::sorting(es, by_rank, order) && crate::categories::category_views(top)
            =~= Seq::new(
            crate::categories::lesser(top_n as int, es.len() as int) as nat,
            |k: int| es[order[k] as int],
        ) && crate::categories::category_views(bottom) =~= Seq::new(
            crate::categories::lesser(
                crate::categories::lesser(
                    top_n as int,
                    crate::categories::BOTTOM_CAP as int,
                ),
                es.len() as int,
            ) as nat,
            |k: int| es[order[es.len() - 1 - k] as int],
        );
    crate::tally::law_distinct(texts);
    assert(crate::categories::category_views(top).len() == top.len());
    assert(crate::categories::category_views(bottom).len() == bottom.len());
    assert forall|i: int| 0 <= i < n implies texts.contains((#[trigger] es[i]).0) && es[i].1
        == occurrences(texts, es[i].0) && es[i].0 == names[i] by {
        assert(names.contains(names[i]));
        law_count_is_of_occurrences(texts, names[i]);
    }
    assert forall|a: int, b: int| 0 <= a < b < n implies outranks(
        texts,
        (#[trigger] es[order[a] as int]).0,
        (#[trigger] es[order[b] as int]).0,
    ) by {
        let (i, j) = (order[a], order[b]);
        assert(crate::sort::comes_before(es, by_rank, i, j));
        assert(crate::categories::ranks(es[i as int], es[j as int]));
        assert(crate::sort::places(order, 0, n));
        assert(i != j) by {
            if i == j {
                assert(crate::categories::ranks(es[j as int], es[i as int]));
            }
        }
        assert(names[i as int] != names[j as int]);
        crate::text::law_text_order(names[i as int], names[j as int], names[i as int]);
    }
    assert forall|k: int| 0 <= k < top.len() implies (#[trigger] top[k]).name@
        == es[order[k] as int].0 && top[k].count == es[order[k] as int].1 by {
        assert(crate::categories::category_views(top)[k] == es[order[k] as int]);
    }
    assert forall|k: int| 0 <= k < bottom.len() implies (#[trigger] bottom[k]).name@
        == es[order[n - 1 - k] as int].0 && bottom[k].count == es[order[n - 1 - k] as int].1 by {
        assert(crate::categories::category_views(bottom)[k] == es[order[n - 1 - k] as int]);
    }
    assert forall|t: Seq<char>, k: int|
        #![trigger texts.contains(t), top[k]]
        texts.contains(t) && !listed(top, t) && 0 <= k < top.len() implies outranks(
        texts,
        top[k].name@,
        t,
    ) by {
        let a = lemma_place(texts, order, t);
        if a < top.len() {
            assert(top[a].name@ == t);
        } else {
            assert(outranks(texts, es[order[k] as int].0, es[order[a] as int].0));
        }
    }
    assert forall|t: Seq<char>, k: int|
        #![trigger texts.contains(t), bottom[k]]
        texts.contains(t) && !listed(bottom, t) && 0 <= k < bottom.len() implies outranks(
        texts,
        t,
        bottom[k].name@,
    ) by {
        let a = lemma_place(texts, order, t);
        if n - 1 - a < bottom.len() {
            assert(bottom[n - 1 - a].name@ == t);
        } else {
            assert(outranks(texts, es[order[a] as int].0, es[order[n - 1 - k] as int].0));
        }
    }
}

/// The place of a text among the entries in their order.
proof fn lemma_place(texts: Seq<Seq<char>>, order: Seq<usize>, t: Seq<char>) -> (a: int)
    requires
        crate::sort::places(order, 0, crate::categories::entries(texts).len() as int),
        crate::categories::entries(texts).len() <= usize::MAX,
        texts.contains(t),
    ensures
        0 <= a < order.len(),
        order[a] < crate::categories::entries(texts).len(),
        crate::categories::entries(texts)[order[a] as int].0 == t,
{
    let names = crate::tally::distinct(texts);
    crate::tally::law_distinct(texts);
    assert(names.contains(t));
    let i = names.index_of(t);
    assert(order.contains(i as usize));
    order.index_of(i as usize)
}

/// The counts of a summary of texts: how many texts and how many different ones there are; whether all
/// are the same; and, up to the number from which not all are looked at, how many read as numbers and
/// how many look like dates.
pub proof fn law_text_counts(
    s: TextSummary,
    texts: Seq<Seq<char>>,
    top_n: usize,
    max_unique: usize,
    max_ratio: Number,
)
    requires
        s.describes(texts, top_n, max_unique, max_ratio),
        texts.len() > 0,
    ensures
        s.texts == texts.len(),
        s.unique == texts.to_set().len(),
        s.is_constant <==> forall|i: int| 0 <= i < texts.len() ==> #[trigger] texts[i] == texts[0],
        s.is_categorical <==> s.unique <= max_unique || Number::of_integer(
            s.unique as int,
        ).quotient(Number::of_integer(s.texts as int)).le(max_ratio),
        s.stride == (if texts.len() < 10000 {
            1
        } else {
            texts.len() as int / 5000
        }),
        texts.len() < 10000 ==> {
            &&& s.sampled == texts.len()
            &&& s.numeric_looking == texts.filter(
                |t: Seq<char>| crate::text::number_literal(crate::text::trimmed(t)),
            ).len()
            &&& s.date_looking == texts.filter(
                |t: Seq<char>| crate::text::date_like(crate::text::trimmed(t)),
            ).len()
        },
{
    let names = crate::tally::distinct(texts);
    crate::tally::law_distinct(texts);
    lemma_distinct_set(texts);
    if s.is_constant {
        assert forall|i: int| 0 <= i < texts.len() implies #[trigger] texts[i] == texts[0] by {
            assert(texts.contains(texts[i]));
            assert(texts.contains(texts[0]));
            assert(names.contains(texts[i]));
            assert(names.contains(texts[0]));
        }
    }
    if forall|i: int| 0 <= i < texts.len() ==> #[trigger] texts[i] == texts[0] {
        assert(texts.contains(texts[0]));
        assert(names.contains(texts[0]));
        if names.len() > 1 {
            assert(names.contains(names[0]) && names.contains(names[1]));
            let i = texts.index_of(names[0]);
            let j = texts.index_of(names[1]);
            assert(texts[i] == texts[0] && texts[j] == texts[0]);
        }
    }
    if texts.len() < 10000 {
        let n = texts.len();
        let all = crate::categories::sample_flags(n);
        assert(all =~= Seq::new(n, |i: int| true));
        lemma_rows_of_filter(texts, all, |t: Seq<char>| true);
        lemma_filter_all(texts);
        lemma_rows_of_filter(
            texts,
            crate::categories::numeric_flags(texts),
            |t: Seq<char>| crate::text::number_literal(crate::text::trimmed(t)),
        );
        lemma_rows_of_filter(
            texts,
            crate::categories::date_flags(texts),
            |t: Seq<char>| crate::text::date_like(crate::text::trimmed(t)),
        );
    }
}

/// There are as many rows as elements that a filter keeps.
pub(crate) proof fn lemma_rows_of_filter<T>(
    items: Seq<T>,
    flags: Seq<bool>,
    keep: spec_fn(T) -> bool,
)
    requires
        flags.len() == items.len(),
        forall|i: int| 0 <= i < items.len() ==> #[trigger] flags[i] == keep(items[i]),
    ensures
        crate::selection::rows(flags).len() == items.filter(keep).len(),
    decreases items.len(),
{
    reveal(Seq::filter);
    if items.len() > 0 {
        let (t, f) = (items.drop_last(), flags.drop_last());
        assert forall|i: int| 0 <= i < t.len() implies #[trigger] f[i] == keep(t[i]) by {
            assert(flags[i] == keep(items[i]));
        }
        lemma_rows_of_filter(t, f, keep);
        assert(flags[items.len() - 1] == keep(items.last()));
    }
}

proof fn lemma_filter_all<T>(items: Seq<T>)
    ensures
        items.filter(|t: T| true).len() == items.len(),
    decreases items.len(),
{
    reveal(Seq::filter);
    if items.len() > 0 {
        lemma_filter_all(items.drop_last());
    }
}

/// The different texts are as many as there are in the set of the texts.
proof fn lemma_distinct_set(texts: Seq<Seq<char>>)
    ensures
        crate::tally::distinct(texts).len() == texts.to_set().len(),
{
    let names = crate::tally::distinct(texts);
    crate::tally::law_distinct(texts);
    names.unique_seq_to_set();
    assert(names.to_set() =~= texts.to_set()) by {
        assert forall|t: Seq<char>| names.to_set().contains(t) <==> texts.to_set().contains(t) by {
            assert(names.contains(t) <==> texts.contains(t));
        }
    }
}

/// Where texts are categories, the number of categories without regard to spelling is how many
/// different forms the texts have in lower case and without the white space at the ends. It is that of
/// the different texts exactly where no two of them are spellings of the same category.
pub proof fn law_spellings(
    s: TextSummary,
    texts: Seq<Seq<char>>,
    top_n: usize,
    max_unique: usize,
    max_ratio: Number,
)
    requires
        s.describes(texts, top_n, max_unique, max_ratio),
        s.is_categorical,
    ensures
        s.normalized_unique == texts.map_values(
            |t: Seq<char>| crate::text::lowercase(crate::text::trimmed(t)),
        ).to_set().len(),
        s.normalized_unique == s.unique <==> forall|a: Seq<char>, b: Seq<char>|
            #![trigger texts.contains(a), texts.contains(b)]
            texts.contains(a) && texts.contains(b) && same_category(a, b) ==> a == b,
        s.most_frequent@.len() == 0,
        s.most_frequent_count == 0,
{
    let names = crate::tally::distinct(texts);
    let forms = crate::categories::normals(names);
    let all = texts.map_values(|t: Seq<char>| crate::text::lowercase(crate::text::trimmed(t)));
    crate::tally::law_distinct(texts);
    lemma_distinct_set(forms);
    assert(forms.to_set() =~= all.to_set()) by {
        assert forall|f: Seq<char>| forms.to_set().contains(f) <==> all.to_set().contains(f) by {
            if forms.contains(f) {
                let i = forms.index_of(f);
                assert(names.contains(names[i]));
                let j = texts.index_of(names[i]);
                assert(all[j] == f);
            }
            if all.contains(f) {
                let j = all.index_of(f);
                assert(texts.contains(texts[j]));
                assert(names.contains(texts[j]));
                let i = names.index_of(texts[j]);
                assert(forms[i] == f);
            }
        }
    }
    if s.normalized_unique == s.unique {
        lemma_full_distinct(forms);
        assert forall|a: Seq<char>, b: Seq<char>|
            #![trigger texts.contains(a), texts.contains(b)]
            texts.contains(a) && texts.contains(b) && same_category(a, b) implies a == b by {
            assert(names.contains(a) && names.contains(b));
            let i = names.index_of(a);
            let j = names.index_of(b);
            assert(forms[i] == forms[j]);
        }
    }
    if forall|a: Seq<char>, b: Seq<char>|
        #![trigger texts.contains(a), texts.contains(b)]
        texts.contains(a) && texts.contains(b) && same_category(a, b) ==> a == b {
        assert(forms.no_duplicates()) by {
            assert forall|i: int, j: int|
                0 <= i < forms.len() && 0 <= j < forms.len() && i != j implies forms[i]
                != forms[j] by {
                assert(names.contains(names[i]) && names.contains(names[j]));
                assert(texts.contains(names[i]) && texts.contains(names[j]));
                if forms[i] == forms[j] {
                    assert(same_category(names[i], names[j]));
                }
            }
        }
        forms.unique_seq_to_set();
    }
}

/// Texts of which none drops out are all different.
proof fn lemma_full_distinct(texts: Seq<Seq<char>>)
    requires
        crate::tally::distinct(texts).len() == texts.len(),
    ensures
        texts.no_duplicates(),
    decreases texts.len(),
{
    if texts.len() > 0 {
        let before = texts.drop_last();
        crate::tally::law_distinct(before);
        lemma_full_distinct(before);
        assert forall|i: int, j: int|
            0 <= i < texts.len() && 0 <= j < texts.len() && i != j implies texts[i] != texts[j] by {
            if i < before.len() {
                assert(before[i] == texts[i]);
                assert(before.contains(texts[i]));
            }
            if j < before.len() {
                assert(before[j] == texts[j]);
                assert(before.contains(texts[j]));
            }
        }
    }
}

/// Where texts are no categories, the most frequent text is given with its count: none is more
/// frequent, and of those as frequent it is the first in the order of texts.
pub proof fn law_most_frequent(
    s: TextSummary,
    texts: Seq<Seq<char>>,
    top_n: usize,
    max_unique: usize,
    max_ratio: Number,
)
    requires
        s.describes(texts, top_n, max_unique, max_ratio),
        !s.is_categorical,
    ensures
        texts.contains(s.most_frequent@),
        s.most_frequent_count == occurrences(texts, s.most_frequent@),
        forall|t: Seq<char>|
            #![trigger texts.contains(t)]
            texts.contains(t) && t != s.most_frequent@ ==> outranks(texts, s.most_frequent@, t),
        s.top_categories@.len() == 0,
        s.bottom_categories@.len() == 0,
        s.near_dup_example@.len() == 0,
        s.normalized_unique == s.unique,
{
    let names = crate::tally::distinct(texts);
    crate::tally::law_distinct(texts);
    law_count_is_of_occurrences(texts, s.most_frequent@);
    assert forall|t: Seq<char>|
        #![trigger texts.contains(t)]
        texts.contains(t) && t != s.most_frequent@ implies outranks(texts, s.most_frequent@, t) by {
        assert(names.contains(t));
        let i = names.index_of(t);
        law_count_is_of_occurrences(texts, t);
        assert(crate::categories::ranks(
            (s.most_frequent@, s.most_frequent_count as nat),
            crate::categories::entries(texts)[i],
        ));
        crate::text::law_text_order(s.most_frequent@, t, s.most_frequent@);
    }
}

/// A report has a row for each row of the column; the missing ones are those with blank texts, and
/// there are figures where not all are missing.
pub proof fn law_text_report(
    r: TextReport,
    column: FastColumn,
    top_n: usize,
    max_unique: usize,
    max_ratio: Number,
)
    requires
        r.describes(column, top_n, max_unique, max_ratio),
    ensures
        ({
            let all = Seq::new(column.size(), |i: int| column.text(i)->0);
            let texts = all.filter(|t: Seq<char>| !crate::text::blank(t));
            &&& r.total == column.size()
            &&& r.missing == all.filter(|t: Seq<char>| crate::text::blank(t)).len()
            &&& r.summary is Some <==> texts.len() > 0
            &&& r.summary matches Some(s) ==> s.describes(texts, top_n, max_unique, max_ratio)
        }),
{
    let all = crate::categories::column_texts(column);
    law_filled(all);
    lemma_parted(all);
}

proof fn lemma_parted(texts: Seq<Seq<char>>)
    ensures
        texts.filter(|t: Seq<char>| !crate::text::blank(t)).len() + texts.filter(
            |t: Seq<char>| crate::text::blank(t),
        ).len() == texts.len(),
    decreases texts.len(),
{
    reveal(Seq::filter);
    if texts.len() > 0 {
        lemma_parted(texts.drop_last());
    }
}

/// Texts with a slash between each and the next.
pub open spec fn joined(texts: Seq<Seq<char>>) -> Seq<char>
    decreases texts.len(),
{
    if texts.len() == 0 {
        Seq::empty()
    } else if texts.len() == 1 {
        texts[0]
    } else {
        texts[0] + seq!['/'] + joined(texts.drop_first())
    }
}

proof fn lemma_slashed(texts: Seq<Seq<char>>)
    ensures
        crate::categories::slashed(texts) == joined(texts),
    decreases texts.len(),
{
    if texts.len() > 1 {
        lemma_slashed(texts.drop_last());
        lemma_slashed(texts.drop_first());
        let rest = texts.drop_first();
        let inner = rest.drop_last();
        if texts.len() == 2 {
            assert(crate::categories::slashed(texts) =~= joined(texts));
        } else {
            assert(texts.drop_last().drop_first() =~= inner);
            lemma_slashed(inner);
            assert(texts.drop_last()[0] == texts[0]);
            assert(rest.last() == texts.last());
            assert(crate::categories::slashed(texts) =~= joined(texts));
        }
    }
}

/// Whether a list holds the spellings of a category that stand among some texts, each once, in the
/// order of texts.
pub open spec fn lists_category(
    list: Seq<Seq<char>>,
    texts: Seq<Seq<char>>,
    g: Seq<char>,
) -> bool {
    &&& forall|t: Seq<char>| #[trigger]
        list.contains(t) <==> texts.contains(t) && same_category(t, g)
    &&& forall|i: int, j: int|
        0 <= i < j < list.len() ==> crate::text::text_before(#[trigger] list[i], #[trigger] list[j])
}

/// Whether a category has several spellings among some texts.
pub open spec fn several(texts: Seq<Seq<char>>, g: Seq<char>) -> bool {
    exists|a: Seq<char>, b: Seq<char>|
        #![trigger texts.contains(a), texts.contains(b)]
        texts.contains(a) && texts.contains(b) && a != b && same_category(a, g) && same_category(b, g)
}

/// Some texts in lower case and without the white space at the ends.
pub open spec fn forms_of(texts: Seq<Seq<char>>) -> Seq<Seq<char>> {
    texts.map_values(|t: Seq<char>| crate::text::lowercase(crate::text::trimmed(t)))
}

/// Whether a category has several spellings and is seen before every other that has.
pub open spec fn first_several(texts: Seq<Seq<char>>, g: Seq<char>) -> bool {
    several(texts, g) && forall|h: Seq<char>|
        #![trigger texts.contains(h)]
        texts.contains(h) && several(texts, h) && !same_category(g, h) ==> seen_before(
            forms_of(texts),
            crate::text::lowercase(crate::text::trimmed(g)),
            crate::text::lowercase(crate::text::trimmed(h)),
        )
}

/// The different forms of the different texts are the different forms of the texts.
proof fn lemma_forms(texts: Seq<Seq<char>>)
    ensures
        crate::tally::distinct(crate::categories::normals(crate::tally::distinct(texts)))
            == crate::tally::distinct(forms_of(texts)),
    decreases texts.len(),
{
    let names = crate::tally::distinct(texts);
    let a = crate::categories::normals(names);
    let b = forms_of(texts);
    if texts.len() == 0 {
        assert(a =~= b);
    } else {
        let before = texts.drop_last();
        let x = crate::tally::distinct(before);
        let y = crate::categories::normals(x);
        lemma_forms(before);
        assert(b.drop_last() =~= forms_of(before));
        assert(b.last() == crate::categories::normal(texts.last()));
        crate::tally::law_distinct(y);
        if x.contains(texts.last()) {
            let i = x.index_of(texts.last());
            assert(y[i] == b.last());
            assert(y.contains(b.last()));
        } else {
            assert(a.drop_last() =~= y);
            assert(a.last() == b.last());
        }
    }
}

/// The example of several spellings lists those of the first category seen that has several, in the
/// order of texts and with slashes between them; there is none exactly where no category has several.
pub proof fn law_example_of_spellings(
    s: TextSummary,
    texts: Seq<Seq<char>>,
    top_n: usize,
    max_unique: usize,
    max_ratio: Number,
)
    requires
        s.describes(texts, top_n, max_unique, max_ratio),
        s.is_categorical,
    ensures
        (forall|g: Seq<char>| #![trigger texts.contains(g)] texts.contains(g) ==> !several(texts, g))
            ==> s.near_dup_example@.len() == 0,
        (exists|g: Seq<char>| #![trigger texts.contains(g)] texts.contains(g) && several(texts, g))
            ==> exists|g: Seq<char>, list: Seq<Seq<char>>|
            texts.contains(g) && first_several(texts, g) && #[trigger] lists_category(
                list,
                texts,
                g,
            ) && s.near_dup_example@ == joined(list),
{
    let names = crate::tally::distinct(texts);
    let forms = crate::categories::normals(names);
    let groups = crate::tally::distinct(forms);
    crate::tally::law_distinct(texts);
    crate::tally::law_distinct(forms);
    crate::categories::law_near_duplicates(names);
    match crate::categories::first_shared(groups, forms) {
        Some(group) => {
            let i = lemma_shared_group(groups, forms);
            assert(groups.contains(groups[i]));
            assert(forms.contains(group));
            let (x, y) = lemma_twice(forms, group);
            let g = names[x];
            assert(names.contains(names[x]) && names.contains(names[y]));
            assert(texts.contains(names[x]) && texts.contains(names[y]));
            assert(several(texts, g));
            let variants = crate::categories::spellings(names, group);
            let order = choose|order: Seq<usize>| #[trigger]
                crate::sort::sorting(variants, crate::categories::by_text(), order)
                    && s.near_dup_example@ == crate::categories::slashed(
                    Seq::new(variants.len(), |k: int| variants[order[k] as int]),
                );
            let list = Seq::new(variants.len(), |k: int| variants[order[k] as int]);
            lemma_slashed(list);
            lemma_variants(names, group);
            lemma_listed(texts, variants, order, list, g);
            lemma_forms(texts);
            law_distinct_in_order(forms_of(texts));
            assert forall|h: Seq<char>|
                #![trigger texts.contains(h)]
                texts.contains(h) && several(texts, h) && !same_category(g, h) implies seen_before(
                forms_of(texts),
                crate::text::lowercase(crate::text::trimmed(g)),
                crate::text::lowercase(crate::text::trimmed(h)),
            ) by {
                let (a, b) = choose|a: Seq<char>, b: Seq<char>|
                    #![trigger texts.contains(a), texts.contains(b)]
                    texts.contains(a) && texts.contains(b) && a != b && same_category(a, h)
                        && same_category(b, h);
                assert(names.contains(a) && names.contains(b));
                let k = names.index_of(a);
                let l = names.index_of(b);
                let f = forms[k];
                assert(forms.contains(f));
                assert(groups.contains(f));
                let j = groups.index_of(f);
                lemma_counted_twice(forms, f, k, l);
                assert(i != j);
                if j < i {
                    assert(crate::tally::count_of(forms, groups[j]) <= 1);
                }
                assert(seen_before(forms_of(texts), groups[i], groups[j]));
            }
            assert(first_several(texts, g));
        },
        None => {
            assert forall|g: Seq<char>|
                #![trigger texts.contains(g)]
                texts.contains(g) implies !several(texts, g) by {
                if several(texts, g) {
                    let (a, b) = choose|a: Seq<char>, b: Seq<char>|
                        #![trigger texts.contains(a), texts.contains(b)]
                        texts.contains(a) && texts.contains(b) && a != b && same_category(a, g)
                            && same_category(b, g);
                    assert(names.contains(a) && names.contains(b));
                    let i = names.index_of(a);
                    let j = names.index_of(b);
                    assert(forms[i] == forms[j]);
                    lemma_full_distinct(forms);
                }
            }
        },
    }
    if forall|g: Seq<char>| #![trigger texts.contains(g)] texts.contains(g) ==> !several(texts, g) {
        if let Some(group) = crate::categories::first_shared(groups, forms) {
            let i = lemma_shared_group(groups, forms);
            let (x, y) = lemma_twice(forms, group);
            assert(names.contains(names[x]) && names.contains(names[y]));
            assert(texts.contains(names[x]) && texts.contains(names[y]));
            assert(several(texts, names[x]));
        }
    }
}

/// The group found has more than one member.
proof fn lemma_shared_group(groups: Seq<Seq<char>>, members: Seq<Seq<char>>) -> (i: int)
    requires
        crate::categories::first_shared(groups, members) is Some,
    ensures
        0 <= i < groups.len(),
        crate::categories::first_shared(groups, members) == Some(groups[i]),
        crate::tally::count_of(members, groups[i]) > 1,
        forall|j: int| 0 <= j < i ==> crate::tally::count_of(members, #[trigger] groups[j]) <= 1,
    decreases groups.len(),
{
    let before = groups.drop_last();
    if crate::categories::first_shared(before, members) is Some {
        let i = lemma_shared_group(before, members);
        assert forall|j: int| 0 <= j < i implies crate::tally::count_of(
            members,
            #[trigger] groups[j],
        ) <= 1 by {
            assert(before[j] == groups[j]);
        }
        i
    } else {
        lemma_none_shared(before, members);
        assert forall|j: int| 0 <= j < groups.len() - 1 implies crate::tally::count_of(
            members,
            #[trigger] groups[j],
        ) <= 1 by {
            assert(before[j] == groups[j]);
        }
        groups.len() - 1
    }
}

proof fn lemma_none_shared(groups: Seq<Seq<char>>, members: Seq<Seq<char>>)
    requires
        crate::categories::first_shared(groups, members) is None,
    ensures
        forall|j: int|
            0 <= j < groups.len() ==> crate::tally::count_of(members, #[trigger] groups[j]) <= 1,
    decreases groups.len(),
{
    if groups.len() > 0 {
        let before = groups.drop_last();
        lemma_none_shared(before, members);
        assert forall|j: int| 0 <= j < groups.len() implies crate::tally::count_of(
            members,
            #[trigger] groups[j],
        ) <= 1 by {
            if j < before.len() {
                assert(before[j] == groups[j]);
            }
        }
    }
}

/// What is counted more than once stands in two places.
proof fn lemma_twice(texts: Seq<Seq<char>>, t: Seq<char>) -> (at: (int, int))
    requires
        crate::tally::count_of(texts, t) > 1,
    ensures
        0 <= at.0 < at.1 < texts.len(),
        texts[at.0] == t,
        texts[at.1] == t,
    decreases texts.len(),
{
    let before = texts.drop_last();
    if texts.last() == t {
        crate::tally::law_count(before, t);
        let i = before.index_of(t);
        assert(before[i] == t);
        (i, texts.len() - 1)
    } else {
        lemma_twice(before, t)
    }
}

/// What stands in two places is counted more than once.
proof fn lemma_counted_twice(texts: Seq<Seq<char>>, t: Seq<char>, i: int, j: int)
    requires
        0 <= i < texts.len(),
        0 <= j < texts.len(),
        i != j,
        texts[i] == t,
        texts[j] == t,
    ensures
        crate::tally::count_of(texts, t) > 1,
    decreases texts.len(),
{
    let before = texts.drop_last();
    let last = texts.len() - 1;
    if i == last || j == last {
        let k = if i == last {
            j
        } else {
            i
        };
        assert(before[k] == t);
        assert(before.contains(t));
        crate::tally::law_count(before, t);
    } else {
        lemma_counted_twice(before, t, i, j);
    }
}

/// The spellings of a group are the names in it, each once.
proof fn lemma_variants(names: Seq<Seq<char>>, group: Seq<char>)
    requires
        names.no_duplicates(),
    ensures
        forall|t: Seq<char>| #[trigger]
            crate::categories::spellings(names, group).contains(t) <==> names.contains(t)
                && crate::categories::normal(t) == group,
        crate::categories::spellings(names, group).no_duplicates(),
        crate::categories::spellings(names, group).len() <= names.len(),
    decreases names.len(),
{
    if names.len() > 0 {
        let before = names.drop_last();
        let v = crate::categories::spellings(before, group);
        let all = crate::categories::spellings(names, group);
        lemma_variants(before, group);
        assert(!before.contains(names.last())) by {
            if before.contains(names.last()) {
                let i = before.index_of(names.last());
                assert(names[i] == names[names.len() - 1]);
            }
        }
        assert forall|t: Seq<char>| #[trigger] all.contains(t) <==> names.contains(t)
            && crate::categories::normal(t) == group by {
            if all.contains(t) {
                let i = all.index_of(t);
                if i < v.len() {
                    assert(v[i] == t);
                    assert(v.contains(t));
                    let j = before.index_of(t);
                    assert(names[j] == t);
                } else {
                    assert(names[names.len() - 1] == t);
                }
            }
            if names.contains(t) && crate::categories::normal(t) == group {
                let j = names.index_of(t);
                if j < before.len() {
                    assert(before[j] == t);
                    assert(v.contains(t));
                    let i = v.index_of(t);
                    assert(all[i] == t);
                } else {
                    assert(all.last() == t);
                }
            }
        }
        assert(!v.contains(names.last()));
        assert forall|i: int, j: int|
            0 <= i < all.len() && 0 <= j < all.len() && i != j implies all[i] != all[j] by {
            if i < v.len() {
                assert(v.contains(v[i]));
            }
            if j < v.len() {
                assert(v.contains(v[j]));
            }
        }
    }
}

/// The spellings in their order are a list of the category.
proof fn lemma_listed(
    texts: Seq<Seq<char>>,
    variants: Seq<Seq<char>>,
    order: Seq<usize>,
    list: Seq<Seq<char>>,
    g: Seq<char>,
)
    requires
        crate::sort::sorting(variants, crate::categories::by_text(), order),
        list == Seq::new(variants.len(), |k: int| variants[order[k] as int]),
        variants.no_duplicates(),
        variants.len() <= usize::MAX,
        forall|t: Seq<char>| #[trigger]
            variants.contains(t) <==> texts.contains(t) && same_category(t, g),
    ensures
        lists_category(list, texts, g),
{
    assert forall|t: Seq<char>| #[trigger] list.contains(t) <==> texts.contains(t)
        && same_category(t, g) by {
        if list.contains(t) {
            let k = list.index_of(t);
            assert(variants[order[k] as int] == t);
            assert(variants.contains(t));
        }
        if texts.contains(t) && same_category(t, g) {
            assert(variants.contains(t));
            let i = variants.index_of(t);
            assert(order.contains(i as usize));
            let k = order.index_of(i as usize);
            assert(list[k] == t);
        }
    }
    assert forall|i: int, j: int| 0 <= i < j < list.len() implies crate::text::text_before(
        #[trigger] list[i],
        #[trigger] list[j],
    ) by {
        let (a, b) = (order[i], order[j]);
        assert(crate::sort::comes_before(variants, crate::categories::by_text(), a, b));
        assert(a != b);
        assert(variants[a as int] != variants[b as int]);
        crate::text::law_text_order(list[i], list[j], list[i]);
    }
}

/// Where there are many texts, every so many are looked at, from the first on; the numbers found among
/// them are scaled up to all texts.
pub proof fn law_sampling(
    s: TextSummary,
    texts: Seq<Seq<char>>,
    top_n: usize,
    max_unique: usize,
    max_ratio: Number,
)
    requires
        s.describes(texts, top_n, max_unique, max_ratio),
        texts.len() >= 10000,
    ensures
        ({
            let n = texts.len() as int;
            let all = Seq::new(texts.len(), |i: int| i % (s.stride as int) == 0);
            let numeric = Seq::new(
                texts.len(),
                |i: int|
                    i % (s.stride as int) == 0 && crate::text::number_literal(
                        crate::text::trimmed(texts[i]),
                    ),
            );
            let dates = Seq::new(
                texts.len(),
                |i: int|
                    i % (s.stride as int) == 0 && crate::text::date_like(
                        crate::text::trimmed(texts[i]),
                    ),
            );
            let ratio = Number::of_integer(n).quotient(Number::of_integer(s.sampled as int));
            &&& s.stride == n / 5000
            &&& s.sampled == crate::selection_laws::how_many(all)
            &&& s.numeric_looking == Number::of_integer(
                crate::selection_laws::how_many(numeric) as int,
            ).product(ratio).to_count()
            &&& s.date_looking == Number::of_integer(
                crate::selection_laws::how_many(dates) as int,
            ).product(ratio).to_count()
        }),
{
    let all = Seq::new(texts.len(), |i: int| i % (s.stride as int) == 0);
    let numeric = Seq::new(
        texts.len(),
        |i: int|
            i % (s.stride as int) == 0 && crate::text::number_literal(
                crate::text::trimmed(texts[i]),
            ),
    );
    let dates = Seq::new(
        texts.len(),
        |i: int|
            i % (s.stride as int) == 0 && crate::text::date_like(crate::text::trimmed(texts[i])),
    );
    assert(all =~= crate::categories::sample_flags(texts.len()));
    assert(numeric =~= crate::categories::numeric_flags(texts));
    assert(dates =~= crate::categories::date_flags(texts));
    crate::selection_laws::law_rows_are_counted(all);
    crate::selection_laws::law_rows_are_counted(numeric);
    crate::selection_laws::law_rows_are_counted(dates);
}

/// The texts of a column that are not blank, in the order of the rows.
pub open spec fn filled_rows(column: FastColumn) -> Seq<Seq<char>> {
    Seq::new(column.size(), |i: int| column.text(i)->0).filter(
        |t: Seq<char>| !crate::text::blank(t),
    )
}

/// Whether a mapping replaces every spelling that does not stay, once, by the one that does, and
/// nothing else.
pub open spec fn maps_spellings(
    texts: Seq<Seq<char>>,
    mapping: Seq<(Seq<char>, Seq<char>)>,
) -> bool {
    &&& forall|a: Seq<char>|
        #![trigger texts.contains(a)]
        texts.contains(a) && !stays(texts, a) ==> exists|k: int|
            0 <= k < mapping.len() && (#[trigger] mapping[k]).0 == a
    &&& forall|k: int|
        0 <= k < mapping.len() ==> {
            let m = #[trigger] mapping[k];
            &&& texts.contains(m.0)
            &&& !stays(texts, m.0)
            &&& stays(texts, m.1)
            &&& same_category(m.0, m.1)
        }
    &&& forall|j: int, k: int|
        #![trigger mapping[j], mapping[k]]
        0 <= j < k < mapping.len() ==> mapping[j].0 != mapping[k].0
}

pub(crate) proof fn lemma_maps_spellings(column: FastColumn)
    ensures
        maps_spellings(
            filled_rows(column),
            merges_of(crate::categories::column_spellings(column)),
        ),
{
    law_spellings_of_a_column(column);
    law_merge_mapping(crate::categories::column_spellings(column));
}

/// After the mapping is applied, no two texts are spellings of the same category: those that stay are
/// the same where they are of the same category, and every text that does not stay is replaced.
pub proof fn law_one_spelling_is_left(
    texts: Seq<Seq<char>>,
    mapping: Seq<(Seq<char>, Seq<char>)>,
    a: Seq<char>,
    b: Seq<char>,
)
    requires
        maps_spellings(texts, mapping),
        texts.contains(a),
        texts.contains(b),
        same_category(a, b),
    ensures
        forall|x: Seq<char>, y: Seq<char>| #[trigger]
            becomes(mapping, a, x) && #[trigger] becomes(mapping, b, y) ==> x == y,
{
    assert forall|x: Seq<char>, y: Seq<char>| #[trigger]
        becomes(mapping, a, x) && #[trigger] becomes(mapping, b, y) implies x == y by {
        lemma_becomes(texts, mapping, a, x);
        lemma_becomes(texts, mapping, b, y);
        lemma_one_stays(texts, x, y);
    }
}

/// Whether a text is what a mapping makes of another: what it is replaced by, or itself.
pub open spec fn becomes(
    mapping: Seq<(Seq<char>, Seq<char>)>,
    t: Seq<char>,
    x: Seq<char>,
) -> bool {
    ||| exists|k: int| 0 <= k < mapping.len() && #[trigger] mapping[k] == (t, x)
    ||| x == t && forall|k: int| 0 <= k < mapping.len() ==> (#[trigger] mapping[k]).0 != t
}

proof fn lemma_becomes(
    texts: Seq<Seq<char>>,
    mapping: Seq<(Seq<char>, Seq<char>)>,
    t: Seq<char>,
    x: Seq<char>,
)
    requires
        maps_spellings(texts, mapping),
        texts.contains(t),
        becomes(mapping, t, x),
    ensures
        stays(texts, x),
        same_category(t, x),
{
    if exists|k: int| 0 <= k < mapping.len() && #[trigger] mapping[k] == (t, x) {
        let k = choose|k: int| 0 <= k < mapping.len() && #[trigger] mapping[k] == (t, x);
        assert(stays(texts, mapping[k].1));
    } else if !stays(texts, t) {
        let k = choose|k: int| 0 <= k < mapping.len() && (#[trigger] mapping[k]).0 == t;
        assert(mapping[k].0 != t);
    }
}

}
