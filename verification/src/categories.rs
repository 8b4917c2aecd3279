//! What a column of texts holds: its categories, how often they occur, and which of them are
//! spellings of the same.
use vstd::prelude::*;
use vstd::hash_map::StringHashMap;
use vstd::string::*;
use crate::column::FastColumn;
use crate::number::Number;
use crate::selection::rows_of;
use crate::sort::sort_by;
use crate::tally::{tally, Tally};
use crate::text::{
    is_blank, is_number_literal, looks_like_date, text_less, texts_equal, to_lowercase, trim,
};

verus! {

/// A text of a column, and how often it occurs.
pub struct Category {
    pub name: String,
    pub count: usize,
}

/// The figures of a column that holds texts.
pub struct TextSummary {
    /// How many texts there are.
    pub texts: usize,
    /// How many different texts there are.
    pub unique: usize,
    /// Whether the texts are categories: few, or few to the number of rows.
    pub is_categorical: bool,
    /// Whether there is one text.
    pub is_constant: bool,
    /// From one text that is looked at closely to the next.
    pub stride: usize,
    /// How many texts are looked at closely.
    pub sampled: usize,
    /// About how many texts read as numbers, by those looked at.
    pub numeric_looking: usize,
    /// About how many texts look like dates, by those looked at.
    pub date_looking: usize,
    /// The most frequent categories, from the most frequent down.
    pub top_categories: Vec<Category>,
    /// The least frequent categories, from the least frequent up.
    pub bottom_categories: Vec<Category>,
    /// How many categories there are, without regard to letter case and white space at the ends.
    pub normalized_unique: usize,
    /// Spellings of one category, if there are any.
    pub near_dup_example: String,
    /// The most frequent text, where texts are no categories.
    pub most_frequent: String,
    pub most_frequent_count: usize,
}

/// A column of texts: how many rows it has, how many of them are blank, and the figures, unless all
/// are.
pub struct TextReport {
    pub total: usize,
    pub missing: usize,
    pub summary: Option<TextSummary>,
}

/// A spelling, and the one to put in its place.
pub struct Merge {
    pub from: String,
    pub to: String,
}

/// The greatest number of texts of a column that are looked at one after the other.
pub const SAMPLE_CAP: usize = 5000;

/// The greatest number of least frequent categories.
pub const BOTTOM_CAP: usize = 5;

/// Whether every row of a column has a text.
pub open spec fn all_text(column: FastColumn) -> bool {
    forall|i: int| 0 <= i < column.size() ==> #[trigger] column.text(i) is Some
}

/// The texts of a column.
pub open spec fn column_texts(column: FastColumn) -> Seq<Seq<char>> {
    Seq::new(column.size(), |i: int| column.text(i)->0)
}

/// The texts that are not blank.
pub open spec fn filled(texts: Seq<Seq<char>>) -> Seq<Seq<char>>
    decreases texts.len(),
{
    if texts.len() == 0 {
        Seq::empty()
    } else if crate::text::blank(texts.last()) {
        filled(texts.drop_last())
    } else {
        filled(texts.drop_last()).push(texts.last())
    }
}

/// From one text that is looked at closely to the next.
pub open spec fn stride_of(n: int) -> int {
    if n / (SAMPLE_CAP as int) > 1 {
        n / (SAMPLE_CAP as int)
    } else {
        1
    }
}

/// Which texts are looked at closely.
pub open spec fn sample_flags(n: nat) -> Seq<bool> {
    Seq::new(n, |i: int| i % stride_of(n as int) == 0)
}

/// Which of the texts looked at read as numbers.
pub open spec fn numeric_flags(texts: Seq<Seq<char>>) -> Seq<bool> {
    Seq::new(
        texts.len(),
        |i: int|
            i % stride_of(texts.len() as int) == 0 && crate::text::number_literal(
                crate::text::trimmed(texts[i]),
            ),
    )
}

/// Which of the texts looked at look like dates.
pub open spec fn date_flags(texts: Seq<Seq<char>>) -> Seq<bool> {
    Seq::new(
        texts.len(),
        |i: int|
            i % stride_of(texts.len() as int) == 0 && crate::text::date_like(
                crate::text::trimmed(texts[i]),
            ),
    )
}

/// A count among the texts looked at, scaled up to all texts where not all were looked at.
pub open spec fn scaled(count: int, n: int, sampled: int) -> int {
    if stride_of(n) > 1 {
        Number::of_integer(count).product(
            Number::of_integer(n).quotient(Number::of_integer(sampled)),
        ).to_count() as int
    } else {
        count
    }
}

/// Whether texts are categories: there are no more different ones than a limit, or no more to the
/// number of all than a ratio.
pub open spec fn categorical(unique: int, n: int, max_unique: usize, max_ratio: Number) -> bool {
    unique <= max_unique || Number::of_integer(unique).quotient(Number::of_integer(n)).le(max_ratio)
}

/// The different texts with how often they occur.
pub open spec fn entries(texts: Seq<Seq<char>>) -> Seq<(Seq<char>, nat)> {
    Seq::new(
        crate::tally::distinct(texts).len(),
        |i: int|
            (
                crate::tally::distinct(texts)[i],
                crate::tally::count_of(texts, crate::tally::distinct(texts)[i]),
            ),
    )
}

/// The order of categories: the more frequent first, of equally frequent ones in the order of texts.
pub open spec fn ranks(a: (Seq<char>, nat), b: (Seq<char>, nat)) -> bool {
    a.1 > b.1 || (a.1 == b.1 && !crate::text::text_before(b.0, a.0))
}

/// The order of categories.
pub open spec fn by_rank() -> spec_fn((Seq<char>, nat), (Seq<char>, nat)) -> bool {
    |a: (Seq<char>, nat), b: (Seq<char>, nat)| ranks(a, b)
}

/// The order of texts.
pub open spec fn by_text() -> spec_fn(Seq<char>, Seq<char>) -> bool {
    |a: Seq<char>, b: Seq<char>| !crate::text::text_before(b, a)
}

/// A category as contracts speak of it.
pub open spec fn entry(c: Category) -> (Seq<char>, nat) {
    (c.name@, c.count as nat)
}

/// Some categories as contracts speak of them.
pub open spec fn category_views(categories: Seq<Category>) -> Seq<(Seq<char>, nat)> {
    Seq::new(categories.len(), |i: int| entry(categories[i]))
}

/// The lesser of two.
pub open spec fn lesser(a: int, b: int) -> int {
    if a <= b {
        a
    } else {
        b
    }
}

/// Whether these are the most and the least frequent of the entries: so many of the first and of the
/// last in their order.
pub open spec fn extremes(
    top: Seq<Category>,
    bottom: Seq<Category>,
    entries: Seq<(Seq<char>, nat)>,
    top_n: int,
) -> bool {
    exists|order: Seq<usize>| #[trigger]
        crate::sort::sorting(entries, by_rank(), order) && category_views(top) =~= Seq::new(
            lesser(top_n, entries.len() as int) as nat,
            |k: int| entries[order[k] as int],
        ) && category_views(bottom) =~= Seq::new(
            lesser(lesser(top_n, BOTTOM_CAP as int), entries.len() as int) as nat,
            |k: int| entries[order[entries.len() - 1 - k] as int],
        )
}

/// A text without regard to letter case and white space at the ends.
pub open spec fn normal(t: Seq<char>) -> Seq<char> {
    crate::text::lowercase(crate::text::trimmed(t))
}

/// Some texts without regard to letter case and white space at the ends.
pub open spec fn normals(texts: Seq<Seq<char>>) -> Seq<Seq<char>> {
    Seq::new(texts.len(), |i: int| normal(texts[i]))
}

/// The spellings of a category, in the order in which they are first seen.
pub open spec fn spellings(names: Seq<Seq<char>>, group: Seq<char>) -> Seq<Seq<char>>
    decreases names.len(),
{
    if names.len() == 0 {
        Seq::empty()
    } else if normal(names.last()) == group {
        spellings(names.drop_last(), group).push(names.last())
    } else {
        spellings(names.drop_last(), group)
    }
}

/// The first group with more than one member.
pub open spec fn first_shared(groups: Seq<Seq<char>>, members: Seq<Seq<char>>) -> Option<Seq<char>>
    decreases groups.len(),
{
    if groups.len() == 0 {
        None
    } else {
        match first_shared(groups.drop_last(), members) {
            Some(g) => Some(g),
            None => if crate::tally::count_of(members, groups.last()) > 1 {
                Some(groups.last())
            } else {
                None
            },
        }
    }
}

/// Texts with a slash between them.
pub open spec fn slashed(texts: Seq<Seq<char>>) -> Seq<char>
    decreases texts.len(),
{
    if texts.len() == 0 {
        Seq::empty()
    } else if texts.len() == 1 {
        texts[0]
    } else {
        slashed(texts.drop_last()) + seq!['/'] + texts.last()
    }
}

/// Whether a text holds the spellings of a category, in the order of texts, with a slash between
/// them.
pub open spec fn lists_spellings(text: Seq<char>, variants: Seq<Seq<char>>) -> bool {
    exists|order: Seq<usize>| #[trigger]
        crate::sort::sorting(variants, by_text(), order) && text == slashed(
            Seq::new(variants.len(), |k: int| variants[order[k] as int]),
        )
}

/// Whether a text is the example of a category with several spellings: of the first one seen, and
/// nothing where there is none.
pub open spec fn near_duplicates(example: Seq<char>, names: Seq<Seq<char>>) -> bool {
    match first_shared(crate::tally::distinct(normals(names)), normals(names)) {
        Some(group) => lists_spellings(example, spellings(names, group)),
        None => example.len() == 0,
    }
}

impl TextSummary {
    /// Whether these are the figures of some texts.
    pub open spec fn describes(
        &self,
        texts: Seq<Seq<char>>,
        top_n: usize,
        max_unique: usize,
        max_ratio: Number,
    ) -> bool {
        let names = crate::tally::distinct(texts);
        let n = texts.len() as int;
        &&& self.texts == texts.len()
        &&& self.unique == names.len()
        &&& self.is_constant == (names.len() == 1)
        &&& self.stride == stride_of(texts.len() as int)
        &&& self.sampled == crate::selection::rows(sample_flags(texts.len())).len()
        &&& self.numeric_looking == scaled(
            crate::selection::rows(numeric_flags(texts)).len() as int,
            n,
            self.sampled as int,
        )
        &&& self.date_looking == scaled(
            crate::selection::rows(date_flags(texts)).len() as int,
            n,
            self.sampled as int,
        )
        &&& self.is_categorical == categorical(names.len() as int, n, max_unique, max_ratio)
        &&& self.is_categorical ==> {
            &&& extremes(
                self.top_categories@,
                self.bottom_categories@,
                entries(texts),
                top_n as int,
            )
            &&& self.normalized_unique == crate::tally::distinct(normals(names)).len()
            &&& near_duplicates(self.near_dup_example@, names)
            &&& self.most_frequent@.len() == 0
            &&& self.most_frequent_count == 0
        }
        &&& !self.is_categorical ==> {
            &&& self.top_categories@.len() == 0
            &&& self.bottom_categories@.len() == 0
            &&& self.normalized_unique == names.len()
            &&& self.near_dup_example@.len() == 0
            &&& names.contains(self.most_frequent@)
            &&& self.most_frequent_count == crate::tally::count_of(texts, self.most_frequent@)
            &&& forall|i: int|
                0 <= i < names.len() ==> ranks(
                    (self.most_frequent@, self.most_frequent_count as nat),
                    #[trigger] entries(texts)[i],
                )
        }
    }
}

impl TextReport {
    /// Whether this is the report of a column.
    pub open spec fn describes(
        &self,
        column: FastColumn,
        top_n: usize,
        max_unique: usize,
        max_ratio: Number,
    ) -> bool {
        let texts = filled(column_texts(column));
        &&& self.total == column.size()
        &&& self.missing == column.size() - texts.len()
        &&& self.summary is Some <==> texts.len() > 0
        &&& self.summary matches Some(s) ==> s.describes(texts, top_n, max_unique, max_ratio)
    }
}

/// No more texts are left than there were.
proof fn lemma_filled(texts: Seq<Seq<char>>)
    ensures
        filled(texts).len() <= texts.len(),
    decreases texts.len(),
{
    if texts.len() > 0 {
        lemma_filled(texts.drop_last());
    }
}

/// The texts of a column that are not blank; none where a row has no text.
fn filled_texts(column: &FastColumn) -> (r: Option<Vec<String>>)
    ensures
        r is Some <==> all_text(*column),
        r matches Some(v) ==> crate::tally::string_views(v@) == filled(column_texts(*column)),
{
    let ghost all = column_texts(*column);
    let n = column.len();
    let mut texts: Vec<String> = Vec::new();
    let mut i: usize = 0;
    assert(crate::tally::string_views(texts@) =~= filled(all.take(0)));
    while i < n
        invariant
            i <= n == column.size() == all.len(),
            all == column_texts(*column),
            forall|k: int| 0 <= k < i ==> #[trigger] column.text(k) is Some,
            crate::tally::string_views(texts@) == filled(all.take(i as int)),
        decreases n - i,
    {
        assert(all.take(i + 1).drop_last() =~= all.take(i as int));
        match column.cell_text_exact_at(i) {
            Some(s) => {
                if !is_blank(s) {
                    let ghost before = crate::tally::string_views(texts@);
                    texts.push(s.to_owned());
                    assert(crate::tally::string_views(texts@) =~= before.push(s@));
                }
            },
            None => {
                return None;
            },
        }
        i = i + 1;
    }
    assert(all.take(i as int) =~= all);
    Some(texts)
}

/// Looks closely at some of the texts: how many, and how many of them read as numbers and look like
/// dates.
fn sample(texts: &Vec<String>, stride: usize) -> (r: (usize, usize, usize))
    requires
        stride == stride_of(texts@.len() as int),
    ensures
        r.0 == crate::selection::rows(sample_flags(texts@.len())).len(),
        r.1 == crate::selection::rows(numeric_flags(crate::tally::string_views(texts@))).len(),
        r.2 == crate::selection::rows(date_flags(crate::tally::string_views(texts@))).len(),
{
    let ghost all = crate::tally::string_views(texts@);
    let mut sampled: Vec<bool> = Vec::new();
    let mut numeric: Vec<bool> = Vec::new();
    let mut date: Vec<bool> = Vec::new();
    let mut i: usize = 0;
    while i < texts.len()
        invariant
            i <= texts@.len() == all.len(),
            all == crate::tally::string_views(texts@),
            stride == stride_of(all.len() as int),
            stride > 0,
            sampled@.len() == i,
            numeric@.len() == i,
            date@.len() == i,
            forall|k: int| 0 <= k < i ==> #[trigger] sampled@[k] == sample_flags(all.len())[k],
            forall|k: int| 0 <= k < i ==> #[trigger] numeric@[k] == numeric_flags(all)[k],
            forall|k: int| 0 <= k < i ==> #[trigger] date@[k] == date_flags(all)[k],
        decreases texts@.len() - i,
    {
        if i % stride == 0 {
            let t = trim(texts[i].as_str());
            sampled.push(true);
            numeric.push(is_number_literal(t));
            date.push(looks_like_date(t));
        } else {
            sampled.push(false);
            numeric.push(false);
            date.push(false);
        }
        i = i + 1;
    }
    assert(sampled@ =~= sample_flags(all.len()));
    assert(numeric@ =~= numeric_flags(all));
    assert(date@ =~= date_flags(all));
    (rows_of(&sampled).len(), rows_of(&numeric).len(), rows_of(&date).len())
}

/// The order of categories is total.
proof fn lemma_rank_total(items: Seq<(Seq<char>, nat)>)
    ensures
        crate::sort::total(items, by_rank()),
{
    let le = by_rank();
    assert forall|i: int, j: int, k: int|
        #![trigger items[i], items[j], items[k]]
        0 <= i < items.len() && 0 <= j < items.len() && 0 <= k < items.len() && le(
            items[i],
            items[j],
        ) && le(items[j], items[k]) implies le(items[i], items[k]) by {
        crate::text::law_text_order(items[k].0, items[i].0, items[j].0);
        crate::text::law_text_order(items[k].0, items[j].0, items[i].0);
        crate::text::law_text_order(items[j].0, items[i].0, items[k].0);
    }
    assert forall|i: int, j: int|
        #![trigger items[i], items[j]]
        0 <= i < items.len() && 0 <= j < items.len() implies le(items[i], items[j]) || le(
        items[j],
        items[i],
    ) by {
        crate::text::law_text_order(items[i].0, items[j].0, items[i].0);
    }
}

/// The order of texts is total.
proof fn lemma_text_total(items: Seq<Seq<char>>)
    ensures
        crate::sort::total(items, by_text()),
{
    let le = by_text();
    assert forall|i: int, j: int, k: int|
        #![trigger items[i], items[j], items[k]]
        0 <= i < items.len() && 0 <= j < items.len() && 0 <= k < items.len() && le(
            items[i],
            items[j],
        ) && le(items[j], items[k]) implies le(items[i], items[k]) by {
        crate::text::law_text_order(items[k], items[i], items[j]);
        crate::text::law_text_order(items[k], items[j], items[i]);
        crate::text::law_text_order(items[j], items[i], items[k]);
    }
    assert forall|i: int, j: int|
        #![trigger items[i], items[j]]
        0 <= i < items.len() && 0 <= j < items.len() implies le(items[i], items[j]) || le(
        items[j],
        items[i],
    ) by {
        crate::text::law_text_order(items[i], items[j], items[i]);
    }
}

/// Whether a category stands before another, or equals it.
fn ranks_before(a: &Category, b: &Category) -> (r: bool)
    ensures
        r == ranks(entry(*a), entry(*b)),
{
    a.count > b.count || (a.count == b.count && !text_less(b.name.as_str(), a.name.as_str()))
}

/// The categories of a tally.
fn categories_of(t: &Tally, Ghost(texts): Ghost<Seq<Seq<char>>>) -> (r: Vec<Category>)
    requires
        t.of(texts),
    ensures
        category_views(r@) == entries(texts),
{
    let mut r: Vec<Category> = Vec::new();
    let mut i: usize = 0;
    while i < t.names.len()
        invariant
            t.of(texts),
            i <= t.names@.len(),
            r@.len() == i,
            forall|k: int| 0 <= k < i ==> entry(#[trigger] r@[k]) == entries(texts)[k],
        decreases t.names@.len() - i,
    {
        assert(crate::tally::string_views(t.names@)[i as int] == t.names@[i as int]@);
        r.push(Category { name: t.names[i].clone(), count: t.counts[i] });
        i = i + 1;
    }
    assert(category_views(r@) =~= entries(texts)) by {
        assert(crate::tally::string_views(t.names@).len() == t.names@.len());
    }
    r
}

/// A sorting of categories is one of what contracts speak of.
proof fn lemma_views_sorted(categories: Seq<Category>, order: Seq<usize>)
    requires
        crate::sort::sorting(
            categories,
            |a: Category, b: Category| ranks(entry(a), entry(b)),
            order,
        ),
    ensures
        crate::sort::sorting(category_views(categories), by_rank(), order),
{
    let le = |a: Category, b: Category| ranks(entry(a), entry(b));
    let views = category_views(categories);
    assert forall|a: int, b: int| 0 <= a < b < order.len() implies crate::sort::comes_before(
        views,
        by_rank(),
        #[trigger] order[a],
        #[trigger] order[b],
    ) by {
        assert(crate::sort::comes_before(categories, le, order[a], order[b]));
    }
}

/// The most and the least frequent categories.
fn rank(categories: &Vec<Category>, top_n: usize) -> (r: (Vec<Category>, Vec<Category>))
    ensures
        extremes(r.0@, r.1@, category_views(categories@), top_n as int),
{
    let ghost views = category_views(categories@);
    let ghost le = |a: Category, b: Category| ranks(entry(a), entry(b));
    proof {
        lemma_rank_total(views);
        assert forall|i: int, j: int|
            #![trigger categories@[i], categories@[j]]
            0 <= i < categories@.len() && 0 <= j < categories@.len() implies le(
            categories@[i],
            categories@[j],
        ) || le(categories@[j], categories@[i]) by {
            assert(views[i] == entry(categories@[i]) && views[j] == entry(categories@[j]));
        }
        assert forall|i: int, j: int, k: int|
            #![trigger categories@[i], categories@[j], categories@[k]]
            0 <= i < categories@.len() && 0 <= j < categories@.len() && 0 <= k < categories@.len()
                && le(categories@[i], categories@[j]) && le(categories@[j], categories@[k]) implies le(
            categories@[i],
            categories@[k],
        ) by {
            assert(views[i] == entry(categories@[i]) && views[j] == entry(categories@[j]) && views[k]
                == entry(categories@[k]));
        }
    }
    let order = sort_by(
        categories,
        |a: &Category, b: &Category| -> (r: bool)
            ensures
                r == ranks(entry(*a), entry(*b))
            {
                ranks_before(a, b)
            },
        Ghost(le),
    );
    proof {
        lemma_views_sorted(categories@, order@);
    }
    let n = order.len();
    let top_len = if top_n <= n {
        top_n
    } else {
        n
    };
    let bottom_cap = if top_n <= BOTTOM_CAP {
        top_n
    } else {
        BOTTOM_CAP
    };
    let bottom_len = if bottom_cap <= n {
        bottom_cap
    } else {
        n
    };
    let mut top: Vec<Category> = Vec::new();
    let mut k: usize = 0;
    while k < top_len
        invariant
            k <= top_len <= n,
            n == order@.len() == categories@.len(),
            forall|j: int| 0 <= j < n ==> #[trigger] order@[j] < n,
            top@.len() == k,
            forall|j: int|
                0 <= j < k ==> entry(#[trigger] top@[j]) == category_views(
                    categories@,
                )[order@[j] as int],
        decreases top_len - k,
    {
        let c = &categories[order[k]];
        top.push(Category { name: c.name.clone(), count: c.count });
        k = k + 1;
    }
    let mut bottom: Vec<Category> = Vec::new();
    let mut k: usize = 0;
    while k < bottom_len
        invariant
            k <= bottom_len <= n,
            n == order@.len() == categories@.len(),
            forall|j: int| 0 <= j < n ==> #[trigger] order@[j] < n,
            bottom@.len() == k,
            forall|j: int|
                0 <= j < k ==> entry(#[trigger] bottom@[j]) == category_views(
                    categories@,
                )[order@[n - 1 - j] as int],
        decreases bottom_len - k,
    {
        let c = &categories[order[n - 1 - k]];
        bottom.push(Category { name: c.name.clone(), count: c.count });
        k = k + 1;
    }
    proof {
        assert(category_views(top@) =~= Seq::new(
            lesser(top_n as int, views.len() as int) as nat,
            |k: int| views[order@[k] as int],
        ));
        assert(category_views(bottom@) =~= Seq::new(
            lesser(lesser(top_n as int, BOTTOM_CAP as int), views.len() as int) as nat,
            |k: int| views[order@[views.len() - 1 - k] as int],
        ));
    }
    (top, bottom)
}

/// The most frequent category.
fn most_frequent_of(categories: &Vec<Category>) -> (r: usize)
    requires
        categories@.len() > 0,
    ensures
        r < categories@.len(),
        forall|i: int|
            0 <= i < categories@.len() ==> ranks(
                entry(categories@[r as int]),
                entry(#[trigger] categories@[i]),
            ),
{
    let mut best: usize = 0;
    let mut i: usize = 1;
    proof {
        let c = entry(categories@[0]);
        crate::text::law_text_order(c.0, c.0, c.0);
    }
    while i < categories.len()
        invariant
            1 <= i <= categories@.len(),
            best < i,
            forall|k: int|
                0 <= k < i ==> ranks(
                    entry(categories@[best as int]),
                    entry(#[trigger] categories@[k]),
                ),
        decreases categories@.len() - i,
    {
        proof {
            let views = category_views(categories@);
            lemma_rank_total(views);
            let le = by_rank();
            assert forall|k: int| 0 <= k < i && !le(views[best as int], views[i as int]) implies le(
                views[i as int],
                #[trigger] views[k],
            ) by {
                assert(ranks(entry(categories@[best as int]), entry(categories@[k])));
                assert(le(views[best as int], views[k]));
                assert(le(views[i as int], views[best as int]));
            }
            assert(le(views[i as int], views[i as int]) || le(views[i as int], views[i as int]));
            assert(forall|k: int|
                0 <= k < views.len() ==> views[k] == entry(#[trigger] categories@[k]));
        }
        if !ranks_before(&categories[best], &categories[i]) {
            proof {
                let views = category_views(categories@);
                assert forall|k: int| 0 <= k < i + 1 implies ranks(
                    entry(categories@[i as int]),
                    entry(#[trigger] categories@[k]),
                ) by {
                    assert(views[k] == entry(categories@[k]));
                }
            }
            best = i;
        }
        i = i + 1;
    }
    best
}

/// The texts without regard to letter case and white space at the ends.
fn normals_of(names: &Vec<String>) -> (r: Vec<String>)
    ensures
        crate::tally::string_views(r@) == normals(crate::tally::string_views(names@)),
{
    let mut r: Vec<String> = Vec::new();
    let mut i: usize = 0;
    while i < names.len()
        invariant
            i <= names@.len(),
            r@.len() == i,
            forall|k: int| 0 <= k < i ==> #[trigger] r@[k]@ == normal(names@[k]@),
        decreases names@.len() - i,
    {
        r.push(to_lowercase(trim(names[i].as_str())));
        i = i + 1;
    }
    assert(crate::tally::string_views(r@) =~= normals(crate::tally::string_views(names@)));
    r
}

/// The spellings of a category.
fn spellings_of(names: &Vec<String>, norms: &Vec<String>, group: &str) -> (r: Vec<String>)
    requires
        crate::tally::string_views(norms@) == normals(crate::tally::string_views(names@)),
    ensures
        crate::tally::string_views(r@) == spellings(crate::tally::string_views(names@), group@),
{
    let ghost all = crate::tally::string_views(names@);
    let mut r: Vec<String> = Vec::new();
    let mut i: usize = 0;
    proof {
        assert(crate::tally::string_views(norms@).len() == normals(all).len());
        assert(crate::tally::string_views(r@) =~= spellings(all.take(0), group@));
    }
    while i < names.len()
        invariant
            i <= names@.len() == all.len() == norms@.len(),
            all == crate::tally::string_views(names@),
            crate::tally::string_views(norms@) == normals(all),
            crate::tally::string_views(r@) == spellings(all.take(i as int), group@),
        decreases names@.len() - i,
    {
        proof {
            assert(all.take(i + 1).drop_last() =~= all.take(i as int));
            assert(crate::tally::string_views(norms@)[i as int] == normal(all[i as int]));
        }
        if texts_equal(norms[i].as_str(), group) {
            let ghost before = crate::tally::string_views(r@);
            r.push(names[i].clone());
            assert(crate::tally::string_views(r@) =~= before.push(all[i as int]));
        }
        i = i + 1;
    }
    assert(all.take(i as int) =~= all);
    r
}

/// Texts with a slash between them, in the given order.
fn join_slashed(texts: &Vec<String>, order: &Vec<usize>) -> (r: String)
    requires
        order@.len() == texts@.len(),
        forall|k: int| 0 <= k < order@.len() ==> #[trigger] order@[k] < texts@.len(),
    ensures
        r@ == slashed(
            Seq::new(
                texts@.len(),
                |k: int| crate::tally::string_views(texts@)[order@[k] as int],
            ),
        ),
{
    let ghost all = Seq::new(
        texts@.len(),
        |k: int| crate::tally::string_views(texts@)[order@[k] as int],
    );
    proof {
        reveal_strlit("");
        reveal_strlit("/");
    }
    let mut r = "".to_owned();
    let mut i: usize = 0;
    assert(r@ =~= slashed(all.take(0)));
    while i < order.len()
        invariant
            i <= order@.len() == texts@.len() == all.len(),
            forall|k: int| 0 <= k < order@.len() ==> #[trigger] order@[k] < texts@.len(),
            all == Seq::new(
                texts@.len(),
                |k: int| crate::tally::string_views(texts@)[order@[k] as int],
            ),
            r@ == slashed(all.take(i as int)),
        decreases order@.len() - i,
    {
        let ghost before = r@;
        proof {
            reveal_strlit("/");
            assert(all.take(i + 1).drop_last() =~= all.take(i as int));
            assert(all.take(i + 1).last() == all[i as int]);
            assert("/"@ =~= seq!['/']);
        }
        if i > 0 {
            r.append("/");
        }
        r.append(texts[order[i]].as_str());
        proof {
            if i == 0 {
                assert(before =~= Seq::<char>::empty());
                assert(r@ =~= all[0]);
                assert(all.take(1)[0] == all[0]);
            } else {
                assert(r@ =~= before + seq!['/'] + all[i as int]);
            }
        }
        i = i + 1;
    }
    assert(all.take(i as int) =~= all);
    r
}

/// The spellings in the order of texts, with a slash between them.
fn list_spellings(variants: &Vec<String>) -> (r: String)
    ensures
        lists_spellings(r@, crate::tally::string_views(variants@)),
{
    let ghost views = crate::tally::string_views(variants@);
    let ghost le = |a: String, b: String| !crate::text::text_before(b@, a@);
    proof {
        lemma_text_total(views);
        let order = by_text();
        assert forall|i: int, j: int|
            #![trigger variants@[i], variants@[j]]
            0 <= i < variants@.len() && 0 <= j < variants@.len() implies le(
            variants@[i],
            variants@[j],
        ) || le(variants@[j], variants@[i]) by {
            assert(order(views[i], views[j]) || order(views[j], views[i]));
        }
        assert forall|i: int, j: int, k: int|
            #![trigger variants@[i], variants@[j], variants@[k]]
            0 <= i < variants@.len() && 0 <= j < variants@.len() && 0 <= k < variants@.len() && le(
                variants@[i],
                variants@[j],
            ) && le(variants@[j], variants@[k]) implies le(variants@[i], variants@[k]) by {
            assert(order(views[i], views[j]) && order(views[j], views[k]));
            assert(order(views[i], views[k]));
        }
    }
    let order = sort_by(
        variants,
        |a: &String, b: &String| -> (r: bool)
            ensures
                r == !crate::text::text_before(b@, a@)
            {
                !text_less(b.as_str(), a.as_str())
            },
        Ghost(le),
    );
    let r = join_slashed(variants, &order);
    proof {
        assert forall|a: int, b: int| 0 <= a < b < order@.len() implies crate::sort::comes_before(
            views,
            by_text(),
            #[trigger] order@[a],
            #[trigger] order@[b],
        ) by {
            assert(crate::sort::comes_before(variants@, le, order@[a], order@[b]));
        }
        assert(crate::sort::sorting(views, by_text(), order@));
    }
    r
}

/// The example of a category with several spellings, and how many categories there are.
fn find_near_duplicates(names: &Vec<String>) -> (r: (String, usize))
    ensures
        near_duplicates(r.0@, crate::tally::string_views(names@)),
        r.1 == crate::tally::distinct(normals(crate::tally::string_views(names@))).len(),
{
    let ghost all = crate::tally::string_views(names@);
    let norms = normals_of(names);
    let groups = tally(&norms);
    let ghost firsts = crate::tally::distinct(normals(all));
    let n = groups.names.len();
    proof {
        assert(crate::tally::string_views(groups.names@).len() == groups.names@.len());
    }
    let mut i: usize = 0;
    while i < n
        invariant
            i <= n == groups.names@.len() == firsts.len(),
            firsts == crate::tally::distinct(normals(all)),
            all == crate::tally::string_views(names@),
            crate::tally::string_views(norms@) == normals(all),
            groups.of(normals(all)),
            first_shared(firsts.take(i as int), normals(all)) is None,
        decreases n - i,
    {
        proof {
            assert(firsts.take(i + 1).drop_last() =~= firsts.take(i as int));
            assert(crate::tally::string_views(groups.names@)[i as int] == firsts[i as int]);
        }
        if groups.counts[i] > 1 {
            proof {
                lemma_first_shared(firsts, normals(all), i + 1);
            }
            let variants = spellings_of(names, &norms, groups.names[i].as_str());
            return (list_spellings(&variants), n);
        }
        i = i + 1;
    }
    assert(firsts.take(i as int) =~= firsts);
    proof {
        reveal_strlit("");
    }
    ("".to_owned(), n)
}

/// The first group of a part that begins at the start is the first of all.
proof fn lemma_first_shared(groups: Seq<Seq<char>>, members: Seq<Seq<char>>, i: int)
    requires
        0 <= i <= groups.len(),
        first_shared(groups.take(i), members) is Some,
    ensures
        first_shared(groups, members) == first_shared(groups.take(i), members),
    decreases groups.len(),
{
    if i < groups.len() {
        assert(groups.drop_last().take(i) =~= groups.take(i));
        lemma_first_shared(groups.drop_last(), members, i);
    } else {
        assert(groups.take(i) =~= groups);
    }
}

/// A count among the texts looked at, scaled up to all texts.
fn scale_up(count: usize, n: usize, sampled: usize) -> (r: usize)
    requires
        sampled > 0,
    ensures
        r == Number::of_integer(count as int).product(
            Number::of_integer(n as int).quotient(Number::of_integer(sampled as int)),
        ).to_count(),
{
    let scale = Number::from_count(n).over(Number::from_count(sampled));
    Number::from_count(count).times(scale).round_to_count()
}

/// The figures of some texts.
fn summarize(
    texts: &Vec<String>,
    top_n: usize,
    categorical_max_unique: usize,
    categorical_max_ratio: Number,
) -> (r: TextSummary)
    requires
        texts@.len() > 0,
    ensures
        r.describes(
            crate::tally::string_views(texts@),
            top_n,
            categorical_max_unique,
            categorical_max_ratio,
        ),
{
    let ghost all = crate::tally::string_views(texts@);
    let n = texts.len();
    let stride = if n / SAMPLE_CAP > 1 {
        n / SAMPLE_CAP
    } else {
        1
    };
    let (sampled, numeric, date) = sample(texts, stride);
    proof {
        let flags = sample_flags(n as nat);
        crate::selection::law_rows_are_the_hits(flags);
        assert(flags[0]);
        assert(crate::selection::rows(flags).contains(0usize));
    }
    let (numeric_looking, date_looking) = if stride > 1 {
        (scale_up(numeric, n, sampled), scale_up(date, n, sampled))
    } else {
        (numeric, date)
    };
    let t = tally(texts);
    let unique = t.names.len();
    let is_categorical = unique <= categorical_max_unique || Number::from_count(unique).over(
        Number::from_count(n),
    ).at_most(categorical_max_ratio);
    let is_constant = unique == 1;
    let categories = categories_of(&t, Ghost(all));
    proof {
        assert(crate::tally::string_views(t.names@).len() == t.names@.len());
        assert(category_views(categories@).len() == categories@.len());
        reveal_strlit("");
    }
    if is_categorical {
        let (top_categories, bottom_categories) = rank(&categories, top_n);
        let (near_dup_example, normalized_unique) = find_near_duplicates(&t.names);
        TextSummary {
            texts: n,
            unique,
            is_categorical,
            is_constant,
            stride,
            sampled,
            numeric_looking,
            date_looking,
            top_categories,
            bottom_categories,
            normalized_unique,
            near_dup_example,
            most_frequent: "".to_owned(),
            most_frequent_count: 0,
        }
    } else {
        proof {
            crate::tally::law_distinct(all);
            assert(all.contains(all[0]));
            assert(crate::tally::distinct(all).contains(all[0]));
        }
        let best = most_frequent_of(&categories);
        let most_frequent = categories[best].name.clone();
        let most_frequent_count = categories[best].count;
        proof {
            assert(category_views(categories@)[best as int] == entries(all)[best as int]);
            assert forall|i: int| 0 <= i < crate::tally::distinct(all).len() implies ranks(
                (most_frequent@, most_frequent_count as nat),
                #[trigger] entries(all)[i],
            ) by {
                assert(category_views(categories@)[i] == entry(categories@[i]));
            }
        }
        TextSummary {
            texts: n,
            unique,
            is_categorical,
            is_constant,
            stride,
            sampled,
            numeric_looking,
            date_looking,
            top_categories: Vec::new(),
            bottom_categories: Vec::new(),
            normalized_unique: unique,
            near_dup_example: "".to_owned(),
            most_frequent,
            most_frequent_count,
        }
    }
}

/// What a column of texts holds; none where a row has no text. Texts are categories where there are
/// no more than `categorical_max_unique` different ones, or where the different ones are no more than
/// `categorical_max_ratio` of all.
pub fn summarize_text_column(
    column: &FastColumn,
    top_n: usize,
    categorical_max_unique: usize,
    categorical_max_ratio: Number,
) -> (r: Option<TextReport>)
    ensures
        r is Some <==> all_text(*column),
        r matches Some(report) ==> report.describes(
            *column,
            top_n,
            categorical_max_unique,
            categorical_max_ratio,
        ),
{
    match filled_texts(column) {
        Some(texts) => {
            let total = column.len();
            proof {
                lemma_filled(column_texts(*column));
                assert(crate::tally::string_views(texts@).len() == texts@.len());
            }
            let missing = total - texts.len();
            let summary = if texts.len() == 0 {
                None
            } else {
                Some(summarize(&texts, top_n, categorical_max_unique, categorical_max_ratio))
            };
            Some(TextReport { total, missing, summary })
        },
        None => None,
    }
}

/// The most frequent of the spellings of a category, and of equally frequent ones the first.
pub open spec fn canonical(texts: Seq<Seq<char>>, names: Seq<Seq<char>>, group: Seq<char>) -> Option<
    int,
>
    decreases names.len(),
{
    if names.len() == 0 {
        None
    } else {
        let before = canonical(texts, names.drop_last(), group);
        let n = names.len() - 1;
        if normal(names[n]) != group {
            before
        } else {
            match before {
                Some(b) => if crate::tally::count_of(texts, names[n]) > crate::tally::count_of(
                    texts,
                    names[b],
                ) {
                    Some(n)
                } else {
                    Some(b)
                },
                None => Some(n),
            }
        }
    }
}

/// Which of the first `n` names is to be replaced by which: each that is not the one of its group.
pub open spec fn merges(texts: Seq<Seq<char>>, names: Seq<Seq<char>>, n: int) -> Seq<
    (Seq<char>, Seq<char>),
>
    decreases n,
{
    if n <= 0 {
        Seq::empty()
    } else {
        let before = merges(texts, names, n - 1);
        match canonical(texts, names, normal(names[n - 1])) {
            Some(b) => if b == n - 1 {
                before
            } else {
                before.push((names[n - 1], names[b]))
            },
            None => before,
        }
    }
}

/// Some merges, as contracts speak of them.
pub open spec fn merge_views(m: Seq<Merge>) -> Seq<(Seq<char>, Seq<char>)> {
    Seq::new(m.len(), |i: int| (m[i].from@, m[i].to@))
}

/// The spellings of a column: its texts without blanks.
pub open spec fn column_spellings(column: FastColumn) -> Seq<Seq<char>> {
    filled(column_texts(column))
}

/// The most frequent of the names in each group is one of them.
proof fn lemma_canonical_in_range(texts: Seq<Seq<char>>, names: Seq<Seq<char>>, group: Seq<char>)
    ensures
        canonical(texts, names, group) matches Some(b) ==> 0 <= b < names.len(),
    decreases names.len(),
{
    if names.len() > 0 {
        lemma_canonical_in_range(texts, names.drop_last(), group);
    }
}

/// Which spellings of a column are to be replaced by which: of those that differ in letter case and
/// in white space at the ends alone, the most frequent stays, and of equally frequent ones the first
/// seen. None where a row has no text.
pub fn build_category_merge_mapping(column: &FastColumn) -> (r: Option<Vec<Merge>>)
    ensures
        r is Some <==> all_text(*column),
        r matches Some(m) ==> merge_views(m@) == merges(
            column_spellings(*column),
            crate::tally::distinct(column_spellings(*column)),
            crate::tally::distinct(column_spellings(*column)).len() as int,
        ),
        r matches Some(m) ==> crate::category_laws::maps_spellings(
            crate::category_laws::filled_rows(*column),
            merge_views(m@),
        ),
{
    proof {
        crate::category_laws::lemma_maps_spellings(*column);
    }
    let texts = match filled_texts(column) {
        Some(texts) => texts,
        None => {
            return None;
        },
    };
    let ghost all = crate::tally::string_views(texts@);
    let t = tally(&texts);
    let ghost names = crate::tally::distinct(all);
    let n = t.names.len();
    proof {
        assert(crate::tally::string_views(t.names@).len() == t.names@.len());
    }
    let mut best: StringHashMap<usize> = StringHashMap::new();
    let mut groups: Vec<String> = Vec::new();
    let mut i: usize = 0;
    while i < n
        invariant
            i <= n == t.names@.len() == names.len(),
            t.of(all),
            names == crate::tally::distinct(all),
            groups@.len() == i,
            forall|k: int|
                0 <= k < i ==> #[trigger] groups@[k]@ == normal(names[k]),
            forall|g: Seq<char>| #[trigger]
                best@.contains_key(g) <==> canonical(all, names.take(i as int), g) is Some,
            forall|g: Seq<char>| #[trigger]
                best@.contains_key(g) ==> canonical(all, names.take(i as int), g) == Some(
                    best@[g] as int,
                ) && best@[g] < i,
        decreases n - i,
    {
        let group = to_lowercase(trim(t.names[i].as_str()));
        let ghost before = best@;
        let ghost part = names.take(i + 1);
        proof {
            assert(part.drop_last() =~= names.take(i as int));
            assert(part[i as int] == names[i as int]);
            assert(crate::tally::string_views(t.names@)[i as int] == names[i as int]);
        }
        let better = match best.get(group.as_str()) {
            Some(b) => {
                assert(part[*b as int] == names[*b as int]);
                t.counts[i] > t.counts[*b]
            },
            None => true,
        };
        if better {
            best.insert(group.clone(), i);
        }
        groups.push(group);
        proof {
            assert forall|g: Seq<char>| (#[trigger] best@.contains_key(g) <==> canonical(
                all,
                part,
                g,
            ) is Some) && (best@.contains_key(g) ==> canonical(all, part, g) == Some(
                best@[g] as int,
            ) && best@[g] < i + 1) by {
                assert(before.contains_key(g) <==> canonical(all, names.take(i as int), g) is Some);
                if before.contains_key(g) {
                    assert(part[before[g] as int] == names[before[g] as int]);
                }
            }
        }
        i = i + 1;
    }
    assert(names.take(i as int) =~= names);
    let mut out: Vec<Merge> = Vec::new();
    let mut i: usize = 0;
    assert(merge_views(out@) =~= Seq::empty());
    while i < n
        invariant
            i <= n == t.names@.len() == names.len() == groups@.len(),
            t.of(all),
            names == crate::tally::distinct(all),
            forall|k: int|
                0 <= k < n ==> #[trigger] groups@[k]@ == normal(names[k]),
            forall|g: Seq<char>| #[trigger]
                best@.contains_key(g) <==> canonical(all, names, g) is Some,
            forall|g: Seq<char>| #[trigger]
                best@.contains_key(g) ==> canonical(all, names, g) == Some(best@[g] as int)
                    && best@[g] < n,
            merge_views(out@) == merges(all, names, i as int),
        decreases n - i,
    {
        proof {
            assert(crate::tally::string_views(t.names@)[i as int] == names[i as int]);
        }
        if let Some(b) = best.get(groups[i].as_str()) {
            let b = *b;
            if b != i {
                let ghost before = merge_views(out@);
                assert(crate::tally::string_views(t.names@)[b as int] == names[b as int]);
                out.push(Merge { from: t.names[i].clone(), to: t.names[b].clone() });
                assert(merge_views(out@) =~= before.push((names[i as int], names[b as int])));
            }
        }
        i = i + 1;
    }
    Some(out)
}

/// Of the spellings of a category, the one that stays is one of them, none is more frequent, and none
/// before it is as frequent.
pub proof fn law_canonical(
    texts: Seq<Seq<char>>,
    names: Seq<Seq<char>>,
    group: Seq<char>,
)
    ensures
        match canonical(texts, names, group) {
            Some(b) => 0 <= b < names.len() && normal(names[b]) == group && (
            forall|i: int|
                0 <= i < names.len() && normal(#[trigger] names[i]) == group
                    ==> crate::tally::count_of(texts, names[i]) <= crate::tally::count_of(
                    texts,
                    names[b],
                )) && (forall|i: int|
                0 <= i < b && normal(#[trigger] names[i]) == group
                    ==> crate::tally::count_of(texts, names[i]) < crate::tally::count_of(
                    texts,
                    names[b],
                )),
            None => forall|i: int|
                0 <= i < names.len() ==> normal(#[trigger] names[i]) != group,
        },
    decreases names.len(),
{
    if names.len() > 0 {
        let before = names.drop_last();
        law_canonical(texts, before, group);
        assert forall|i: int| 0 <= i < before.len() implies before[i] == #[trigger] names[i] by {}
    }
}

/// A spelling that is replaced is replaced by another one of the same category, which stays itself.
pub proof fn law_merges(texts: Seq<Seq<char>>, names: Seq<Seq<char>>, n: int)
    requires
        names.no_duplicates(),
        0 <= n <= names.len(),
    ensures
        forall|k: int|
            0 <= k < merges(texts, names, n).len() ==> {
                let m = #[trigger] merges(texts, names, n)[k];
                &&& m.0 != m.1
                &&& normal(m.0) == normal(m.1)
                &&& names.contains(m.0)
                &&& names.contains(m.1)
                &&& forall|j: int|
                    0 <= j < merges(texts, names, n).len() ==> (#[trigger] merges(
                        texts,
                        names,
                        n,
                    )[j]).0 != m.1
            },
    decreases n,
{
    lemma_merges(texts, names, n);
    let all = merges(texts, names, n);
    assert forall|k: int| 0 <= k < all.len() implies {
        let m = #[trigger] all[k];
        &&& m.0 != m.1
        &&& normal(m.0) == normal(m.1)
        &&& names.contains(m.0)
        &&& names.contains(m.1)
        &&& forall|j: int| 0 <= j < all.len() ==> (#[trigger] all[j]).0 != m.1
    } by {
        assert(replaced(texts, names, all[k]));
        let (a, b) = choose|a: int, b: int| #[trigger]
            replaces(texts, names, a, b) && all[k] == (names[a], names[b]);
        law_canonical(texts, names, normal(names[a]));
        assert forall|j: int| 0 <= j < all.len() implies (#[trigger] all[j]).0 != all[k].1 by {
            assert(replaced(texts, names, all[j]));
            let (c, d) = choose|c: int, d: int| #[trigger]
                replaces(texts, names, c, d) && all[j] == (names[c], names[d]);
            if names[c] == names[b] {
                assert(c == b);
            }
        }
    }
}

/// Whether the name at `a` is replaced by that at `b`.
spec fn replaces(texts: Seq<Seq<char>>, names: Seq<Seq<char>>, a: int, b: int) -> bool {
    0 <= a < names.len() && 0 <= b < names.len() && a != b && canonical(
        texts,
        names,
        normal(names[a]),
    ) == Some(b)
}

/// Whether a name is replaced by another.
spec fn replaced(texts: Seq<Seq<char>>, names: Seq<Seq<char>>, m: (Seq<char>, Seq<char>)) -> bool {
    exists|a: int, b: int| #[trigger] replaces(texts, names, a, b) && m == (names[a], names[b])
}

proof fn lemma_merges(texts: Seq<Seq<char>>, names: Seq<Seq<char>>, n: int)
    requires
        0 <= n <= names.len(),
    ensures
        forall|k: int|
            0 <= k < merges(texts, names, n).len() ==> replaced(
                texts,
                names,
                #[trigger] merges(texts, names, n)[k],
            ),
    decreases n,
{
    if n > 0 {
        lemma_merges(texts, names, n - 1);
        let before = merges(texts, names, n - 1);
        let all = merges(texts, names, n);
        assert forall|k: int| 0 <= k < all.len() implies replaced(
            texts,
            names,
            #[trigger] all[k],
        ) by {
            if k < before.len() {
                assert(all[k] == before[k]);
            } else {
                lemma_canonical_in_range(
                    texts,
                    names,
                    normal(names[n - 1]),
                );
                let b = canonical(texts, names, normal(names[n - 1]))->0;
                assert(replaces(texts, names, n - 1, b));
            }
        }
    }
}

/// Some category has several spellings exactly where there are fewer categories than names.
pub proof fn law_near_duplicates(names: Seq<Seq<char>>)
    ensures
        first_shared(crate::tally::distinct(normals(names)), normals(names)) is Some
            <==> crate::tally::distinct(normals(names)).len() < names.len(),
{
    let members = normals(names);
    let groups = crate::tally::distinct(members);
    lemma_shared(groups, members);
    crate::tally::law_distinct(members);
    lemma_repeats(members);
    if exists|i: int| 0 <= i < groups.len() && crate::tally::count_of(members, #[trigger] groups[i]) > 1 {
        let i = choose|i: int|
            0 <= i < groups.len() && crate::tally::count_of(members, #[trigger] groups[i]) > 1;
        assert(crate::tally::count_of(members, groups[i]) > 1);
    }
    if groups.len() < members.len() {
        let t = choose|t: Seq<char>| #[trigger] crate::tally::count_of(members, t) > 1;
        crate::tally::law_count(members, t);
        assert(groups.contains(t));
        let i = groups.index_of(t);
        assert(crate::tally::count_of(members, groups[i]) > 1);
    }
}

proof fn lemma_shared(groups: Seq<Seq<char>>, members: Seq<Seq<char>>)
    ensures
        first_shared(groups, members) is Some <==> exists|i: int|
            0 <= i < groups.len() && crate::tally::count_of(members, #[trigger] groups[i]) > 1,
    decreases groups.len(),
{
    if groups.len() > 0 {
        let before = groups.drop_last();
        lemma_shared(before, members);
        if first_shared(before, members) is Some {
            let i = choose|i: int|
                0 <= i < before.len() && crate::tally::count_of(members, #[trigger] before[i]) > 1;
            assert(groups[i] == before[i]);
        } else if first_shared(groups, members) is Some {
            assert(groups[groups.len() - 1] == groups.last());
        }
        if exists|i: int|
            0 <= i < groups.len() && crate::tally::count_of(members, #[trigger] groups[i]) > 1 {
            let i = choose|i: int|
                0 <= i < groups.len() && crate::tally::count_of(members, #[trigger] groups[i]) > 1;
            if i < before.len() {
                assert(before[i] == groups[i]);
            }
        }
    }
}

/// There are fewer different texts than texts exactly where one occurs more than once.
proof fn lemma_repeats(texts: Seq<Seq<char>>)
    ensures
        crate::tally::distinct(texts).len() < texts.len() <==> exists|t: Seq<char>| #[trigger]
            crate::tally::count_of(texts, t) > 1,
    decreases texts.len(),
{
    if texts.len() > 0 {
        let before = texts.drop_last();
        let last = texts.last();
        lemma_repeats(before);
        crate::tally::law_distinct(before);
        crate::tally::law_distinct(texts);
        crate::tally::law_count(before, last);
        if crate::tally::distinct(texts).len() < texts.len() {
            if crate::tally::distinct(before).contains(last) {
                assert(crate::tally::count_of(texts, last) > 1);
            } else {
                let t = choose|t: Seq<char>| #[trigger] crate::tally::count_of(before, t) > 1;
                assert(crate::tally::count_of(texts, t) > 1);
            }
        }
        if exists|t: Seq<char>| #[trigger] crate::tally::count_of(texts, t) > 1 {
            let t = choose|t: Seq<char>| #[trigger] crate::tally::count_of(texts, t) > 1;
            if t != last {
                assert(crate::tally::count_of(before, t) > 1);
            }
        }
    }
}

}
