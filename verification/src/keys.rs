//! Tables that find rows by their keys: the first row with a key, and all rows with the same keys
//! in several columns.
use vstd::prelude::*;
use vstd::hash_map::StringHashMap;
use std::collections::HashMap;
use crate::cell::{cell_to_key, CellValue, CellView, KeyView, LookupKey};

verus! {

/// The keys of the cells of a range.
pub open spec fn keys(range: Seq<CellView>) -> Seq<KeyView> {
    Seq::new(range.len(), |i: int| range[i].key())
}

/// Some keys, as contracts speak of them.
pub open spec fn key_views(keys: Seq<LookupKey>) -> Seq<KeyView> {
    Seq::new(keys.len(), |i: int| keys[i]@)
}

/// Columns of keys, as contracts speak of them.
pub open spec fn column_views(columns: Seq<Vec<LookupKey>>) -> Seq<Seq<KeyView>> {
    Seq::new(columns.len(), |p: int| key_views(columns[p]@))
}

/// Whether `r` is the first of the keys that `key` finds.
pub open spec fn is_first(keys: Seq<KeyView>, key: KeyView, r: Option<usize>) -> bool {
    match r {
        Some(i) => i < keys.len() && key.finds(keys[i as int]) && forall|j: int|
            0 <= j < i ==> !key.finds(#[trigger] keys[j]),
        None => forall|j: int| 0 <= j < keys.len() ==> !key.finds(#[trigger] keys[j]),
    }
}

/// A table from keys to rows.
pub struct KeyTable {
    texts: StringHashMap<usize>,
    nums: HashMap<u64, usize>,
    blank: Option<usize>,
}

impl KeyTable {
    /// The row that a key stands for.
    pub closed spec fn found(&self, key: KeyView) -> Option<usize> {
        match key {
            KeyView::Num(n) => if !n.nan() && self.nums@.contains_key(n.bits) {
                Some(self.nums@[n.bits])
            } else {
                None
            },
            KeyView::Text(s) => if self.texts@.contains_key(s) {
                Some(self.texts@[s])
            } else {
                None
            },
            KeyView::Empty => self.blank,
        }
    }

    /// A table without keys.
    pub fn new() -> (r: KeyTable)
        ensures
            forall|k: KeyView| #[trigger] r.found(k) is None,
    {
        KeyTable { texts: StringHashMap::new(), nums: HashMap::new(), blank: None }
    }

    /// The row that a key stands for. What is not a number is never found.
    pub fn get(&self, key: &LookupKey) -> (r: Option<usize>)
        ensures
            r == self.found(key@),
    {
        match key {
            LookupKey::Num(n) => if n.is_nan() {
                None
            } else {
                match self.nums.get(&n.bits) {
                    Some(i) => Some(*i),
                    None => None,
                }
            },
            LookupKey::Text(s) => match self.texts.get(s.as_str()) {
                Some(i) => Some(*i),
                None => None,
            },
            LookupKey::Empty => self.blank,
        }
    }

    /// The row that the key of a text stands for. The text is in lower case.
    pub fn get_text(&self, text: &str) -> (r: Option<usize>)
        ensures
            r == self.found(KeyView::Text(text@)),
    {
        match self.texts.get(text) {
            Some(i) => Some(*i),
            None => None,
        }
    }

    /// Has a key stand for a row, unless it stands for one already.
    pub fn insert_first(&mut self, key: &LookupKey, row: usize)
        ensures
            forall|k: KeyView| #[trigger]
                final(self).found(k) == if k.finds(key@) && old(self).found(k) is None {
                    Some(row)
                } else {
                    old(self).found(k)
                },
    {
        match key {
            LookupKey::Num(n) => if !n.is_nan() && !self.nums.contains_key(&n.bits) {
                self.nums.insert(n.bits, row);
            },
            LookupKey::Text(s) => if !self.texts.contains_key(s.as_str()) {
                self.texts.insert(s.clone(), row);
            },
            LookupKey::Empty => if self.blank.is_none() {
                self.blank = Some(row);
            },
        }
    }

    /// Whether each key stands for the first row that has it.
    pub open spec fn indexes(&self, keys: Seq<KeyView>) -> bool {
        forall|k: KeyView| is_first(keys, k, #[trigger] self.found(k))
    }

    /// The table of a column of keys: the first row with a key wins.
    pub fn of_keys(keys: &Vec<LookupKey>) -> (r: KeyTable)
        ensures
            r.indexes(key_views(keys@)),
    {
        let ghost all = key_views(keys@);
        let mut r = KeyTable::new();
        let mut i: usize = 0;
        while i < keys.len()
            invariant
                i <= keys@.len() == all.len(),
                all == key_views(keys@),
                r.indexes(all.take(i as int)),
            decreases keys@.len() - i,
        {
            let ghost before = r;
            r.insert_first(&keys[i], i);
            proof {
                lemma_insert_first(before, r, all, i);
            }
            i = i + 1;
        }
        assert(all.take(i as int) =~= all);
        r
    }
}

/// A table of the rows before `i` becomes one of the rows up to it.
proof fn lemma_insert_first(
    before: KeyTable,
    after: KeyTable,
    all: Seq<KeyView>,
    i: usize,
)
    requires
        i < all.len(),
        before.indexes(all.take(i as int)),
        forall|k: KeyView| #[trigger]
            after.found(k) == if k.finds(all[i as int]) && before.found(k) is None {
                Some(i)
            } else {
                before.found(k)
            },
    ensures
        after.indexes(all.take(i + 1)),
{
    let old_keys = all.take(i as int);
    let new_keys = all.take(i + 1);
    assert forall|k: KeyView| is_first(new_keys, k, #[trigger] after.found(k)) by {
        assert(is_first(old_keys, k, before.found(k)));
        assert forall|j: int| 0 <= j < i implies old_keys[j] == #[trigger] new_keys[j] by {}
        assert(new_keys[i as int] == all[i as int]);
        match after.found(k) {
            Some(r) => {
                assert forall|j: int| 0 <= j < r implies !k.finds(#[trigger] new_keys[j]) by {
                    assert(!k.finds(old_keys[j]));
                }
            },
            None => {
                assert forall|j: int| 0 <= j < new_keys.len() implies !k.finds(
                    #[trigger] new_keys[j],
                ) by {
                    if j < i {
                        assert(!k.finds(old_keys[j]));
                    }
                }
            },
        }
    }
}

/// The keys of the cells of a range.
pub(crate) fn keys_of(range: &Vec<CellValue>) -> (r: Vec<LookupKey>)
    ensures
        key_views(r@) == keys(crate::selection::cells(range@)),
{
    let mut r: Vec<LookupKey> = Vec::new();
    let mut i: usize = 0;
    while i < range.len()
        invariant
            i <= range@.len(),
            r@.len() == i,
            forall|j: int| 0 <= j < i ==> #[trigger] r@[j]@ == range@[j]@.key(),
        decreases range@.len() - i,
    {
        r.push(cell_to_key(&range[i]));
        i = i + 1;
    }
    assert(key_views(r@) =~= keys(crate::selection::cells(range@)));
    r
}

/// Whether keys find those of a row, in the first `p` columns.
pub open spec fn agrees(columns: Seq<Seq<KeyView>>, p: int, query: Seq<KeyView>, i: int) -> bool {
    forall|c: int| 0 <= c < p ==> (#[trigger] query[c]).finds(columns[c][i])
}

/// The keys of a row.
pub open spec fn row_keys(columns: Seq<Seq<KeyView>>, i: int) -> Seq<KeyView> {
    Seq::new(columns.len(), |c: int| columns[c][i])
}

/// Whether `r` is the first row whose keys are found, in the first `p` columns.
pub open spec fn is_first_row(
    columns: Seq<Seq<KeyView>>,
    p: int,
    query: Seq<KeyView>,
    n: nat,
    r: Option<usize>,
) -> bool {
    match r {
        Some(i) => i < n && agrees(columns, p, query, i as int) && forall|j: int|
            0 <= j < i ==> !#[trigger] agrees(columns, p, query, j),
        None => forall|j: int| 0 <= j < n ==> !#[trigger] agrees(columns, p, query, j),
    }
}

/// Two rows as one number.
spec fn code(g: usize, k: usize) -> u128 {
    (g * 0x1_0000_0000_0000_0000 + k) as u128
}

fn code_of(g: usize, k: usize) -> (r: u128)
    ensures
        r == code(g, k),
{
    (g as u128) * 0x1_0000_0000_0000_0000 + (k as u128)
}

proof fn lemma_code(g: usize, k: usize, g2: usize, k2: usize)
    requires
        code(g, k) == code(g2, k2),
    ensures
        g == g2,
        k == k2,
{
}

/// One column of an index over several. A row is known by the first row that has the same keys; in
/// this column, by the first row that has the same keys in the columns before and the same key here.
struct Level {
    keys: KeyTable,
    pairs: HashMap<u128, usize>,
}

impl Level {
    spec fn paired(&self, g: usize, k: usize) -> Option<usize> {
        if self.pairs@.contains_key(code(g, k)) {
            Some(self.pairs@[code(g, k)])
        } else {
            None
        }
    }

    /// Whether row `i` is known by `g` in the columns before, and by `k` in this one.
    spec fn known(
        &self,
        column: Seq<KeyView>,
        before: Seq<Option<usize>>,
        g: usize,
        k: usize,
        i: int,
    ) -> bool {
        before[i] == Some(g) && self.keys.found(column[i]) == Some(k)
    }

    /// Whether `pairs` holds the first row of each combination, among the first `n`.
    spec fn pairs_first(&self, column: Seq<KeyView>, before: Seq<Option<usize>>, n: int) -> bool {
        forall|g: usize, k: usize|
            match #[trigger] self.paired(g, k) {
                Some(r) => r < n && self.known(column, before, g, k, r as int) && forall|j: int|
                    0 <= j < r ==> !#[trigger] self.known(column, before, g, k, j),
                None => forall|j: int|
                    0 <= j < n ==> !#[trigger] self.known(column, before, g, k, j),
            }
    }

    spec fn wf(&self, column: Seq<KeyView>, before: Seq<Option<usize>>) -> bool {
        &&& before.len() == column.len()
        &&& self.keys.indexes(column)
        &&& self.pairs_first(column, before, column.len() as int)
    }

    /// What a row known by `g` before is known by now, with its key in this column.
    spec fn after(&self, g: Option<usize>, key: KeyView) -> Option<usize> {
        match (g, self.keys.found(key)) {
            (Some(g), Some(k)) => self.paired(g, k),
            _ => None,
        }
    }

    fn step(&self, g: Option<usize>, key: &LookupKey) -> (r: Option<usize>)
        ensures
            r == self.after(g, key@),
    {
        match (g, self.keys.get(key)) {
            (Some(g), Some(k)) => match self.pairs.get(&code_of(g, k)) {
                Some(i) => Some(*i),
                None => None,
            },
            _ => None,
        }
    }

    fn build(column: &Vec<LookupKey>, before: &Vec<Option<usize>>) -> (r: Level)
        requires
            column@.len() == before@.len(),
        ensures
            r.wf(key_views(column@), before@),
    {
        let ghost all = key_views(column@);
        let mut r = Level { keys: KeyTable::of_keys(column), pairs: HashMap::new() };
        let mut i: usize = 0;
        while i < column.len()
            invariant
                i <= column@.len() == before@.len() == all.len(),
                all == key_views(column@),
                r.keys.indexes(all),
                r.pairs_first(all, before@, i as int),
            decreases column@.len() - i,
        {
            let ghost old_r = r;
            if let Some(g) = before[i] {
                if let Some(k) = r.keys.get(&column[i]) {
                    let c = code_of(g, k);
                    if !r.pairs.contains_key(&c) {
                        r.pairs.insert(c, i);
                    }
                }
            }
            proof {
                assert(r.keys == old_r.keys);
                assert forall|g: usize, k: usize|
                    match #[trigger] r.paired(g, k) {
                        Some(x) => x < i + 1 && r.known(all, before@, g, k, x as int) && forall|j: int|
                            0 <= j < x ==> !#[trigger] r.known(all, before@, g, k, j),
                        None => forall|j: int|
                            0 <= j < i + 1 ==> !#[trigger] r.known(all, before@, g, k, j),
                    } by {
                    let was = old_r.paired(g, k);
                    assert forall|j: int| #[trigger]
                        r.known(all, before@, g, k, j) == old_r.known(all, before@, g, k, j) by {}
                    if let Some(g2) = before@[i as int] {
                        if let Some(k2) = r.keys.found(all[i as int]) {
                            if code(g, k) == code(g2, k2) {
                                lemma_code(g, k, g2, k2);
                            }
                        }
                    }
                }
            }
            i = i + 1;
        }
        r
    }
}

/// What a row with the given keys is known by in the first `p` levels.
spec fn trace(levels: Seq<Level>, n: nat, query: Seq<KeyView>, p: nat) -> Option<usize>
    decreases p,
{
    if p == 0 {
        if n > 0 {
            Some(0usize)
        } else {
            None
        }
    } else {
        levels[p - 1].after(trace(levels, n, query, (p - 1) as nat), query[p - 1])
    }
}

/// What each row is known by in the first `p` levels.
spec fn traces(levels: Seq<Level>, n: nat, columns: Seq<Seq<KeyView>>, p: nat) -> Seq<Option<usize>> {
    Seq::new(n, |i: int| trace(levels, n, row_keys(columns, i), p))
}

spec fn levels_wf(levels: Seq<Level>, n: nat, columns: Seq<Seq<KeyView>>) -> bool {
    &&& levels.len() <= columns.len()
    &&& forall|p: int| 0 <= p < columns.len() ==> (#[trigger] columns[p]).len() == n
    &&& forall|p: int|
        0 <= p < levels.len() ==> (#[trigger] levels[p]).wf(
            columns[p],
            traces(levels, n, columns, p as nat),
        )
}

/// Keys that find the same keys find each other.
proof fn lemma_agrees(columns: Seq<Seq<KeyView>>, p: int, query: Seq<KeyView>, g: int, i: int)
    requires
        0 <= p <= columns.len(),
        agrees(columns, p, query, g),
    ensures
        agrees(columns, p, row_keys(columns, i), g) <==> agrees(columns, p, query, i),
        agrees(columns, p, query, i) ==> forall|j: int|
            agrees(columns, p, query, j) <==> #[trigger] agrees(columns, p, row_keys(columns, i), j),
{
    let own = row_keys(columns, i);
    if agrees(columns, p, own, g) {
        assert forall|c: int| 0 <= c < p implies (#[trigger] query[c]).finds(columns[c][i]) by {
            assert(own[c].finds(columns[c][g]));
        }
    }
    if agrees(columns, p, query, i) {
        assert forall|j: int|
            agrees(columns, p, query, j) <==> #[trigger] agrees(columns, p, own, j) by {
            if agrees(columns, p, query, j) {
                assert forall|c: int| 0 <= c < p implies (#[trigger] own[c]).finds(columns[c][j]) by {
                    assert(query[c].finds(columns[c][i]));
                    assert(query[c].finds(columns[c][j]));
                }
            }
            if agrees(columns, p, own, j) {
                assert forall|c: int| 0 <= c < p implies (#[trigger] query[c]).finds(columns[c][j]) by {
                    assert(query[c].finds(columns[c][i]));
                    assert(own[c].finds(columns[c][j]));
                }
            }
        }
    }
}

/// A row is known by the first row whose keys its keys find.
proof fn lemma_trace(
    levels: Seq<Level>,
    n: nat,
    columns: Seq<Seq<KeyView>>,
    query: Seq<KeyView>,
    p: nat,
)
    requires
        levels_wf(levels, n, columns),
        p <= levels.len(),
        n <= usize::MAX,
    ensures
        is_first_row(columns, p as int, query, n, trace(levels, n, query, p)),
    decreases p,
{
    if p > 0 {
        let q = (p - 1) as nat;
        let level = levels[q as int];
        let before = traces(levels, n, columns, q);
        assert(level.wf(columns[q as int], before));
        let g = trace(levels, n, query, q);
        lemma_trace(levels, n, columns, query, q);
        let r = trace(levels, n, query, p);
        let key = query[q as int];
        assert(is_first(columns[q as int], key, level.keys.found(key)));
        // A row that agrees in all p columns is known by g and by the key's row.
        assert forall|j: int| 0 <= j < n && #[trigger] agrees(columns, p as int, query, j) implies g is Some
            && level.keys.found(key) is Some && level.known(
            columns[q as int],
            before,
            g->0,
            level.keys.found(key)->0,
            j,
        ) by {
            assert(agrees(columns, q as int, query, j)) by {
                assert forall|c: int| 0 <= c < q implies (#[trigger] query[c]).finds(columns[c][j]) by {}
            }
            assert(key.finds(columns[q as int][j]));
            lemma_same_first(columns, q as int, query, j, n, g);
            lemma_trace(levels, n, columns, row_keys(columns, j), q);
            lemma_first_unique(columns, q as int, row_keys(columns, j), n, g, before[j]);
        }
        match r {
            Some(i) => {
                let gi = g->0;
                let k = level.keys.found(key)->0;
                assert(level.known(columns[q as int], before, gi, k, i as int));
                lemma_trace(levels, n, columns, row_keys(columns, i as int), q);
                assert(agrees(columns, q as int, row_keys(columns, i as int), gi as int));
                lemma_agrees(columns, q as int, query, gi as int, i as int);
                let own = columns[q as int][i as int];
                assert(is_first(columns[q as int], own, level.keys.found(own)));
                assert(key.finds(own));
                assert(agrees(columns, p as int, query, i as int)) by {
                    assert forall|c: int| 0 <= c < p implies (#[trigger] query[c]).finds(
                        columns[c][i as int],
                    ) by {}
                }
                assert forall|j: int| 0 <= j < i implies !#[trigger] agrees(
                    columns,
                    p as int,
                    query,
                    j,
                ) by {
                    assert(!level.known(columns[q as int], before, gi, k, j));
                }
            },
            None => {
                assert forall|j: int| 0 <= j < n implies !#[trigger] agrees(
                    columns,
                    p as int,
                    query,
                    j,
                ) by {
                    if agrees(columns, p as int, query, j) {
                        assert(level.paired(g->0, level.keys.found(key)->0) is None);
                        assert(!level.known(
                            columns[q as int],
                            before,
                            g->0,
                            level.keys.found(key)->0,
                            j,
                        ));
                    }
                }
            },
        }
    } else {
        assert forall|j: int| agrees(columns, 0, query, j) by {}
    }
}

/// A row that keys find has the same first row as they.
proof fn lemma_same_first(
    columns: Seq<Seq<KeyView>>,
    p: int,
    query: Seq<KeyView>,
    i: int,
    n: nat,
    r: Option<usize>,
)
    requires
        0 <= p <= columns.len(),
        0 <= i < n,
        agrees(columns, p, query, i),
        is_first_row(columns, p, query, n, r),
    ensures
        is_first_row(columns, p, row_keys(columns, i), n, r),
{
    lemma_agrees(columns, p, query, i, i);
    if let Some(f) = r {
        assert(agrees(columns, p, row_keys(columns, i), f as int));
    }
}

/// There is one first row.
proof fn lemma_first_unique(
    columns: Seq<Seq<KeyView>>,
    p: int,
    query: Seq<KeyView>,
    n: nat,
    a: Option<usize>,
    b: Option<usize>,
)
    requires
        is_first_row(columns, p, query, n, a),
        is_first_row(columns, p, query, n, b),
    ensures
        a == b,
{
}

/// What rows are known by does not change with the levels that follow.
proof fn lemma_trace_push(levels: Seq<Level>, level: Level, n: nat, query: Seq<KeyView>, p: nat)
    requires
        p <= levels.len(),
    ensures
        trace(levels.push(level), n, query, p) == trace(levels, n, query, p),
    decreases p,
{
    if p > 0 {
        lemma_trace_push(levels, level, n, query, (p - 1) as nat);
        assert(levels.push(level)[p - 1] == levels[p - 1]);
    }
}

/// Whether each of `n` rows has the keys that are looked for, in every column.
pub open spec fn key_hits(columns: Seq<Seq<KeyView>>, query: Seq<KeyView>, n: nat) -> Seq<bool> {
    Seq::new(n, |i: int| agrees(columns, columns.len() as int, query, i))
}

/// An index of rows by their keys in several columns.
pub(crate) struct RowIndex {
    n: usize,
    levels: Vec<Level>,
    members: Vec<Vec<usize>>,
}

impl RowIndex {
    /// Whether this is the index of `n` rows with the given columns of keys.
    pub(crate) closed spec fn indexes(&self, columns: Seq<Seq<KeyView>>, n: nat) -> bool {
        &&& self.n == n
        &&& self.levels@.len() == columns.len()
        &&& levels_wf(self.levels@, n, columns)
        &&& self.members@.len() == n
        &&& forall|g: usize|
            g < n ==> #[trigger] self.members@[g as int]@ == crate::selection::rows(
                members_of(traces(self.levels@, n, columns, columns.len()), g),
            )
    }

    /// The index of some columns.
    pub(crate) fn build(columns: &Vec<Vec<LookupKey>>, n: usize) -> (r: RowIndex)
        requires
            forall|p: int| 0 <= p < columns@.len() ==> (#[trigger] columns@[p])@.len() == n,
        ensures
            r.indexes(column_views(columns@), n as nat),
    {
        let ghost all = column_views(columns@);
        assert forall|p: int| 0 <= p < all.len() implies (#[trigger] all[p]).len() == n by {
            assert(columns@[p]@.len() == n);
        }
        let mut levels: Vec<Level> = Vec::new();
        let mut known: Vec<Option<usize>> = Vec::new();
        let mut i: usize = 0;
        while i < n
            invariant
                i <= n,
                known@.len() == i,
                forall|j: int| 0 <= j < i ==> #[trigger] known@[j] == Some(0usize),
            decreases n - i,
        {
            known.push(Some(0));
            i = i + 1;
        }
        assert(known@ =~= traces(levels@, n as nat, all, 0));
        let mut p: usize = 0;
        while p < columns.len()
            invariant
                p <= columns@.len() == all.len(),
                all == column_views(columns@),
                forall|q: int| 0 <= q < columns@.len() ==> (#[trigger] columns@[q])@.len() == n,
                levels@.len() == p,
                levels_wf(levels@, n as nat, all),
                known@ == traces(levels@, n as nat, all, p as nat),
            decreases columns@.len() - p,
        {
            let column = &columns[p];
            let level = Level::build(column, &known);
            let ghost grown = levels@.push(level);
            proof {
                assert(all[p as int] == key_views(column@));
                assert forall|q: int| 0 <= q < grown.len() implies (#[trigger] grown[q]).wf(
                    all[q],
                    traces(grown, n as nat, all, q as nat),
                ) by {
                    assert forall|i: int| 0 <= i < n implies trace(
                        grown,
                        n as nat,
                        #[trigger] row_keys(all, i),
                        q as nat,
                    ) == trace(levels@, n as nat, row_keys(all, i), q as nat) by {
                        lemma_trace_push(levels@, level, n as nat, row_keys(all, i), q as nat);
                    }
                    assert(traces(grown, n as nat, all, q as nat) =~= traces(
                        levels@,
                        n as nat,
                        all,
                        q as nat,
                    ));
                    if q < p {
                        assert(grown[q] == levels@[q]);
                    }
                }
            }
            let mut next: Vec<Option<usize>> = Vec::new();
            let mut i: usize = 0;
            while i < n
                invariant
                    i <= n == column@.len() == known@.len(),
                    next@.len() == i,
                    forall|j: int| 0 <= j < i ==> #[trigger] next@[j] == level.after(known@[j], column@[j]@),
                decreases n - i,
            {
                next.push(level.step(known[i], &column[i]));
                i = i + 1;
            }
            proof {
                assert forall|j: int| 0 <= j < n implies next@[j] == #[trigger] traces(
                    grown,
                    n as nat,
                    all,
                    (p + 1) as nat,
                )[j] by {
                    lemma_trace_push(levels@, level, n as nat, row_keys(all, j), p as nat);
                    assert(known@[j] == trace(levels@, n as nat, row_keys(all, j), p as nat));
                    assert(grown[p as int] == level);
                    assert(row_keys(all, j)[p as int] == column@[j]@);
                }
                assert(next@ =~= traces(grown, n as nat, all, (p + 1) as nat));
            }
            levels.push(level);
            known = next;
            p = p + 1;
        }
        let members = group(&known, n);
        RowIndex { n, levels, members }
    }

    /// The rows with the given keys.
    pub(crate) fn matching(
        &self,
        query: &Vec<LookupKey>,
        Ghost(columns): Ghost<Seq<Seq<KeyView>>>,
        Ghost(n): Ghost<nat>,
    ) -> (r: Vec<usize>)
        requires
            query@.len() == columns.len(),
            self.indexes(columns, n),
        ensures
            r@ == crate::selection::rows(key_hits(columns, key_views(query@), n)),
    {
        let ghost q = key_views(query@);
        let mut g: Option<usize> = if self.n > 0 {
            Some(0)
        } else {
            None
        };
        let mut p: usize = 0;
        while p < self.levels.len()
            invariant
                p <= self.levels@.len() == query@.len(),
                q == key_views(query@),
                n == self.n,
                g == trace(self.levels@, n, q, p as nat),
            decreases self.levels@.len() - p,
        {
            g = self.levels[p].step(g, &query[p]);
            p = p + 1;
        }
        let ghost hits = key_hits(columns, q, n);
        let ghost known = traces(self.levels@, n, columns, columns.len());
        proof {
            lemma_trace(self.levels@, n, columns, q, p as nat);
            assert forall|i: int| 0 <= i < n implies #[trigger] hits[i] == (g is Some && known[i] == g) by {
                lemma_trace(self.levels@, n, columns, row_keys(columns, i), p as nat);
                if hits[i] {
                    lemma_same_first(columns, p as int, q, i, n, g);
                    lemma_first_unique(columns, p as int, row_keys(columns, i), n, g, known[i]);
                } else if g is Some && known[i] == g {
                    lemma_agrees(columns, p as int, q, g->0 as int, i);
                }
            }
        }
        match g {
            Some(g) => {
                assert(hits =~= members_of(known, g));
                copy_rows(&self.members[g])
            },
            None => {
                proof {
                    lemma_no_rows(hits);
                }
                Vec::new()
            },
        }
    }
}

/// Whether each row is known by `g`.
spec fn members_of(known: Seq<Option<usize>>, g: usize) -> Seq<bool> {
    Seq::new(known.len(), |i: int| known[i] == Some(g))
}

proof fn lemma_no_rows(hits: Seq<bool>)
    requires
        forall|i: int| 0 <= i < hits.len() ==> !#[trigger] hits[i],
    ensures
        crate::selection::rows(hits) == Seq::<usize>::empty(),
    decreases hits.len(),
{
    if hits.len() > 0 {
        lemma_no_rows(hits.drop_last());
    }
}

fn copy_rows(rows: &Vec<usize>) -> (r: Vec<usize>)
    ensures
        r@ == rows@,
{
    let mut r: Vec<usize> = Vec::new();
    let mut i: usize = 0;
    while i < rows.len()
        invariant
            i <= rows@.len(),
            r@ == rows@.take(i as int),
        decreases rows@.len() - i,
    {
        r.push(rows[i]);
        i = i + 1;
        assert(r@ =~= rows@.take(i as int));
    }
    assert(rows@.take(i as int) =~= rows@);
    r
}

/// The rows that each of `n` rows is known by.
fn group(known: &Vec<Option<usize>>, n: usize) -> (r: Vec<Vec<usize>>)
    requires
        known@.len() == n,
    ensures
        r@.len() == n,
        forall|g: usize|
            g < n ==> #[trigger] r@[g as int]@ == crate::selection::rows(members_of(known@, g)),
{
    let mut r: Vec<Vec<usize>> = Vec::new();
    let mut i: usize = 0;
    while i < n
        invariant
            i <= n,
            r@.len() == i,
            forall|g: int| 0 <= g < i ==> #[trigger] r@[g]@ == Seq::<usize>::empty(),
        decreases n - i,
    {
        r.push(Vec::new());
        i = i + 1;
    }
    assert forall|g: usize| g < n implies #[trigger] r@[g as int]@ == crate::selection::rows(
        members_of(known@, g).take(0),
    ) by {}
    let mut i: usize = 0;
    while i < n
        invariant
            i <= n == known@.len() == r@.len(),
            forall|g: usize|
                g < n ==> #[trigger] r@[g as int]@ == crate::selection::rows(
                    members_of(known@, g).take(i as int),
                ),
        decreases n - i,
    {
        let ghost before = r@;
        if let Some(g) = known[i] {
            if g < n {
                r[g].push(i);
            }
        }
        proof {
            assert forall|g: usize| g < n implies #[trigger] r@[g as int]@
                == crate::selection::rows(members_of(known@, g).take(i + 1)) by {
                crate::selection::lemma_rows_step(members_of(known@, g), i as int);
                assert(before[g as int]@ == crate::selection::rows(
                    members_of(known@, g).take(i as int),
                ));
            }
        }
        i = i + 1;
    }
    assert forall|g: usize| g < n implies #[trigger] r@[g as int]@ == crate::selection::rows(
        members_of(known@, g),
    ) by {
        assert(members_of(known@, g).take(n as int) =~= members_of(known@, g));
    }
    r
}

}
