//! A table that finds the first row with an equal cell: texts and blanks by their keys, numbers by
//! those near them.
use vstd::prelude::*;
use crate::cell::{KeyView, LookupKey};
use crate::keys::KeyTable;
use crate::near::NumberIndex;
use crate::number::Number;

verus! {

/// The key of each row that has one, as contracts speak of it.
pub open spec fn some_keys(keys: Seq<Option<LookupKey>>) -> Seq<Option<KeyView>> {
    Seq::new(
        keys.len(),
        |i: int|
            match keys[i] {
                Some(k) => Some(k@),
                None => None,
            },
    )
}

/// Whether each row has the key of an equal cell.
pub open spec fn met_flags(keys: Seq<Option<KeyView>>, key: KeyView) -> Seq<bool> {
    Seq::new(keys.len(), |i: int| met_at(keys, key, i))
}

/// Whether a row has the key of an equal cell.
pub open spec fn met_at(keys: Seq<Option<KeyView>>, key: KeyView, i: int) -> bool {
    match keys[i] {
        Some(k) => key.meets(k),
        None => false,
    }
}

/// The numbers among the keys.
spec fn number_column(keys: Seq<Option<KeyView>>) -> Seq<Option<Number>> {
    Seq::new(
        keys.len(),
        |i: int|
            match keys[i] {
                Some(KeyView::Num(n)) => Some(n),
                _ => None,
            },
    )
}

/// The first row with each key.
pub(crate) struct KeyIndex {
    table: KeyTable,
    numbers: NumberIndex,
}

impl KeyIndex {
    /// Whether this is the index of some keys.
    pub(crate) closed spec fn indexes(&self, keys: Seq<Option<KeyView>>) -> bool {
        &&& keys.len() <= usize::MAX
        &&& self.numbers.indexes(number_column(keys))
        &&& forall|k: KeyView|
            !(k is Num) ==> #[trigger] self.table.found(k) == crate::lookup::first_hit(
                met_flags(keys, k),
            )
    }

    /// The index of some keys; rows without a key are passed over.
    pub(crate) fn build(keys: &Vec<Option<LookupKey>>) -> (r: KeyIndex)
        ensures
            r.indexes(some_keys(keys@)),
    {
        let ghost all = some_keys(keys@);
        let n = keys.len();
        let mut table = KeyTable::new();
        let mut column: Vec<Option<Number>> = Vec::new();
        let mut i: usize = 0;
        while i < n
            invariant
                i <= n == keys@.len() == all.len(),
                all == some_keys(keys@),
                column@.len() == i,
                forall|j: int| 0 <= j < i ==> #[trigger] column@[j] == number_column(all)[j],
                forall|k: KeyView|
                    !(k is Num) ==> #[trigger] table.found(k) == crate::lookup::first_hit(
                        met_flags(all, k).take(i as int),
                    ),
            decreases n - i,
        {
            let ghost before = table;
            match &keys[i] {
                Some(LookupKey::Num(x)) => {
                    column.push(Some(*x));
                },
                Some(key) => {
                    table.insert_first(key, i);
                    column.push(None);
                },
                None => {
                    column.push(None);
                },
            }
            proof {
                assert forall|k: KeyView| !(k is Num) implies #[trigger] table.found(k)
                    == crate::lookup::first_hit(met_flags(all, k).take(i + 1)) by {
                    crate::lookup::lemma_first_step(met_flags(all, k), i as int);
                    assert(before.found(k) == crate::lookup::first_hit(
                        met_flags(all, k).take(i as int),
                    ));
                }
            }
            i = i + 1;
        }
        proof {
            assert(column@ =~= number_column(all));
            assert forall|k: KeyView| !(k is Num) implies #[trigger] table.found(k)
                == crate::lookup::first_hit(met_flags(all, k)) by {
                assert(met_flags(all, k).take(i as int) =~= met_flags(all, k));
            }
        }
        KeyIndex { table, numbers: NumberIndex::build(&column) }
    }

    /// The first row with the key of an equal cell.
    pub(crate) fn first(
        &self,
        key: &LookupKey,
        Ghost(keys): Ghost<Seq<Option<KeyView>>>,
    ) -> (r: Option<usize>)
        requires
            self.indexes(keys),
        ensures
            r == crate::lookup::first_hit(met_flags(keys, key@)),
            r matches Some(i) ==> i < keys.len(),
    {
        proof {
            crate::lookup::law_first_hit(met_flags(keys, key@));
        }
        match key {
            LookupKey::Num(n) => {
                proof {
                    assert(crate::near::near_flags(number_column(keys), *n) =~= met_flags(
                        keys,
                        key@,
                    ));
                }
                self.numbers.first_near(*n, Ghost(number_column(keys)))
            },
            _ => self.table.get(key),
        }
    }

    /// The first row with the key of a text. The text is in lower case.
    pub(crate) fn first_text(
        &self,
        text: &str,
        Ghost(keys): Ghost<Seq<Option<KeyView>>>,
    ) -> (r: Option<usize>)
        requires
            self.indexes(keys),
        ensures
            r == crate::lookup::first_hit(met_flags(keys, KeyView::Text(text@))),
            r matches Some(i) ==> i < keys.len(),
    {
        proof {
            crate::lookup::law_first_hit(met_flags(keys, KeyView::Text(text@)));
        }
        self.table.get_text(text)
    }
}

}
