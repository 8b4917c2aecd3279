//! How often each text occurs.
use vstd::prelude::*;
use vstd::hash_map::StringHashMap;

verus! {

/// Some texts, as contracts speak of them.
pub open spec fn string_views(texts: Seq<String>) -> Seq<Seq<char>> {
    Seq::new(texts.len(), |i: int| texts[i]@)
}

/// The different texts, in the order in which they are first seen.
pub open spec fn distinct(texts: Seq<Seq<char>>) -> Seq<Seq<char>>
    decreases texts.len(),
{
    if texts.len() == 0 {
        Seq::empty()
    } else {
        let before = distinct(texts.drop_last());
        if before.contains(texts.last()) {
            before
        } else {
            before.push(texts.last())
        }
    }
}

/// How often a text occurs.
pub open spec fn count_of(texts: Seq<Seq<char>>, t: Seq<char>) -> nat
    decreases texts.len(),
{
    if texts.len() == 0 {
        0
    } else if texts.last() == t {
        count_of(texts.drop_last(), t) + 1
    } else {
        count_of(texts.drop_last(), t)
    }
}

/// The different texts are those that occur, each once.
pub proof fn law_distinct(texts: Seq<Seq<char>>)
    ensures
        distinct(texts).no_duplicates(),
        forall|t: Seq<char>| #[trigger] distinct(texts).contains(t) <==> texts.contains(t),
        distinct(texts).len() <= texts.len(),
    decreases texts.len(),
{
    if texts.len() > 0 {
        let rest = texts.drop_last();
        let before = distinct(rest);
        law_distinct(rest);
        assert forall|t: Seq<char>| #[trigger] distinct(texts).contains(t) <==> texts.contains(t) by {
            if texts.contains(t) {
                let k = texts.index_of(t);
                if k < rest.len() {
                    assert(rest[k] == t);
                    assert(before.contains(t));
                    let j = before.index_of(t);
                    assert(distinct(texts)[j] == t);
                } else if !before.contains(t) {
                    assert(distinct(texts).last() == t);
                }
            }
            if distinct(texts).contains(t) {
                let j = distinct(texts).index_of(t);
                if j < before.len() {
                    assert(before[j] == t);
                    assert(before.contains(t));
                    let k = rest.index_of(t);
                    assert(texts[k] == t);
                } else {
                    assert(texts.last() == t);
                }
            }
        }
    }
}

/// A text occurs at most as often as there are texts, and it occurs where it is among them.
pub proof fn law_count(texts: Seq<Seq<char>>, t: Seq<char>)
    ensures
        count_of(texts, t) <= texts.len(),
        count_of(texts, t) > 0 <==> texts.contains(t),
    decreases texts.len(),
{
    if texts.len() > 0 {
        let rest = texts.drop_last();
        law_count(rest, t);
        if rest.contains(t) {
            let k = rest.index_of(t);
            assert(texts[k] == t);
        }
        if texts.contains(t) && texts.last() != t {
            let k = texts.index_of(t);
            assert(rest[k] == t);
        }
    }
}

/// The different texts, in the order in which they are first seen, and how often each occurs.
pub struct Tally {
    pub names: Vec<String>,
    pub counts: Vec<usize>,
}

impl Tally {
    /// Whether this is the tally of some texts.
    pub open spec fn of(&self, texts: Seq<Seq<char>>) -> bool {
        &&& string_views(self.names@) == distinct(texts)
        &&& self.counts@.len() == self.names@.len()
        &&& forall|i: int|
            0 <= i < self.counts@.len() ==> #[trigger] self.counts@[i] == count_of(
                texts,
                distinct(texts)[i],
            )
    }
}

/// Whether an index has the place of each name.
spec fn index_ok(index: Map<Seq<char>, usize>, names: Seq<Seq<char>>) -> bool {
    &&& forall|t: Seq<char>| #[trigger]
        index.contains_key(t) ==> index[t] < names.len() && names[index[t] as int] == t
    &&& forall|i: int|
        0 <= i < names.len() ==> index.contains_key(#[trigger] names[i]) && index[names[i]] == i
}

/// Counts how often each text occurs.
pub fn tally(texts: &Vec<String>) -> (r: Tally)
    ensures
        r.of(string_views(texts@)),
{
    let ghost all = string_views(texts@);
    let mut index: StringHashMap<usize> = StringHashMap::new();
    let mut names: Vec<String> = Vec::new();
    let mut counts: Vec<usize> = Vec::new();
    let mut i: usize = 0;
    assert(string_views(names@) =~= Seq::empty());
    while i < texts.len()
        invariant
            i <= texts@.len() == all.len(),
            all == string_views(texts@),
            string_views(names@) == distinct(all.take(i as int)),
            index_ok(index@, string_views(names@)),
            counts@.len() == names@.len(),
            forall|k: int|
                0 <= k < counts@.len() ==> #[trigger] counts@[k] == count_of(
                    all.take(i as int),
                    string_views(names@)[k],
                ),
        decreases texts@.len() - i,
    {
        let ghost before = all.take(i as int);
        let ghost after = all.take(i + 1);
        let ghost seen = string_views(names@);
        let ghost old_counts = counts@;
        let ghost t = all[i as int];
        assert(after.drop_last() =~= before);
        assert(after.last() == t);
        let found = match index.get(texts[i].as_str()) {
            Some(k) => Some(*k),
            None => None,
        };
        match found {
            Some(k) => {
                assert(seen[k as int] == t);
                assert(seen.contains(t));
                proof {
                    law_count(before, t);
                }
                let c = counts[k];
                counts.set(k, c + 1);
                proof {
                    assert forall|j: int| 0 <= j < counts@.len() implies #[trigger] counts@[j]
                        == count_of(after, seen[j]) by {
                        assert(old_counts[j] == count_of(before, seen[j]));
                        if j != k {
                            assert(index@[seen[j]] == j);
                        }
                    }
                }
            },
            None => {
                proof {
                    if seen.contains(t) {
                        let j = seen.index_of(t);
                        assert(index@.contains_key(seen[j]));
                    }
                    law_distinct(before);
                    law_count(before, t);
                }
                let ghost old_index = index@;
                names.push(texts[i].clone());
                index.insert(texts[i].clone(), names.len() - 1);
                counts.push(1);
                proof {
                    assert(string_views(names@) =~= seen.push(t));
                    assert forall|j: int| 0 <= j < names@.len() implies index@.contains_key(
                        #[trigger] string_views(names@)[j],
                    ) && index@[string_views(names@)[j]] == j by {
                        if j < seen.len() {
                            assert(string_views(names@)[j] == seen[j]);
                            assert(old_index.contains_key(seen[j]));
                            assert(seen[j] != t);
                        }
                    }
                    assert forall|j: int| 0 <= j < counts@.len() implies #[trigger] counts@[j]
                        == count_of(after, string_views(names@)[j]) by {
                        if j < seen.len() {
                            assert(old_counts[j] == count_of(before, seen[j]));
                            assert(old_index.contains_key(seen[j]));
                        }
                    }
                }
            },
        }
        i = i + 1;
    }
    assert(all.take(i as int) =~= all);
    Tally { names, counts }
}

}
