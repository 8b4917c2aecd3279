//! Passes over many rows, on all cores where there are enough of them.
use vstd::prelude::*;
use rayon::prelude::{IntoParallelIterator, ParallelIterator};

verus! {

/// From how many rows on a pass is shared out among the cores.
pub const PARALLEL_THRESHOLD: usize = 50_000;

/// Whether each of `n` rows may be handed to `f`.
pub open spec fn takes<F: Fn(usize) -> bool>(f: F, n: usize) -> bool {
    forall|i: usize| i < n ==> #[trigger] call_requires(f, (i,))
}

/// Whether the flags are what `f` answers for each row.
pub open spec fn answers<F: Fn(usize) -> bool>(f: F, flags: Seq<bool>) -> bool {
    forall|i: int|
        0 <= i < flags.len() ==> call_ensures(f, (i as usize,), #[trigger] flags[i])
}

/// Whether some rows are those, of `n`, that `keep` keeps, in order.
pub open spec fn keeps<F: Fn(usize) -> bool>(keep: F, n: usize, rows: Seq<usize>) -> bool {
    exists|flags: Seq<bool>|
        flags.len() == n && #[trigger] answers(keep, flags) && rows == crate::selection::rows(flags)
}

/// Whether `keep` keeps this many rows of `n`.
pub open spec fn keeps_count<F: Fn(usize) -> bool>(keep: F, n: usize, count: usize) -> bool {
    exists|rows: Seq<usize>| #[trigger] keeps(keep, n, rows) && count == rows.len()
}

/// Calls rayon's `map` on the parallel iterator of a range, and collects: the answer for each row, in
/// the order of the rows.
#[verifier::external_body]
fn par_map<F: Fn(usize) -> bool + Sync + Send>(n: usize, f: F) -> (out: Vec<bool>)
    requires
        takes(f, n),
    ensures
        out@.len() == n,
        answers(f, out@),
{
    (0..n).into_par_iter().map(f).collect()
}

/// Calls rayon's `filter` on the parallel iterator of a range, and collects: the rows that are kept,
/// in order.
#[verifier::external_body]
fn par_filter<F: Fn(usize) -> bool + Sync + Send>(n: usize, keep: F) -> (out: Vec<usize>)
    requires
        takes(keep, n),
    ensures
        keeps(keep, n, out@),
{
    (0..n).into_par_iter().filter(|i| keep(*i)).collect()
}

/// Calls rayon's `filter` on the parallel iterator of a range, and counts the rows that are kept.
#[verifier::external_body]
fn par_count<F: Fn(usize) -> bool + Sync + Send>(n: usize, keep: F) -> (out: usize)
    requires
        takes(keep, n),
    ensures
        keeps_count(keep, n, out),
{
    (0..n).into_par_iter().filter(|i| keep(*i)).count()
}

/// The answer of `f` for each of `n` rows.
pub(crate) fn map_rows<F: Fn(usize) -> bool + Sync + Send>(n: usize, f: F) -> (out: Vec<bool>)
    requires
        takes(f, n),
    ensures
        out@.len() == n,
        answers(f, out@),
{
    if n >= PARALLEL_THRESHOLD {
        return par_map(n, f);
    }
    let mut out: Vec<bool> = Vec::new();
    let mut i: usize = 0;
    while i < n
        invariant
            i <= n,
            takes(f, n),
            out@.len() == i,
            answers(f, out@),
        decreases n - i,
    {
        out.push(f(i));
        i = i + 1;
    }
    out
}

/// The rows, of `n`, that are kept.
pub(crate) fn filter_rows<F: Fn(usize) -> bool + Sync + Send>(n: usize, keep: F) -> (out: Vec<usize>)
    requires
        takes(keep, n),
    ensures
        keeps(keep, n, out@),
{
    if n >= PARALLEL_THRESHOLD {
        par_filter(n, keep)
    } else {
        let flags = map_rows(n, keep);
        let rows = crate::selection::rows_of(&flags);
        assert(answers(keep, flags@));
        rows
    }
}

/// How many rows, of `n`, are kept.
pub(crate) fn count_rows<F: Fn(usize) -> bool + Sync + Send>(n: usize, keep: F) -> (out: usize)
    requires
        takes(keep, n),
    ensures
        keeps_count(keep, n, out),
{
    if n >= PARALLEL_THRESHOLD {
        par_count(n, keep)
    } else {
        let flags = map_rows(n, keep);
        let rows = crate::selection::rows_of(&flags);
        assert(answers(keep, flags@));
        assert(keeps(keep, n, rows@));
        rows.len()
    }
}

}
