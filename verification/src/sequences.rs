//! Facts about sequences that several modules use.

use vstd::prelude::*;

verus! {

/// The first `k + 1` entries hold what the first `k` hold, and entry `k`.
pub proof fn lemma_take_next<T>(list: Seq<T>, k: int, x: T)
    requires
        0 <= k < list.len(),
    ensures
        list.take(k + 1).contains(x) <==> (list.take(k).contains(x) || list[k] == x),
        list.take(k + 1) == list.take(k).push(list[k]),
{
    let more = list.take(k + 1);
    let less = list.take(k);
    assert(more == less.push(list[k]));
    if less.contains(x) {
        let at = choose|at: int| 0 <= at < less.len() && less[at] == x;
        assert(more[at] == x);
    }
    if list[k] == x {
        assert(more[k] == x);
    }
    if more.contains(x) {
        let at = choose|at: int| 0 <= at < more.len() && more[at] == x;
        if at < k {
            assert(less[at] == x);
        }
    }
}

/// In a list without duplicates, an entry does not occur before its place.
pub proof fn lemma_not_before<T>(list: Seq<T>, k: int)
    requires
        0 <= k < list.len(),
        list.no_duplicates(),
    ensures
        !list.take(k).contains(list[k]),
{
    let less = list.take(k);
    if less.contains(list[k]) {
        let at = choose|at: int| 0 <= at < less.len() && less[at] == list[k];
        assert(list[at] == list[k]);
    }
}

/// What a list with one more entry holds.
pub proof fn lemma_push_contains<T>(list: Seq<T>, last: T, x: T)
    ensures
        list.push(last).contains(x) <==> (list.contains(x) || last == x),
{
    let more = list.push(last);
    if list.contains(x) {
        let at = choose|at: int| 0 <= at < list.len() && list[at] == x;
        assert(more[at] == x);
    }
    if last == x {
        assert(more[list.len() as int] == x);
    }
    if more.contains(x) {
        let at = choose|at: int| 0 <= at < more.len() && more[at] == x;
        if at < list.len() {
            assert(list[at] == x);
        }
    }
}

} // verus!
