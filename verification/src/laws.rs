//! The loader's laws.
//!
//! Each proof function below states one guarantee of the loader over the
//! transitions of [`crate::model`], which are exactly what the executable
//! operations of [`crate::dataloader::DataLoader`] are specified by.

use vstd::prelude::*;

use crate::model::{
    after_begin, after_cancel, after_fail, after_finish, after_load, complete_for, distinct_keys,
    drop_waiter, empty_view, flight, has_flight, has_key, is_ready, is_requested,
    lemma_drop_waiter_keeps, lemma_install_properties, lemma_install_value,
    lemma_wf_after_begin, lemma_wf_after_cancel, lemma_wf_after_fail, lemma_wf_after_finish,
    lemma_wf_after_load, lemma_woken_ids_complete, value_for, wf, woken_ids, LoaderView,
};

verus! {

/// The state after a sequence of `load` calls, one per requesting waiter,
/// in call order.
pub open spec fn after_loads<V>(s: LoaderView<V>, reqs: Seq<(Seq<char>, u64)>) -> LoaderView<V>
    decreases reqs.len(),
{
    if reqs.len() == 0 {
        s
    } else {
        after_loads(after_load(s, reqs[0].0, reqs[0].1), reqs.drop_first())
    }
}

/// How `load` calls accumulate while no dispatch is in flight: they
/// resolve nothing, and the pending set afterwards holds the old pending
/// keys and every requested key that had not already resolved — and
/// nothing else.
pub proof fn lemma_loads_accumulate<V>(s: LoaderView<V>, reqs: Seq<(Seq<char>, u64)>)
    requires
        wf(s),
        !has_flight(s),
    ensures
        wf(after_loads(s, reqs)),
        !has_flight(after_loads(s, reqs)),
        after_loads(s, reqs).resolved == s.resolved,
        forall|k: Seq<char>| s.pending.contains(k) ==> after_loads(s, reqs).pending.contains(k),
        forall|i: int|
            0 <= i < reqs.len() ==> is_ready(s, (#[trigger] reqs[i]).0) || after_loads(
                s,
                reqs,
            ).pending.contains(reqs[i].0),
        forall|j: int|
            0 <= j < after_loads(s, reqs).pending.len() ==> s.pending.contains(
                #[trigger] after_loads(s, reqs).pending[j],
            ) || (exists|i: int| 0 <= i < reqs.len() && reqs[i].0 == after_loads(s, reqs).pending[j]),
    decreases reqs.len(),
{
    if reqs.len() > 0 {
        let k0 = reqs[0].0;
        let w0 = reqs[0].1;
        let s1 = after_load(s, k0, w0);
        let rest = reqs.drop_first();
        let t = after_loads(s, reqs);
        lemma_wf_after_load(s, k0, w0);
        lemma_loads_accumulate(s1, rest);
        assert forall|k: Seq<char>| s.pending.contains(k) implies s1.pending.contains(k) by {
            let j = choose|j: int| 0 <= j < s.pending.len() && s.pending[j] == k;
            assert(s1.pending[j] == k);
        }
        assert forall|i: int|
            0 <= i < reqs.len() implies is_ready(s, (#[trigger] reqs[i]).0) || t.pending.contains(
            reqs[i].0,
        ) by {
            if i == 0 {
                if !is_ready(s, k0) {
                    if is_requested(s, k0) {
                        assert(s.pending.contains(k0));
                        assert(s1.pending.contains(k0));
                    } else {
                        assert(s1.pending[s1.pending.len() - 1] == k0);
                        assert(s1.pending.contains(k0));
                    }
                }
            } else {
                assert(reqs[i] == rest[i - 1]);
                assert(is_ready(s1, rest[i - 1].0) == is_ready(s, reqs[i].0));
            }
        }
        assert forall|j: int|
            0 <= j < t.pending.len() implies s.pending.contains(#[trigger] t.pending[j]) || (
        exists|i: int| 0 <= i < reqs.len() && reqs[i].0 == t.pending[j]) by {
            if s1.pending.contains(t.pending[j]) {
                if s.pending.contains(t.pending[j]) {
                } else {
                    let a = choose|a: int| 0 <= a < s1.pending.len() && s1.pending[a] == t.pending[j];
                    assert(s1.pending[a] == k0);
                    assert(reqs[0].0 == t.pending[j]);
                }
            } else {
                let i = choose|i: int| 0 <= i < rest.len() && rest[i].0 == t.pending[j];
                assert(reqs[i + 1].0 == t.pending[j]);
            }
        }
    }
}

/// One dispatch per episode.  Start an episode with nothing pending and no
/// dispatch in flight, and let any number of concurrent `load` calls
/// suspend before the computation next suspends as a whole.  The single
/// drain that follows claims the deduplicated set of the requested keys:
/// every requested key that had not already resolved is claimed, each key
/// exactly once, and no other key is claimed.
pub proof fn lemma_episode_dispatches_once<V>(s: LoaderView<V>, reqs: Seq<(Seq<char>, u64)>)
    requires
        wf(s),
        !has_flight(s),
        s.pending.len() == 0,
    ensures
        after_begin(after_loads(s, reqs)).in_flight == Option::Some(after_loads(s, reqs).pending),
        after_begin(after_loads(s, reqs)).pending.len() == 0,
        distinct_keys(after_loads(s, reqs).pending),
        forall|i: int|
            0 <= i < reqs.len() ==> is_ready(s, (#[trigger] reqs[i]).0) || after_loads(
                s,
                reqs,
            ).pending.contains(reqs[i].0),
        forall|j: int|
            0 <= j < after_loads(s, reqs).pending.len() ==> (exists|i: int|
                0 <= i < reqs.len() && reqs[i].0 == #[trigger] after_loads(s, reqs).pending[j])
                && !is_ready(s, after_loads(s, reqs).pending[j]),
{
    lemma_loads_accumulate(s, reqs);
    let t = after_loads(s, reqs);
    assert forall|j: int|
        0 <= j < t.pending.len() implies (exists|i: int|
        0 <= i < reqs.len() && reqs[i].0 == #[trigger] t.pending[j]) && !is_ready(
        s,
        t.pending[j],
    ) by {
        assert(!s.pending.contains(t.pending[j]));
        assert(!is_ready(t, t.pending[j]));
    }
}

/// A dispatch never covers a resolved key: the keys a drain claims, and
/// the keys any in-flight dispatch holds, are all unresolved.
pub proof fn lemma_dispatch_never_takes_ready_key<V>(s: LoaderView<V>)
    requires
        wf(s),
    ensures
        forall|i: int| 0 <= i < s.pending.len() ==> !is_ready(s, #[trigger] s.pending[i]),
        forall|i: int| 0 <= i < flight(s).len() ==> !is_ready(s, #[trigger] flight(s)[i]),
{
}

/// A `load` of a resolved key changes nothing at all: the caller is
/// answered from the entry, registers no waiter, and adds nothing to any
/// later dispatch.
pub proof fn lemma_ready_load_changes_nothing<V>(s: LoaderView<V>, k: Seq<char>, w: u64)
    requires
        is_ready(s, k),
    ensures
        after_load(s, k, w) == s,
{
}

/// Any single transition of the loader.
pub open spec fn loader_step<V>(s: LoaderView<V>, t: LoaderView<V>) -> bool {
    ||| (exists|k: Seq<char>, w: u64| t == after_load(s, k, w))
    ||| (exists|k: Seq<char>, w: u64| t == after_cancel(s, k, w))
    ||| (!has_flight(s) && t == after_begin(s))
    ||| (has_flight(s) && (exists|res: Seq<(Seq<char>, V)>| t == after_finish(s, res)))
    ||| (has_flight(s) && t == after_fail(s))
}

/// Every transition preserves well-formedness: the loader's invariants
/// hold in every reachable state.
pub proof fn lemma_step_preserves_wf<V>(s: LoaderView<V>, t: LoaderView<V>)
    requires
        wf(s),
        loader_step(s, t),
    ensures
        wf(t),
{
    if exists|k: Seq<char>, w: u64| t == after_load(s, k, w) {
        let (k, w) = choose|k: Seq<char>, w: u64| t == after_load(s, k, w);
        lemma_wf_after_load(s, k, w);
    } else if exists|k: Seq<char>, w: u64| t == after_cancel(s, k, w) {
        let (k, w) = choose|k: Seq<char>, w: u64| t == after_cancel(s, k, w);
        lemma_wf_after_cancel(s, k, w);
    } else if !has_flight(s) && t == after_begin(s) {
        lemma_wf_after_begin(s);
    } else if has_flight(s) && (exists|res: Seq<(Seq<char>, V)>| t == after_finish(s, res)) {
        let res = choose|res: Seq<(Seq<char>, V)>| t == after_finish(s, res);
        lemma_wf_after_finish(s, res);
    } else {
        lemma_wf_after_fail(s);
    }
}

/// Resolved entries are terminal.  Once a key resolves, every later
/// transition keeps it resolved with the very same value; together with
/// [`lemma_ready_load_changes_nothing`], all current and future `load`
/// calls for it are answered with that value and trigger no dispatch.
pub proof fn lemma_ready_is_terminal<V>(s: LoaderView<V>, t: LoaderView<V>, k: Seq<char>)
    requires
        wf(s),
        loader_step(s, t),
        is_ready(s, k),
    ensures
        is_ready(t, k),
        t.resolved[k] == s.resolved[k],
{
    if has_flight(s) && (exists|res: Seq<(Seq<char>, V)>| t == after_finish(s, res)) {
        let res = choose|res: Seq<(Seq<char>, V)>| t == after_finish(s, res);
        lemma_install_properties(s.resolved, flight(s), res);
    }
}

/// Two `load` calls separated by a full resolve-then-request cycle (the
/// second issued only after the first's batch completed) produce two
/// separate dispatches, each claiming exactly its one key.
pub proof fn lemma_sequential_cycles_dispatch_separately<V>(
    x: Seq<char>,
    y: Seq<char>,
    w1: u64,
    w2: u64,
    res: Seq<(Seq<char>, V)>,
)
    requires
        x != y,
        complete_for(res, seq![x]),
    ensures
        ({
            let s1 = after_load(empty_view::<V>(), x, w1);
            let s2 = after_begin(s1);
            let s3 = after_finish(s2, res);
            let s4 = after_load(s3, y, w2);
            &&& s1.pending =~= seq![x]
            &&& flight(s2) =~= seq![x]
            &&& is_ready(s3, x)
            &&& s3.resolved[x] == value_for(res, x)
            &&& s4.pending =~= seq![y]
            &&& flight(after_begin(s4)) =~= seq![y]
        }),
{
    let s0 = empty_view::<V>();
    let s1 = after_load(s0, x, w1);
    assert(s1.pending =~= seq![x]);
    let s2 = after_begin(s1);
    let s3 = after_finish(s2, res);
    lemma_install_properties(s2.resolved, flight(s2), res);
    assert(flight(s2)[0] == x);
    assert(flight(s2).contains(x));
    assert(seq![x][0] == x);
    assert(has_key(res, x));
    lemma_install_value(s2.resolved, flight(s2), res, x);
    assert(is_ready(s3, x));
    assert(!flight(s2).contains(y));
    assert(!is_ready(s3, y));
    let s4 = after_load(s3, y, w2);
    assert(s3.pending.len() == 0);
    assert(!is_requested(s3, y));
    assert(s4.pending =~= seq![y]);
}

/// Cancelling one waiter for a key leaves every other waiter — including
/// other waiters for the same key — registered, and when that key's batch
/// completes, the surviving waiter is still among those woken.
pub proof fn lemma_cancel_spares_other_waiters<V>(
    s: LoaderView<V>,
    k: Seq<char>,
    w: u64,
    i: int,
)
    requires
        wf(s),
        0 <= i < s.waiters.len(),
        s.waiters[i] != (k, w),
    ensures
        after_cancel(s, k, w).waiters.contains(s.waiters[i]),
        flight(s).contains(s.waiters[i].0) ==> woken_ids(
            after_cancel(s, k, w).waiters,
            flight(s),
        ).contains(s.waiters[i].1),
{
    lemma_drop_waiter_keeps(s.waiters, k, w, i);
    if flight(s).contains(s.waiters[i].0) {
        let d = drop_waiter(s.waiters, k, w);
        let j = choose|j: int| 0 <= j < d.len() && d[j] == s.waiters[i];
        lemma_woken_ids_complete(d, flight(s), j);
    }
}

} // verus!
