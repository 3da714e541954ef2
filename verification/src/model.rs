//! The mathematical model of a loader.
//!
//! A loader is described by four pieces of ghost state: the resolved
//! entries (a map from key to value), the pending set (keys requested since
//! the last dispatch, in request order, each at most once), the registered
//! waiters (key/waiter pairs, in registration order), and the keys claimed
//! by the dispatch currently in flight, if any.
//!
//! Every executable operation of [`crate::dataloader::DataLoader`] is
//! specified as one of the transition functions below, and the laws of the
//! loader are proved about these transitions in [`crate::laws`].

use vstd::prelude::*;

verus! {

/// The ghost state of one loader instance.  Keys are modelled as character
/// sequences, waiters as opaque numeric handles chosen by the caller.
#[verifier::ext_equal]
pub struct LoaderView<V> {
    /// Keys that have resolved, with their values.  Terminal: entries are
    /// never mutated or evicted for the lifetime of the loader.
    pub resolved: Map<Seq<char>, V>,
    /// Distinct keys requested since the last dispatch and not yet claimed
    /// by one, in first-request order.
    pub pending: Seq<Seq<char>>,
    /// Suspended waiters, as (key, waiter) pairs in registration order.
    pub waiters: Seq<(Seq<char>, u64)>,
    /// The keys drained by the dispatch currently in flight, if one is.
    pub in_flight: Option<Seq<Seq<char>>>,
}

/// No key occurs twice.
pub open spec fn distinct_keys(keys: Seq<Seq<char>>) -> bool {
    forall|i: int, j: int| 0 <= i < j < keys.len() ==> keys[i] != keys[j]
}

/// The keys claimed by the in-flight dispatch; empty when none is in
/// flight.
pub open spec fn flight<V>(s: LoaderView<V>) -> Seq<Seq<char>> {
    match s.in_flight {
        Option::Some(fl) => fl,
        Option::None => Seq::empty(),
    }
}

/// Whether a dispatch is in flight.
pub open spec fn has_flight<V>(s: LoaderView<V>) -> bool {
    s.in_flight is Some
}

/// Whether `k` has resolved.
pub open spec fn is_ready<V>(s: LoaderView<V>, k: Seq<char>) -> bool {
    s.resolved.contains_key(k)
}

/// Whether an entry in state `Requested` exists for `k`: the key is either
/// awaiting the next dispatch or claimed by the in-flight one.
pub open spec fn is_requested<V>(s: LoaderView<V>, k: Seq<char>) -> bool {
    s.pending.contains(k) || flight(s).contains(k)
}

/// Well-formedness of a loader state:
/// - pending and in-flight keys are each distinct and mutually disjoint
///   (a key is claimed by at most one dispatch at a time);
/// - no pending or in-flight key has already resolved;
/// - every waiter waits for a key that is pending or in flight.
pub open spec fn wf<V>(s: LoaderView<V>) -> bool {
    &&& distinct_keys(s.pending)
    &&& distinct_keys(flight(s))
    &&& forall|i: int| 0 <= i < s.pending.len() ==> !is_ready(s, #[trigger] s.pending[i])
    &&& forall|i: int| 0 <= i < s.pending.len() ==> !flight(s).contains(#[trigger] s.pending[i])
    &&& forall|i: int| 0 <= i < flight(s).len() ==> !is_ready(s, #[trigger] flight(s)[i])
    &&& forall|i: int| 0 <= i < s.waiters.len() ==> is_requested(s, (#[trigger] s.waiters[i]).0)
}

/// The state of a loader that has seen no request yet.
pub open spec fn empty_view<V>() -> LoaderView<V> {
    LoaderView {
        resolved: Map::empty(),
        pending: Seq::empty(),
        waiters: Seq::empty(),
        in_flight: Option::None,
    }
}

/// One `load(k)` call by waiter `w`.  On a resolved key nothing changes and
/// the caller is answered at once.  Otherwise the caller suspends: the
/// waiter is registered, and the key joins the pending set unless an entry
/// for it already exists.
pub open spec fn after_load<V>(s: LoaderView<V>, k: Seq<char>, w: u64) -> LoaderView<V> {
    if is_ready(s, k) {
        s
    } else {
        LoaderView {
            resolved: s.resolved,
            pending: if is_requested(s, k) {
                s.pending
            } else {
                s.pending.push(k)
            },
            waiters: s.waiters.push((k, w)),
            in_flight: s.in_flight,
        }
    }
}

/// The waiters left after every registration of waiter `w` for key `k` is
/// removed, in unchanged order.
pub open spec fn drop_waiter(ws: Seq<(Seq<char>, u64)>, k: Seq<char>, w: u64) -> Seq<
    (Seq<char>, u64),
>
    decreases ws.len(),
{
    if ws.len() == 0 {
        Seq::empty()
    } else {
        let rest = drop_waiter(ws.drop_last(), k, w);
        if ws.last().0 == k && ws.last().1 == w {
            rest
        } else {
            rest.push(ws.last())
        }
    }
}

/// Cancelling waiter `w`'s suspended `load(k)` call: only its registration
/// goes; entries, pending keys and the in-flight dispatch are untouched.
pub open spec fn after_cancel<V>(s: LoaderView<V>, k: Seq<char>, w: u64) -> LoaderView<V> {
    LoaderView {
        resolved: s.resolved,
        pending: s.pending,
        waiters: drop_waiter(s.waiters, k, w),
        in_flight: s.in_flight,
    }
}

/// Draining the pending set for a dispatch: allowed only while no dispatch
/// is in flight, and the drained keys are claimed so that no later drain
/// can take them again.
pub open spec fn can_begin<V>(s: LoaderView<V>) -> bool {
    !has_flight(s) && s.pending.len() > 0
}

/// The state after the pending set is drained into a dispatch.
pub open spec fn after_begin<V>(s: LoaderView<V>) -> LoaderView<V> {
    LoaderView {
        resolved: s.resolved,
        pending: Seq::empty(),
        waiters: s.waiters,
        in_flight: Option::Some(s.pending),
    }
}

/// Whether `res` (a batch result, in returned order) carries an entry for
/// key `k`.
pub open spec fn has_key<V>(res: Seq<(Seq<char>, V)>, k: Seq<char>) -> bool {
    exists|i: int| 0 <= i < res.len() && res[i].0 == k
}

/// Whether `res` carries an entry for every key of `keys`.
pub open spec fn complete_for<V>(res: Seq<(Seq<char>, V)>, keys: Seq<Seq<char>>) -> bool {
    forall|i: int| 0 <= i < keys.len() ==> has_key(res, #[trigger] keys[i])
}

/// The first key of `keys` for which `res` carries no entry; meaningful
/// only when `!complete_for(res, keys)`.
pub open spec fn first_missing<V>(res: Seq<(Seq<char>, V)>, keys: Seq<Seq<char>>) -> Seq<char>
    decreases keys.len(),
{
    if keys.len() == 0 {
        Seq::empty()
    } else if !has_key(res, keys[0]) {
        keys[0]
    } else {
        first_missing(res, keys.drop_first())
    }
}

/// Installing a batch result: walk `res` in order and adopt each entry
/// whose key was claimed by the dispatch and has no value yet, so the first
/// returned value for a claimed key wins and unclaimed keys are ignored.
pub open spec fn install<V>(
    m: Map<Seq<char>, V>,
    fl: Seq<Seq<char>>,
    res: Seq<(Seq<char>, V)>,
) -> Map<Seq<char>, V>
    decreases res.len(),
{
    if res.len() == 0 {
        m
    } else {
        let rest = res.drop_first();
        if fl.contains(res[0].0) && !m.contains_key(res[0].0) {
            install(m.insert(res[0].0, res[0].1), fl, rest)
        } else {
            install(m, fl, rest)
        }
    }
}

/// The waiters woken when the keys of `fl` resolve: those waiting for one
/// of them, in registration order.
pub open spec fn woken_ids(ws: Seq<(Seq<char>, u64)>, fl: Seq<Seq<char>>) -> Seq<u64>
    decreases ws.len(),
{
    if ws.len() == 0 {
        Seq::empty()
    } else {
        let rest = woken_ids(ws.drop_last(), fl);
        if fl.contains(ws.last().0) {
            rest.push(ws.last().1)
        } else {
            rest
        }
    }
}

/// The waiters that stay registered when the keys of `fl` leave the
/// loader's bookkeeping: those waiting for other keys, in unchanged order.
pub open spec fn kept_waiters(ws: Seq<(Seq<char>, u64)>, fl: Seq<Seq<char>>) -> Seq<
    (Seq<char>, u64),
>
    decreases ws.len(),
{
    if ws.len() == 0 {
        Seq::empty()
    } else {
        let rest = kept_waiters(ws.drop_last(), fl);
        if fl.contains(ws.last().0) {
            rest
        } else {
            rest.push(ws.last())
        }
    }
}

/// The state after the in-flight dispatch returns the complete result
/// `res`: every claimed key becomes ready with its returned value, and the
/// waiters for those keys are woken (removed).
pub open spec fn after_finish<V>(s: LoaderView<V>, res: Seq<(Seq<char>, V)>) -> LoaderView<V> {
    LoaderView {
        resolved: install(s.resolved, flight(s), res),
        pending: s.pending,
        waiters: kept_waiters(s.waiters, flight(s)),
        in_flight: Option::None,
    }
}

/// The state after the in-flight dispatch fails (or returns a result that
/// breaks the batch contract): nothing is installed, the waiters for the
/// claimed keys are removed so the failure can be delivered to them, and
/// the claim is released.
pub open spec fn after_fail<V>(s: LoaderView<V>) -> LoaderView<V> {
    LoaderView {
        resolved: s.resolved,
        pending: s.pending,
        waiters: kept_waiters(s.waiters, flight(s)),
        in_flight: Option::None,
    }
}

} // verus!

use vstd::prelude::*;

verus! {

/// Every waiter surviving `drop_waiter` was registered before, and none is
/// the removed registration.
pub proof fn lemma_drop_waiter_sub(ws: Seq<(Seq<char>, u64)>, k: Seq<char>, w: u64)
    ensures
        forall|i: int|
            0 <= i < drop_waiter(ws, k, w).len() ==> ws.contains(
                #[trigger] drop_waiter(ws, k, w)[i],
            ) && drop_waiter(ws, k, w)[i] != (k, w),
    decreases ws.len(),
{
    if ws.len() != 0 {
        lemma_drop_waiter_sub(ws.drop_last(), k, w);
        assert forall|i: int|
            0 <= i < drop_waiter(ws, k, w).len() implies ws.contains(
            #[trigger] drop_waiter(ws, k, w)[i],
        ) && drop_waiter(ws, k, w)[i] != (k, w) by {
            let d = drop_waiter(ws, k, w);
            let rest = drop_waiter(ws.drop_last(), k, w);
            if i < rest.len() {
                assert(d[i] == rest[i]);
                assert(ws.drop_last().contains(rest[i]));
                let j = choose|j: int|
                    0 <= j < ws.drop_last().len() && ws.drop_last()[j] == rest[i];
                assert(ws[j] == d[i]);
            } else {
                assert(d[i] == ws.last());
                assert(ws[ws.len() - 1] == ws.last());
            }
        }
    }
}

/// A registration of any other waiter-key pair survives `drop_waiter`.
pub proof fn lemma_drop_waiter_keeps(ws: Seq<(Seq<char>, u64)>, k: Seq<char>, w: u64, i: int)
    requires
        0 <= i < ws.len(),
        ws[i] != (k, w),
    ensures
        drop_waiter(ws, k, w).contains(ws[i]),
    decreases ws.len(),
{
    let rest = drop_waiter(ws.drop_last(), k, w);
    if i == ws.len() - 1 {
        assert(ws[i] == ws.last());
        let d = drop_waiter(ws, k, w);
        assert(d[d.len() - 1] == ws.last());
    } else {
        lemma_drop_waiter_keeps(ws.drop_last(), k, w, i);
        let j = choose|j: int| 0 <= j < rest.len() && rest[j] == ws.drop_last()[i];
        let d = drop_waiter(ws, k, w);
        assert(d[j] == ws[i]);
    }
}

/// Every waiter surviving `kept_waiters` was registered before, and none
/// waits for a claimed key.
pub proof fn lemma_kept_waiters_sub(ws: Seq<(Seq<char>, u64)>, fl: Seq<Seq<char>>)
    ensures
        forall|i: int|
            0 <= i < kept_waiters(ws, fl).len() ==> ws.contains(#[trigger] kept_waiters(ws, fl)[i])
                && !fl.contains(kept_waiters(ws, fl)[i].0),
    decreases ws.len(),
{
    if ws.len() != 0 {
        lemma_kept_waiters_sub(ws.drop_last(), fl);
        assert forall|i: int|
            0 <= i < kept_waiters(ws, fl).len() implies ws.contains(
            #[trigger] kept_waiters(ws, fl)[i],
        ) && !fl.contains(kept_waiters(ws, fl)[i].0) by {
            let d = kept_waiters(ws, fl);
            let rest = kept_waiters(ws.drop_last(), fl);
            if i < rest.len() {
                assert(d[i] == rest[i]);
                assert(ws.drop_last().contains(rest[i]));
                let j = choose|j: int|
                    0 <= j < ws.drop_last().len() && ws.drop_last()[j] == rest[i];
                assert(ws[j] == d[i]);
            } else {
                assert(d[i] == ws.last());
                assert(ws[ws.len() - 1] == ws.last());
            }
        }
    }
}

/// A waiter for a claimed key is woken.
pub proof fn lemma_woken_ids_complete(ws: Seq<(Seq<char>, u64)>, fl: Seq<Seq<char>>, i: int)
    requires
        0 <= i < ws.len(),
        fl.contains(ws[i].0),
    ensures
        woken_ids(ws, fl).contains(ws[i].1),
    decreases ws.len(),
{
    let rest = woken_ids(ws.drop_last(), fl);
    if i == ws.len() - 1 {
        assert(ws[i] == ws.last());
        let d = woken_ids(ws, fl);
        assert(d[d.len() - 1] == ws.last().1);
    } else {
        lemma_woken_ids_complete(ws.drop_last(), fl, i);
        let j = choose|j: int| 0 <= j < rest.len() && rest[j] == ws.drop_last()[i].1;
        let d = woken_ids(ws, fl);
        assert(d[j] == ws[i].1);
    }
}

/// A non-empty batch result carries key `k` exactly when its first entry
/// does or the remainder does.
pub proof fn lemma_has_key_step<V>(res: Seq<(Seq<char>, V)>, k: Seq<char>)
    requires
        res.len() > 0,
    ensures
        has_key(res, k) <==> (res[0].0 == k || has_key(res.drop_first(), k)),
{
    let rest = res.drop_first();
    if has_key(res, k) {
        let j = choose|j: int| 0 <= j < res.len() && res[j].0 == k;
        if j > 0 {
            assert(rest[j - 1].0 == k);
        }
    }
    if has_key(rest, k) {
        let j = choose|j: int| 0 <= j < rest.len() && rest[j].0 == k;
        assert(res[j + 1].0 == k);
    }
}

/// What `install` does to the map: an entry appears exactly for the old
/// keys and for the claimed keys that the result covers, and the old
/// entries keep their values.
pub proof fn lemma_install_properties<V>(
    m: Map<Seq<char>, V>,
    fl: Seq<Seq<char>>,
    res: Seq<(Seq<char>, V)>,
)
    ensures
        forall|k: Seq<char>| #[trigger]
            install(m, fl, res).contains_key(k) <==> (m.contains_key(k) || (fl.contains(k)
                && has_key(res, k))),
        forall|k: Seq<char>|
            m.contains_key(k) ==> #[trigger] install(m, fl, res)[k] == m[k],
    decreases res.len(),
{
    if res.len() != 0 {
        let rest = res.drop_first();
        let k0 = res[0].0;
        if fl.contains(k0) && !m.contains_key(k0) {
            let m1 = m.insert(k0, res[0].1);
            lemma_install_properties(m1, fl, rest);
            assert(install(m, fl, res) == install(m1, fl, rest));
            assert forall|k: Seq<char>| #[trigger]
                install(m, fl, res).contains_key(k) <==> (m.contains_key(k) || (fl.contains(k)
                    && has_key(res, k))) by {
                lemma_has_key_step(res, k);
                assert(install(m1, fl, rest).contains_key(k) <==> (m1.contains_key(k) || (
                fl.contains(k) && has_key(rest, k))));
                if k == k0 {
                    assert(has_key(res, k));
                }
            }
            assert forall|k: Seq<char>| m.contains_key(k) implies #[trigger] install(m, fl, res)[k]
                == m[k] by {
                assert(m1.contains_key(k));
                assert(install(m1, fl, rest)[k] == m1[k]);
            }
        } else {
            lemma_install_properties(m, fl, rest);
            assert(install(m, fl, res) == install(m, fl, rest));
            assert forall|k: Seq<char>| #[trigger]
                install(m, fl, res).contains_key(k) <==> (m.contains_key(k) || (fl.contains(k)
                    && has_key(res, k))) by {
                lemma_has_key_step(res, k);
                assert(install(m, fl, rest).contains_key(k) <==> (m.contains_key(k) || (
                fl.contains(k) && has_key(rest, k))));
            }
            assert forall|k: Seq<char>| m.contains_key(k) implies #[trigger] install(m, fl, res)[k]
                == m[k] by {
                assert(install(m, fl, rest)[k] == m[k]);
            }
        }
    }
}

/// Well-formedness of the initial state.
pub proof fn lemma_wf_empty<V>()
    ensures
        wf(empty_view::<V>()),
{
}

/// `load` preserves well-formedness.
pub proof fn lemma_wf_after_load<V>(s: LoaderView<V>, k: Seq<char>, w: u64)
    requires
        wf(s),
    ensures
        wf(after_load(s, k, w)),
{
    if !is_ready(s, k) {
        let t = after_load(s, k, w);
        if !is_requested(s, k) {
            assert forall|i: int| 0 <= i < t.pending.len() implies !is_ready(
                t,
                #[trigger] t.pending[i],
            ) && !flight(t).contains(t.pending[i]) by {
                if i < s.pending.len() {
                    assert(t.pending[i] == s.pending[i]);
                } else {
                    assert(t.pending[i] == k);
                }
            }
            assert forall|i: int| 0 <= i < t.waiters.len() implies is_requested(
                t,
                (#[trigger] t.waiters[i]).0,
            ) by {
                if i < s.waiters.len() {
                    assert(t.waiters[i] == s.waiters[i]);
                    if s.pending.contains(s.waiters[i].0) {
                        let j = choose|j: int|
                            0 <= j < s.pending.len() && s.pending[j] == s.waiters[i].0;
                        assert(t.pending[j] == s.waiters[i].0);
                    }
                } else {
                    assert(t.waiters[i] == (k, w));
                    assert(t.pending[t.pending.len() - 1] == k);
                }
            }
        } else {
            assert forall|i: int| 0 <= i < t.waiters.len() implies is_requested(
                t,
                (#[trigger] t.waiters[i]).0,
            ) by {
                if i < s.waiters.len() {
                    assert(t.waiters[i] == s.waiters[i]);
                } else {
                    assert(t.waiters[i] == (k, w));
                }
            }
        }
    }
}

/// `cancel` preserves well-formedness.
pub proof fn lemma_wf_after_cancel<V>(s: LoaderView<V>, k: Seq<char>, w: u64)
    requires
        wf(s),
    ensures
        wf(after_cancel(s, k, w)),
{
    let t = after_cancel(s, k, w);
    lemma_drop_waiter_sub(s.waiters, k, w);
    assert forall|i: int| 0 <= i < t.waiters.len() implies is_requested(
        t,
        (#[trigger] t.waiters[i]).0,
    ) by {
        assert(s.waiters.contains(t.waiters[i]));
        let j = choose|j: int| 0 <= j < s.waiters.len() && s.waiters[j] == t.waiters[i];
        assert(is_requested(s, s.waiters[j].0));
    }
}

/// Draining the pending set preserves well-formedness.
pub proof fn lemma_wf_after_begin<V>(s: LoaderView<V>)
    requires
        wf(s),
        !has_flight(s),
    ensures
        wf(after_begin(s)),
{
    let t = after_begin(s);
    assert(flight(t) == s.pending);
    assert forall|i: int| 0 <= i < t.waiters.len() implies is_requested(
        t,
        (#[trigger] t.waiters[i]).0,
    ) by {
        assert(is_requested(s, s.waiters[i].0));
    }
}

/// Installing a complete batch result preserves well-formedness.
pub proof fn lemma_wf_after_finish<V>(s: LoaderView<V>, res: Seq<(Seq<char>, V)>)
    requires
        wf(s),
        has_flight(s),
    ensures
        wf(after_finish(s, res)),
{
    let t = after_finish(s, res);
    let fl = flight(s);
    lemma_install_properties(s.resolved, fl, res);
    lemma_kept_waiters_sub(s.waiters, fl);
    assert forall|i: int| 0 <= i < t.pending.len() implies !is_ready(
        t,
        #[trigger] t.pending[i],
    ) by {
        assert(!is_ready(s, s.pending[i]));
        assert(!fl.contains(s.pending[i]));
    }
    assert forall|i: int| 0 <= i < t.waiters.len() implies is_requested(
        t,
        (#[trigger] t.waiters[i]).0,
    ) by {
        assert(s.waiters.contains(t.waiters[i]));
        let j = choose|j: int| 0 <= j < s.waiters.len() && s.waiters[j] == t.waiters[i];
        assert(is_requested(s, s.waiters[j].0));
        assert(!fl.contains(t.waiters[i].0));
    }
}

/// A failed dispatch preserves well-formedness.
pub proof fn lemma_wf_after_fail<V>(s: LoaderView<V>)
    requires
        wf(s),
        has_flight(s),
    ensures
        wf(after_fail(s)),
{
    let t = after_fail(s);
    let fl = flight(s);
    lemma_kept_waiters_sub(s.waiters, fl);
    assert forall|i: int| 0 <= i < t.waiters.len() implies is_requested(
        t,
        (#[trigger] t.waiters[i]).0,
    ) by {
        assert(s.waiters.contains(t.waiters[i]));
        let j = choose|j: int| 0 <= j < s.waiters.len() && s.waiters[j] == t.waiters[i];
        assert(is_requested(s, s.waiters[j].0));
        assert(!fl.contains(t.waiters[i].0));
    }
}

} // verus!

verus! {

/// `first_missing` returns the key at the first position of `keys` that
/// `res` fails to cover.
pub proof fn lemma_first_missing_at<V>(res: Seq<(Seq<char>, V)>, keys: Seq<Seq<char>>, j: int)
    requires
        0 <= j < keys.len(),
        forall|i: int| 0 <= i < j ==> has_key(res, #[trigger] keys[i]),
        !has_key(res, keys[j]),
    ensures
        first_missing(res, keys) == keys[j],
    decreases j,
{
    if j > 0 {
        assert(has_key(res, keys[0]));
        assert forall|i: int| 0 <= i < j - 1 implies has_key(
            res,
            #[trigger] keys.drop_first()[i],
        ) by {
            assert(keys.drop_first()[i] == keys[i + 1]);
        }
        assert(keys.drop_first()[j - 1] == keys[j]);
        lemma_first_missing_at(res, keys.drop_first(), j - 1);
    }
}

} // verus!

verus! {

/// The value a batch result carries for key `k`: its first entry's, since
/// the first returned value for a key wins; meaningful only when
/// `has_key(res, k)`.
pub open spec fn value_for<V>(res: Seq<(Seq<char>, V)>, k: Seq<char>) -> V
    decreases res.len(),
{
    if res.len() == 0 {
        arbitrary()
    } else if res[0].0 == k {
        res[0].1
    } else {
        value_for(res.drop_first(), k)
    }
}

/// What `install` gives a newly installed key: the first value the result
/// carries for it.
pub proof fn lemma_install_value<V>(
    m: Map<Seq<char>, V>,
    fl: Seq<Seq<char>>,
    res: Seq<(Seq<char>, V)>,
    k: Seq<char>,
)
    requires
        fl.contains(k),
        !m.contains_key(k),
        has_key(res, k),
    ensures
        install(m, fl, res).contains_key(k),
        install(m, fl, res)[k] == value_for(res, k),
    decreases res.len(),
{
    lemma_install_properties(m, fl, res);
    let rest = res.drop_first();
    if res[0].0 == k {
        let m1 = m.insert(k, res[0].1);
        lemma_install_properties(m1, fl, rest);
        assert(install(m, fl, res) == install(m1, fl, rest));
        assert(install(m1, fl, rest)[k] == m1[k]);
        assert(value_for(res, k) == res[0].1);
    } else {
        lemma_has_key_step(res, k);
        assert(value_for(res, k) == value_for(rest, k));
        if fl.contains(res[0].0) && !m.contains_key(res[0].0) {
            let m1 = m.insert(res[0].0, res[0].1);
            lemma_install_value(m1, fl, rest, k);
            assert(install(m, fl, res) == install(m1, fl, rest));
        } else {
            lemma_install_value(m, fl, rest, k);
            assert(install(m, fl, res) == install(m, fl, rest));
        }
    }
}

} // verus!
