//! The request-batching loader.
//!
//! [`DataLoader`] owns the per-key state (pending / resolved), deduplicates
//! concurrent requests for the same key, and decides when and with which
//! keys the user's [`BatchLoader`] is dispatched.  All of its state sits in
//! plain vectors; the asynchronous shell around the library drives it
//! through `load`, `begin_dispatch`, `finish_dispatch`, `fail_dispatch` and
//! `wrap_step`, each of which is specified by one transition of
//! [`crate::model`].

use vstd::prelude::*;

use crate::model::{
    after_begin, after_cancel, after_fail, after_finish, after_load, can_begin, complete_for,
    distinct_keys, empty_view, first_missing, flight, has_flight, has_key, install, is_ready,
    kept_waiters, lemma_install_properties, lemma_wf_after_begin, lemma_wf_after_cancel,
    lemma_wf_after_fail, lemma_wf_after_finish, lemma_wf_after_load, lemma_wf_empty, wf,
    woken_ids, LoaderView,
};

verus! {

/// What a `load` call did: answered at once from a resolved entry, or
/// suspended the caller until its key's batch completes.
pub enum LoadStatus {
    Ready,
    Suspended,
}

/// A batch dispatch failure, raised by a [`BatchLoader`] in place of a
/// result; the loader treats it as opaque and fatal for the dispatch.
pub struct BatchError;

/// What a waiter receives instead of a value when its dispatch goes wrong.
#[derive(Clone)]
pub enum LoadError {
    /// The batch call failed as a whole.
    BatchFailed,
    /// The batch call broke its contract: it returned no value for the
    /// named key it was dispatched with.
    MissingKey(String),
}

/// The outcome of completing one dispatch: either every claimed key
/// resolved and the listed waiters are to be woken, or the listed waiters
/// are to be failed with the given error.
pub enum DispatchResult {
    Resolved(Vec<u64>),
    Failed(Vec<u64>, LoadError),
}

/// The user-supplied bulk fetch: resolves a set of distinct keys to values
/// in one call.  It must return a value for every supplied key; the loader
/// checks this and surfaces a violation as [`LoadError::MissingKey`].
pub trait BatchLoader {
    type V;

    fn load_batch(&mut self, keys: Vec<String>) -> Result<Vec<(String, Self::V)>, BatchError>;
}

/// The key sequence of a key vector, as the model sees it.
pub open spec fn key_views(ks: Seq<String>) -> Seq<Seq<char>> {
    ks.map_values(|k: String| k@)
}

/// The entry sequence of a (key, payload) vector, as the model sees it.
pub open spec fn pair_views<V>(ps: Seq<(String, V)>) -> Seq<(Seq<char>, V)> {
    ps.map_values(|p: (String, V)| (p.0@, p.1))
}

/// The key sequence of a (key, payload) vector.
pub open spec fn entry_keys<V>(ps: Seq<(String, V)>) -> Seq<Seq<char>> {
    ps.map_values(|p: (String, V)| p.0@)
}

/// The map held by an association vector: later entries would win, but the
/// loader only ever appends fresh keys, so its entry keys stay distinct.
pub open spec fn kv_map<V>(ps: Seq<(String, V)>) -> Map<Seq<char>, V>
    decreases ps.len(),
{
    if ps.len() == 0 {
        Map::empty()
    } else {
        kv_map(ps.drop_last()).insert(ps.last().0@, ps.last().1)
    }
}

/// The association vector holds key `k` exactly when its map does.
pub proof fn lemma_kv_map_contains<V>(ps: Seq<(String, V)>, k: Seq<char>)
    ensures
        kv_map(ps).contains_key(k) <==> has_key(pair_views(ps), k),
    decreases ps.len(),
{
    if ps.len() != 0 {
        lemma_kv_map_contains(ps.drop_last(), k);
        let pv = pair_views(ps);
        if kv_map(ps).contains_key(k) {
            if ps.last().0@ == k {
                assert(pv[ps.len() - 1].0 == k);
            } else {
                let j = choose|j: int|
                    0 <= j < pair_views(ps.drop_last()).len() && pair_views(ps.drop_last())[j].0
                        == k;
                assert(pv[j].0 == k);
            }
        }
        if has_key(pv, k) {
            let j = choose|j: int| 0 <= j < pv.len() && pv[j].0 == k;
            if j < ps.len() - 1 {
                assert(pair_views(ps.drop_last())[j].0 == k);
            }
        }
    }
}

/// With distinct entry keys, the map returns each entry's own payload.
pub proof fn lemma_kv_map_index<V>(ps: Seq<(String, V)>, i: int)
    requires
        distinct_keys(entry_keys(ps)),
        0 <= i < ps.len(),
    ensures
        kv_map(ps).contains_key(ps[i].0@),
        kv_map(ps)[ps[i].0@] == ps[i].1,
    decreases ps.len(),
{
    if i == ps.len() - 1 {
        assert(ps.last() == ps[i]);
    } else {
        assert forall|a: int, b: int|
            0 <= a < b < ps.drop_last().len() implies entry_keys(ps.drop_last())[a] != entry_keys(
            ps.drop_last(),
        )[b] by {
            assert(entry_keys(ps)[a] != entry_keys(ps)[b]);
        }
        lemma_kv_map_index(ps.drop_last(), i);
        assert(ps.drop_last()[i] == ps[i]);
        assert(entry_keys(ps)[i] != entry_keys(ps)[ps.len() - 1]);
        assert(ps.last().0@ != ps[i].0@);
    }
}

/// Whether `k` occurs in `keys`, by key content.
fn key_in(keys: &Vec<String>, k: &String) -> (r: bool)
    ensures
        r == key_views(keys@).contains(k@),
{
    let mut i: usize = 0;
    while i < keys.len()
        invariant
            0 <= i <= keys@.len(),
            forall|j: int| 0 <= j < i ==> key_views(keys@)[j] != k@,
        decreases keys@.len() - i,
    {
        if keys[i] == *k {
            proof {
                assert(key_views(keys@)[i as int] == k@);
            }
            return true;
        }
        i += 1;
    }
    proof {
        assert(!key_views(keys@).contains(k@));
    }
    false
}

/// Whether the association vector holds an entry for `k`.
fn assoc_has<V>(ps: &Vec<(String, V)>, k: &String) -> (r: bool)
    ensures
        r == has_key(pair_views(ps@), k@),
{
    let mut i: usize = 0;
    while i < ps.len()
        invariant
            0 <= i <= ps@.len(),
            forall|j: int| 0 <= j < i ==> pair_views(ps@)[j].0 != k@,
        decreases ps@.len() - i,
    {
        if ps[i].0 == *k {
            proof {
                assert(pair_views(ps@)[i as int].0 == k@);
            }
            return true;
        }
        i += 1;
    }
    false
}

/// A copy of a key vector; key copies compare equal to their originals.
fn clone_keys(keys: &Vec<String>) -> (r: Vec<String>)
    ensures
        r@ == keys@,
{
    let mut out: Vec<String> = Vec::new();
    let mut i: usize = 0;
    while i < keys.len()
        invariant
            0 <= i <= keys@.len(),
            out@ == keys@.subrange(0, i as int),
        decreases keys@.len() - i,
    {
        out.push(keys[i].clone());
        proof {
            assert(out@ =~= keys@.subrange(0, i + 1 as int));
        }
        i += 1;
    }
    proof {
        assert(out@ =~= keys@);
    }
    out
}

} // verus!

verus! {

/// Splits the registered waiters around the claimed keys `fl`: removes the
/// waiters for a claimed key, returning their ids in registration order,
/// and keeps the rest in unchanged order.
fn remove_waiters_for(waiters: &mut Vec<(String, u64)>, fl: &Vec<String>) -> (r: Vec<u64>)
    ensures
        pair_views(final(waiters)@) == kept_waiters(pair_views(old(waiters)@), key_views(fl@)),
        r@ == woken_ids(pair_views(old(waiters)@), key_views(fl@)),
{
    let ghost w0 = pair_views(waiters@);
    let ghost flv = key_views(fl@);
    let mut kept: Vec<(String, u64)> = Vec::new();
    let mut woken: Vec<u64> = Vec::new();
    let mut i: usize = 0;
    while i < waiters.len()
        invariant
            0 <= i <= waiters@.len(),
            w0 == pair_views(waiters@),
            flv == key_views(fl@),
            pair_views(kept@) == kept_waiters(w0.subrange(0, i as int), flv),
            woken@ == woken_ids(w0.subrange(0, i as int), flv),
        decreases waiters@.len() - i,
    {
        let hit = key_in(fl, &waiters[i].0);
        proof {
            assert(w0.subrange(0, i + 1 as int).drop_last() =~= w0.subrange(0, i as int));
            assert(w0.subrange(0, i + 1 as int).last() == (
                waiters@[i as int].0@,
                waiters@[i as int].1,
            ));
        }
        if hit {
            woken.push(waiters[i].1);
        } else {
            kept.push((waiters[i].0.clone(), waiters[i].1));
            proof {
                assert(pair_views(kept@) =~= kept_waiters(w0.subrange(0, i + 1 as int), flv));
            }
        }
        i += 1;
    }
    proof {
        assert(w0.subrange(0, waiters@.len() as int) =~= w0);
    }
    *waiters = kept;
    woken
}

/// The first claimed key that the batch result fails to cover, if any.
fn first_missing_key<V>(results: &Vec<(String, V)>, fl: &Vec<String>) -> (r: Option<String>)
    ensures
        match r {
            Option::None => complete_for(pair_views(results@), key_views(fl@)),
            Option::Some(k) => !complete_for(pair_views(results@), key_views(fl@)) && k@
                == first_missing(pair_views(results@), key_views(fl@)),
        },
{
    let mut i: usize = 0;
    while i < fl.len()
        invariant
            0 <= i <= fl@.len(),
            forall|j: int|
                0 <= j < i ==> has_key(pair_views(results@), #[trigger] key_views(fl@)[j]),
        decreases fl@.len() - i,
    {
        if !assoc_has(results, &fl[i]) {
            proof {
                assert(!has_key(pair_views(results@), key_views(fl@)[i as int]));
                crate::model::lemma_first_missing_at(
                    pair_views(results@),
                    key_views(fl@),
                    i as int,
                );
            }
            return Option::Some(fl[i].clone());
        }
        i += 1;
    }
    Option::None
}

/// The loader: per-key state, deduplication of concurrent requests, and
/// the bookkeeping of one dispatch at a time, owned by one top-level
/// computation and discarded with it.
pub struct DataLoader<B: BatchLoader> {
    batch: B,
    resolved: Vec<(String, B::V)>,
    pending: Vec<String>,
    waiters: Vec<(String, u64)>,
    in_flight: Option<Vec<String>>,
}

impl<B: BatchLoader> View for DataLoader<B> {
    type V = LoaderView<B::V>;

    closed spec fn view(&self) -> LoaderView<B::V> {
        LoaderView {
            resolved: kv_map(self.resolved@),
            pending: key_views(self.pending@),
            waiters: pair_views(self.waiters@),
            in_flight: match self.in_flight {
                Option::Some(fl) => Option::Some(key_views(fl@)),
                Option::None => Option::None,
            },
        }
    }
}

impl<B: BatchLoader> DataLoader<B> {
    /// The loader's invariant: its model is well-formed, and the resolved
    /// entries' keys are distinct, so each key has one value.
    pub closed spec fn inv(&self) -> bool {
        &&& wf(self@)
        &&& distinct_keys(entry_keys(self.resolved@))
    }

    /// A fresh loader around the given batch operation: nothing resolved,
    /// nothing pending, nobody waiting, no dispatch in flight.
    pub fn new(load_batch: B) -> (r: Self)
        ensures
            r.inv(),
            r@ == empty_view::<B::V>(),
    {
        let r = DataLoader {
            batch: load_batch,
            resolved: Vec::new(),
            pending: Vec::new(),
            waiters: Vec::new(),
            in_flight: Option::None,
        };
        proof {
            lemma_wf_empty::<B::V>();
            assert(r@ =~= empty_view::<B::V>());
        }
        r
    }

    /// One `load(key)` call by waiter `waiter`.  If the key has resolved,
    /// the caller proceeds at once and reads the value with
    /// [`Self::resolved_value`]; nothing changes and no dispatch is ever
    /// caused.  Otherwise the caller suspends: the waiter is registered,
    /// and the key joins the pending set unless an entry for it already
    /// exists, so concurrent requests for one key share one entry.
    pub fn load(&mut self, key: String, waiter: u64) -> (r: LoadStatus)
        requires
            old(self).inv(),
        ensures
            final(self).inv(),
            final(self)@ == after_load(old(self)@, key@, waiter),
            r == LoadStatus::Ready <==> is_ready(old(self)@, key@),
    {
        proof {
            lemma_kv_map_contains(self.resolved@, key@);
            lemma_wf_after_load(old(self)@, key@, waiter);
        }
        if assoc_has(&self.resolved, &key) {
            return LoadStatus::Ready;
        }
        let requested = key_in(&self.pending, &key) || (match &self.in_flight {
            Option::Some(fl) => key_in(fl, &key),
            Option::None => false,
        });
        if !requested {
            self.pending.push(key.clone());
        }
        self.waiters.push((key, waiter));
        proof {
            assert(self@ =~= after_load(old(self)@, key@, waiter));
        }
        LoadStatus::Suspended
    }

    /// The value a resolved key carries; `None` exactly while the key has
    /// not resolved.  Resolved entries never change, so repeated reads
    /// return the same value.
    pub fn resolved_value(&self, key: &String) -> (r: Option<&B::V>)
        requires
            self.inv(),
        ensures
            match r {
                Option::Some(v) => is_ready(self@, key@) && *v == self@.resolved[key@],
                Option::None => !is_ready(self@, key@),
            },
    {
        proof {
            lemma_kv_map_contains(self.resolved@, key@);
        }
        let mut i: usize = 0;
        while i < self.resolved.len()
            invariant
                self.inv(),
                0 <= i <= self.resolved@.len(),
                forall|j: int| 0 <= j < i ==> pair_views(self.resolved@)[j].0 != key@,
            decreases self.resolved@.len() - i,
        {
            if self.resolved[i].0 == *key {
                proof {
                    assert(pair_views(self.resolved@)[i as int].0 == key@);
                    lemma_kv_map_index(self.resolved@, i as int);
                }
                return Option::Some(&self.resolved[i].1);
            }
            i += 1;
        }
        Option::None
    }

    /// Cancels waiter `waiter`'s suspended `load(key)` call: its
    /// registration is removed so it is never woken, while every other
    /// waiter — including other waiters for the same key — and the
    /// in-flight dispatch stay untouched.
    pub fn cancel_load(&mut self, key: &String, waiter: u64)
        requires
            old(self).inv(),
        ensures
            final(self).inv(),
            final(self)@ == after_cancel(old(self)@, key@, waiter),
    {
        let ghost w0 = pair_views(self.waiters@);
        let mut kept: Vec<(String, u64)> = Vec::new();
        let mut i: usize = 0;
        while i < self.waiters.len()
            invariant
                0 <= i <= self.waiters@.len(),
                w0 == pair_views(self.waiters@),
                pair_views(kept@) == crate::model::drop_waiter(
                    w0.subrange(0, i as int),
                    key@,
                    waiter,
                ),
            decreases self.waiters@.len() - i,
        {
            proof {
                assert(w0.subrange(0, i + 1 as int).drop_last() =~= w0.subrange(0, i as int));
                assert(w0.subrange(0, i + 1 as int).last() == (
                    self.waiters@[i as int].0@,
                    self.waiters@[i as int].1,
                ));
            }
            if !(self.waiters[i].0 == *key && self.waiters[i].1 == waiter) {
                kept.push((self.waiters[i].0.clone(), self.waiters[i].1));
                proof {
                    assert(pair_views(kept@) =~= crate::model::drop_waiter(
                        w0.subrange(0, i + 1 as int),
                        key@,
                        waiter,
                    ));
                }
            }
            i += 1;
        }
        proof {
            assert(w0.subrange(0, self.waiters@.len() as int) =~= w0);
            lemma_wf_after_cancel(old(self)@, key@, waiter);
        }
        self.waiters = kept;
        proof {
            assert(self@ =~= after_cancel(old(self)@, key@, waiter));
        }
    }
}

} // verus!

verus! {

/// The driver's event for one poll step of a wrapped computation.
pub enum WrapEvent<V> {
    /// The computation was advanced and did not complete; no dispatch is
    /// in flight.
    Suspended,
    /// The in-flight batch call returned this result.
    BatchCompleted(Vec<(String, V)>),
    /// The in-flight batch call failed.
    BatchFailed,
}

/// What the driver asks its asynchronous shell to do next.
pub enum WrapAction {
    /// Issue one batch call with these keys and report how it went.
    Dispatch(Vec<String>),
    /// Nothing to dispatch: yield to the surrounding scheduler and advance
    /// the computation again later.
    Yield,
    /// Wake these waiters, then advance the computation again.
    Resume(Vec<u64>),
    /// Deliver the error to these waiters; the whole computation fails.
    Abort(Vec<u64>, LoadError),
}

impl<B: BatchLoader> DataLoader<B> {
    /// Atomically empties the pending set and claims its keys for one
    /// dispatch, so that no other drain can take them until the dispatch
    /// completes or fails.  Returns `None`, changing nothing, when there
    /// is nothing to dispatch.  Callable only while no dispatch is in
    /// flight: dispatches are serialized per loader.
    pub fn begin_dispatch(&mut self) -> (r: Option<Vec<String>>)
        requires
            old(self).inv(),
            !has_flight(old(self)@),
        ensures
            final(self).inv(),
            match r {
                Option::None => old(self)@.pending.len() == 0 && final(self)@ == old(self)@,
                Option::Some(keys) => can_begin(old(self)@) && key_views(keys@) == old(
                    self,
                )@.pending && final(self)@ == after_begin(old(self)@),
            },
    {
        if self.pending.len() == 0 {
            return Option::None;
        }
        let claimed = clone_keys(&self.pending);
        let mut drained: Vec<String> = Vec::new();
        core::mem::swap(&mut self.pending, &mut drained);
        self.in_flight = Option::Some(claimed);
        proof {
            lemma_wf_after_begin(old(self)@);
            assert(self@ =~= after_begin(old(self)@));
        }
        Option::Some(drained)
    }

    /// The in-flight dispatch failed: releases its claim and removes the
    /// waiters for its keys, returning their ids so the failure can be
    /// delivered to each of them.  Other waiters are untouched.
    pub fn fail_dispatch(&mut self) -> (r: Vec<u64>)
        requires
            old(self).inv(),
            has_flight(old(self)@),
        ensures
            final(self).inv(),
            final(self)@ == after_fail(old(self)@),
            r@ == woken_ids(old(self)@.waiters, flight(old(self)@)),
    {
        let mut flopt: Option<Vec<String>> = Option::None;
        core::mem::swap(&mut self.in_flight, &mut flopt);
        let fl = match flopt {
            Option::Some(v) => v,
            Option::None => vstd::pervasive::unreached(),
        };
        let woken = remove_waiters_for(&mut self.waiters, &fl);
        proof {
            lemma_wf_after_fail(old(self)@);
            assert(self@ =~= after_fail(old(self)@));
        }
        woken
    }

    /// The in-flight dispatch returned `results`.  If they cover every
    /// claimed key, each claimed key becomes ready with its first returned
    /// value, the claimed keys' waiters are woken (returned in
    /// registration order), and the claim is released.  If a claimed key
    /// is missing, the batch broke its contract: nothing is installed and
    /// the dispatch fails with [`LoadError::MissingKey`] naming the first
    /// such key, delivered to the claimed keys' waiters.
    pub fn finish_dispatch(&mut self, results: Vec<(String, B::V)>) -> (r: DispatchResult)
        requires
            old(self).inv(),
            has_flight(old(self)@),
        ensures
            final(self).inv(),
            complete_for(pair_views(results@), flight(old(self)@)) ==> (final(self)@
                == after_finish(old(self)@, pair_views(results@)) && (
            r matches DispatchResult::Resolved(w) && w@ == woken_ids(
                old(self)@.waiters,
                flight(old(self)@),
            ))),
            !complete_for(pair_views(results@), flight(old(self)@)) ==> (final(self)@ == after_fail(
                old(self)@,
            ) && (r matches DispatchResult::Failed(w, e) && w@ == woken_ids(
                old(self)@.waiters,
                flight(old(self)@),
            ) && (e matches LoadError::MissingKey(mk) && mk@ == first_missing(
                pair_views(results@),
                flight(old(self)@),
            )))),
    {
        let mut flopt: Option<Vec<String>> = Option::None;
        core::mem::swap(&mut self.in_flight, &mut flopt);
        let fl = match flopt {
            Option::Some(v) => v,
            Option::None => vstd::pervasive::unreached(),
        };
        match first_missing_key(&results, &fl) {
            Option::Some(k) => {
                let woken = remove_waiters_for(&mut self.waiters, &fl);
                proof {
                    lemma_wf_after_fail(old(self)@);
                    assert(self@ =~= after_fail(old(self)@));
                }
                DispatchResult::Failed(woken, LoadError::MissingKey(k))
            },
            Option::None => {
                let ghost flv = key_views(fl@);
                let ghost res0 = pair_views(results@);
                let ghost m0 = kv_map(self.resolved@);
                let mut rem = results;
                while rem.len() > 0
                    invariant
                        flv == key_views(fl@),
                        install(kv_map(self.resolved@), flv, pair_views(rem@)) == install(
                            m0,
                            flv,
                            res0,
                        ),
                        distinct_keys(entry_keys(self.resolved@)),
                        self.pending == old(self).pending,
                        self.waiters == old(self).waiters,
                        self.in_flight is None,
                    decreases rem@.len(),
                {
                    let ghost rv = pair_views(rem@);
                    let ghost m_before = kv_map(self.resolved@);
                    let (k, v) = rem.remove(0);
                    proof {
                        assert(rv[0] == (k@, v));
                        assert(pair_views(rem@) =~= rv.drop_first());
                    }
                    let hit = key_in(&fl, &k);
                    let already = assoc_has(&self.resolved, &k);
                    proof {
                        lemma_kv_map_contains(self.resolved@, k@);
                    }
                    if hit && !already {
                        let ghost r_before = self.resolved@;
                        self.resolved.push((k, v));
                        proof {
                            assert(self.resolved@.drop_last() =~= r_before);
                            assert(kv_map(self.resolved@) == m_before.insert(k@, v));
                            assert forall|a: int, b: int|
                                0 <= a < b < entry_keys(self.resolved@).len() implies entry_keys(
                                self.resolved@,
                            )[a] != entry_keys(self.resolved@)[b] by {
                                if b < r_before.len() {
                                    assert(entry_keys(r_before)[a] != entry_keys(r_before)[b]);
                                } else {
                                    assert(entry_keys(self.resolved@)[b] == k@);
                                    assert(!has_key(pair_views(r_before), k@));
                                    assert(pair_views(r_before)[a].0 == entry_keys(r_before)[a]);
                                }
                            }
                        }
                    }
                }
                proof {
                    assert(pair_views(rem@) =~= Seq::empty());
                }
                let woken = remove_waiters_for(&mut self.waiters, &fl);
                proof {
                    lemma_wf_after_finish(old(self)@, res0);
                    assert(self@ =~= after_finish(old(self)@, res0));
                }
                DispatchResult::Resolved(woken)
            },
        }
    }
}

} // verus!

verus! {

impl<B: BatchLoader> DataLoader<B> {
    /// One step of the dispatch loop that `wrap` runs around a
    /// computation, as a decision table: advance the computation; when it
    /// suspends, drain the pending set and dispatch it as one batch call,
    /// or yield when nothing is pending; when the batch call reports back,
    /// install its result and wake the waiters, or fail them.  The shell
    /// around the library performs the returned action and reports the
    /// next event.
    pub fn wrap_step(&mut self, event: WrapEvent<B::V>) -> (r: WrapAction)
        requires
            old(self).inv(),
            event matches WrapEvent::Suspended <==> !has_flight(old(self)@),
        ensures
            final(self).inv(),
            has_flight(final(self)@) <==> r matches WrapAction::Dispatch(_),
            event matches WrapEvent::Suspended ==> (if can_begin(old(self)@) {
                final(self)@ == after_begin(old(self)@) && (
                r matches WrapAction::Dispatch(keys) && key_views(keys@) == old(self)@.pending)
            } else {
                final(self)@ == old(self)@ && r == WrapAction::Yield
            }),
            event matches WrapEvent::BatchCompleted(results) ==> (if complete_for(
                pair_views(results@),
                flight(old(self)@),
            ) {
                final(self)@ == after_finish(old(self)@, pair_views(results@)) && (
                r matches WrapAction::Resume(w) && w@ == woken_ids(
                    old(self)@.waiters,
                    flight(old(self)@),
                ))
            } else {
                final(self)@ == after_fail(old(self)@) && (
                r matches WrapAction::Abort(w, e) && w@ == woken_ids(
                    old(self)@.waiters,
                    flight(old(self)@),
                ) && (e matches LoadError::MissingKey(mk) && mk@ == first_missing(
                    pair_views(results@),
                    flight(old(self)@),
                )))
            }),
            event matches WrapEvent::BatchFailed ==> (final(self)@ == after_fail(old(self)@) && (
            r matches WrapAction::Abort(w, e) && w@ == woken_ids(
                old(self)@.waiters,
                flight(old(self)@),
            ) && e == LoadError::BatchFailed)),
    {
        match event {
            WrapEvent::Suspended => {
                match self.begin_dispatch() {
                    Option::Some(keys) => WrapAction::Dispatch(keys),
                    Option::None => WrapAction::Yield,
                }
            },
            WrapEvent::BatchCompleted(results) => {
                match self.finish_dispatch(results) {
                    DispatchResult::Resolved(w) => WrapAction::Resume(w),
                    DispatchResult::Failed(w, e) => WrapAction::Abort(w, e),
                }
            },
            WrapEvent::BatchFailed => {
                let w = self.fail_dispatch();
                WrapAction::Abort(w, LoadError::BatchFailed)
            },
        }
    }

    /// Drains the pending keys and performs one whole dispatch with the
    /// owned [`BatchLoader`]: exactly one `load_batch` call, made with the
    /// deduplicated pending keys.  Nothing is assumed of that call; its
    /// result is checked and installed by [`Self::finish_dispatch`], so
    /// whatever came back, afterwards no dispatch is in flight, nothing is
    /// pending, and every previously resolved entry is unchanged.  When
    /// the call returns a complete result, every drained key is resolved
    /// and the drained keys' waiters are woken.
    pub fn dispatch_once(&mut self) -> (r: DispatchResult)
        requires
            old(self).inv(),
            can_begin(old(self)@),
        ensures
            final(self).inv(),
            !has_flight(final(self)@),
            final(self)@.pending.len() == 0,
            forall|k: Seq<char>|
                is_ready(old(self)@, k) ==> is_ready(final(self)@, k) && final(self)@.resolved[k]
                    == old(self)@.resolved[k],
            r matches DispatchResult::Resolved(w) ==> (w@ == woken_ids(
                old(self)@.waiters,
                old(self)@.pending,
            ) && forall|i: int|
                0 <= i < old(self)@.pending.len() ==> is_ready(
                    final(self)@,
                    #[trigger] old(self)@.pending[i],
                )),
            r matches DispatchResult::Failed(w, e) ==> (w@ == woken_ids(
                old(self)@.waiters,
                old(self)@.pending,
            ) && final(self)@ == after_fail(after_begin(old(self)@))),
    {
        let keys = match self.begin_dispatch() {
            Option::Some(keys) => keys,
            Option::None => vstd::pervasive::unreached(),
        };
        let ghost mid = after_begin(old(self)@);
        let result = self.batch.load_batch(keys);
        match result {
            Result::Ok(results) => {
                let r = self.finish_dispatch(results);
                proof {
                    assert(flight(mid) == old(self)@.pending);
                    if complete_for(pair_views(results@), flight(mid)) {
                        lemma_install_properties(mid.resolved, flight(mid), pair_views(results@));
                    }
                }
                r
            },
            Result::Err(_e) => {
                let w = self.fail_dispatch();
                DispatchResult::Failed(w, LoadError::BatchFailed)
            },
        }
    }
}

} // verus!

verus! {

impl<B: BatchLoader> DataLoader<B> {
    /// Whether a drain would dispatch right now: no dispatch in flight
    /// and at least one key pending.
    pub fn can_dispatch(&self) -> (r: bool)
        ensures
            r == can_begin(self@),
    {
        (match &self.in_flight {
            Option::Some(_) => false,
            Option::None => true,
        }) && self.pending.len() > 0
    }
}

} // verus!

verus! {

impl<B: BatchLoader> DataLoader<B> {
    /// The loader's invariant gives well-formedness of its model, so the
    /// laws of [`crate::laws`] apply to the view of any loader the
    /// library hands out.
    pub proof fn lemma_inv_wf(&self)
        requires
            self.inv(),
        ensures
            wf(self@),
    {
    }
}

} // verus!
