//! Scenario tests for the loader: coalescing, deduplication, caching,
//! cancellation, and failure delivery.

use std::cell::RefCell;
use std::rc::Rc;

use dataloader::dataloader::{
    BatchError, BatchLoader, DataLoader, DispatchResult, LoadError, LoadStatus, WrapAction,
    WrapEvent,
};
use dataloader::loaders::LoadSummaries;

/// A batch loader that records every call it receives and resolves each
/// key `k` to `value:k`.
struct CountingLoader {
    log: Rc<RefCell<Vec<Vec<String>>>>,
}

impl BatchLoader for CountingLoader {
    type V = String;

    fn load_batch(&mut self, keys: Vec<String>) -> Result<Vec<(String, String)>, BatchError> {
        self.log.borrow_mut().push(keys.clone());
        Ok(keys.into_iter().map(|k| (k.clone(), format!("value:{k}"))).collect())
    }
}

/// A batch loader that always fails.
struct FailingLoader;

impl BatchLoader for FailingLoader {
    type V = String;

    fn load_batch(&mut self, _keys: Vec<String>) -> Result<Vec<(String, String)>, BatchError> {
        Err(BatchError)
    }
}

fn counting() -> (Rc<RefCell<Vec<Vec<String>>>>, DataLoader<CountingLoader>) {
    let log: Rc<RefCell<Vec<Vec<String>>>> = Rc::new(RefCell::new(Vec::new()));
    let loader = DataLoader::new(CountingLoader { log: log.clone() });
    (log, loader)
}

fn s(t: &str) -> String {
    t.to_string()
}

/// Scenario A: `load("a")`, `load("b")`, `load("a")` all suspend before
/// the computation can proceed; one batch call covers `{"a","b"}` and all
/// three waiters get their key's value.
#[test]
fn scenario_concurrent_loads_coalesce() {
    let (log, mut dl) = counting();
    assert!(matches!(dl.load(s("a"), 1), LoadStatus::Suspended));
    assert!(matches!(dl.load(s("b"), 2), LoadStatus::Suspended));
    assert!(matches!(dl.load(s("a"), 3), LoadStatus::Suspended));

    match dl.dispatch_once() {
        DispatchResult::Resolved(woken) => assert!(woken == vec![1, 2, 3]),
        DispatchResult::Failed(_, _) => panic!("dispatch failed"),
    }

    assert!(log.borrow().len() == 1);
    assert!(log.borrow()[0] == vec![s("a"), s("b")]);
    assert!(dl.resolved_value(&s("a")) == Some(&s("value:a")));
    assert!(dl.resolved_value(&s("b")) == Some(&s("value:b")));
}

/// Scenario B: two non-overlapping single loads produce two batch calls
/// of one key each.
#[test]
fn scenario_sequential_loads_dispatch_separately() {
    let (log, mut dl) = counting();
    assert!(matches!(dl.load(s("x"), 1), LoadStatus::Suspended));
    match dl.dispatch_once() {
        DispatchResult::Resolved(woken) => assert!(woken == vec![1]),
        DispatchResult::Failed(_, _) => panic!("dispatch failed"),
    }
    assert!(dl.resolved_value(&s("x")) == Some(&s("value:x")));

    assert!(matches!(dl.load(s("y"), 2), LoadStatus::Suspended));
    match dl.dispatch_once() {
        DispatchResult::Resolved(woken) => assert!(woken == vec![2]),
        DispatchResult::Failed(_, _) => panic!("dispatch failed"),
    }

    assert!(log.borrow().len() == 2);
    assert!(log.borrow()[0] == vec![s("x")]);
    assert!(log.borrow()[1] == vec![s("y")]);
}

/// Scenario C: a failing batch call covering `{"a","b"}` fails both
/// waiters and never produces a value for either key.
#[test]
fn scenario_batch_failure_fails_all_waiters() {
    let mut dl = DataLoader::new(FailingLoader);
    assert!(matches!(dl.load(s("a"), 1), LoadStatus::Suspended));
    assert!(matches!(dl.load(s("b"), 2), LoadStatus::Suspended));

    match dl.dispatch_once() {
        DispatchResult::Resolved(_) => panic!("dispatch should have failed"),
        DispatchResult::Failed(waiters, err) => {
            assert!(waiters == vec![1, 2]);
            assert!(matches!(err, LoadError::BatchFailed));
        }
    }

    assert!(dl.resolved_value(&s("a")) == None);
    assert!(dl.resolved_value(&s("b")) == None);
}

/// Repeated loads of one key share one entry: the drained set holds the
/// key once.
#[test]
fn duplicate_keys_share_one_entry() {
    let mut dl = DataLoader::new(LoadSummaries);
    assert!(matches!(dl.load(s("a"), 1), LoadStatus::Suspended));
    assert!(matches!(dl.load(s("a"), 2), LoadStatus::Suspended));
    let keys = dl.begin_dispatch().expect("something pending");
    assert!(keys == vec![s("a")]);
}

/// A resolved key is served from the entry: the load reports `Ready`, and
/// nothing is left to dispatch.
#[test]
fn ready_key_causes_no_dispatch() {
    let (log, mut dl) = counting();
    assert!(matches!(dl.load(s("a"), 1), LoadStatus::Suspended));
    match dl.dispatch_once() {
        DispatchResult::Resolved(woken) => assert!(woken == vec![1]),
        DispatchResult::Failed(_, _) => panic!("dispatch failed"),
    }

    assert!(matches!(dl.load(s("a"), 2), LoadStatus::Ready));
    assert!(dl.resolved_value(&s("a")) == Some(&s("value:a")));
    assert!(dl.begin_dispatch().is_none());
    assert!(log.borrow().len() == 1);
}

/// Cancelling one waiter for a key does not stop the other waiters for
/// the same key from being woken when the batch completes.
#[test]
fn cancel_spares_other_waiters() {
    let (_log, mut dl) = counting();
    assert!(matches!(dl.load(s("k"), 1), LoadStatus::Suspended));
    assert!(matches!(dl.load(s("k"), 2), LoadStatus::Suspended));
    dl.cancel_load(&s("k"), 1);

    match dl.dispatch_once() {
        DispatchResult::Resolved(woken) => assert!(woken == vec![2]),
        DispatchResult::Failed(_, _) => panic!("dispatch failed"),
    }
    assert!(dl.resolved_value(&s("k")) == Some(&s("value:k")));
}

/// A batch result that misses a dispatched key is a contract violation,
/// surfaced as `MissingKey` naming that key, distinct from a batch
/// failure.
#[test]
fn missing_key_is_reported_distinctly() {
    let mut dl: DataLoader<LoadSummaries> = DataLoader::new(LoadSummaries);
    assert!(matches!(dl.load(s("a"), 1), LoadStatus::Suspended));
    assert!(matches!(dl.load(s("b"), 2), LoadStatus::Suspended));
    let keys = dl.begin_dispatch().expect("something pending");
    assert!(keys == vec![s("a"), s("b")]);

    let partial = vec![(s("a"), s("whatever"))];
    match dl.finish_dispatch(partial) {
        DispatchResult::Resolved(_) => panic!("incomplete result must not resolve"),
        DispatchResult::Failed(waiters, err) => {
            assert!(waiters == vec![1, 2]);
            match err {
                LoadError::MissingKey(k) => assert!(k == s("b")),
                LoadError::BatchFailed => panic!("wrong error kind"),
            }
        }
    }
    assert!(dl.resolved_value(&s("a")) == None);
}

/// The driver's decision table, stepped through one whole episode.
#[test]
fn wrap_step_runs_one_episode() {
    let mut dl = DataLoader::new(LoadSummaries);
    assert!(matches!(dl.load(s("a"), 7), LoadStatus::Suspended));

    let keys = match dl.wrap_step(WrapEvent::Suspended) {
        WrapAction::Dispatch(keys) => keys,
        _ => panic!("a pending key must be dispatched"),
    };
    assert!(keys == vec![s("a")]);

    let results = LoadSummaries.batch(&keys);
    match dl.wrap_step(WrapEvent::BatchCompleted(results)) {
        WrapAction::Resume(woken) => assert!(woken == vec![7]),
        _ => panic!("a complete batch must resume"),
    }
    assert!(dl.resolved_value(&s("a")) == Some(&s("Don\u{2019}t know, read it yourself!")));

    match dl.wrap_step(WrapEvent::Suspended) {
        WrapAction::Yield => {}
        _ => panic!("nothing pending: the driver must yield"),
    }
}

/// The driver fails the dispatched keys' waiters when the batch call
/// fails.
#[test]
fn wrap_step_delivers_batch_failure() {
    let mut dl: DataLoader<LoadSummaries> = DataLoader::new(LoadSummaries);
    assert!(matches!(dl.load(s("a"), 1), LoadStatus::Suspended));
    match dl.wrap_step(WrapEvent::Suspended) {
        WrapAction::Dispatch(keys) => assert!(keys == vec![s("a")]),
        _ => panic!("a pending key must be dispatched"),
    }
    match dl.wrap_step(WrapEvent::BatchFailed) {
        WrapAction::Abort(waiters, err) => {
            assert!(waiters == vec![1]);
            assert!(matches!(err, LoadError::BatchFailed));
        }
        _ => panic!("a failed batch must abort"),
    }
    assert!(dl.resolved_value(&s("a")) == None);
}
