use std::cell::{Cell, RefCell};
use std::rc::Rc;

use timely::progress::frontier::Antichain;
use trace_manager::{Arrangement, CollectionTraces, TraceManager};

#[derive(Clone, Debug, PartialEq, Eq)]
enum Call {
    ReadUpper { id: u32, given: Vec<u64> },
    DistinguishSince { id: u32, frontier: Vec<u64> },
    AdvanceBy { id: u32, frontier: Vec<u64> },
}

type Log = Rc<RefCell<Vec<Call>>>;

/// A trace stand-in that records every call made on it.
#[derive(Debug)]
struct Mock {
    id: u32,
    upper: Vec<u64>,
    log: Log,
}

impl Mock {
    fn new(id: u32, upper: &[u64], log: &Log) -> Mock {
        Mock { id, upper: upper.to_vec(), log: log.clone() }
    }
}

impl Arrangement for Mock {
    fn read_upper(&mut self, target: &mut Antichain<u64>) {
        self.log.borrow_mut().push(Call::ReadUpper { id: self.id, given: target.elements().to_vec() });
        target.clear();
        target.extend(self.upper.iter().cloned());
    }

    fn distinguish_since(&mut self, frontier: &[u64]) {
        self.log.borrow_mut().push(Call::DistinguishSince { id: self.id, frontier: frontier.to_vec() });
    }

    fn advance_by(&mut self, frontier: &[u64]) {
        self.log.borrow_mut().push(Call::AdvanceBy { id: self.id, frontier: frontier.to_vec() });
    }
}

/// A callback that counts how often it was released.
struct Release(Rc<Cell<u32>>);

impl Drop for Release {
    fn drop(&mut self) {
        self.0.set(self.0.get() + 1);
    }
}

fn counter() -> Rc<Cell<u32>> {
    Rc::new(Cell::new(0))
}

fn release(c: &Rc<Cell<u32>>) -> Option<Release> {
    Some(Release(c.clone()))
}

fn log() -> Log {
    Rc::new(RefCell::new(Vec::new()))
}

type Manager = TraceManager<Mock, Mock, Release>;

fn id_of(h: Option<&Mock>) -> Option<u32> {
    h.map(|m| m.id)
}

#[test]
fn empty_manager_finds_nothing() {
    let m = Manager::default();
    assert!(m.get_by_self("orders").is_none());
    assert!(m.get_by_keys("orders", &[0]).is_none());
    assert!(m.get_all_keyed("orders").is_none());
}

#[test]
fn orders_scenario() {
    let l = log();
    let mut m = Manager::default();
    m.set_by_self("orders".to_string(), Mock::new(1, &[7], &l), None);
    m.set_by_keys("orders".to_string(), &[2], Mock::new(2, &[9], &l), None);
    assert_eq!(id_of(m.get_by_self("orders")), Some(1));
    assert_eq!(id_of(m.get_by_keys("orders", &[2])), Some(2));
    assert!(m.get_by_keys("orders", &[0]).is_none());

    m.allow_compaction("orders", &[5]);
    m.maintenance();
    let calls = l.borrow().clone();
    for id in [1u32, 2u32] {
        let advanced = calls
            .iter()
            .position(|c| *c == Call::AdvanceBy { id, frontier: vec![5] })
            .expect("advanced");
        let distinguished = calls
            .iter()
            .position(|c| matches!(c, Call::DistinguishSince { id: i, .. } if *i == id))
            .expect("distinguished");
        assert!(advanced < distinguished);
    }

    m.del_trace("orders");
    assert!(m.get_by_self("orders").is_none());
    assert!(m.get_by_keys("orders", &[2]).is_none());
}

#[test]
fn rebind_by_self_releases_first_callback_once() {
    let l = log();
    let first = counter();
    let second = counter();
    let mut m = Manager::default();
    m.set_by_self("a".to_string(), Mock::new(1, &[], &l), release(&first));
    assert_eq!(first.get(), 0);
    m.set_by_self("a".to_string(), Mock::new(2, &[], &l), release(&second));
    assert_eq!(first.get(), 1);
    assert_eq!(second.get(), 0);
    assert_eq!(id_of(m.get_by_self("a")), Some(2));
    drop(m);
    assert_eq!(first.get(), 1);
    assert_eq!(second.get(), 1);
}

#[test]
fn rebind_by_keys_releases_first_callback_once() {
    let l = log();
    let first = counter();
    let second = counter();
    let mut m = Manager::default();
    m.set_by_keys("a".to_string(), &[0, 1], Mock::new(1, &[], &l), release(&first));
    m.set_by_keys("a".to_string(), &[0, 1], Mock::new(2, &[], &l), release(&second));
    assert_eq!(first.get(), 1);
    assert_eq!(second.get(), 0);
    assert_eq!(id_of(m.get_by_keys("a", &[0, 1])), Some(2));
    assert_eq!(m.get_all_keyed("a").map(|v| v.len()), Some(1));
}

#[test]
fn del_trace_of_unknown_name_is_a_no_op() {
    let l = log();
    let kept = counter();
    let mut m = Manager::default();
    m.set_by_self("kept".to_string(), Mock::new(1, &[], &l), release(&kept));
    m.del_trace("never");
    assert_eq!(kept.get(), 0);
    assert_eq!(id_of(m.get_by_self("kept")), Some(1));
}

#[test]
fn del_trace_twice_releases_once() {
    let l = log();
    let c = counter();
    let k = counter();
    let mut m = Manager::default();
    m.set_by_self("a".to_string(), Mock::new(1, &[], &l), release(&c));
    m.set_by_keys("a".to_string(), &[3], Mock::new(2, &[], &l), release(&k));
    m.del_trace("a");
    assert_eq!((c.get(), k.get()), (1, 1));
    m.del_trace("a");
    assert_eq!((c.get(), k.get()), (1, 1));
    assert!(m.get_by_self("a").is_none());
    assert!(m.get_all_keyed("a").is_none());
}

#[test]
fn projections_in_different_orders_are_distinct() {
    let l = log();
    let mut m = Manager::default();
    m.set_by_keys("t".to_string(), &[0, 1], Mock::new(1, &[], &l), None);
    m.set_by_keys("t".to_string(), &[1, 0], Mock::new(2, &[], &l), None);
    assert_eq!(id_of(m.get_by_keys("t", &[0, 1])), Some(1));
    assert_eq!(id_of(m.get_by_keys("t", &[1, 0])), Some(2));
    assert!(m.get_by_keys("t", &[0]).is_none());
    assert!(m.get_by_keys("t", &[]).is_none());
    let mut all: Vec<(Vec<usize>, u32)> =
        m.get_all_keyed("t").unwrap().into_iter().map(|(k, h)| (k.clone(), h.id)).collect();
    all.sort();
    assert_eq!(all, vec![(vec![0, 1], 1), (vec![1, 0], 2)]);
    assert!(m.get_by_self("t").is_none());
}

#[test]
fn allow_compaction_alone_merges_nothing_physically() {
    let l = log();
    let mut m = Manager::default();
    m.set_by_self("a".to_string(), Mock::new(1, &[4], &l), None);
    m.set_by_keys("a".to_string(), &[0], Mock::new(2, &[4], &l), None);
    m.set_by_self("b".to_string(), Mock::new(3, &[4], &l), None);
    m.allow_compaction("a", &[3]);
    assert_eq!(
        *l.borrow(),
        vec![
            Call::AdvanceBy { id: 1, frontier: vec![3] },
            Call::AdvanceBy { id: 2, frontier: vec![3] },
        ]
    );
    m.maintenance();
    let calls = l.borrow();
    assert!(calls.contains(&Call::DistinguishSince { id: 1, frontier: vec![4] }));
    assert!(calls.contains(&Call::DistinguishSince { id: 2, frontier: vec![4] }));
    assert!(calls.contains(&Call::DistinguishSince { id: 3, frontier: vec![4] }));
    assert!(!calls.iter().any(|c| matches!(c, Call::AdvanceBy { id: 3, .. })));
}

#[test]
fn allow_compaction_of_unknown_name_does_nothing() {
    let l = log();
    let mut m = Manager::default();
    m.set_by_self("a".to_string(), Mock::new(1, &[], &l), None);
    m.allow_compaction("b", &[3]);
    assert!(l.borrow().is_empty());
    assert_eq!(id_of(m.get_by_self("a")), Some(1));
}

#[test]
fn maintenance_reads_each_upper_then_distinguishes_by_it() {
    let l = log();
    let mut m = Manager::default();
    m.set_by_self("a".to_string(), Mock::new(1, &[6], &l), None);
    m.set_by_keys("a".to_string(), &[1], Mock::new(2, &[8], &l), None);
    m.maintenance();
    assert_eq!(
        *l.borrow(),
        vec![
            Call::ReadUpper { id: 1, given: vec![] },
            Call::DistinguishSince { id: 1, frontier: vec![6] },
            Call::ReadUpper { id: 2, given: vec![6] },
            Call::DistinguishSince { id: 2, frontier: vec![8] },
        ]
    );
}

#[test]
fn maintenance_gives_each_collection_a_fresh_accumulator() {
    let l = log();
    let mut m = Manager::default();
    m.set_by_self("a".to_string(), Mock::new(1, &[6], &l), None);
    m.set_by_self("b".to_string(), Mock::new(2, &[8], &l), None);
    m.maintenance();
    let given: Vec<Vec<u64>> = l
        .borrow()
        .iter()
        .filter_map(|c| match c {
            Call::ReadUpper { given, .. } => Some(given.clone()),
            _ => None,
        })
        .collect();
    assert_eq!(given, vec![Vec::<u64>::new(), Vec::new()]);
}

#[test]
fn del_all_traces_releases_every_callback_once() {
    let l = log();
    let counters: Vec<Rc<Cell<u32>>> = (0..4).map(|_| counter()).collect();
    let mut m = Manager::default();
    m.set_by_self("a".to_string(), Mock::new(1, &[], &l), release(&counters[0]));
    m.set_by_keys("a".to_string(), &[0], Mock::new(2, &[], &l), release(&counters[1]));
    m.set_by_self("b".to_string(), Mock::new(3, &[], &l), release(&counters[2]));
    m.set_by_keys("b".to_string(), &[1, 2], Mock::new(4, &[], &l), release(&counters[3]));
    m.del_all_traces();
    assert!(counters.iter().all(|c| c.get() == 1));
    for name in ["a", "b"] {
        assert!(m.get_by_self(name).is_none());
        assert!(m.get_by_keys(name, &[0]).is_none());
        assert!(m.get_by_keys(name, &[1, 2]).is_none());
    }
    drop(m);
    assert!(counters.iter().all(|c| c.get() == 1));
}

#[test]
fn mutable_lookups_change_the_bound_trace() {
    let l = log();
    let mut m = Manager::default();
    m.set_by_self("a".to_string(), Mock::new(1, &[], &l), None);
    m.set_by_keys("a".to_string(), &[4], Mock::new(2, &[], &l), None);
    m.get_by_self_mut("a").unwrap().id = 10;
    m.get_by_keys_mut("a", &[4]).unwrap().id = 20;
    assert_eq!(id_of(m.get_by_self("a")), Some(10));
    assert_eq!(id_of(m.get_by_keys("a", &[4])), Some(20));
    assert!(m.get_by_self_mut("b").is_none());
    assert!(m.get_by_keys_mut("a", &[5]).is_none());
    assert!(m.get_by_keys_mut("b", &[4]).is_none());
}

#[test]
fn by_keys_binding_leaves_by_self_absent() {
    let l = log();
    let mut m = Manager::default();
    m.set_by_keys("a".to_string(), &[0], Mock::new(1, &[], &l), None);
    assert!(m.get_by_self("a").is_none());
    assert!(m.get_by_self_mut("a").is_none());
    m.set_by_self("a".to_string(), Mock::new(2, &[], &l), None);
    assert_eq!(id_of(m.get_by_keys("a", &[0])), Some(1));
    assert_eq!(id_of(m.get_by_self("a")), Some(2));
}

#[test]
fn collection_traces_merge_directly() {
    let l = log();
    let mut ct: CollectionTraces<Mock, Mock, Release> = CollectionTraces::default();
    assert!(ct.get_keyed(&[0]).is_none());
    ct.merge_logical(&[2]);
    let mut acc: Antichain<u64> = Antichain::from_elem(99);
    ct.merge_physical(&mut acc);
    assert!(l.borrow().is_empty());
    assert_eq!(acc.elements(), &[99]);
}

#[test]
fn dyn_drop_callbacks_are_accepted() {
    let l = log();
    let c = counter();
    let mut m: TraceManager<Mock, Mock, Box<dyn std::any::Any>> = TraceManager::default();
    m.set_by_self("a".to_string(), Mock::new(1, &[], &l), Some(Box::new(Release(c.clone()))));
    m.del_trace("a");
    assert_eq!(c.get(), 1);
}
