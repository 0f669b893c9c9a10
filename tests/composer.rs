use actuate::composer::{
    poll_result, try_compose_flow, Composer, Flow, Step, TryComposeError,
};
use actuate::pending::{Pending, PendingSet};
use std::collections::HashMap;

/// What a node does when it runs.
#[derive(Clone)]
enum Unit {
    /// Creates these children on its first run.
    Parent(Vec<(Option<&'static str>, Unit)>),
    /// Writes its value into the shared output cell, then creates children on its first run.
    Write(i32, Vec<(Option<&'static str>, Unit)>),
    /// Counts its runs and asks for an update that marks it again.
    Counter,
    /// Counts its runs and never marks itself.
    NonUpdateCounter,
    /// Reports a failure.
    Fail(&'static str),
}

struct App {
    units: HashMap<u64, Unit>,
    mounted: HashMap<u64, bool>,
    runs: HashMap<u64, i32>,
    out: i32,
    updates: Vec<u64>,
    log: Vec<u64>,
}

impl App {
    fn new(c: &Composer, root: Unit) -> App {
        let mut units = HashMap::new();
        units.insert(c.runtime().root(), root);
        App { units, mounted: HashMap::new(), runs: HashMap::new(), out: -1, updates: Vec::new(), log: Vec::new() }
    }

    fn mount(&mut self, c: &mut Composer, key: u64, children: &[(Option<&'static str>, Unit)]) {
        if self.mounted.insert(key, true).is_none() {
            for (name, unit) in children {
                let child = c.create_child(key, name.map(|n| n.to_string()));
                self.units.insert(child, unit.clone());
            }
        }
    }

    fn run(&mut self, c: &mut Composer, key: u64) {
        self.log.push(key);
        *self.runs.entry(key).or_insert(0) += 1;
        match self.units[&key].clone() {
            Unit::Parent(children) => self.mount(c, key, &children),
            Unit::Write(v, children) => {
                self.out = v;
                self.mount(c, key, &children);
            }
            Unit::Counter => self.updates.push(key),
            Unit::NonUpdateCounter => {}
            Unit::Fail(msg) => c.report_error(msg.to_string()),
        }
    }

    fn flush(&mut self, c: &mut Composer) {
        for key in std::mem::take(&mut self.updates) {
            assert!(c.runtime().contains(key));
            c.queue(key);
        }
    }

    fn step(&mut self, c: &mut Composer) -> Option<Result<(), String>> {
        match c.next_step() {
            Step::Compose(key) => {
                self.run(c, key);
                Some(c.finish_step())
            }
            Step::Flush => {
                self.flush(c);
                None
            }
        }
    }

    fn try_compose(&mut self, c: &mut Composer) -> Result<(), TryComposeError> {
        let mut did_work = false;
        loop {
            let step = self.step(c);
            match try_compose_flow(did_work, step) {
                Flow::Continue => did_work = true,
                Flow::Done(r) => return r,
            }
        }
    }

    fn runs_of(&self, key: u64) -> i32 {
        *self.runs.get(&key).unwrap_or(&0)
    }
}

fn only_child(c: &Composer, key: u64) -> u64 {
    let children = c.runtime().children(key);
    assert_eq!(children.len(), 1);
    children[0]
}

#[test]
fn it_composes() {
    let mut c = Composer::new(Some("Wrap".to_string()));
    let mut app = App::new(&c, Unit::Parent(vec![(Some("Counter"), Unit::Counter)]));

    app.try_compose(&mut c).unwrap();
    let counter = only_child(&c, c.runtime().root());
    assert_eq!(app.runs_of(counter), 1);

    app.try_compose(&mut c).unwrap();
    assert_eq!(app.runs_of(counter), 2);
}

#[test]
fn self_remarking_node_runs_once_per_call() {
    let mut c = Composer::new(None);
    let mut app = App::new(&c, Unit::Parent(vec![(None, Unit::Counter)]));
    let mut seen = Vec::new();
    for _ in 0..3 {
        assert!(app.try_compose(&mut c).is_ok());
        let counter = only_child(&c, c.runtime().root());
        seen.push(app.runs_of(counter));
    }
    assert_eq!(seen, vec![1, 2, 3]);
    assert_eq!(app.runs_of(c.runtime().root()), 1);
}

#[test]
fn it_composes_depth_first() {
    let mut c = Composer::new(None);
    // Each pair of children sits under an unnamed grouping node of its own.
    let pair = |x: Unit, y: Unit| Unit::Parent(vec![(None, x), (None, y)]);
    let tree = Unit::Write(
        0,
        vec![(
            None,
            pair(
                Unit::Write(1, vec![(None, pair(Unit::Write(2, vec![]), Unit::Write(3, vec![])))]),
                Unit::Write(4, vec![(None, pair(Unit::Write(5, vec![]), Unit::Write(6, vec![])))]),
            ),
        )],
    );
    let mut app = App::new(&c, tree);

    assert_eq!(app.step(&mut c), Some(Ok(())));
    assert_eq!(app.out, 0);

    // Compose (1, 4)
    assert_eq!(app.step(&mut c), Some(Ok(())));

    assert_eq!(app.step(&mut c), Some(Ok(())));
    assert_eq!(app.out, 1);

    // Compose (2, 3)
    assert_eq!(app.step(&mut c), Some(Ok(())));
    assert_eq!(app.step(&mut c), Some(Ok(())));
    assert_eq!(app.out, 2);

    assert_eq!(app.step(&mut c), Some(Ok(())));
    assert_eq!(app.out, 3);

    assert_eq!(app.step(&mut c), Some(Ok(())));
    assert_eq!(app.out, 4);

    // Compose (5, 6)
    assert_eq!(app.step(&mut c), Some(Ok(())));

    assert_eq!(app.step(&mut c), Some(Ok(())));
    assert_eq!(app.out, 5);

    assert_eq!(app.step(&mut c), Some(Ok(())));
    assert_eq!(app.out, 6);

    assert_eq!(app.step(&mut c), None);
}

#[test]
fn preorder_visits_match_tree_order() {
    let mut c = Composer::new(None);
    let tree = Unit::Parent(vec![
        (None, Unit::Parent(vec![(None, Unit::NonUpdateCounter), (None, Unit::NonUpdateCounter)])),
        (None, Unit::Parent(vec![(None, Unit::Parent(vec![(None, Unit::NonUpdateCounter)]))])),
        (None, Unit::NonUpdateCounter),
    ]);
    let mut app = App::new(&c, tree);
    assert!(app.try_compose(&mut c).is_ok());

    let mut preorder = Vec::new();
    let mut stack = vec![c.runtime().root()];
    while let Some(k) = stack.pop() {
        preorder.push(k);
        for child in c.runtime().children(k).iter().rev() {
            stack.push(*child);
        }
    }
    assert_eq!(app.log, preorder);
    assert_eq!(app.log.len(), 8);
}

#[test]
fn it_skips_recomposes() {
    let mut c = Composer::new(Some("Wrap".to_string()));
    let mut app = App::new(&c, Unit::Parent(vec![(None, Unit::NonUpdateCounter)]));

    app.try_compose(&mut c).unwrap();
    let counter = only_child(&c, c.runtime().root());
    assert_eq!(app.runs_of(counter), 1);

    assert_eq!(app.try_compose(&mut c), Err(TryComposeError::Pending));
    assert_eq!(app.runs_of(counter), 1);
}

#[test]
fn non_remarking_node_stays_at_one() {
    let mut c = Composer::new(None);
    let mut app = App::new(&c, Unit::Parent(vec![(None, Unit::NonUpdateCounter)]));
    assert_eq!(app.try_compose(&mut c), Ok(()));
    let counter = only_child(&c, c.runtime().root());
    for _ in 0..10 {
        assert_eq!(app.try_compose(&mut c), Err(TryComposeError::Pending));
        assert_eq!(app.runs_of(counter), 1);
    }
    assert_eq!(c.runtime().len(), 2);
}

#[test]
fn it_composes_dyn_compose() {
    let mut c = Composer::new(Some("Wrap".to_string()));
    let mut app = App::new(&c, Unit::Parent(vec![(None, Unit::Parent(vec![(Some("Counter"), Unit::Counter)]))]));

    app.try_compose(&mut c).unwrap();
    let dynamic = only_child(&c, c.runtime().root());
    let counter = only_child(&c, dynamic);
    assert_eq!(app.runs_of(counter), 1);

    app.try_compose(&mut c).unwrap();
    assert_eq!(app.runs_of(counter), 2);
}

#[test]
fn it_composes_memo() {
    let mut c = Composer::new(Some("A".to_string()));
    // The memoized child is created once and never marked again, since its
    // memo key does not change.
    let mut app = App::new(&c, Unit::Parent(vec![(Some("B"), Unit::NonUpdateCounter)]));

    app.try_compose(&mut c).unwrap();
    let b = only_child(&c, c.runtime().root());
    assert_eq!(app.runs_of(b), 1);

    assert_eq!(app.try_compose(&mut c), Err(TryComposeError::Pending));
    assert_eq!(app.runs_of(b), 1);
    assert_eq!(app.try_compose(&mut c), Err(TryComposeError::Pending));
    assert_eq!(app.runs_of(b), 1);
}

#[test]
fn steady_state_has_no_side_effect() {
    let mut c = Composer::new(None);
    let mut app = App::new(&c, Unit::Parent(vec![(None, Unit::NonUpdateCounter), (None, Unit::NonUpdateCounter)]));
    assert_eq!(app.try_compose(&mut c), Ok(()));
    let len = c.runtime().len();
    let log = app.log.len();
    assert_eq!(app.try_compose(&mut c), Err(TryComposeError::Pending));
    assert_eq!(c.runtime().len(), len);
    assert_eq!(app.log.len(), log);
    assert!(c.runtime().is_idle());
}

#[test]
fn error_is_captured_after_earlier_siblings_run() {
    let mut c = Composer::new(None);
    let tree = Unit::Parent(vec![
        (None, Unit::NonUpdateCounter),
        (None, Unit::Parent(vec![(None, Unit::Parent(vec![(None, Unit::Fail("deep failure"))]))])),
        (None, Unit::NonUpdateCounter),
    ]);
    let mut app = App::new(&c, tree);
    let r = app.try_compose(&mut c);
    match r {
        Err(TryComposeError::Error(e)) => assert_eq!(e, "deep failure"),
        _ => panic!("expected a failure"),
    }
    let root = c.runtime().root();
    let first = c.runtime().children(root)[0];
    let last = c.runtime().children(root)[2];
    assert_eq!(app.runs_of(first), 1);
    // The later sibling is still pending and runs on the next call.
    assert_eq!(app.runs_of(last), 0);
    assert_eq!(app.try_compose(&mut c), Ok(()));
    assert_eq!(app.runs_of(last), 1);
}

#[test]
fn error_sink_does_not_stop_the_step() {
    let mut c = Composer::new(None);
    assert_eq!(c.next_step(), Step::Compose(c.runtime().root()));
    c.report_error("first".to_string());
    let child = c.create_child(c.runtime().root(), None);
    assert_eq!(c.finish_step(), Err("first".to_string()));
    assert!(c.runtime().contains(child));
    assert_eq!(c.next_step(), Step::Compose(child));
    assert_eq!(c.finish_step(), Ok(()));
}

#[test]
fn path_order_edge_cases() {
    let a = Pending { key: 1, indices: vec![0, 1] };
    let b = Pending { key: 2, indices: vec![0, 2] };
    assert_eq!(a.cmp(&b), std::cmp::Ordering::Less);
    assert_eq!(b.cmp(&a), std::cmp::Ordering::Greater);
    let p = Pending { key: 3, indices: vec![0] };
    assert_eq!(p.cmp(&a), std::cmp::Ordering::Less);
    assert_eq!(a.cmp(&p), std::cmp::Ordering::Greater);
    assert_eq!(a.cmp(&Pending { key: 9, indices: vec![0, 1] }), std::cmp::Ordering::Equal);
    assert!(Pending { key: 4, indices: vec![] }.precedes(&p));
    assert!(!a.precedes(&a));

    let mut set = PendingSet::new();
    assert!(set.insert(Pending { key: 2, indices: vec![0, 2] }));
    assert!(set.insert(Pending { key: 1, indices: vec![0, 1] }));
    assert!(set.insert(Pending { key: 3, indices: vec![0] }));
    assert!(!set.insert(Pending { key: 1, indices: vec![0, 1] }));
    assert_eq!(set.len(), 3);
    assert_eq!(set.pop_first().unwrap().key, 3);
    assert_eq!(set.pop_first().unwrap().key, 1);
    assert_eq!(set.pop_first().unwrap().key, 2);
    assert!(set.pop_first().is_none());
    assert!(set.is_empty());
}

#[test]
fn pending_paths_follow_child_indices() {
    let mut c = Composer::new(Some("Root".to_string()));
    let root = c.runtime().root();
    let a = c.create_child(root, Some("A".to_string()));
    let b = c.create_child(root, None);
    let b0 = c.create_child(b, None);
    let b1 = c.create_child(b, Some("B1".to_string()));
    assert_ne!(a, b);
    assert_eq!(c.runtime().pending(root).indices, vec![0]);
    assert_eq!(c.runtime().pending(a).indices, vec![0, 0]);
    assert_eq!(c.runtime().pending(b).indices, vec![0, 1]);
    assert_eq!(c.runtime().pending(b1).indices, vec![0, 1, 1]);
    assert_eq!(c.runtime().pending(b0).key, b0);
    assert_eq!(c.runtime().parent(b1), Some(b));
    assert_eq!(c.runtime().parent(root), None);
    assert_eq!(c.runtime().child_idx(b1), 1);
    assert_eq!(c.runtime().name(a), &Some("A".to_string()));
    assert_eq!(c.runtime().name(b), &None);
    assert_eq!(c.runtime().children(b), &vec![b0, b1]);
    assert_eq!(c.runtime().len(), 5);
    assert!(!c.runtime().contains(b1 ^ (1 << 40)));

    // The root runs first, then pending nodes in document order.
    assert!(c.is_initial());
    assert_eq!(c.next_step(), Step::Compose(root));
    assert!(!c.is_initial());
    let mut order = Vec::new();
    while let Step::Compose(k) = c.next_step() {
        order.push(k);
        assert_eq!(c.runtime().current_key(), k);
    }
    assert_eq!(order, vec![a, b, b0, b1]);
}

#[test]
fn marking_twice_is_idempotent() {
    let mut c = Composer::new(None);
    let root = c.runtime().root();
    let a = c.create_child(root, None);
    assert_eq!(c.next_step(), Step::Compose(root));
    assert_eq!(c.next_step(), Step::Compose(a));
    assert_eq!(c.next_step(), Step::Flush);
    c.queue(a);
    c.queue(a);
    c.queue(root);
    assert_eq!(c.next_step(), Step::Compose(root));
    assert_eq!(c.next_step(), Step::Compose(a));
    assert_eq!(c.next_step(), Step::Flush);
}

#[test]
fn try_compose_error_compares_by_kind() {
    assert_eq!(TryComposeError::Pending, TryComposeError::Pending);
    assert_eq!(TryComposeError::Error("a".to_string()), TryComposeError::Error("b".to_string()));
    assert_ne!(TryComposeError::Pending, TryComposeError::Error("a".to_string()));
    assert!(TryComposeError::Pending.same_kind(&TryComposeError::Pending));
}

#[test]
fn flow_and_poll_outcomes() {
    assert_eq!(try_compose_flow(true, None), Flow::Done(Ok(())));
    assert_eq!(try_compose_flow(false, None), Flow::Done(Err(TryComposeError::Pending)));
    assert_eq!(try_compose_flow(false, Some(Ok(()))), Flow::Continue);
    match try_compose_flow(true, Some(Err("x".to_string()))) {
        Flow::Done(Err(TryComposeError::Error(e))) => assert_eq!(e, "x"),
        _ => panic!("expected a failure"),
    }
    assert_eq!(poll_result(Ok(())), Some(Ok(())));
    assert_eq!(poll_result(Err(TryComposeError::Pending)), None);
    assert_eq!(poll_result(Err(TryComposeError::Error("y".to_string()))), Some(Err("y".to_string())));
}
