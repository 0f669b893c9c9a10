use actuate::composer::{Composer, Step};
use actuate::ready::ReadyQueue;

#[test]
fn debug_string_nests_named_groups() {
    let mut c = Composer::new(Some("A".to_string()));
    let root = c.runtime().root();
    c.create_child(root, Some("B".to_string()));
    c.create_child(root, Some("C".to_string()));
    assert_eq!(c.debug_string(), "Composer(A(B, C))");
}

#[test]
fn debug_string_splices_unnamed_nodes() {
    let mut c = Composer::new(None);
    let root = c.runtime().root();
    let wrap = c.create_child(root, None);
    let x = c.create_child(wrap, Some("X".to_string()));
    c.create_child(x, Some("Y".to_string()));
    c.create_child(root, Some("Z".to_string()));
    assert_eq!(c.debug_string(), "Composer(X(Y), Z)");
}

#[test]
fn debug_string_of_an_unnamed_root_alone() {
    let c = Composer::new(None);
    assert_eq!(c.debug_string(), "Composer");
}

#[test]
fn teardown_removes_children_first() {
    let mut c = Composer::new(None);
    let root = c.runtime().root();
    let a = c.create_child(root, None);
    let a0 = c.create_child(a, None);
    let b = c.create_child(root, None);
    assert_eq!(c.teardown(), vec![a0, a, b, root]);
    assert_eq!(c.runtime().len(), 0);
    assert!(!c.runtime().contains(root));
    assert!(!c.runtime().contains(a0));
}

#[test]
fn ready_queue_hands_out_woken_keys_in_order() {
    let mut q = ReadyQueue::new();
    assert!(q.take_ready().is_empty());
    q.wake(7);
    q.wake(3);
    q.handle().wake(5);
    assert_eq!(q.take_ready(), vec![7, 3, 5]);
    assert!(q.take_ready().is_empty());
}

#[test]
fn composer_ready_queue_is_shared() {
    let mut c = Composer::new(None);
    let handle = c.ready_handle();
    c.wake(4);
    handle.wake(11);
    c.wake(2);
    assert_eq!(c.take_ready(), vec![4, 2, 11]);
    assert!(c.take_ready().is_empty());
}

#[test]
fn first_step_runs_root_even_when_queued() {
    let mut c = Composer::new(None);
    let root = c.runtime().root();
    c.queue(root);
    assert_eq!(c.next_step(), Step::Compose(root));
    assert_eq!(c.next_step(), Step::Compose(root));
    assert_eq!(c.next_step(), Step::Flush);
}

#[test]
fn woken_keys_come_before_handle_keys() {
    let mut q = ReadyQueue::new();
    let handle = q.handle().clone();
    handle.wake(9);
    q.wake(1);
    assert_eq!(q.take_ready(), vec![1, 9]);
}
