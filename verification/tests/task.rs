use ecs::task::{split_sendable, thread_name};

#[test]
fn thread_name_uses_the_pool_name() {
    assert_eq!(thread_name(Some("CPU Task Pool"), 3), "CPU Task Pool: 3");
}

#[test]
fn thread_name_without_pool_name() {
    assert_eq!(thread_name(None, 0), "Thread: 0");
    assert_eq!(thread_name(None, 12), "Thread: 12");
}

#[test]
fn split_sendable_keeps_order_in_each_part() {
    let (pooled, local) = split_sendable(vec!['a', 'b', 'c', 'd'], vec![true, false, true, false]);
    assert_eq!(pooled, vec!['a', 'c']);
    assert_eq!(local, vec!['b', 'd']);
}

#[test]
fn split_sendable_of_nothing() {
    let (pooled, local) = split_sendable(Vec::<u8>::new(), Vec::new());
    assert!(pooled.is_empty());
    assert!(local.is_empty());
}
