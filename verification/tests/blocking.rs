//! Connections that wait for a key.

use ironcache::blocking::{ShardBlocking, WaiterGuard};
use std::sync::Arc;
use std::time::Duration;
use tokio::sync::Notify;

/// Whether a wake-up is there, or comes within some milliseconds.
fn woken_within(wake: &Notify, millis: u64) -> bool {
    let rt = tokio::runtime::Builder::new_current_thread()
        .enable_time()
        .build()
        .unwrap();
    rt.block_on(async {
        tokio::time::timeout(Duration::from_millis(millis), wake.notified())
            .await
            .is_ok()
    })
}

#[test]
fn park_registers_and_guard_drop_deregisters() {
    let mut reg = ShardBlocking::default();
    let (guard, _wake) = WaiterGuard::park(&mut reg, 0, &[b"k".to_vec()], 1);
    assert!(reg.has_waiter(0, b"k"));
    assert_eq!(reg.total_waiters(), 1);
    guard.release(&mut reg);
    // Released: deregistered, and the key is pruned.
    assert!(!reg.has_waiter(0, b"k"));
    assert_eq!(reg.total_waiters(), 0);
    assert!(reg.queues.is_empty());
}

#[test]
fn multi_key_park_registers_on_each_key() {
    let mut reg = ShardBlocking::default();
    let (_guard, _wake) = WaiterGuard::park(&mut reg, 0, &[b"a".to_vec(), b"b".to_vec()], 1);
    assert!(reg.has_waiter(0, b"a"));
    assert!(reg.has_waiter(0, b"b"));
    assert_eq!(reg.total_waiters(), 2);
}

#[test]
fn wake_one_serves_the_front_waiter_fifo() {
    let mut reg = ShardBlocking::default();
    // Two waiters on the same key: conn 1 parked first (front), conn 2 second.
    let (_g1, wake1) = WaiterGuard::park(&mut reg, 0, &[b"k".to_vec()], 1);
    let (_g2, wake2) = WaiterGuard::park(&mut reg, 0, &[b"k".to_vec()], 2);
    // A wake notifies the FRONT (conn 1) only.
    assert!(reg.wake_one(0, b"k"));
    assert!(
        woken_within(&wake1, 50),
        "front waiter (conn 1) was not woken"
    );
    assert!(
        !woken_within(&wake2, 20),
        "the second waiter (conn 2) must NOT be woken before conn 1 leaves"
    );
}

#[test]
fn deregister_of_front_lets_next_become_front() {
    let mut reg = ShardBlocking::default();
    let (g1, _w1) = WaiterGuard::park(&mut reg, 0, &[b"k".to_vec()], 1);
    let (g2, _w2) = WaiterGuard::park(&mut reg, 0, &[b"k".to_vec()], 2);
    g2.release(&mut reg);
    assert_eq!(reg.total_waiters(), 1);
    assert!(reg.has_waiter(0, b"k"));
    g1.release(&mut reg);
    assert_eq!(reg.total_waiters(), 0);
}

#[test]
fn wake_on_an_unwaited_key_is_false() {
    let mut reg = ShardBlocking::default();
    assert!(!reg.wake_one(0, b"absent"));
}

#[test]
fn a_wait_on_two_keys_shares_one_wake_up() {
    let mut reg = ShardBlocking::default();
    let (_g, wake) = WaiterGuard::park(&mut reg, 0, &[b"a".to_vec(), b"b".to_vec()], 1);
    assert!(reg.wake_one(0, b"b"));
    assert!(woken_within(&wake, 50));
}

#[test]
fn databases_do_not_mix() {
    let mut reg = ShardBlocking::default();
    let (_g, _wake) = WaiterGuard::park(&mut reg, 0, &[b"k".to_vec()], 1);
    assert!(!reg.has_waiter(1, b"k"));
    assert!(!reg.wake_one(1, b"k"));
}

#[test]
fn the_next_in_line_is_served_after_the_first_has_gone() {
    let mut reg = ShardBlocking::default();
    let (first, second) = (Arc::new(Notify::new()), Arc::new(Notify::new()));
    reg.register(0, b"k", 1, Arc::clone(&first));
    reg.register(0, b"k", 2, Arc::clone(&second));
    reg.deregister(0, b"k", 1);
    assert!(reg.wake_one(0, b"k"));
    assert!(!woken_within(&first, 20));
    assert!(woken_within(&second, 50));
    // A connection that waits nowhere is no one's business.
    reg.deregister(0, b"k", 9);
    assert_eq!(reg.total_waiters(), 1);
}
