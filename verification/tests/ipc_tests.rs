use merlion_kernel::ipc::{create, destroy, list, recv, recv_all, send, send_str, Channel, Channels, CHANNEL_BUF_SIZE, MAX_CHANNELS};

#[test]
fn channel_is_fifo() {
    let mut c = Channel::new();
    assert!(c.send(1));
    assert!(c.send(2));
    assert!(c.send(3));
    assert_eq!(c.len(), 3);
    assert_eq!(c.recv(), Some(1));
    assert_eq!(c.recv(), Some(2));
    assert_eq!(c.recv(), Some(3));
    assert_eq!(c.recv(), None);
}

#[test]
fn channel_holds_at_most_its_capacity() {
    let mut c = Channel::new();
    for i in 0..CHANNEL_BUF_SIZE {
        assert!(c.send(i as u8));
    }
    assert!(!c.send(200));
    assert_eq!(c.len(), 64);
    // Wrap around the ring.
    assert_eq!(c.recv(), Some(0));
    assert!(c.send(99));
    for i in 1..CHANNEL_BUF_SIZE {
        assert_eq!(c.recv(), Some(i as u8));
    }
    assert_eq!(c.recv(), Some(99));
}

#[test]
fn create_uses_free_slots_until_full() {
    let mut t = Channels::new();
    for i in 0..MAX_CHANNELS {
        assert_eq!(create(&mut t), Some(i));
    }
    assert_eq!(create(&mut t), None);
    destroy(&mut t, 2);
    assert_eq!(create(&mut t), Some(2));
}

#[test]
fn send_then_recv_round_trip() {
    let mut t = Channels::new();
    let id = create(&mut t).unwrap();
    assert!(send(&mut t, id, 42));
    assert_eq!(recv(&mut t, id), Some(42));
    assert_eq!(recv(&mut t, id), None);
    assert!(!send(&mut t, 3, 1));
    assert!(!send(&mut t, 9, 1));
    assert_eq!(recv(&mut t, 9), None);
}

#[test]
fn send_str_and_recv_all() {
    let mut t = Channels::new();
    let id = create(&mut t).unwrap();
    assert_eq!(send_str(&mut t, id, "hello"), 5);
    assert_eq!(recv_all(&mut t, id), "hello");
    assert_eq!(recv_all(&mut t, id), "");
    let long = "x".repeat(100);
    assert_eq!(send_str(&mut t, id, &long), 64);
    assert_eq!(send_str(&mut t, id, "more"), 0);
    assert_eq!(recv_all(&mut t, id).len(), 64);
    assert_eq!(send_str(&mut t, 3, "closed"), 0);
}

#[test]
fn list_reports_open_channels() {
    let mut t = Channels::new();
    let a = create(&mut t).unwrap();
    let b = create(&mut t).unwrap();
    send_str(&mut t, b, "abc");
    destroy(&mut t, a);
    let l = list(&t);
    assert_eq!(l.len(), 1);
    assert_eq!(l[0].id, 1);
    assert_eq!(l[0].pending, 3);
}
