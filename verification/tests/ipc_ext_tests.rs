use merlion_kernel::ipc_ext::{
    epoll_add, epoll_close, epoll_create, epoll_remove, epoll_wait, eventfd_close, eventfd_create, eventfd_read,
    eventfd_write, init, ipc_ext_info, mq_close, mq_list_info, mq_open, mq_receive, mq_send, namespace_add_pid,
    namespace_create, namespace_destroy, namespace_remove_pid, sem_destroy, sem_init, sem_list_info, sem_post,
    sem_trywait, sem_wait, shm_attach, shm_detach, shm_open, shm_unlink, signalfd_close, signalfd_create,
    signalfd_deliver, signalfd_read, socket_accept, socket_bind, socket_close, socket_connect, socket_create,
    socket_listen, socket_recv, socket_send, timerfd_arm, timerfd_close, timerfd_create, timerfd_read,
    timerfd_tick, EpollEvent, IpcExt, SocketState,
};

#[test]
fn eventfd_counter_and_semaphore_modes() {
    let mut st = IpcExt::new();
    let a = eventfd_create(&mut st, 1, 0, false).unwrap();
    assert_eq!(eventfd_read(&mut st, a), None);
    assert!(eventfd_write(&mut st, a, 5));
    assert!(eventfd_write(&mut st, a, 7));
    assert_eq!(eventfd_read(&mut st, a), Some(12));
    assert_eq!(eventfd_read(&mut st, a), None);
    assert!(eventfd_write(&mut st, a, u64::MAX));
    assert!(eventfd_write(&mut st, a, 1));
    assert_eq!(eventfd_read(&mut st, a), Some(u64::MAX));
    let s = eventfd_create(&mut st, 1, 2, true).unwrap();
    assert_eq!(eventfd_read(&mut st, s), Some(1));
    assert_eq!(eventfd_read(&mut st, s), Some(1));
    assert_eq!(eventfd_read(&mut st, s), None);
    assert!(eventfd_close(&mut st, s));
    assert!(!eventfd_close(&mut st, s));
    assert!(!eventfd_write(&mut st, s, 1));
}

#[test]
fn message_queue_priority_then_fifo() {
    let mut st = IpcExt::new();
    let q = mq_open(&mut st, "jobs").unwrap();
    assert_eq!(mq_open(&mut st, "jobs"), Some(q));
    assert!(mq_send(&mut st, q, b"low", 1));
    assert!(mq_send(&mut st, q, b"high-a", 5));
    assert!(mq_send(&mut st, q, b"high-b", 5));
    assert!(mq_send(&mut st, q, b"mid", 3));
    assert_eq!(mq_receive(&mut st, q), Some((b"high-a".to_vec(), 5)));
    assert_eq!(mq_receive(&mut st, q), Some((b"high-b".to_vec(), 5)));
    assert_eq!(mq_receive(&mut st, q), Some((b"mid".to_vec(), 3)));
    assert_eq!(mq_receive(&mut st, q), Some((b"low".to_vec(), 1)));
    assert_eq!(mq_receive(&mut st, q), None);
    assert_eq!(st.counters.messages_sent, 4);
    assert_eq!(st.counters.messages_received, 4);
    let big = vec![0u8; 5000];
    assert!(!mq_send(&mut st, q, &big, 0));
    assert!(mq_close(&mut st, q));
    assert!(!mq_send(&mut st, q, b"x", 0));
    assert_eq!(mq_receive(&mut st, q), None);
}

#[test]
fn message_queue_capacity() {
    let mut st = IpcExt::new();
    let q = mq_open(&mut st, "full").unwrap();
    for _ in 0..128 {
        assert!(mq_send(&mut st, q, b"m", 0));
    }
    assert!(!mq_send(&mut st, q, b"m", 0));
}

#[test]
fn semaphores() {
    let mut st = IpcExt::new();
    let s = sem_init(&mut st, "lock", 1).unwrap();
    assert_eq!(sem_init(&mut st, "lock", 9), Some(s));
    assert!(sem_wait(&mut st, s));
    assert!(!sem_wait(&mut st, s));
    assert_eq!(st.sems.items[0].waiters, 1);
    assert!(!sem_trywait(&mut st, s));
    assert!(sem_post(&mut st, s));
    assert_eq!(st.sems.items[0].waiters, 0);
    assert_eq!(st.sems.items[0].value, 1);
    assert!(sem_trywait(&mut st, s));
    assert_eq!(st.sems.items[0].value, 0);
    assert!(sem_destroy(&mut st, s));
    assert!(!sem_post(&mut st, s));
}

#[test]
fn shared_memory() {
    let mut st = IpcExt::new();
    assert_eq!(shm_open(&mut st, "zero", 0), None);
    let id = shm_open(&mut st, "buf", 4096).unwrap();
    assert_eq!(shm_open(&mut st, "buf", 10), Some(id));
    assert!(shm_attach(&mut st, id, 7));
    assert!(shm_attach(&mut st, id, 7));
    assert!(shm_detach(&mut st, id, 7));
    assert!(!shm_detach(&mut st, id, 7));
    assert!(!shm_attach(&mut st, 999, 7));
    assert!(shm_unlink(&mut st, "buf"));
    assert!(!shm_unlink(&mut st, "buf"));
}

#[test]
fn signalfds() {
    let mut st = IpcExt::new();
    let fd = signalfd_create(&mut st, 3, (1 << 2) | (1 << 15)).unwrap();
    assert!(!signalfd_deliver(&mut st, 3, 9));
    assert!(!signalfd_deliver(&mut st, 4, 2));
    assert!(signalfd_deliver(&mut st, 3, 15));
    assert!(signalfd_deliver(&mut st, 3, 2));
    assert_eq!(signalfd_read(&mut st, fd), Some(15));
    assert_eq!(signalfd_read(&mut st, fd), Some(2));
    assert_eq!(signalfd_read(&mut st, fd), None);
    assert!(signalfd_close(&mut st, fd));
    assert!(!signalfd_close(&mut st, fd));
}

#[test]
fn timerfds() {
    let mut st = IpcExt::new();
    let t = timerfd_create(&mut st, 1).unwrap();
    assert_eq!(timerfd_read(&mut st, t), None);
    assert!(timerfd_arm(&mut st, t, 10, 5, 100));
    timerfd_tick(&mut st, 105);
    assert_eq!(timerfd_read(&mut st, t), None);
    timerfd_tick(&mut st, 110);
    timerfd_tick(&mut st, 115);
    assert_eq!(timerfd_read(&mut st, t), Some(2));
    assert_eq!(timerfd_read(&mut st, t), None);
    let once = timerfd_create(&mut st, 1).unwrap();
    assert!(timerfd_arm(&mut st, once, 0, 0, 50));
    timerfd_tick(&mut st, 50);
    timerfd_tick(&mut st, 60);
    assert_eq!(timerfd_read(&mut st, once), Some(1));
    assert!(timerfd_close(&mut st, t));
    assert!(!timerfd_arm(&mut st, t, 1, 1, 1));
}

#[test]
fn epoll() {
    let mut st = IpcExt::new();
    let e = epoll_create(&mut st, 1).unwrap();
    assert!(epoll_add(&mut st, e, 10, vec![EpollEvent::In, EpollEvent::Out]));
    assert!(epoll_add(&mut st, e, 11, vec![]));
    assert!(epoll_add(&mut st, e, 12, vec![EpollEvent::Hup]));
    assert!(!epoll_add(&mut st, e, 10, vec![EpollEvent::Out]));
    assert_eq!(epoll_wait(&st, e), vec![(10, EpollEvent::In), (12, EpollEvent::Hup)]);
    assert!(epoll_remove(&mut st, e, 10));
    assert!(!epoll_remove(&mut st, e, 10));
    assert_eq!(epoll_wait(&st, e), vec![(12, EpollEvent::Hup)]);
    assert!(epoll_close(&mut st, e));
    assert_eq!(epoll_wait(&st, e), vec![]);
}

#[test]
fn namespaces() {
    let mut st = IpcExt::new();
    let ns = namespace_create(&mut st, "box").unwrap();
    assert!(namespace_add_pid(&mut st, ns, 5));
    assert!(namespace_remove_pid(&mut st, ns, 5));
    assert!(!namespace_remove_pid(&mut st, ns, 5));
    assert!(namespace_destroy(&mut st, ns));
    assert!(!namespace_destroy(&mut st, ns));
    assert!(!namespace_add_pid(&mut st, ns, 5));
}

#[test]
fn unix_sockets_connect_accept_send_recv() {
    let mut st = IpcExt::new();
    let server = socket_create(&mut st, 1).unwrap();
    let client = socket_create(&mut st, 2).unwrap();
    assert!(!socket_connect(&mut st, client, "/tmp/sock"));
    assert!(socket_bind(&mut st, server, "/tmp/sock"));
    assert!(!socket_connect(&mut st, client, "/tmp/sock"));
    assert!(socket_listen(&mut st, server, 4));
    assert!(socket_connect(&mut st, client, "/tmp/sock"));
    let conn = socket_accept(&mut st, server).unwrap();
    assert_eq!(socket_accept(&mut st, server), None);
    assert!(socket_send(&mut st, client, b"ping"));
    assert!(socket_send(&mut st, client, b"again"));
    assert_eq!(socket_recv(&mut st, conn), Some(b"ping".to_vec()));
    assert_eq!(socket_recv(&mut st, conn), Some(b"again".to_vec()));
    assert_eq!(socket_recv(&mut st, conn), None);
    assert!(socket_send(&mut st, conn, b"pong"));
    assert_eq!(socket_recv(&mut st, client), Some(b"pong".to_vec()));
    let c = st.sockets.items.iter().find(|s| s.id == client).unwrap();
    assert_eq!(c.state, SocketState::Connected);
    assert!(socket_close(&mut st, conn));
    assert!(!socket_send(&mut st, client, b"lost"));
    assert!(!socket_close(&mut st, conn));
}

#[test]
fn ipc_ext_reports() {
    let mut st = IpcExt::new();
    init(&mut st);
    let q = mq_open(&mut st, "q1").unwrap();
    mq_send(&mut st, q, b"abc", 1);
    sem_init(&mut st, "s1", 3);
    assert!(mq_list_info(&st).contains("q1"));
    assert!(sem_list_info(&st).contains("s1"));
    assert!(!ipc_ext_info(&st).is_empty());
}
