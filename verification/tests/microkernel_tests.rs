use merlion_kernel::microkernel::{
    add_dependency, disable_microkernel_mode, enable_microkernel_mode, handle_fault, health_check, init,
    is_microkernel_mode, list_services, message_stats, recv_message, register_service, reply, restart_service,
    send_message, service_info, start_service, state_str, stop_service, type_str, ukernel_stats,
    unregister_service, Microkernel, MsgType, ServiceState, ServiceType,
};

#[test]
fn mode_switch() {
    let mut k = Microkernel::new();
    assert!(!is_microkernel_mode(&k));
    enable_microkernel_mode(&mut k);
    assert!(is_microkernel_mode(&k));
    disable_microkernel_mode(&mut k);
    assert!(!is_microkernel_mode(&k));
}

#[test]
fn register_start_stop() {
    let mut k = Microkernel::new();
    let id = register_service(&mut k, "disk", ServiceType::Driver, 2);
    assert_eq!(id, 1);
    assert_eq!(k.services[0].state, ServiceState::Stopped);
    assert_eq!(stop_service(&mut k, id), Err("service already stopped"));
    assert_eq!(start_service(&mut k, id, 100), Ok(()));
    assert_eq!(k.services[0].state, ServiceState::Running);
    assert_eq!(k.services[0].started_tick, 100);
    assert_eq!(k.services[0].pid, 1);
    assert_eq!(start_service(&mut k, id, 101), Err("service already running"));
    assert_eq!(stop_service(&mut k, id), Ok(()));
    assert_eq!(k.services[0].state, ServiceState::Stopped);
    assert_eq!(k.services[0].pid, 0);
    assert_eq!(start_service(&mut k, 99, 0), Err("service not found"));
    assert_eq!(stop_service(&mut k, 99), Err("service not found"));
}

#[test]
fn restart_counts() {
    let mut k = Microkernel::new();
    let id = register_service(&mut k, "net", ServiceType::Network, 0);
    assert_eq!(restart_service(&mut k, id, 5), Ok(()));
    assert_eq!(k.services[0].restart_count, 1);
    assert_eq!(restart_service(&mut k, id, 6), Err("service is already running"));
    assert_eq!(restart_service(&mut k, 42, 6), Err("service not found"));
}

#[test]
fn dependencies_are_not_duplicated() {
    let mut k = Microkernel::new();
    let a = register_service(&mut k, "a", ServiceType::Custom, 0);
    let b = register_service(&mut k, "b", ServiceType::Custom, 0);
    assert_eq!(add_dependency(&mut k, a, b), Ok(()));
    assert_eq!(add_dependency(&mut k, a, b), Ok(()));
    assert_eq!(k.services[0].dependencies, vec![b]);
    assert_eq!(add_dependency(&mut k, 77, b), Err("service not found"));
}

#[test]
fn unregister_removes_service_and_mailbox() {
    let mut k = Microkernel::new();
    let a = register_service(&mut k, "a", ServiceType::Custom, 0);
    let b = register_service(&mut k, "b", ServiceType::Custom, 0);
    unregister_service(&mut k, a);
    assert_eq!(k.services.len(), 1);
    assert_eq!(k.services[0].id, b);
    assert_eq!(k.queues.len(), 1);
    assert_eq!(k.queues[0].service, b);
}

#[test]
fn send_then_recv_and_reply() {
    let mut k = Microkernel::new();
    let a = register_service(&mut k, "a", ServiceType::Custom, 0);
    let b = register_service(&mut k, "b", ServiceType::Custom, 0);
    let m1 = send_message(&mut k, a, b, MsgType::Request, vec![1, 2, 3], 10);
    let m2 = send_message(&mut k, a, b, MsgType::Notification, vec![4], 11);
    assert_eq!((m1, m2), (1, 2));
    assert_eq!(k.total_messages, 2);
    let got = recv_message(&mut k, b).unwrap();
    assert_eq!(got.id, m1);
    assert_eq!(got.payload, vec![1, 2, 3]);
    assert_eq!(got.msg_type, MsgType::Request);
    assert_eq!(got.timestamp, 10);
    assert_eq!(recv_message(&mut k, b).unwrap().id, m2);
    assert!(recv_message(&mut k, b).is_none());
    reply(&mut k, m1, b, a, vec![9], 12);
    let r = recv_message(&mut k, a).unwrap();
    assert_eq!(r.msg_type, MsgType::Response);
    assert_eq!(r.reply_to, Some(m1));
    assert_eq!(r.payload, vec![9]);
    assert!(recv_message(&mut k, 55).is_none());
}

#[test]
fn faults_restart_within_budget() {
    let mut k = Microkernel::new();
    let id = register_service(&mut k, "fragile", ServiceType::Driver, 1);
    start_service(&mut k, id, 0).unwrap();
    let out = handle_fault(&mut k, id, 5);
    assert_eq!(out, "Service 'fragile' (#1) crashed (fault #1). Auto-restarted (restart #1).\n");
    assert_eq!(k.services[0].state, ServiceState::Running);
    let out = handle_fault(&mut k, id, 6);
    assert_eq!(out, "Service 'fragile' (#1) crashed (fault #2). Restart limit reached (1).\n");
    assert_eq!(k.services[0].state, ServiceState::Crashed);
    assert_eq!(k.services[0].crashed_tick, 6);
    assert_eq!(k.total_faults, 2);
    assert_eq!(k.total_restarts, 1);
    assert_eq!(handle_fault(&mut k, 9, 7), "Service #9 not found.\n");
    assert_eq!(k.total_faults, 3);
}

#[test]
fn names_of_types_and_states() {
    assert_eq!(type_str(ServiceType::Driver), "driver");
    assert_eq!(type_str(ServiceType::Filesystem), "filesystem");
    assert_eq!(type_str(ServiceType::Logger), "logger");
    assert_eq!(state_str(ServiceState::Running), "running");
    assert_eq!(state_str(ServiceState::Restarting), "restarting");
}

#[test]
fn init_starts_builtin_servers() {
    let mut k = Microkernel::new();
    init(&mut k, 50);
    assert!(is_microkernel_mode(&k));
    assert_eq!(k.services.len(), 4);
    let names: Vec<&str> = k.services.iter().map(|s| s.name.as_str()).collect();
    assert_eq!(names, vec!["vfs-server", "net-server", "log-server", "sec-server"]);
    assert!(k.services.iter().all(|s| s.state == ServiceState::Running && s.started_tick == 50));
    assert_eq!(k.services[1].dependencies, vec![1]);
    assert_eq!(k.services[3].dependencies, vec![3]);
    assert_eq!(k.queues.len(), 4);
}

#[test]
fn reports_are_produced() {
    let mut k = Microkernel::new();
    init(&mut k, 1);
    send_message(&mut k, 1, 2, MsgType::Request, vec![], 2);
    assert!(list_services(&k).contains("vfs-server"));
    assert!(service_info(&k, 1).contains("vfs-server"));
    assert!(!health_check(&k).is_empty());
    assert_eq!(
        ukernel_stats(&k),
        "Microkernel Statistics\n  mode:           enabled\n  services:       4 total, 4 running, 0 crashed\n  messages:       1\n  faults:         0\n  restarts:       0\n"
    );
    assert_eq!(list_services(&Microkernel::new()), "No services registered.\n");
    assert!(!message_stats(&k).is_empty());
}
