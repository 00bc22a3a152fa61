use merlion_kernel::kvm::{create_vm, destroy_vm, load_kernel, start_vm, stop_vm, vm_console, Kvm, VmState};

#[test]
fn create_checks() {
    let mut k = Kvm::new();
    assert_eq!(create_vm(&mut k, "a", 64, 5), Ok(1));
    assert_eq!(create_vm(&mut k, "a", 64, 5), Err("VM with this name already exists"));
    assert_eq!(create_vm(&mut k, "b", 0, 5), Err("memory must be 1-4096 MB"));
    assert_eq!(create_vm(&mut k, "b", 4097, 5), Err("memory must be 1-4096 MB"));
    assert_eq!(create_vm(&mut k, "b", 4096, 5), Ok(2));
    let v = &k.vms[0];
    assert_eq!(v.state, VmState::Created);
    assert_eq!(v.guest_rip, 0x7C00);
    assert_eq!(v.guest_rsp, 64 * 1024 * 1024 - 16);
    assert_eq!(v.created_ticks, 5);
    for i in 2..16 {
        assert!(create_vm(&mut k, &format!("vm{}", i), 1, 0).is_ok());
    }
    assert_eq!(create_vm(&mut k, "last", 1, 0), Err("maximum VMs reached"));
    assert_eq!(k.vms_created, 16);
}

#[test]
fn lifecycle() {
    let mut k = Kvm::new();
    let id = create_vm(&mut k, "guest", 16, 0).unwrap();
    assert_eq!(load_kernel(&mut k, 99, &[1, 2, 3]), Err("VM not found"));
    assert_eq!(load_kernel(&mut k, id, &[1, 2, 3]), Ok(()));
    assert!(k.vms[0].kernel_loaded);
    assert_eq!(k.vms[0].kernel_size, 3);
    assert_eq!(stop_vm(&mut k, id), Err("VM is not running"));
    assert_eq!(start_vm(&mut k, id), Ok(()));
    assert_eq!(k.vms[0].state, VmState::Running);
    assert_eq!(k.vms[0].cpu_ticks, 10);
    assert_eq!(start_vm(&mut k, id), Err("VM is already running"));
    assert_eq!(load_kernel(&mut k, id, &[1]), Err("VM must be in 'created' state to load kernel"));
    assert_eq!(destroy_vm(&mut k, id), Err("stop VM before destroying"));
    assert_eq!(stop_vm(&mut k, id), Ok(()));
    assert_eq!(k.vms[0].state, VmState::Stopped);
    assert!(!k.vms[0].vmcs_active);
    assert_eq!(
        vm_console(&k, id),
        Ok(String::from("Loading guest kernel...\nVM started.\nVM stopped.\n"))
    );
    assert_eq!(destroy_vm(&mut k, id), Ok(()));
    assert_eq!(destroy_vm(&mut k, id), Err("VM not found"));
    assert_eq!(vm_console(&k, id), Err("VM not found"));
    assert_eq!(k.vms_destroyed, 1);
}

#[test]
fn timer_interrupt_every_hundred_ticks() {
    let mut k = Kvm::new();
    let id = create_vm(&mut k, "t", 1, 0).unwrap();
    for _ in 0..9 {
        start_vm(&mut k, id).unwrap();
        stop_vm(&mut k, id).unwrap();
    }
    assert_eq!(k.vms[0].pit_interrupts, 0);
    assert_eq!(k.vms[0].pit_counter, 90);
    start_vm(&mut k, id).unwrap();
    let v = &k.vms[0];
    assert_eq!(v.cpu_ticks, 100);
    assert_eq!(v.pit_counter, 0);
    assert_eq!(v.pit_interrupts, 1);
    assert_eq!(v.pic_irr & 1, 1);
    assert_eq!(v.interrupt_exits, 1);
    assert_eq!(v.guest_rip, 0x7C01);
    assert_eq!(k.total_exits, 1);
}

#[test]
fn console_shows_printable_text() {
    let mut k = Kvm::new();
    let id = create_vm(&mut k, "c", 1, 0).unwrap();
    k.vms[0].serial = vec![b'a', 0x0D, 0x01, b'\n', b'~', 0x7F];
    assert_eq!(vm_console(&k, id), Ok(String::from("a.\n~.")));
}
