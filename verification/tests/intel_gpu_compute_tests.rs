use merlion_kernel::intel_gpu_compute::{build_compute_batch, matmul_ops, parse_dispatch_size, BatchBuffer, GpuMemory};

#[test]
fn bump_allocation_rounds_and_refuses() {
    let mut m = GpuMemory::new(0x1000_0000, 1024, true);
    assert_eq!(m.allocate(0, "z").err(), Some("allocation size must be non-zero"));
    let a = m.allocate(10, "a").unwrap();
    assert_eq!((a.id, a.gpu_addr, a.size), (1, 0, 256));
    let b = m.allocate(256, "b").unwrap();
    assert_eq!((b.id, b.gpu_addr, b.size), (2, 256, 256));
    let c = m.allocate(257, "c").unwrap();
    assert_eq!((c.gpu_addr, c.size), (512, 512));
    assert_eq!(m.allocate(1, "d").err(), Some("out of GPU memory"));
    assert_eq!(m.next_free, 1024);
    m.free(2);
    assert_eq!(m.allocations.len(), 2);
    assert_eq!(m.allocations[1].name, "c");
    assert_eq!(m.next_free, 1024);
}

#[test]
fn simulated_write_and_read() {
    let mut m = GpuMemory::new(0, 512, true);
    let a = m.allocate(16, "buf").unwrap();
    assert_eq!(m.write(&a, 4, &[1, 2, 3]), None);
    assert_eq!(m.read(&a, 3, 5), Ok(vec![0, 1, 2, 3, 0]));
    // out of the allocation: nothing written, nothing read
    assert_eq!(m.write(&a, 255, &[9, 9]), None);
    assert_eq!(m.read(&a, 255, 2), Err(None));
    assert_eq!(m.read(&a, 255, 1), Ok(vec![0]));
}

#[test]
fn device_memory_is_left_to_the_caller() {
    let mut m = GpuMemory::new(0x8000_0000, 4096, false);
    let _a = m.allocate(100, "x").unwrap();
    let b = m.allocate(100, "y").unwrap();
    assert_eq!(m.write(&b, 8, &[1, 2]), Some(0x8000_0000 + 256 + 8));
    assert_eq!(m.read(&b, 8, 2), Err(Some(0x8000_0000 + 256 + 8)));
}

#[test]
fn batch_buffer_commands() {
    let mut bb = BatchBuffer::new();
    bb.mi_noop();
    bb.mi_store_data_imm(0x1_2345_6789, 7);
    bb.mi_flush_dw();
    bb.mi_batch_buffer_start(0x10);
    bb.pipe_control(0x0010_0000);
    bb.media_vfe_state(0x1_0005, 1);
    bb.media_curbe_load(0x20, 64);
    bb.media_interface_descriptor_load(0x30, 32);
    bb.gpgpu_walker(0, 16, 1, 1, 4, 2, 1);
    bb.mi_batch_buffer_end();
    assert_eq!(bb.len(), 1 + 4 + 3 + 3 + 5 + 8 + 4 + 4 + 15 + 1);
    let v = bb.build();
    assert_eq!(&v[0..5], &[0, (0x20 << 23) | (1 << 22) | 2, 0x2345_6789, 1, 7]);
    assert_eq!(&v[5..8], &[(0x26 << 23) | 1, 0, 0]);
    assert_eq!(&v[8..11], &[(0x31 << 23) | (1 << 8) | 1, 0x10, 0]);
    assert_eq!(v[11], (3 << 29) | (3 << 27) | (0x7A << 16) | 3);
    assert_eq!(&v[16..24], &[(3 << 29) | (2 << 27) | 6, 0, 5, 0, 1, 0, 0, 0]);
    assert_eq!(v[24], (3 << 29) | (2 << 27) | (1 << 16) | 2);
    assert_eq!(v[28], (3 << 29) | (2 << 27) | (2 << 16) | 2);
    assert_eq!(&v[32..47], &[(3 << 29) | (2 << 27) | (5 << 16) | 13, 0, 0, 0, 1, 16, 1, 1, 0, 0, 4, 2, 1, 0xFFFF_FFFF, 0xFFFF_FFFF]);
    assert_eq!(v[47], 0x0A << 23);
}

#[test]
fn compute_batch_words() {
    let b = build_compute_batch(24, 4, 2, 1);
    assert_eq!(
        b,
        vec![
            0x7000_0006, 0, 168, 0, 1, 0, 0, 0,
            0x7005_000D, 0, 0, 0, 0, 8, 1, 1, 0, 0, 4, 2, 1, 0xFFFF_FFFF, 0xFFFF_FFFF,
            0x787A_0003, 0x0010_0000, 0, 0, 0,
            0x0500_0000, 0,
        ]
    );
    assert_eq!(b.len() % 2, 0);
    assert_eq!(build_compute_batch(20000, 1, 1, 1)[2], (20000u32 * 7) % 65536);
}

#[test]
fn dispatch_sizes() {
    assert_eq!(parse_dispatch_size("64"), Some(64));
    assert_eq!(parse_dispatch_size("  4096 \n"), Some(4096));
    assert_eq!(parse_dispatch_size("1"), Some(1));
    assert_eq!(parse_dispatch_size("0"), None);
    assert_eq!(parse_dispatch_size("4097"), None);
    assert_eq!(parse_dispatch_size("abc"), None);
    assert_eq!(parse_dispatch_size(""), None);
    assert_eq!(parse_dispatch_size("99999999999"), None);
}

#[test]
fn matmul_operation_count() {
    assert_eq!(matmul_ops(64), 524_288);
    assert_eq!(matmul_ops(4096), 137_438_953_472);
    assert_eq!(matmul_ops(0), 0);
}
