use merlion_kernel::installer::{
    available_groups, default_partition_layout, format_disks, format_log, format_partition, format_partitions,
    fs_type_name, generate_boot_config, group_name, init, install_log, install_status, list_disks, log_entry,
    part_type_name, partition_disk, phase_to_u32, repair_bootloader, reset, select_packages, set_hostname,
    set_network, set_timezone, set_user, start_install, u32_to_phase, BlockDevice, FsType, InstallPhase,
    InstallerState, ModuleGroup, NetMode, PartitionType, MAX_LOG_ENTRIES,
};

fn disk(name: &str, size_kb: u64) -> BlockDevice {
    BlockDevice { name: String::from(name), size_kb, blocks: size_kb * 2 }
}

#[test]
fn phase_numbers_round_trip() {
    for v in 0..12u32 {
        assert_eq!(phase_to_u32(u32_to_phase(v)), v);
    }
    assert_eq!(u32_to_phase(99), InstallPhase::Idle);
    assert_eq!(phase_to_u32(InstallPhase::Done), 10);
}

#[test]
fn names() {
    assert_eq!(group_name(ModuleGroup::Ai), "ai");
    assert_eq!(fs_type_name(FsType::Ext4), "ext4");
    assert_eq!(part_type_name(PartitionType::EfiSystem), "EFI System");
    assert_eq!(available_groups().len(), 5);
}

#[test]
fn default_layout_for_small_disk() {
    assert_eq!(default_partition_layout(48).err(), Some("disk too small for installation"));
    let parts = default_partition_layout(64).unwrap();
    assert_eq!(parts.len(), 3);
    assert_eq!((parts[0].start_lba, parts[0].end_lba), (2048, 67583));
    assert_eq!((parts[1].start_lba, parts[1].end_lba), (67584, 100351));
    assert_eq!((parts[2].start_lba, parts[2].end_lba), (100352, 131037));
    assert_eq!(parts[2].size_mb, 14);
    assert_eq!(parts[2].label, "merlion-root");
}

#[test]
fn default_layout_partitions_are_disjoint() {
    for mb in [64u64, 100, 1024, 65536] {
        let p = default_partition_layout(mb).unwrap();
        for i in 0..3 {
            assert!(p[i].start_lba <= p[i].end_lba);
            for j in 0..3 {
                if i != j {
                    assert!(!(p[i].start_lba <= p[j].end_lba && p[i].end_lba >= p[j].start_lba));
                }
            }
        }
        assert!(p[2].end_lba < mb * 2048 - 34);
    }
}

#[test]
fn list_disks_converts_sizes() {
    let d = list_disks(&vec![disk("vda", 2048), disk("vdb", 1024 * 1024)]);
    assert_eq!(d.len(), 2);
    assert_eq!(d[0].name, "vda");
    assert_eq!(d[0].size_mb, 2);
    assert_eq!(d[0].size_bytes, 2048 * 1024);
    assert_eq!(d[1].size_mb, 1024);
    assert!(!format_disks(&vec![disk("vda", 2048)]).is_empty());
}

#[test]
fn partitions_may_not_overlap() {
    let mut st = InstallerState::new();
    assert_eq!(partition_disk(&mut st, 1, PartitionType::Data, 1, 2048, FsType::Ext4, "a", 1), Ok(()));
    assert_eq!(st.partitions[0].end_lba, 2048 + 2048 - 1);
    assert_eq!(
        partition_disk(&mut st, 2, PartitionType::Data, 1, 3000, FsType::Ext4, "b", 2),
        Err("partition overlaps with existing partition")
    );
    assert_eq!(partition_disk(&mut st, 2, PartitionType::Data, 1, 4096, FsType::Ext4, "b", 3), Ok(()));
    assert_eq!(st.partitions.len(), 2);
    assert_eq!(st.log.last().unwrap().message, "created partition 2 (1 MiB, Data)");
    assert_eq!(format_partition(&mut st, 2, 4), Ok(()));
    assert_eq!(format_partition(&mut st, 9, 5), Err("partition not found"));
    assert!(format_partitions(&st).contains("4096"));
}

#[test]
fn settings_are_validated() {
    let mut st = InstallerState::new();
    assert_eq!(set_hostname(&mut st, "", 1), Err("hostname must be 1-64 characters"));
    assert_eq!(set_hostname(&mut st, &"h".repeat(65), 1), Err("hostname must be 1-64 characters"));
    assert_eq!(set_hostname(&mut st, "lion", 1), Ok(()));
    assert_eq!(st.hostname, "lion");
    assert_eq!(set_user(&mut st, "", 1), Err("username must be 1-32 characters"));
    assert_eq!(set_user(&mut st, "bad name", 1), Err("username must be alphanumeric or underscore"));
    assert_eq!(set_user(&mut st, "root_1", 1), Ok(()));
    assert_eq!(set_timezone(&mut st, "", 1), Err("timezone cannot be empty"));
    assert_eq!(set_timezone(&mut st, "UTC", 1), Ok(()));
    set_network(&mut st, NetMode::Offline, None, 2);
    assert_eq!(st.net_mode, NetMode::Offline);
    select_packages(&mut st, vec![ModuleGroup::Core, ModuleGroup::Games], 3);
    assert_eq!(st.selected_groups, vec![ModuleGroup::Core, ModuleGroup::Games]);
    assert_eq!(st.log[0].message, "hostname set to 'lion'");
}

#[test]
fn full_install_and_reset() {
    let mut st = InstallerState::new();
    init(&mut st);
    assert_eq!(start_install(&mut st, &vec![], 1), Err("no block devices found"));
    assert_eq!(st.phase, InstallPhase::Failed);
    assert_eq!(start_install(&mut st, &vec![disk("vda", 1024 * 1024)], 2), Err("installation already in progress"));
    reset(&mut st);
    assert_eq!(st.phase, InstallPhase::Idle);
    assert!(st.log.is_empty());
    assert_eq!(start_install(&mut st, &vec![disk("vda", 1024 * 1024)], 3), Ok(()));
    assert_eq!(st.phase, InstallPhase::Done);
    assert_eq!(st.hostname, "merlion");
    assert_eq!(st.username, "admin");
    assert_eq!(st.timezone, "Asia/Singapore");
    assert_eq!(st.partitions.len(), 3);
    assert_eq!(st.files_copied, 12);
    let p = install_status(&st);
    assert_eq!(p.percent, 100);
    assert_eq!(p.files_copied, 12);
    assert_eq!(install_log(&st).len(), st.log.len());
    assert!(format_log(&st).contains("Welcome to MerlionOS installation"));
    assert_eq!(repair_bootloader(&mut st, 4), Ok(()));
    let mut small = InstallerState::new();
    assert_eq!(start_install(&mut small, &vec![disk("tiny", 1024)], 1), Err("disk too small for installation"));
    assert_eq!(small.phase, InstallPhase::Failed);
}

#[test]
fn repair_needs_esp() {
    let mut st = InstallerState::new();
    assert!(repair_bootloader(&mut st, 1).is_err());
}

#[test]
fn log_is_capped() {
    let mut st = InstallerState::new();
    for i in 0..(MAX_LOG_ENTRIES + 10) {
        log_entry(&mut st, 'I', format!("entry {}", i), i as u64);
    }
    assert_eq!(st.log.len(), MAX_LOG_ENTRIES);
    assert_eq!(st.log[0].message, "entry 10");
}

#[test]
fn boot_config() {
    assert_eq!(
        generate_boot_config("lion"),
        "TIMEOUT=3\n:MerlionOS on lion\nPROTOCOL=limine\nKERNEL_PATH=boot:///boot/merlion.bin\nKERNEL_CMDLINE=console=ttyS0 hostname=lion\n"
    );
}
