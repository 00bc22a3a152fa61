//! The system installer: disk detection, partition layout, filesystem
//! formatting, file copy, bootloader setup and first-boot configuration,
//! run as a sequence of phases with an installation log.
use vstd::prelude::*;
use vstd::string::*;
use crate::text::{string_of, push_dec, dec, push_char, push_padded, pad_right, pad_left, push_dec_padded, push_dec_padded_left};

verus! {

pub const SECTOR_SIZE: u64 = 512;
/// Smallest disk the installer accepts, in MiB.
pub const MIN_DISK_SIZE_MB: u64 = 64;
pub const DEFAULT_ESP_SIZE_MB: u64 = 32;
pub const DEFAULT_SWAP_SIZE_MB: u64 = 16;
pub const MAX_LOG_ENTRIES: usize = 512;
pub const MAX_PARTITIONS: usize = 128;

/// Installation phase.
#[derive(PartialEq, Eq, Structural, Clone, Copy, Debug)]
pub enum InstallPhase {
    Idle,
    Welcome,
    DiskSelect,
    Partitioning,
    Formatting,
    FileCopy,
    Bootloader,
    UserSetup,
    NetworkConfig,
    PackageSelect,
    Done,
    Failed,
}

/// Partition type.
#[derive(PartialEq, Eq, Structural, Clone, Copy, Debug)]
pub enum PartitionType {
    EfiSystem,
    LinuxRoot,
    Swap,
    Data,
}

/// Filesystem to create.
#[derive(PartialEq, Eq, Structural, Clone, Copy, Debug)]
pub enum FsType {
    Fat16,
    Ext4,
    Swap,
}

/// A block device as the block layer reports it.
pub struct BlockDevice {
    pub name: String,
    pub size_kb: u64,
    pub blocks: u64,
}

/// A disk available for installation.
pub struct DiskInfo {
    pub name: String,
    pub size_bytes: u64,
    pub size_mb: u64,
    pub sectors: u64,
    pub has_partitions: bool,
}

/// A disk as plain values.
pub struct DiskModel {
    pub name: Seq<char>,
    pub size_bytes: u64,
    pub size_mb: u64,
    pub sectors: u64,
    pub has_partitions: bool,
}

impl View for DiskInfo {
    type V = DiskModel;

    open spec fn view(&self) -> DiskModel {
        DiskModel { name: self.name@, size_bytes: self.size_bytes, size_mb: self.size_mb, sectors: self.sectors, has_partitions: self.has_partitions }
    }
}

/// A partition definition.
pub struct PartitionDef {
    /// 1-based.
    pub number: u32,
    pub ptype: PartitionType,
    pub size_mb: u64,
    pub start_lba: u64,
    /// Inclusive.
    pub end_lba: u64,
    pub fs: FsType,
    pub label: String,
}

/// A partition as plain values.
pub struct PartModel {
    pub number: u32,
    pub ptype: PartitionType,
    pub size_mb: u64,
    pub start_lba: u64,
    pub end_lba: u64,
    pub fs: FsType,
    pub label: Seq<char>,
}

impl View for PartitionDef {
    type V = PartModel;

    open spec fn view(&self) -> PartModel {
        PartModel {
            number: self.number,
            ptype: self.ptype,
            size_mb: self.size_mb,
            start_lba: self.start_lba,
            end_lba: self.end_lba,
            fs: self.fs,
            label: self.label@,
        }
    }
}

/// Network mode for first boot.
#[derive(PartialEq, Eq, Structural, Clone, Copy, Debug)]
pub enum NetMode {
    Dhcp,
    Static,
    /// No network.
    Offline,
}

/// Static IPv4 configuration.
#[derive(Clone, Copy, Debug)]
pub struct StaticNetConfig {
    pub ip: [u8; 4],
    pub netmask: [u8; 4],
    pub gateway: [u8; 4],
    pub dns: [u8; 4],
}

/// Module group for package selection.
#[derive(PartialEq, Eq, Structural, Clone, Copy, Debug)]
pub enum ModuleGroup {
    Core,
    Network,
    Ai,
    Development,
    Games,
}

/// An installation log entry.
pub struct LogEntry {
    pub tick: u64,
    /// `I` (info), `W` (warning) or `E` (error).
    pub level: char,
    pub message: String,
}

/// A log entry as plain values.
pub struct LogModel {
    pub tick: u64,
    pub level: char,
    pub message: Seq<char>,
}

impl View for LogEntry {
    type V = LogModel;

    open spec fn view(&self) -> LogModel {
        LogModel { tick: self.tick, level: self.level, message: self.message@ }
    }
}

/// Installation progress.
#[derive(Clone, Copy, Debug)]
pub struct InstallProgress {
    pub phase: InstallPhase,
    /// Percentage complete (0-100).
    pub percent: u32,
    pub files_copied: u32,
    pub bytes_written: u64,
}

/// The installer state.
pub struct InstallerState {
    pub phase: InstallPhase,
    pub disks: Vec<DiskInfo>,
    pub selected_disk: Option<usize>,
    pub partitions: Vec<PartitionDef>,
    pub hostname: String,
    pub username: String,
    pub timezone: String,
    pub net_mode: NetMode,
    pub static_net: Option<StaticNetConfig>,
    pub selected_groups: Vec<ModuleGroup>,
    pub log: Vec<LogEntry>,
    pub files_copied: u32,
    pub bytes_written: u64,
    pub initialized: bool,
}

/// Log entries as plain values.
pub open spec fn logs_view(v: Seq<LogEntry>) -> Seq<LogModel> {
    v.map_values(|e: LogEntry| e@)
}

/// Partitions as plain values.
pub open spec fn parts_view(v: Seq<PartitionDef>) -> Seq<PartModel> {
    v.map_values(|p: PartitionDef| p@)
}

/// Disks as plain values.
pub open spec fn disks_view(v: Seq<DiskInfo>) -> Seq<DiskModel> {
    v.map_values(|d: DiskInfo| d@)
}

impl InstallerState {
    pub open spec fn log_view(&self) -> Seq<LogModel> {
        logs_view(self.log@)
    }

    pub open spec fn parts(&self) -> Seq<PartModel> {
        parts_view(self.partitions@)
    }

    /// The log holds at most `MAX_LOG_ENTRIES` entries.
    pub open spec fn wf(&self) -> bool {
        self.log@.len() <= MAX_LOG_ENTRIES
    }

    /// A fresh installer: idle, nothing chosen, DHCP networking.
    pub fn new() -> (s: Self)
        ensures
            s.wf(),
            s.phase == InstallPhase::Idle,
            s.disks@.len() == 0 && s.partitions@.len() == 0 && s.log@.len() == 0 && s.selected_groups@.len() == 0,
            s.hostname@.len() == 0 && s.username@.len() == 0 && s.timezone@.len() == 0,
            s.selected_disk is None && s.static_net is None && s.net_mode == NetMode::Dhcp,
            s.files_copied == 0 && s.bytes_written == 0 && !s.initialized,
    {
        InstallerState {
            phase: InstallPhase::Idle,
            disks: Vec::new(),
            selected_disk: None,
            partitions: Vec::new(),
            hostname: String::new(),
            username: String::new(),
            timezone: String::new(),
            net_mode: NetMode::Dhcp,
            static_net: None,
            selected_groups: Vec::new(),
            log: Vec::new(),
            files_copied: 0,
            bytes_written: 0,
            initialized: false,
        }
    }
}

/// The number of a phase.
pub open spec fn phase_number(p: InstallPhase) -> u32 {
    match p {
        InstallPhase::Idle => 0,
        InstallPhase::Welcome => 1,
        InstallPhase::DiskSelect => 2,
        InstallPhase::Partitioning => 3,
        InstallPhase::Formatting => 4,
        InstallPhase::FileCopy => 5,
        InstallPhase::Bootloader => 6,
        InstallPhase::UserSetup => 7,
        InstallPhase::NetworkConfig => 8,
        InstallPhase::PackageSelect => 9,
        InstallPhase::Done => 10,
        InstallPhase::Failed => 11,
    }
}

/// The number of a phase.
pub fn phase_to_u32(phase: InstallPhase) -> (r: u32)
    ensures
        r == phase_number(phase),
{
    match phase {
        InstallPhase::Idle => 0,
        InstallPhase::Welcome => 1,
        InstallPhase::DiskSelect => 2,
        InstallPhase::Partitioning => 3,
        InstallPhase::Formatting => 4,
        InstallPhase::FileCopy => 5,
        InstallPhase::Bootloader => 6,
        InstallPhase::UserSetup => 7,
        InstallPhase::NetworkConfig => 8,
        InstallPhase::PackageSelect => 9,
        InstallPhase::Done => 10,
        InstallPhase::Failed => 11,
    }
}

/// The phase with a number (`Idle` for unknown numbers).
pub fn u32_to_phase(v: u32) -> (r: InstallPhase)
    ensures
        v <= 11 ==> phase_number(r) == v,
        v > 11 ==> r == InstallPhase::Idle,
{
    match v {
        1 => InstallPhase::Welcome,
        2 => InstallPhase::DiskSelect,
        3 => InstallPhase::Partitioning,
        4 => InstallPhase::Formatting,
        5 => InstallPhase::FileCopy,
        6 => InstallPhase::Bootloader,
        7 => InstallPhase::UserSetup,
        8 => InstallPhase::NetworkConfig,
        9 => InstallPhase::PackageSelect,
        10 => InstallPhase::Done,
        11 => InstallPhase::Failed,
        _ => InstallPhase::Idle,
    }
}

/// The log after one entry: the oldest entry goes when it is full.
pub open spec fn logged(log: Seq<LogModel>, e: LogModel) -> Seq<LogModel> {
    if log.len() >= MAX_LOG_ENTRIES { log.drop_first().push(e) } else { log.push(e) }
}

/// Append an entry at tick `now`, dropping the oldest when the log is full.
pub fn log_entry(st: &mut InstallerState, level: char, msg: String, now: u64)
    requires
        old(st).wf(),
    ensures
        final(st).wf(),
        final(st).log_view() == logged(old(st).log_view(), LogModel { tick: now, level, message: msg@ }),
        final(st).phase == old(st).phase,
        final(st).disks@ == old(st).disks@,
        final(st).selected_disk == old(st).selected_disk,
        final(st).partitions@ == old(st).partitions@,
        final(st).hostname@ == old(st).hostname@,
        final(st).username@ == old(st).username@,
        final(st).timezone@ == old(st).timezone@,
        final(st).net_mode == old(st).net_mode,
        final(st).static_net == old(st).static_net,
        final(st).selected_groups@ == old(st).selected_groups@,
        final(st).files_copied == old(st).files_copied,
        final(st).bytes_written == old(st).bytes_written,
        final(st).initialized == old(st).initialized,
{
    let ghost l0 = st.log_view();
    if st.log.len() >= MAX_LOG_ENTRIES {
        st.log.remove(0);
        assert(st.log_view() =~= l0.drop_first());
    }
    let ghost l1 = st.log_view();
    let e = LogEntry { tick: now, level, message: msg };
    st.log.push(e);
    assert(st.log_view() =~= l1.push(e@));
}

/// The name of a module group.
pub open spec fn group_name_text(g: ModuleGroup) -> Seq<char> {
    match g {
        ModuleGroup::Core => "core"@,
        ModuleGroup::Network => "network"@,
        ModuleGroup::Ai => "ai"@,
        ModuleGroup::Development => "development"@,
        ModuleGroup::Games => "games"@,
    }
}

/// The name of a module group.
pub fn group_name(g: ModuleGroup) -> (r: &'static str)
    ensures
        r@ == group_name_text(g),
{
    match g {
        ModuleGroup::Core => "core",
        ModuleGroup::Network => "network",
        ModuleGroup::Ai => "ai",
        ModuleGroup::Development => "development",
        ModuleGroup::Games => "games",
    }
}

/// The name of a filesystem.
pub open spec fn fs_name_text(fs: FsType) -> Seq<char> {
    match fs {
        FsType::Fat16 => "FAT16"@,
        FsType::Ext4 => "ext4"@,
        FsType::Swap => "swap"@,
    }
}

/// The name of a filesystem.
pub fn fs_type_name(fs: FsType) -> (r: &'static str)
    ensures
        r@ == fs_name_text(fs),
{
    match fs {
        FsType::Fat16 => "FAT16",
        FsType::Ext4 => "ext4",
        FsType::Swap => "swap",
    }
}

/// The name of a partition type.
pub open spec fn part_type_text(pt: PartitionType) -> Seq<char> {
    match pt {
        PartitionType::EfiSystem => "EFI System"@,
        PartitionType::LinuxRoot => "Linux Root"@,
        PartitionType::Swap => "Swap"@,
        PartitionType::Data => "Data"@,
    }
}

/// The name of a partition type.
pub fn part_type_name(pt: PartitionType) -> (r: &'static str)
    ensures
        r@ == part_type_text(pt),
{
    match pt {
        PartitionType::EfiSystem => "EFI System",
        PartitionType::LinuxRoot => "Linux Root",
        PartitionType::Swap => "Swap",
        PartitionType::Data => "Data",
    }
}

// ---------------------------------------------------------------------------
// Disks and partitions
// ---------------------------------------------------------------------------

/// The disk for a block device (sizes in bytes and MiB from its KiB).
pub open spec fn disk_of(name: Seq<char>, size_kb: u64, blocks: u64) -> DiskModel {
    DiskModel { name, size_bytes: (size_kb * 1024) as u64, size_mb: size_kb / 1024, sectors: blocks, has_partitions: false }
}

/// Whether every device's size in bytes fits in 64 bits.
pub open spec fn sizes_fit(devs: Seq<BlockDevice>) -> bool {
    forall|i: int| 0 <= i < devs.len() ==> #[trigger] devs[i].size_kb * 1024 <= u64::MAX
}

/// The installable disks of the block devices, in order.
pub fn list_disks(devs: &Vec<BlockDevice>) -> (r: Vec<DiskInfo>)
    requires
        sizes_fit(devs@),
    ensures
        disks_view(r@) == devs@.map_values(|d: BlockDevice| disk_of(d.name@, d.size_kb, d.blocks)),
{
    let mut out: Vec<DiskInfo> = Vec::new();
    let mut i: usize = 0;
    while i < devs.len()
        invariant
            i <= devs@.len(),
            sizes_fit(devs@),
            disks_view(out@) == devs@.subrange(0, i as int).map_values(|d: BlockDevice| disk_of(d.name@, d.size_kb, d.blocks)),
        decreases devs@.len() - i,
    {
        let d = &devs[i];
        assert(d.size_kb * 1024 <= u64::MAX);
        let ghost before = disks_view(out@);
        let di = DiskInfo {
            name: d.name.clone(),
            size_bytes: d.size_kb * 1024,
            size_mb: d.size_kb / 1024,
            sectors: d.blocks,
            has_partitions: false,
        };
        out.push(di);
        assert(disks_view(out@) =~= before.push(di@));
        i = i + 1;
        assert(devs@.subrange(0, i as int).map_values(|d: BlockDevice| disk_of(d.name@, d.size_kb, d.blocks))
            =~= before.push(di@));
    }
    assert(devs@.subrange(0, devs@.len() as int) =~= devs@);
    out
}

/// The default layout of a disk of `mb` MiB: a 32 MiB EFI System
/// partition and a 16 MiB swap partition from sector 2048, then the root
/// partition up to the backup GPT (the last 34 sectors).
pub open spec fn default_layout(mb: u64) -> Result<Seq<PartModel>, Seq<char>> {
    let total = mb * 2048;
    let end_usable = if total >= 34 { total - 34 } else { 0 };
    if mb < MIN_DISK_SIZE_MB {
        Err("disk too small for installation"@)
    } else if 100352 >= end_usable {
        Err("not enough space for root partition"@)
    } else {
        Ok(seq![
            PartModel { number: 1, ptype: PartitionType::EfiSystem, size_mb: 32, start_lba: 2048, end_lba: 67583, fs: FsType::Fat16, label: "EFI"@ },
            PartModel { number: 2, ptype: PartitionType::Swap, size_mb: 16, start_lba: 67584, end_lba: 100351, fs: FsType::Swap, label: "swap"@ },
            PartModel {
                number: 3,
                ptype: PartitionType::LinuxRoot,
                size_mb: ((end_usable - 100352) * 512 / 1048576) as u64,
                start_lba: 100352,
                end_lba: (end_usable - 1) as u64,
                fs: FsType::Ext4,
                label: "merlion-root"@,
            },
        ])
    }
}

/// The default partition layout of a disk of the given size.
pub fn default_partition_layout(disk_size_mb: u64) -> (r: Result<Vec<PartitionDef>, &'static str>)
    requires
        disk_size_mb * 1048576 <= u64::MAX,
    ensures
        match default_layout(disk_size_mb) {
            Ok(ps) => r matches Ok(v) && parts_view(v@) == ps,
            Err(e) => r matches Err(m) && m@ == e,
        },
{
    if disk_size_mb < MIN_DISK_SIZE_MB {
        return Err("disk too small for installation");
    }
    let mut parts: Vec<PartitionDef> = Vec::new();
    let mut current_lba: u64 = 2048;
    let esp_sectors: u64 = DEFAULT_ESP_SIZE_MB * 1024 * 1024 / SECTOR_SIZE;
    let p1 = PartitionDef {
        number: 1,
        ptype: PartitionType::EfiSystem,
        size_mb: DEFAULT_ESP_SIZE_MB,
        start_lba: current_lba,
        end_lba: current_lba + esp_sectors - 1,
        fs: FsType::Fat16,
        label: string_of("EFI"),
    };
    parts.push(p1);
    current_lba = current_lba + esp_sectors;
    let swap_sectors: u64 = DEFAULT_SWAP_SIZE_MB * 1024 * 1024 / SECTOR_SIZE;
    let p2 = PartitionDef {
        number: 2,
        ptype: PartitionType::Swap,
        size_mb: DEFAULT_SWAP_SIZE_MB,
        start_lba: current_lba,
        end_lba: current_lba + swap_sectors - 1,
        fs: FsType::Swap,
        label: string_of("swap"),
    };
    parts.push(p2);
    current_lba = current_lba + swap_sectors;
    let total_sectors = disk_size_mb * 1024 * 1024 / SECTOR_SIZE;
    assert(total_sectors == disk_size_mb * 2048);
    let end_usable = total_sectors.saturating_sub(34);
    if current_lba >= end_usable {
        return Err("not enough space for root partition");
    }
    assert((end_usable - current_lba) * 512 <= u64::MAX);
    let root_mb = (end_usable - current_lba) * SECTOR_SIZE / (1024 * 1024);
    let p3 = PartitionDef {
        number: 3,
        ptype: PartitionType::LinuxRoot,
        size_mb: root_mb,
        start_lba: current_lba,
        end_lba: end_usable - 1,
        fs: FsType::Ext4,
        label: string_of("merlion-root"),
    };
    parts.push(p3);
    assert(parts_view(parts@) =~= seq![p1@, p2@, p3@]);
    Ok(parts)
}

/// Whether `a` and `b` agree on everything but the log, the partitions
/// and the names.
pub open spec fn same_settings(a: InstallerState, b: InstallerState) -> bool {
    &&& a.phase == b.phase
    &&& a.disks@ == b.disks@
    &&& a.selected_disk == b.selected_disk
    &&& a.net_mode == b.net_mode
    &&& a.static_net == b.static_net
    &&& a.selected_groups@ == b.selected_groups@
    &&& a.files_copied == b.files_copied
    &&& a.bytes_written == b.bytes_written
    &&& a.initialized == b.initialized
}

/// Whether `a` and `b` agree on everything but the log.
pub open spec fn same_but_log(a: InstallerState, b: InstallerState) -> bool {
    &&& same_settings(a, b)
    &&& a.partitions@ == b.partitions@
    &&& a.hostname@ == b.hostname@
    &&& a.username@ == b.username@
    &&& a.timezone@ == b.timezone@
}

/// Whether `[s, s + n)` and `[p.start_lba, p.end_lba]` share a sector.
pub open spec fn overlaps(start: u64, end: u64, p: PartModel) -> bool {
    start <= p.end_lba && end >= p.start_lba
}

/// The log message of a new partition.
pub open spec fn created_text(number: u32, size_mb: u64, ptype: PartitionType) -> Seq<char> {
    "created partition "@ + dec(number as nat) + " ("@ + dec(size_mb as nat) + " MiB, "@ + part_type_text(ptype) + ")"@
}

/// Define a partition on the selected disk. Its last sector is
/// `start_lba + size_mb * 2048 - 1`; it must not share a sector with an
/// existing partition, and at most `MAX_PARTITIONS` are kept.
pub fn partition_disk(
    st: &mut InstallerState,
    number: u32,
    ptype: PartitionType,
    size_mb: u64,
    start_lba: u64,
    fs: FsType,
    label: &str,
    now: u64,
) -> (r: Result<(), &'static str>)
    requires
        old(st).wf(),
        size_mb * 1048576 <= u64::MAX,
        1 <= start_lba + size_mb * 2048 <= u64::MAX + 1,
    ensures
        final(st).wf(),
        same_settings(*final(st), *old(st)),
        final(st).hostname@ == old(st).hostname@,
        final(st).username@ == old(st).username@,
        final(st).timezone@ == old(st).timezone@,
        ({
            let end = (start_lba + size_mb * 2048 - 1) as u64;
            let ps = old(st).parts();
            if ps.len() >= MAX_PARTITIONS {
                r matches Err(e) && e@ == "maximum partition count reached"@ && *final(st) == *old(st)
            } else if exists|i: int| 0 <= i < ps.len() && #[trigger] overlaps(start_lba, end, ps[i]) {
                r matches Err(e) && e@ == "partition overlaps with existing partition"@ && *final(st) == *old(st)
            } else {
                &&& r is Ok
                &&& final(st).parts() == ps.push(PartModel { number, ptype, size_mb, start_lba, end_lba: end, fs, label: label@ })
                &&& final(st).log_view() == logged(old(st).log_view(),
                        LogModel { tick: now, level: 'I', message: created_text(number, size_mb, ptype) })
            }
        }),
{
    if st.partitions.len() >= MAX_PARTITIONS {
        return Err("maximum partition count reached");
    }
    let sectors = size_mb * 1024 * 1024 / SECTOR_SIZE;
    assert(sectors == size_mb * 2048);
    let end_lba = if sectors > 0 { start_lba + (sectors - 1) } else { start_lba - 1 };
    let n = st.partitions.len();
    let mut i: usize = 0;
    while i < n
        invariant
            *st == *old(st),
            old(st).wf(),
            n < MAX_PARTITIONS,
            end_lba == start_lba + size_mb * 2048 - 1,
            n == st.partitions@.len(),
            n == st.parts().len(),
            i <= n,
            forall|k: int| 0 <= k < i ==> !overlaps(start_lba, end_lba, #[trigger] st.parts()[k]),
        decreases n - i,
    {
        let e = &st.partitions[i];
        assert(st.parts()[i as int] == e@);
        if start_lba <= e.end_lba && end_lba >= e.start_lba {
            assert(overlaps(start_lba, end_lba, st.parts()[i as int]));
            return Err("partition overlaps with existing partition");
        }
        i = i + 1;
    }
    let ghost p0 = st.parts();
    let p = PartitionDef { number, ptype, size_mb, start_lba, end_lba, fs, label: string_of(label) };
    st.partitions.push(p);
    assert(st.parts() =~= p0.push(p@));
    let mut msg = string_of("created partition ");
    push_dec(&mut msg, number as u64);
    msg.append(" (");
    push_dec(&mut msg, size_mb);
    msg.append(" MiB, ");
    msg.append(part_type_name(ptype));
    msg.append(")");
    assert(msg@ =~= created_text(number, size_mb, ptype));
    log_entry(st, 'I', msg, now);
    Ok(())
}

/// Index of the first partition from `j` on numbered `n` (the length when none).
pub open spec fn part_index(ps: Seq<PartModel>, n: u32, j: int) -> int
    decreases ps.len() - j,
{
    if j < 0 || j >= ps.len() {
        ps.len() as int
    } else if ps[j].number == n {
        j
    } else {
        part_index(ps, n, j + 1)
    }
}

fn find_part(st: &InstallerState, n: u32) -> (r: usize)
    ensures
        r == part_index(st.parts(), n, 0),
        r <= st.partitions@.len(),
{
    let len = st.partitions.len();
    let mut i: usize = 0;
    while i < len
        invariant
            len == st.partitions@.len(),
            len == st.parts().len(),
            i <= len,
            part_index(st.parts(), n, 0) == part_index(st.parts(), n, i as int),
        decreases len - i,
    {
        assert(st.parts()[i as int].number == st.partitions@[i as int].number);
        if st.partitions[i].number == n {
            return i;
        }
        i = i + 1;
    }
    len
}

/// The log message of formatting a partition.
pub open spec fn formatting_text(p: PartModel) -> Seq<char> {
    "formatting partition "@ + dec(p.number as nat) + " as "@ + fs_name_text(p.fs) + " (label="@ + p.label + ", "@
        + dec(p.size_mb as nat) + " MiB)"@
}

fn formatting_message(p: &PartitionDef) -> (m: String)
    ensures
        m@ == formatting_text(p@),
{
    let mut msg = string_of("formatting partition ");
    push_dec(&mut msg, p.number as u64);
    msg.append(" as ");
    msg.append(fs_type_name(p.fs));
    msg.append(" (label=");
    msg.append(p.label.as_str());
    msg.append(", ");
    push_dec(&mut msg, p.size_mb);
    msg.append(" MiB)");
    assert(msg@ =~= formatting_text(p@));
    msg
}

/// Format a partition (the simulated installer logs it).
pub fn format_partition(st: &mut InstallerState, part_number: u32, now: u64) -> (r: Result<(), &'static str>)
    requires
        old(st).wf(),
    ensures
        final(st).wf(),
        same_but_log(*final(st), *old(st)),
        ({
            let ps = old(st).parts();
            let i = part_index(ps, part_number, 0);
            if i < ps.len() {
                r is Ok && final(st).log_view() == logged(old(st).log_view(),
                    LogModel { tick: now, level: 'I', message: formatting_text(ps[i]) })
            } else {
                r matches Err(e) && e@ == "partition not found"@ && final(st).log@ == old(st).log@
            }
        }),
{
    let i = find_part(st, part_number);
    if i >= st.partitions.len() {
        return Err("partition not found");
    }
    assert(st.parts()[i as int] == st.partitions@[i as int]@);
    let msg = formatting_message(&st.partitions[i]);
    log_entry(st, 'I', msg, now);
    Ok(())
}

/// Set the hostname of the installed system (1 to 64 bytes of UTF-8).
pub fn set_hostname(st: &mut InstallerState, name: &str, now: u64) -> (r: Result<(), &'static str>)
    requires
        old(st).wf(),
    ensures
        final(st).wf(),
        same_settings(*final(st), *old(st)),
        final(st).partitions@ == old(st).partitions@,
        final(st).username@ == old(st).username@,
        final(st).timezone@ == old(st).timezone@,
        if name@.len() == 0 || name.len() > 64 {
            r matches Err(e) && e@ == "hostname must be 1-64 characters"@ && *final(st) == *old(st)
        } else {
            &&& r is Ok
            &&& final(st).hostname@ == name@
            &&& final(st).log_view() == logged(old(st).log_view(),
                    LogModel { tick: now, level: 'I', message: "hostname set to '"@ + name@ + "'"@ })
        },
{
    if name.unicode_len() == 0 || name.len() > 64 {
        return Err("hostname must be 1-64 characters");
    }
    st.hostname = string_of(name);
    let mut msg = string_of("hostname set to '");
    msg.append(name);
    msg.append("'");
    log_entry(st, 'I', msg, now);
    Ok(())
}

/// Whether a character is allowed in a user name.
pub open spec fn user_char(c: char) -> bool {
    ('a' <= c <= 'z') || ('A' <= c <= 'Z') || ('0' <= c <= '9') || c == '_'
}

/// Set the initial user account (1 to 32 bytes of letters, digits or `_`).
pub fn set_user(st: &mut InstallerState, username: &str, now: u64) -> (r: Result<(), &'static str>)
    requires
        old(st).wf(),
    ensures
        final(st).wf(),
        same_settings(*final(st), *old(st)),
        final(st).partitions@ == old(st).partitions@,
        final(st).hostname@ == old(st).hostname@,
        final(st).timezone@ == old(st).timezone@,
        if username@.len() == 0 || username.len() > 32 {
            r matches Err(e) && e@ == "username must be 1-32 characters"@ && *final(st) == *old(st)
        } else if !(forall|i: int| 0 <= i < username@.len() ==> #[trigger] user_char(username@[i])) {
            r matches Err(e) && e@ == "username must be alphanumeric or underscore"@ && *final(st) == *old(st)
        } else {
            &&& r is Ok
            &&& final(st).username@ == username@
            &&& final(st).log_view() == logged(old(st).log_view(),
                    LogModel { tick: now, level: 'I', message: "user '"@ + username@ + "' will be created"@ })
        },
{
    let n = username.unicode_len();
    if n == 0 || username.len() > 32 {
        return Err("username must be 1-32 characters");
    }
    let mut i: usize = 0;
    while i < n
        invariant
            *st == *old(st),
            old(st).wf(),
            !(username@.len() == 0 || username.len() > 32),
            n == username@.len(),
            i <= n,
            forall|k: int| 0 <= k < i ==> #[trigger] user_char(username@[k]),
        decreases n - i,
    {
        let c = username.get_char(i);
        if !(('a' <= c && c <= 'z') || ('A' <= c && c <= 'Z') || ('0' <= c && c <= '9') || c == '_') {
            assert(!user_char(username@[i as int]));
            return Err("username must be alphanumeric or underscore");
        }
        i = i + 1;
    }
    st.username = string_of(username);
    let mut msg = string_of("user '");
    msg.append(username);
    msg.append("' will be created");
    log_entry(st, 'I', msg, now);
    Ok(())
}

/// Set the timezone (not empty).
pub fn set_timezone(st: &mut InstallerState, tz: &str, now: u64) -> (r: Result<(), &'static str>)
    requires
        old(st).wf(),
    ensures
        final(st).wf(),
        same_settings(*final(st), *old(st)),
        final(st).partitions@ == old(st).partitions@,
        final(st).hostname@ == old(st).hostname@,
        final(st).username@ == old(st).username@,
        if tz@.len() == 0 {
            r matches Err(e) && e@ == "timezone cannot be empty"@ && *final(st) == *old(st)
        } else {
            &&& r is Ok
            &&& final(st).timezone@ == tz@
            &&& final(st).log_view() == logged(old(st).log_view(),
                    LogModel { tick: now, level: 'I', message: "timezone set to '"@ + tz@ + "'"@ })
        },
{
    if tz.unicode_len() == 0 {
        return Err("timezone cannot be empty");
    }
    st.timezone = string_of(tz);
    let mut msg = string_of("timezone set to '");
    msg.append(tz);
    msg.append("'");
    log_entry(st, 'I', msg, now);
    Ok(())
}

/// The name of a network mode in the log.
pub open spec fn net_mode_text(m: NetMode) -> Seq<char> {
    match m {
        NetMode::Dhcp => "DHCP"@,
        NetMode::Static => "static"@,
        NetMode::Offline => "none"@,
    }
}

fn net_mode_name(m: NetMode) -> (r: &'static str)
    ensures
        r@ == net_mode_text(m),
{
    match m {
        NetMode::Dhcp => "DHCP",
        NetMode::Static => "static",
        NetMode::Offline => "none",
    }
}

/// Set the network mode for first boot.
pub fn set_network(st: &mut InstallerState, mode: NetMode, static_cfg: Option<StaticNetConfig>, now: u64)
    requires
        old(st).wf(),
    ensures
        final(st).wf(),
        final(st).net_mode == mode,
        final(st).static_net == static_cfg,
        final(st).phase == old(st).phase,
        final(st).disks@ == old(st).disks@,
        final(st).selected_disk == old(st).selected_disk,
        final(st).partitions@ == old(st).partitions@,
        final(st).hostname@ == old(st).hostname@,
        final(st).username@ == old(st).username@,
        final(st).timezone@ == old(st).timezone@,
        final(st).selected_groups@ == old(st).selected_groups@,
        final(st).files_copied == old(st).files_copied,
        final(st).bytes_written == old(st).bytes_written,
        final(st).initialized == old(st).initialized,
        final(st).log_view() == logged(old(st).log_view(),
            LogModel { tick: now, level: 'I', message: "network configured as "@ + net_mode_text(mode) }),
{
    st.net_mode = mode;
    st.static_net = static_cfg;
    let mut msg = string_of("network configured as ");
    msg.append(net_mode_name(mode));
    log_entry(st, 'I', msg, now);
}

/// Group names as a debug-printed list: `["core", "network"]`.
pub open spec fn names_list(gs: Seq<ModuleGroup>) -> Seq<char> {
    "["@ + quoted_names(gs) + "]"@
}

/// Quoted group names separated by `, `.
pub open spec fn quoted_names(gs: Seq<ModuleGroup>) -> Seq<char>
    decreases gs.len(),
{
    if gs.len() == 0 {
        Seq::empty()
    } else if gs.len() == 1 {
        "\""@ + group_name_text(gs[0]) + "\""@
    } else {
        quoted_names(gs.drop_last()) + ", \""@ + group_name_text(gs.last()) + "\""@
    }
}

fn names_message(prefix: &str, gs: &Vec<ModuleGroup>) -> (m: String)
    ensures
        m@ == prefix@ + names_list(gs@),
{
    let mut out = string_of(prefix);
    out.append("[");
    let ghost head = out@;
    let n = gs.len();
    let mut i: usize = 0;
    while i < n
        invariant
            n == gs@.len(),
            i <= n,
            out@ == head + quoted_names(gs@.subrange(0, i as int)),
        decreases n - i,
    {
        let ghost pre = gs@.subrange(0, i + 1);
        assert(pre.drop_last() =~= gs@.subrange(0, i as int));
        if i > 0 {
            out.append(", \"");
        } else {
            out.append("\"");
        }
        out.append(group_name(gs[i]));
        out.append("\"");
        i = i + 1;
        assert(out@ =~= head + quoted_names(pre));
    }
    assert(gs@.subrange(0, n as int) =~= gs@);
    out.append("]");
    assert(out@ =~= prefix@ + names_list(gs@));
    out
}

/// Choose the module groups to install.
pub fn select_packages(st: &mut InstallerState, groups: Vec<ModuleGroup>, now: u64)
    requires
        old(st).wf(),
    ensures
        final(st).wf(),
        final(st).selected_groups@ == groups@,
        final(st).phase == old(st).phase,
        final(st).disks@ == old(st).disks@,
        final(st).selected_disk == old(st).selected_disk,
        final(st).partitions@ == old(st).partitions@,
        final(st).hostname@ == old(st).hostname@,
        final(st).username@ == old(st).username@,
        final(st).timezone@ == old(st).timezone@,
        final(st).net_mode == old(st).net_mode,
        final(st).static_net == old(st).static_net,
        final(st).files_copied == old(st).files_copied,
        final(st).bytes_written == old(st).bytes_written,
        final(st).initialized == old(st).initialized,
        final(st).log_view() == logged(old(st).log_view(),
            LogModel { tick: now, level: 'I', message: "selected groups: "@ + names_list(groups@) }),
{
    let msg = names_message("selected groups: ", &groups);
    log_entry(st, 'I', msg, now);
    st.selected_groups = groups;
}

/// The module groups with their names and descriptions.
pub open spec fn group_catalogue() -> Seq<(ModuleGroup, Seq<char>, Seq<char>)> {
    seq![
        (ModuleGroup::Core, "core"@, "Essential kernel, shell, VFS, process management"@),
        (ModuleGroup::Network, "network"@, "TCP/IP, DHCP, DNS, HTTP, SSH"@),
        (ModuleGroup::Ai, "ai"@, "AI shell, agents, self-healing, inference"@),
        (ModuleGroup::Development, "development"@, "Editor, debugger, profiler, build tools"@),
        (ModuleGroup::Games, "games"@, "Snake, Tetris, Forth, fortune"@),
    ]
}

/// The module groups with their names and descriptions.
pub fn available_groups() -> (r: Vec<(ModuleGroup, &'static str, &'static str)>)
    ensures
        r@.map_values(|t: (ModuleGroup, &'static str, &'static str)| (t.0, t.1@, t.2@)) == group_catalogue(),
{
    let mut v: Vec<(ModuleGroup, &'static str, &'static str)> = Vec::new();
    v.push((ModuleGroup::Core, "core", "Essential kernel, shell, VFS, process management"));
    v.push((ModuleGroup::Network, "network", "TCP/IP, DHCP, DNS, HTTP, SSH"));
    v.push((ModuleGroup::Ai, "ai", "AI shell, agents, self-healing, inference"));
    v.push((ModuleGroup::Development, "development", "Editor, debugger, profiler, build tools"));
    v.push((ModuleGroup::Games, "games", "Snake, Tetris, Forth, fortune"));
    assert(v@.map_values(|t: (ModuleGroup, &'static str, &'static str)| (t.0, t.1@, t.2@)) =~= group_catalogue());
    v
}

// ---------------------------------------------------------------------------
// Installation
// ---------------------------------------------------------------------------

/// Messages (level, text) as plain values.
pub open spec fn msgs_view(v: Seq<(char, String)>) -> Seq<(char, Seq<char>)> {
    v.map_values(|m: (char, String)| (m.0, m.1@))
}

/// The log after the messages, in order, at tick `now`.
pub open spec fn log_all(log: Seq<LogModel>, msgs: Seq<(char, Seq<char>)>, now: u64) -> Seq<LogModel>
    decreases msgs.len(),
{
    if msgs.len() == 0 {
        log
    } else {
        logged(log_all(log, msgs.drop_last(), now), LogModel { tick: now, level: msgs.last().0, message: msgs.last().1 })
    }
}

fn log_msgs(st: &mut InstallerState, msgs: &Vec<(char, String)>, now: u64)
    requires
        old(st).wf(),
    ensures
        final(st).wf(),
        final(st).log_view() == log_all(old(st).log_view(), msgs_view(msgs@), now),
        same_but_log(*final(st), *old(st)),
{
    let mut i: usize = 0;
    while i < msgs.len()
        invariant
            st.wf(),
            i <= msgs@.len(),
            same_but_log(*st, *old(st)),
            st.log_view() == log_all(old(st).log_view(), msgs_view(msgs@).subrange(0, i as int), now),
        decreases msgs@.len() - i,
    {
        let ghost pre = msgs_view(msgs@).subrange(0, i + 1);
        assert(pre.drop_last() =~= msgs_view(msgs@).subrange(0, i as int));
        let level = msgs[i].0;
        let text = msgs[i].1.clone();
        log_entry(st, level, text, now);
        i = i + 1;
    }
    assert(msgs_view(msgs@).subrange(0, msgs@.len() as int) =~= msgs_view(msgs@));
}

fn push_msg(msgs: &mut Vec<(char, String)>, level: char, text: String)
    ensures
        msgs_view(final(msgs)@) == msgs_view(old(msgs)@).push((level, text@)),
{
    msgs.push((level, text));
    assert(msgs_view(msgs@) =~= msgs_view(old(msgs)@).push((level, text@)));
}

/// The simulated system files and their sizes.
pub open spec fn system_files() -> Seq<(Seq<char>, u64)> {
    seq![
        ("/boot/merlion.bin"@, 262144u64),
        ("/boot/limine.cfg"@, 1024u64),
        ("/boot/limine.sys"@, 32768u64),
        ("/etc/hostname"@, 64u64),
        ("/etc/fstab"@, 256u64),
        ("/etc/profile"@, 512u64),
        ("/etc/motd"@, 256u64),
        ("/etc/passwd"@, 128u64),
        ("/etc/shadow"@, 128u64),
        ("/etc/group"@, 128u64),
        ("/etc/modules.conf"@, 256u64),
        ("/etc/network/interfaces"@, 256u64),
    ]
}

fn system_file_list() -> (v: Vec<(&'static str, u64)>)
    ensures
        v@.map_values(|f: (&'static str, u64)| (f.0@, f.1)) == system_files(),
{
    let mut v: Vec<(&'static str, u64)> = Vec::new();
    v.push(("/boot/merlion.bin", 262144));
    v.push(("/boot/limine.cfg", 1024));
    v.push(("/boot/limine.sys", 32768));
    v.push(("/etc/hostname", 64));
    v.push(("/etc/fstab", 256));
    v.push(("/etc/profile", 512));
    v.push(("/etc/motd", 256));
    v.push(("/etc/passwd", 128));
    v.push(("/etc/shadow", 128));
    v.push(("/etc/group", 128));
    v.push(("/etc/modules.conf", 256));
    v.push(("/etc/network/interfaces", 256));
    assert(v@.map_values(|f: (&'static str, u64)| (f.0@, f.1)) =~= system_files());
    v
}

/// The copy messages of the files.
pub open spec fn copy_msgs(fs: Seq<(Seq<char>, u64)>) -> Seq<(char, Seq<char>)> {
    fs.map_values(|f: (Seq<char>, u64)| ('I', "copied "@ + f.0 + " ("@ + dec(f.1 as nat) + " bytes)"@))
}

/// The total size of the files.
pub open spec fn files_total(fs: Seq<(Seq<char>, u64)>) -> nat
    decreases fs.len(),
{
    if fs.len() == 0 { 0 } else { files_total(fs.drop_last()) + fs.last().1 as nat }
}

/// The bootloader configuration for a hostname.
pub open spec fn boot_config_text(h: Seq<char>) -> Seq<char> {
    "TIMEOUT=3\n:MerlionOS on "@ + h + "\nPROTOCOL=limine\nKERNEL_PATH=boot:///boot/merlion.bin\nKERNEL_CMDLINE=console=ttyS0 hostname="@ + h + "\n"@
}

/// The bootloader configuration for a hostname.
pub fn generate_boot_config(hostname: &str) -> (r: String)
    ensures
        r@ == boot_config_text(hostname@),
{
    let mut out = string_of("TIMEOUT=3\n:MerlionOS on ");
    out.append(hostname);
    out.append("\nPROTOCOL=limine\nKERNEL_PATH=boot:///boot/merlion.bin\nKERNEL_CMDLINE=console=ttyS0 hostname=");
    out.append(hostname);
    out.append("\n");
    out
}

/// The hostname the bootloader is set up with.
pub open spec fn boot_hostname(h: Seq<char>) -> Seq<char> {
    if h.len() == 0 { "merlion"@ } else { h }
}

/// The two bootloader messages.
pub open spec fn bootloader_msgs(h: Seq<char>) -> Seq<(char, Seq<char>)> {
    let cfg = boot_config_text(boot_hostname(h));
    seq![
        ('I', "bootloader config ("@ + dec((vstd::utf8::encode_utf8(cfg).len() as usize) as nat) + " bytes):\n"@ + cfg),
        ('I', "bootloader installed to EFI System Partition"@),
    ]
}

fn push_bootloader_msgs(msgs: &mut Vec<(char, String)>, hostname: &String)
    ensures
        msgs_view(final(msgs)@) == msgs_view(old(msgs)@) + bootloader_msgs(hostname@),
{
    let h: &str = if hostname.unicode_len() == 0 { "merlion" } else { hostname.as_str() };
    let config = generate_boot_config(h);
    let len = config.as_str().len();
    let mut m = string_of("bootloader config (");
    push_dec(&mut m, len as u64);
    m.append(" bytes):\n");
    m.append(config.as_str());
    push_msg(msgs, 'I', m);
    push_msg(msgs, 'I', string_of("bootloader installed to EFI System Partition"));
    assert(msgs_view(msgs@) =~= msgs_view(old(msgs)@) + bootloader_msgs(hostname@));
}

/// The formatting messages of the partitions (each looked up by number).
pub open spec fn format_msgs(ps: Seq<PartModel>) -> Seq<(char, Seq<char>)> {
    Seq::new(ps.len(), |i: int| ('I', formatting_text(ps[part_index(ps, ps[i].number, 0)])))
}

proof fn lemma_part_index_found(ps: Seq<PartModel>, n: u32, j: int, x: int)
    requires
        0 <= j <= x < ps.len(),
        ps[x].number == n,
    ensures
        part_index(ps, n, j) <= x,
    decreases x - j,
{
    if ps[j].number != n {
        lemma_part_index_found(ps, n, j + 1, x);
    }
}

proof fn lemma_part_index(ps: Seq<PartModel>, n: u32, j: int)
    requires
        0 <= j <= ps.len(),
    ensures
        j <= part_index(ps, n, j) <= ps.len(),
        part_index(ps, n, j) < ps.len() ==> ps[part_index(ps, n, j)].number == n,
    decreases ps.len() - j,
{
    if j < ps.len() && ps[j].number != n {
        lemma_part_index(ps, n, j + 1);
    }
}

fn push_format_msgs(msgs: &mut Vec<(char, String)>, st: &InstallerState)
    ensures
        msgs_view(final(msgs)@) == msgs_view(old(msgs)@) + format_msgs(st.parts()),
{
    let n = st.partitions.len();
    let ghost ps = st.parts();
    let mut i: usize = 0;
    while i < n
        invariant
            n == st.partitions@.len(),
            ps == st.parts(),
            n == ps.len(),
            i <= n,
            msgs_view(msgs@) == msgs_view(old(msgs)@) + format_msgs(ps).subrange(0, i as int),
        decreases n - i,
    {
        assert(ps[i as int].number == st.partitions@[i as int].number);
        let k = find_part(st, st.partitions[i].number);
        proof {
            lemma_part_index(ps, st.partitions@[i as int].number, 0);
            lemma_part_index_found(ps, st.partitions@[i as int].number, 0, i as int);
        }
        assert(ps[k as int] == st.partitions@[k as int]@);
        let m = formatting_message(&st.partitions[k]);
        let ghost before = msgs_view(msgs@);
        push_msg(msgs, 'I', m);
        i = i + 1;
        assert(format_msgs(ps).subrange(0, i as int) =~= format_msgs(ps).subrange(0, i - 1).push(('I', m@)));
    }
    assert(format_msgs(ps).subrange(0, n as int) =~= format_msgs(ps));
}

/// The groups installed by default.
pub open spec fn default_groups() -> Seq<ModuleGroup> {
    seq![ModuleGroup::Core, ModuleGroup::Network]
}

/// `s`, or `d` when `s` is empty.
pub open spec fn or_default(s: Seq<char>, d: Seq<char>) -> Seq<char> {
    if s.len() == 0 { d } else { s }
}

/// The messages from the partition count to the end of a successful
/// installation, for the state `st` once its disk was chosen.
pub open spec fn success_msgs(st: InstallerState, ps: Seq<PartModel>) -> Seq<(char, Seq<char>)> {
    let files = (st.files_copied + 12) % 4294967296;
    let bytes = (st.bytes_written + files_total(system_files())) % 18446744073709551616;
    let groups = if st.selected_groups@.len() == 0 { default_groups() } else { st.selected_groups@ };
    seq![('I', "created "@ + dec(ps.len()) + " partitions"@)]
        + format_msgs(ps)
        + copy_msgs(system_files())
        + seq![('I', "file copy complete: "@ + dec(files as nat) + " files, "@ + dec(bytes as nat) + " bytes"@)]
        + bootloader_msgs(st.hostname@)
        + seq![('I', "user='"@ + or_default(st.username@, "admin"@) + "', hostname='"@ + or_default(st.hostname@, "merlion"@)
            + "', tz='"@ + or_default(st.timezone@, "Asia/Singapore"@) + "'"@)]
        + seq![('I', "network mode: "@ + net_mode_text(st.net_mode))]
        + seq![('I', "installing groups: "@ + names_list(groups))]
        + seq![('I', "=== Installation complete ==="@), ('I', "Please reboot to start MerlionOS."@)]
}

/// The first two installation messages.
pub open spec fn welcome_msgs() -> Seq<(char, Seq<char>)> {
    seq![('I', "=== MerlionOS Installer ==="@), ('I', "Welcome to MerlionOS installation"@)]
}

fn copy_system_files(st: &mut InstallerState, msgs: &mut Vec<(char, String)>)
    requires
        old(st).wf(),
    ensures
        final(st).wf(),
        final(st).files_copied == (old(st).files_copied + 12) % 4294967296,
        final(st).bytes_written == (old(st).bytes_written + files_total(system_files())) % 18446744073709551616,
        msgs_view(final(msgs)@) == msgs_view(old(msgs)@) + copy_msgs(system_files()),
        final(st).phase == old(st).phase,
        final(st).disks@ == old(st).disks@,
        final(st).selected_disk == old(st).selected_disk,
        final(st).partitions@ == old(st).partitions@,
        final(st).hostname@ == old(st).hostname@,
        final(st).username@ == old(st).username@,
        final(st).timezone@ == old(st).timezone@,
        final(st).net_mode == old(st).net_mode,
        final(st).static_net == old(st).static_net,
        final(st).selected_groups@ == old(st).selected_groups@,
        final(st).initialized == old(st).initialized,
        final(st).log@ == old(st).log@,
{
    let files = system_file_list();
    let ghost fs = system_files();
    let n = files.len();
    let mut copied: u32 = st.files_copied;
    let mut written: u64 = st.bytes_written;
    let mut i: usize = 0;
    while i < n
        invariant
            n == files@.len(),
            fs == files@.map_values(|f: (&'static str, u64)| (f.0@, f.1)),
            n == fs.len(),
            i <= n,
            copied == (old(st).files_copied + i) % 4294967296,
            written == (old(st).bytes_written + files_total(fs.subrange(0, i as int))) % 18446744073709551616,
            msgs_view(msgs@) == msgs_view(old(msgs)@) + copy_msgs(fs).subrange(0, i as int),
        decreases n - i,
    {
        let ghost pre = fs.subrange(0, i + 1);
        assert(pre.drop_last() =~= fs.subrange(0, i as int));
        let (path, size) = files[i];
        assert(fs[i as int] == (path@, size));
        copied = copied.wrapping_add(1);
        written = written.wrapping_add(size);
        let mut m = string_of("copied ");
        m.append(path);
        m.append(" (");
        push_dec(&mut m, size);
        m.append(" bytes)");
        push_msg(msgs, 'I', m);
        i = i + 1;
        assert(copy_msgs(fs).subrange(0, i as int) =~= copy_msgs(fs).subrange(0, i - 1).push(('I', m@)));
    }
    assert(fs.subrange(0, n as int) =~= fs);
    assert(copy_msgs(fs).subrange(0, n as int) =~= copy_msgs(fs));
    st.files_copied = copied;
    st.bytes_written = written;
}

/// Whether `a` and `b` agree on the settings made before an installation.
pub open spec fn same_choices(a: InstallerState, b: InstallerState) -> bool {
    &&& a.net_mode == b.net_mode
    &&& a.static_net == b.static_net
    &&& a.initialized == b.initialized
}

/// Run the whole installation: detect the disks (the first one is used),
/// lay out and format its partitions, copy the system files, set up the
/// bootloader, fill in the default user, hostname, timezone and module
/// groups where none were chosen, and log every step at tick `now`. Only
/// an idle installer starts; a failure leaves it in `Failed`.
#[verifier::spinoff_prover]
#[verifier::rlimit(80)]
pub fn start_install(st: &mut InstallerState, devs: &Vec<BlockDevice>, now: u64) -> (r: Result<(), &'static str>)
    requires
        old(st).wf(),
        old(st).phase == InstallPhase::Idle ==> sizes_fit(devs@),
    ensures
        final(st).wf(),
        old(st).phase != InstallPhase::Idle ==> (r matches Err(e) && e@ == "installation already in progress"@ && *final(st) == *old(st)),
        old(st).phase == InstallPhase::Idle && devs@.len() == 0 ==> ({
            &&& r matches Err(e) && e@ == "no block devices found"@
            &&& final(st).phase == InstallPhase::Failed
            &&& final(st).log_view() == log_all(old(st).log_view(), welcome_msgs() + seq![('E', "no block devices found"@)], now)
            &&& final(st).disks@ == old(st).disks@ && final(st).selected_disk == old(st).selected_disk
            &&& final(st).partitions@ == old(st).partitions@
            &&& final(st).hostname@ == old(st).hostname@ && final(st).username@ == old(st).username@ && final(st).timezone@ == old(st).timezone@
            &&& final(st).selected_groups@ == old(st).selected_groups@
            &&& final(st).files_copied == old(st).files_copied && final(st).bytes_written == old(st).bytes_written
            &&& same_choices(*final(st), *old(st))
        }),
        old(st).phase == InstallPhase::Idle && devs@.len() > 0 ==> ({
            let head = welcome_msgs() + seq![('I', "found "@ + dec(devs@.len()) + " disk(s)"@)];
            &&& disks_view(final(st).disks@) == devs@.map_values(|d: BlockDevice| disk_of(d.name@, d.size_kb, d.blocks))
            &&& final(st).selected_disk == Some(0usize)
            &&& same_choices(*final(st), *old(st))
            &&& match default_layout(devs@[0].size_kb / 1024) {
                Err(e) => {
                    &&& r matches Err(m) && m@ == e
                    &&& final(st).phase == InstallPhase::Failed
                    &&& final(st).log_view() == log_all(old(st).log_view(), head + seq![('E', "partitioning failed: "@ + e)], now)
                    &&& final(st).partitions@ == old(st).partitions@
                    &&& final(st).hostname@ == old(st).hostname@ && final(st).username@ == old(st).username@
                    &&& final(st).timezone@ == old(st).timezone@
                    &&& final(st).selected_groups@ == old(st).selected_groups@
                    &&& final(st).files_copied == old(st).files_copied && final(st).bytes_written == old(st).bytes_written
                },
                Ok(ps) => {
                    &&& r is Ok
                    &&& final(st).phase == InstallPhase::Done
                    &&& final(st).parts() == ps
                    &&& final(st).log_view() == log_all(old(st).log_view(), head + success_msgs(*old(st), ps), now)
                    &&& final(st).hostname@ == or_default(old(st).hostname@, "merlion"@)
                    &&& final(st).username@ == or_default(old(st).username@, "admin"@)
                    &&& final(st).timezone@ == or_default(old(st).timezone@, "Asia/Singapore"@)
                    &&& final(st).selected_groups@ == if old(st).selected_groups@.len() == 0 { default_groups() } else { old(st).selected_groups@ }
                    &&& final(st).files_copied == (old(st).files_copied + 12) % 4294967296
                    &&& final(st).bytes_written == (old(st).bytes_written + files_total(system_files())) % 18446744073709551616
                },
            }
        }),
{
    if st.phase != InstallPhase::Idle {
        return Err("installation already in progress");
    }
    let ghost s0 = *st;
    st.phase = InstallPhase::Welcome;
    let mut msgs: Vec<(char, String)> = Vec::new();
    push_msg(&mut msgs, 'I', string_of("=== MerlionOS Installer ==="));
    push_msg(&mut msgs, 'I', string_of("Welcome to MerlionOS installation"));
    assert(msgs_view(msgs@) =~= welcome_msgs());
    st.phase = InstallPhase::DiskSelect;
    let disks = list_disks(devs);
    assert(disks_view(disks@).len() == disks@.len());
    assert(disks@.len() == devs@.len());
    if disks.len() == 0 {
        push_msg(&mut msgs, 'E', string_of("no block devices found"));
        assert(msgs_view(msgs@) =~= welcome_msgs() + seq![('E', "no block devices found"@)]);
        log_msgs(st, &msgs, now);
        st.phase = InstallPhase::Failed;
        return Err("no block devices found");
    }
    let mut m = string_of("found ");
    push_dec(&mut m, disks.len() as u64);
    m.append(" disk(s)");
    push_msg(&mut msgs, 'I', m);
    let ghost head = msgs_view(msgs@);
    assert(head =~= welcome_msgs() + seq![('I', "found "@ + dec(devs@.len()) + " disk(s)"@)]);
    st.selected_disk = Some(0);
    assert(disks_view(disks@)[0] == disks@[0]@);
    assert(disks_view(disks@)[0] == disk_of(devs@[0].name@, devs@[0].size_kb, devs@[0].blocks));
    let disk_mb = disks[0].size_mb;
    st.disks = disks;
    st.phase = InstallPhase::Partitioning;
    assert(disk_mb * 1048576 <= u64::MAX) by (nonlinear_arith)
        requires
            disk_mb == devs@[0].size_kb / 1024,
            devs@[0].size_kb * 1024 <= u64::MAX,
    ;
    assert(devs@[0].size_kb * 1024 <= u64::MAX);
    match default_partition_layout(disk_mb) {
        Ok(parts) => {
            let mut m = string_of("created ");
            push_dec(&mut m, parts.len() as u64);
            m.append(" partitions");
            push_msg(&mut msgs, 'I', m);
            st.partitions = parts;
        },
        Err(e) => {
            let mut m = string_of("partitioning failed: ");
            m.append(e);
            push_msg(&mut msgs, 'E', m);
            assert(msgs_view(msgs@) =~= head + seq![('E', "partitioning failed: "@ + e@)]);
            log_msgs(st, &msgs, now);
            st.phase = InstallPhase::Failed;
            return Err(e);
        },
    }
    let ghost ps = st.parts();
    st.phase = InstallPhase::Formatting;
    push_format_msgs(&mut msgs, st);
    st.phase = InstallPhase::FileCopy;
    copy_system_files(st, &mut msgs);
    let mut m = string_of("file copy complete: ");
    push_dec(&mut m, st.files_copied as u64);
    m.append(" files, ");
    push_dec(&mut m, st.bytes_written);
    m.append(" bytes");
    push_msg(&mut msgs, 'I', m);
    st.phase = InstallPhase::Bootloader;
    push_bootloader_msgs(&mut msgs, &st.hostname);
    st.phase = InstallPhase::UserSetup;
    if st.hostname.unicode_len() == 0 {
        st.hostname = string_of("merlion");
    }
    if st.username.unicode_len() == 0 {
        st.username = string_of("admin");
    }
    if st.timezone.unicode_len() == 0 {
        st.timezone = string_of("Asia/Singapore");
    }
    let mut m = string_of("user='");
    m.append(st.username.as_str());
    m.append("', hostname='");
    m.append(st.hostname.as_str());
    m.append("', tz='");
    m.append(st.timezone.as_str());
    m.append("'");
    push_msg(&mut msgs, 'I', m);
    st.phase = InstallPhase::NetworkConfig;
    let mut m = string_of("network mode: ");
    m.append(net_mode_name(st.net_mode));
    push_msg(&mut msgs, 'I', m);
    st.phase = InstallPhase::PackageSelect;
    if st.selected_groups.len() == 0 {
        let mut g: Vec<ModuleGroup> = Vec::new();
        g.push(ModuleGroup::Core);
        g.push(ModuleGroup::Network);
        assert(g@ =~= default_groups());
        st.selected_groups = g;
    }
    let m = names_message("installing groups: ", &st.selected_groups);
    push_msg(&mut msgs, 'I', m);
    st.phase = InstallPhase::Done;
    push_msg(&mut msgs, 'I', string_of("=== Installation complete ==="));
    push_msg(&mut msgs, 'I', string_of("Please reboot to start MerlionOS."));
    assert(msgs_view(msgs@) =~= head + success_msgs(s0, ps));
    log_msgs(st, &msgs, now);
    Ok(())
}

/// The progress percentage of a phase.
pub open spec fn phase_percent(p: InstallPhase) -> u32 {
    match p {
        InstallPhase::Idle => 0,
        InstallPhase::Welcome => 5,
        InstallPhase::DiskSelect => 10,
        InstallPhase::Partitioning => 20,
        InstallPhase::Formatting => 35,
        InstallPhase::FileCopy => 55,
        InstallPhase::Bootloader => 70,
        InstallPhase::UserSetup => 80,
        InstallPhase::NetworkConfig => 85,
        InstallPhase::PackageSelect => 90,
        InstallPhase::Done => 100,
        InstallPhase::Failed => 0,
    }
}

/// The installation progress.
pub fn install_status(st: &InstallerState) -> (r: InstallProgress)
    ensures
        r.phase == st.phase,
        r.percent == phase_percent(st.phase),
        r.files_copied == st.files_copied,
        r.bytes_written == st.bytes_written,
{
    let percent: u32 = match st.phase {
        InstallPhase::Idle => 0,
        InstallPhase::Welcome => 5,
        InstallPhase::DiskSelect => 10,
        InstallPhase::Partitioning => 20,
        InstallPhase::Formatting => 35,
        InstallPhase::FileCopy => 55,
        InstallPhase::Bootloader => 70,
        InstallPhase::UserSetup => 80,
        InstallPhase::NetworkConfig => 85,
        InstallPhase::PackageSelect => 90,
        InstallPhase::Done => 100,
        InstallPhase::Failed => 0,
    };
    InstallProgress { phase: st.phase, percent, files_copied: st.files_copied, bytes_written: st.bytes_written }
}

/// A log line: `[<tick right-aligned in 8>] [<level>] <message>`.
pub open spec fn log_line(e: LogModel) -> Seq<char> {
    "["@ + pad_left(dec(e.tick as nat), 8) + "] ["@ + seq![e.level] + "] "@ + e.message
}

fn log_line_of(e: &LogEntry) -> (r: String)
    ensures
        r@ == log_line(e@),
{
    let mut out = string_of("[");
    push_dec_padded_left(&mut out, e.tick, 8);
    out.append("] [");
    push_char(&mut out, e.level);
    out.append("] ");
    out.append(e.message.as_str());
    assert(out@ =~= log_line(e@));
    out
}

/// The installation log, one line per entry.
pub fn install_log(st: &InstallerState) -> (r: Vec<String>)
    ensures
        r@.map_values(|x: String| x@) == st.log_view().map_values(|e: LogModel| log_line(e)),
{
    let n = st.log.len();
    let mut out: Vec<String> = Vec::new();
    let mut i: usize = 0;
    while i < n
        invariant
            n == st.log@.len(),
            i <= n,
            out@.map_values(|x: String| x@) == st.log_view().subrange(0, i as int).map_values(|e: LogModel| log_line(e)),
        decreases n - i,
    {
        let line = log_line_of(&st.log[i]);
        let ghost before = out@.map_values(|x: String| x@);
        out.push(line);
        assert(out@.map_values(|x: String| x@) =~= before.push(line@));
        i = i + 1;
        assert(st.log_view().subrange(0, i as int).map_values(|e: LogModel| log_line(e)) =~= before.push(line@));
    }
    assert(st.log_view().subrange(0, n as int) =~= st.log_view());
    out
}

/// Log lines, each followed by a newline.
pub open spec fn log_text(l: Seq<LogModel>) -> Seq<char>
    decreases l.len(),
{
    if l.len() == 0 { Seq::empty() } else { log_text(l.drop_last()) + log_line(l.last()) + "\n"@ }
}

/// The installation log as one text.
pub fn format_log(st: &InstallerState) -> (out: String)
    ensures
        out@ == log_text(st.log_view()),
{
    let n = st.log.len();
    let mut out = String::new();
    let mut i: usize = 0;
    while i < n
        invariant
            n == st.log@.len(),
            i <= n,
            out@ == log_text(st.log_view().subrange(0, i as int)),
        decreases n - i,
    {
        let ghost pre = st.log_view().subrange(0, i + 1);
        assert(pre.drop_last() =~= st.log_view().subrange(0, i as int));
        let line = log_line_of(&st.log[i]);
        out.append(line.as_str());
        out.append("\n");
        i = i + 1;
        assert(out@ =~= log_text(pre));
    }
    assert(st.log_view().subrange(0, n as int) =~= st.log_view());
    out
}

/// Reinstall the bootloader of an installation with an EFI System
/// partition.
pub fn repair_bootloader(st: &mut InstallerState, now: u64) -> (r: Result<(), &'static str>)
    requires
        old(st).wf(),
    ensures
        final(st).wf(),
        same_but_log(*final(st), *old(st)),
        old(st).parts().len() == 0 ==> (r matches Err(e) && e@ == "no partitions found; cannot repair"@ && final(st).log@ == old(st).log@),
        old(st).parts().len() > 0 && !(exists|i: int| 0 <= i < old(st).parts().len() && #[trigger] old(st).parts()[i].ptype == PartitionType::EfiSystem)
            ==> (r matches Err(e) && e@ == "no EFI System Partition found"@ && final(st).log@ == old(st).log@),
        (exists|i: int| 0 <= i < old(st).parts().len() && #[trigger] old(st).parts()[i].ptype == PartitionType::EfiSystem)
            ==> r is Ok && final(st).log_view() == log_all(old(st).log_view(),
                seq![('I', "repairing bootloader..."@)] + bootloader_msgs(old(st).hostname@) + seq![('I', "bootloader repair complete"@)], now),
{
    let n = st.partitions.len();
    if n == 0 {
        return Err("no partitions found; cannot repair");
    }
    let mut found = false;
    let mut i: usize = 0;
    while i < n
        invariant
            n == st.partitions@.len(),
            n == st.parts().len(),
            i <= n,
            found == exists|k: int| 0 <= k < i && #[trigger] st.parts()[k].ptype == PartitionType::EfiSystem,
        decreases n - i,
    {
        assert(st.parts()[i as int].ptype == st.partitions@[i as int].ptype);
        if st.partitions[i].ptype == PartitionType::EfiSystem {
            found = true;
        }
        i = i + 1;
    }
    if !found {
        return Err("no EFI System Partition found");
    }
    let mut msgs: Vec<(char, String)> = Vec::new();
    push_msg(&mut msgs, 'I', string_of("repairing bootloader..."));
    push_bootloader_msgs(&mut msgs, &st.hostname);
    push_msg(&mut msgs, 'I', string_of("bootloader repair complete"));
    assert(msgs_view(msgs@) =~= seq![('I', "repairing bootloader..."@)] + bootloader_msgs(st.hostname@)
        + seq![('I', "bootloader repair complete"@)]);
    log_msgs(st, &msgs, now);
    Ok(())
}

/// Put the installer back to its fresh state (it stays initialised).
pub fn reset(st: &mut InstallerState)
    ensures
        final(st).wf(),
        final(st).phase == InstallPhase::Idle,
        final(st).disks@.len() == 0 && final(st).partitions@.len() == 0 && final(st).log@.len() == 0,
        final(st).selected_groups@.len() == 0,
        final(st).hostname@.len() == 0 && final(st).username@.len() == 0 && final(st).timezone@.len() == 0,
        final(st).selected_disk is None && final(st).static_net is None && final(st).net_mode == NetMode::Dhcp,
        final(st).files_copied == 0 && final(st).bytes_written == 0,
        final(st).initialized == old(st).initialized,
{
    st.phase = InstallPhase::Idle;
    st.disks = Vec::new();
    st.selected_disk = None;
    st.partitions = Vec::new();
    st.hostname = String::new();
    st.username = String::new();
    st.timezone = String::new();
    st.net_mode = NetMode::Dhcp;
    st.static_net = None;
    st.selected_groups = Vec::new();
    st.log = Vec::new();
    st.files_copied = 0;
    st.bytes_written = 0;
}

/// One row of the partition table.
pub open spec fn part_row(p: PartModel) -> Seq<char> {
    pad_right(dec(p.number as nat), 6) + pad_right(dec(p.start_lba as nat), 14) + pad_right(dec(p.end_lba as nat), 14)
        + pad_right(dec(p.size_mb as nat), 10) + pad_right(part_type_text(p.ptype), 16) + p.label + "\n"@
}

/// The rows of the partition table.
pub open spec fn part_rows(ps: Seq<PartModel>) -> Seq<char>
    decreases ps.len(),
{
    if ps.len() == 0 { Seq::empty() } else { part_rows(ps.drop_last()) + part_row(ps.last()) }
}

/// The partition table.
pub open spec fn partitions_text(ps: Seq<PartModel>) -> Seq<char> {
    if ps.len() == 0 {
        "No partitions defined.\n"@
    } else {
        pad_right("#"@, 6) + pad_right("Start LBA"@, 14) + pad_right("End LBA"@, 14) + pad_right("Size(MiB)"@, 10)
            + pad_right("Type"@, 16) + "Label"@ + "\n"@ + part_rows(ps)
    }
}

fn push_part_row(out: &mut String, p: &PartitionDef)
    ensures
        final(out)@ == old(out)@ + part_row(p@),
{
    push_dec_padded(out, p.number as u64, 6);
    push_dec_padded(out, p.start_lba, 14);
    push_dec_padded(out, p.end_lba, 14);
    push_dec_padded(out, p.size_mb, 10);
    push_padded(out, part_type_name(p.ptype), 16);
    out.append(p.label.as_str());
    out.append("\n");
    assert(final(out)@ =~= old(out)@ + part_row(p@));
}

/// The partition table as text.
pub fn format_partitions(st: &InstallerState) -> (out: String)
    ensures
        out@ == partitions_text(st.parts()),
{
    let n = st.partitions.len();
    if n == 0 {
        return string_of("No partitions defined.\n");
    }
    let mut out = String::new();
    push_padded(&mut out, "#", 6);
    push_padded(&mut out, "Start LBA", 14);
    push_padded(&mut out, "End LBA", 14);
    push_padded(&mut out, "Size(MiB)", 10);
    push_padded(&mut out, "Type", 16);
    out.append("Label");
    out.append("\n");
    let ghost head = out@;
    let mut i: usize = 0;
    while i < n
        invariant
            n == st.partitions@.len(),
            n == st.parts().len(),
            i <= n,
            out@ == head + part_rows(st.parts().subrange(0, i as int)),
        decreases n - i,
    {
        let ghost pre = st.parts().subrange(0, i + 1);
        assert(pre.drop_last() =~= st.parts().subrange(0, i as int));
        assert(pre.last() == st.partitions@[i as int]@);
        push_part_row(&mut out, &st.partitions[i]);
        i = i + 1;
        assert(out@ =~= head + part_rows(pre));
    }
    assert(st.parts().subrange(0, n as int) =~= st.parts());
    assert(out@ =~= partitions_text(st.parts()));
    out
}

/// One row of the disk table.
pub open spec fn disk_row(d: DiskModel) -> Seq<char> {
    pad_right(d.name, 10) + pad_right(dec(d.size_mb as nat), 12) + pad_right(dec(d.sectors as nat), 14)
        + (if d.has_partitions { "yes"@ } else { "no"@ }) + "\n"@
}

/// The rows of the disk table.
pub open spec fn disk_rows(ds: Seq<DiskModel>) -> Seq<char>
    decreases ds.len(),
{
    if ds.len() == 0 { Seq::empty() } else { disk_rows(ds.drop_last()) + disk_row(ds.last()) }
}

/// The disk table.
pub open spec fn disks_text(ds: Seq<DiskModel>) -> Seq<char> {
    if ds.len() == 0 {
        "No block devices found.\n"@
    } else {
        pad_right("Device"@, 10) + pad_right("Size(MiB)"@, 12) + pad_right("Sectors"@, 14) + "Partitioned"@ + "\n"@ + disk_rows(ds)
    }
}

/// The installable disks of the block devices as a table.
pub fn format_disks(devs: &Vec<BlockDevice>) -> (out: String)
    requires
        sizes_fit(devs@),
    ensures
        out@ == disks_text(devs@.map_values(|d: BlockDevice| disk_of(d.name@, d.size_kb, d.blocks))),
{
    let disks = list_disks(devs);
    let ghost ds = disks_view(disks@);
    let n = disks.len();
    if n == 0 {
        return string_of("No block devices found.\n");
    }
    let mut out = String::new();
    push_padded(&mut out, "Device", 10);
    push_padded(&mut out, "Size(MiB)", 12);
    push_padded(&mut out, "Sectors", 14);
    out.append("Partitioned");
    out.append("\n");
    let ghost head = out@;
    let mut i: usize = 0;
    while i < n
        invariant
            n == disks@.len(),
            ds == disks_view(disks@),
            n == ds.len(),
            i <= n,
            out@ == head + disk_rows(ds.subrange(0, i as int)),
        decreases n - i,
    {
        let ghost pre = ds.subrange(0, i + 1);
        assert(pre.drop_last() =~= ds.subrange(0, i as int));
        let d = &disks[i];
        assert(pre.last() == d@);
        push_padded(&mut out, d.name.as_str(), 10);
        push_dec_padded(&mut out, d.size_mb, 12);
        push_dec_padded(&mut out, d.sectors, 14);
        out.append(if d.has_partitions { "yes" } else { "no" });
        out.append("\n");
        i = i + 1;
        assert(out@ =~= head + disk_rows(pre));
    }
    assert(ds.subrange(0, n as int) =~= ds);
    assert(out@ =~= disks_text(ds));
    out
}

/// Mark the installer initialised (once; later calls change nothing).
pub fn init(st: &mut InstallerState)
    ensures
        final(st).initialized,
        final(st).phase == old(st).phase,
        final(st).log@ == old(st).log@,
        final(st).partitions@ == old(st).partitions@,
        final(st).disks@ == old(st).disks@,
{
    if st.initialized {
        return;
    }
    st.initialized = true;
}

// ---------------------------------------------------------------------------
// Laws
// ---------------------------------------------------------------------------

/// No two partitions of `ps` share a sector.
pub open spec fn disjoint_parts(ps: Seq<PartModel>) -> bool {
    forall|i: int, j: int| 0 <= i < ps.len() && 0 <= j < ps.len() && i != j
        ==> !#[trigger] overlaps(ps[i].start_lba, ps[i].end_lba, ps[j])
}

/// Every disk of at least `MIN_DISK_SIZE_MB` MiB gets the default layout:
/// three partitions in order, each starting right after the one before,
/// none sharing a sector with another, the last ending before the backup
/// GPT.
pub proof fn law_default_layout(mb: u64)
    requires
        mb >= MIN_DISK_SIZE_MB,
        mb * 1048576 <= u64::MAX,
    ensures
        default_layout(mb) is Ok,
        ({
            let ps = default_layout(mb)->Ok_0;
            &&& ps.len() == 3
            &&& ps[0].start_lba == 2048
            &&& ps[1].start_lba == ps[0].end_lba + 1
            &&& ps[2].start_lba == ps[1].end_lba + 1
            &&& forall|k: int| 0 <= k < 3 ==> ps[k].start_lba <= ps[k].end_lba
            &&& ps[2].end_lba < mb * 2048 - 34
            &&& disjoint_parts(ps)
        }),
{
    let ps = default_layout(mb)->Ok_0;
    assert(ps[2].end_lba == mb * 2048 - 35);
    assert forall|i: int, j: int| 0 <= i < ps.len() && 0 <= j < ps.len() && i != j
        implies !#[trigger] overlaps(ps[i].start_lba, ps[i].end_lba, ps[j]) by {
        assert(ps[0].end_lba < ps[1].start_lba && ps[1].end_lba < ps[2].start_lba);
    }
}

/// `partition_disk` keeps the partitions free of shared sectors: adding a
/// partition that overlaps none of them keeps the table disjoint.
pub proof fn law_partition_keeps_disjoint(ps: Seq<PartModel>, p: PartModel)
    requires
        disjoint_parts(ps),
        forall|i: int| 0 <= i < ps.len() ==> !#[trigger] overlaps(p.start_lba, p.end_lba, ps[i]),
    ensures
        disjoint_parts(ps.push(p)),
{
    let t = ps.push(p);
    assert forall|i: int, j: int| 0 <= i < t.len() && 0 <= j < t.len() && i != j
        implies !#[trigger] overlaps(t[i].start_lba, t[i].end_lba, t[j]) by {
        if i == ps.len() {
            assert(!overlaps(p.start_lba, p.end_lba, ps[j]));
        } else if j == ps.len() {
            assert(!overlaps(p.start_lba, p.end_lba, ps[i]));
        } else {
            assert(t[i] == ps[i] && t[j] == ps[j]);
        }
    }
}

} // verus!
