//! Virtual machine management on the simulated VMX: a table of VMs with
//! their lifecycle (create, load a guest kernel, start, stop, destroy),
//! each with a virtual serial console, a virtual PIT that raises IRQ 0 every
//! hundred ticks through a virtual PIC, and VM-exit accounting.
use vstd::prelude::*;
use crate::text::{str_eq, push_char};

verus! {

/// Most VMs at once.
pub const MAX_VMS: usize = 16;
/// Bytes a virtual serial console keeps.
pub const SERIAL_BUF_SIZE: usize = 4096;
/// PIT ticks between two timer interrupts.
pub const PIT_FREQUENCY: u32 = 100;
/// Ticks a VM runs right after it starts.
pub const START_TICKS: u64 = 10;

/// The life of a VM.
#[derive(PartialEq, Eq, Structural, Clone, Copy, Debug)]
pub enum VmState {
    Created,
    Running,
    Paused,
    Stopped,
}

/// A virtual machine.
pub struct Vm {
    pub id: u32,
    pub name: String,
    pub memory_mb: u32,
    pub state: VmState,
    /// What the guest wrote to its serial port.
    pub serial: Vec<u8>,
    pub kernel_loaded: bool,
    pub kernel_size: usize,
    /// VMCS status: loaded as current, and launched.
    pub vmcs_active: bool,
    pub vmcs_launched: bool,
    pub guest_rip: u64,
    pub guest_rsp: u64,
    pub created_ticks: u64,
    pub cpu_ticks: u64,
    pub pit_counter: u32,
    pub pit_interrupts: u64,
    /// Interrupt request register of the virtual PIC.
    pub pic_irr: u8,
    pub interrupt_exits: u64,
    pub total_exits: u64,
}

/// A VM as plain values.
pub struct VmModel {
    pub id: u32,
    pub name: Seq<char>,
    pub memory_mb: u32,
    pub state: VmState,
    pub serial: Seq<u8>,
    pub kernel_loaded: bool,
    pub kernel_size: usize,
    pub vmcs_active: bool,
    pub vmcs_launched: bool,
    pub guest_rip: u64,
    pub guest_rsp: u64,
    pub created_ticks: u64,
    pub cpu_ticks: u64,
    pub pit_counter: u32,
    pub pit_interrupts: u64,
    pub pic_irr: u8,
    pub interrupt_exits: u64,
    pub total_exits: u64,
}

impl Vm {
    pub open spec fn model(&self) -> VmModel {
        VmModel {
            id: self.id,
            name: self.name@,
            memory_mb: self.memory_mb,
            state: self.state,
            serial: self.serial@,
            kernel_loaded: self.kernel_loaded,
            kernel_size: self.kernel_size,
            vmcs_active: self.vmcs_active,
            vmcs_launched: self.vmcs_launched,
            guest_rip: self.guest_rip,
            guest_rsp: self.guest_rsp,
            created_ticks: self.created_ticks,
            cpu_ticks: self.cpu_ticks,
            pit_counter: self.pit_counter,
            pit_interrupts: self.pit_interrupts,
            pic_irr: self.pic_irr,
            interrupt_exits: self.interrupt_exits,
            total_exits: self.total_exits,
        }
    }
}

/// The VMs and the subsystem's counters.
pub struct Kvm {
    pub vms: Vec<Vm>,
    pub next_id: u32,
    pub vms_created: u64,
    pub vms_destroyed: u64,
    pub total_exits: u64,
}

/// The VMs as plain values.
pub open spec fn vms_view(v: Seq<Vm>) -> Seq<VmModel> {
    v.map_values(|m: Vm| m.model())
}

/// A VM's console holds at most its buffer size and its timer counter is
/// below the interrupt period.
pub open spec fn vm_wf(m: VmModel) -> bool {
    &&& m.serial.len() <= SERIAL_BUF_SIZE
    &&& m.pit_counter < PIT_FREQUENCY
}

impl Kvm {
    pub open spec fn vms(&self) -> Seq<VmModel> {
        vms_view(self.vms@)
    }

    pub open spec fn wf(&self) -> bool {
        &&& self.vms@.len() <= MAX_VMS
        &&& forall|i: int| 0 <= i < self.vms@.len() ==> vm_wf(#[trigger] self.vms()[i])
    }

    /// No VMs; ids start at 1.
    pub fn new() -> (k: Self)
        ensures
            k.wf(),
            k.vms@.len() == 0,
            k.next_id == 1,
            k.vms_created == 0 && k.vms_destroyed == 0 && k.total_exits == 0,
    {
        Kvm { vms: Vec::new(), next_id: 1, vms_created: 0, vms_destroyed: 0, total_exits: 0 }
    }
}

// ---------------------------------------------------------------------------
// Virtual serial port
// ---------------------------------------------------------------------------

/// The console after the guest writes `bytes`: each byte is kept while the
/// buffer has room.
pub open spec fn serial_after(s: Seq<u8>, bytes: Seq<u8>) -> Seq<u8>
    decreases bytes.len(),
{
    if bytes.len() == 0 {
        s
    } else {
        let t = serial_after(s, bytes.drop_last());
        if t.len() < SERIAL_BUF_SIZE { t.push(bytes.last()) } else { t }
    }
}

proof fn lemma_serial_bound(s: Seq<u8>, bytes: Seq<u8>)
    requires
        s.len() <= SERIAL_BUF_SIZE,
    ensures
        serial_after(s, bytes).len() <= SERIAL_BUF_SIZE,
    decreases bytes.len(),
{
    if bytes.len() > 0 {
        lemma_serial_bound(s, bytes.drop_last());
    }
}

fn serial_write(out: &mut Vec<u8>, bytes: &[u8])
    requires
        old(out)@.len() <= SERIAL_BUF_SIZE,
    ensures
        final(out)@ == serial_after(old(out)@, bytes@),
        final(out)@.len() <= SERIAL_BUF_SIZE,
{
    let n = bytes.len();
    let mut i: usize = 0;
    while i < n
        invariant
            n == bytes@.len(),
            i <= n,
            out@ == serial_after(old(out)@, bytes@.subrange(0, i as int)),
            out@.len() <= SERIAL_BUF_SIZE,
        decreases n - i,
    {
        assert(bytes@.subrange(0, i + 1).drop_last() =~= bytes@.subrange(0, i as int));
        if out.len() < SERIAL_BUF_SIZE {
            out.push(bytes[i]);
        }
        i = i + 1;
    }
    assert(bytes@.subrange(0, n as int) =~= bytes@);
}

/// How the console shows a byte: printable ASCII as itself, a newline as
/// one, a carriage return not at all, anything else as `.`.
pub open spec fn shown_byte(b: u8) -> Seq<char> {
    if 0x20 <= b < 0x7F {
        seq![b as char]
    } else if b == 0x0A {
        seq!['\n']
    } else if b == 0x0D {
        Seq::empty()
    } else {
        seq!['.']
    }
}

/// The console text.
pub open spec fn console_text(s: Seq<u8>) -> Seq<char>
    decreases s.len(),
{
    if s.len() == 0 { Seq::empty() } else { console_text(s.drop_last()) + shown_byte(s.last()) }
}

fn read_output(s: &Vec<u8>) -> (r: String)
    ensures
        r@ == console_text(s@),
{
    let mut out = String::new();
    let mut i: usize = 0;
    while i < s.len()
        invariant
            i <= s@.len(),
            out@ == console_text(s@.subrange(0, i as int)),
        decreases s@.len() - i,
    {
        let b = s[i];
        assert(s@.subrange(0, i + 1).drop_last() =~= s@.subrange(0, i as int));
        if 0x20 <= b && b < 0x7F {
            push_char(&mut out, b as char);
            assert(out@ =~= console_text(s@.subrange(0, i as int)) + seq![b as char]);
        } else if b == 0x0A {
            push_char(&mut out, '\n');
            assert(out@ =~= console_text(s@.subrange(0, i as int)) + seq!['\n']);
        } else if b == 0x0D {
            assert(out@ =~= console_text(s@.subrange(0, i as int)) + Seq::<char>::empty());
        } else {
            push_char(&mut out, '.');
            assert(out@ =~= console_text(s@.subrange(0, i as int)) + seq!['.']);
        }
        i = i + 1;
    }
    assert(s@.subrange(0, s@.len() as int) =~= s@);
    out
}

// ---------------------------------------------------------------------------
// Running
// ---------------------------------------------------------------------------

/// A running VM after one tick: its CPU time grows; every hundredth tick
/// the PIT raises IRQ 0 at the PIC and the VM exits for the interrupt,
/// which moves the guest past one instruction.
pub open spec fn tick_once(m: VmModel) -> VmModel {
    let c = m.pit_counter + 1;
    let base = VmModel { cpu_ticks: (m.cpu_ticks + 1) as u64, ..m };
    if c >= PIT_FREQUENCY {
        VmModel {
            pit_counter: 0,
            pit_interrupts: (m.pit_interrupts + 1) as u64,
            pic_irr: m.pic_irr | 1u8,
            interrupt_exits: (m.interrupt_exits + 1) as u64,
            total_exits: (m.total_exits + 1) as u64,
            guest_rip: (m.guest_rip + 1) as u64,
            ..base
        }
    } else {
        VmModel { pit_counter: c as u32, ..base }
    }
}

/// A running VM after `n` ticks.
pub open spec fn run_ticks(m: VmModel, n: nat) -> VmModel
    decreases n,
{
    if n == 0 { m } else { tick_once(run_ticks(m, (n - 1) as nat)) }
}

/// Whether a VM's counters have room for `n` more ticks.
pub open spec fn room_for(m: VmModel, n: nat) -> bool {
    &&& m.cpu_ticks + n <= u64::MAX
    &&& m.pit_interrupts + n <= u64::MAX
    &&& m.interrupt_exits + n <= u64::MAX
    &&& m.total_exits + n <= u64::MAX
    &&& m.guest_rip + n <= u64::MAX
}

proof fn lemma_run_bounds(m: VmModel, n: nat)
    requires
        m.pit_counter < PIT_FREQUENCY,
        room_for(m, n),
    ensures
        run_ticks(m, n).pit_counter < PIT_FREQUENCY,
        run_ticks(m, n).serial == m.serial,
        run_ticks(m, n).cpu_ticks == m.cpu_ticks + n,
        m.pit_interrupts <= run_ticks(m, n).pit_interrupts <= m.pit_interrupts + n,
        m.interrupt_exits <= run_ticks(m, n).interrupt_exits <= m.interrupt_exits + n,
        m.total_exits <= run_ticks(m, n).total_exits <= m.total_exits + n,
        m.guest_rip <= run_ticks(m, n).guest_rip <= m.guest_rip + n,
    decreases n,
{
    if n > 0 {
        lemma_run_bounds(m, (n - 1) as nat);
    }
}

fn tick(vm: &mut Vm)
    requires
        old(vm).pit_counter < PIT_FREQUENCY,
        room_for(old(vm).model(), 1),
    ensures
        final(vm).model() == tick_once(old(vm).model()),
{
    vm.cpu_ticks = vm.cpu_ticks + 1;
    let c = vm.pit_counter + 1;
    if c >= PIT_FREQUENCY {
        vm.pit_counter = 0;
        vm.pit_interrupts = vm.pit_interrupts + 1;
        vm.pic_irr = vm.pic_irr | 1;
        vm.interrupt_exits = vm.interrupt_exits + 1;
        vm.total_exits = vm.total_exits + 1;
        vm.guest_rip = vm.guest_rip + 1;
    } else {
        vm.pit_counter = c;
    }
}

fn run(vm: &mut Vm, n: u64)
    requires
        old(vm).pit_counter < PIT_FREQUENCY,
        room_for(old(vm).model(), n as nat),
    ensures
        final(vm).model() == run_ticks(old(vm).model(), n as nat),
{
    let ghost m0 = vm.model();
    let mut i: u64 = 0;
    while i < n
        invariant
            i <= n,
            m0 == old(vm).model(),
            room_for(m0, n as nat),
            m0.pit_counter < PIT_FREQUENCY,
            vm.model() == run_ticks(m0, i as nat),
        decreases n - i,
    {
        proof {
            lemma_run_bounds(m0, i as nat);
        }
        assert(room_for(vm.model(), 1));
        tick(vm);
        i = i + 1;
    }
}

// ---------------------------------------------------------------------------
// The VM table
// ---------------------------------------------------------------------------

/// Index of the first VM from `j` on with id `id` (the length when none).
pub open spec fn vm_index(vs: Seq<VmModel>, id: u32, j: int) -> int
    decreases vs.len() - j,
{
    if j < 0 || j >= vs.len() { vs.len() as int } else if vs[j].id == id { j } else { vm_index(vs, id, j + 1) }
}

/// Whether a VM is named `name`.
pub open spec fn named(vs: Seq<VmModel>, name: Seq<char>) -> bool {
    exists|i: int| 0 <= i < vs.len() && #[trigger] vs[i].name == name
}

fn find_vm(k: &Kvm, id: u32) -> (r: usize)
    ensures
        r == vm_index(k.vms(), id, 0),
        r <= k.vms@.len(),
{
    let n = k.vms.len();
    let mut i: usize = 0;
    while i < n
        invariant
            n == k.vms@.len(),
            i <= n,
            vm_index(k.vms(), id, 0) == vm_index(k.vms(), id, i as int),
        decreases n - i,
    {
        assert(k.vms()[i as int].id == k.vms@[i as int].id);
        if k.vms[i].id == id {
            return i;
        }
        i = i + 1;
    }
    n
}

fn name_taken(k: &Kvm, name: &str) -> (r: bool)
    ensures
        r == named(k.vms(), name@),
{
    let n = k.vms.len();
    let mut i: usize = 0;
    while i < n
        invariant
            n == k.vms@.len(),
            i <= n,
            forall|j: int| 0 <= j < i ==> k.vms()[j].name != name@,
        decreases n - i,
    {
        assert(k.vms()[i as int].name == k.vms@[i as int].name@);
        if str_eq(k.vms[i].name.as_str(), name) {
            return true;
        }
        i = i + 1;
    }
    false
}

/// A fresh VM: created, an empty console, no kernel, the guest in real
/// mode at the boot sector (0x7C00) with its stack 16 bytes below the top
/// of its memory.
pub open spec fn fresh_vm(id: u32, name: Seq<char>, memory_mb: u32, now: u64) -> VmModel {
    VmModel {
        id,
        name,
        memory_mb,
        state: VmState::Created,
        serial: Seq::empty(),
        kernel_loaded: false,
        kernel_size: 0,
        vmcs_active: false,
        vmcs_launched: false,
        guest_rip: 0x7C00,
        guest_rsp: (memory_mb * 1048576 - 16) as u64,
        created_ticks: now,
        cpu_ticks: 0,
        pit_counter: 0,
        pit_interrupts: 0,
        pic_irr: 0,
        interrupt_exits: 0,
        total_exits: 0,
    }
}

/// What `create_vm` does, or the error it reports.
pub open spec fn create_result(vs: Seq<VmModel>, name: Seq<char>, memory_mb: u32) -> Option<Seq<char>> {
    if vs.len() >= MAX_VMS {
        Some("maximum VMs reached"@)
    } else if named(vs, name) {
        Some("VM with this name already exists"@)
    } else if memory_mb == 0 || memory_mb > 4096 {
        Some("memory must be 1-4096 MB"@)
    } else {
        None
    }
}

/// Create a VM named `name` with `memory_mb` MiB (1 to 4096), at tick
/// `now`; gives its id. Names are unique and at most `MAX_VMS` VMs exist.
pub fn create_vm(k: &mut Kvm, name: &str, memory_mb: u32, now: u64) -> (r: Result<u32, &'static str>)
    requires
        old(k).wf(),
    ensures
        final(k).wf(),
        final(k).total_exits == old(k).total_exits,
        final(k).vms_destroyed == old(k).vms_destroyed,
        match create_result(old(k).vms(), name@, memory_mb) {
            Some(e) => r matches Err(m) && m@ == e && final(k).vms() == old(k).vms()
                && final(k).next_id == old(k).next_id && final(k).vms_created == old(k).vms_created,
            None => {
                &&& r == Ok::<u32, &'static str>(old(k).next_id)
                &&& final(k).vms() == old(k).vms().push(fresh_vm(old(k).next_id, name@, memory_mb, now))
                &&& final(k).next_id == (if old(k).next_id == u32::MAX { 0 } else { old(k).next_id + 1 }) as u32
                &&& final(k).vms_created == (if old(k).vms_created == u64::MAX { 0 } else { old(k).vms_created + 1 }) as u64
            },
        },
{
    if k.vms.len() >= MAX_VMS {
        return Err("maximum VMs reached");
    }
    if name_taken(k, name) {
        return Err("VM with this name already exists");
    }
    if memory_mb == 0 || memory_mb > 4096 {
        return Err("memory must be 1-4096 MB");
    }
    let id = k.next_id;
    k.next_id = id.wrapping_add(1);
    let rsp: u64 = (memory_mb as u64) * 1048576 - 16;
    let vm = Vm {
        id,
        name: crate::text::string_of(name),
        memory_mb,
        state: VmState::Created,
        serial: Vec::new(),
        kernel_loaded: false,
        kernel_size: 0,
        vmcs_active: false,
        vmcs_launched: false,
        guest_rip: 0x7C00,
        guest_rsp: rsp,
        created_ticks: now,
        cpu_ticks: 0,
        pit_counter: 0,
        pit_interrupts: 0,
        pic_irr: 0,
        interrupt_exits: 0,
        total_exits: 0,
    };
    assert(vm.model() == fresh_vm(id, name@, memory_mb, now));
    let ghost before = k.vms();
    k.vms.push(vm);
    assert(k.vms() =~= before.push(vm.model()));
    k.vms_created = k.vms_created.wrapping_add(1);
    Ok(id)
}

/// The boot messages the console receives.
pub open spec fn loading_msg() -> Seq<u8> {
    "Loading guest kernel...\n"@.map_values(|c: char| c as u8)
}

fn ascii_bytes(s: &str) -> (r: Vec<u8>)
    requires
        s.is_ascii(),
    ensures
        r@ == s@.map_values(|c: char| c as u8),
{
    let n = s.unicode_len();
    let mut out: Vec<u8> = Vec::new();
    let mut i: usize = 0;
    while i < n
        invariant
            n == s@.len(),
            i <= n,
            s.is_ascii(),
            out@ == s@.subrange(0, i as int).map_values(|c: char| c as u8),
        decreases n - i,
    {
        let c = s.get_char(i);
        out.push(c as u8);
        assert(s@.subrange(0, i + 1).map_values(|c: char| c as u8)
            =~= s@.subrange(0, i as int).map_values(|c: char| c as u8).push(c as u8));
        i = i + 1;
    }
    assert(s@.subrange(0, n as int) =~= s@);
    out
}

/// Load a guest kernel image into a created VM (the console says so).
pub fn load_kernel(k: &mut Kvm, vm_id: u32, kernel_data: &[u8]) -> (r: Result<(), &'static str>)
    requires
        old(k).wf(),
    ensures
        final(k).wf(),
        final(k).next_id == old(k).next_id && final(k).vms_created == old(k).vms_created,
        final(k).vms_destroyed == old(k).vms_destroyed && final(k).total_exits == old(k).total_exits,
        ({
            let i = vm_index(old(k).vms(), vm_id, 0);
            let v = old(k).vms()[i];
            if i >= old(k).vms().len() {
                r matches Err(m) && m@ == "VM not found"@ && final(k).vms() == old(k).vms()
            } else if v.state != VmState::Created {
                r matches Err(m) && m@ == "VM must be in 'created' state to load kernel"@ && final(k).vms() == old(k).vms()
            } else {
                r is Ok && final(k).vms() == old(k).vms().update(i, VmModel {
                    kernel_loaded: true,
                    kernel_size: kernel_data@.len() as usize,
                    serial: serial_after(v.serial, loading_msg()),
                    ..v
                })
            }
        }),
{
    let i = find_vm(k, vm_id);
    if i >= k.vms.len() {
        return Err("VM not found");
    }
    if k.vms[i].state != VmState::Created {
        return Err("VM must be in 'created' state to load kernel");
    }
    let msg = "Loading guest kernel...\n";
    proof {
        reveal_strlit("Loading guest kernel...\n");
    }
    let bytes = ascii_bytes(msg);
    let ghost before = k.vms();
    let mut vm = k.vms.remove(i);
    assert(vm.model() == before[i as int]);
    vm.kernel_loaded = true;
    vm.kernel_size = kernel_data.len();
    serial_write(&mut vm.serial, bytes.as_slice());
    k.vms.insert(i, vm);
    assert(k.vms() =~= before.update(i as int, vm.model()));
    Ok(())
}

/// The console message of a start.
pub open spec fn started_msg() -> Seq<u8> {
    "VM started.\n"@.map_values(|c: char| c as u8)
}

/// The console message of a stop.
pub open spec fn stopped_msg() -> Seq<u8> {
    "VM stopped.\n"@.map_values(|c: char| c as u8)
}

/// A VM once started: its VMCS cleared, loaded and launched, running, the
/// console told, and ten ticks run.
pub open spec fn started(v: VmModel) -> VmModel {
    run_ticks(VmModel {
        vmcs_active: true,
        vmcs_launched: true,
        state: VmState::Running,
        serial: serial_after(v.serial, started_msg()),
        ..v
    }, START_TICKS as nat)
}

/// Start a VM that is not running.
pub fn start_vm(k: &mut Kvm, vm_id: u32) -> (r: Result<(), &'static str>)
    requires
        old(k).wf(),
        vm_index(old(k).vms(), vm_id, 0) < old(k).vms().len()
            ==> room_for(old(k).vms()[vm_index(old(k).vms(), vm_id, 0)], START_TICKS as nat),
    ensures
        final(k).wf(),
        final(k).next_id == old(k).next_id && final(k).vms_created == old(k).vms_created,
        final(k).vms_destroyed == old(k).vms_destroyed,
        ({
            let i = vm_index(old(k).vms(), vm_id, 0);
            let v = old(k).vms()[i];
            if i >= old(k).vms().len() {
                r matches Err(m) && m@ == "VM not found"@ && final(k).vms() == old(k).vms()
                    && final(k).total_exits == old(k).total_exits
            } else if v.state == VmState::Running {
                r matches Err(m) && m@ == "VM is already running"@ && final(k).vms() == old(k).vms()
                    && final(k).total_exits == old(k).total_exits
            } else {
                &&& r is Ok
                &&& final(k).vms() == old(k).vms().update(i, started(v))
                &&& final(k).total_exits == (old(k).total_exits + (started(v).total_exits - v.total_exits)) % 0x1_0000_0000_0000_0000
            }
        }),
{
    let i = find_vm(k, vm_id);
    if i >= k.vms.len() {
        return Err("VM not found");
    }
    if k.vms[i].state == VmState::Running {
        return Err("VM is already running");
    }
    let msg = "VM started.\n";
    proof {
        reveal_strlit("VM started.\n");
    }
    let bytes = ascii_bytes(msg);
    let ghost before = k.vms();
    let mut vm = k.vms.remove(i);
    assert(vm.model() == before[i as int]);
    assert(vm_wf(before[i as int]));
    vm.vmcs_active = true;
    vm.vmcs_launched = true;
    vm.state = VmState::Running;
    serial_write(&mut vm.serial, bytes.as_slice());
    let exits_before = vm.total_exits;
    let ghost m1 = vm.model();
    run(&mut vm, START_TICKS);
    proof {
        lemma_run_bounds(m1, START_TICKS as nat);
    }
    let fired = vm.total_exits - exits_before;
    k.total_exits = k.total_exits.wrapping_add(fired);
    k.vms.insert(i, vm);
    assert(k.vms() =~= before.update(i as int, vm.model()));
    Ok(())
}

/// Stop a running VM (its VMCS is cleared and the console told).
pub fn stop_vm(k: &mut Kvm, vm_id: u32) -> (r: Result<(), &'static str>)
    requires
        old(k).wf(),
    ensures
        final(k).wf(),
        final(k).next_id == old(k).next_id && final(k).vms_created == old(k).vms_created,
        final(k).vms_destroyed == old(k).vms_destroyed && final(k).total_exits == old(k).total_exits,
        ({
            let i = vm_index(old(k).vms(), vm_id, 0);
            let v = old(k).vms()[i];
            if i >= old(k).vms().len() {
                r matches Err(m) && m@ == "VM not found"@ && final(k).vms() == old(k).vms()
            } else if v.state != VmState::Running {
                r matches Err(m) && m@ == "VM is not running"@ && final(k).vms() == old(k).vms()
            } else {
                r is Ok && final(k).vms() == old(k).vms().update(i, VmModel {
                    state: VmState::Stopped,
                    vmcs_active: false,
                    vmcs_launched: false,
                    serial: serial_after(v.serial, stopped_msg()),
                    ..v
                })
            }
        }),
{
    let i = find_vm(k, vm_id);
    if i >= k.vms.len() {
        return Err("VM not found");
    }
    if k.vms[i].state != VmState::Running {
        return Err("VM is not running");
    }
    let msg = "VM stopped.\n";
    proof {
        reveal_strlit("VM stopped.\n");
    }
    let bytes = ascii_bytes(msg);
    let ghost before = k.vms();
    let mut vm = k.vms.remove(i);
    assert(vm.model() == before[i as int]);
    vm.state = VmState::Stopped;
    vm.vmcs_active = false;
    vm.vmcs_launched = false;
    serial_write(&mut vm.serial, bytes.as_slice());
    k.vms.insert(i, vm);
    assert(k.vms() =~= before.update(i as int, vm.model()));
    Ok(())
}

/// Remove a VM that is not running.
pub fn destroy_vm(k: &mut Kvm, vm_id: u32) -> (r: Result<(), &'static str>)
    requires
        old(k).wf(),
    ensures
        final(k).wf(),
        final(k).next_id == old(k).next_id && final(k).vms_created == old(k).vms_created,
        final(k).total_exits == old(k).total_exits,
        ({
            let i = vm_index(old(k).vms(), vm_id, 0);
            if i >= old(k).vms().len() {
                r matches Err(m) && m@ == "VM not found"@ && final(k).vms() == old(k).vms()
                    && final(k).vms_destroyed == old(k).vms_destroyed
            } else if old(k).vms()[i].state == VmState::Running {
                r matches Err(m) && m@ == "stop VM before destroying"@ && final(k).vms() == old(k).vms()
                    && final(k).vms_destroyed == old(k).vms_destroyed
            } else {
                &&& r is Ok
                &&& final(k).vms() == old(k).vms().remove(i)
                &&& final(k).vms_destroyed == (if old(k).vms_destroyed == u64::MAX { 0 } else { old(k).vms_destroyed + 1 }) as u64
            }
        }),
{
    let i = find_vm(k, vm_id);
    if i >= k.vms.len() {
        return Err("VM not found");
    }
    if k.vms[i].state == VmState::Running {
        return Err("stop VM before destroying");
    }
    let ghost before = k.vms();
    k.vms.remove(i);
    assert(k.vms() =~= before.remove(i as int));
    k.vms_destroyed = k.vms_destroyed.wrapping_add(1);
    Ok(())
}

/// The text of a VM's serial console.
pub fn vm_console(k: &Kvm, vm_id: u32) -> (r: Result<String, &'static str>)
    ensures
        ({
            let i = vm_index(k.vms(), vm_id, 0);
            if i >= k.vms().len() {
                r matches Err(m) && m@ == "VM not found"@
            } else {
                r matches Ok(s) && s@ == console_text(k.vms()[i].serial)
            }
        }),
{
    let i = find_vm(k, vm_id);
    if i >= k.vms.len() {
        return Err("VM not found");
    }
    assert(k.vms()[i as int].serial == k.vms@[i as int].serial@);
    Ok(read_output(&k.vms[i].serial))
}

} // verus!
