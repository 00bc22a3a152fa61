//! Intel GPU compute: a bump allocator over GPU memory (backed by a host
//! buffer when the GPU is simulated) and the batch-buffer command stream
//! the render ring executes.
use vstd::prelude::*;
use crate::text::{string_of, trim_str, parse_u64_max, trimmed, parse_uint};

verus! {

/// A GPU memory allocation.
pub struct GpuAlloc {
    pub id: u32,
    pub gpu_addr: u64,
    pub size: usize,
    pub name: String,
}

/// An allocation as plain values: id, address, size, name.
pub open spec fn alloc_model(a: GpuAlloc) -> (u32, u64, usize, Seq<char>) {
    (a.id, a.gpu_addr, a.size, a.name@)
}

pub open spec fn allocs_model(s: Seq<GpuAlloc>) -> Seq<(u32, u64, usize, Seq<char>)> {
    s.map_values(|a: GpuAlloc| alloc_model(a))
}

/// GPU memory: a bump allocator over `vram_size` bytes at `vram_base`,
/// the live allocations, the host buffer that stands for the memory when
/// the GPU is simulated, and the next allocation id.
pub struct GpuMemory {
    pub vram_base: u64,
    pub vram_size: u64,
    pub next_free: u64,
    pub allocations: Vec<GpuAlloc>,
    pub sim_buffer: Option<Vec<u8>>,
    pub next_id: u64,
}

/// Allocation sizes are rounded up to a multiple of 256 bytes.
pub open spec fn aligned(size: nat) -> nat {
    ((size + 255) / 256) * 256
}

/// `n + 1` wrapping at 2^64.
pub open spec fn wrap_inc64(n: u64) -> u64 {
    if n == u64::MAX { 0 } else { (n + 1) as u64 }
}

/// The allocations without those of id `id`, in order.
pub open spec fn without_id(s: Seq<(u32, u64, usize, Seq<char>)>, id: u32) -> Seq<(u32, u64, usize, Seq<char>)>
    decreases s.len(),
{
    if s.len() == 0 {
        s
    } else {
        let rest = without_id(s.drop_last(), id);
        if s.last().0 == id { rest } else { rest.push(s.last()) }
    }
}

/// The buffer after `data` is written at `addr` (unchanged when it does
/// not fit).
pub open spec fn written(buf: Seq<u8>, addr: int, data: Seq<u8>) -> Seq<u8> {
    if 0 <= addr && addr + data.len() <= buf.len() {
        buf.subrange(0, addr) + data + buf.subrange(addr + data.len(), buf.len() as int)
    } else {
        buf
    }
}

impl GpuMemory {
    pub open spec fn wf(&self) -> bool {
        &&& self.next_free <= self.vram_size
        &&& (self.sim_buffer matches Some(buf) ==> buf@.len() == self.vram_size)
        &&& forall|i: int| 0 <= i < self.allocations@.len()
            ==> (#[trigger] self.allocations@[i]).gpu_addr + self.allocations@[i].size <= self.next_free
    }

    pub open spec fn allocs(&self) -> Seq<(u32, u64, usize, Seq<char>)> {
        allocs_model(self.allocations@)
    }

    /// An empty allocator over `vram_size` bytes at `vram_base`; with
    /// `simulated`, a zeroed host buffer stands for the memory.
    pub fn new(vram_base: u64, vram_size: u64, simulated: bool) -> (m: Self)
        requires
            vram_size <= usize::MAX,
        ensures
            m.wf(),
            m.vram_base == vram_base && m.vram_size == vram_size,
            m.next_free == 0,
            m.allocs().len() == 0,
            m.next_id == 1,
            simulated <==> m.sim_buffer is Some,
            m.sim_buffer matches Some(buf) ==> forall|i: int| 0 <= i < buf@.len() ==> buf@[i] == 0,
    {
        let sim_buffer = if simulated {
            let mut buf: Vec<u8> = Vec::new();
            let n = vram_size as usize;
            let mut i: usize = 0;
            while i < n
                invariant
                    i <= n,
                    n == vram_size,
                    buf@.len() == i,
                    forall|k: int| 0 <= k < i ==> buf@[k] == 0,
                decreases n - i,
            {
                buf.push(0u8);
                i = i + 1;
            }
            Some(buf)
        } else {
            None
        };
        let m = GpuMemory { vram_base, vram_size, next_free: 0, allocations: Vec::new(), sim_buffer, next_id: 1 };
        assert(m.allocs() =~= Seq::empty());
        m
    }

    /// Bump-allocate `size` bytes (rounded up to a multiple of 256): the
    /// next id (its low 32 bits) and the current free offset. Zero bytes
    /// and more than the memory left are refused.
    pub fn allocate(&mut self, size: usize, name: &str) -> (r: Result<GpuAlloc, &'static str>)
        requires
            old(self).wf(),
            size + 255 <= usize::MAX,
        ensures
            final(self).wf(),
            final(self).vram_base == old(self).vram_base,
            final(self).vram_size == old(self).vram_size,
            final(self).sim_buffer == old(self).sim_buffer,
            size == 0 ==> r == Err::<GpuAlloc, &'static str>("allocation size must be non-zero"),
            size > 0 && old(self).next_free + aligned(size as nat) > old(self).vram_size
                ==> r == Err::<GpuAlloc, &'static str>("out of GPU memory"),
            r is Err ==> final(self).next_free == old(self).next_free && final(self).allocs() == old(self).allocs()
                && final(self).next_id == old(self).next_id,
            r matches Ok(a) ==> {
                &&& size > 0 && old(self).next_free + aligned(size as nat) <= old(self).vram_size
                &&& forall|i: int| 0 <= i < old(self).allocs().len()
                    ==> #[trigger] old(self).allocs()[i].1 + old(self).allocs()[i].2 <= a.gpu_addr
                &&& a.id == old(self).next_id as u32
                &&& a.gpu_addr == old(self).next_free
                &&& a.size == aligned(size as nat)
                &&& a.name@ == name@
                &&& final(self).next_free == old(self).next_free + aligned(size as nat)
                &&& final(self).allocs() == old(self).allocs().push(alloc_model(a))
                &&& final(self).next_id == wrap_inc64(old(self).next_id)
            },
            size > 0 && old(self).next_free + aligned(size as nat) <= old(self).vram_size ==> r is Ok,
    {
        if size == 0 {
            return Err("allocation size must be non-zero");
        }
        let al: usize = (size + 255) / 256 * 256;
        if al as u64 > self.vram_size - self.next_free {
            return Err("out of GPU memory");
        }
        let id = self.next_id as u32;
        self.next_id = if self.next_id == u64::MAX { 0 } else { self.next_id + 1 };
        let a = GpuAlloc { id, gpu_addr: self.next_free, size: al, name: string_of(name) };
        self.next_free = self.next_free + al as u64;
        let copy = GpuAlloc { id, gpu_addr: a.gpu_addr, size: al, name: string_of(name) };
        let ghost before = self.allocs();
        let ghost old_allocs = self.allocations@;
        self.allocations.push(copy);
        assert(self.allocs() =~= before.push(alloc_model(a)));
        assert forall|i: int| 0 <= i < self.allocations@.len() implies
            (#[trigger] self.allocations@[i]).gpu_addr + self.allocations@[i].size <= self.next_free by {
            if i < old_allocs.len() {
                assert(self.allocations@[i] == old_allocs[i]);
            }
        }
        Ok(a)
    }

    /// Forget the allocations of id `id` (the space is not reclaimed).
    pub fn free(&mut self, id: u32)
        requires
            old(self).wf(),
        ensures
            final(self).wf(),
            final(self).allocs() == without_id(old(self).allocs(), id),
            final(self).next_free == old(self).next_free,
            final(self).vram_base == old(self).vram_base,
            final(self).vram_size == old(self).vram_size,
            final(self).sim_buffer == old(self).sim_buffer,
            final(self).next_id == old(self).next_id,
    {
        let ghost all = self.allocs();
        let mut kept: Vec<GpuAlloc> = Vec::new();
        let mut i: usize = 0;
        while i < self.allocations.len()
            invariant
                i <= self.allocations@.len(),
                all == self.allocs(),
                allocs_model(kept@) == without_id(all.subrange(0, i as int), id),
                self.wf(),
                forall|k: int| 0 <= k < kept@.len() ==> (#[trigger] kept@[k]).gpu_addr + kept@[k].size <= self.next_free,
            decreases self.allocations@.len() - i,
        {
            let ghost pre = all.subrange(0, i + 1);
            assert(pre.drop_last() =~= all.subrange(0, i as int));
            let a = &self.allocations[i];
            assert(pre.last() == alloc_model(*a));
            if a.id != id {
                let ghost before = allocs_model(kept@);
                let ghost kept_before = kept@;
                let c = GpuAlloc { id: a.id, gpu_addr: a.gpu_addr, size: a.size, name: string_of(a.name.as_str()) };
                kept.push(c);
                assert(allocs_model(kept@) =~= before.push(alloc_model(*a)));
                assert forall|k: int| 0 <= k < kept@.len() implies (#[trigger] kept@[k]).gpu_addr + kept@[k].size
                    <= self.next_free by {
                    if k < kept_before.len() {
                        assert(kept@[k] == kept_before[k]);
                    }
                }
            }
            i = i + 1;
        }
        assert(all.subrange(0, all.len() as int) =~= all);
        self.allocations = kept;
    }

    /// Write `data` at `offset` into an allocation. Out of the
    /// allocation's bounds nothing is written. Simulated, the host buffer
    /// takes the bytes (when they fit in it); otherwise the result is the
    /// address in device memory where the caller writes them.
    pub fn write(&mut self, region: &GpuAlloc, offset: usize, data: &[u8]) -> (r: Option<u64>)
        requires
            old(self).wf(),
            region.gpu_addr + offset + data@.len() <= usize::MAX,
            old(self).vram_base + region.gpu_addr + offset <= u64::MAX,
        ensures
            final(self).wf(),
            final(self).allocs() == old(self).allocs(),
            final(self).next_free == old(self).next_free,
            final(self).vram_base == old(self).vram_base,
            final(self).vram_size == old(self).vram_size,
            final(self).next_id == old(self).next_id,
            ({
                let addr = region.gpu_addr + offset;
                if offset + data@.len() > region.size {
                    r is None && final(self).sim_buffer == old(self).sim_buffer
                } else {
                    match old(self).sim_buffer {
                        Some(buf) => r is None && (final(self).sim_buffer matches Some(nb) && nb@ == written(buf@,
                            addr, data@)),
                        None => r == Some((old(self).vram_base + addr) as u64) && final(self).sim_buffer is None,
                    }
                }
            }),
    {
        if offset > region.size || data.len() > region.size - offset {
            return None;
        }
        let addr = region.gpu_addr as usize + offset;
        match self.sim_buffer.take() {
            Some(mut buf) => {
                let ghost old_buf = buf@;
                if addr <= buf.len() && data.len() <= buf.len() - addr {
                    let mut i: usize = 0;
                    while i < data.len()
                        invariant
                            i <= data@.len(),
                            addr + data@.len() <= usize::MAX,
                            addr + data@.len() <= old_buf.len(),
                            buf@.len() == old_buf.len(),
                            forall|k: int| 0 <= k < addr ==> buf@[k] == old_buf[k],
                            forall|k: int| addr + data@.len() <= k < old_buf.len() ==> buf@[k] == old_buf[k],
                            forall|k: int| 0 <= k < i ==> buf@[addr + k] == data@[k],
                        decreases data@.len() - i,
                    {
                        buf.set(addr + i, data[i]);
                        i = i + 1;
                    }
                    assert(buf@ =~= old_buf.subrange(0, addr as int) + data@ + old_buf.subrange(
                        addr + data@.len(), old_buf.len() as int));
                }
                self.sim_buffer = Some(buf);
                None
            },
            None => Some(self.vram_base + addr as u64),
        }
    }

    /// Read `len` bytes at `offset` from an allocation. Out of the
    /// allocation's bounds: `Err(None)`. Simulated: the bytes from the
    /// host buffer (`Err(None)` when they lie past it). Otherwise
    /// `Err(Some(address))`: the caller reads device memory there.
    pub fn read(&self, region: &GpuAlloc, offset: usize, len: usize) -> (r: Result<Vec<u8>, Option<u64>>)
        requires
            self.wf(),
            region.gpu_addr + offset + len <= usize::MAX,
            self.vram_base + region.gpu_addr + offset <= u64::MAX,
        ensures
            ({
                let addr = region.gpu_addr + offset;
                if offset + len > region.size {
                    r == Err::<Vec<u8>, Option<u64>>(None)
                } else {
                    match self.sim_buffer {
                        Some(buf) => if addr + len <= buf@.len() {
                            (r matches Ok(v) && v@ == buf@.subrange(addr, addr + len))
                        } else {
                            r == Err::<Vec<u8>, Option<u64>>(None)
                        },
                        None => r == Err::<Vec<u8>, Option<u64>>(Some((self.vram_base + addr) as u64)),
                    }
                }
            }),
    {
        if offset > region.size || len > region.size - offset {
            return Err(None);
        }
        let addr = region.gpu_addr as usize + offset;
        match &self.sim_buffer {
            Some(buf) => {
                if addr <= buf.len() && len <= buf.len() - addr {
                    let mut out: Vec<u8> = Vec::new();
                    let mut i: usize = 0;
                    while i < len
                        invariant
                            i <= len,
                            addr + len <= usize::MAX,
                            addr + len <= buf@.len(),
                            out@ =~= buf@.subrange(addr as int, addr + i),
                        decreases len - i,
                    {
                        out.push(buf[addr + i]);
                        i = i + 1;
                    }
                    Ok(out)
                } else {
                    Err(None)
                }
            },
            None => Err(Some(self.vram_base + addr as u64)),
        }
    }
}

// ---------------------------------------------------------------------------
// Batch buffers
// ---------------------------------------------------------------------------

/// A batch buffer: the command words the GPU executes, in order.
pub struct BatchBuffer {
    commands: Vec<u32>,
}

/// The low 32 bits of an address.
pub open spec fn lo32(a: u64) -> u32 {
    (a % 0x1_0000_0000) as u32
}

/// The high 32 bits of an address.
pub open spec fn hi32(a: u64) -> u32 {
    (a / 0x1_0000_0000) as u32
}

fn split_addr(a: u64) -> (r: (u32, u32))
    ensures
        r == (lo32(a), hi32(a)),
{
    ((a % 4294967296u64) as u32, (a / 4294967296u64) as u32)
}

/// The SIMD-size field of a walker: 2 (SIMD32) from 32 threads wide, 1
/// (SIMD16) from 16, else 0 (SIMD8).
pub open spec fn simd_size(width: u32) -> u32 {
    if width >= 32 { 2 } else if width >= 16 { 1 } else { 0 }
}

impl BatchBuffer {
    /// The command words so far.
    pub closed spec fn words(&self) -> Seq<u32> {
        self.commands@
    }

    /// An empty batch buffer.
    pub fn new() -> (b: Self)
        ensures
            b.words() == Seq::<u32>::empty(),
    {
        BatchBuffer { commands: Vec::new() }
    }

    /// `MI_NOOP` (opcode 0x00): one zero word.
    pub fn mi_noop(&mut self)
        ensures
            final(self).words() == old(self).words().push(0),
    {
        self.commands.push(0x0000_0000);
    }

    /// `MI_BATCH_BUFFER_END` (opcode 0x0A in bits 28:23): ends the batch.
    pub fn mi_batch_buffer_end(&mut self)
        ensures
            final(self).words() == old(self).words().push(0x0500_0000),
    {
        self.commands.push(0x0500_0000);
    }

    /// `MI_STORE_DATA_IMM` (opcode 0x20, global GTT bit 22, length 2):
    /// write `value` at `addr`.
    pub fn mi_store_data_imm(&mut self, addr: u64, value: u32)
        ensures
            final(self).words() == old(self).words() + seq![0x1040_0002u32, lo32(addr), hi32(addr), value],
    {
        let (lo, hi) = split_addr(addr);
        self.commands.push(0x1040_0002);
        self.commands.push(lo);
        self.commands.push(hi);
        self.commands.push(value);
        assert(self.commands@ =~= old(self).words() + seq![0x1040_0002u32, lo, hi, value]);
    }

    /// `MI_FLUSH_DW` (opcode 0x26, length 1): flush write caches.
    pub fn mi_flush_dw(&mut self)
        ensures
            final(self).words() == old(self).words() + seq![0x1300_0001u32, 0, 0],
    {
        self.commands.push(0x1300_0001);
        self.commands.push(0);
        self.commands.push(0);
        assert(self.commands@ =~= old(self).words() + seq![0x1300_0001u32, 0, 0]);
    }

    /// `MI_BATCH_BUFFER_START` (opcode 0x31, address space bit 8, length
    /// 1): chain to the batch at `addr`.
    pub fn mi_batch_buffer_start(&mut self, addr: u64)
        ensures
            final(self).words() == old(self).words() + seq![0x1880_0101u32, lo32(addr), hi32(addr)],
    {
        let (lo, hi) = split_addr(addr);
        self.commands.push(0x1880_0101);
        self.commands.push(lo);
        self.commands.push(hi);
        assert(self.commands@ =~= old(self).words() + seq![0x1880_0101u32, lo, hi]);
    }

    /// `PIPE_CONTROL` (type 3, 3D subtype 3, opcode 0x7A, length 3) with
    /// `flags`.
    pub fn pipe_control(&mut self, flags: u32)
        ensures
            final(self).words() == old(self).words() + seq![0x787A_0003u32, flags, 0, 0, 0],
    {
        self.commands.push(0x787A_0003);
        self.commands.push(flags);
        self.commands.push(0);
        self.commands.push(0);
        self.commands.push(0);
        assert(self.commands@ =~= old(self).words() + seq![0x787A_0003u32, flags, 0, 0, 0]);
    }

    /// `MEDIA_VFE_STATE` (type 3, media subtype 2, opcode 0x00, length 6):
    /// the thread limit and CURBE size, 16 bits each.
    pub fn media_vfe_state(&mut self, max_threads: u32, curbe_size: u32)
        ensures
            final(self).words() == old(self).words() + seq![0x7000_0006u32, 0, (max_threads % 65536) as u32, 0,
                (curbe_size % 65536) as u32, 0, 0, 0],
    {
        self.commands.push(0x7000_0006);
        self.commands.push(0);
        self.commands.push(max_threads % 65536);
        self.commands.push(0);
        self.commands.push(curbe_size % 65536);
        self.commands.push(0);
        self.commands.push(0);
        self.commands.push(0);
        assert(self.commands@ =~= old(self).words() + seq![0x7000_0006u32, 0, (max_threads % 65536) as u32, 0,
            (curbe_size % 65536) as u32, 0, 0, 0]);
    }

    /// `MEDIA_CURBE_LOAD` (type 3, media subtype 2, opcode 0x01, length
    /// 2): `size` bytes of constants at `data_addr`.
    pub fn media_curbe_load(&mut self, data_addr: u64, size: u32)
        ensures
            final(self).words() == old(self).words() + seq![0x7001_0002u32, size, lo32(data_addr), hi32(data_addr)],
    {
        let (lo, hi) = split_addr(data_addr);
        self.commands.push(0x7001_0002);
        self.commands.push(size);
        self.commands.push(lo);
        self.commands.push(hi);
        assert(self.commands@ =~= old(self).words() + seq![0x7001_0002u32, size, lo, hi]);
    }

    /// `MEDIA_INTERFACE_DESCRIPTOR_LOAD` (type 3, media subtype 2, opcode
    /// 0x02, length 2): `size` bytes of descriptors at `desc_addr`.
    pub fn media_interface_descriptor_load(&mut self, desc_addr: u64, size: u32)
        ensures
            final(self).words() == old(self).words() + seq![0x7002_0002u32, size, lo32(desc_addr), hi32(desc_addr)],
    {
        let (lo, hi) = split_addr(desc_addr);
        self.commands.push(0x7002_0002);
        self.commands.push(size);
        self.commands.push(lo);
        self.commands.push(hi);
        assert(self.commands@ =~= old(self).words() + seq![0x7002_0002u32, size, lo, hi]);
    }

    /// `GPGPU_WALKER` (type 3, media subtype 2, opcode 0x05, length 13):
    /// dispatch `group_x` x `group_y` x `group_z` thread groups of the
    /// given shape, all execution-mask bits set.
    pub fn gpgpu_walker(
        &mut self,
        interface_desc_offset: u32,
        thread_width: u32,
        thread_height: u32,
        thread_depth: u32,
        group_x: u32,
        group_y: u32,
        group_z: u32,
    )
        ensures
            final(self).words() == old(self).words() + seq![0x7005_000Du32, interface_desc_offset, 0, 0,
                simd_size(thread_width), thread_width, thread_height, thread_depth, 0, 0, group_x, group_y, group_z,
                0xFFFF_FFFF, 0xFFFF_FFFF],
    {
        let simd: u32 = if thread_width >= 32 { 2 } else if thread_width >= 16 { 1 } else { 0 };
        self.commands.push(0x7005_000D);
        self.commands.push(interface_desc_offset);
        self.commands.push(0);
        self.commands.push(0);
        self.commands.push(simd);
        self.commands.push(thread_width);
        self.commands.push(thread_height);
        self.commands.push(thread_depth);
        self.commands.push(0);
        self.commands.push(0);
        self.commands.push(group_x);
        self.commands.push(group_y);
        self.commands.push(group_z);
        self.commands.push(0xFFFF_FFFF);
        self.commands.push(0xFFFF_FFFF);
        assert(self.commands@ =~= old(self).words() + seq![0x7005_000Du32, interface_desc_offset, 0, 0, simd,
            thread_width, thread_height, thread_depth, 0, 0, group_x, group_y, group_z, 0xFFFF_FFFF, 0xFFFF_FFFF]);
    }

    /// The number of command words.
    pub fn len(&self) -> (n: usize)
        ensures
            n == self.words().len(),
    {
        self.commands.len()
    }

    /// The command stream.
    pub fn build(self) -> (v: Vec<u32>)
        ensures
            v@ == self.words(),
    {
        self.commands
    }
}

/// Reading back what was just written into the simulated memory, at the
/// same place, gives the bytes written.
pub proof fn law_write_then_read(buf: Seq<u8>, addr: int, data: Seq<u8>)
    requires
        0 <= addr,
        addr + data.len() <= buf.len(),
    ensures
        written(buf, addr, data).len() == buf.len(),
        written(buf, addr, data).subrange(addr, addr + data.len()) == data,
{
    assert(written(buf, addr, data).subrange(addr, addr + data.len()) =~= data);
}


/// The command stream of a compute dispatch: `MEDIA_VFE_STATE` with seven
/// threads per EU and a CURBE of 1, a `GPGPU_WALKER` of SIMD8 threads over
/// `gx` x `gy` x `gz` groups, a command-streamer stall `PIPE_CONTROL`,
/// `MI_BATCH_BUFFER_END`, and an `MI_NOOP` when needed to make the length
/// even.
pub open spec fn compute_batch_spec(eu_count: u32, gx: u32, gy: u32, gz: u32) -> Seq<u32> {
    let body = seq![0x7000_0006u32, 0, ((eu_count * 7) % 65536) as u32, 0, 1, 0, 0, 0]
        + seq![0x7005_000Du32, 0, 0, 0, simd_size(8), 8, 1, 1, 0, 0, gx, gy, gz, 0xFFFF_FFFF, 0xFFFF_FFFF]
        + seq![0x787A_0003u32, 0x0010_0000, 0, 0, 0]
        + seq![0x0500_0000u32];
    if body.len() % 2 == 1 { body.push(0) } else { body }
}

/// The batch that dispatches a compute shader over `gx` x `gy` x `gz`
/// thread groups on a GPU with `eu_count` execution units.
pub fn build_compute_batch(eu_count: u32, gx: u32, gy: u32, gz: u32) -> (r: Vec<u32>)
    requires
        eu_count * 7 <= u32::MAX,
    ensures
        r@ == compute_batch_spec(eu_count, gx, gy, gz),
        r@.len() % 2 == 0,
{
    let mut batch = BatchBuffer::new();
    batch.media_vfe_state(eu_count * 7, 1);
    batch.gpgpu_walker(0, 8, 1, 1, gx, gy, gz);
    batch.pipe_control(0x0010_0000);
    batch.mi_batch_buffer_end();
    let ghost body = batch.words();
    assert(body =~= seq![0x7000_0006u32, 0, ((eu_count * 7) % 65536) as u32, 0, 1, 0, 0, 0]
        + seq![0x7005_000Du32, 0, 0, 0, simd_size(8), 8, 1, 1, 0, 0, gx, gy, gz, 0xFFFF_FFFF, 0xFFFF_FFFF]
        + seq![0x787A_0003u32, 0x0010_0000, 0, 0, 0]
        + seq![0x0500_0000u32]);
    if batch.len() % 2 != 0 {
        batch.mi_noop();
    }
    batch.build()
}

/// The size a dispatch test accepts: the text, trimmed, as a number from
/// 1 to 4096.
pub open spec fn dispatch_size(s: Seq<char>) -> Option<u32> {
    match parse_uint(trimmed(s), 4294967295) {
        Some(n) => if 1 <= n <= 4096 { Some(n as u32) } else { None },
        None => None,
    }
}

/// Parse the size argument of a dispatch test; `None` when it is not a
/// number from 1 to 4096 (the caller then prints its usage line).
pub fn parse_dispatch_size(s: &str) -> (r: Option<u32>)
    ensures
        r == dispatch_size(s@),
{
    let t = trim_str(s);
    match parse_u64_max(t, 4294967295) {
        Some(n) => if 1 <= n && n <= 4096 { Some(n as u32) } else { None },
        None => None,
    }
}

/// The number of arithmetic operations of an `n` x `n` matrix product,
/// `2 n^3`, as the dispatch test reports it for its sizes (up to 4096).
pub fn matmul_ops(n: u32) -> (r: u64)
    requires
        n <= 4096,
    ensures
        r == 2 * (n as int) * (n as int) * (n as int),
{
    let m = n as u64;
    assert(m * m <= 4096 * 4096 && m * m * m <= 4096 * 4096 * 4096) by (nonlinear_arith)
        requires m <= 4096;
    assert(2 * (m * m * m) == 2 * (n as int) * (n as int) * (n as int)) by (nonlinear_arith)
        requires m == n;
    2 * (m * m * m)
}

} // verus!
