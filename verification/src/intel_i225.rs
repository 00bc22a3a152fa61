//! Intel I225 2.5 GbE identification: which PCI functions the driver
//! takes, the model name of a device ID, and the MMIO base address held
//! in BAR0 (and BAR1 for a 64-bit BAR).
use vstd::prelude::*;

verus! {

/// PCI vendor ID of Intel.
pub const INTEL_VENDOR_ID: u16 = 0x8086;

/// The supported device IDs with their model names.
pub open spec fn supported_devices() -> Seq<(u16, Seq<char>)> {
    seq![(0x15F3u16, "I225-V"@), (0x15F2u16, "I225-LM"@), (0x15F4u16, "I225-I"@)]
}

/// Whether a PCI function is an I225 the driver supports: Intel's vendor
/// ID and one of the supported device IDs.
pub open spec fn supported(vendor: u16, device: u16) -> bool {
    vendor == INTEL_VENDOR_ID && exists|i: int| 0 <= i < supported_devices().len() && #[trigger] supported_devices()[i].0 == device
}

/// Whether the driver supports the PCI function with these IDs.
pub fn is_supported_device(vendor: u16, device: u16) -> (r: bool)
    ensures
        r == supported(vendor, device),
{
    let r = vendor == INTEL_VENDOR_ID && (device == 0x15F3 || device == 0x15F2 || device == 0x15F4);
    proof {
        let t = supported_devices();
        if vendor == INTEL_VENDOR_ID {
            if device == 0x15F3 {
                assert(t[0].0 == device);
            } else if device == 0x15F2 {
                assert(t[1].0 == device);
            } else if device == 0x15F4 {
                assert(t[2].0 == device);
            }
        }
    }
    r
}

/// The model name of a supported device ID, `unknown` for any other.
pub open spec fn model_name(device: u16) -> Seq<char> {
    if device == 0x15F3 {
        "I225-V"@
    } else if device == 0x15F2 {
        "I225-LM"@
    } else if device == 0x15F4 {
        "I225-I"@
    } else {
        "unknown"@
    }
}

/// The model name of a device ID.
pub fn device_name(device: u16) -> (r: &'static str)
    ensures
        r@ == model_name(device),
{
    if device == 0x15F3 {
        "I225-V"
    } else if device == 0x15F2 {
        "I225-LM"
    } else if device == 0x15F4 {
        "I225-I"
    } else {
        "unknown"
    }
}

/// Index of the first `(vendor, device)` pair from `j` on that the driver
/// supports (the length when none).
pub open spec fn first_supported(ds: Seq<(u16, u16)>, j: int) -> int
    decreases ds.len() - j,
{
    if j < 0 || j >= ds.len() {
        ds.len() as int
    } else if supported(ds[j].0, ds[j].1) {
        j
    } else {
        first_supported(ds, j + 1)
    }
}

/// The position, among the PCI functions found by a bus scan, of the first
/// one the driver supports.
pub fn find_nic(devices: &[(u16, u16)]) -> (r: Option<usize>)
    ensures
        match r {
            Some(i) => i == first_supported(devices@, 0) && i < devices@.len(),
            None => first_supported(devices@, 0) == devices@.len(),
        },
{
    let n = devices.len();
    let mut i: usize = 0;
    while i < n
        invariant
            n == devices@.len(),
            i <= n,
            first_supported(devices@, 0) == first_supported(devices@, i as int),
        decreases n - i,
    {
        let (v, d) = devices[i];
        if is_supported_device(v, d) {
            return Some(i);
        }
        i = i + 1;
    }
    None
}

/// The physical MMIO base from BAR0 (`lo`) and BAR1 (`hi`): the address
/// bits of BAR0 (its low four flag bits cleared), and, when BAR0 is a
/// 64-bit BAR (type bit 2 set), BAR1 as the upper 32 bits.
pub open spec fn bar_base(lo: u32, hi: u32) -> u64 {
    let low = (lo & 0xFFFF_FFF0u32) as u64;
    if lo & 4u32 != 0 {
        low | ((hi as u64) << 32u64)
    } else {
        low
    }
}

/// The MMIO base address held in BAR0 and BAR1.
pub fn bar_address(lo: u32, hi: u32) -> (r: u64)
    ensures
        r == bar_base(lo, hi),
        r % 16 == 0,
        lo & 4u32 == 0 ==> r < 0x1_0000_0000,
        lo & 4u32 != 0 ==> r / 0x1_0000_0000 == hi as u64,
{
    let low = (lo & 0xFFFF_FFF0) as u64;
    let r = if lo & 4 != 0 {
        low | ((hi as u64) << 32)
    } else {
        low
    };
    assert(low % 16 == 0 && low < 0x1_0000_0000) by (bit_vector)
        requires
            low == (lo & 0xFFFF_FFF0u32) as u64,
    ;
    if lo & 4 != 0 {
        assert((low | ((hi as u64) << 32u64)) % 16 == 0 && (low | ((hi as u64) << 32u64)) / 0x1_0000_0000 == hi as u64)
            by (bit_vector)
            requires
                low == (lo & 0xFFFF_FFF0u32) as u64,
        ;
    }
    r
}

/// The MMIO base keeps BAR0's address bits (all but its low four flag
/// bits) as its low half; its high half is BAR1 when BAR0's type field says
/// 64-bit (bit 2 set), else zero.
pub proof fn law_bar_fields(lo: u32, hi: u32)
    ensures
        bar_base(lo, hi) % 0x1_0000_0000 == (lo / 16) * 16,
        (lo / 4) % 2 == 1 ==> bar_base(lo, hi) / 0x1_0000_0000 == hi,
        (lo / 4) % 2 == 0 ==> bar_base(lo, hi) / 0x1_0000_0000 == 0,
{
    let low = (lo & 0xFFFF_FFF0u32) as u64;
    let h = hi as u64;
    assert(low == (lo / 16) * 16 && ((lo & 4u32 != 0) <==> (lo / 4) % 2 == 1)
        && (low | (h << 32u64)) % 0x1_0000_0000 == low && (low | (h << 32u64)) / 0x1_0000_0000 == h
        && low / 0x1_0000_0000 == 0 && low % 0x1_0000_0000 == low) by (bit_vector)
        requires low == (lo & 0xFFFF_FFF0u32) as u64, h == hi as u64;
}

} // verus!
