//! Intel GPU identification: the table of known device IDs (name,
//! generation, execution-unit count) and the decisions of the PCI scan
//! that looks for the first Intel display controller.
use vstd::prelude::*;

verus! {

/// PCI vendor ID of Intel.
pub const INTEL_VENDOR_ID: u16 = 0x8086;

/// The known devices: `(device ID, name, generation, EU count)`.
pub open spec fn gpu_table() -> Seq<(u16, Seq<char>, Seq<char>, u32)> {
    seq![
        (0x1912u16, "HD 530"@, "Gen9 (Skylake)"@, 24u32),
        (0x1916u16, "HD 520"@, "Gen9 (Skylake)"@, 24u32),
        (0x5912u16, "HD 630"@, "Gen9.5 (Kaby Lake)"@, 24u32),
        (0x5916u16, "HD 620"@, "Gen9.5 (Kaby Lake)"@, 24u32),
        (0x5917u16, "UHD 620"@, "Gen9.5 (Kaby Lake)"@, 24u32),
        (0x591Bu16, "HD 630"@, "Gen9.5 (Kaby Lake-H)"@, 24u32),
        (0x591Eu16, "HD 615"@, "Gen9.5 (Kaby Lake)"@, 24u32),
        (0x3E92u16, "UHD 630"@, "Gen9.5 (Coffee Lake)"@, 24u32),
        (0x3E91u16, "UHD 630"@, "Gen9.5 (Coffee Lake)"@, 24u32),
        (0x3EA0u16, "UHD 620"@, "Gen9.5 (Whiskey Lake)"@, 24u32),
        (0x8A56u16, "Iris Plus G7"@, "Gen11 (Ice Lake)"@, 64u32),
        (0x8A52u16, "Iris Plus G7"@, "Gen11 (Ice Lake)"@, 64u32),
        (0x9A49u16, "Xe (Tiger Lake)"@, "Gen12 (Tiger Lake)"@, 96u32),
        (0x9A40u16, "Xe (Tiger Lake)"@, "Gen12 (Tiger Lake)"@, 80u32),
        (0x4680u16, "Xe (Alder Lake-S)"@, "Gen12 (Alder Lake)"@, 32u32),
        (0x46A6u16, "Xe (Alder Lake-P)"@, "Gen12 (Alder Lake)"@, 96u32),
        (0xA7A0u16, "Xe (Raptor Lake)"@, "Gen12 (Raptor Lake)"@, 32u32),
        (0x7D55u16, "Xe (Meteor Lake)"@, "Gen12 (Meteor Lake)"@, 128u32),
        (0x5690u16, "Arc A770"@, "Xe-HPG (Alchemist)"@, 512u32),
        (0x5691u16, "Arc A750"@, "Xe-HPG (Alchemist)"@, 448u32),
        (0x5692u16, "Arc A580"@, "Xe-HPG (Alchemist)"@, 384u32),
        (0x56A0u16, "Arc A380"@, "Xe-HPG (Alchemist)"@, 128u32),
        (0x56A1u16, "Arc A310"@, "Xe-HPG (Alchemist)"@, 96u32)
    ]
}

/// Index of the first row from `j` on with device ID `id` (the length
/// when none).
pub open spec fn row_index(t: Seq<(u16, Seq<char>, Seq<char>, u32)>, id: u16, j: int) -> int
    decreases t.len() - j,
{
    if j < 0 || j >= t.len() {
        t.len() as int
    } else if t[j].0 == id {
        j
    } else {
        row_index(t, id, j + 1)
    }
}

/// The name of device `id`: that of its first row, else `Unknown Intel GPU`.
pub open spec fn gpu_name(id: u16) -> Seq<char> {
    let i = row_index(gpu_table(), id, 0);
    if i < gpu_table().len() { gpu_table()[i].1 } else { "Unknown Intel GPU"@ }
}

/// The generation of device `id`, else `Unknown`.
pub open spec fn gpu_gen(id: u16) -> Seq<char> {
    let i = row_index(gpu_table(), id, 0);
    if i < gpu_table().len() { gpu_table()[i].2 } else { "Unknown"@ }
}

/// The EU count of device `id`, else 0.
pub open spec fn gpu_eu(id: u16) -> u32 {
    let i = row_index(gpu_table(), id, 0);
    if i < gpu_table().len() { gpu_table()[i].3 } else { 0 }
}

/// The rows as plain values.
pub open spec fn rows_view(t: Seq<(u16, &'static str, &'static str, u32)>) -> Seq<(u16, Seq<char>, Seq<char>, u32)> {
    t.map_values(|r: (u16, &'static str, &'static str, u32)| (r.0, r.1@, r.2@, r.3))
}

fn known_devices() -> (t: Vec<(u16, &'static str, &'static str, u32)>)
    ensures
        rows_view(t@) == gpu_table(),
{
    let mut t: Vec<(u16, &'static str, &'static str, u32)> = Vec::new();
    t.push((0x1912, "HD 530", "Gen9 (Skylake)", 24));
    t.push((0x1916, "HD 520", "Gen9 (Skylake)", 24));
    t.push((0x5912, "HD 630", "Gen9.5 (Kaby Lake)", 24));
    t.push((0x5916, "HD 620", "Gen9.5 (Kaby Lake)", 24));
    t.push((0x5917, "UHD 620", "Gen9.5 (Kaby Lake)", 24));
    t.push((0x591B, "HD 630", "Gen9.5 (Kaby Lake-H)", 24));
    t.push((0x591E, "HD 615", "Gen9.5 (Kaby Lake)", 24));
    t.push((0x3E92, "UHD 630", "Gen9.5 (Coffee Lake)", 24));
    t.push((0x3E91, "UHD 630", "Gen9.5 (Coffee Lake)", 24));
    t.push((0x3EA0, "UHD 620", "Gen9.5 (Whiskey Lake)", 24));
    t.push((0x8A56, "Iris Plus G7", "Gen11 (Ice Lake)", 64));
    t.push((0x8A52, "Iris Plus G7", "Gen11 (Ice Lake)", 64));
    t.push((0x9A49, "Xe (Tiger Lake)", "Gen12 (Tiger Lake)", 96));
    t.push((0x9A40, "Xe (Tiger Lake)", "Gen12 (Tiger Lake)", 80));
    t.push((0x4680, "Xe (Alder Lake-S)", "Gen12 (Alder Lake)", 32));
    t.push((0x46A6, "Xe (Alder Lake-P)", "Gen12 (Alder Lake)", 96));
    t.push((0xA7A0, "Xe (Raptor Lake)", "Gen12 (Raptor Lake)", 32));
    t.push((0x7D55, "Xe (Meteor Lake)", "Gen12 (Meteor Lake)", 128));
    t.push((0x5690, "Arc A770", "Xe-HPG (Alchemist)", 512));
    t.push((0x5691, "Arc A750", "Xe-HPG (Alchemist)", 448));
    t.push((0x5692, "Arc A580", "Xe-HPG (Alchemist)", 384));
    t.push((0x56A0, "Arc A380", "Xe-HPG (Alchemist)", 128));
    t.push((0x56A1, "Arc A310", "Xe-HPG (Alchemist)", 96));
    assert(rows_view(t@) =~= gpu_table());
    t
}

/// Name, generation and EU count of a device ID, from the first row of
/// the table that has it; `("Unknown Intel GPU", "Unknown", 0)` otherwise.
pub fn lookup_device(device_id: u16) -> (r: (&'static str, &'static str, u32))
    ensures
        r.0@ == gpu_name(device_id),
        r.1@ == gpu_gen(device_id),
        r.2 == gpu_eu(device_id),
{
    let t = known_devices();
    let ghost tv = rows_view(t@);
    let n = t.len();
    let mut i: usize = 0;
    while i < n
        invariant
            n == t@.len(),
            tv == rows_view(t@),
            tv == gpu_table(),
            i <= n,
            row_index(tv, device_id, 0) == row_index(tv, device_id, i as int),
        decreases n - i,
    {
        let (did, name, gen, eu) = t[i];
        assert(tv[i as int] == (did, name@, gen@, eu));
        if did == device_id {
            return (name, gen, eu);
        }
        i = i + 1;
    }
    ("Unknown Intel GPU", "Unknown", 0)
}

/// The name of a device ID, `Unknown Intel GPU` when it is not known.
pub fn lookup_device_name(dev_id: u16) -> (r: &'static str)
    ensures
        r@ == gpu_name(dev_id),
{
    lookup_device(dev_id).0
}

/// What the PCI scan does after reading one function's configuration.
#[derive(PartialEq, Eq, Structural, Clone, Copy, Debug)]
pub enum ScanStep {
    /// Go on with the next function of this device.
    NextFunction,
    /// Skip the rest of this device.
    NextDevice,
    /// An Intel display controller.
    Found { device_id: u16, revision: u8 },
}

/// The scan's decision, from the vendor/device register, the class
/// register (read only for Intel functions) and the header register of
/// function 0 (read only when function 0 is not a match): an empty slot
/// at function 0 ends the device; a function that is not an Intel display
/// controller (class 3) ends the device when it is function 0 of a
/// single-function device; otherwise the scan goes on.
pub open spec fn scan_step_spec(vendor_device: u32, class_reg: u32, header_reg: u32, func: u8) -> ScanStep {
    let vendor = vendor_device & 0xFFFF;
    let single = func == 0 && (header_reg >> 16u32) & 0x80 == 0;
    if vendor == 0xFFFF {
        if func == 0 { ScanStep::NextDevice } else { ScanStep::NextFunction }
    } else if vendor != INTEL_VENDOR_ID || (class_reg >> 24u32) & 0xFF != 0x03 {
        if single { ScanStep::NextDevice } else { ScanStep::NextFunction }
    } else {
        ScanStep::Found {
            device_id: ((vendor_device >> 16u32) & 0xFFFF) as u16,
            revision: (class_reg & 0xFF) as u8,
        }
    }
}

/// One step of the PCI scan for an Intel display controller.
pub fn scan_step(vendor_device: u32, class_reg: u32, header_reg: u32, func: u8) -> (r: ScanStep)
    ensures
        r == scan_step_spec(vendor_device, class_reg, header_reg, func),
{
    let vendor = vendor_device & 0xFFFF;
    if vendor == 0xFFFF {
        return if func == 0 { ScanStep::NextDevice } else { ScanStep::NextFunction };
    }
    let single = func == 0 && (header_reg >> 16) & 0x80 == 0;
    if vendor != 0x8086 || (class_reg >> 24) & 0xFF != 0x03 {
        return if single { ScanStep::NextDevice } else { ScanStep::NextFunction };
    }
    ScanStep::Found {
        device_id: ((vendor_device >> 16) & 0xFFFF) as u16,
        revision: (class_reg & 0xFF) as u8,
    }
}

/// The scan finds a function exactly when its vendor ID (the low half of
/// the first register) is Intel's and its class code (the top byte of the
/// class register) is 3, a display controller; the device ID is the high
/// half of the first register and the revision the low byte of the class
/// register. An empty slot (vendor 0xFFFF) or a non-match at function 0 of
/// a single-function device (bit 7 of the header type, bits 16 to 23 of
/// the header register, clear) skips the device.
pub proof fn law_scan_fields(vd: u32, class_reg: u32, header_reg: u32, func: u8)
    ensures
        (scan_step_spec(vd, class_reg, header_reg, func) is Found)
            <==> (vd % 65536 == 0x8086 && class_reg / 16777216 == 3),
        scan_step_spec(vd, class_reg, header_reg, func) matches ScanStep::Found { device_id, revision }
            ==> device_id == vd / 65536 && revision == class_reg % 256,
        scan_step_spec(vd, class_reg, header_reg, func) is NextDevice <==> (func == 0 && (vd % 65536 == 0xFFFF
            || (!(vd % 65536 == 0x8086 && class_reg / 16777216 == 3) && ((header_reg / 65536) % 256) < 128))),
{
    assert((vd & 0xFFFF) == vd % 65536 && (class_reg >> 24u32) & 0xFF == class_reg / 16777216
        && ((vd >> 16u32) & 0xFFFF) == vd / 65536 && (class_reg & 0xFF) == class_reg % 256
        && (((header_reg >> 16u32) & 0x80 == 0) <==> ((header_reg / 65536) % 256) < 128)) by (bit_vector);
}

} // verus!
