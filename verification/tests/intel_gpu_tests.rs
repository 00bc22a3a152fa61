use merlion_kernel::intel_gpu::{lookup_device, lookup_device_name, scan_step, ScanStep};

#[test]
fn known_devices_are_identified() {
    assert_eq!(lookup_device(0x5912), ("HD 630", "Gen9.5 (Kaby Lake)", 24));
    assert_eq!(lookup_device(0x9A49), ("Xe (Tiger Lake)", "Gen12 (Tiger Lake)", 96));
    assert_eq!(lookup_device(0x5690), ("Arc A770", "Xe-HPG (Alchemist)", 512));
    assert_eq!(lookup_device(0x56A1), ("Arc A310", "Xe-HPG (Alchemist)", 96));
    assert_eq!(lookup_device_name(0x1912), "HD 530");
}

#[test]
fn unknown_devices() {
    assert_eq!(lookup_device(0x1234), ("Unknown Intel GPU", "Unknown", 0));
    assert_eq!(lookup_device_name(0xFFFF), "Unknown Intel GPU");
}

#[test]
fn scan_empty_slot() {
    assert_eq!(scan_step(0xFFFF_FFFF, 0, 0, 0), ScanStep::NextDevice);
    assert_eq!(scan_step(0xFFFF_FFFF, 0, 0, 3), ScanStep::NextFunction);
}

#[test]
fn scan_other_vendor_or_class() {
    // Single-function device of another vendor: skip the device.
    assert_eq!(scan_step(0x1234_10EC, 0, 0x0000_0000, 0), ScanStep::NextDevice);
    // Multi-function header bit set: look at the next function.
    assert_eq!(scan_step(0x1234_10EC, 0, 0x0080_0000, 0), ScanStep::NextFunction);
    // Intel, but a bridge (class 6) at function 2.
    assert_eq!(scan_step(0x1234_8086, 0x0604_0001, 0, 2), ScanStep::NextFunction);
    // Intel, not a display controller, function 0 of a single-function device.
    assert_eq!(scan_step(0x1234_8086, 0x0200_0003, 0, 0), ScanStep::NextDevice);
}

#[test]
fn scan_finds_display_controller() {
    assert_eq!(scan_step(0x5912_8086, 0x0300_0004, 0, 0), ScanStep::Found { device_id: 0x5912, revision: 4 });
    assert_eq!(scan_step(0x9A49_8086, 0x0380_00A1, 0, 1), ScanStep::Found { device_id: 0x9A49, revision: 0xA1 });
}
