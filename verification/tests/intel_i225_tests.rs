use merlion_kernel::intel_i225::{bar_address, device_name, find_nic, is_supported_device};

#[test]
fn supported_devices() {
    assert!(is_supported_device(0x8086, 0x15F3));
    assert!(is_supported_device(0x8086, 0x15F2));
    assert!(is_supported_device(0x8086, 0x15F4));
    assert!(!is_supported_device(0x8086, 0x100E));
    assert!(!is_supported_device(0x10EC, 0x15F3));
}

#[test]
fn model_names() {
    assert_eq!(device_name(0x15F3), "I225-V");
    assert_eq!(device_name(0x15F2), "I225-LM");
    assert_eq!(device_name(0x15F4), "I225-I");
    assert_eq!(device_name(0x1234), "unknown");
}

#[test]
fn first_supported_function() {
    let devs = [(0x8086u16, 0x100Eu16), (0x10EC, 0x15F3), (0x8086, 0x15F2), (0x8086, 0x15F3)];
    assert_eq!(find_nic(&devs), Some(2));
    assert_eq!(find_nic(&devs[..2]), None);
    assert_eq!(find_nic(&[]), None);
}

#[test]
fn bar_decoding() {
    // 32-bit memory BAR: flag bits cleared, BAR1 ignored.
    assert_eq!(bar_address(0xFE60_000C & !4, 0x1234), 0xFE60_0000);
    assert_eq!(bar_address(0xFE60_0008, 0xDEAD), 0xFE60_0000);
    // 64-bit memory BAR: BAR1 holds the upper half.
    assert_eq!(bar_address(0xFE60_000C, 0x0000_0004), 0x0000_0004_FE60_0000);
    assert_eq!(bar_address(0x0000_0004, 0xFFFF_FFFF), 0xFFFF_FFFF_0000_0000);
}
