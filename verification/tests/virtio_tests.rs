use microkernelia::stack::{check_stack_canary, init_stack_canary, STACK_CANARY};
use microkernelia::virtio::{config_address, find_virtio_devices, VirtioDevice, PCI_SLOTS};

#[test]
fn config_address_layout() {
    assert_eq!(config_address(0, 0, 0, 0), 0x8000_0000);
    assert_eq!(config_address(1, 3, 2, 0x13), 0x8001_1A10);
    assert_eq!(config_address(0, 5, 0, 2), config_address(0, 5, 0, 0));
}

#[test]
fn finds_virtio_devices() {
    let mut words = vec![0xFFFF_FFFFu32; PCI_SLOTS];
    words[3] = 0x1041_1AF4;
    words[7] = 0x1053_1AF4;
    words[9] = 0x1234_8086;
    let found = find_virtio_devices(&words);
    assert!(found == vec![
        VirtioDevice { bus: 0, slot: 3, device: 0x1041 },
        VirtioDevice { bus: 0, slot: 7, device: 0x1053 },
    ]);
}

#[test]
fn no_devices() {
    let words = vec![0xFFFF_FFFFu32; PCI_SLOTS];
    assert!(find_virtio_devices(&words).is_empty());
}

#[test]
fn stack_canary() {
    assert_eq!(init_stack_canary(), STACK_CANARY);
    assert!(check_stack_canary(0xDEADC0DECAFEBABE));
    assert!(!check_stack_canary(0xDEADC0DECAFEBABF));
}
