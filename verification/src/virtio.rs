use vstd::prelude::*;

verus! {

/// PCI vendor number of virtio devices.
pub const VIRTIO_VENDOR: u32 = 0x1AF4;

/// Device slots scanned on a PCI bus.
pub const PCI_SLOTS: usize = 32;

/// The value written to the PCI configuration address port to select
/// register `offset` of function `func` of device `slot` on `bus`: the
/// enable bit, then bus, slot, function and the dword-aligned offset.
pub open spec fn config_address_spec(bus: u8, slot: u8, func: u8, offset: u8) -> u32 {
    (1u32 << 31u32) | ((bus as u32) << 16u32) | ((slot as u32) << 11u32) | ((func as u32) << 8u32)
        | ((offset as u32) & 0xFCu32)
}

/// The PCI configuration address for a register (see
/// `config_address_spec`); the caller writes it to port 0xCF8 and reads
/// the register from port 0xCFC.
pub fn config_address(bus: u8, slot: u8, func: u8, offset: u8) -> (a: u32)
    ensures
        a == config_address_spec(bus, slot, func, offset),
        slot < 32 && func < 8 ==> {
            &&& a >> 31u32 == 1
            &&& (a >> 16u32) & 0xFFu32 == bus as u32
            &&& (a >> 11u32) & 0x1Fu32 == slot as u32
            &&& (a >> 8u32) & 0x7u32 == func as u32
            &&& a & 0xFFu32 == (offset as u32) & 0xFCu32
        },
{
    proof {
        if slot < 32 && func < 8 {
            lemma_config_address_fields(bus, slot, func, offset);
        }
    }
    (1u32 << 31u32) | ((bus as u32) << 16u32) | ((slot as u32) << 11u32) | ((func as u32) << 8u32)
        | ((offset as u32) & 0xFCu32)
}

/// The configuration address carries each field whole in its own bits:
/// the enable bit 31, the bus in bits 16..24, the slot in bits 11..16, the
/// function in bits 8..11 and the dword-aligned offset in bits 0..8.
pub proof fn lemma_config_address_fields(bus: u8, slot: u8, func: u8, offset: u8)
    requires
        slot < 32,
        func < 8,
    ensures
        config_address_spec(bus, slot, func, offset) >> 31u32 == 1,
        (config_address_spec(bus, slot, func, offset) >> 16u32) & 0xFFu32 == bus as u32,
        (config_address_spec(bus, slot, func, offset) >> 11u32) & 0x1Fu32 == slot as u32,
        (config_address_spec(bus, slot, func, offset) >> 8u32) & 0x7u32 == func as u32,
        config_address_spec(bus, slot, func, offset) & 0xFFu32 == (offset as u32) & 0xFCu32,
{
    let b = bus as u32;
    let s = slot as u32;
    let f = func as u32;
    let o = offset as u32;
    assert(b < 256 && s < 32 && f < 8 && o < 256);
    let a = (1u32 << 31u32) | (b << 16u32) | (s << 11u32) | (f << 8u32) | (o & 0xFCu32);
    assert(a == config_address_spec(bus, slot, func, offset));
    assert(a >> 31u32 == 1 && (a >> 16u32) & 0xFFu32 == b && (a >> 11u32) & 0x1Fu32 == s && (a
        >> 8u32) & 0x7u32 == f && a & 0xFFu32 == o & 0xFCu32) by (bit_vector)
        requires
            b < 256,
            s < 32,
            f < 8,
            o < 256,
            a == (1u32 << 31u32) | (b << 16u32) | (s << 11u32) | (f << 8u32) | (o & 0xFCu32),
    ;
}

/// Distinct functions (bus, slot, function) get distinct configuration
/// addresses, whatever the offsets.
pub proof fn lemma_config_address_distinct(
    bus1: u8,
    slot1: u8,
    func1: u8,
    off1: u8,
    bus2: u8,
    slot2: u8,
    func2: u8,
    off2: u8,
)
    requires
        slot1 < 32,
        func1 < 8,
        slot2 < 32,
        func2 < 8,
        (bus1, slot1, func1) != (bus2, slot2, func2),
    ensures
        config_address_spec(bus1, slot1, func1, off1) != config_address_spec(
            bus2,
            slot2,
            func2,
            off2,
        ),
{
    lemma_config_address_fields(bus1, slot1, func1, off1);
    lemma_config_address_fields(bus2, slot2, func2, off2);
}

/// Offsets 0 and 2 of a function select the same configuration dword, so
/// the vendor (low half) and device (high half) numbers come from one
/// register.
pub proof fn lemma_vendor_and_device_share_register(bus: u8, slot: u8, func: u8)
    ensures
        config_address_spec(bus, slot, func, 2) == config_address_spec(bus, slot, func, 0),
{
    assert((2u32 & 0xFCu32) == (0u32 & 0xFCu32)) by (bit_vector);
}

/// A virtio device found on the bus.
#[derive(PartialEq, Eq, Structural, Clone, Copy)]
pub struct VirtioDevice {
    pub bus: u8,
    pub slot: u8,
    pub device: u32,
}

/// Vendor number in a configuration dword read at offset 0.
pub open spec fn vendor_of(word: u32) -> u32 {
    word & 0xFFFFu32
}

/// Device number in a configuration dword read at offset 0 (or 2).
pub open spec fn device_of(word: u32) -> u32 {
    (word >> 16u32) & 0xFFFFu32
}

/// The virtio devices among the first `n` slots of bus 0, given the
/// configuration dword of each slot, in slot order.
pub open spec fn virtio_devices(words: Seq<u32>, n: int) -> Seq<VirtioDevice>
    decreases n,
{
    if n <= 0 {
        Seq::empty()
    } else {
        let prev = virtio_devices(words, n - 1);
        if vendor_of(words[n - 1]) == VIRTIO_VENDOR {
            prev.push(VirtioDevice { bus: 0, slot: (n - 1) as u8, device: device_of(words[n - 1]) })
        } else {
            prev
        }
    }
}

/// The scan of the first `n` slots lists a slot exactly when its vendor is
/// virtio, on bus 0, with the device number of its register, in increasing
/// slot order.
pub proof fn lemma_virtio_devices_complete(words: Seq<u32>, n: int)
    requires
        0 <= n <= words.len(),
        n <= 256,
    ensures
        forall|s: int|
            0 <= s < n ==> ((exists|k: int|
                0 <= k < virtio_devices(words, n).len() && #[trigger] virtio_devices(
                    words,
                    n,
                )[k].slot == s) <==> vendor_of(words[s]) == VIRTIO_VENDOR),
        forall|k: int|
            0 <= k < virtio_devices(words, n).len() ==> {
                let d = #[trigger] virtio_devices(words, n)[k];
                &&& d.slot < n
                &&& d.bus == 0
                &&& vendor_of(words[d.slot as int]) == VIRTIO_VENDOR
                &&& d.device == device_of(words[d.slot as int])
            },
        forall|i: int, j: int|
            0 <= i < j < virtio_devices(words, n).len() ==> virtio_devices(words, n)[i].slot
                < virtio_devices(words, n)[j].slot,
    decreases n,
{
    if n > 0 {
        lemma_virtio_devices_complete(words, n - 1);
        let prev = virtio_devices(words, n - 1);
        let cur = virtio_devices(words, n);
        if vendor_of(words[n - 1]) == VIRTIO_VENDOR {
            assert(cur == prev.push(
                VirtioDevice { bus: 0, slot: (n - 1) as u8, device: device_of(words[n - 1]) },
            ));
            assert forall|s: int|
                0 <= s < n implies ((exists|k: int|
                    0 <= k < cur.len() && #[trigger] cur[k].slot == s) <==> vendor_of(words[s])
                    == VIRTIO_VENDOR) by {
                if s == n - 1 {
                    assert(cur[prev.len() as int].slot == s);
                } else {
                    if exists|k: int| 0 <= k < cur.len() && #[trigger] cur[k].slot == s {
                        let k = choose|k: int| 0 <= k < cur.len() && #[trigger] cur[k].slot == s;
                        assert(k < prev.len());
                        assert(prev[k].slot == s);
                    }
                    if vendor_of(words[s]) == VIRTIO_VENDOR {
                        let k = choose|k: int| 0 <= k < prev.len() && #[trigger] prev[k].slot == s;
                        assert(cur[k].slot == s);
                    }
                }
            }
        } else {
            assert forall|s: int|
                0 <= s < n implies ((exists|k: int|
                    0 <= k < cur.len() && #[trigger] cur[k].slot == s) <==> vendor_of(words[s])
                    == VIRTIO_VENDOR) by {
                if s == n - 1 {
                    if exists|k: int| 0 <= k < cur.len() && #[trigger] cur[k].slot == s {
                        let k = choose|k: int| 0 <= k < cur.len() && #[trigger] cur[k].slot == s;
                        assert(prev[k].slot < n - 1);
                    }
                }
            }
        }
    }
}

/// Scans slots 0 to 31 of bus 0, given the configuration dword read at
/// offset 0 of function 0 of each slot, and lists the virtio devices with
/// their device numbers.
pub fn find_virtio_devices(words: &[u32]) -> (found: Vec<VirtioDevice>)
    requires
        words@.len() == PCI_SLOTS,
    ensures
        found@ == virtio_devices(words@, PCI_SLOTS as int),
        forall|s: int|
            0 <= s < PCI_SLOTS ==> ((exists|k: int|
                0 <= k < found@.len() && #[trigger] found@[k].slot == s) <==> vendor_of(words@[s])
                == VIRTIO_VENDOR),
        forall|k: int|
            0 <= k < found@.len() ==> {
                let d = #[trigger] found@[k];
                &&& d.slot < PCI_SLOTS
                &&& d.bus == 0
                &&& d.device == device_of(words@[d.slot as int])
            },
        forall|i: int, j: int| 0 <= i < j < found@.len() ==> found@[i].slot < found@[j].slot,
{
    proof {
        lemma_virtio_devices_complete(words@, PCI_SLOTS as int);
    }
    let mut found: Vec<VirtioDevice> = Vec::new();
    let mut slot: usize = 0;
    while slot < PCI_SLOTS
        invariant
            slot <= PCI_SLOTS,
            words@.len() == PCI_SLOTS,
            found@ == virtio_devices(words@, slot as int),
        decreases PCI_SLOTS - slot,
    {
        let w = words[slot];
        let vendor = w & 0xFFFFu32;
        if vendor == VIRTIO_VENDOR {
            let device = (w >> 16u32) & 0xFFFFu32;
            found.push(VirtioDevice { bus: 0, slot: slot as u8, device });
        }
        slot = slot + 1;
    }
    found
}

/// A virtqueue: the addresses of its descriptor table, available ring and
/// used ring.
pub struct VirtQueue {
    pub desc: usize,
    pub avail: usize,
    pub used: usize,
}

} // verus!
