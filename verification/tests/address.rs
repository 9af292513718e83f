use seqpool::address::{addr_of_slot, index_of_addr, layout_of_slots, stride_of_slots};

#[test]
fn addresses_of_slots() {
    assert_eq!(addr_of_slot(4096, 24, 0), 4096);
    assert_eq!(addr_of_slot(4096, 24, 5), 4216);
}

#[test]
fn indices_of_addresses() {
    for index in 0..10u32 {
        assert_eq!(index_of_addr(4096, 24, addr_of_slot(4096, 24, index)), index as usize);
    }
    // Inside a slot is that slot.
    assert_eq!(index_of_addr(4096, 24, 4119), 0);
    assert_eq!(index_of_addr(4096, 24, 4120), 1);
}

#[test]
fn strides() {
    assert_eq!(stride_of_slots::<u64>(), 8);
    assert_eq!(stride_of_slots::<[u8; 1500]>(), 1500);
    // Slots without size stand an alignment apart.
    assert_eq!(stride_of_slots::<()>(), 1);
    assert_eq!(stride_of_slots::<[u64; 0]>(), 8);
}

#[test]
fn neighbours_do_not_overlap() {
    for index in 0..10u32 {
        let end = addr_of_slot(64, 12, index) + 12;
        assert!(end <= addr_of_slot(64, 12, index + 1));
        assert_eq!(addr_of_slot(64, 12, index) % 4, 0);
    }
}

#[test]
fn layouts() {
    assert_eq!(layout_of_slots::<u64>(3), Some((24, 8)));
    assert_eq!(layout_of_slots::<[u8; 1500]>(16), Some((24000, 1)));
    assert_eq!(layout_of_slots::<()>(u32::MAX), Some((0, 1)));
    // The largest that fits, and one slot more.
    assert_eq!(
        layout_of_slots::<[u8; 1 << 32]>((1 << 31) - 1),
        Some((0x7fff_ffff_0000_0000, 1)),
    );
    assert_eq!(layout_of_slots::<[u8; 1 << 32]>(1 << 31), None);
    // More than an address can hold.
    assert_eq!(layout_of_slots::<[u64; 1 << 40]>(u32::MAX), None);
}
