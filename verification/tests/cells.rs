use conway::cell::{CellState, ALIVE_BIT, CHANGED_BIT, COUNT_MASK};

#[test]
fn packed_fields_round_trip() {
    for count in 0..=8u8 {
        for alive in [false, true] {
            for changed in [false, true] {
                let cell = CellState { count, alive, changed };
                let back = CellState::unpack(cell.pack());
                assert_eq!(back.count, count);
                assert_eq!(back.alive, alive);
                assert_eq!(back.changed, changed);
                assert_eq!(back, cell);
            }
        }
    }
}

#[test]
fn round_trip_holds_for_every_count_that_fits() {
    for count in 0..=0x1fu8 {
        let cell = CellState { count, alive: true, changed: false };
        assert_eq!(CellState::unpack(cell.pack()), cell);
    }
}

#[test]
fn bytes_round_trip_when_the_spare_bit_is_clear() {
    for byte in 0..=255u8 {
        if byte & 0x20 == 0 {
            assert_eq!(CellState::unpack(byte).pack(), byte);
        }
    }
}

#[test]
fn packed_bytes_have_the_documented_layout() {
    assert_eq!(CellState { count: 0, alive: false, changed: false }.pack(), 0x00);
    assert_eq!(CellState { count: 3, alive: true, changed: false }.pack(), 0x83);
    assert_eq!(CellState { count: 3, alive: true, changed: true }.pack(), 0xc3);
    assert_eq!(CellState { count: 8, alive: false, changed: true }.pack(), 0x48);
    assert_eq!(CellState { count: 2, alive: false, changed: false }.pack(), 0x02);
}

#[test]
fn unpacking_reads_each_field_from_its_bits() {
    let cell = CellState::unpack(0x85);
    assert_eq!(cell, CellState { count: 5, alive: true, changed: false });
    let cell = CellState::unpack(0x41);
    assert_eq!(cell, CellState { count: 1, alive: false, changed: true });
    let cell = CellState::unpack(0xff);
    assert_eq!(cell, CellState { count: 31, alive: true, changed: true });
}

#[test]
fn packing_keeps_only_the_low_five_bits_of_the_count() {
    assert_eq!(CellState { count: 0xff, alive: false, changed: false }.pack(), 0x1f);
    assert_eq!(CellState { count: 0x20, alive: true, changed: false }.pack(), 0x80);
}

#[test]
fn masks_do_not_overlap() {
    assert_eq!(COUNT_MASK, 0x1f);
    assert_eq!(ALIVE_BIT, 0x80);
    assert_eq!(CHANGED_BIT, 0x40);
    assert_eq!(COUNT_MASK & ALIVE_BIT, 0);
    assert_eq!(COUNT_MASK & CHANGED_BIT, 0);
    assert_eq!(ALIVE_BIT & CHANGED_BIT, 0);
}
