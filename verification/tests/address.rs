use gpwgen::address::HexAddress;
use gpwgen::error::GpwError;

const CELL: u64 = 0x85283473fffffff;

#[test]
fn address_from_well_formed_key() {
    let cell = HexAddress::from_raw(CELL).unwrap();
    assert_eq!(cell.raw(), CELL);
    assert_eq!(cell.resolution(), 5);
}

#[test]
fn address_of_a_base_cell() {
    let cell = HexAddress::from_raw(0x8029fffffffffff).unwrap();
    assert_eq!(cell.resolution(), 0);
    assert_eq!(cell.parent(0), Some(cell));
    assert_eq!(cell.parent(1), None);
}

#[test]
fn address_at_the_finest_resolution() {
    let cell = HexAddress::from_raw(0x8f283470a72e053).unwrap();
    assert_eq!(cell.resolution(), 15);
    assert_eq!(cell.child(0), None);
    assert_eq!(cell.parent(5), Some(HexAddress::from_raw(CELL).unwrap()));
}

#[test]
fn invalid_keys_are_refused() {
    let cases: [u64; 9] = [
        0,
        u64::MAX,
        // top bit set
        0x85283473fffffff | (1 << 63),
        // mode 2
        0x115283473fffffff,
        // spare bits set
        0x85283473fffffff | (1 << 56),
        // base cell 122
        0x80f5fffffffffff,
        // a digit of 7 within the resolution
        0x85283f73fffffff,
        // a digit other than 7 beyond the resolution
        0x85283473ffffff0,
        0x85283473f0fffff,
    ];
    for raw in cases {
        assert_eq!(HexAddress::from_raw(raw), Err(GpwError::InvalidAddress(raw)), "{:x}", raw);
    }
}

#[test]
fn keys_that_the_outside_check_takes_but_are_not_in_form() {
    // hextree looks at the top bit, the mode and the base cell only
    for raw in [0x85283f73fffffffu64, 0x85283473ffffff0, 0x85283473fffffff | (1 << 56)] {
        assert!(hextree::Cell::from_raw(raw).is_ok());
        assert!(HexAddress::from_raw(raw).is_err());
    }
}

#[test]
fn parents_agree_with_the_outside_crate() {
    let raw = 0x8f283470a72e053u64;
    let cell = HexAddress::from_raw(raw).unwrap();
    let outside = hextree::Cell::from_raw(raw).unwrap();
    for r in 0..=15u8 {
        let parent = cell.parent(r).unwrap();
        assert_eq!(parent.raw(), outside.to_parent(r).unwrap().into_raw());
        assert_eq!(parent.resolution(), r);
        assert!(HexAddress::from_raw(parent.raw()).is_ok());
    }
    assert_eq!(cell.parent(16), None);
    assert_eq!(cell.resolution(), outside.res());
}

#[test]
fn parent_at_known_resolutions() {
    let cell = HexAddress::from_raw(CELL).unwrap();
    assert_eq!(cell.parent(5), Some(cell));
    assert_eq!(cell.parent(4).unwrap().raw(), 0x8428347ffffffff);
    assert_eq!(cell.parent(0).unwrap().raw(), 0x8029fffffffffff);
    assert_eq!(cell.parent(6), None);
}

#[test]
fn children_are_one_step_finer_and_lead_back() {
    let cell = HexAddress::from_raw(CELL).unwrap();
    let mut seen = Vec::new();
    for d in 0..7u8 {
        let child = cell.child(d).unwrap();
        assert_eq!(child.resolution(), 6);
        assert_eq!(child.parent(5), Some(cell));
        assert!(HexAddress::from_raw(child.raw()).is_ok());
        assert!(!seen.contains(&child.raw()));
        seen.push(child.raw());
    }
    assert_eq!(cell.child(7), None);
    assert_eq!(cell.child(255), None);
    assert_eq!(cell.child(0).unwrap().raw(), 0x862834707ffffff);
    assert_eq!(cell.child(6).unwrap().raw(), 0x862834737ffffff);
}

#[test]
fn child_of_parent_by_own_digit_is_the_cell() {
    let cell = HexAddress::from_raw(CELL).unwrap();
    // the digits of this cell are 0, 6, 4, 3, 4
    let parent = cell.parent(4).unwrap();
    assert_eq!(parent.child(4), Some(cell));
    assert_ne!(parent.child(3), Some(cell));
}
