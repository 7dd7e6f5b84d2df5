use kernel::address::VirtAddress;

#[test]
fn canonicalize_sign_extends_bit_47() {
    assert_eq!(VirtAddress(0x0000_8000_0000_0000).canonicalize(), VirtAddress(0xFFFF_8000_0000_0000));
    assert_eq!(VirtAddress(0x0000_7FFF_FFFF_F000).canonicalize(), VirtAddress(0x0000_7FFF_FFFF_F000));
    assert_eq!(VirtAddress(0x1234_0000_0000_1000).canonicalize(), VirtAddress(0x0000_0000_0000_1000));
    assert_eq!(VirtAddress(0xFFFF_7FFF_FFFF_FFFF).canonicalize(), VirtAddress(0x0000_7FFF_FFFF_FFFF));
}

#[test]
fn canonicalize_twice_is_once() {
    for x in [0usize, 0x0000_8000_0000_1234, 0xABCD_EF01_2345_6789, usize::MAX] {
        let once = VirtAddress(x).canonicalize();
        assert_eq!(once.canonicalize(), once);
    }
}

#[test]
fn canonicalize_in_place_matches() {
    let mut a = VirtAddress(0x0000_9000_0000_0000);
    a.canonicalize_in_place();
    assert_eq!(a, VirtAddress(0xFFFF_9000_0000_0000));
}

#[test]
fn indices_of_addresses() {
    assert_eq!(VirtAddress(0x0000_7FFF_FFFF_F000).indices(), [255, 511, 511, 511]);
    assert_eq!(VirtAddress(0x0000_0000_0040_3000).indices(), [0, 0, 2, 3]);
    assert_eq!(VirtAddress(0xFFFF_8000_0000_0000).indices(), [256, 0, 0, 0]);
}

#[test]
fn indices_rebuild_low_bits() {
    let x: usize = 0x0000_1234_5678_9ABC;
    let i = VirtAddress(x).indices();
    let rebuilt = (i[0] << 39) | (i[1] << 30) | (i[2] << 21) | (i[3] << 12) | (x & 0xFFF);
    assert_eq!(rebuilt, x);
    // The canonical form keeps the indices.
    assert_eq!(VirtAddress(0x0000_9234_5678_9ABC).canonicalize().indices(), VirtAddress(0x0000_9234_5678_9ABC).indices());
}
