use rc5::Rotation;

#[test]
fn rotate_left() {
    let mut rot = Rotation(1024, 8);
    assert_eq!(rot.left(), 262144);
}

#[test]
fn rotate_right() {
    let mut rot = Rotation(1024, 8);
    assert_eq!(rot.right(), 4);
}

#[test]
fn rotation_wraps_bits_around() {
    let mut rot = Rotation(0x8000_0001, 1);
    assert_eq!(rot.left(), 0x0000_0003);
    assert_eq!(rot.right(), 0xC000_0000);
    let mut whole = Rotation(0x1234_5678, 32);
    assert_eq!(whole.left(), 0x1234_5678);
    assert_eq!(whole.right(), 0x1234_5678);
}

#[test]
fn rotation_amount_taken_modulo_width() {
    let mut a = Rotation(1024, 40);
    let mut b = Rotation(1024, 8);
    assert_eq!(a.left(), b.left());
    assert_eq!(a.right(), b.right());
}
