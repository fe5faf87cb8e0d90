use stp_core::nibble::swap_nibbles;

#[test]
fn test_swap_nibbles() {
    assert_eq!(0x1, swap_nibbles(0x1, 1));
    assert_eq!(0x21, swap_nibbles(0x12, 2));
    assert_eq!(0x210, swap_nibbles(0x012, 3));
    assert_eq!(0x21F, swap_nibbles(0xFFFF12, 3));
    assert_eq!(0xfedcba98765432, swap_nibbles(0x0123456789abcdef, 14));
    assert_eq!(0xfedcba987654321, swap_nibbles(0x0123456789abcdef, 15));
    assert_eq!(0xfedcba9876543210, swap_nibbles(0x0123456789abcdef, 16));
}
