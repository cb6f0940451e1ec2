use indolentjson::readhex::read_hexdigits;

fn read_hexdigit_4(input: &[u8], pos: usize) -> u32 {
    read_hexdigits(input[pos], input[pos + 1], input[pos + 2], input[pos + 3])
}

#[test]
fn readhex_uppercase() {
    assert_eq!(0x0123, read_hexdigit_4(b"0123", 0));
    assert_eq!(0x4567, read_hexdigit_4(b"4567", 0));
    assert_eq!(0x89AB, read_hexdigit_4(b"89AB", 0));
    assert_eq!(0xCDEF, read_hexdigit_4(b"CDEF", 0));
}

#[test]
fn readhex_lowercase() {
    assert_eq!(0x0123, read_hexdigit_4(b"0123", 0));
    assert_eq!(0x4567, read_hexdigit_4(b"4567", 0));
    assert_eq!(0x89AB, read_hexdigit_4(b"89ab", 0));
    assert_eq!(0xCDEF, read_hexdigit_4(b"cdef", 0));
}

#[test]
fn readhex_all_values_match_reference() {
    // every 16-bit value round-trips through its hex spelling, upper and
    // lower case
    let upper = b"0123456789ABCDEF";
    let lower = b"0123456789abcdef";
    for v in 0u32..=0xFFFF {
        let d0 = ((v >> 12) & 0xF) as usize;
        let d1 = ((v >> 8) & 0xF) as usize;
        let d2 = ((v >> 4) & 0xF) as usize;
        let d3 = (v & 0xF) as usize;
        assert_eq!(v, read_hexdigits(upper[d0], upper[d1], upper[d2], upper[d3]));
        assert_eq!(v, read_hexdigits(lower[d0], lower[d1], lower[d2], lower[d3]));
    }
}
