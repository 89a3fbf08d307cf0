use simple_png::crc::{calculate_crc, update_crc};

#[test]
fn crc_of_known_values() {
    // The CRC-32 of the four ASCII bytes "IEND" is the well-known value
    // 0xae426082 every PNG file ends with.
    assert_eq!(calculate_crc(&vec![0x49, 0x45, 0x4e, 0x44]), 0xae426082);
    assert_eq!(calculate_crc(&Vec::new()), 0);
}

#[test]
fn crc_update_composes() {
    let whole = calculate_crc(&vec![1, 2, 3, 4, 5]);
    let part = update_crc(update_crc(0xffffffff, &vec![1, 2, 3]), &vec![4, 5]) ^ 0xffffffff;
    assert_eq!(whole, part);
}

#[test]
fn crc_differs_on_single_byte_change() {
    let base = vec![10u8, 20, 30, 40, 50];
    let c0 = calculate_crc(&base);
    for i in 0..base.len() {
        for bit in 0..8 {
            let mut other = base.clone();
            other[i] ^= 1 << bit;
            assert_ne!(calculate_crc(&other), c0);
        }
    }
}
