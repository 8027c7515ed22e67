use xmodem::checksum;

#[test]
fn crc_canonical_check_value() {
    // the canonical CRC-16/XMODEM check input
    assert_eq!(checksum(b"123456789"), 0x31C3);
}

#[test]
fn crc_empty_input_is_initial_value() {
    assert_eq!(checksum(&[]), 0x0000);
}

#[test]
fn crc_single_byte_one() {
    // 0x01 shifted through the register meets the polynomial once
    assert_eq!(checksum(&[0x01]), 0x1021);
}

#[test]
fn crc_all_zero_block() {
    // an all-zero 128-byte block keeps the register at zero
    assert_eq!(checksum(&[0u8; 128]), 0x0000);
}

#[test]
fn crc_all_ones_block() {
    assert_eq!(checksum(&[0xFFu8; 128]), 0xEDA9);
}

#[test]
fn crc_ramp_block() {
    let mut block = [0u8; 128];
    for (i, b) in block.iter_mut().enumerate() {
        *b = i as u8;
    }
    assert_eq!(checksum(&block), 0xE80A);
}

#[test]
fn crc_detects_single_bit_flips() {
    let mut block = [0u8; 128];
    for (i, b) in block.iter_mut().enumerate() {
        *b = (i as u8).wrapping_mul(31).wrapping_add(7);
    }
    let reference = checksum(&block);
    for byte in 0..128 {
        for bit in 0..8 {
            let mut corrupted = block;
            corrupted[byte] ^= 1u8 << bit;
            assert_ne!(checksum(&corrupted), reference);
        }
    }
}
