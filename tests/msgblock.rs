use crc_any::CRCu16;
use ironside::msgblock::klipper_crc;

#[test]
fn test_msgblocks() {
    let inputs = vec![
        b"123456789".to_vec(),
        b"8902haikjhgboiuabskdjbagh".to_vec(),
        b"iuh3iuahdsgji".to_vec(),
        b"23098hjasdghiajsdhf ahesd q98w3h a".to_vec(),
    ];
    for input in inputs {
        let mut crc = CRCu16::crc16mcrf4cc();
        crc.digest(&input);
        let klipper_rust = klipper_crc(&input);
        assert_eq!(crc.get_crc(), klipper_rust);
    }
}

#[test]
fn crc_check_value_and_empty_input() {
    assert_eq!(klipper_crc(b"123456789"), 0x6f91);
    assert_eq!(klipper_crc(&[]), 0xffff);
}

#[test]
fn crc_matches_reference_on_every_single_byte() {
    for b in 0u8..=255 {
        let mut crc = CRCu16::crc16mcrf4cc();
        crc.digest(&[b, b.wrapping_mul(7), 0x7e]);
        assert_eq!(crc.get_crc(), klipper_crc(&[b, b.wrapping_mul(7), 0x7e]));
    }
}

#[test]
fn crc_depends_on_order() {
    assert_ne!(klipper_crc(&[1, 2]), klipper_crc(&[2, 1]));
}
