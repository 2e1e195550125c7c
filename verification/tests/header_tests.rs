use lib::{u8s_to_u16, JFIFUnits, JFIFVersion};

#[test]
fn u8s_to_u16_is_big_endian() {
    assert_eq!(u8s_to_u16(&[0x12, 0x34]), 0x1234);
    assert_eq!(u8s_to_u16(&[0x00, 0xff]), 0x00ff);
    assert_eq!(u8s_to_u16(&[0xff, 0x00, 0x77]), 0xff00);
}

#[test]
fn units_from_known_bytes() {
    assert_eq!(JFIFUnits::from_u8(1), Ok(JFIFUnits::NoUnits));
    assert_eq!(JFIFUnits::from_u8(2), Ok(JFIFUnits::DotsPerInch));
    assert_eq!(JFIFUnits::from_u8(3), Ok(JFIFUnits::DotsPerCm));
}

#[test]
fn units_from_unknown_bytes_default_to_no_units() {
    assert_eq!(JFIFUnits::from_u8(0), Ok(JFIFUnits::NoUnits));
    assert_eq!(JFIFUnits::from_u8(4), Ok(JFIFUnits::NoUnits));
    assert_eq!(JFIFUnits::from_u8(255), Ok(JFIFUnits::NoUnits));
}

#[test]
fn version_from_known_bytes() {
    assert_eq!(JFIFVersion::from_bytes(1, 1), Ok(JFIFVersion::V1_01));
    assert_eq!(JFIFVersion::from_bytes(1, 2), Ok(JFIFVersion::V1_02));
}

#[test]
fn version_from_unknown_bytes_is_an_error() {
    assert_eq!(
        JFIFVersion::from_bytes(2, 0),
        Err("Illegal version: (2, 0)".to_string())
    );
    assert_eq!(
        JFIFVersion::from_bytes(1, 255),
        Err("Illegal version: (1, 255)".to_string())
    );
    assert_eq!(
        JFIFVersion::from_bytes(123, 45),
        Err("Illegal version: (123, 45)".to_string())
    );
    assert_eq!(
        JFIFVersion::from_bytes(0, 10),
        Err("Illegal version: (0, 10)".to_string())
    );
}
