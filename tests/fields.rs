use linux_maps_parser::digits::parse_number;
use linux_maps_parser::{
    parse_addresses, parse_device, parse_inode, parse_offset, parse_params, Error, Permissions,
};

#[test]
fn permissions_read_only() {
    let p = parse_params("r--p").unwrap();
    assert_eq!(p, Permissions { read: true, write: false, execute: false });
}

#[test]
fn permissions_all_set() {
    let p = parse_params("rwxp").unwrap();
    assert_eq!(p, Permissions { read: true, write: true, execute: true });
}

#[test]
fn permissions_three_letters_and_others() {
    assert_eq!(
        parse_params("-w-").unwrap(),
        Permissions { read: false, write: true, execute: false }
    );
    assert_eq!(
        parse_params("xwr").unwrap(),
        Permissions { read: false, write: true, execute: false }
    );
}

#[test]
fn permissions_too_short() {
    assert!(matches!(parse_params("rw"), Err(Error::FormatError)));
    assert!(matches!(parse_params(""), Err(Error::FormatError)));
}

#[test]
fn addresses_decode() {
    let (s, e) = parse_addresses("7f2c3b000000-7f2c3b021000").unwrap();
    assert_eq!(s, 0x7f2c3b000000);
    assert_eq!(e, 0x7f2c3b021000);
}

#[test]
fn addresses_upper_case_and_extremes() {
    assert_eq!(parse_addresses("7F-80").unwrap(), (0x7f, 0x80));
    assert_eq!(
        parse_addresses("0-ffffffffffffffff").unwrap(),
        (0, u64::MAX)
    );
}

#[test]
fn addresses_not_hexadecimal() {
    assert!(matches!(parse_addresses("zz-zz"), Err(Error::FormatError)));
    assert!(matches!(parse_addresses("10-1g"), Err(Error::FormatError)));
}

#[test]
fn addresses_wrong_piece_count() {
    assert!(matches!(parse_addresses("1000"), Err(Error::FormatError)));
    assert!(matches!(parse_addresses("1-2-3"), Err(Error::FormatError)));
    assert!(matches!(parse_addresses("-"), Err(Error::FormatError)));
}

#[test]
fn addresses_too_large() {
    assert!(matches!(
        parse_addresses("0-10000000000000000"),
        Err(Error::FormatError)
    ));
}

#[test]
fn offset_decode() {
    assert_eq!(parse_offset("00000000").unwrap(), 0);
    assert_eq!(parse_offset("0001c000").unwrap(), 0x1c000);
    assert_eq!(parse_offset("ffffffffffffffff").unwrap(), u64::MAX);
}

#[test]
fn offset_errors() {
    assert!(matches!(parse_offset("xyz"), Err(Error::IntParseError)));
    assert!(matches!(parse_offset(""), Err(Error::IntParseError)));
    assert!(matches!(
        parse_offset("10000000000000000"),
        Err(Error::IntParseError)
    ));
}

#[test]
fn device_decode() {
    assert_eq!(parse_device("08:01").unwrap(), (8, 1));
    assert_eq!(parse_device("fd:1a").unwrap(), (0xfd, 0x1a));
    assert_eq!(parse_device("00:00").unwrap(), (0, 0));
}

#[test]
fn device_errors() {
    assert!(matches!(parse_device("0801"), Err(Error::FormatError)));
    assert!(matches!(parse_device("08:01:02"), Err(Error::FormatError)));
    assert!(matches!(parse_device("08:zz"), Err(Error::IntParseError)));
    assert!(matches!(parse_device("100000000:0"), Err(Error::IntParseError)));
}

#[test]
fn inode_decode() {
    assert_eq!(parse_inode("131099").unwrap(), 131099);
    assert_eq!(parse_inode("0").unwrap(), 0);
    assert_eq!(parse_inode("4294967295").unwrap(), u32::MAX);
}

#[test]
fn inode_errors() {
    assert!(matches!(parse_inode("4294967296"), Err(Error::IntParseError)));
    assert!(matches!(parse_inode("1a"), Err(Error::IntParseError)));
    assert!(matches!(parse_inode("-1"), Err(Error::IntParseError)));
}

#[test]
fn number_sign_and_base() {
    assert_eq!(parse_number("+1f", 16, u64::MAX), Some(0x1f));
    assert_eq!(parse_number("+", 16, u64::MAX), None);
    assert_eq!(parse_number("19", 10, u64::MAX), Some(19));
    assert_eq!(parse_number("1f", 10, u64::MAX), None);
    assert_eq!(parse_number("256", 10, 255), None);
    assert_eq!(parse_number("255", 10, 255), Some(255));
}
