use strung::config::OffsetFormat;
use strung::format::{format_context, format_offset, origin_name};
use strung::style::Origin;

#[test]
fn offsets_are_right_aligned() {
    assert_eq!(format_offset(255, OffsetFormat::Hex), "      ff ");
    assert_eq!(format_offset(255, OffsetFormat::Decimal), "     255 ");
    assert_eq!(format_offset(0, OffsetFormat::Decimal), "       0 ");
    assert_eq!(format_offset(0x1234_5678_9a, OffsetFormat::Hex), "123456789a ");
    for n in [0u64, 7, 10, 99, 1000, 123456789, u64::MAX] {
        assert_eq!(format_offset(n, OffsetFormat::Decimal), format!("{:8} ", n));
        assert_eq!(format_offset(n, OffsetFormat::Hex), format!("{:8x} ", n));
    }
}

#[test]
fn context_in_hex() {
    assert_eq!(format_context(&vec![0x00, 0xab], &vec![0x7f]), "[00ab]...[7f] ");
    assert_eq!(format_context(&vec![], &vec![]), "[]...[] ");
}

#[test]
fn origin_names() {
    assert_eq!(origin_name(Origin::Raw), "raw");
    assert_eq!(origin_name(Origin::Base64), "base64");
    assert_eq!(origin_name(Origin::Xor(0x0f)), "xor:0x0f");
    assert_eq!(origin_name(Origin::Xor(0xa0)), "xor:0xa0");
}
