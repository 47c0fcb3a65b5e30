use fst::keys::{compare_keys, KeyOrder};

#[test]
fn compare_keys_orders_bytes() {
    assert_eq!(compare_keys(b"abc", b"abd"), KeyOrder::Less);
    assert_eq!(compare_keys(b"abd", b"abc"), KeyOrder::Greater);
    assert_eq!(compare_keys(b"abc", b"abc"), KeyOrder::Equal);
}

#[test]
fn compare_keys_puts_prefix_first() {
    assert_eq!(compare_keys(b"ab", b"abc"), KeyOrder::Less);
    assert_eq!(compare_keys(b"abc", b"ab"), KeyOrder::Greater);
    assert_eq!(compare_keys(b"", b"a"), KeyOrder::Less);
    assert_eq!(compare_keys(b"", b""), KeyOrder::Equal);
}

#[test]
fn compare_keys_is_by_byte_value() {
    assert_eq!(compare_keys(&[0xff], &[0x00, 0x00]), KeyOrder::Greater);
    assert_eq!(compare_keys(b"B", b"a"), KeyOrder::Less);
}

