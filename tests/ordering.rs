use helix_stores::order::compare_bytes;
use std::cmp::Ordering;

#[test]
fn byte_order_is_lexicographic() {
    assert_eq!(compare_bytes(b"", b""), Ordering::Equal);
    assert_eq!(compare_bytes(b"", b"a"), Ordering::Less);
    assert_eq!(compare_bytes(b"ab", b"a"), Ordering::Greater);
    assert_eq!(compare_bytes(b"ab", b"b"), Ordering::Less);
    assert_eq!(compare_bytes(&[0xff], &[0x00, 0x00]), Ordering::Greater);
    assert_eq!(compare_bytes(b"same", b"same"), Ordering::Equal);
}
