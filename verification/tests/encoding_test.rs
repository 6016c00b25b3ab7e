use nexo_core::decoding::{expect_byte, expect_bytes, expect_key};
use nexo_core::digest::{append_bytes, hash_two};
use nexo_core::encoding::{
    decimal_bytes, push_decimal, push_escaped_byte, push_item, push_member, push_quoted,
    push_signed_decimal, push_text, quoted_bytes, signed_decimal_bytes,
};
use nexo_core::merkle::copy_bytes;
use nexo_core::sth::Policy;
use sha2::{Digest, Sha256};

fn text(build: impl FnOnce(&mut Vec<u8>)) -> String {
    let mut out = b"<".to_vec();
    build(&mut out);
    String::from_utf8(out).unwrap()
}

#[test]
fn numbers_in_decimal() {
    assert_eq!(text(|o| push_decimal(o, 0)), "<0");
    assert_eq!(text(|o| push_decimal(o, 7)), "<7");
    assert_eq!(text(|o| push_decimal(o, 10)), "<10");
    assert_eq!(text(|o| push_decimal(o, 1234567890)), "<1234567890");
    assert_eq!(text(|o| push_decimal(o, u64::MAX)), "<18446744073709551615");
    assert_eq!(text(|o| push_signed_decimal(o, 0)), "<0");
    assert_eq!(text(|o| push_signed_decimal(o, -1)), "<-1");
    assert_eq!(text(|o| push_signed_decimal(o, 42)), "<42");
    assert_eq!(text(|o| push_signed_decimal(o, i64::MAX)), "<9223372036854775807");
    assert_eq!(text(|o| push_signed_decimal(o, i64::MIN)), "<-9223372036854775808");
    assert_eq!(decimal_bytes(305), b"305".to_vec());
    assert_eq!(signed_decimal_bytes(-305), b"-305".to_vec());
}

#[test]
fn strings_quoted_and_escaped() {
    assert_eq!(text(|o| push_quoted(o, b"")), "<\"\"");
    assert_eq!(text(|o| push_quoted(o, b"plain")), "<\"plain\"");
    assert_eq!(text(|o| push_quoted(o, b"a\"b\\c")), "<\"a\\\"b\\\\c\"");
    assert_eq!(
        text(|o| push_quoted(o, b"\x08\x09\x0a\x0c\x0d")),
        "<\"\\b\\t\\n\\f\\r\""
    );
    assert_eq!(
        text(|o| push_quoted(o, b"\x00\x01\x0b\x0e\x1f \x7f")),
        "<\"\\u0000\\u0001\\u000b\\u000e\\u001f \x7f\""
    );
    assert_eq!(text(|o| push_escaped_byte(o, b'/')), "</");
    assert_eq!(text(|o| push_escaped_byte(o, 0x1a)), "<\\u001a");
    assert_eq!(quoted_bytes("é\"").as_slice(), "\"é\\\"\"".as_bytes());
}

#[test]
fn members_and_items() {
    assert_eq!(text(|o| push_text(o, "fixed")), "<fixed");
    assert_eq!(text(|o| push_member(o, true, "k", b"1")), "<\"k\":1");
    assert_eq!(text(|o| push_member(o, false, "k", b"1")), "<,\"k\":1");
    assert_eq!(text(|o| push_item(o, true, b"x")), "<x");
    assert_eq!(text(|o| push_item(o, false, b"x")), "<,x");
    assert_eq!(text(|o| append_bytes(o, b"tail")), "<tail");
    assert_eq!(copy_bytes(b"copy"), b"copy".to_vec());
}

#[test]
fn literal_readers() {
    assert_eq!(expect_byte(b"abc", 1, b'b'), Some(2));
    assert_eq!(expect_byte(b"abc", 1, b'c'), None);
    assert_eq!(expect_byte(b"abc", 3, b'c'), None);
    assert_eq!(expect_bytes(b"abcdef", 2, b"cde"), Some(5));
    assert_eq!(expect_bytes(b"abcdef", 2, b"cdf"), None);
    assert_eq!(expect_bytes(b"abcdef", 4, b"efg"), None);
    assert_eq!(expect_bytes(b"abcdef", 6, b""), Some(6));
    assert_eq!(expect_bytes(b"abcdef", 7, b""), None);
    assert_eq!(expect_key(b"{\"root\":1}", 1, "root"), Some(8));
    assert_eq!(expect_key(b"{\"root\":1}", 1, "roof"), None);
    assert_eq!(expect_key(b"{\"root\" :1}", 1, "root"), None);
    assert_eq!(expect_key(b"{\"root", 1, "root"), None);
}

#[test]
fn digest_of_two_parts() {
    assert_eq!(hash_two(b"ab", b"cd"), Sha256::digest(b"abcd").to_vec());
    assert_eq!(hash_two(b"", b""), Sha256::digest(b"").to_vec());
    assert_ne!(hash_two(b"ab", b"cd"), hash_two(b"cd", b"ab"));
}

#[test]
fn policies() {
    assert_eq!(Policy::new(2, 3), Some(Policy { t: 2, n: 3 }));
    assert_eq!(Policy::new(3, 3), Some(Policy { t: 3, n: 3 }));
    assert_eq!(Policy::new(0, 3), None);
    assert_eq!(Policy::new(4, 3), None);
    assert!(Policy { t: 2, n: 3 }.is_majority());
    assert!(!Policy { t: 1, n: 2 }.is_majority());
    assert!(Policy { t: 200, n: 255 }.is_majority());
    assert_eq!(Policy { t: 2, n: 3 }.encode(), b"{\"t\":2,\"n\":3}".to_vec());
}
