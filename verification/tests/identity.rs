use hash_ring::consistent_hashing::ConsistentHashing;
use hash_ring::hash_oracle::HashOracle;
use hash_ring::identity_hasher::{parse_decimal, IdentityHasher};
use hash_ring::transaction::Transaction;

#[test]
fn a_numeral_is_its_own_digest() {
    assert_eq!(<IdentityHasher as HashOracle>::hash("0"), 0);
    assert_eq!(<IdentityHasher as HashOracle>::hash("42"), 42);
    assert_eq!(<IdentityHasher as HashOracle>::hash("007"), 7);
    assert_eq!(<IdentityHasher as HashOracle>::hash("+15"), 15);
    assert_eq!(<IdentityHasher as HashOracle>::hash("18446744073709551615"), u64::MAX);
}

#[test]
fn numerals_are_read_as_the_language_reads_them() {
    for text in [
        "0",
        "9",
        "10",
        "+7",
        "000000000000000000000000000012",
        "18446744073709551615",
        "18446744073709551616",
        "99999999999999999999999",
        "",
        "+",
        "-",
        "-0",
        "++1",
        "1+",
        "12a",
        " 12",
        "1 2",
        "0x10",
        "\u{663}",
    ] {
        assert_eq!(parse_decimal(text.as_bytes()), text.parse::<u64>().ok(), "{:?}", text);
    }
    assert_eq!(parse_decimal(&[0xff]), None);
    assert_eq!(parse_decimal(&[b'1', 0xff]), None);
}

#[test]
fn the_hasher_keeps_the_last_numeral() {
    let mut hasher = IdentityHasher::new();
    assert_eq!(hasher.finish(), 0);
    hasher.write(b"123");
    assert_eq!(hasher.finish(), 123);
    hasher.write(&[0xff]);
    assert_eq!(hasher.finish(), 123);
    hasher.write(b"5");
    assert_eq!(hasher.finish(), 5);
    assert_eq!(IdentityHasher::default().finish(), 0);
    assert_eq!(hasher.clone().finish(), 5);
}

#[test]
fn numeral_keys_on_an_identity_ring() {
    let ring = ConsistentHashing::<IdentityHasher>::new(4);
    assert_eq!(ring.hash("77"), 77);
    assert_eq!(ring.get_node("77"), None);
}

#[test]
fn a_transaction_keeps_its_fields() {
    let t = Transaction::new("from".to_string(), "to".to_string(), 3, 9);
    assert_eq!(t.source(), "from");
    assert_eq!(t.destination(), "to");
    assert_eq!(t.begining(), 3);
    assert_eq!(t.ending(), 9);
    let copy = t.clone();
    assert_eq!(copy.source(), "from");
    assert_eq!(copy.ending(), 9);
    assert!(format!("{:?}", t).contains("from"));
}
