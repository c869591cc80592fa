use chunkshare::radix::{parse_chunk_id, parse_file_hash, to_decimal, to_hex};

#[test]
fn hex_names() {
    assert_eq!(to_hex(0), "0");
    assert_eq!(to_hex(9), "9");
    assert_eq!(to_hex(10), "a");
    assert_eq!(to_hex(255), "ff");
    assert_eq!(to_hex(0x1000), "1000");
    assert_eq!(to_hex(u128::MAX), "ffffffffffffffffffffffffffffffff");
}

#[test]
fn decimal_numbers() {
    assert_eq!(to_decimal(0), "0");
    assert_eq!(to_decimal(1024), "1024");
    assert_eq!(to_decimal(u128::MAX), format!("{}", u128::MAX));
}

#[test]
fn hex_round_trip() {
    for n in [0, 1, 15, 16, 0xdead_beef, u64::MAX as u128, u128::MAX] {
        assert_eq!(to_hex(n), format!("{n:x}"));
        assert_eq!(parse_file_hash(to_hex(n).as_str()), Some(n));
    }
}

#[test]
fn hex_names_are_distinct() {
    assert_ne!(to_hex(1), to_hex(16));
    assert_ne!(to_hex(10), to_hex(160));
}

#[test]
fn names_are_read_as_std_reads_them() {
    let names = [
        "", "+", "-", "+ff", "-1", "FF", "fF", "0x1", "g", " 1", "1 ", "00ff", "++1", "é", "name",
        "ffffffffffffffff", "10000000000000000", "+ffffffffffffffff",
        "0000000000000000000ffffffffffffffff", "ffffffffffffffffffffffffffffffff",
        "100000000000000000000000000000000", "-0", "1_000",
    ];
    for name in names {
        assert_eq!(parse_chunk_id(name), u64::from_str_radix(name, 16).ok(), "{}", name);
        assert_eq!(parse_file_hash(name), u128::from_str_radix(name, 16).ok(), "{}", name);
    }
}

#[test]
fn limits_of_names() {
    assert_eq!(parse_chunk_id("ffffffffffffffff"), Some(u64::MAX));
    assert_eq!(parse_chunk_id("10000000000000000"), None);
    assert_eq!(parse_file_hash("ffffffffffffffffffffffffffffffff"), Some(u128::MAX));
    assert_eq!(parse_file_hash("100000000000000000000000000000000"), None);
}
