use base_index::bytes::{append, bytes_equal, bytes_less, common_prefix_len, has_prefix};
use base_index::big_endian::{read_u64, write_u64};
use base_index::{StorageKey, StorageValue};

#[test]
fn common_prefix_len_counts_agreeing_bytes() {
    assert_eq!(common_prefix_len(b"", b""), 0);
    assert_eq!(common_prefix_len(b"abc", b""), 0);
    assert_eq!(common_prefix_len(b"abc", b"abd"), 2);
    assert_eq!(common_prefix_len(b"abc", b"abc"), 3);
    assert_eq!(common_prefix_len(b"abc", b"abcd"), 3);
    assert_eq!(common_prefix_len(b"xbc", b"abc"), 0);
}

#[test]
fn bytes_less_is_lexicographic() {
    assert!(bytes_less(b"", b"a"));
    assert!(!bytes_less(b"", b""));
    assert!(!bytes_less(b"a", b""));
    assert!(bytes_less(b"a", b"b"));
    assert!(!bytes_less(b"b", b"a"));
    assert!(bytes_less(b"a", b"aa"));
    assert!(!bytes_less(b"aa", b"a"));
    assert!(bytes_less(b"ab", b"b"));
    assert!(bytes_less(&[1u8, 255u8], &[2u8]));
    assert!(bytes_less(&[0u8], &[0u8, 0u8]));
    assert!(!bytes_less(b"same", b"same"));
    assert!(bytes_less(&[127u8], &[128u8]));
}

#[test]
fn bytes_equal_compares_whole_strings() {
    assert!(bytes_equal(b"", b""));
    assert!(bytes_equal(b"abc", b"abc"));
    assert!(!bytes_equal(b"abc", b"ab"));
    assert!(!bytes_equal(b"ab", b"abc"));
    assert!(!bytes_equal(b"abc", b"abd"));
}

#[test]
fn has_prefix_tests_the_beginning() {
    assert!(has_prefix(b"users:1", b"users:"));
    assert!(has_prefix(b"users:", b"users:"));
    assert!(has_prefix(b"anything", b""));
    assert!(has_prefix(b"", b""));
    assert!(!has_prefix(b"user", b"users:"));
    assert!(!has_prefix(b"posts:1", b"users:"));
    assert!(!has_prefix(b"", b"a"));
}

#[test]
fn write_u64_writes_most_significant_byte_first() {
    let mut buffer = vec![9u8];
    write_u64(&mut buffer, 0x0102030405060708);
    assert_eq!(buffer, vec![9, 1, 2, 3, 4, 5, 6, 7, 8]);
    let mut zero = Vec::new();
    write_u64(&mut zero, 0);
    assert_eq!(zero, vec![0u8; 8]);
    let mut max = Vec::new();
    write_u64(&mut max, u64::MAX);
    assert_eq!(max, vec![255u8; 8]);
    let mut small = Vec::new();
    write_u64(&mut small, 258);
    assert_eq!(small, vec![0, 0, 0, 0, 0, 0, 1, 2]);
}

#[test]
fn read_u64_wants_eight_bytes() {
    assert_eq!(read_u64(&[0, 0, 0, 0, 0, 0, 1, 2]), Some(258));
    assert_eq!(read_u64(&[1, 2, 3, 4, 5, 6, 7, 8]), Some(0x0102030405060708));
    assert_eq!(read_u64(&[0; 8]), Some(0));
    assert_eq!(read_u64(&[255; 8]), Some(u64::MAX));
    assert_eq!(read_u64(&[0; 7]), None);
    assert_eq!(read_u64(&[0; 9]), None);
    assert_eq!(read_u64(&[]), None);
}

#[test]
fn append_adds_at_the_end() {
    let mut buffer = vec![1u8, 2u8];
    append(&mut buffer, &[3u8, 4u8]);
    assert_eq!(buffer, vec![1, 2, 3, 4]);
    append(&mut buffer, &[]);
    assert_eq!(buffer, vec![1, 2, 3, 4]);
}

#[test]
fn u64_key_is_eight_bytes_big_endian() {
    let mut buffer = Vec::new();
    258u64.write(&mut buffer);
    assert_eq!(buffer, vec![0, 0, 0, 0, 0, 0, 1, 2]);
    assert_eq!(<u64 as StorageKey>::read(&buffer), Some(258u64));
    assert_eq!(<u64 as StorageKey>::read(&buffer[1..]), None);
    assert_eq!(<u64 as StorageKey>::read(&[0u8; 9]), None);
    assert_eq!(<u64 as StorageKey>::read(&[]), None);
}

#[test]
fn u64_keys_sort_as_numbers() {
    let numbers: [u64; 7] = [0, 1, 255, 256, 65535, 1 << 40, u64::MAX];
    for a in numbers.iter() {
        for b in numbers.iter() {
            let mut ea = Vec::new();
            let mut eb = Vec::new();
            a.write(&mut ea);
            b.write(&mut eb);
            assert_eq!(bytes_less(&ea, &eb), a < b);
            assert_eq!(bytes_equal(&ea, &eb), a == b);
        }
    }
}

#[test]
fn u64_value_round_trip() {
    for v in [0u64, 1, 255, 256, 0xdead_beef, u64::MAX].iter() {
        let bytes = v.serialize();
        assert_eq!(bytes.len(), 8);
        assert_eq!(<u64 as StorageValue>::from_slice(&bytes), Some(*v));
        assert_eq!(<u64 as StorageValue>::from_vec(bytes), Some(*v));
    }
    assert_eq!(0x0a0b0c0d_u64.serialize(), vec![0, 0, 0, 0, 0x0a, 0x0b, 0x0c, 0x0d]);
    assert_eq!(<u64 as StorageValue>::from_slice(&[1, 2, 3]), None);
    assert_eq!(<u64 as StorageValue>::from_vec(vec![0; 7]), None);
}

#[test]
fn byte_string_codec_is_the_identity() {
    let mut buffer = vec![1u8];
    vec![2u8, 3u8].write(&mut buffer);
    assert_eq!(buffer, vec![1, 2, 3]);
    assert_eq!(<Vec<u8> as StorageKey>::read(&[4, 5]), Some(vec![4u8, 5u8]));
    assert_eq!(<Vec<u8> as StorageKey>::read(&[]), Some(vec![]));
    assert_eq!(vec![6u8, 7u8].serialize(), vec![6u8, 7u8]);
    assert_eq!(<Vec<u8> as StorageValue>::from_slice(&[8]), Some(vec![8u8]));
    assert_eq!(<Vec<u8> as StorageValue>::from_vec(vec![9]), Some(vec![9u8]));
}

#[test]
fn string_value_is_utf8() {
    assert_eq!("aé€".to_string().serialize(), vec![0x61, 0xc3, 0xa9, 0xe2, 0x82, 0xac]);
    assert_eq!(String::new().serialize(), Vec::<u8>::new());
    assert_eq!(
        <String as StorageValue>::from_slice(&[0x61, 0xc3, 0xa9, 0xe2, 0x82, 0xac]),
        Some("aé€".to_string())
    );
    assert_eq!(<String as StorageValue>::from_vec(b"abc".to_vec()), Some("abc".to_string()));
    assert_eq!(<String as StorageValue>::from_vec(Vec::new()), Some(String::new()));
}

#[test]
fn string_value_rejects_invalid_utf8() {
    // a lone continuation byte, a truncated sequence, an overlong form, a surrogate
    assert_eq!(<String as StorageValue>::from_slice(&[0x80]), None);
    assert_eq!(<String as StorageValue>::from_slice(&[0xe2, 0x82]), None);
    assert_eq!(<String as StorageValue>::from_slice(&[0xc0, 0xaf]), None);
    assert_eq!(<String as StorageValue>::from_vec(vec![0xed, 0xa0, 0x80]), None);
    assert_eq!(<String as StorageValue>::from_vec(vec![0x61, 0xff]), None);
}
