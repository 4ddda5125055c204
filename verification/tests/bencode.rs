use nargun::bencode::{read_bytes, read_text, read_text_list, read_uint, scan_value};

#[test]
fn scan_values() {
    assert_eq!(scan_value(b"i42e", 0, 10), Some(4));
    assert_eq!(scan_value(b"i-3e", 0, 10), Some(4));
    assert_eq!(scan_value(b"i-0e", 0, 10), None);
    assert_eq!(scan_value(b"i03e", 0, 10), None);
    assert_eq!(scan_value(b"4:spamXX", 0, 10), Some(6));
    assert_eq!(scan_value(b"5:spam", 0, 10), None);
    assert_eq!(scan_value(b"l4:spami1ee", 0, 10), Some(11));
    assert_eq!(scan_value(b"d1:ai1e1:bi2ee", 0, 10), Some(14));
    assert_eq!(scan_value(b"d1:bi1e1:ai2ee", 0, 10), None);
    assert_eq!(scan_value(b"d1:ai1e1:ai2ee", 0, 10), None);
    assert_eq!(scan_value(b"llleee", 0, 2), None);
    assert_eq!(scan_value(b"llleee", 0, 3), Some(6));
}

#[test]
fn read_values() {
    assert_eq!(read_uint(b"i1234e", 0), Some(1234));
    assert_eq!(read_uint(b"i-1e", 0), None);
    assert_eq!(read_uint(b"i18446744073709551616e", 0), None);
    assert_eq!(read_uint(b"i18446744073709551615e", 0), Some(u64::MAX));
    assert_eq!(read_bytes(b"3:\x00\x01\x02", 0), Some(vec![0, 1, 2]));
    assert_eq!(read_text(b"2:hi", 0), Some("hi".to_string()));
    assert_eq!(read_text(b"2:\xff\xfe", 0), None);
    assert_eq!(
        read_text_list(b"l1:a2:bce", 0, 5),
        Some(vec!["a".to_string(), "bc".to_string()])
    );
    assert_eq!(read_text_list(b"l1:ai1ee", 0, 5), None);
}
