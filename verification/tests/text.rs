use gitkview::dates::{date_to_the_minute, date_to_the_second, FIRST_SECOND, LAST_SECOND};
use gitkview::oid::{find_oid, Oid};
use gitkview::text::{chars_of, contains, decode_or_empty, ends_with, same_text, starts_with};

#[test]
fn searching() {
    let s = chars_of("größe | 12 +-");
    assert!(starts_with(&s, "grö"));
    assert!(starts_with(&s, ""));
    assert!(!starts_with(&s, "öß"));
    assert!(contains(&s, " | "));
    assert!(contains(&s, "+-"));
    assert!(contains(&s, ""));
    assert!(!contains(&s, "+-+"));
    assert!(ends_with(&s, "+-"));
    assert!(!ends_with(&s, "+"));
    assert!(!ends_with(&chars_of("in"), "Bin"));
    assert!(contains(&chars_of(""), ""));
    assert!(!contains(&chars_of(""), "a"));
}

#[test]
fn same_texts() {
    assert!(same_text("HEAD", "HEAD"));
    assert!(!same_text("HEAD", "HEADS"));
    assert!(!same_text("HEADS", "HEAD"));
    assert!(!same_text("head", "HEAD"));
    assert!(same_text("", ""));
}

#[test]
fn decoding() {
    assert_eq!(decode_or_empty("grün".as_bytes()), "grün");
    assert_eq!(decode_or_empty(b""), "");
    assert_eq!(decode_or_empty(&[b'a', 0xff]), "");
    assert_eq!(decode_or_empty(&[0xed, 0xa0, 0x80]), "");
    assert_eq!(decode_or_empty(&[0xc0, 0x80]), "");
}

#[test]
fn dates() {
    assert_eq!(date_to_the_second(0).unwrap(), "1970-01-01 00:00:00");
    assert_eq!(date_to_the_minute(0).unwrap(), "1970-01-01 00:00");
    assert_eq!(date_to_the_second(-1).unwrap(), "1969-12-31 23:59:59");
    assert_eq!(date_to_the_second(1709210096).unwrap(), "2024-02-29 12:34:56");
    assert_eq!(date_to_the_minute(1709210096).unwrap(), "2024-02-29 12:34");
}

#[test]
fn dates_end_somewhere() {
    assert_eq!(FIRST_SECOND, chrono::DateTime::<chrono::Utc>::MIN_UTC.timestamp());
    assert_eq!(LAST_SECOND, chrono::DateTime::<chrono::Utc>::MAX_UTC.timestamp());
    assert_eq!(date_to_the_second(FIRST_SECOND).unwrap(), "-262143-01-01 00:00:00");
    assert_eq!(date_to_the_second(LAST_SECOND).unwrap(), "+262142-12-31 23:59:59");
    assert!(date_to_the_second(FIRST_SECOND - 1).is_none());
    assert!(date_to_the_minute(LAST_SECOND + 1).is_none());
    assert!(date_to_the_minute(i64::MIN).is_none());
    assert!(date_to_the_minute(i64::MAX).is_none());
}

#[test]
fn text_of_an_id() {
    let mut bytes = [0u8; 20];
    bytes[0] = 0xab;
    bytes[1] = 0x09;
    bytes[19] = 0xff;
    assert_eq!(Oid { bytes }.text(), "ab090000000000000000000000000000000000ff");
}

#[test]
fn ids_differ_in_any_byte() {
    let a = Oid { bytes: [7; 20] };
    for i in 0..20 {
        let mut bytes = [7; 20];
        bytes[i] = 8;
        let b = Oid { bytes };
        assert!(a != b);
        assert_ne!(a.text(), b.text());
    }
    assert!(a == Oid { bytes: [7; 20] });
}

#[test]
fn finding_ids() {
    let ids = vec![Oid { bytes: [1; 20] }, Oid { bytes: [2; 20] }, Oid { bytes: [1; 20] }];
    assert_eq!(find_oid(&ids, Oid { bytes: [1; 20] }), Some(0));
    assert_eq!(find_oid(&ids, Oid { bytes: [2; 20] }), Some(1));
    assert_eq!(find_oid(&ids, Oid { bytes: [3; 20] }), None);
}
