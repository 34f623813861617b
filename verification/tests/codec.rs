use discord_fs::decimal::{dec_parse, dec_render};
use discord_fs::meta::{decode_metadata, encode_metadata, MetaError};
use discord_fs::naming::next_candidate;

#[test]
fn render_small_numbers() {
    assert_eq!(dec_render(0), b"0".to_vec());
    assert_eq!(dec_render(7), b"7".to_vec());
    assert_eq!(dec_render(10), b"10".to_vec());
    assert_eq!(dec_render(12345), b"12345".to_vec());
}

#[test]
fn render_largest() {
    assert_eq!(dec_render(u64::MAX), b"18446744073709551615".to_vec());
}

#[test]
fn parse_inverts_render() {
    for n in [0u64, 1, 9, 10, 99, 100, 4096, u64::MAX - 1, u64::MAX] {
        assert_eq!(dec_parse(&dec_render(n)), Some(n));
    }
}

#[test]
fn parse_accepts_leading_zeros() {
    assert_eq!(dec_parse(&b"007".to_vec()), Some(7));
}

#[test]
fn parse_rejects_empty_and_non_digits() {
    assert_eq!(dec_parse(&b"".to_vec()), None);
    assert_eq!(dec_parse(&b"12a3".to_vec()), None);
    assert_eq!(dec_parse(&b"-5".to_vec()), None);
    assert_eq!(dec_parse(&b"+5".to_vec()), None);
    assert_eq!(dec_parse(&b" 5".to_vec()), None);
}

#[test]
fn parse_rejects_overflow() {
    assert_eq!(dec_parse(&b"18446744073709551616".to_vec()), None);
    assert_eq!(dec_parse(&b"99999999999999999999999".to_vec()), None);
    assert_eq!(dec_parse(&b"18446744073709551615".to_vec()), Some(u64::MAX));
}

#[test]
fn encode_tail_is_bare_filename() {
    assert_eq!(encode_metadata(&b"notes.txt".to_vec(), None), b"notes.txt".to_vec());
}

#[test]
fn encode_non_tail_appends_separator_and_id() {
    assert_eq!(
        encode_metadata(&b"notes.txt".to_vec(), Some(987654321)),
        b"notes.txt\n987654321".to_vec()
    );
}

#[test]
fn decode_tail() {
    let r = decode_metadata(&b"notes.txt".to_vec()).unwrap();
    assert_eq!(r.0, b"notes.txt".to_vec());
    assert_eq!(r.1, None);
}

#[test]
fn decode_non_tail() {
    let r = decode_metadata(&b"notes.txt\n42".to_vec()).unwrap();
    assert_eq!(r.0, b"notes.txt".to_vec());
    assert_eq!(r.1, Some(42));
}

#[test]
fn decode_splits_at_last_separator() {
    let r = decode_metadata(&b"odd\nname\n42".to_vec()).unwrap();
    assert_eq!(r.0, b"odd\nname".to_vec());
    assert_eq!(r.1, Some(42));
}

#[test]
fn decode_empty_filename() {
    let r = decode_metadata(&b"".to_vec()).unwrap();
    assert_eq!(r.0, b"".to_vec());
    assert_eq!(r.1, None);
}

#[test]
fn decode_rejects_bad_next_id() {
    assert_eq!(decode_metadata(&b"notes.txt\nxyz".to_vec()), Err(MetaError::BadNextId));
    assert_eq!(decode_metadata(&b"notes.txt\n".to_vec()), Err(MetaError::BadNextId));
    assert_eq!(
        decode_metadata(&b"notes.txt\n18446744073709551616".to_vec()),
        Err(MetaError::BadNextId)
    );
}

#[test]
fn round_trip_metadata() {
    for next in [None, Some(0u64), Some(7), Some(u64::MAX)] {
        let text = encode_metadata(&b"a file name".to_vec(), next);
        let r = decode_metadata(&text).unwrap();
        assert_eq!(r.0, b"a file name".to_vec());
        assert_eq!(r.1, next);
    }
}

#[test]
fn candidate_names_are_distinct() {
    let base = b"report.pdf".to_vec();
    let first = next_candidate(&base);
    let second = next_candidate(&first);
    assert_eq!(first, b"report.pdf_".to_vec());
    assert_eq!(second, b"report.pdf__".to_vec());
    assert_ne!(first, base);
    assert_ne!(second, base);
    assert_ne!(second, first);
}
