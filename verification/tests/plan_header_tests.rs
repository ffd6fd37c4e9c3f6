use morsel_sink::plan_header::parse_version_header;
use morsel_sink::plan_header::version_header;
use morsel_sink::plan_header::PlanHeaderError;
use morsel_sink::plan_header::PLAN_VERSION_MAJOR;
use morsel_sink::plan_header::PLAN_VERSION_MINOR;

#[test]
fn header_layout_is_magic_then_little_endian_versions() {
    let h = version_header(0x0102, 0x0304);
    let mut expected: Vec<u8> = b"DSL_VERSION".to_vec();
    expected.extend_from_slice(&[0x02, 0x01, 0x04, 0x03]);
    assert_eq!(h, expected);
    assert_eq!(h.len(), 15);
}

#[test]
fn parse_rejects_short_input() {
    let h = version_header(1, 2);
    assert_eq!(parse_version_header(&h[..14]), Err(PlanHeaderError::TooShort));
    assert_eq!(parse_version_header(&[]), Err(PlanHeaderError::TooShort));
}

#[test]
fn parse_rejects_wrong_magic() {
    let mut h = version_header(1, 2);
    h[0] = b'X';
    assert_eq!(parse_version_header(&h), Err(PlanHeaderError::BadMagic));
}

#[test]
fn parse_reads_versions_big_endian() {
    // the header stores versions little-endian but they are read back
    // big-endian, as the surrounding engine does: the values only feed
    // compatibility reports
    let h = version_header(PLAN_VERSION_MAJOR, PLAN_VERSION_MINOR);
    let (major, minor) = parse_version_header(&h).unwrap();
    assert_eq!(major, PLAN_VERSION_MAJOR.swap_bytes());
    assert_eq!(minor, PLAN_VERSION_MINOR.swap_bytes());
    assert_eq!((major, minor), (0, 256));
}

#[test]
fn parse_accepts_trailing_payload() {
    let mut h = version_header(0, 0);
    h.extend_from_slice(b"payload");
    assert!(parse_version_header(&h).is_ok());
}
