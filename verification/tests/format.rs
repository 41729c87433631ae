use ogg_xiph::crc::crc_of_bytes;
use ogg_xiph::packet::Packet;
use ogg_xiph::page::{build_page, compute_checksum, validate_header, InvalidPage, InvalidPageHeader, Page};
use ogg_xiph::InternalError;

fn sample_page() -> Page {
    // Two segments: a 3-byte packet and a 4-byte packet.
    let segs = vec![3u8, 4u8];
    let body = vec![1u8, 2, 3, 10, 20, 30, 40];
    build_page(0x02, 1234, 77, 0, segs, body)
}

#[test]
fn crc_known_vector() {
    // The classic nine-digit check input for the unreflected polynomial
    // 0x04C11DB7 with initial value 0 and no final inversion.
    assert_eq!(crc_of_bytes(b"123456789"), 0x89A1897F);
}

#[test]
fn crc_empty_is_zero() {
    assert_eq!(crc_of_bytes(b""), 0);
}

#[test]
fn checksum_deterministic_and_sensitive() {
    let page = sample_page();
    let c1 = compute_checksum(page.header(), page.data());
    let c2 = compute_checksum(page.header(), page.data());
    assert_eq!(c1, c2);
    assert_eq!(c1, page.crc_checksum());
    // Corrupting any single body byte changes the checksum.
    let body = page.data();
    for i in 0..body.len() {
        let mut corrupted = body.to_vec();
        corrupted[i] ^= 0x40;
        assert_ne!(compute_checksum(page.header(), &corrupted), c1);
    }
}

#[test]
fn validate_header_errors() {
    assert_eq!(validate_header(&[0x4f, 0x67, 0x67]), Err(InvalidPageHeader::TooShort));
    assert_eq!(validate_header(&[0u8; 26]), Err(InvalidPageHeader::TooShort));
    let mut h = [0u8; 27];
    assert_eq!(validate_header(&h), Err(InvalidPageHeader::NoMagicString));
    h[0] = 0x4f;
    h[1] = 0x67;
    h[2] = 0x67;
    h[3] = 0x53;
    assert_eq!(validate_header(&h), Ok(()));
    h[4] = 9;
    assert_eq!(validate_header(&h), Err(InvalidPageHeader::BadVersion(9)));
}

#[test]
fn page_accessors() {
    let page = sample_page();
    assert_eq!(page.version(), 0);
    assert_eq!(page.header_type(), 0x02);
    assert!(!page.continues_packet());
    assert!(page.begins_logical_stream());
    assert!(!page.ends_logical_stream());
    assert_eq!(page.absgp(), 1234);
    assert_eq!(page.stream_serial(), 77);
    assert_eq!(page.index(), 0);
    assert_eq!(page.header().len(), 29);
    assert_eq!(page.data(), &[1, 2, 3, 10, 20, 30, 40]);
    assert_eq!(page.finished_packets(), 2);
}

#[test]
fn page_negative_fields() {
    let page = build_page(0x05, -1, -42, 3, vec![], vec![]);
    assert_eq!(page.absgp(), -1);
    assert_eq!(page.stream_serial(), -42);
    assert_eq!(page.index(), 3);
    assert!(page.continues_packet());
    assert!(page.ends_logical_stream());
    assert!(!page.begins_logical_stream());
    assert_eq!(page.finished_packets(), 0);
}

#[test]
fn page_new_is_blank() {
    let page = Page::new();
    assert_eq!(page.version(), 0);
    assert_eq!(page.header_type(), 0);
    assert_eq!(page.absgp(), 0);
    assert_eq!(page.stream_serial(), 0);
    assert_eq!(page.index(), 0);
    assert_eq!(page.data().len(), 0);
    assert_eq!(page.header().len(), 27);
}

#[test]
fn page_try_from_roundtrip() {
    let page = sample_page();
    let header = page.header().to_vec();
    let body = page.data().to_vec();
    let rebuilt = Page::try_from(header, body).expect("valid parts");
    assert_eq!(rebuilt.header(), page.header());
    assert_eq!(rebuilt.data(), page.data());
}

#[test]
fn page_try_from_errors() {
    let page = sample_page();
    let header = page.header().to_vec();
    let body = page.data().to_vec();
    assert!(matches!(
        Page::try_from(vec![0u8; 5], vec![]),
        Err(InvalidPage::InvalidHeader(InvalidPageHeader::TooShort))
    ));
    let mut long = header.clone();
    long.push(0);
    assert!(matches!(Page::try_from(long, body.clone()), Err(InvalidPage::WrongHeaderLength)));
    assert!(matches!(Page::try_from(header, vec![0u8; 2]), Err(InvalidPage::WrongBodyLength)));
}

#[test]
fn page_set_data_and_header() {
    let mut page = sample_page();
    assert!(matches!(page.set_data(vec![9u8; 3]), Err(InvalidPage::WrongBodyLength)));
    page.set_data(vec![9u8; 7]).expect("matching length");
    assert_eq!(page.data(), &[9u8; 7]);
    let other = build_page(0, 0, 77, 1, vec![5u8], vec![0u8; 5]);
    assert!(matches!(page.set_header(other.header().to_vec()), Err(InvalidPage::WrongBodyLength)));
    let matching = build_page(0, 5, 77, 1, vec![3u8, 4u8], vec![0u8; 7]);
    page.set_header(matching.header().to_vec()).expect("matching header");
    assert_eq!(page.absgp(), 5);
    assert_eq!(page.index(), 1);
}

#[test]
fn page_set_crc_checksum_repairs() {
    let mut page = sample_page();
    let good = page.crc_checksum();
    page.set_data(vec![8u8; 7]).expect("matching length");
    page.set_crc_checksum();
    assert_ne!(page.crc_checksum(), good);
    assert_eq!(page.crc_checksum(), compute_checksum(page.header(), page.data()));
}

#[test]
fn packet_fields() {
    let mut packet = Packet::new();
    assert_eq!(packet.data().len(), 0);
    assert!(!packet.begins_logical_stream());
    assert!(!packet.ends_logical_stream());
    assert_eq!(packet.absgp(), 0);
    assert_eq!(packet.index(), 0);
    packet.set_data(vec![1, 2, 3]);
    packet.set_begins_local_stream(true);
    packet.set_ends_local_stream(true);
    packet.set_absgp(-1);
    packet.set_index(9);
    assert_eq!(packet.data(), &[1, 2, 3]);
    assert!(packet.begins_logical_stream());
    assert!(packet.ends_logical_stream());
    assert_eq!(packet.absgp(), -1);
    assert_eq!(packet.index(), 9);
    let copy = packet.clone();
    assert_eq!(copy.data(), packet.data());
    assert_eq!(copy.index(), packet.index());
}

#[test]
fn internal_error_message() {
    let err = InternalError(String::from("page_in"));
    assert_eq!(err.message(), "an internal error occurred while running page_in");
    assert_eq!(
        InternalError::fmt_str("packet_out"),
        "an internal error occurred while running packet_out"
    );
}
