use ogg_xiph::packet::Packet;
use ogg_xiph::page::{build_page, Page};
use ogg_xiph::stream_state::{PacketOutError, PageInError, Stream};
use ogg_xiph::sync_state::SyncState;

fn page_bytes(page: &Page) -> Vec<u8> {
    let mut bytes = page.header().to_vec();
    bytes.extend_from_slice(page.data());
    bytes
}

fn make_packet(len: usize, seed: u8, begins: bool, ends: bool, absgp: i64, index: u32) -> Packet {
    let data: Vec<u8> = (0..len).map(|i| (i as u8).wrapping_mul(31).wrapping_add(seed)).collect();
    Packet::from_parts(data, begins, ends, absgp, index)
}

#[test]
fn packet_out_before_any_page() {
    let mut stream = Stream::new(3).unwrap();
    assert_eq!(stream.packet_out().unwrap_err(), PacketOutError::NoPages);
    assert_eq!(stream.packet_peek().unwrap_err(), PacketOutError::NoPages);
}

#[test]
fn wrong_serial_is_rejected() {
    let mut stream = Stream::new(3).unwrap();
    let page = build_page(0x02, 0, 4, 0, vec![1u8], vec![9]);
    match stream.page_in(&page) {
        Err(PageInError::WrongSerial(expected, actual)) => {
            assert_eq!(expected, 3);
            assert_eq!(actual, 4);
        }
        other => panic!("expected a wrong-serial error, got {:?}", other),
    }
    // The rejected page changed nothing.
    assert_eq!(stream.packet_out().unwrap_err(), PacketOutError::NoPages);
}

#[test]
fn single_page_scenario() {
    // One page, begins_stream set, one segment of length 10: a fresh
    // assembler returns one 10-byte packet that begins the stream.
    let body: Vec<u8> = (0..10u8).collect();
    let page = build_page(0x02, 50, 9, 0, vec![10u8], body.clone());
    let mut stream = Stream::new(9).unwrap();
    stream.page_in(&page).unwrap();
    let packet = stream.packet_out().unwrap();
    assert_eq!(packet.data().len(), 10);
    assert_eq!(packet.data(), &body[..]);
    assert!(packet.begins_logical_stream());
    assert!(!packet.ends_logical_stream());
    assert_eq!(packet.absgp(), 50);
    assert_eq!(packet.index(), 0);
    assert_eq!(stream.packet_out().unwrap_err(), PacketOutError::InternalError);
}

#[test]
fn packet_peek_does_not_consume() {
    let page = build_page(0, 8, 9, 0, vec![2u8, 3u8], vec![1, 2, 3, 4, 5]);
    let mut stream = Stream::new(9).unwrap();
    stream.page_in(&page).unwrap();
    let peeked = stream.packet_peek().unwrap();
    let taken = stream.packet_out().unwrap();
    assert_eq!(peeked.data(), taken.data());
    assert_eq!(peeked.index(), taken.index());
    let second = stream.packet_out().unwrap();
    assert_eq!(second.data(), &[3, 4, 5]);
    assert_eq!(second.index(), 1);
    // The second packet ends at the page's last segment, so it carries
    // the page's granule position; the first does not.
    assert_eq!(peeked.absgp(), -1);
    assert_eq!(second.absgp(), 8);
}

#[test]
fn continued_packet_across_pages() {
    // A packet of 300 bytes: 255 bytes on the first page (lacing 255),
    // 45 on the second, which carries the continuation flag.
    let data: Vec<u8> = (0..300).map(|i| i as u8).collect();
    let first = build_page(0x02, -1, 5, 0, vec![255u8], data[..255].to_vec());
    let second = build_page(0x01, 300, 5, 1, vec![45u8], data[255..].to_vec());
    let mut stream = Stream::new(5).unwrap();
    stream.page_in(&first).unwrap();
    assert_eq!(stream.packet_out().unwrap_err(), PacketOutError::InternalError);
    stream.page_in(&second).unwrap();
    let packet = stream.packet_out().unwrap();
    assert_eq!(packet.data(), &data[..]);
    assert!(packet.begins_logical_stream());
    assert_eq!(packet.absgp(), 300);
}

#[test]
fn exact_255_tail_needs_zero_lacing() {
    // A packet of exactly 255 bytes is laced as 255 followed by an
    // explicit zero-length entry.
    let data = vec![7u8; 255];
    let mut enc = Stream::new(6).unwrap();
    enc.packet_in(&Packet::from_parts(data.clone(), false, false, 1, 0)).unwrap();
    let page = enc.page_flush().unwrap();
    assert_eq!(page.header().len(), 27 + 2);
    assert_eq!(&page.header()[27..29], &[255u8, 0u8]);
    let mut dec = Stream::new(6).unwrap();
    dec.page_in(&page).unwrap();
    assert_eq!(dec.packet_out().unwrap().data(), &data[..]);
}

#[test]
fn loss_detection_gap() {
    // Page 0 completes a packet; page 1 starts one that continues on
    // page 2.  Submitting pages 0 and 2 only: the completed packet is
    // still extracted, the broken one reports out-of-sync once, then
    // extraction resumes.
    let page0 = build_page(0x02, 1, 5, 0, vec![3u8], vec![1, 2, 3]);
    let page1 = build_page(0, -1, 5, 1, vec![255u8], vec![0u8; 255]);
    let page2 = build_page(0x01, 2, 5, 2, vec![40u8, 4u8], {
        let mut b = vec![9u8; 40];
        b.extend_from_slice(&[5, 6, 7, 8]);
        b
    });
    let mut stream = Stream::new(5).unwrap();
    stream.page_in(&page0).unwrap();
    stream.page_in(&page2).unwrap();
    let first = stream.packet_out().unwrap();
    assert_eq!(first.data(), &[1, 2, 3]);
    assert_eq!(stream.packet_out().unwrap_err(), PacketOutError::OutOfSync);
    let after = stream.packet_out().unwrap();
    assert_eq!(after.data(), &[5, 6, 7, 8]);
    assert_eq!(stream.packet_out().unwrap_err(), PacketOutError::InternalError);
    // The unbroken sequence assembles both packets.
    let mut whole = Stream::new(5).unwrap();
    whole.page_in(&page0).unwrap();
    whole.page_in(&page1).unwrap();
    whole.page_in(&page2).unwrap();
    assert_eq!(whole.packet_out().unwrap().data(), &[1, 2, 3]);
    let long = whole.packet_out().unwrap();
    assert_eq!(long.data().len(), 295);
    assert_eq!(whole.packet_out().unwrap().data(), &[5, 6, 7, 8]);
}

#[test]
fn stream_isolation_interleaved() {
    // Two logical streams interleaved on one physical byte stream,
    // routed by serial number, reassemble independently.
    let a0 = build_page(0x02, -1, 10, 0, vec![255u8], vec![1u8; 255]);
    let b0 = build_page(0x02, 7, 20, 0, vec![2u8], vec![8, 9]);
    let a1 = build_page(0x01, 11, 10, 1, vec![10u8], vec![2u8; 10]);
    let b1 = build_page(0x04, 9, 20, 1, vec![1u8], vec![5]);
    let mut bytes = Vec::new();
    for page in [&a0, &b0, &a1, &b1] {
        bytes.extend_from_slice(&page_bytes(page));
    }
    let mut sync = SyncState::new().unwrap();
    let pages = sync.submit_bytes(&bytes).unwrap().expect("four pages");
    assert_eq!(pages.len(), 4);
    let mut stream_a = Stream::new(10).unwrap();
    let mut stream_b = Stream::new(20).unwrap();
    for page in &pages {
        if page.stream_serial() == 10 {
            stream_a.page_in(page).unwrap();
        } else {
            stream_b.page_in(page).unwrap();
        }
    }
    let pa = stream_a.packet_out().unwrap();
    assert_eq!(pa.data().len(), 265);
    assert!(pa.begins_logical_stream());
    assert_eq!(pa.absgp(), 11);
    let pb0 = stream_b.packet_out().unwrap();
    assert_eq!(pb0.data(), &[8, 9]);
    let pb1 = stream_b.packet_out().unwrap();
    assert_eq!(pb1.data(), &[5]);
    assert!(pb1.ends_logical_stream());
    assert!(stream_b.end_of_stream());
    assert!(!stream_a.end_of_stream());
}

#[test]
fn encode_thresholds() {
    let mut stream = Stream::new(2).unwrap();
    stream.packet_in(&make_packet(100, 1, true, false, 10, 0)).unwrap();
    // 100 bytes queued: not enough for a routine page.
    assert_eq!(stream.page_out().unwrap_err(), PacketOutError::InternalError);
    // A flush forces it out.
    let page = stream.page_flush().unwrap();
    assert!(page.begins_logical_stream());
    assert_eq!(page.data().len(), 100);
    assert_eq!(stream.page_flush().unwrap_err(), PacketOutError::InternalError);
    // A stream-ending packet makes page_out willing immediately.
    stream.packet_in(&make_packet(5, 2, false, true, 20, 1)).unwrap();
    let last = stream.page_out().unwrap();
    assert!(last.ends_logical_stream());
    assert_eq!(last.index(), 1);
    assert!(stream.end_of_stream());
}

#[test]
fn page_out_with_max_size_splits() {
    let mut stream = Stream::new(2).unwrap();
    stream.packet_in(&make_packet(600, 3, true, true, 99, 0)).unwrap();
    // 600 bytes lace as 255, 255, 90.  A cap of 300 bytes takes one
    // 255-byte segment per page.
    let first = stream.page_out_with_max_size(300).unwrap();
    assert!(first.header().len() + first.data().len() <= 300);
    assert_eq!(first.data().len(), 255);
    assert!(!first.continues_packet());
    let second = stream.page_out_with_max_size(300).unwrap();
    assert!(second.continues_packet());
    assert_eq!(second.data().len(), 255);
    let third = stream.page_flush_with_max_size(300).unwrap();
    assert!(third.continues_packet());
    assert_eq!(third.data().len(), 90);
    assert!(third.ends_logical_stream());
    // Decoding the three pages gives back the packet.
    let mut dec = Stream::new(2).unwrap();
    dec.page_in(&first).unwrap();
    dec.page_in(&second).unwrap();
    dec.page_in(&third).unwrap();
    let packet = dec.packet_out().unwrap();
    assert_eq!(packet.data().len(), 600);
    assert_eq!(packet.absgp(), 99);
}

#[test]
fn reset_returns_to_initial_state() {
    let mut stream = Stream::new(4).unwrap();
    let page = build_page(0x02, 0, 4, 0, vec![1u8], vec![1]);
    stream.page_in(&page).unwrap();
    stream.reset().unwrap();
    assert_eq!(stream.packet_out().unwrap_err(), PacketOutError::NoPages);
    // The serial is kept: a foreign page is still rejected.
    let foreign = build_page(0, 0, 5, 0, vec![], vec![]);
    assert!(matches!(stream.page_in(&foreign), Err(PageInError::WrongSerial(4, 5))));
}

#[test]
fn roundtrip_through_pages_and_bytes() {
    // Encode packets of many lengths — empty, short, exactly 255,
    // multi-segment, longer than one page — into pages, pass the raw
    // bytes through a synchronizer in arbitrary chunks, reassemble with
    // a fresh assembler, and compare everything.
    let lengths = [10usize, 0, 255, 300, 70000, 510];
    let mut originals: Vec<Packet> = Vec::new();
    for (i, len) in lengths.iter().enumerate() {
        originals.push(make_packet(
            *len,
            i as u8,
            i == 0,
            i == lengths.len() - 1,
            (i as i64 + 1) * 1000,
            i as u32,
        ));
    }
    let mut enc = Stream::new(31).unwrap();
    let mut bytes: Vec<u8> = Vec::new();
    for packet in &originals {
        enc.packet_in(packet).unwrap();
        loop {
            match enc.page_flush() {
                Ok(page) => bytes.extend_from_slice(&page_bytes(&page)),
                Err(PacketOutError::InternalError) => break,
                Err(other) => panic!("flush failed: {:?}", other),
            }
        }
    }
    let mut sync = SyncState::new().unwrap();
    let mut pages: Vec<Page> = Vec::new();
    for chunk in bytes.chunks(1000) {
        match sync.submit_bytes(chunk) {
            Ok(Some(mut got)) => pages.append(&mut got),
            Ok(None) => {}
            Err(e) => panic!("synchronizer lost sync: {:?}", e),
        }
    }
    let mut dec = Stream::new(31).unwrap();
    for page in &pages {
        dec.page_in(page).unwrap();
    }
    let mut decoded: Vec<Packet> = Vec::new();
    loop {
        match dec.packet_out() {
            Ok(packet) => decoded.push(packet),
            Err(PacketOutError::InternalError) => break,
            Err(other) => panic!("packet_out failed: {:?}", other),
        }
    }
    assert_eq!(decoded.len(), originals.len());
    for (got, want) in decoded.iter().zip(originals.iter()) {
        assert_eq!(got.data(), want.data());
        assert_eq!(got.begins_logical_stream(), want.begins_logical_stream());
        assert_eq!(got.ends_logical_stream(), want.ends_logical_stream());
        assert_eq!(got.absgp(), want.absgp());
        assert_eq!(got.index(), want.index());
    }
    assert!(dec.end_of_stream());
}
