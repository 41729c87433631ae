use ogg_xiph::page::{build_page, Page};
use ogg_xiph::sync_state::{PageWriteError, SyncState};

fn page_bytes(page: &Page) -> Vec<u8> {
    let mut bytes = page.header().to_vec();
    bytes.extend_from_slice(page.data());
    bytes
}

fn sample_page() -> Page {
    build_page(0x02, 42, 7, 0, vec![5u8], vec![11, 22, 33, 44, 55])
}

/// Initialize the sync state.
#[test]
fn init_sync_state() {
    let sync_state = SyncState::new();

    if sync_state.is_err() {
        panic!("initializing sync state failed!")
    }
}

#[test]
fn extracts_single_page() {
    let page = sample_page();
    let mut sync = SyncState::new().unwrap();
    assert!(sync.is_synced());
    let pages = sync.submit_bytes(&page_bytes(&page)).unwrap().expect("one page");
    assert_eq!(pages.len(), 1);
    assert_eq!(pages[0].header(), page.header());
    assert_eq!(pages[0].data(), page.data());
    assert!(sync.is_synced());
}

#[test]
fn empty_submission_is_noop() {
    let mut sync = SyncState::new().unwrap();
    assert!(matches!(sync.submit_bytes(&[]), Ok(None)));
    assert!(sync.is_synced());
}

#[test]
fn sync_recovery_after_garbage() {
    // A valid page with garbage bytes prepended: exactly one
    // skipped-bytes signal, then the page comes out.
    let page = sample_page();
    let mut bytes = vec![0x11u8; 37];
    bytes.extend_from_slice(&page_bytes(&page));
    let mut sync = SyncState::new().unwrap();
    assert!(matches!(sync.submit_bytes(&bytes), Err(PageWriteError::OutOfSync)));
    assert!(!sync.is_synced());
    let pages = sync.submit_bytes(&[]).unwrap().expect("page after resync");
    assert_eq!(pages.len(), 1);
    assert_eq!(pages[0].data(), page.data());
    assert!(sync.is_synced());
}

#[test]
fn partial_submission_two_pieces() {
    // Splitting a valid page at an arbitrary offset: no page after the
    // first piece, exactly one page after the second.
    let page = sample_page();
    let bytes = page_bytes(&page);
    for split in [1, 3, 4, 10, 26, 27, 28, bytes.len() - 1] {
        let mut sync = SyncState::new().unwrap();
        assert!(matches!(sync.submit_bytes(&bytes[..split]), Ok(None)), "split {}", split);
        let pages = sync.submit_bytes(&bytes[split..]).unwrap().expect("second piece");
        assert_eq!(pages.len(), 1, "split {}", split);
        assert_eq!(pages[0].header(), page.header());
        assert_eq!(pages[0].data(), page.data());
        assert!(sync.is_synced());
    }
}

#[test]
fn corrupted_page_is_skipped() {
    let page = sample_page();
    let mut bytes = page_bytes(&page);
    let last = bytes.len() - 1;
    bytes[last] ^= 0xFF;
    let mut sync = SyncState::new().unwrap();
    assert!(matches!(sync.submit_bytes(&bytes), Err(PageWriteError::OutOfSync)));
    assert!(!sync.is_synced());
}

#[test]
fn two_pages_in_one_submission() {
    let first = build_page(0x02, 10, 7, 0, vec![2u8], vec![1, 2]);
    let second = build_page(0x04, 20, 7, 1, vec![3u8], vec![3, 4, 5]);
    let mut bytes = page_bytes(&first);
    bytes.extend_from_slice(&page_bytes(&second));
    let mut sync = SyncState::new().unwrap();
    let pages = sync.submit_bytes(&bytes).unwrap().expect("two pages");
    assert_eq!(pages.len(), 2);
    assert_eq!(pages[0].index(), 0);
    assert_eq!(pages[1].index(), 1);
    assert!(pages[1].ends_logical_stream());
}

#[test]
fn truncated_body_is_kept_across_calls() {
    // A buffer holding a valid header but a truncated body must be
    // preserved, not discarded.
    let page = build_page(0, 0, 7, 0, vec![200u8], (0..200).map(|i| i as u8).collect());
    let bytes = page_bytes(&page);
    let mut sync = SyncState::new().unwrap();
    assert!(matches!(sync.submit_bytes(&bytes[..40]), Ok(None)));
    assert!(matches!(sync.submit_bytes(&bytes[40..100]), Ok(None)));
    let pages = sync.submit_bytes(&bytes[100..]).unwrap().expect("completed");
    assert_eq!(pages.len(), 1);
    assert_eq!(pages[0].data(), page.data());
}

#[test]
fn reset_discards_buffer() {
    let page = sample_page();
    let bytes = page_bytes(&page);
    let mut sync = SyncState::new().unwrap();
    assert!(matches!(sync.submit_bytes(&bytes[..10]), Ok(None)));
    sync.reset();
    assert!(sync.is_synced());
    // The first half is gone: the second half alone holds no capture
    // pattern at its front, so nothing comes out.
    assert!(matches!(sync.submit_bytes(&bytes[10..]), Err(PageWriteError::OutOfSync) | Ok(None)));
}
