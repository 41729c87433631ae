//! Byte synchronization: turning an unbounded, possibly corrupted byte
//! stream into a sequence of validated pages.
//!
//! The synchronizer buffers submitted bytes and repeatedly scans for the
//! capture pattern.  A complete candidate page is accepted only when its
//! checksum matches; otherwise the candidate position is treated as a
//! false match, one byte is dropped, and scanning resumes.  Dropped bytes
//! are reported to the caller as a skipped-bytes signal, after which the
//! stream is considered out of sync until the next page is extracted.

use vstd::prelude::*;

use crate::page::{
    Page, PageView, lace_sum, spec_crc_field, spec_page_checksum, starts_with_capture,
    compute_checksum, segment_table_sum, HEADER_SIZE_MIN, HEADER_SEGMENTS, HEADER_VERSION,
    HEADER_CHECKSUM, page_wf, spec_segs, header_wf, checksum_ok,
};

verus! {

/// Whether the capture pattern `O g g S` occurs at position `i`.
pub open spec fn capture_at(s: Seq<u8>, i: int) -> bool {
    &&& 0 <= i
    &&& i + 4 <= s.len()
    &&& s[i] == 0x4f
    &&& s[i + 1] == 0x67
    &&& s[i + 2] == 0x67
    &&& s[i + 3] == 0x53
}

/// The first position at or after `i` where the capture pattern occurs,
/// or -1 when it occurs nowhere in the buffered bytes.
pub open spec fn first_capture_from(s: Seq<u8>, i: nat) -> int
    decreases s.len() - i
        when i <= s.len()
{
    if i + 4 > s.len() {
        -1
    } else if capture_at(s, i as int) {
        i as int
    } else {
        first_capture_from(s, i + 1)
    }
}

/// Whether the buffer holds the whole header of the page candidate at
/// its front.
pub open spec fn header_have(s: Seq<u8>) -> bool {
    &&& s.len() >= 27
    &&& s.len() >= 27 + s[26]
}

/// The total byte size of the page candidate at the front of the buffer:
/// its header plus the body length declared by its segment table.
pub open spec fn spec_page_size(s: Seq<u8>) -> int {
    27 + s[26] + lace_sum(s.subrange(27, 27 + s[26]))
}

/// Whether the buffer holds the whole page candidate at its front.
pub open spec fn page_have(s: Seq<u8>) -> bool {
    &&& header_have(s)
    &&& s.len() >= spec_page_size(s)
}

/// The header bytes of the page candidate at the front of the buffer.
pub open spec fn spec_page_header(s: Seq<u8>) -> Seq<u8> {
    s.subrange(0, 27 + s[26])
}

/// The body bytes of the page candidate at the front of the buffer.
pub open spec fn spec_page_body(s: Seq<u8>) -> Seq<u8> {
    s.subrange(27 + s[26], spec_page_size(s))
}

/// Whether a complete, valid page sits at the front of the buffer:
/// capture pattern, version zero, and a matching checksum.
pub open spec fn page_good(s: Seq<u8>) -> bool {
    &&& page_have(s)
    &&& starts_with_capture(s)
    &&& s[4] == 0
    &&& spec_crc_field(spec_page_header(s)) == spec_page_checksum(
        spec_page_header(s),
        spec_page_body(s),
    )
}

/// How many bytes a scan drops from the front of the buffer: everything
/// before the first capture pattern, or, when there is none, everything
/// but a short tail that could still begin one.
pub open spec fn scan_drop(s: Seq<u8>) -> int {
    let c = first_capture_from(s, 0);
    if c >= 0 {
        c
    } else if s.len() <= 3 {
        0
    } else {
        s.len() - 3
    }
}

/// The outcome of one extraction attempt on the buffered bytes.
pub enum SyncStep {
    /// The buffered bytes may be the start of a page; wait for more.
    NeedMore,
    /// `count` bytes were dropped from the front of the buffer; the
    /// stream is out of sync.
    Skipped { count: int },
    /// A valid page of `size` bytes sits at the front of the buffer.
    PageOut { size: int },
}

/// One extraction attempt, as a function of the buffered bytes: find the
/// first capture pattern; report what precedes it as skipped; wait when
/// the candidate page is still incomplete; emit a complete page when its
/// checksum matches, and otherwise drop one byte and rescan, reporting
/// everything dropped as skipped.
pub open spec fn spec_step(s: Seq<u8>) -> SyncStep {
    let c = first_capture_from(s, 0);
    if c == -1 {
        if scan_drop(s) > 0 {
            SyncStep::Skipped { count: scan_drop(s) }
        } else {
            SyncStep::NeedMore
        }
    } else if c > 0 {
        SyncStep::Skipped { count: c }
    } else if !page_have(s) {
        SyncStep::NeedMore
    } else if page_good(s) {
        SyncStep::PageOut { size: spec_page_size(s) }
    } else {
        SyncStep::Skipped { count: 1 + scan_drop(s.skip(1)) }
    }
}

/// Repeated extraction: the pages at the front of the buffer, the bytes
/// left over, and whether the run ended with a skipped-bytes signal
/// rather than with a clean "need more data".
pub open spec fn spec_drain(s: Seq<u8>) -> (Seq<PageView>, Seq<u8>, bool)
    decreases s.len(),
{
    match spec_step(s) {
        SyncStep::NeedMore => (seq![], s, false),
        SyncStep::Skipped { count } => (seq![], s.skip(count), true),
        SyncStep::PageOut { size } => {
            if 1 <= size <= s.len() {
                let pv = PageView { header: spec_page_header(s), body: spec_page_body(s) };
                let r = spec_drain(s.skip(size));
                (seq![pv] + r.0, r.1, r.2)
            } else {
                (seq![], s, false)
            }
        },
    }
}

/// An error signalled while extracting pages from submitted bytes.
#[derive(Clone, Copy, Debug, PartialEq, Eq)]
pub enum PageWriteError {
    /// Bytes were skipped: the stream has lost and must regain sync.
    OutOfSync,
    /// An internal invariant violation was detected.
    InternalError,
    /// An extracted page failed validation.
    InvalidPage,
}

/// The mathematical state of a synchronizer: the buffered bytes not yet
/// consumed, and whether the stream is currently in sync.
pub struct SyncStateView {
    /// Bytes submitted but not yet consumed by an extracted page.
    pub buffer: Seq<u8>,
    /// Whether the last extraction attempt found a valid page at the
    /// first attempted capture position.
    pub synced: bool,
}

/// The byte synchronizer: accumulates raw bytes and extracts complete,
/// validated pages, recovering from corruption by re-scanning for the
/// capture pattern.
pub struct SyncState {
    buf: Vec<u8>,
    synced: bool,
}

/// Outcome of one executable extraction attempt.
enum StepOutcome {
    GotPage(Page),
    NeedMore,
    Skipped,
}

impl View for SyncState {
    type V = SyncStateView;

    closed spec fn view(&self) -> SyncStateView {
        SyncStateView { buffer: self.buf@, synced: self.synced }
    }
}

impl SyncState {
    /// Return an initialized synchronizer: empty buffer, in sync.
    pub fn new() -> (r: Result<SyncState, ()>)
        ensures
            match r {
                Ok(s) => s@.buffer.len() == 0 && s@.synced == true,
                Err(()) => false,
            },
    {
        Ok(SyncState { buf: Vec::new(), synced: true })
    }

    /// Discard all buffered bytes and return to the initial state.
    pub fn reset(&mut self)
        ensures
            final(self)@.buffer.len() == 0,
            final(self)@.synced == true,
    {
        self.buf = Vec::new();
        self.synced = true;
    }

    /// Whether the stream is currently in sync: false immediately after
    /// bytes had to be skipped, true once a page has been extracted.
    pub fn is_synced(&self) -> (r: bool)
        ensures
            r == self@.synced,
    {
        self.synced
    }

    /// One extraction attempt on the buffered bytes.
    fn step(&mut self) -> (r: StepOutcome)
        ensures
            ({
                let b0 = old(self)@.buffer;
                match spec_step(b0) {
                    SyncStep::NeedMore => r is NeedMore && final(self)@ == old(self)@,
                    SyncStep::Skipped { count } => {
                        &&& r is Skipped
                        &&& 1 <= count <= b0.len()
                        &&& final(self)@.buffer == b0.skip(count)
                        &&& final(self)@.synced == false
                    },
                    SyncStep::PageOut { size } => {
                        &&& 27 <= size <= b0.len()
                        &&& final(self)@.buffer == b0.skip(size)
                        &&& final(self)@.synced == true
                        &&& r matches StepOutcome::GotPage(p) && p@.header == spec_page_header(b0)
                            && p@.body == spec_page_body(b0) && p.wf() && checksum_ok(
                            p@.header,
                            p@.body,
                        )
                    },
                }
            }),
    {
        let ghost b0: Seq<u8> = self.buf@;
        let n: usize = self.buf.len();
        match find_capture(&self.buf) {
            None => {
                let keep: usize = if n <= 3 {
                    n
                } else {
                    3
                };
                let drop: usize = n - keep;
                if drop > 0 {
                    drop_front(&mut self.buf, drop);
                    self.synced = false;
                    StepOutcome::Skipped
                } else {
                    StepOutcome::NeedMore
                }
            },
            Some(c) => {
                if c > 0 {
                    proof {
                        lemma_first_capture_in_range(b0, 0);
                    }
                    drop_front(&mut self.buf, c);
                    self.synced = false;
                    return StepOutcome::Skipped;
                }
                proof {
                    assert(capture_at(b0, 0)) by {
                        assert(first_capture_from(b0, 0) == 0);
                        assert(b0.len() >= 4);
                        lemma_first_capture_in_range(b0, 1);
                    }
                }
                if n < HEADER_SIZE_MIN {
                    return StepOutcome::NeedMore;
                }
                let nsegs: usize = self.buf[HEADER_SEGMENTS] as usize;
                if n < HEADER_SIZE_MIN + nsegs {
                    return StepOutcome::NeedMore;
                }
                let body_len: usize = segment_table_sum(self.buf.as_slice(), HEADER_SIZE_MIN, nsegs);
                let header_len: usize = HEADER_SIZE_MIN + nsegs;
                let total: usize = header_len + body_len;
                proof {
                    assert(b0.subrange(27int, (27 + nsegs) as int) == b0.subrange(
                        27,
                        27 + b0[26],
                    ));
                    assert(spec_page_size(b0) == total);
                }
                if n < total {
                    return StepOutcome::NeedMore;
                }
                let header: Vec<u8> = copy_range(&self.buf, 0, header_len);
                let body: Vec<u8> = copy_range(&self.buf, header_len, total);
                let stored: u32 = vstd::bytes::u32_from_le_bytes(
                    vstd::slice::slice_subrange(
                        self.buf.as_slice(),
                        HEADER_CHECKSUM,
                        HEADER_CHECKSUM + 4,
                    ),
                );
                let crc: u32 = compute_checksum(header.as_slice(), body.as_slice());
                proof {
                    assert(header@ == spec_page_header(b0));
                    assert(body@ == spec_page_body(b0));
                    assert(header@.subrange(22, 26) =~= b0.subrange(22, 26));
                    assert(stored == spec_crc_field(spec_page_header(b0)));
                }
                if self.buf[HEADER_VERSION] == 0 && stored == crc {
                    proof {
                        assert(page_good(b0));
                        assert(spec_segs(header@) =~= b0.subrange(27, 27 + b0[26]));
                        assert(page_wf(header@, body@));
                    }
                    drop_front(&mut self.buf, total);
                    self.synced = true;
                    StepOutcome::GotPage(Page::from_parts(header, body))
                } else {
                    proof {
                        assert(!page_good(b0));
                    }
                    drop_front(&mut self.buf, 1);
                    let ghost b1: Seq<u8> = self.buf@;
                    let m: usize = self.buf.len();
                    let d2: usize = match find_capture(&self.buf) {
                        Some(j) => j,
                        None => if m <= 3 {
                            0
                        } else {
                            m - 3
                        },
                    };
                    proof {
                        assert(d2 == scan_drop(b1));
                        assert(scan_drop(b1) <= b1.len()) by {
                            lemma_first_capture_in_range(b1, 0);
                        }
                    }
                    drop_front(&mut self.buf, d2);
                    proof {
                        assert(self.buf@ =~= b0.skip(1 + d2));
                    }
                    self.synced = false;
                    StepOutcome::Skipped
                }
            },
        }
    }

    /// Append submitted bytes to the internal buffer, then extract as
    /// many complete pages as the buffered bytes allow.
    ///
    /// Returns `Ok(Some(pages))` when at least one page came out,
    /// `Ok(None)` when more data is needed, and `Err(OutOfSync)` when
    /// bytes had to be skipped before any page could be extracted in
    /// this call; extraction then resumes on the next call.  A zero
    /// length submission is a no-op apart from the extraction attempt.
    #[verifier::loop_isolation(false)]
    pub fn submit_bytes(&mut self, bytes: &[u8]) -> (r: Result<Option<Vec<Page>>, PageWriteError>)
        ensures
            ({
                let s0 = old(self)@.buffer + bytes@;
                let d = spec_drain(s0);
                &&& final(self)@.buffer == d.1
                &&& final(self)@.synced == (if d.2 {
                    false
                } else if d.0.len() > 0 {
                    true
                } else {
                    old(self)@.synced
                })
                &&& match r {
                    Ok(None) => d.0.len() == 0 && !d.2,
                    Ok(Some(pages)) => {
                        &&& d.0.len() > 0
                        &&& pages@.len() == d.0.len()
                        &&& forall|k: int|
                            0 <= k < pages@.len() ==> (#[trigger] pages@[k])@ == d.0[k]
                                && pages@[k].wf() && checksum_ok(pages@[k]@.header, pages@[k]@.body)
                    },
                    Err(e) => e == PageWriteError::OutOfSync && d.0.len() == 0 && d.2,
                }
            }),
    {
        let ghost start: Seq<u8> = self.buf@;
        let ghost synced0: bool = self.synced;
        let mut i: usize = 0;
        while i < bytes.len()
            invariant
                i <= bytes@.len(),
                self@.buffer == start + bytes@.take(i as int),
                self@.synced == synced0,
            decreases bytes@.len() - i,
        {
            proof {
                assert(start + bytes@.take(i as int + 1) =~= (start + bytes@.take(i as int)).push(
                    bytes@[i as int],
                ));
            }
            self.buf.push(bytes[i]);
            i = i + 1;
        }
        let ghost s0: Seq<u8> = start + bytes@;
        proof {
            assert(start + bytes@.take(bytes@.len() as int) =~= s0);
        }
        let ghost d = spec_drain(s0);
        proof {
            assert(d.0.skip(0) =~= d.0);
        }
        let mut pages: Vec<Page> = Vec::new();
        loop
            invariant
                d == spec_drain(s0),
                spec_drain(self@.buffer).0 == d.0.skip(pages@.len() as int),
                spec_drain(self@.buffer).1 == d.1,
                spec_drain(self@.buffer).2 == d.2,
                pages@.len() <= d.0.len(),
                forall|k: int|
                    0 <= k < pages@.len() ==> (#[trigger] pages@[k])@ == d.0[k] && pages@[k].wf()
                        && checksum_ok(pages@[k]@.header, pages@[k]@.body),
                self@.synced == (if pages@.len() > 0 {
                    true
                } else {
                    synced0
                }),
            decreases self@.buffer.len(),
        {
            let ghost b1: Seq<u8> = self@.buffer;
            match self.step() {
                StepOutcome::GotPage(p) => {
                    proof {
                        let sz = spec_step(b1)->PageOut_size;
                        let k = pages@.len() as int;
                        let pv = PageView { header: spec_page_header(b1), body: spec_page_body(b1) };
                        let tail = spec_drain(b1.skip(sz));
                        assert(self@.buffer == b1.skip(sz));
                        assert(spec_drain(b1).0 == seq![pv] + tail.0);
                        assert(p@ == pv);
                        assert(d.0.skip(k) == seq![pv] + tail.0);
                        assert(d.0.skip(k).len() > 0);
                        assert(d.0[k] == d.0.skip(k)[0]);
                        assert(d.0.skip(k)[0] == (seq![pv] + tail.0)[0]);
                        assert(d.0[k] == p@);
                        assert forall|j: int| 0 <= j < tail.0.len() implies tail.0[j] == d.0.skip(
                            k + 1,
                        )[j] by {
                            assert(tail.0[j] == (seq![pv] + tail.0)[j + 1]);
                            assert(d.0.skip(k)[j + 1] == d.0[k + j + 1]);
                        }
                        assert(tail.0 =~= d.0.skip(k + 1));
                    }
                    pages.push(p);
                },
                StepOutcome::NeedMore => {
                    proof {
                        assert(spec_step(b1) is NeedMore);
                        assert(spec_drain(b1).0 =~= Seq::<PageView>::empty());
                        assert(d.0.skip(pages@.len() as int).len() == 0);
                        assert(d.0.skip(pages@.len() as int) =~= Seq::<PageView>::empty());
                        assert(pages@.len() == d.0.len());
                        assert(spec_drain(b1).1 == b1);
                        assert(self@.buffer == b1);
                        assert(!d.2);
                    }
                    if pages.len() == 0 {
                        return Ok(None);
                    } else {
                        return Ok(Some(pages));
                    }
                },
                StepOutcome::Skipped => {
                    proof {
                        assert(spec_step(b1) is Skipped);
                        let cnt = spec_step(b1)->Skipped_count;
                        assert(spec_drain(b1).0 =~= Seq::<PageView>::empty());
                        assert(d.0.skip(pages@.len() as int) =~= Seq::<PageView>::empty());
                        assert(pages@.len() == d.0.len());
                        assert(spec_drain(b1).1 == b1.skip(cnt));
                        assert(self@.buffer == b1.skip(cnt));
                        assert(d.2);
                    }
                    if pages.len() == 0 {
                        return Err(PageWriteError::OutOfSync);
                    } else {
                        return Ok(Some(pages));
                    }
                },
            }
        }
    }
}

/// The first capture-pattern position in the buffer, scanning from the
/// front.
fn find_capture(buf: &Vec<u8>) -> (r: Option<usize>)
    ensures
        match r {
            Some(i) => first_capture_from(buf@, 0) == i,
            None => first_capture_from(buf@, 0) == -1,
        },
{
    let n: usize = buf.len();
    let mut i: usize = 0;
    while n - i >= 4
        invariant
            i <= n,
            n == buf@.len(),
            first_capture_from(buf@, 0) == first_capture_from(buf@, i as nat),
        decreases n - i,
    {
        if buf[i] == 0x4f && buf[i + 1] == 0x67 && buf[i + 2] == 0x67 && buf[i + 3] == 0x53 {
            proof {
                assert(capture_at(buf@, i as int));
                assert(first_capture_from(buf@, i as nat) == i);
            }
            return Some(i);
        }
        proof {
            assert(!capture_at(buf@, i as int));
            assert(first_capture_from(buf@, i as nat) == first_capture_from(buf@, i as nat + 1));
        }
        i = i + 1;
    }
    proof {
        assert(i as int + 4 > buf@.len());
        assert(first_capture_from(buf@, i as nat) == -1);
    }
    None
}

/// A capture position returned by the scan lies within the buffer.
pub proof fn lemma_first_capture_in_range(s: Seq<u8>, i: nat)
    requires
        i <= s.len(),
    ensures
        first_capture_from(s, i) == -1 || (i <= first_capture_from(s, i)
            && first_capture_from(s, i) + 4 <= s.len()),
    decreases s.len() - i,
{
    if i + 4 > s.len() {
    } else if capture_at(s, i as int) {
    } else {
        lemma_first_capture_in_range(s, i + 1);
    }
}

/// Drop the first `n` bytes of a vector.
fn drop_front(v: &mut Vec<u8>, n: usize)
    requires
        n <= old(v)@.len(),
    ensures
        final(v)@ == old(v)@.skip(n as int),
{
    let mut r: Vec<u8> = Vec::new();
    let mut i: usize = n;
    while i < v.len()
        invariant
            n <= i <= v@.len(),
            v@ == old(v)@,
            r@ == v@.subrange(n as int, i as int),
        decreases v@.len() - i,
    {
        proof {
            assert(v@.subrange(n as int, i as int + 1) =~= v@.subrange(n as int, i as int).push(
                v@[i as int],
            ));
        }
        r.push(v[i]);
        i = i + 1;
    }
    proof {
        assert(r@ =~= old(v)@.skip(n as int));
    }
    *v = r;
}

/// Copy the bytes of `v` in the range `a .. b`.
fn copy_range(v: &Vec<u8>, a: usize, b: usize) -> (r: Vec<u8>)
    requires
        a <= b <= v@.len(),
    ensures
        r@ == v@.subrange(a as int, b as int),
{
    vstd::slice::slice_to_vec(vstd::slice::slice_subrange(v.as_slice(), a, b))
}


/// The first capture position equals `k` when the pattern occurs at `k`
/// and nowhere between `j` and `k`.
proof fn lemma_first_capture_is(s: Seq<u8>, j: nat, k: int)
    requires
        j <= k,
        k + 4 <= s.len(),
        capture_at(s, k),
        forall|i: int| j <= i < k ==> !capture_at(s, i),
    ensures
        first_capture_from(s, j) == k,
    decreases k - j,
{
    if j < k {
        lemma_first_capture_is(s, j + 1, k);
    }
}

/// Draining a buffer that holds exactly one valid page yields that page,
/// an empty buffer, and no skipped-bytes signal.
pub proof fn lemma_drain_single_page(page: Seq<u8>)
    requires
        page_good(page),
        page.len() == spec_page_size(page),
    ensures
        spec_drain(page).0 =~= seq![
            PageView { header: spec_page_header(page), body: spec_page_body(page) },
        ],
        spec_drain(page).1 =~= Seq::<u8>::empty(),
        spec_drain(page).2 == false,
{
    assert(capture_at(page, 0));
    assert(first_capture_from(page, 0) == 0);
    assert(spec_step(page) == (SyncStep::PageOut { size: page.len() as int }));
    let rest = page.skip(page.len() as int);
    assert(rest =~= Seq::<u8>::empty());
    assert(first_capture_from(rest, 0) == -1);
    assert(scan_drop(rest) == 0);
    assert(spec_step(rest) == SyncStep::NeedMore);
    assert(spec_drain(rest) == (Seq::<PageView>::empty(), rest, false));
}

/// Synchronization recovery: a valid page preceded by garbage that holds
/// no capture pattern is extracted after exactly one skipped-bytes
/// signal.  The first extraction run drops exactly the garbage and
/// reports the skip (on a fresh synchronizer, `submit_bytes` returns the
/// out-of-sync error and `is_synced` turns false); the next run yields
/// the page and nothing else, and `is_synced` turns true.
///
/// Garbage that itself contains the capture pattern can produce further
/// skipped-bytes signals and is excluded here.
pub proof fn lemma_sync_recovery(garbage: Seq<u8>, page: Seq<u8>)
    requires
        garbage.len() > 0,
        forall|i: int| !capture_at(garbage, i),
        page_good(page),
        page.len() == spec_page_size(page),
    ensures
        spec_drain(garbage + page).0.len() == 0,
        spec_drain(garbage + page).2 == true,
        spec_drain(garbage + page).1 == page,
        spec_drain(page).0 =~= seq![
            PageView { header: spec_page_header(page), body: spec_page_body(page) },
        ],
        spec_drain(page).1 =~= Seq::<u8>::empty(),
        spec_drain(page).2 == false,
{
    let s = garbage + page;
    let n = garbage.len() as int;
    assert(s[n] == page[0]);
    assert(page[0] == 0x4f);
    assert(capture_at(s, n)) by {
        assert(s[n] == page[0] && s[n + 1] == page[1] && s[n + 2] == page[2] && s[n + 3]
            == page[3]);
    }
    assert forall|i: int| 0 <= i < n implies !capture_at(s, i) by {
        if capture_at(s, i) {
            if i + 4 <= n {
                assert(s[i] == garbage[i] && s[i + 1] == garbage[i + 1] && s[i + 2] == garbage[i
                    + 2] && s[i + 3] == garbage[i + 3]);
                assert(capture_at(garbage, i));
            } else {
                assert(i + 1 == n || i + 2 == n || i + 3 == n);
                assert(s[n] == 0x4f);
                assert(false);
            }
        }
    }
    lemma_first_capture_is(s, 0, n);
    assert(spec_step(s) == (SyncStep::Skipped { count: n }));
    assert(s.skip(n) =~= page);
    lemma_drain_single_page(page);
}

/// Partial submission: any strict prefix of a valid page yields no page,
/// drops no bytes and gives no signal, so on a fresh synchronizer a
/// first `submit_bytes` call with the prefix returns no page and a
/// second call with the remainder returns exactly the one page.
pub proof fn lemma_partial_submission(page: Seq<u8>, k: int)
    requires
        page_good(page),
        page.len() == spec_page_size(page),
        0 <= k < page.len(),
    ensures
        spec_drain(page.take(k)).0.len() == 0,
        spec_drain(page.take(k)).1 == page.take(k),
        spec_drain(page.take(k)).2 == false,
        page.take(k) + page.skip(k) =~= page,
        spec_drain(page).0 =~= seq![
            PageView { header: spec_page_header(page), body: spec_page_body(page) },
        ],
        spec_drain(page).1 =~= Seq::<u8>::empty(),
        spec_drain(page).2 == false,
{
    let s = page.take(k);
    if k < 4 {
        assert(first_capture_from(s, 0) == -1);
        assert(scan_drop(s) == 0);
        assert(spec_step(s) == SyncStep::NeedMore);
    } else {
        assert(capture_at(s, 0));
        assert(first_capture_from(s, 0) == 0);
        if k < 27 {
            assert(!header_have(s));
        } else if k < 27 + s[26] {
            assert(!header_have(s));
        } else {
            assert(s.subrange(27, 27 + s[26]) =~= page.subrange(27, 27 + page[26]));
            assert(spec_page_size(s) == spec_page_size(page));
            assert(!page_have(s));
        }
        assert(spec_step(s) == SyncStep::NeedMore);
    }
    lemma_drain_single_page(page);
}

} // verus!
