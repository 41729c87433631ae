//! Per-logical-stream packet assembly: demultiplexing pages into packets
//! (decode direction) and multiplexing packets into pages (encode
//! direction).
//!
//! Decode: pages submitted in order are cut along their segment tables
//! into packets; a packet whose lacing values run to the end of a page
//! with a 255 continues on the next page.  Sequence-number gaps that
//! break a packet in progress, and continuation pages whose predecessor
//! is missing, queue a loss marker that `packet_out` reports once as an
//! out-of-sync error before assembly resumes.
//!
//! Encode: packets are laced into pending segments; pages are emitted on
//! demand, each holding at most 255 segments, with a continuation flag
//! when a packet is split across pages.

use vstd::prelude::*;

use crate::packet::{Packet, PacketView};
use crate::page::{
    Page, PageView, build_page, lace_sum, spec_bos, spec_continued, spec_eos, spec_granule,
    spec_segs, spec_seqno, spec_serial, segment_table_sum, checksum_ok,
};
use crate::InternalError;

verus! {

/// The page sequence number that follows `n`.
pub open spec fn next_seq(n: u32) -> u32 {
    if n == u32::MAX {
        0
    } else {
        (n + 1) as u32
    }
}

/// Executable form of `next_seq`.
fn next_seq_exec(n: u32) -> (r: u32)
    ensures
        r == next_seq(n),
{
    if n == u32::MAX {
        0
    } else {
        n + 1
    }
}

/// What the tail of the pending reassembly data is.
#[derive(Clone, Copy, Debug)]
pub enum TailState {
    /// The pending data ends at a packet boundary.
    Clean,
    /// The pending data ends inside a packet that continues on the next
    /// page.
    InProgress,
    /// A packet whose start was lost is being discarded; leading
    /// continued data of the next pages is dropped until a boundary.
    Skipping,
}

/// An entry of the decode queue.
pub enum QItemView {
    /// A marker for lost data: reported once as an out-of-sync error.
    Hole,
    /// A completed packet with the metadata of the page that completed
    /// it.
    Pkt { data: Seq<u8>, granule: i64, bos: bool, eos: bool },
}

/// An entry of the decode queue: a completed packet, or a marker for
/// data lost to a sequence gap or a missing continuation.
pub enum QItem {
    /// A marker for lost data.
    Hole,
    /// A completed packet.
    Pkt { data: Vec<u8>, granule: i64, bos: bool, eos: bool },
}

impl View for QItem {
    type V = QItemView;

    closed spec fn view(&self) -> QItemView {
        match self {
            QItem::Hole => QItemView::Hole,
            QItem::Pkt { data, granule, bos, eos } => QItemView::Pkt {
                data: data@,
                granule: *granule,
                bos: *bos,
                eos: *eos,
            },
        }
    }
}

/// One pending lacing value on the encode side, with the metadata of the
/// packet it belongs to.
#[derive(Clone, Copy)]
pub struct EncSeg {
    /// The lacing value.
    pub lace: u8,
    /// The granule position of the packet this lacing value encodes.
    pub granule: i64,
    /// Whether the packet this lacing value encodes ends the stream.
    pub eos: bool,
}

// ------------------------------------------------------------------
// The decode-side transition, as functions of the mathematical state.
// ------------------------------------------------------------------

/// Cut segments and body bytes into queue items: a lacing value below
/// 255 ends a packet there; 255 continues it.  `cur_bos` says whether
/// the packet being accumulated carries the begin-of-stream mark — it
/// does when it began at the first segment of a page marking the start
/// of the stream, even when it completes pages later.  A packet gets
/// the page's granule position and end-of-stream mark only when it ends
/// at the page's last segment.  The third result is the mark of the
/// packet still in progress when the page ends.
#[verifier::opaque]
pub open spec fn spec_walk(
    segs: Seq<u8>,
    body: Seq<u8>,
    partial: Seq<u8>,
    cur_bos: bool,
    gran: i64,
    eos: bool,
) -> (Seq<QItemView>, Seq<u8>, bool)
    decreases segs.len(),
{
    if segs.len() == 0 {
        (seq![], partial, cur_bos)
    } else {
        let l = segs[0] as int;
        let np = partial + body.take(l);
        if segs[0] == 255 {
            spec_walk(segs.skip(1), body.skip(l), np, cur_bos, gran, eos)
        } else {
            let item = QItemView::Pkt {
                data: np,
                granule: if segs.len() == 1 {
                    gran
                } else {
                    -1i64
                },
                bos: cur_bos,
                eos: eos && segs.len() == 1,
            };
            let r = spec_walk(segs.skip(1), body.skip(l), seq![], false, gran, eos);
            (seq![item] + r.0, r.1, r.2)
        }
    }
}

/// How many leading segments belong to a packet being discarded: through
/// the first lacing value below 255, or all of them when none ends the
/// packet on this page.
pub open spec fn spec_skip_count(segs: Seq<u8>) -> int
    decreases segs.len(),
{
    if segs.len() == 0 {
        0
    } else if segs[0] < 255 {
        1
    } else {
        1 + spec_skip_count(segs.skip(1))
    }
}

/// The mathematical state of a packet assembler.
#[verifier::ext_equal]
pub struct StreamView {
    /// The serial number of the logical stream this assembler owns.
    pub serial: i32,
    /// Whether at least one page has been consumed.
    pub has_pages: bool,
    /// The sequence number of the last consumed page.
    pub last_seq: u32,
    /// Whether the end of the stream has been seen or emitted.
    pub eos: bool,
    /// Completed packets and loss markers awaiting extraction.
    pub queue: Seq<QItemView>,
    /// Body bytes of the packet in progress.
    pub partial: Seq<u8>,
    /// Whether the packet in progress carries the begin-of-stream mark.
    pub partial_bos: bool,
    /// What the pending data's tail is.
    pub tail: TailState,
    /// The index the next extracted packet receives.
    pub pkt_counter: u32,
    /// Pending lacing values on the encode side.
    pub esegs: Seq<EncSeg>,
    /// Pending body bytes on the encode side.
    pub ebody: Seq<u8>,
    /// The sequence number the next emitted page receives.
    pub page_counter: u32,
    /// Whether the first packet submitted for encoding began the stream.
    pub stream_bos: bool,
    /// Whether any packet was submitted for encoding.
    pub enc_started: bool,
    /// Whether the next emitted page continues a split packet.
    pub continued_out: bool,
    /// Whether a stream-ending packet is queued for encoding.
    pub eos_queued: bool,
}



/// Item views distribute over queue concatenation.
proof fn lemma_qviews_concat(a: Seq<QItem>, b: Seq<QItem>)
    ensures
        (a + b).map_values(|q: QItem| q@) == a.map_values(|q: QItem| q@) + b.map_values(
            |q: QItem| q@,
        ),
{
    assert((a + b).map_values(|q: QItem| q@) =~= a.map_values(|q: QItem| q@) + b.map_values(
        |q: QItem| q@,
    ));
}

/// The staged values computed while consuming a page assemble to the
/// one-page decode transition.
proof fn lemma_page_in_eq(
    v0: StreamView,
    h: Seq<u8>,
    b: Seq<u8>,
    queue1: Seq<QItemView>,
    partial1: Seq<u8>,
    tail1: TailState,
    k: int,
    tail2: TailState,
    cur_bos: bool,
    items: Seq<QItemView>,
    newpartial: Seq<u8>,
    newpartial_bos: bool,
    vf: StreamView,
)
    requires
        ({
            let cont = spec_continued(h);
            let gap = v0.has_pages && spec_seqno(h) != next_seq(v0.last_seq);
            let broke = (v0.tail is InProgress) && (gap || !cont);
            let orphan = (v0.tail is Clean) && cont;
            let segs = spec_segs(h);
            &&& queue1 == if broke || (orphan && v0.has_pages) {
                v0.queue.push(QItemView::Hole)
            } else {
                v0.queue
            }
            &&& partial1 == if broke {
                Seq::<u8>::empty()
            } else {
                v0.partial
            }
            &&& tail1 == if broke {
                if cont {
                    TailState::Skipping
                } else {
                    TailState::Clean
                }
            } else if orphan {
                TailState::Skipping
            } else if (v0.tail is Skipping) && !cont {
                TailState::Clean
            } else {
                v0.tail
            }
            &&& k == if tail1 is Skipping {
                spec_skip_count(segs)
            } else {
                0
            }
            &&& tail2 == if (tail1 is Skipping) && !(k > 0 && segs[k - 1] < 255) {
                TailState::Skipping
            } else if tail1 is Skipping {
                TailState::Clean
            } else {
                tail1
            }
            &&& cur_bos == (if partial1.len() > 0 {
                v0.partial_bos
            } else {
                spec_bos(h) && k == 0 && !(tail2 is Skipping)
            })
            &&& ({
                let w = spec_walk(
                    segs.skip(k),
                    b.skip(lace_sum(segs.take(k)) as int),
                    partial1,
                    cur_bos,
                    spec_granule(h),
                    spec_eos(h),
                );
                items == w.0 && newpartial == w.1 && newpartial_bos == w.2
            })
            &&& vf.serial == v0.serial
            &&& vf.pkt_counter == v0.pkt_counter
            &&& vf.esegs == v0.esegs
            &&& vf.ebody == v0.ebody
            &&& vf.page_counter == v0.page_counter
            &&& vf.stream_bos == v0.stream_bos
            &&& vf.enc_started == v0.enc_started
            &&& vf.continued_out == v0.continued_out
            &&& vf.eos_queued == v0.eos_queued
            &&& vf.has_pages == true
            &&& vf.last_seq == spec_seqno(h)
            &&& vf.eos == (v0.eos || spec_eos(h))
            &&& vf.queue == queue1 + items
            &&& vf.partial == newpartial
            &&& vf.partial_bos == newpartial_bos
            &&& vf.tail == if segs.skip(k).len() == 0 {
                tail2
            } else if segs.skip(k).last() == 255 {
                TailState::InProgress
            } else {
                TailState::Clean
            }
        }),
    ensures
        vf == spec_page_in(v0, h, b),
{
    reveal(spec_page_in);
    assert(vf =~= spec_page_in(v0, h, b));
}

/// The decode-side transition for one accepted page: resolve the pending
/// tail against the page's continuation flag and sequence number, drop
/// orphaned continued data, cut the rest into packets.
#[verifier::opaque]
pub open spec fn spec_page_in(v: StreamView, h: Seq<u8>, b: Seq<u8>) -> StreamView {
    let cont = spec_continued(h);
    let bos = spec_bos(h);
    let eos = spec_eos(h);
    let gran = spec_granule(h);
    let seqno = spec_seqno(h);
    let segs = spec_segs(h);
    let gap = v.has_pages && seqno != next_seq(v.last_seq);
    let broke = (v.tail is InProgress) && (gap || !cont);
    let orphan = (v.tail is Clean) && cont;
    let queue1 = if broke || (orphan && v.has_pages) {
        v.queue.push(QItemView::Hole)
    } else {
        v.queue
    };
    let partial1 = if broke {
        Seq::<u8>::empty()
    } else {
        v.partial
    };
    let tail1 = if broke {
        if cont {
            TailState::Skipping
        } else {
            TailState::Clean
        }
    } else if orphan {
        TailState::Skipping
    } else if (v.tail is Skipping) && !cont {
        TailState::Clean
    } else {
        v.tail
    };
    let k = if tail1 is Skipping {
        spec_skip_count(segs)
    } else {
        0
    };
    let skipped = lace_sum(segs.take(k));
    let segs2 = segs.skip(k);
    let body2 = b.skip(skipped as int);
    let tail2 = if (tail1 is Skipping) && !(k > 0 && segs[k - 1] < 255) {
        TailState::Skipping
    } else if tail1 is Skipping {
        TailState::Clean
    } else {
        tail1
    };
    let cur_bos = if partial1.len() > 0 {
        v.partial_bos
    } else {
        bos && k == 0 && !(tail2 is Skipping)
    };
    let w = spec_walk(segs2, body2, partial1, cur_bos, gran, eos);
    let tail3 = if segs2.len() == 0 {
        tail2
    } else if segs2.last() == 255 {
        TailState::InProgress
    } else {
        TailState::Clean
    };
    StreamView {
        has_pages: true,
        last_seq: seqno,
        eos: v.eos || eos,
        queue: queue1 + w.0,
        partial: w.1,
        partial_bos: w.2,
        tail: tail3,
        ..v
    }
}

// ------------------------------------------------------------------
// Errors.
// ------------------------------------------------------------------

/// An error returned while adding a page to an assembler.
#[derive(Clone, Debug, PartialEq, Eq)]
pub enum PageInError {
    /// The page carries a serial number that is not this assembler's:
    /// `(expected serial, actual serial)`.
    WrongSerial(i32, i32),
    /// An internal invariant violation, naming the operation.
    InternalError(String),
}

/// An error returned while extracting a packet or a page from an
/// assembler.
#[derive(Copy, Clone, Debug, PartialEq, Eq)]
pub enum PacketOutError {
    /// Data was lost: a sequence gap or missing continuation interrupted
    /// the packet that would come next.
    OutOfSync,
    /// No page has been submitted to the assembler yet.
    NoPages,
    /// There is not enough buffered data to complete the request.
    InternalError,
}

// ------------------------------------------------------------------
// The assembler.
// ------------------------------------------------------------------

/// The per-logical-stream packet assembler.
pub struct Stream {
    serial: i32,
    has_pages: bool,
    last_seq: u32,
    eos: bool,
    queue: Vec<QItem>,
    partial: Vec<u8>,
    partial_bos: bool,
    tail: TailState,
    pkt_counter: u32,
    esegs: Vec<EncSeg>,
    ebody: Vec<u8>,
    page_counter: u32,
    stream_bos: bool,
    enc_started: bool,
    continued_out: bool,
    eos_queued: bool,
}

impl View for Stream {
    type V = StreamView;

    closed spec fn view(&self) -> StreamView {
        StreamView {
            serial: self.serial,
            has_pages: self.has_pages,
            last_seq: self.last_seq,
            eos: self.eos,
            queue: self.queue@.map_values(|q: QItem| q@),
            partial: self.partial@,
            partial_bos: self.partial_bos,
            tail: self.tail,
            pkt_counter: self.pkt_counter,
            esegs: self.esegs@,
            ebody: self.ebody@,
            page_counter: self.page_counter,
            stream_bos: self.stream_bos,
            enc_started: self.enc_started,
            continued_out: self.continued_out,
            eos_queued: self.eos_queued,
        }
    }
}

/// The state of a fresh assembler for the given serial number.
pub open spec fn initial_stream(serial: i32) -> StreamView {
    StreamView {
        serial: serial,
        has_pages: false,
        last_seq: 0,
        eos: false,
        queue: seq![],
        partial: seq![],
        partial_bos: false,
        tail: TailState::Clean,
        pkt_counter: 0,
        esegs: seq![],
        ebody: seq![],
        page_counter: 0,
        stream_bos: false,
        enc_started: false,
        continued_out: false,
        eos_queued: false,
    }
}

impl Stream {
    /// The internal consistency of an assembler: the pending encode body
    /// holds exactly the bytes that the pending lacing values declare.
    pub open spec fn wf(&self) -> bool {
        self@.ebody.len() == lace_sum(enc_laces(self@.esegs))
    }

    /// Return an initialized assembler for one logical stream.
    pub fn new(serial: i32) -> (r: Result<Stream, ()>)
        ensures
            match r {
                Ok(s) => s@ == initial_stream(serial) && s.wf(),
                Err(()) => false,
            },
    {
        let s = Stream {
            serial,
            has_pages: false,
            last_seq: 0,
            eos: false,
            queue: Vec::new(),
            partial: Vec::new(),
            partial_bos: false,
            tail: TailState::Clean,
            pkt_counter: 0,
            esegs: Vec::new(),
            ebody: Vec::new(),
            page_counter: 0,
            stream_bos: false,
            enc_started: false,
            continued_out: false,
            eos_queued: false,
        };
        proof {
            assert(s@.queue =~= Seq::<QItemView>::empty());
            assert(s@ =~= initial_stream(serial));
            assert(enc_laces(s@.esegs) =~= Seq::<u8>::empty());
        }
        Ok(s)
    }

    /// Discard all buffered state and return to the initial state for
    /// the same serial number.
    pub fn reset(&mut self) -> (r: Result<(), ()>)
        ensures
            r is Ok,
            final(self)@ == initial_stream(old(self)@.serial),
            final(self).wf(),
    {
        let serial = self.serial;
        match Stream::new(serial) {
            Ok(s) => {
                *self = s;
                Ok(())
            },
            Err(()) => Err(()),
        }
    }

    /// Whether the stream has ended: an end-of-stream page has been
    /// consumed, or one has been emitted.
    pub fn end_of_stream(&mut self) -> (r: bool)
        ensures
            final(self)@ == old(self)@,
            r == old(self)@.eos,
    {
        self.eos
    }

    /// Consume one page of this logical stream.  A page with a foreign
    /// serial number is rejected and changes nothing; an accepted page's
    /// packet data is cut along its segment table and queued.

    /// Resolve the pending tail against an incoming page's continuation
    /// flag and sequence gap: a broken in-progress packet is dropped and
    /// a loss marker queued; an orphan continuation starts discard mode.
    fn resolve_tail(&mut self, cont: bool, gap: bool)
        ensures
            ({
                let v0 = old(self)@;
                let broke = (v0.tail is InProgress) && (gap || !cont);
                let orphan = (v0.tail is Clean) && cont;
                &&& final(self)@.queue == if broke || (orphan && v0.has_pages) {
                    v0.queue.push(QItemView::Hole)
                } else {
                    v0.queue
                }
                &&& final(self)@.partial == if broke {
                    Seq::<u8>::empty()
                } else {
                    v0.partial
                }
                &&& final(self)@.tail == (if broke {
                    if cont {
                        TailState::Skipping
                    } else {
                        TailState::Clean
                    }
                } else if orphan {
                    TailState::Skipping
                } else if (v0.tail is Skipping) && !cont {
                    TailState::Clean
                } else {
                    v0.tail
                })
                &&& final(self)@ == (StreamView {
                    queue: final(self)@.queue,
                    partial: final(self)@.partial,
                    tail: final(self)@.tail,
                    ..v0
                })
            }),
    {
        let ghost v0: StreamView = self@;
        let in_progress = matches!(self.tail, TailState::InProgress);
        let clean = matches!(self.tail, TailState::Clean);
        let was_skipping = matches!(self.tail, TailState::Skipping);
        let broke = in_progress && (gap || !cont);
        let orphan = clean && cont;
        if broke || (orphan && self.has_pages) {
            self.queue.push(QItem::Hole);
            proof {
                assert(self@.queue =~= v0.queue.push(QItemView::Hole));
            }
        }
        if broke {
            self.partial = Vec::new();
        }
        if broke {
            self.tail = if cont {
                TailState::Skipping
            } else {
                TailState::Clean
            };
        } else if orphan {
            self.tail = TailState::Skipping;
        } else if was_skipping && !cont {
            self.tail = TailState::Clean;
        }
    }


    /// Discard the leading segments of an incoming page that belong to a
    /// packet being skipped, and leave discard mode when a boundary ends
    /// that packet on this page.
    fn skip_stage(&mut self, header: &[u8], nsegs: usize) -> (k: usize)
        requires
            header@.len() == 27 + nsegs,
            nsegs <= 255,
        ensures
            ({
                let segs = header@.subrange(27, header@.len() as int);
                let v0 = old(self)@;
                &&& k == if v0.tail is Skipping {
                    spec_skip_count(segs)
                } else {
                    0
                }
                &&& k <= nsegs
                &&& final(self)@.tail == (if (v0.tail is Skipping) && !(k > 0 && segs[k - 1]
                    < 255) {
                    TailState::Skipping
                } else if v0.tail is Skipping {
                    TailState::Clean
                } else {
                    v0.tail
                })
                &&& final(self)@ == (StreamView { tail: final(self)@.tail, ..v0 })
            }),
    {
        let skipping = matches!(self.tail, TailState::Skipping);
        if skipping {
            let kk = skip_count_exec(header, nsegs);
            if kk > 0 && header[27 + kk - 1] < 255 {
                self.tail = TailState::Clean;
            }
            kk
        } else {
            0
        }
    }

    #[verifier::rlimit(100)]
    pub fn page_in(&mut self, page: &Page) -> (r: Result<(), PageInError>)
        requires
            page.wf(),
            old(self).wf(),
        ensures
            final(self).wf(),
            match r {
                Ok(()) => spec_serial(page@.header) == old(self)@.serial && final(self)@
                    == spec_page_in(old(self)@, page@.header, page@.body),
                Err(PageInError::WrongSerial(expected, actual)) => {
                    &&& spec_serial(page@.header) != old(self)@.serial
                    &&& final(self)@ == old(self)@
                    &&& expected == old(self)@.serial
                    &&& actual == spec_serial(page@.header)
                },
                Err(PageInError::InternalError(_)) => false,
            },
    {
        let serial = page.stream_serial();
        if serial != self.serial {
            return Err(PageInError::WrongSerial(self.serial, serial));
        }
        let ghost v0: StreamView = self@;
        let ghost h: Seq<u8> = page@.header;
        let cont = page.continues_packet();
        let bos = page.begins_logical_stream();
        let eos = page.ends_logical_stream();
        let gran = page.absgp();
        let seqno = page.index();
        let header = page.header();
        let body = page.data();
        let nsegs: usize = header.len() - 27;
        let ghost segs: Seq<u8> = spec_segs(h);
        proof {
            assert(segs.len() == nsegs);
        }
        let gap = self.has_pages && seqno != next_seq_exec(self.last_seq);
        self.resolve_tail(cont, gap);
        let ghost queue_raw1: Seq<QItem> = self.queue@;
        let ghost queue1: Seq<QItemView> = self@.queue;
        let ghost partial1: Seq<u8> = self@.partial;
        let ghost tail1: TailState = self.tail;
        let k: usize = self.skip_stage(header, nsegs);
        proof {
            assert(segs.take(k as int) =~= h.subrange(27, 27 + k));
        }
        let skipped: usize = segment_table_sum(header, 27, k);
        proof {
            lemma_lace_sum_concat(segs.take(k as int), segs.skip(k as int));
            assert(segs.take(k as int) + segs.skip(k as int) =~= segs);
            assert(skipped <= body@.len());
        }
        let ghost tail2: TailState = self.tail;
        let skipping2 = matches!(self.tail, TailState::Skipping);
        let cur_bos = if self.partial.len() > 0 {
            self.partial_bos
        } else {
            bos && k == 0 && !skipping2
        };
        let seg_slice = vstd::slice::slice_subrange(header, 27 + k, header.len());
        let body_slice = vstd::slice::slice_subrange(body, skipped, body.len());
        proof {
            assert(seg_slice@ =~= segs.skip(k as int));
            assert(body_slice@ =~= page@.body.skip(skipped as int));
            assert(body_slice@.len() == lace_sum(seg_slice@));
        }
        let partial_taken = crate::page::clone_bytes(&self.partial);
        self.partial = Vec::new();
        let (mut items, new_partial, new_partial_bos) = walk_segments(
            seg_slice,
            body_slice,
            partial_taken,
            cur_bos,
            gran,
            eos,
        );
        self.partial = new_partial;
        self.partial_bos = new_partial_bos;
        let ghost items_raw: Seq<QItem> = items@;
        let ghost items_view: Seq<QItemView> = items@.map_values(|q: QItem| q@);
        self.queue.append(&mut items);
        if seg_slice.len() > 0 {
            self.tail = if seg_slice[seg_slice.len() - 1] == 255 {
                TailState::InProgress
            } else {
                TailState::Clean
            };
        }
        self.has_pages = true;
        self.last_seq = seqno;
        if eos {
            self.eos = true;
        }
        proof {
            assert(gap == (v0.has_pages && spec_seqno(h) != next_seq(v0.last_seq)));
            assert(cur_bos == (if partial1.len() > 0 {
                v0.partial_bos
            } else {
                spec_bos(h) && k == 0 && !(tail2 is Skipping)
            }));
            assert(skipped == lace_sum(segs.take(k as int)));
            lemma_qviews_concat(queue_raw1, items_raw);
            assert(self@.queue == queue1 + items_view);
            assert(self@.tail == if segs.skip(k as int).len() == 0 {
                tail2
            } else if segs.skip(k as int).last() == 255 {
                TailState::InProgress
            } else {
                TailState::Clean
            });
            lemma_page_in_eq(
                v0,
                h,
                page@.body,
                queue1,
                partial1,
                tail1,
                k as int,
                tail2,
                cur_bos,
                items_view,
                self@.partial,
                self@.partial_bos,
                self@,
            );
        }
        Ok(())
    }



    /// Extract the next assembled packet.  Fails with `NoPages` before
    /// any page arrived, with `InternalError` when no complete packet is
    /// buffered (submit more pages), and with `OutOfSync` when the next
    /// queued item marks data lost to a sequence gap or a missing
    /// continuation; the marker is consumed, so assembly then resumes
    /// with the following packets.
    pub fn packet_out(&mut self) -> (r: Result<Packet, PacketOutError>)
        requires
            old(self).wf(),
        ensures
            final(self).wf(),
            ({
                let v0 = old(self)@;
                if !v0.has_pages {
                    &&& r matches Err(e) && e == PacketOutError::NoPages
                    &&& final(self)@ == v0
                } else if v0.queue.len() == 0 {
                    &&& r matches Err(e) && e == PacketOutError::InternalError
                    &&& final(self)@ == v0
                } else if v0.queue[0] is Hole {
                    &&& r matches Err(e) && e == PacketOutError::OutOfSync
                    &&& final(self)@ == (StreamView { queue: v0.queue.skip(1), ..v0 })
                } else {
                    &&& r matches Ok(p) && v0.queue[0] matches QItemView::Pkt {
                        data,
                        granule,
                        bos,
                        eos,
                    } && p@ == (PacketView {
                        data,
                        begins: bos,
                        ends: eos,
                        absgp: granule,
                        index: v0.pkt_counter,
                    })
                    &&& final(self)@ == (StreamView {
                        queue: v0.queue.skip(1),
                        pkt_counter: next_seq(v0.pkt_counter),
                        ..v0
                    })
                }
            }),
    {
        let ghost v0: StreamView = self@;
        if !self.has_pages {
            return Err(PacketOutError::NoPages);
        }
        if self.queue.len() == 0 {
            return Err(PacketOutError::InternalError);
        }
        let item = self.queue.remove(0);
        proof {
            assert(item@ == v0.queue[0]);
            assert(self@.queue =~= v0.queue.skip(1));
        }
        match item {
            QItem::Hole => Err(PacketOutError::OutOfSync),
            QItem::Pkt { data, granule, bos, eos } => {
                let idx = self.pkt_counter;
                self.pkt_counter = next_seq_exec(idx);
                Ok(Packet::from_parts(data, bos, eos, granule, idx))
            },
        }
    }

    /// Look at the next assembled packet without consuming it.  The
    /// errors are those of `packet_out`, but nothing is consumed: a loss
    /// marker keeps reporting until `packet_out` removes it.
    pub fn packet_peek(&self) -> (r: Result<Packet, PacketOutError>)
        requires
            self.wf(),
        ensures
            ({
                let v0 = self@;
                if !v0.has_pages {
                    r matches Err(e) && e == PacketOutError::NoPages
                } else if v0.queue.len() == 0 {
                    r matches Err(e) && e == PacketOutError::InternalError
                } else if v0.queue[0] is Hole {
                    r matches Err(e) && e == PacketOutError::OutOfSync
                } else {
                    r matches Ok(p) && v0.queue[0] matches QItemView::Pkt {
                        data,
                        granule,
                        bos,
                        eos,
                    } && p@ == (PacketView {
                        data,
                        begins: bos,
                        ends: eos,
                        absgp: granule,
                        index: v0.pkt_counter,
                    })
                }
            }),
    {
        if !self.has_pages {
            return Err(PacketOutError::NoPages);
        }
        if self.queue.len() == 0 {
            return Err(PacketOutError::InternalError);
        }
        match &self.queue[0] {
            QItem::Hole => Err(PacketOutError::OutOfSync),
            QItem::Pkt { data, granule, bos, eos } => {
                Ok(
                    Packet::from_parts(
                        crate::page::clone_bytes(data),
                        *bos,
                        *eos,
                        *granule,
                        self.pkt_counter,
                    ),
                )
            },
        }
    }

}

// ------------------------------------------------------------------
// Helpers shared by decode and encode.
// ------------------------------------------------------------------

/// The lacing values of a sequence of pending encode segments.
pub open spec fn enc_laces(s: Seq<EncSeg>) -> Seq<u8> {
    s.map_values(|e: EncSeg| e.lace)
}

/// The sum of a concatenation of lacing values is the sum of the parts.
pub proof fn lemma_lace_sum_concat(a: Seq<u8>, b: Seq<u8>)
    ensures
        lace_sum(a + b) == lace_sum(a) + lace_sum(b),
    decreases b.len(),
{
    if b.len() == 0 {
        assert(a + b =~= a);
    } else {
        assert((a + b).drop_last() =~= a + b.drop_last());
        lemma_lace_sum_concat(a, b.drop_last());
    }
}

/// A lacing value sequence decomposes at its head.
pub proof fn lemma_lace_sum_head(t: Seq<u8>)
    requires
        t.len() > 0,
    ensures
        lace_sum(t) == t[0] + lace_sum(t.skip(1)),
{
    assert(seq![t[0]] + t.skip(1) =~= t);
    lemma_lace_sum_concat(seq![t[0]], t.skip(1));
    assert(lace_sum(seq![t[0]]) == t[0]) by {
        assert(seq![t[0]].drop_last() =~= Seq::<u8>::empty());
        assert(lace_sum(Seq::<u8>::empty()) == 0);
    }
}

/// Count the leading segments of a page's segment table that belong to
/// a discarded packet: through the first lacing value below 255.
fn skip_count_exec(header: &[u8], nsegs: usize) -> (r: usize)
    requires
        header@.len() == 27 + nsegs,
    ensures
        r == spec_skip_count(header@.subrange(27, header@.len() as int)),
        r <= nsegs,
{
    let ghost segs: Seq<u8> = header@.subrange(27, header@.len() as int);
    let hn: usize = header.len();
    proof {
        assert(segs.skip(0) =~= segs);
    }
    let mut i: usize = 0;
    while i < nsegs
        invariant
            i <= nsegs,
            hn == header@.len(),
            header@.len() == 27 + nsegs,
            segs == header@.subrange(27, header@.len() as int),
            spec_skip_count(segs) == i + spec_skip_count(segs.skip(i as int)),
            forall|j: int| 0 <= j < i ==> segs[j] == 255,
        decreases nsegs - i,
    {
        if header[27 + i] < 255 {
            proof {
                assert(segs.skip(i as int)[0] == segs[i as int]);
                assert(spec_skip_count(segs.skip(i as int)) == 1);
            }
            return i + 1;
        }
        proof {
            assert(segs.skip(i as int)[0] == segs[i as int]);
            assert(segs.skip(i as int).skip(1) =~= segs.skip(i as int + 1));
        }
        i = i + 1;
    }
    proof {
        assert(segs.skip(nsegs as int) =~= Seq::<u8>::empty());
    }
    nsegs
}

/// Cut a page's segments and body bytes into completed packets and the
/// body of the packet left in progress.
fn walk_segments(
    segs: &[u8],
    body: &[u8],
    partial: Vec<u8>,
    cur_bos: bool,
    gran: i64,
    eos: bool,
) -> (r: (Vec<QItem>, Vec<u8>, bool))
    requires
        body@.len() == lace_sum(segs@),
        segs@.len() <= 255,
    ensures
        r.0@.map_values(|q: QItem| q@) == spec_walk(segs@, body@, partial@, cur_bos, gran, eos).0,
        r.1@ == spec_walk(segs@, body@, partial@, cur_bos, gran, eos).1,
        r.2 == spec_walk(segs@, body@, partial@, cur_bos, gran, eos).2,
    decreases segs@.len(),
{
    proof {
        reveal(spec_walk);
    }
    if segs.len() == 0 {
        let r = (Vec::<QItem>::new(), partial, cur_bos);
        proof {
            assert(r.0@.map_values(|q: QItem| q@) =~= Seq::<QItemView>::empty());
        }
        return r;
    }
    let l: usize = segs[0] as usize;
    proof {
        lemma_lace_sum_head(segs@);
    }
    let ghost np0: Seq<u8> = partial@;
    let mut np = partial;
    let mut chunk = vstd::slice::slice_to_vec(vstd::slice::slice_subrange(body, 0, l));
    np.append(&mut chunk);
    proof {
        assert(np@ =~= np0 + body@.take(l as int));
    }
    let segs_rest = vstd::slice::slice_subrange(segs, 1, segs.len());
    let body_rest = vstd::slice::slice_subrange(body, l, body.len());
    proof {
        assert(segs_rest@ =~= segs@.skip(1));
        assert(body_rest@ =~= body@.skip(l as int));
    }
    if segs[0] == 255 {
        walk_segments(segs_rest, body_rest, np, cur_bos, gran, eos)
    } else {
        let is_last = segs.len() == 1;
        let item = QItem::Pkt {
            data: np,
            granule: if is_last {
                gran
            } else {
                -1
            },
            bos: cur_bos,
            eos: eos && is_last,
        };
        let (mut items, new_partial, new_bos) = walk_segments(
            segs_rest,
            body_rest,
            Vec::new(),
            false,
            gran,
            eos,
        );
        items.insert(0, item);
        proof {
            let w = spec_walk(segs@, body@, partial@, cur_bos, gran, eos);
            assert(items@.map_values(|q: QItem| q@) =~= w.0);
        }
        (items, new_partial, new_bos)
    }
}


// ------------------------------------------------------------------
// The encode side.
// ------------------------------------------------------------------

/// The lacing values that encode a packet of `len` bytes: one value of
/// 255 for each full 255-byte segment, then the remainder — so a packet
/// whose length is a multiple of 255 ends with an explicit 0 value.
pub open spec fn lace_encode(len: nat) -> Seq<u8>
    decreases len,
{
    if len < 255 {
        seq![len as u8]
    } else {
        seq![255u8] + lace_encode((len - 255) as nat)
    }
}

/// The pending encode segments for a packet of `len` bytes with the
/// given granule position and end-of-stream mark.
pub open spec fn enc_of(len: nat, gran: i64, eos: bool) -> Seq<EncSeg>
    decreases len,
{
    if len < 255 {
        seq![EncSeg { lace: len as u8, granule: gran, eos }]
    } else {
        seq![EncSeg { lace: 255u8, granule: gran, eos }] + enc_of((len - 255) as nat, gran, eos)
    }
}

/// The lacing values of a packet's encode segments are its lacing
/// encoding, and they sum to the packet's length.
pub proof fn lemma_enc_of_laces(len: nat, gran: i64, eos: bool)
    ensures
        enc_laces(enc_of(len, gran, eos)) == lace_encode(len),
        lace_sum(lace_encode(len)) == len,
        lace_encode(len).len() >= 1,
        enc_of(len, gran, eos).len() == lace_encode(len).len(),
    decreases len,
{
    if len < 255 {
        assert(enc_laces(enc_of(len, gran, eos)) =~= lace_encode(len));
        assert(lace_sum(seq![len as u8]) == len) by {
            assert(seq![len as u8].drop_last() =~= Seq::<u8>::empty());
            assert(lace_sum(Seq::<u8>::empty()) == 0);
        }
    } else {
        lemma_enc_of_laces((len - 255) as nat, gran, eos);
        assert(enc_laces(enc_of(len, gran, eos)) =~= lace_encode(len));
        lemma_lace_sum_concat(seq![255u8], lace_encode((len - 255) as nat));
        assert(lace_sum(seq![255u8]) == 255) by {
            assert(seq![255u8].drop_last() =~= Seq::<u8>::empty());
            assert(lace_sum(Seq::<u8>::empty()) == 0);
        }
    }
}

/// Lacing values distribute over segment concatenation.
pub proof fn lemma_enc_laces_concat(a: Seq<EncSeg>, b: Seq<EncSeg>)
    ensures
        enc_laces(a + b) == enc_laces(a) + enc_laces(b),
{
    assert(enc_laces(a + b) =~= enc_laces(a) + enc_laces(b));
}

/// The encode-side transition for one submitted packet: its bytes and
/// lacing values join the pending data; the first packet's begin-of-
/// stream mark, and any end-of-stream mark, are remembered.
pub open spec fn spec_packet_in(v: StreamView, p: PacketView) -> StreamView {
    StreamView {
        esegs: v.esegs + enc_of(p.data.len(), p.absgp, p.ends),
        ebody: v.ebody + p.data,
        stream_bos: if !v.enc_started {
            p.begins
        } else {
            v.stream_bos
        },
        enc_started: true,
        eos_queued: v.eos_queued || p.ends,
        ..v
    }
}

/// The index of the last pending segment that ends a packet, or -1.
pub open spec fn last_boundary(s: Seq<EncSeg>) -> int
    decreases s.len(),
{
    if s.len() == 0 {
        -1
    } else if s.last().lace < 255 {
        s.len() - 1
    } else {
        last_boundary(s.drop_last())
    }
}

/// A boundary index lies within the sequence.
pub proof fn lemma_last_boundary_range(s: Seq<EncSeg>)
    ensures
        -1 <= last_boundary(s) < s.len(),
    decreases s.len(),
{
    if s.len() > 0 && !(s.last().lace < 255) {
        lemma_last_boundary_range(s.drop_last());
    }
}

/// Whether emitting the first `k` pending segments ends the stream: the
/// last packet completing on the page carries the end-of-stream mark.
pub open spec fn emitted_eos(v: StreamView, k: int) -> bool {
    let lb = last_boundary(v.esegs.take(k));
    lb >= 0 && v.esegs.take(k)[lb].eos
}

/// The granule position of a page made of the first `k` pending
/// segments: that of the last packet completing on it, or -1 when no
/// packet completes on it.
pub open spec fn emitted_granule(v: StreamView, k: int) -> i64 {
    let lb = last_boundary(v.esegs.take(k));
    if lb >= 0 {
        v.esegs.take(k)[lb].granule
    } else {
        -1i64
    }
}

/// The state after emitting a page made of the first `k` pending
/// segments.
pub open spec fn emitted_state(v: StreamView, k: int) -> StreamView {
    StreamView {
        esegs: v.esegs.skip(k),
        ebody: v.ebody.skip(lace_sum(enc_laces(v.esegs.take(k))) as int),
        page_counter: next_seq(v.page_counter),
        continued_out: v.esegs[k - 1].lace == 255,
        eos: v.eos || emitted_eos(v, k),
        eos_queued: v.eos_queued && !emitted_eos(v, k),
        ..v
    }
}

/// What the page made of the first `k` pending segments looks like.
pub open spec fn emitted_page_ok(v: StreamView, k: int, p: PageView) -> bool {
    &&& spec_segs(p.header) == enc_laces(v.esegs.take(k))
    &&& p.body == v.ebody.take(lace_sum(enc_laces(v.esegs.take(k))) as int)
    &&& spec_serial(p.header) == v.serial
    &&& spec_seqno(p.header) == v.page_counter
    &&& spec_continued(p.header) == v.continued_out
    &&& spec_bos(p.header) == (v.page_counter == 0 && v.stream_bos)
    &&& spec_eos(p.header) == emitted_eos(v, k)
    &&& spec_granule(p.header) == emitted_granule(v, k)
}

/// How many pending segments fit a page whose total size may not pass
/// `budget` bytes beyond the fixed 27-byte header prefix: each segment
/// costs one lacing byte and its body bytes.
pub open spec fn spec_fit(segs: Seq<EncSeg>, budget: int) -> int
    decreases segs.len(),
{
    if segs.len() == 0 {
        0
    } else if 1 + segs[0].lace > budget {
        0
    } else {
        1 + spec_fit(segs.skip(1), budget - 1 - segs[0].lace)
    }
}

/// How many pending segments a page capped at `size` total bytes takes:
/// as many as fit, at most 255, but always at least one.
pub open spec fn sized_take_count(v: StreamView, size: int) -> int {
    let f = spec_fit(v.esegs, size - 27);
    let fc = if f > 255 {
        255
    } else {
        f
    };
    if fc == 0 {
        1
    } else {
        fc
    }
}

/// How many pending segments an uncapped page takes: all of them, at
/// most 255.
pub open spec fn page_take_count(v: StreamView) -> int {
    if v.esegs.len() >= 255 {
        255
    } else {
        v.esegs.len() as int
    }
}

/// Whether enough packet data is queued for `page_out` to emit a page:
/// a full segment table, a full target of body bytes, or a pending
/// end of stream.
pub open spec fn page_ready(v: StreamView) -> bool {
    v.esegs.len() > 0 && (v.esegs.len() >= 255 || v.ebody.len() >= 4096 || v.eos_queued)
}

impl Stream {
    /// Queue one packet for encoding.  Its bytes and lacing values join
    /// the pending data; pages come out of `page_out` and `page_flush`.
    pub fn packet_in(&mut self, packet: &Packet) -> (r: Result<(), InternalError>)
        requires
            old(self).wf(),
        ensures
            final(self).wf(),
            r is Ok,
            final(self)@ == spec_packet_in(old(self)@, packet@),
    {
        let ghost v0: StreamView = self@;
        let data = packet.data();
        let len: usize = data.len();
        let gran = packet.absgp();
        let ends = packet.ends_logical_stream();
        let begins = packet.begins_logical_stream();
        if !self.enc_started {
            self.stream_bos = begins;
        }
        self.enc_started = true;
        if ends {
            self.eos_queued = true;
        }
        let mut chunk = vstd::slice::slice_to_vec(data);
        self.ebody.append(&mut chunk);
        let ghost esegs0: Seq<EncSeg> = self.esegs@;
        let ghost v1: StreamView = self@;
        let mut remaining: usize = len;
        while remaining >= 255
            invariant
                remaining <= len,
                self@ == (StreamView { esegs: self@.esegs, ..v1 }),
                esegs0 + enc_of(len as nat, gran, ends) =~= self.esegs@ + enc_of(
                    remaining as nat,
                    gran,
                    ends,
                ),
            decreases remaining,
        {
            proof {
                assert(enc_of(remaining as nat, gran, ends) == seq![
                    EncSeg { lace: 255u8, granule: gran, eos: ends },
                ] + enc_of((remaining - 255) as nat, gran, ends));
                assert(self.esegs@.push(EncSeg { lace: 255u8, granule: gran, eos: ends }) + enc_of(
                    (remaining - 255) as nat,
                    gran,
                    ends,
                ) =~= self.esegs@ + enc_of(remaining as nat, gran, ends));
            }
            self.esegs.push(EncSeg { lace: 255, granule: gran, eos: ends });
            remaining = remaining - 255;
        }
        proof {
            assert(enc_of(remaining as nat, gran, ends) == seq![
                EncSeg { lace: remaining as u8, granule: gran, eos: ends },
            ]);
            assert(self.esegs@.push(EncSeg { lace: remaining as u8, granule: gran, eos: ends })
                =~= self.esegs@ + enc_of(remaining as nat, gran, ends));
        }
        self.esegs.push(EncSeg { lace: remaining as u8, granule: gran, eos: ends });
        proof {
            assert(self.esegs@ == esegs0 + enc_of(len as nat, gran, ends));
            lemma_enc_of_laces(len as nat, gran, ends);
            lemma_enc_laces_concat(esegs0, enc_of(len as nat, gran, ends));
            lemma_lace_sum_concat(
                enc_laces(esegs0),
                enc_laces(enc_of(len as nat, gran, ends)),
            );
            assert(packet@.data.len() == len);
            assert(self@.esegs == v0.esegs + enc_of(packet@.data.len(), gran, ends));
            assert(self@.ebody == v0.ebody + packet@.data);
            assert(self@.ebody.len() == lace_sum(enc_laces(self@.esegs)));
            assert(self@ =~= spec_packet_in(v0, packet@));
        }
        Ok(())
    }

    /// The granule position and end-of-stream mark of the last packet
    /// completing among the first `n` pending segments.
    fn last_boundary_meta(&self, n: usize) -> (r: (i64, bool))
        requires
            n <= self@.esegs.len(),
        ensures
            r.0 == emitted_granule(self@, n as int),
            r.1 == emitted_eos(self@, n as int),
        decreases n,
    {
        if n == 0 {
            proof {
                assert(self@.esegs.take(0) =~= Seq::<EncSeg>::empty());
            }
            (-1, false)
        } else if self.esegs[n - 1].lace < 255 {
            proof {
                assert(self@.esegs.take(n as int).last() == self@.esegs[n - 1]);
                assert(last_boundary(self@.esegs.take(n as int)) == n - 1);
            }
            (self.esegs[n - 1].granule, self.esegs[n - 1].eos)
        } else {
            let r = self.last_boundary_meta(n - 1);
            proof {
                assert(self@.esegs.take(n as int).drop_last() =~= self@.esegs.take(n as int - 1));
                assert(self@.esegs.take(n as int).last() == self@.esegs[n - 1]);
                lemma_last_boundary_range(self@.esegs.take(n as int - 1));
                let lb = last_boundary(self@.esegs.take(n as int - 1));
                if lb >= 0 {
                    assert(self@.esegs.take(n as int)[lb] == self@.esegs.take(n as int - 1)[lb]);
                }
            }
            r
        }
    }

    /// Emit one page made of the first `k` pending segments.
    fn emit_page(&mut self, k: usize) -> (p: Page)
        requires
            old(self).wf(),
            1 <= k <= old(self)@.esegs.len(),
            k <= 255,
        ensures
            final(self).wf(),
            p.wf(),
            checksum_ok(p@.header, p@.body),
            emitted_page_ok(old(self)@, k as int, p@),
            final(self)@ == emitted_state(old(self)@, k as int),
    {
        let ghost v0: StreamView = self@;
        let mut laces: Vec<u8> = Vec::new();
        let mut sum: usize = 0;
        let mut i: usize = 0;
        while i < k
            invariant
                i <= k,
                k <= self@.esegs.len(),
                k <= 255,
                self@ == v0,
                laces@ =~= enc_laces(v0.esegs.take(i as int)),
                sum == lace_sum(enc_laces(v0.esegs.take(i as int))),
                sum <= 255 * i,
            decreases k - i,
        {
            proof {
                let el = enc_laces(v0.esegs.take(i as int + 1));
                assert(el =~= enc_laces(v0.esegs.take(i as int)).push(v0.esegs[i as int].lace));
                assert(el.drop_last() =~= enc_laces(v0.esegs.take(i as int)));
            }
            sum = sum + self.esegs[i].lace as usize;
            laces.push(self.esegs[i].lace);
            i = i + 1;
        }
        let ghost taken: Seq<u8> = enc_laces(v0.esegs.take(k as int));
        proof {
            lemma_enc_laces_concat(v0.esegs.take(k as int), v0.esegs.skip(k as int));
            assert(v0.esegs.take(k as int) + v0.esegs.skip(k as int) =~= v0.esegs);
            lemma_lace_sum_concat(taken, enc_laces(v0.esegs.skip(k as int)));
            assert(sum <= self@.ebody.len());
        }
        let (gran, eosbit) = self.last_boundary_meta(k);
        proof {
            assert(emitted_granule(self@, k as int) == emitted_granule(v0, k as int));
        }
        let bosbit = self.page_counter == 0 && self.stream_bos;
        let htype = make_header_type(self.continued_out, bosbit, eosbit);
        let body = vstd::slice::slice_to_vec(
            vstd::slice::slice_subrange(self.ebody.as_slice(), 0, sum),
        );
        proof {
            assert(body@ =~= v0.ebody.take(sum as int));
        }
        let page = build_page(htype, gran, self.serial, self.page_counter, laces, body);
        let cont_next = self.esegs[k - 1].lace == 255;
        drop_front_segs(&mut self.esegs, k);
        drop_front_bytes(&mut self.ebody, sum);
        self.page_counter = next_seq_exec(self.page_counter);
        self.continued_out = cont_next;
        if eosbit {
            self.eos = true;
            self.eos_queued = false;
        }
        proof {
            assert(self@.esegs =~= v0.esegs.skip(k as int));
            assert(self@.ebody =~= v0.ebody.skip(lace_sum(taken) as int));
            assert(self@ =~= emitted_state(v0, k as int));
            assert(enc_laces(self@.esegs) =~= enc_laces(v0.esegs.skip(k as int)));
        }
        page
    }

    /// Emit the next page when enough packet data is queued: a full
    /// segment table, a full target of body bytes, or a pending end of
    /// stream; otherwise ask for more packets.
    pub fn page_out(&mut self) -> (r: Result<Page, PacketOutError>)
        requires
            old(self).wf(),
        ensures
            final(self).wf(),
            ({
                let v0 = old(self)@;
                if page_ready(v0) {
                    &&& r matches Ok(p) && p.wf() && checksum_ok(p@.header, p@.body)
                        && emitted_page_ok(v0, page_take_count(v0), p@)
                    &&& final(self)@ == emitted_state(v0, page_take_count(v0))
                } else {
                    &&& r matches Err(e) && e == PacketOutError::InternalError
                    &&& final(self)@ == v0
                }
            }),
    {
        let pending: usize = self.esegs.len();
        if !(pending > 0 && (pending >= 255 || self.ebody.len() >= 4096 || self.eos_queued)) {
            return Err(PacketOutError::InternalError);
        }
        let k: usize = if pending >= 255 {
            255
        } else {
            pending
        };
        Ok(self.emit_page(k))
    }

    /// Force emission of a page from whatever packet data is queued,
    /// even if it does not fill the normal target size.  Fails only
    /// when nothing at all is queued.
    pub fn page_flush(&mut self) -> (r: Result<Page, PacketOutError>)
        requires
            old(self).wf(),
        ensures
            final(self).wf(),
            ({
                let v0 = old(self)@;
                if v0.esegs.len() > 0 {
                    &&& r matches Ok(p) && p.wf() && checksum_ok(p@.header, p@.body)
                        && emitted_page_ok(v0, page_take_count(v0), p@)
                    &&& final(self)@ == emitted_state(v0, page_take_count(v0))
                } else {
                    &&& r matches Err(e) && e == PacketOutError::InternalError
                    &&& final(self)@ == v0
                }
            }),
    {
        let pending: usize = self.esegs.len();
        if pending == 0 {
            return Err(PacketOutError::InternalError);
        }
        let k: usize = if pending >= 255 {
            255
        } else {
            pending
        };
        Ok(self.emit_page(k))
    }

    /// How many pending segments fit a page of at most `size` total
    /// bytes.
    fn fit_count(&self, size: usize) -> (r: usize)
        ensures
            r == spec_fit(self@.esegs, size as int - 27),
            r <= self@.esegs.len(),
    {
        let ghost all: Seq<EncSeg> = self@.esegs;
        let n: usize = self.esegs.len();
        let mut budget: usize = if size > 27 {
            size - 27
        } else {
            0
        };
        let ghost budget0: int = size as int - 27;
        if size <= 27 {
            proof {
                if all.len() > 0 {
                    assert(1 + all[0].lace > budget0);
                }
                assert(spec_fit(all, budget0) == 0);
            }
            return 0;
        }
        proof {
            assert(all.skip(0) =~= all);
        }
        let mut i: usize = 0;
        while i < n
            invariant
                i <= n,
                n == all.len(),
                all == self@.esegs,
                budget0 == size as int - 27,
                spec_fit(all, budget0) == i + spec_fit(all.skip(i as int), budget as int),
            decreases n - i,
        {
            let cost: usize = 1 + self.esegs[i].lace as usize;
            proof {
                assert(all.skip(i as int)[0] == all[i as int]);
                assert(all.skip(i as int).skip(1) =~= all.skip(i as int + 1));
            }
            if cost > budget {
                proof {
                    assert(spec_fit(all.skip(i as int), budget as int) == 0);
                    assert(spec_fit(all, budget0) == i);
                }
                return i;
            }
            budget = budget - cost;
            i = i + 1;
        }
        proof {
            assert(all.skip(n as int) =~= Seq::<EncSeg>::empty());
            assert(spec_fit(Seq::<EncSeg>::empty(), budget as int) == 0);
            assert(spec_fit(all, budget0) == n);
        }
        n
    }

    /// Like `page_out`, but cap the page's total byte size at `size`,
    /// splitting packets across pages when necessary.  A page holds at
    /// least one segment, so with a cap below 28 plus one segment the
    /// cap can be passed.
    pub fn page_out_with_max_size(&mut self, size: usize) -> (r: Result<Page, PacketOutError>)
        requires
            old(self).wf(),
        ensures
            final(self).wf(),
            ({
                let v0 = old(self)@;
                if sized_ready(v0, size as int) {
                    &&& r matches Ok(p) && p.wf() && checksum_ok(p@.header, p@.body)
                        && emitted_page_ok(v0, sized_take_count(v0, size as int), p@)
                    &&& final(self)@ == emitted_state(v0, sized_take_count(v0, size as int))
                } else {
                    &&& r matches Err(e) && e == PacketOutError::InternalError
                    &&& final(self)@ == v0
                }
            }),
    {
        let pending: usize = self.esegs.len();
        let enough: bool = pending > 0 && (pending >= 255 || self.eos_queued || 27 + pending
            >= size || self.ebody.len() >= size);
        if !enough {
            return Err(PacketOutError::InternalError);
        }
        let k = self.sized_count(size);
        Ok(self.emit_page(k))
    }

    /// Like `page_flush`, but cap the page's total byte size at `size`.
    pub fn page_flush_with_max_size(&mut self, size: usize) -> (r: Result<Page, PacketOutError>)
        requires
            old(self).wf(),
        ensures
            final(self).wf(),
            ({
                let v0 = old(self)@;
                if v0.esegs.len() > 0 {
                    &&& r matches Ok(p) && p.wf() && checksum_ok(p@.header, p@.body)
                        && emitted_page_ok(v0, sized_take_count(v0, size as int), p@)
                    &&& final(self)@ == emitted_state(v0, sized_take_count(v0, size as int))
                } else {
                    &&& r matches Err(e) && e == PacketOutError::InternalError
                    &&& final(self)@ == v0
                }
            }),
    {
        if self.esegs.len() == 0 {
            return Err(PacketOutError::InternalError);
        }
        let k = self.sized_count(size);
        Ok(self.emit_page(k))
    }

    /// The number of segments a size-capped page takes: as many as fit,
    /// at most 255, at least one.
    fn sized_count(&self, size: usize) -> (k: usize)
        requires
            self@.esegs.len() > 0,
        ensures
            k == sized_take_count(self@, size as int),
            1 <= k <= self@.esegs.len(),
            k <= 255,
    {
        let f = self.fit_count(size);
        let fc: usize = if f > 255 {
            255
        } else {
            f
        };
        if fc == 0 {
            1
        } else {
            fc
        }
    }
}

/// Whether enough packet data is queued for a size-capped page: a full
/// segment table, enough bytes to reach the cap, or a pending end of
/// stream.
pub open spec fn sized_ready(v: StreamView, size: int) -> bool {
    v.esegs.len() > 0 && (v.esegs.len() >= 255 || v.eos_queued || 27 + v.esegs.len() >= size
        || v.ebody.len() >= size)
}

/// The header-type byte with the given flag bits.
fn make_header_type(cont: bool, bos: bool, eos: bool) -> (r: u8)
    ensures
        (r & 0x01 != 0) == cont,
        (r & 0x02 != 0) == bos,
        (r & 0x04 != 0) == eos,
{
    let mut t: u8 = 0;
    if cont {
        t = t + 0x01;
    }
    if bos {
        t = t + 0x02;
    }
    if eos {
        t = t + 0x04;
    }
    proof {
        assert((t & 0x01 != 0) == cont && (t & 0x02 != 0) == bos && (t & 0x04 != 0) == eos)
            by (bit_vector)
            requires
                t == (if cont { 0x01u8 } else { 0u8 }) + (if bos { 0x02u8 } else { 0u8 }) + (
                if eos { 0x04u8 } else { 0u8 }),
        ;
    }
    t
}

/// Drop the first `n` entries of a pending-segment vector.
fn drop_front_segs(v: &mut Vec<EncSeg>, n: usize)
    requires
        n <= old(v)@.len(),
    ensures
        final(v)@ == old(v)@.skip(n as int),
{
    let mut r: Vec<EncSeg> = Vec::new();
    let mut i: usize = n;
    while i < v.len()
        invariant
            n <= i <= v@.len(),
            v@ == old(v)@,
            r@ == v@.subrange(n as int, i as int),
        decreases v@.len() - i,
    {
        proof {
            assert(v@.subrange(n as int, i as int + 1) =~= v@.subrange(n as int, i as int).push(
                v@[i as int],
            ));
        }
        r.push(v[i]);
        i = i + 1;
    }
    proof {
        assert(r@ =~= old(v)@.skip(n as int));
    }
    *v = r;
}

/// Drop the first `n` bytes of a pending-body vector.
fn drop_front_bytes(v: &mut Vec<u8>, n: usize)
    requires
        n <= old(v)@.len(),
    ensures
        final(v)@ == old(v)@.skip(n as int),
{
    let mut r: Vec<u8> = Vec::new();
    let mut i: usize = n;
    while i < v.len()
        invariant
            n <= i <= v@.len(),
            v@ == old(v)@,
            r@ == v@.subrange(n as int, i as int),
        decreases v@.len() - i,
    {
        proof {
            assert(v@.subrange(n as int, i as int + 1) =~= v@.subrange(n as int, i as int).push(
                v@[i as int],
            ));
        }
        r.push(v[i]);
        i = i + 1;
    }
    proof {
        assert(r@ =~= old(v)@.skip(n as int));
    }
    *v = r;
}


} // verus!
