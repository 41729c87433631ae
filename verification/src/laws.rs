//! Laws of the library, stated and proved over the mathematical models
//! that the components' contracts use.

use vstd::prelude::*;

use crate::page::lace_sum;
use crate::stream_state::{
    enc_laces, enc_of, lace_encode, lemma_enc_laces_concat, lemma_enc_of_laces, next_seq,
    spec_packet_in, spec_page_in, spec_walk, QItemView, StreamView,
};
use crate::page::{spec_bos, spec_continued, spec_eos, spec_granule, spec_segs, spec_seqno, spec_serial, PageView};
use crate::packet::PacketView;

verus! {

// ------------------------------------------------------------------
// Laws.
// ------------------------------------------------------------------

/// Walking the lacing encoding of one packet, followed by further
/// lacing data, yields exactly that packet first — whatever its length,
/// including lengths over 255 bytes and exact multiples of 255.
pub proof fn lemma_walk_packet_prefix(
    data: Seq<u8>,
    acc: Seq<u8>,
    more_l: Seq<u8>,
    more_b: Seq<u8>,
    cur_bos: bool,
    gran: i64,
    eos: bool,
)
    ensures
        ({
            let w = spec_walk(lace_encode(data.len()) + more_l, data + more_b, acc, cur_bos, gran, eos);
            let rest = spec_walk(more_l, more_b, seq![], false, gran, eos);
            &&& w.0 == seq![
                QItemView::Pkt {
                    data: acc + data,
                    granule: if more_l.len() == 0 {
                        gran
                    } else {
                        -1i64
                    },
                    bos: cur_bos,
                    eos: eos && more_l.len() == 0,
                },
            ] + rest.0
            &&& w.1 == rest.1
            &&& w.2 == rest.2
        }),
    decreases data.len(),
{
    reveal(spec_walk);
    let segs = lace_encode(data.len()) + more_l;
    let whole = data + more_b;
    if data.len() < 255 {
        assert(lace_encode(data.len()) == seq![data.len() as u8]);
        assert(segs[0] == data.len() as u8);
        assert(whole.take(data.len() as int) =~= data);
        assert(whole.skip(data.len() as int) =~= more_b);
        assert(segs.skip(1) =~= more_l);
        assert(acc + whole.take(data.len() as int) == acc + data);
        assert((segs.len() == 1) == (more_l.len() == 0));
    } else {
        assert(lace_encode(data.len()) == seq![255u8] + lace_encode((data.len() - 255) as nat));
        assert(segs[0] == 255);
        assert(segs.skip(1) =~= lace_encode((data.len() - 255) as nat) + more_l);
        assert(whole.take(255) =~= data.take(255));
        assert(whole.skip(255) =~= data.skip(255) + more_b);
        lemma_walk_packet_prefix(
            data.skip(255),
            acc + data.take(255),
            more_l,
            more_b,
            cur_bos,
            gran,
            eos,
        );
        assert((acc + data.take(255)) + data.skip(255) =~= acc + data);
        assert(data.skip(255).len() == data.len() - 255);
    }
}

/// The concatenated lacing encodings of a sequence of packets.
pub open spec fn flat_laces(datas: Seq<Seq<u8>>) -> Seq<u8>
    decreases datas.len(),
{
    if datas.len() == 0 {
        seq![]
    } else {
        lace_encode(datas[0].len()) + flat_laces(datas.skip(1))
    }
}

/// The concatenated bytes of a sequence of packets.
pub open spec fn flat_body(datas: Seq<Seq<u8>>) -> Seq<u8>
    decreases datas.len(),
{
    if datas.len() == 0 {
        seq![]
    } else {
        datas[0] + flat_body(datas.skip(1))
    }
}

/// Round trip of packet segmentation: cutting the concatenated lacing
/// encodings of any packet sequence along the packet boundaries they
/// declare recovers exactly those packets' bytes, in order, with
/// nothing left in progress — for every length distribution, including
/// packets longer than one page's segment table can carry and packets
/// whose final segment is exactly 255 bytes.
pub proof fn lemma_segmentation_roundtrip(
    datas: Seq<Seq<u8>>,
    cur_bos: bool,
    gran: i64,
    eos: bool,
)
    ensures
        ({
            let w = spec_walk(flat_laces(datas), flat_body(datas), seq![], cur_bos, gran, eos);
            &&& w.0.len() == datas.len()
            &&& forall|i: int|
                0 <= i < datas.len() ==> (#[trigger] w.0[i]) is Pkt && w.0[i]->Pkt_data
                    == datas[i]
            &&& w.1 == Seq::<u8>::empty()
        }),
    decreases datas.len(),
{
    reveal(spec_walk);
    if datas.len() == 0 {
        assert(flat_laces(datas).len() == 0);
    } else {
        lemma_walk_packet_prefix(
            datas[0],
            seq![],
            flat_laces(datas.skip(1)),
            flat_body(datas.skip(1)),
            cur_bos,
            gran,
            eos,
        );
        lemma_segmentation_roundtrip(datas.skip(1), false, gran, eos);
        let w = spec_walk(flat_laces(datas), flat_body(datas), seq![], cur_bos, gran, eos);
        let rest = spec_walk(
            flat_laces(datas.skip(1)),
            flat_body(datas.skip(1)),
            seq![],
            false,
            gran,
            eos,
        );
        assert(Seq::<u8>::empty() + datas[0] =~= datas[0]);
        assert forall|i: int| 0 <= i < datas.len() implies (#[trigger] w.0[i]) is Pkt
            && w.0[i]->Pkt_data == datas[i] by {
            if i > 0 {
                assert(w.0[i] == rest.0[i - 1]);
                assert(datas[i] == datas.skip(1)[i - 1]);
            }
        }
    }
}

/// Loss detection: when a page arrives whose sequence number does not
/// follow the last one while a packet is in progress, and the page does
/// not continue a packet, the unfinished bytes are dropped and a loss
/// marker is queued after the packets already completed.  Those packets
/// are still extracted normally; at the marker, `packet_out` reports
/// out-of-sync exactly once and then resumes with the new page's
/// packets.
pub proof fn lemma_gap_queues_loss_marker(v: StreamView, h: Seq<u8>, b: Seq<u8>)
    requires
        v.tail is InProgress,
        v.has_pages,
        spec_seqno(h) != next_seq(v.last_seq),
        !spec_continued(h),
    ensures
        spec_page_in(v, h, b).queue == v.queue.push(QItemView::Hole) + spec_walk(
            spec_segs(h),
            b,
            Seq::<u8>::empty(),
            spec_bos(h),
            spec_granule(h),
            spec_eos(h),
        ).0,
{
    reveal(spec_page_in);
    let segs = spec_segs(h);
    assert(segs.take(0) =~= Seq::<u8>::empty());
    assert(lace_sum(segs.take(0)) == 0);
    assert(segs.skip(0) =~= segs);
    assert(b.skip(0) =~= b);
}

/// The state an assembler reaches on a page sequence, rejecting pages
/// of other logical streams as `page_in` does.
pub open spec fn spec_route(v: StreamView, pages: Seq<PageView>) -> StreamView
    decreases pages.len(),
{
    if pages.len() == 0 {
        v
    } else {
        let v1 = if spec_serial(pages[0].header) == v.serial {
            spec_page_in(v, pages[0].header, pages[0].body)
        } else {
            v
        };
        spec_route(v1, pages.skip(1))
    }
}

/// The subsequence of pages bearing one serial number, in order.
pub open spec fn pages_for(pages: Seq<PageView>, serial: i32) -> Seq<PageView>
    decreases pages.len(),
{
    if pages.len() == 0 {
        seq![]
    } else if spec_serial(pages[0].header) == serial {
        seq![pages[0]] + pages_for(pages.skip(1), serial)
    } else {
        pages_for(pages.skip(1), serial)
    }
}

/// Consuming a page never changes the assembler's serial number.
pub proof fn lemma_page_in_keeps_serial(v: StreamView, h: Seq<u8>, b: Seq<u8>)
    ensures
        spec_page_in(v, h, b).serial == v.serial,
{
    reveal(spec_page_in);
}

/// Stream isolation: an assembler fed an interleaved page sequence
/// reaches exactly the state it reaches on the subsequence of pages
/// bearing its own serial number — pages of other logical streams,
/// which `page_in` rejects unchanged, have no effect on it, whatever
/// the interleaving order.
pub proof fn lemma_stream_isolation(v: StreamView, pages: Seq<PageView>)
    ensures
        spec_route(v, pages) == spec_route(v, pages_for(pages, v.serial)),
    decreases pages.len(),
{
    if pages.len() == 0 {
    } else {
        let p = pages[0];
        let rest = pages.skip(1);
        if spec_serial(p.header) == v.serial {
            let v1 = spec_page_in(v, p.header, p.body);
            lemma_page_in_keeps_serial(v, p.header, p.body);
            lemma_stream_isolation(v1, rest);
            let fp = seq![p] + pages_for(rest, v.serial);
            assert(pages_for(pages, v.serial) == fp);
            assert(fp[0] == p);
            assert(fp.skip(1) =~= pages_for(rest, v.serial));
            assert(spec_route(v, fp) == spec_route(v1, pages_for(rest, v1.serial)));
        } else {
            lemma_stream_isolation(v, rest);
            assert(pages_for(pages, v.serial) == pages_for(rest, v.serial));
        }
    }
}


/// The assembler state after queueing a sequence of packets for
/// encoding, one `packet_in` at a time.
pub open spec fn spec_queue_all(v: StreamView, pkts: Seq<PacketView>) -> StreamView
    decreases pkts.len(),
{
    if pkts.len() == 0 {
        v
    } else {
        spec_packet_in(spec_queue_all(v, pkts.drop_last()), pkts.last())
    }
}

/// The data bytes of a sequence of packets.
pub open spec fn packet_datas(pkts: Seq<PacketView>) -> Seq<Seq<u8>> {
    pkts.map_values(|p: PacketView| p.data)
}

/// Appending one packet appends its lacing encoding and its bytes.
proof fn lemma_flat_snoc(datas: Seq<Seq<u8>>, d: Seq<u8>)
    ensures
        flat_laces(datas.push(d)) == flat_laces(datas) + lace_encode(d.len()),
        flat_body(datas.push(d)) == flat_body(datas) + d,
    decreases datas.len(),
{
    assert(flat_laces(Seq::<Seq<u8>>::empty()) == Seq::<u8>::empty());
    assert(flat_body(Seq::<Seq<u8>>::empty()) == Seq::<u8>::empty());
    if datas.len() == 0 {
        assert(datas.push(d)[0] == d);
        assert(datas.push(d).skip(1) =~= Seq::<Seq<u8>>::empty());
        assert(flat_laces(datas.push(d).skip(1)) == Seq::<u8>::empty());
        assert(flat_body(datas.push(d).skip(1)) == Seq::<u8>::empty());
        assert(flat_laces(datas.push(d)) =~= flat_laces(datas) + lace_encode(d.len()));
        assert(flat_body(datas.push(d)) =~= flat_body(datas) + d);
    } else {
        assert(datas.push(d)[0] == datas[0]);
        assert(datas.push(d).skip(1) =~= datas.skip(1).push(d));
        lemma_flat_snoc(datas.skip(1), d);
        assert(flat_laces(datas.push(d)) =~= flat_laces(datas) + lace_encode(d.len()));
        assert(flat_body(datas.push(d)) =~= flat_body(datas) + d);
    }
}

/// Queueing packets into an assembler with empty pending data leaves
/// exactly the concatenated lacing encodings of their data as pending
/// lacing values, and their concatenated bytes as pending body.
pub proof fn lemma_queue_accumulates_lacing(v: StreamView, pkts: Seq<PacketView>)
    requires
        v.esegs.len() == 0,
        v.ebody.len() == 0,
    ensures
        enc_laces(spec_queue_all(v, pkts).esegs) == flat_laces(packet_datas(pkts)),
        spec_queue_all(v, pkts).ebody == flat_body(packet_datas(pkts)),
    decreases pkts.len(),
{
    if pkts.len() == 0 {
        assert(enc_laces(v.esegs) =~= Seq::<u8>::empty());
        assert(flat_laces(packet_datas(pkts)) =~= Seq::<u8>::empty());
        assert(flat_body(packet_datas(pkts)) =~= Seq::<u8>::empty());
        assert(v.ebody =~= Seq::<u8>::empty());
    } else {
        lemma_queue_accumulates_lacing(v, pkts.drop_last());
        let prev = spec_queue_all(v, pkts.drop_last());
        let p = pkts.last();
        lemma_enc_laces_concat(prev.esegs, enc_of(p.data.len(), p.absgp, p.ends));
        lemma_enc_of_laces(p.data.len(), p.absgp, p.ends);
        assert(packet_datas(pkts) =~= packet_datas(pkts.drop_last()).push(p.data));
        lemma_flat_snoc(packet_datas(pkts.drop_last()), p.data);
    }
}

/// Packet round trip: queueing any sequence of packets into a fresh
/// assembler and cutting the whole pending lacing data back along the
/// packet boundaries it declares yields exactly the original packets'
/// bytes, in order, with nothing left in progress — for any length
/// distribution, including packets spanning many pages and packets
/// whose final segment is exactly 255 bytes.  Pages transport disjoint
/// consecutive spans of this lacing data: `emit_page` cuts it only at
/// segment borders and `page_in` replays it in order.
pub proof fn lemma_packet_roundtrip(
    v: StreamView,
    pkts: Seq<PacketView>,
    cur_bos: bool,
    gran: i64,
    eos: bool,
)
    requires
        v.esegs.len() == 0,
        v.ebody.len() == 0,
    ensures
        ({
            let q = spec_queue_all(v, pkts);
            let w = spec_walk(enc_laces(q.esegs), q.ebody, seq![], cur_bos, gran, eos);
            &&& w.0.len() == pkts.len()
            &&& forall|i: int|
                0 <= i < pkts.len() ==> (#[trigger] w.0[i]) is Pkt && w.0[i]->Pkt_data
                    == pkts[i].data
            &&& w.1 == Seq::<u8>::empty()
        }),
{
    lemma_queue_accumulates_lacing(v, pkts);
    lemma_segmentation_roundtrip(packet_datas(pkts), cur_bos, gran, eos);
    let q = spec_queue_all(v, pkts);
    let w = spec_walk(enc_laces(q.esegs), q.ebody, seq![], cur_bos, gran, eos);
    assert forall|i: int| 0 <= i < pkts.len() implies (#[trigger] w.0[i]) is Pkt
        && w.0[i]->Pkt_data == pkts[i].data by {
        assert(packet_datas(pkts)[i] == pkts[i].data);
    }
}

} // verus!
