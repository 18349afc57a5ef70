//! What the readers give back of what the writers wrote: the pcapng file header
//! opens a little-endian section with one USB interface in microseconds, an event's
//! packet block reads back as that event, as far as the format keeps it, and the
//! kernel counter summary that ends a raw archive reads back as its loss counts, and
//! a published event's records reassemble into that event.
use crate::archive::{
    kernel_summary, law_decode_meta_inverts_wire, lemma_meta_of_bytes_unique, meta_fault,
    meta_of_bytes, Event, RecordError, MAX_RECORD_SIZE,
};
use crate::bytes::{bits_of_i32, i32_of, le_bytes, le_value, lemma_le_bytes_len, lemma_le_roundtrip, lemma_pow256, pow256};
use crate::pcapng::{
    caplen, data_len, desc_bytes, desc_len, header_back, header_front, header_middle, iso_bytes,
    block_bytes, file_header, interface_body, le32, micros, packet_block, packet_head, padding,
    section_body, size_fault, total_len, usb_header,
};
use crate::pcapng_read::{
    block_step, declared_length, desc_at, iso_check, packet_meta, with_requested, Endian, Interface,
    Packet, PcapError, ReaderView, MAX_UNMATCHED_SUBMISSIONS,
};
use crate::reassembly::{
    end_confirms, interval, record_step, sat_add, with_stats, write_at, Finished, PendingView,
    ReassemblerView, ReassemblyStats, MAX_PENDING_EVENTS,
};
use crate::wire::{
    CaptureStats, EventEnd, EventMeta, IsoDescriptor, RecordHeader, ABI_VERSION,
    COMPLETE, RECORD_BEGIN, RECORD_DATA, RECORD_END, RECORD_STATS,
};
use vstd::prelude::*;

verus! {

broadcast proof fn lemma_le_bytes_len_auto(v: nat, n: nat)
    ensures
        #[trigger] le_bytes(v, n).len() == n,
{
    lemma_le_bytes_len(v, n);
}

/// A field's value depends only on its own bytes.
proof fn lemma_le_value_ext(b1: Seq<u8>, a1: int, b2: Seq<u8>, a2: int, n: nat)
    requires
        forall|k: int| a1 <= k < a1 + n ==> #[trigger] b1[k] == b2[k - a1 + a2],
    ensures
        le_value(b1, a1, n) == le_value(b2, a2, n),
    decreases n,
{
    if n > 0 {
        assert(b1[a1] == b2[a2]);
        lemma_le_value_ext(b1, a1 + 1, b2, a2 + 1, (n - 1) as nat);
    }
}

/// Where `b` holds `le_bytes(v, n)` at `at`, the field at `at` reads `v`.
proof fn lemma_le_at(b: Seq<u8>, at: int, v: nat, n: nat)
    requires
        0 <= at,
        at + n <= b.len(),
        v < pow256(n),
        b.subrange(at, at + n) == le_bytes(v, n),
    ensures
        le_value(b, at, n) == v,
{
    lemma_le_bytes_len(v, n);
    assert forall|k: int| at <= k < at + n implies #[trigger] b[k] == le_bytes(v, n)[k - at] by {
        assert(b.subrange(at, at + n)[k - at] == b[k]);
    }
    lemma_le_value_ext(b, at, le_bytes(v, n), 0, n);
    lemma_le_roundtrip(v, n);
}

proof fn lemma_i32_bits(v: i32)
    ensures
        i32_of(bits_of_i32(v)) == v,
        (bits_of_i32(v) as nat) < pow256(4),
{
    lemma_pow256();
}

proof fn lemma_iso_bytes_len(iso: Seq<IsoDescriptor>)
    ensures
        iso_bytes(iso).len() == 16 * iso.len(),
    decreases iso.len(),
{
    broadcast use lemma_le_bytes_len_auto;

    if iso.len() > 0 {
        lemma_iso_bytes_len(iso.drop_last());
    }
}

/// Descriptor `k` sits at bytes `16 k` to `16 k + 16` of the descriptor list.
proof fn lemma_iso_bytes_at(iso: Seq<IsoDescriptor>, k: int)
    requires
        0 <= k < iso.len(),
    ensures
        iso_bytes(iso).subrange(16 * k, 16 * k + 16) == desc_bytes(iso[k]),
    decreases iso.len(),
{
    broadcast use lemma_le_bytes_len_auto;

    let init = iso.drop_last();
    lemma_iso_bytes_len(iso);
    lemma_iso_bytes_len(init);
    if k < iso.len() - 1 {
        lemma_iso_bytes_at(init, k);
        assert(iso_bytes(iso).subrange(16 * k, 16 * k + 16) =~= iso_bytes(init).subrange(
            16 * k,
            16 * k + 16,
        ));
    } else {
        assert(iso_bytes(iso).subrange(16 * k, 16 * k + 16) =~= desc_bytes(iso[k]));
    }
}

/// The length of an event's packet block.
proof fn lemma_block_len(e: Event)
    requires
        size_fault(e) is None,
        e.payload@.len() >= e.meta.payload_len,
    ensures
        packet_block(e).len() == total_len(e),
        total_len(e) == 92 + 16 * e.iso@.len() + e.meta.payload_len + padding(e) + 4,
{
    lemma_layout(e);
}

/// Where each part of an event's packet block lies.
proof fn lemma_layout(e: Event)
    requires
        size_fault(e) is None,
        e.payload@.len() >= e.meta.payload_len,
    ensures
        ({
            let b = packet_block(e);
            let n = 16 * e.iso@.len();
            let pl = e.meta.payload_len as int;
            &&& b.len() == total_len(e)
            &&& b.len() == 92 + n + pl + padding(e) + 4
            &&& packet_head(e).len() == 28
            &&& usb_header(e.meta, data_len(e)).len() == 64
            &&& forall|i: int| 0 <= i < 28 ==> #[trigger] b[i] == packet_head(e)[i]
            &&& forall|i: int| 28 <= i < 92 ==> #[trigger] b[i] == usb_header(e.meta, data_len(e))[i - 28]
            &&& forall|i: int| 92 <= i < 92 + n ==> #[trigger] b[i] == iso_bytes(e.iso@)[i - 92]
            &&& forall|i: int| 92 + n <= i < 92 + n + pl ==> #[trigger] b[i] == e.payload@[i - 92 - n]
            &&& forall|i: int| b.len() - 4 <= i < b.len() ==> #[trigger] b[i] == le32(total_len(e))[i - (b.len() - 4)]
        }),
{
    broadcast use lemma_le_bytes_len_auto;

    let m = e.meta;
    lemma_iso_bytes_len(e.iso@);
    assert(header_front(m, data_len(e)).len() == 40);
    assert(header_middle(m).len() == 8);
    assert(header_back(m).len() == 16);
    let h = packet_head(e);
    let u = usb_header(m, data_len(e));
    let d = iso_bytes(e.iso@);
    let p = e.payload@.take(m.payload_len as int);
    let z = Seq::new(padding(e) as nat, |i: int| 0u8);
    let f = le32(total_len(e));
    assert(packet_block(e) == h + u + d + p + z + f);
}

/// The block header of an event's packet block, field by field.
proof fn lemma_head_fields(e: Event)
    requires
        size_fault(e) is None,
        e.payload@.len() >= e.meta.payload_len,
    ensures
        ({
            let b = packet_block(e);
            let ts = micros(e.meta);
            &&& le_value(b, 0, 4) == 6
            &&& le_value(b, 4, 4) == total_len(e)
            &&& le_value(b, 8, 4) == 0
            &&& le_value(b, 12, 4) == ts / 0x1_0000_0000
            &&& le_value(b, 16, 4) == ts % 0x1_0000_0000
            &&& le_value(b, 20, 4) == caplen(e)
            &&& le_value(b, 24, 4) == caplen(e)
            &&& le_value(b, b.len() - 4, 4) == b.len()
            &&& b[0] == 6
        }),
{
    broadcast use lemma_le_bytes_len_auto;

    lemma_pow256();
    lemma_layout(e);
    let b = packet_block(e);
    let ts = micros(e.meta);
    assert(b.subrange(0, 4) =~= le32(6));
    lemma_le_at(b, 0, 6, 4);
    assert(b.subrange(4, 8) =~= le32(total_len(e)));
    lemma_le_at(b, 4, total_len(e) as nat, 4);
    assert(b.subrange(8, 12) =~= le32(0));
    lemma_le_at(b, 8, 0, 4);
    assert(b.subrange(12, 16) =~= le32(ts / 0x1_0000_0000));
    lemma_le_at(b, 12, (ts / 0x1_0000_0000) as nat, 4);
    assert(b.subrange(16, 20) =~= le32(ts % 0x1_0000_0000));
    lemma_le_at(b, 16, (ts % 0x1_0000_0000) as nat, 4);
    assert(b.subrange(20, 24) =~= le32(caplen(e)));
    lemma_le_at(b, 20, caplen(e) as nat, 4);
    assert(b.subrange(24, 28) =~= le32(caplen(e)));
    lemma_le_at(b, 24, caplen(e) as nat, 4);
    assert(b.subrange(b.len() - 4, b.len() as int) =~= le32(total_len(e)));
    lemma_le_at(b, b.len() - 4, total_len(e) as nat, 4);
    assert(le_bytes(6, 4)[0] == 6);
}

/// The length the USB header gives for the URB: requested on submission, else actual.
pub open spec fn urb_len(m: EventMeta) -> u32 {
    if m.event_type == 0x53 {
        m.requested_len
    } else {
        m.actual_len
    }
}

/// The Linux USB header of an event's packet block, field by field.
proof fn lemma_usb_fields(e: Event)
    requires
        size_fault(e) is None,
        e.payload@.len() >= e.meta.payload_len,
    ensures
        ({
            let b = packet_block(e);
            let m = e.meta;
            &&& le_value(b, 28, 8) == m.urb_id
            &&& b[36] == m.event_type
            &&& b[37] == m.transfer_type
            &&& b[38] == m.endpoint
            &&& b[39] == m.device
            &&& le_value(b, 40, 2) == m.bus
            &&& (b[42] == 0) == (m.setup_present != 0)
            &&& (b[43] == 0) == (m.has_data != 0)
            &&& le_value(b, 56, 4) == bits_of_i32(m.status)
            &&& le_value(b, 60, 4) == urb_len(m)
            &&& le_value(b, 64, 4) == data_len(e)
            &&& m.transfer_type == 0 ==> le_value(b, 68, 4) == bits_of_i32(m.error_count)
                && le_value(b, 72, 4) == m.iso_count
            &&& m.transfer_type != 0 && m.setup_present != 0 ==> b.subrange(68, 76) == m.setup@
            &&& le_value(b, 76, 4) == bits_of_i32(m.interval)
            &&& le_value(b, 80, 4) == bits_of_i32(m.start_frame)
            &&& le_value(b, 84, 4) == m.transfer_flags
            &&& le_value(b, 88, 4) == m.iso_count
        }),
{
    broadcast use lemma_le_bytes_len_auto;

    lemma_pow256();
    lemma_layout(e);
    let b = packet_block(e);
    let m = e.meta;
    let ts = micros(m);
    assert(b.subrange(28, 36) =~= le_bytes(m.urb_id as nat, 8));
    lemma_le_at(b, 28, m.urb_id as nat, 8);
    assert(b.subrange(40, 42) =~= le_bytes(m.bus as nat, 2));
    lemma_le_at(b, 40, m.bus as nat, 2);
    lemma_i32_bits(m.status);
    assert(b.subrange(56, 60) =~= le32(bits_of_i32(m.status) as int));
    lemma_le_at(b, 56, bits_of_i32(m.status) as nat, 4);
    assert(b.subrange(60, 64) =~= le32(urb_len(m) as int));
    lemma_le_at(b, 60, urb_len(m) as nat, 4);
    assert(b.subrange(64, 68) =~= le32(data_len(e)));
    lemma_le_at(b, 64, data_len(e) as nat, 4);
    if m.transfer_type == 0 {
        lemma_i32_bits(m.error_count);
        assert(b.subrange(68, 72) =~= le32(bits_of_i32(m.error_count) as int));
        lemma_le_at(b, 68, bits_of_i32(m.error_count) as nat, 4);
        assert(b.subrange(72, 76) =~= le32(m.iso_count as int));
        lemma_le_at(b, 72, m.iso_count as nat, 4);
    } else if m.setup_present != 0 {
        assert(b.subrange(68, 76) =~= m.setup@);
    }
    lemma_i32_bits(m.interval);
    assert(b.subrange(76, 80) =~= le32(bits_of_i32(m.interval) as int));
    lemma_le_at(b, 76, bits_of_i32(m.interval) as nat, 4);
    lemma_i32_bits(m.start_frame);
    assert(b.subrange(80, 84) =~= le32(bits_of_i32(m.start_frame) as int));
    lemma_le_at(b, 80, bits_of_i32(m.start_frame) as nat, 4);
    assert(b.subrange(84, 88) =~= le32(m.transfer_flags as int));
    lemma_le_at(b, 84, m.transfer_flags as nat, 4);
    assert(b.subrange(88, 92) =~= le32(m.iso_count as int));
    lemma_le_at(b, 88, m.iso_count as nat, 4);
}

/// An ISO descriptor as it reads back: everything but the padding field, which the
/// format does not keep.
pub open spec fn kept(d: IsoDescriptor) -> IsoDescriptor {
    IsoDescriptor { padding: 0, ..d }
}

/// A descriptor's bytes read back as the descriptor, padding aside.
proof fn lemma_desc_read(b: Seq<u8>, at: int, d: IsoDescriptor)
    requires
        0 <= at,
        at + 16 <= b.len(),
        forall|j: int| 0 <= j < 16 ==> b[at + j] == #[trigger] desc_bytes(d)[j],
    ensures
        desc_at(Endian::Little, b, at) == kept(d),
{
    broadcast use lemma_le_bytes_len_auto;

    lemma_pow256();
    assert(desc_bytes(d).len() == 16);
    lemma_i32_bits(d.status);
    assert forall|j: int| 0 <= j < 4 implies b.subrange(at, at + 4)[j] == le32(
        bits_of_i32(d.status) as int,
    )[j] by {
        assert(b[at + j] == desc_bytes(d)[j]);
    }
    assert(b.subrange(at, at + 4) =~= le32(bits_of_i32(d.status) as int));
    lemma_le_at(b, at, bits_of_i32(d.status) as nat, 4);
    assert forall|j: int| 0 <= j < 4 implies b.subrange(at + 4, at + 8)[j] == le32(
        d.offset as int,
    )[j] by {
        assert(b[at + (4 + j)] == desc_bytes(d)[4 + j]);
    }
    assert(b.subrange(at + 4, at + 8) =~= le32(d.offset as int));
    lemma_le_at(b, at + 4, d.offset as nat, 4);
    assert forall|j: int| 0 <= j < 4 implies b.subrange(at + 8, at + 12)[j] == le32(
        d.length as int,
    )[j] by {
        assert(b[at + (8 + j)] == desc_bytes(d)[8 + j]);
    }
    assert(b.subrange(at + 8, at + 12) =~= le32(d.length as int));
    lemma_le_at(b, at + 8, d.length as nat, 4);
}

/// The descriptors and payload of an event's packet block.
proof fn lemma_body_fields(e: Event)
    requires
        size_fault(e) is None,
        e.payload@.len() >= e.meta.payload_len,
    ensures
        ({
            let b = packet_block(e);
            let n = e.iso@.len() as int;
            let start = 92 + 16 * n;
            &&& forall|k: int| 0 <= k < n ==> #[trigger] desc_at(Endian::Little, b, 92 + 16 * k)
                == kept(e.iso@[k])
            &&& b.subrange(start, start + e.meta.payload_len) == e.payload@.take(
                e.meta.payload_len as int,
            )
        }),
{
    lemma_layout(e);
    let b = packet_block(e);
    let n = e.iso@.len() as int;
    let start = 92 + 16 * n;
    let iso = e.iso@;
    lemma_iso_bytes_len(iso);
    assert forall|k: int| 0 <= k < n implies #[trigger] desc_at(Endian::Little, b, 92 + 16 * k)
        == kept(iso[k]) by {
        let at = 92 + 16 * k;
        lemma_iso_bytes_at(iso, k);
        assert forall|j: int| 0 <= j < 16 implies b[at + j] == #[trigger] desc_bytes(iso[k])[j] by {
            assert(iso_bytes(iso).subrange(16 * k, 16 * k + 16)[j] == iso_bytes(iso)[16 * k + j]);
            assert(b[at + j] == iso_bytes(iso)[(at + j) - 92]);
        }
        lemma_desc_read(b, at, iso[k]);
    }
    assert(b.subrange(start, start + e.meta.payload_len) =~= e.payload@.take(
        e.meta.payload_len as int,
    ));
}

/// Whether `r` reads packets of interface 0 the way the writer's file header
/// describes them: a little-endian section whose first interface carries Linux USB
/// (memory-mapped) packets timed in microseconds with no offset.
pub open spec fn reads_writer_interface(r: ReaderView) -> bool {
    &&& r.section
    &&& r.endian == Endian::Little
    &&& r.interfaces.len() > 0
    &&& r.interfaces[0].linktype == 220
    &&& r.interfaces[0].units == 1_000_000
    &&& r.interfaces[0].offset == 0
}

/// Whether the reader knows the requested length of `m`'s URB: a submission carries
/// it, a completion needs its submission read before.
pub open spec fn knows_request(r: ReaderView, m: EventMeta) -> bool {
    m.event_type == 0x53 || r.requested.contains_key(m.urb_id)
}

/// The requested length the reader gives `m`'s URB, 0 where it does not know it.
pub open spec fn request_seen(r: ReaderView, m: EventMeta) -> u32 {
    if m.event_type == 0x53 {
        m.requested_len
    } else if r.requested.contains_key(m.urb_id) {
        r.requested[m.urb_id]
    } else {
        0
    }
}

/// Whether `e`, written as a packet block and read in state `r`, comes back as a
/// packet: it fits the format, its header is one the reader accepts, its
/// descriptors lie inside the URB buffer and the captured bytes, it does not
/// overflow the table of unmatched submissions, and a non-ISO payload is whole.
pub open spec fn round_trips(r: ReaderView, e: Event) -> bool {
    let m = e.meta;
    &&& size_fault(e) is None
    &&& e.payload@.len() >= m.payload_len
    &&& (m.event_type == 0x53 || m.event_type == 0x43 || m.event_type == 0x45)
    &&& m.transfer_type <= 3
    &&& m.device <= 127
    &&& m.iso_count == e.iso@.len()
    &&& (m.transfer_type != 0 ==> e.iso@.len() == 0)
    &&& (m.has_data != 0 || m.payload_len == 0)
    &&& (m.event_type == 0x53 ==> r.requested.len() < MAX_UNMATCHED_SUBMISSIONS)
    &&& iso_check(e.iso@, knows_request(r, m), request_seen(r, m), m.has_data != 0, m.payload_len)
        is None
    &&& (m.transfer_type != 0 && m.has_data != 0 ==> m.payload_len == urb_len(m))
}

/// Whether packet `p`, read in state `r`, is event `e` as the format keeps it: the
/// timestamp in whole microseconds, presence flags as 0 or 1, the requested length
/// as far as the reader knows it, the actual length of completions only, the error
/// count of ISO transfers only, the setup bytes of non-ISO transfers that have
/// them, no VID or PID, descriptors without their padding, and the payload span.
pub open spec fn read_back(p: Packet, r: ReaderView, e: Event) -> bool {
    let m = e.meta;
    let q = p.0;
    &&& q.urb_id == m.urb_id
    &&& q.timestamp_ns == micros(m) * 1000
    &&& q.bus == m.bus
    &&& q.device == m.device
    &&& q.endpoint == m.endpoint
    &&& q.transfer_type == m.transfer_type
    &&& q.event_type == m.event_type
    &&& q.setup_present == (if m.setup_present != 0 {
        1u8
    } else {
        0u8
    })
    &&& q.has_data == (if m.has_data != 0 {
        1u8
    } else {
        0u8
    })
    &&& q.status == m.status
    &&& q.requested_len == request_seen(r, m)
    &&& q.actual_len == (if m.event_type == 0x53 {
        0u32
    } else {
        m.actual_len
    })
    &&& q.payload_len == m.payload_len
    &&& q.interval == m.interval
    &&& q.start_frame == m.start_frame
    &&& q.transfer_flags == m.transfer_flags
    &&& q.iso_count == m.iso_count
    &&& q.error_count == (if m.transfer_type == 0 {
        m.error_count
    } else {
        0i32
    })
    &&& q.vid == 0
    &&& q.pid == 0
    &&& q.setup@ == (if m.transfer_type != 0 && m.setup_present != 0 {
        m.setup@
    } else {
        Seq::new(8, |i: int| 0u8)
    })
    &&& p.1 == Seq::new(e.iso@.len(), |k: int| kept(e.iso@[k]))
    &&& p.2 == e.payload@.take(m.payload_len as int)
    &&& p.3 == knows_request(r, m)
    &&& p.4 == r.interfaces[0].source
}

/// The reader's table of unmatched submissions once it has read `m`.
pub open spec fn requests_after(r: ReaderView, m: EventMeta) -> Map<u64, u32> {
    if m.event_type == 0x53 {
        r.requested.insert(m.urb_id, m.requested_len)
    } else {
        r.requested.remove(m.urb_id)
    }
}

/// The descriptor check reads only offsets and lengths.
proof fn lemma_iso_check_kept(
    ds: Seq<IsoDescriptor>,
    known: bool,
    requested: u32,
    has_data: bool,
    payload_len: u32,
)
    ensures
        iso_check(Seq::new(ds.len(), |k: int| kept(ds[k])), known, requested, has_data, payload_len)
            == iso_check(ds, known, requested, has_data, payload_len),
    decreases ds.len(),
{
    let ks = Seq::new(ds.len(), |k: int| kept(ds[k]));
    if ds.len() > 0 {
        let init = ds.drop_last();
        lemma_iso_check_kept(init, known, requested, has_data, payload_len);
        assert(ks.drop_last() =~= Seq::new(init.len(), |k: int| kept(init[k])));
    }
}

/// What the packet block `b` of `e` holds, field by field.
spec fn block_holds(b: Seq<u8>, e: Event) -> bool {
    let m = e.meta;
    let ts = micros(m);
    let n = e.iso@.len() as int;
    let start = 92 + 16 * n;
    &&& b.len() == total_len(e)
    &&& total_len(e) == 92 + 16 * n + m.payload_len + padding(e) + 4
    &&& le_value(b, 0, 4) == 6
    &&& le_value(b, 4, 4) == total_len(e)
    &&& le_value(b, 8, 4) == 0
    &&& le_value(b, 12, 4) == ts / 0x1_0000_0000
    &&& le_value(b, 16, 4) == ts % 0x1_0000_0000
    &&& le_value(b, 20, 4) == caplen(e)
    &&& le_value(b, 24, 4) == caplen(e)
    &&& le_value(b, b.len() - 4, 4) == b.len()
    &&& b[0] == 6
    &&& le_value(b, 28, 8) == m.urb_id
    &&& b[36] == m.event_type
    &&& b[37] == m.transfer_type
    &&& b[38] == m.endpoint
    &&& b[39] == m.device
    &&& le_value(b, 40, 2) == m.bus
    &&& (b[42] == 0) == (m.setup_present != 0)
    &&& (b[43] == 0) == (m.has_data != 0)
    &&& le_value(b, 56, 4) == bits_of_i32(m.status)
    &&& le_value(b, 60, 4) == urb_len(m)
    &&& le_value(b, 64, 4) == data_len(e)
    &&& m.transfer_type == 0 ==> le_value(b, 68, 4) == bits_of_i32(m.error_count) && le_value(
        b,
        72,
        4,
    ) == m.iso_count
    &&& m.transfer_type != 0 && m.setup_present != 0 ==> b.subrange(68, 76) == m.setup@
    &&& le_value(b, 76, 4) == bits_of_i32(m.interval)
    &&& le_value(b, 80, 4) == bits_of_i32(m.start_frame)
    &&& le_value(b, 84, 4) == m.transfer_flags
    &&& le_value(b, 88, 4) == m.iso_count
    &&& forall|k: int| 0 <= k < n ==> #[trigger] desc_at(Endian::Little, b, 92 + 16 * k) == kept(
        e.iso@[k],
    )
    &&& b.subrange(start, start + m.payload_len) == e.payload@.take(m.payload_len as int)
}

/// Reading a block that holds `e`'s fields.
#[verifier::rlimit(100)]
#[verifier::spinoff_prover]
proof fn lemma_block_reads_back(r: ReaderView, e: Event, b: Seq<u8>)
    requires
        reads_writer_interface(r),
        round_trips(r, e),
        block_holds(b, e),
    ensures
        declared_length(r, b.take(12)) == Ok::<nat, PcapError>(total_len(e) as nat),
        block_step(r, b).0 == with_requested(r, requests_after(r, e.meta)),
        block_step(r, b).1 matches Ok(Some(p)) && read_back(p, r, e),
{
    broadcast use vstd::array::group_array_axioms;

    lemma_pow256();
    let m = e.meta;
    lemma_i32_bits(m.status);
    lemma_i32_bits(m.interval);
    lemma_i32_bits(m.start_frame);
    lemma_i32_bits(m.error_count);
    let ts = micros(m);
    assert(b.take(12)[0] == b[0]);
    assert(le_value(b.take(12), 4, 4) == le_value(b, 4, 4)) by {
        lemma_le_value_ext(b.take(12), 4, b, 4, 4);
    }
    let ticks = le_value(b, 12, 4) * 0x1_0000_0000 + le_value(b, 16, 4);
    assert(ticks == ts);
    assert((ticks * 1_000_000_000) / 1_000_000 == ticks * 1000) by (nonlinear_arith);
    assert(ts * 1000 <= m.timestamp_ns);
    let cl = caplen(e);
    assert((cl + 3) / 4 * 4 == cl + padding(e));
    assert(total_len(e) % 4 == 0);
    let submit = m.event_type == 0x53;
    let known = knows_request(r, m);
    let requested = request_seen(r, m);
    let actual: u32 = if submit {
        0
    } else {
        m.actual_len
    };
    let errors: i32 = if m.transfer_type == 0 {
        m.error_count
    } else {
        0
    };
    let setup = if m.transfer_type != 0 && m.setup_present != 0 {
        m.setup@
    } else {
        Seq::new(8, |i: int| 0u8)
    };
    let zero: [u8; 8] = vstd::array::spec_array_fill_for_copy_type::<u8, 8>(0u8);
    assert(zero@ =~= Seq::new(8, |i: int| 0u8));
    let w = EventMeta {
        urb_id: m.urb_id,
        timestamp_ns: (ts * 1000) as u64,
        bus: m.bus,
        device: m.device,
        endpoint: m.endpoint,
        transfer_type: m.transfer_type,
        event_type: m.event_type,
        setup_present: if m.setup_present != 0 {
            1u8
        } else {
            0u8
        },
        has_data: if m.has_data != 0 {
            1u8
        } else {
            0u8
        },
        status: m.status,
        requested_len: requested,
        actual_len: actual,
        payload_len: m.payload_len,
        interval: m.interval,
        start_frame: m.start_frame,
        transfer_flags: m.transfer_flags,
        iso_count: m.iso_count,
        error_count: errors,
        vid: 0,
        pid: 0,
        setup: if m.transfer_type != 0 && m.setup_present != 0 {
            m.setup
        } else {
            zero
        },
    };
    assert(packet_meta(
        w,
        Endian::Little,
        b,
        ts * 1000,
        requested,
        actual,
        m.payload_len,
        errors,
        setup,
    ));
    let iso = Seq::new(m.iso_count as nat, |k: int| desc_at(Endian::Little, b, 92 + 16 * k));
    assert(iso =~= Seq::new(e.iso@.len(), |k: int| kept(e.iso@[k])));
    lemma_iso_check_kept(e.iso@, known, requested, m.has_data != 0, m.payload_len);
    let out = block_step(r, b).1;
    assert(out is Ok && out->Ok_0 is Some);
    let p = out->Ok_0->Some_0;
    assert(packet_meta(p.0, Endian::Little, b, ts * 1000, requested, actual, m.payload_len, errors, setup));
    assert(p.1 == iso);
}


/// An event's packet block reads back as that event: its first twelve bytes give
/// the block's length, and the block, read where interface 0 is the writer's,
/// yields the event as the format keeps it (see [`read_back`]) and records or
/// settles its submission.
pub proof fn law_packet_reads_back(r: ReaderView, e: Event)
    requires
        reads_writer_interface(r),
        round_trips(r, e),
    ensures
        declared_length(r, packet_block(e).take(12)) == Ok::<nat, PcapError>(total_len(e) as nat),
        block_step(r, packet_block(e)).0 == with_requested(r, requests_after(r, e.meta)),
        block_step(r, packet_block(e)).1 matches Ok(Some(p)) && read_back(p, r, e),
{
    lemma_block_len(e);
    lemma_head_fields(e);
    lemma_usb_fields(e);
    lemma_body_fields(e);
    lemma_block_reads_back(r, e, packet_block(e));
}

/// The section header block the writer starts a file with.
pub open spec fn section_block() -> Seq<u8> {
    block_bytes(0x0a0d0d0a, section_body())
}

/// The interface description block that follows it.
pub open spec fn interface_block() -> Seq<u8> {
    block_bytes(1, interface_body())
}

proof fn lemma_header_bytes()
    ensures
        section_block() == seq![
            10u8, 13, 13, 10, 28, 0, 0, 0, 0x4d, 0x3c, 0x2b, 0x1a, 1, 0, 0, 0,
            255, 255, 255, 255, 255, 255, 255, 255, 28, 0, 0, 0,
        ],
        interface_block() == seq![
            1u8, 0, 0, 0, 20, 0, 0, 0, 220, 0, 0, 0, 0, 0, 0, 0, 20, 0, 0, 0,
        ],
{
    reveal_with_fuel(le_bytes, 5);
    assert(le32(0x0a0d0d0a) =~= seq![10u8, 13, 13, 10]);
    assert(le32(28) =~= seq![28u8, 0, 0, 0]);
    assert(le32(1) =~= seq![1u8, 0, 0, 0]);
    assert(le32(20) =~= seq![20u8, 0, 0, 0]);
    assert(section_block() =~= seq![
        10u8, 13, 13, 10, 28, 0, 0, 0, 0x4d, 0x3c, 0x2b, 0x1a, 1, 0, 0, 0,
        255, 255, 255, 255, 255, 255, 255, 255, 28, 0, 0, 0,
    ]);
    assert(interface_block() =~= seq![
        1u8, 0, 0, 0, 20, 0, 0, 0, 220, 0, 0, 0, 0, 0, 0, 0, 20, 0, 0, 0,
    ]);
}

/// A file header read from any state opens a little-endian section with no
/// unmatched submissions whose only interface is the writer's: Linux USB
/// (memory-mapped) packets timed in microseconds, numbered after the interfaces
/// read before. Each block's first twelve bytes give its length.
pub proof fn law_file_header_reads_back(r: ReaderView)
    ensures
        file_header() == section_block() + interface_block(),
        declared_length(r, section_block().take(12)) == Ok::<nat, PcapError>(28),
        block_step(r, section_block()) == (
            ReaderView {
                endian: Endian::Little,
                section: true,
                interfaces: Seq::empty(),
                requested: Map::empty(),
                ..r
            },
            Ok::<Option<Packet>, PcapError>(None),
        ),
        ({
            let r1 = block_step(r, section_block()).0;
            let r2 = block_step(r1, interface_block()).0;
            &&& declared_length(r1, interface_block().take(12)) == Ok::<nat, PcapError>(20)
            &&& block_step(r1, interface_block()).1 == Ok::<Option<Packet>, PcapError>(None)
            &&& r2 == ReaderView {
                interfaces: seq![
                    Interface { linktype: 220, units: 1_000_000, offset: 0, source: r.sources },
                ],
                sources: if r.sources < u64::MAX {
                    (r.sources + 1) as u64
                } else {
                    u64::MAX
                },
                ..r1
            }
            &&& reads_writer_interface(r2)
            &&& r2.requested == Map::<u64, u32>::empty()
        }),
{
    lemma_header_bytes();
    let s = section_block();
    let i = interface_block();
    reveal_with_fuel(le_value, 5);
    assert(le_value(s, 4, 4) == 28);
    assert(le_value(s, 12, 2) == 1);
    assert(le_value(s, 24, 4) == 28);
    assert(s.take(12) =~= seq![10u8, 13, 13, 10, 28, 0, 0, 0, 0x4d, 0x3c, 0x2b, 0x1a]);
    assert(le_value(s.take(12), 4, 4) == 28);
    assert(le_value(i, 0, 4) == 1);
    assert(le_value(i, 4, 4) == 20);
    assert(le_value(i, 8, 2) == 220);
    assert(le_value(i, 16, 4) == 20);
    assert(i.take(12) =~= seq![1u8, 0, 0, 0, 20, 0, 0, 0, 220, 0, 0, 0]);
    assert(le_value(i.take(12), 4, 4) == 20);
}

/// A field of zero bytes reads 0.
proof fn lemma_le_zero_at(b: Seq<u8>, at: int, n: nat)
    requires
        forall|k: int| at <= k < at + n ==> #[trigger] b[k] == 0,
    ensures
        le_value(b, at, n) == 0,
    decreases n,
{
    if n > 0 {
        assert(b[at] == 0);
        lemma_le_zero_at(b, at + 1, (n - 1) as nat);
    }
}

/// The kernel counter summary that ends a raw archive reads back: its length prefix
/// and header give its 88-byte record, and that record, taken in any state, adds the
/// ring, read, unsupported-buffer and state losses to the kernel loss count, each
/// addition saturating, and changes nothing else.
pub proof fn law_kernel_summary_reads_back(m: ReassemblerView, stats: CaptureStats)
    ensures
        kernel_summary(stats).len() == 92,
        le_value(kernel_summary(stats), 0, 4) == 88,
        le_value(kernel_summary(stats), 8, 4) == 88,
        88 <= MAX_RECORD_SIZE,
        record_step(m, kernel_summary(stats).subrange(4, 92)) == (
            with_stats(
                m,
                ReassemblyStats {
                    kernel_losses: sat_add(
                        sat_add(
                            sat_add(
                                sat_add(m.stats.kernel_losses, stats.ring_losses as nat),
                                stats.read_errors as nat,
                            ),
                            stats.unsupported_buffers as nat,
                        ),
                        stats.state_errors as nat,
                    ),
                    ..m.stats
                },
            ),
            Ok::<Option<Finished>, RecordError>(None),
        ),
{
    broadcast use lemma_le_bytes_len_auto;

    lemma_pow256();
    let s = kernel_summary(stats);
    let r = s.subrange(4, 92);
    let body = r.subrange(24, 88);
    assert(s.len() == 92);
    assert(s.subrange(0, 4) =~= le_bytes(88, 4));
    lemma_le_at(s, 0, 88, 4);
    assert(s.subrange(8, 12) =~= le_bytes(88, 4));
    lemma_le_at(s, 8, 88, 4);
    assert(r.subrange(0, 2) =~= le_bytes(ABI_VERSION as nat, 2));
    lemma_le_at(r, 0, ABI_VERSION as nat, 2);
    assert(r.subrange(2, 4) =~= le_bytes(RECORD_STATS as nat, 2));
    lemma_le_at(r, 2, RECORD_STATS as nat, 2);
    assert(r.subrange(4, 8) =~= le_bytes(88, 4));
    lemma_le_at(r, 4, 88, 4);
    assert forall|k: int| 8 <= k < 24 implies #[trigger] r[k] == 0 by {
        assert(r[k] == s[k + 4]);
    }
    lemma_le_zero_at(r, 8, 8);
    lemma_le_zero_at(r, 16, 8);
    assert(body.subrange(24, 32) =~= le_bytes(stats.ring_losses as nat, 8));
    lemma_le_at(body, 24, stats.ring_losses as nat, 8);
    assert(body.subrange(32, 40) =~= le_bytes(stats.read_errors as nat, 8));
    lemma_le_at(body, 32, stats.read_errors as nat, 8);
    assert(body.subrange(40, 48) =~= le_bytes(stats.unsupported_buffers as nat, 8));
    lemma_le_at(body, 40, stats.unsupported_buffers as nat, 8);
    assert(body.subrange(48, 56) =~= le_bytes(stats.state_errors as nat, 8));
    lemma_le_at(body, 48, stats.state_errors as nat, 8);
    assert(r.subrange(24, le_value(r, 4, 4) as int) == body);
}

/// Whether `e` is a non-ISO packet the writer and reader agree on in any reader
/// state: it fits the format, its header is one the reader accepts, and a payload
/// it carries is whole.
pub open spec fn plain_packet(e: Event) -> bool {
    let m = e.meta;
    &&& size_fault(e) is None
    &&& e.payload@.len() >= m.payload_len
    &&& (m.event_type == 0x53 || m.event_type == 0x43 || m.event_type == 0x45)
    &&& 1 <= m.transfer_type <= 3
    &&& m.device <= 127
    &&& m.iso_count == 0
    &&& e.iso@.len() == 0
    &&& (m.has_data != 0 || m.payload_len == 0)
    &&& (m.has_data != 0 ==> m.payload_len == urb_len(m))
}

/// A submission pairs with one completion only: read after the submission, the
/// first completion of its URB gets the submission's requested length, and a
/// second completion of the same URB finds no submission and leaves the requested
/// length unknown.
pub proof fn law_submission_pairs_with_one_completion(
    r: ReaderView,
    sub: Event,
    first: Event,
    second: Event,
)
    requires
        reads_writer_interface(r),
        r.requested.len() < MAX_UNMATCHED_SUBMISSIONS,
        plain_packet(sub),
        plain_packet(first),
        plain_packet(second),
        sub.meta.event_type == 0x53,
        first.meta.event_type != 0x53,
        second.meta.event_type != 0x53,
        first.meta.urb_id == sub.meta.urb_id,
        second.meta.urb_id == sub.meta.urb_id,
    ensures
        ({
            let (r1, out1) = block_step(r, packet_block(sub));
            let (r2, out2) = block_step(r1, packet_block(first));
            let out3 = block_step(r2, packet_block(second)).1;
            &&& out1 matches Ok(Some(p)) && p.0.requested_len == sub.meta.requested_len && p.3
            &&& out2 matches Ok(Some(p)) && p.0.requested_len == sub.meta.requested_len
                && p.0.actual_len == first.meta.actual_len && p.3
            &&& out3 matches Ok(Some(p)) && p.0.requested_len == 0
                && p.0.actual_len == second.meta.actual_len && !p.3
        }),
{
    let u = sub.meta.urb_id;
    assert(iso_check(Seq::<IsoDescriptor>::empty(), true, 0, true, 0) is None);
    assert(first.iso@ =~= Seq::<IsoDescriptor>::empty());
    assert(second.iso@ =~= Seq::<IsoDescriptor>::empty());
    assert(sub.iso@ =~= Seq::<IsoDescriptor>::empty());
    law_packet_reads_back(r, sub);
    let r1 = block_step(r, packet_block(sub)).0;
    assert(r1 == with_requested(r, r.requested.insert(u, sub.meta.requested_len)));
    law_packet_reads_back(r1, first);
    let r2 = block_step(r1, packet_block(first)).0;
    assert(r2 == with_requested(r1, r1.requested.remove(u)));
    assert(!r2.requested.contains_key(u));
    law_packet_reads_back(r2, second);
}

/// A transport record as the kernel side publishes it: the little-endian header of
/// a record of `kind` for event `id` at `offset`, then `body`.
pub open spec fn record_bytes(kind: u16, id: u64, offset: u64, body: Seq<u8>) -> Seq<u8> {
    RecordHeader {
        version: ABI_VERSION,
        kind,
        size: (24 + body.len()) as u32,
        event_id: id,
        offset,
    }.wire() + body
}

/// The header fields of a published record, as a reader sees them.
proof fn lemma_record_fields(kind: u16, id: u64, offset: u64, body: Seq<u8>)
    requires
        24 + body.len() <= u32::MAX,
    ensures
        ({
            let b = record_bytes(kind, id, offset, body);
            &&& b.len() == 24 + body.len()
            &&& le_value(b, 0, 2) == ABI_VERSION
            &&& le_value(b, 2, 2) == kind
            &&& le_value(b, 4, 4) == 24 + body.len()
            &&& le_value(b, 8, 8) == id
            &&& le_value(b, 16, 8) == offset
            &&& b.subrange(24, 24 + body.len() as int) == body
        }),
{
    broadcast use lemma_le_bytes_len_auto;

    lemma_pow256();
    let b = record_bytes(kind, id, offset, body);
    let size = (24 + body.len()) as u32;
    assert(b.subrange(0, 2) =~= le_bytes(ABI_VERSION as nat, 2));
    lemma_le_at(b, 0, ABI_VERSION as nat, 2);
    assert(b.subrange(2, 4) =~= le_bytes(kind as nat, 2));
    lemma_le_at(b, 2, kind as nat, 2);
    assert(b.subrange(4, 8) =~= le_bytes(size as nat, 4));
    lemma_le_at(b, 4, size as nat, 4);
    assert(b.subrange(8, 16) =~= le_bytes(id as nat, 8));
    lemma_le_at(b, 8, id as nat, 8);
    assert(b.subrange(16, 24) =~= le_bytes(offset as nat, 8));
    lemma_le_at(b, 16, offset as nat, 8);
    assert(b.subrange(24, 24 + body.len() as int) =~= body);
}

/// The fields of an END record body.
proof fn lemma_end_fields(e: EventEnd)
    ensures
        e.wire().len() == 16,
        le_value(e.wire(), 0, 8) == e.copied_bytes,
        le_value(e.wire(), 8, 4) == e.descriptors,
        le_value(e.wire(), 12, 4) == e.reason,
{
    broadcast use lemma_le_bytes_len_auto;

    lemma_pow256();
    let w = e.wire();
    assert(w.subrange(0, 8) =~= le_bytes(e.copied_bytes as nat, 8));
    lemma_le_at(w, 0, e.copied_bytes as nat, 8);
    assert(w.subrange(8, 12) =~= le_bytes(e.descriptors as nat, 4));
    lemma_le_at(w, 8, e.descriptors as nat, 4);
    assert(w.subrange(12, 16) =~= le_bytes(e.reason as nat, 4));
    lemma_le_at(w, 12, e.reason as nat, 4);
}

/// A non-ISO event published as BEGIN, one DATA record carrying its whole
/// payload, and an END record confirming it, is delivered whole: the first two
/// records hand out nothing, the END record hands out the event's metadata, no
/// descriptors and the payload, counts one more complete event, and leaves
/// nothing of it in flight.
pub proof fn law_begin_data_end_delivers(
    m: ReassemblerView,
    id: u64,
    meta: EventMeta,
    data: Seq<u8>,
)
    requires
        !m.pending.contains_key(id),
        m.pending.len() < MAX_PENDING_EVENTS,
        meta_fault(meta) is None,
        meta.transfer_type != 0,
        meta.has_data == 1,
        meta.payload_len == data.len(),
        data.len() > 0,
        24 + data.len() <= MAX_RECORD_SIZE,
        m.stats.complete < u64::MAX,
    ensures
        ({
            let begin = record_bytes(RECORD_BEGIN, id, 0, meta.wire());
            let fragment = record_bytes(RECORD_DATA, id, 0, data);
            let end = record_bytes(
                RECORD_END,
                id,
                0,
                EventEnd { copied_bytes: data.len() as u64, descriptors: 0, reason: COMPLETE }.wire(),
            );
            let (m1, o1) = record_step(m, begin);
            let (m2, o2) = record_step(m1, fragment);
            let (m3, o3) = record_step(m2, end);
            &&& o1 == Ok::<Option<Finished>, RecordError>(None)
            &&& o2 == Ok::<Option<Finished>, RecordError>(None)
            &&& o3 == Ok::<Option<Finished>, RecordError>(
                Some((meta, Seq::<IsoDescriptor>::empty(), data)),
            )
            &&& m3.pending == m.pending
            &&& m3.stats == (ReassemblyStats { complete: (m.stats.complete + 1) as u64, ..m.stats })
        }),
{
    let ew = EventEnd { copied_bytes: data.len() as u64, descriptors: 0, reason: COMPLETE };
    let begin = record_bytes(RECORD_BEGIN, id, 0, meta.wire());
    let fragment = record_bytes(RECORD_DATA, id, 0, data);
    let end = record_bytes(RECORD_END, id, 0, ew.wire());
    law_decode_meta_inverts_wire(meta);
    lemma_end_fields(ew);
    lemma_record_fields(RECORD_BEGIN, id, 0, meta.wire());
    lemma_record_fields(RECORD_DATA, id, 0, data);
    lemma_record_fields(RECORD_END, id, 0, ew.wire());
    let body = begin.subrange(24, 96);
    assert(body == meta.wire());
    let x = choose|x: EventMeta| meta_of_bytes(body, x);
    lemma_meta_of_bytes_unique(body, meta, x);
    let p0 = PendingView {
        meta,
        iso: Seq::empty(),
        payload: Seq::empty(),
        received: Set::empty(),
        copied: 0,
    };
    let m1 = record_step(m, begin).0;
    assert(m1.pending == m.pending.insert(id, p0));
    assert(record_step(m, begin).1 == Ok::<Option<Finished>, RecordError>(None));
    let p1 = PendingView {
        payload: data,
        received: Set::new(|x: int| 0 <= x < data.len()),
        copied: data.len(),
        ..p0
    };
    assert(fragment.subrange(24, 24 + data.len() as int) == data);
    let m2 = record_step(m1, fragment).0;
    assert(write_at(Seq::<u8>::empty(), 0, data) =~= data);
    assert(Set::<int>::empty().union(interval(0, data.len() as int)) =~= Set::new(
        |x: int| 0 <= x < data.len(),
    ));
    assert(m2.pending == m.pending.insert(id, p1));
    assert(record_step(m1, fragment).1 == Ok::<Option<Finished>, RecordError>(None));
    assert(end.subrange(24, 40) == ew.wire());
    assert(end_confirms(p1, ew.wire()));
    assert(m.pending.insert(id, p1).remove(id) =~= m.pending);
}

} // verus!
