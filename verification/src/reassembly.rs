//! Reassembly of transport records into whole events.
//!
//! The kernel sends each observed URB as a BEGIN record with its metadata, payload
//! fragments, ISO descriptors, and an END record; a counter summary may come too.
//! An event is handed out only when its END record says it is complete and every
//! byte and descriptor it announced has arrived.
use crate::archive::{
    Event, MAX_RECORD_SIZE, RecordError, decode_meta, lemma_meta_of_bytes_unique, meta_fault,
    meta_of_bytes,
};
use crate::bytes::{
    i32_from_bits, i32_of, le_value, lemma_le_value_bound, lemma_pow256, u16_at, u32_at, u64_at,
};
use crate::ranges::ByteRanges;
use crate::wire::{
    ABI_VERSION, COMPLETE, EventMeta, IsoDescriptor, RECORD_BEGIN, RECORD_DATA, RECORD_END,
    RECORD_ISO, RECORD_STATS,
};
use std::collections::HashMap;
use vstd::prelude::*;
use vstd::slice::slice_subrange;

verus! {

broadcast use vstd::std_specs::hash::group_hash_axioms;

/// Most events that may be in flight at once.
pub const MAX_PENDING_EVENTS: usize = 4096;

/// Counts of what reassembly saw.
#[derive(Clone, Copy, Debug, Default)]
pub struct ReassemblyStats {
    pub complete: u64,
    pub incomplete: u64,
    pub orphan_records: u64,
    pub kernel_losses: u64,
}

/// What is known of an event whose records are still arriving.
pub struct PendingView {
    pub meta: EventMeta,
    pub iso: Seq<IsoDescriptor>,
    pub payload: Seq<u8>,
    /// Offsets of the payload bytes received so far.
    pub received: Set<int>,
    /// Payload bytes received so far.
    pub copied: nat,
}

/// The state of a reassembler.
pub struct ReassemblerView {
    pub pending: Map<u64, PendingView>,
    pub stats: ReassemblyStats,
}

/// A finished event: metadata, ISO descriptors and payload.
pub type Finished = (EventMeta, Seq<IsoDescriptor>, Seq<u8>);

/// `payload` with `body` written at `offset`, zero-filled up to it where it was shorter.
pub open spec fn write_at(payload: Seq<u8>, offset: int, body: Seq<u8>) -> Seq<u8> {
    let end = offset + body.len();
    Seq::new(
        if payload.len() >= end {
            payload.len()
        } else {
            end as nat
        },
        |i: int|
            if offset <= i < end {
                body[i - offset]
            } else if i < payload.len() {
                payload[i]
            } else {
                0u8
            },
    )
}

pub open spec fn interval(start: int, end: int) -> Set<int> {
    Set::new(|x: int| start <= x < end)
}

pub open spec fn sat_add(a: u64, b: nat) -> u64 {
    if a + b > u64::MAX {
        u64::MAX
    } else {
        (a + b) as u64
    }
}

/// A payload fragment added to a pending event, or why it was refused.
pub open spec fn data_step(p: PendingView, offset: u64, body: Seq<u8>) -> Result<
    PendingView,
    RecordError,
> {
    let end = offset + body.len();
    if body.len() == 0 {
        Err(RecordError::EmptyPayloadRecord)
    } else if end > u64::MAX {
        Err(RecordError::PayloadOffsetOverflow)
    } else if end > p.meta.payload_len {
        Err(RecordError::PayloadOutsideSpan)
    } else if exists|x: int| offset <= x < end && #[trigger] p.received.contains(x) {
        Err(RecordError::OverlappingFragment)
    } else {
        Ok(
            PendingView {
                payload: write_at(p.payload, offset as int, body),
                received: p.received.union(interval(offset as int, end)),
                copied: p.copied + body.len(),
                ..p
            },
        )
    }
}

/// The ISO descriptor a record body carries.
pub open spec fn iso_of_body(body: Seq<u8>) -> IsoDescriptor {
    IsoDescriptor {
        status: i32_of(le_value(body, 0, 4) as u32),
        offset: le_value(body, 4, 4) as u32,
        length: le_value(body, 8, 4) as u32,
        padding: 0,
    }
}

/// An ISO descriptor added to a pending event, or why it was refused.
pub open spec fn iso_step(p: PendingView, offset: u64, body: Seq<u8>) -> Result<
    PendingView,
    RecordError,
> {
    if body.len() != 16 {
        Err(RecordError::InvalidIsoDescriptorLength)
    } else if !(offset == p.iso.len() && offset < p.meta.iso_count) {
        Err(RecordError::InvalidIsoDescriptorIndex)
    } else {
        Ok(PendingView { iso: p.iso.push(iso_of_body(body)), ..p })
    }
}

pub open spec fn frame_end(d: IsoDescriptor) -> int {
    d.offset + d.length
}

/// End of the last non-empty ISO frame.
pub open spec fn iso_span(iso: Seq<IsoDescriptor>) -> int
    decreases iso.len(),
{
    if iso.len() == 0 {
        0
    } else {
        let before = iso_span(iso.drop_last());
        let d = iso.last();
        if d.length != 0 && frame_end(d) > before {
            frame_end(d)
        } else {
            before
        }
    }
}

/// Why the ISO descriptors of an ending event contradict its metadata, if they do.
pub open spec fn iso_fault(p: PendingView) -> Option<RecordError> {
    if p.meta.transfer_type != 0 {
        None
    } else if exists|k: int|
        0 <= k < p.iso.len() && frame_end(#[trigger] p.iso[k]) > p.meta.requested_len {
        Some(RecordError::IsoDescriptorOutsideBuffer)
    } else if p.meta.has_data != 0 && p.iso.len() == p.meta.iso_count && iso_span(p.iso)
        != p.meta.payload_len {
        Some(RecordError::IsoSpanMismatch)
    } else {
        None
    }
}

/// Whether every byte of `start..start + len` has arrived.
pub open spec fn received_all(p: PendingView, start: int, len: int) -> bool {
    forall|x: int| start <= x < start + len ==> #[trigger] p.received.contains(x)
}

/// Whether all the data an event announced has arrived: nothing when it has no data,
/// every ISO frame, or the whole payload span.
pub open spec fn data_complete(p: PendingView) -> bool {
    if p.meta.has_data == 0 {
        p.copied == 0
    } else if p.meta.transfer_type == 0 {
        forall|k: int|
            0 <= k < p.iso.len() ==> received_all(
                p,
                (#[trigger] p.iso[k]).offset as int,
                p.iso[k].length as int,
            )
    } else {
        received_all(p, 0, p.meta.payload_len as int)
    }
}

/// Whether an END record body confirms a complete event: the kernel's reason is
/// `COMPLETE` and its byte and descriptor counts agree with what arrived.
pub open spec fn end_confirms(p: PendingView, body: Seq<u8>) -> bool {
    &&& le_value(body, 12, 4) == COMPLETE
    &&& le_value(body, 0, 8) == p.copied
    &&& le_value(body, 8, 4) == p.meta.iso_count
    &&& p.iso.len() == p.meta.iso_count
    &&& data_complete(p)
}

/// A freshly begun event.
pub open spec fn fresh(meta: EventMeta) -> PendingView {
    PendingView {
        meta,
        iso: Seq::empty(),
        payload: Seq::empty(),
        received: Set::empty(),
        copied: 0,
    }
}

/// The first header rule a record breaks, if any.
pub open spec fn header_fault(b: Seq<u8>) -> Option<RecordError> {
    if b.len() < 24 {
        Some(RecordError::ShortRecordHeader)
    } else if le_value(b, 0, 2) != ABI_VERSION {
        Some(RecordError::UnsupportedAbi)
    } else if !(24 <= le_value(b, 4, 4) <= MAX_RECORD_SIZE && le_value(b, 4, 4) <= b.len()) {
        Some(RecordError::InvalidRecordSize)
    } else {
        None
    }
}

pub open spec fn with_stats(m: ReassemblerView, stats: ReassemblyStats) -> ReassemblerView {
    ReassemblerView { stats, ..m }
}

pub open spec fn with_pending(m: ReassemblerView, pending: Map<u64, PendingView>) -> ReassemblerView {
    ReassemblerView { pending, ..m }
}

/// The effect of one transport record: the next state, and a finished event, nothing,
/// or why the record was refused.
pub open spec fn record_step(m: ReassemblerView, b: Seq<u8>) -> (
    ReassemblerView,
    Result<Option<Finished>, RecordError>,
) {
    match header_fault(b) {
        Some(e) => (m, Err(e)),
        None => {
            let kind = le_value(b, 2, 2);
            let id = le_value(b, 8, 8) as u64;
            let offset = le_value(b, 16, 8) as u64;
            let body = b.subrange(24, le_value(b, 4, 4) as int);
            if kind == RECORD_STATS {
                if !(id == 0 && offset == 0 && body.len() == 64) {
                    (m, Err(RecordError::InvalidKernelSummary))
                } else {
                    let k = m.stats.kernel_losses;
                    let k = sat_add(k, le_value(body, 24, 8));
                    let k = sat_add(k, le_value(body, 32, 8));
                    let k = sat_add(k, le_value(body, 40, 8));
                    let k = sat_add(k, le_value(body, 48, 8));
                    (with_stats(m, ReassemblyStats { kernel_losses: k, ..m.stats }), Ok(None))
                }
            } else if kind == RECORD_BEGIN {
                if offset != 0 {
                    (m, Err(RecordError::NonzeroMetadataOffset))
                } else if m.pending.contains_key(id) {
                    (m, Err(RecordError::DuplicateBegin))
                } else if m.pending.len() >= MAX_PENDING_EVENTS {
                    (m, Err(RecordError::TooManyPending))
                } else if body.len() != 72 {
                    (m, Err(RecordError::InvalidMetadataLength))
                } else {
                    let meta = choose|x: EventMeta| meta_of_bytes(body, x);
                    match meta_fault(meta) {
                        Some(e) => (m, Err(e)),
                        None => (with_pending(m, m.pending.insert(id, fresh(meta))), Ok(None)),
                    }
                }
            } else if !(kind == RECORD_DATA || kind == RECORD_ISO || kind == RECORD_END) {
                (m, Err(RecordError::UnknownRecordKind))
            } else if !m.pending.contains_key(id) {
                (
                    with_stats(
                        m,
                        ReassemblyStats {
                            orphan_records: (m.stats.orphan_records + 1) as u64,
                            ..m.stats
                        },
                    ),
                    Ok(None),
                )
            } else {
                let p = m.pending[id];
                if kind == RECORD_DATA {
                    match data_step(p, offset, body) {
                        Err(e) => (m, Err(e)),
                        Ok(q) => (with_pending(m, m.pending.insert(id, q)), Ok(None)),
                    }
                } else if kind == RECORD_ISO {
                    match iso_step(p, offset, body) {
                        Err(e) => (m, Err(e)),
                        Ok(q) => (with_pending(m, m.pending.insert(id, q)), Ok(None)),
                    }
                } else if !(body.len() == 16 && offset == 0) {
                    (m, Err(RecordError::InvalidEventEnd))
                } else {
                    let rest = with_pending(m, m.pending.remove(id));
                    match iso_fault(p) {
                        Some(e) => (rest, Err(e)),
                        None => if end_confirms(p, body) {
                            (
                                with_stats(
                                    rest,
                                    ReassemblyStats {
                                        complete: (m.stats.complete + 1) as u64,
                                        ..m.stats
                                    },
                                ),
                                Ok(Some((p.meta, p.iso, p.payload))),
                            )
                        } else {
                            (
                                with_stats(
                                    rest,
                                    ReassemblyStats {
                                        incomplete: (m.stats.incomplete + 1) as u64,
                                        ..m.stats
                                    },
                                ),
                                Ok(None),
                            )
                        },
                    }
                }
            }
        },
    }
}

/// Whether the counter that record `b` would raise in state `m` has room: an
/// orphan record raises the orphan count, and a well-formed END record of an event
/// in flight raises the complete or the incomplete count. Other records raise none.
pub open spec fn room_for(m: ReassemblerView, b: Seq<u8>) -> bool {
    match header_fault(b) {
        Some(_) => true,
        None => {
            let kind = le_value(b, 2, 2);
            let id = le_value(b, 8, 8) as u64;
            let offset = le_value(b, 16, 8) as u64;
            let body = b.subrange(24, le_value(b, 4, 4) as int);
            if !(kind == RECORD_DATA || kind == RECORD_ISO || kind == RECORD_END) {
                true
            } else if !m.pending.contains_key(id) {
                m.stats.orphan_records < u64::MAX
            } else if kind == RECORD_END && body.len() == 16 && offset == 0 && iso_fault(
                m.pending[id],
            ) is None {
                if end_confirms(m.pending[id], body) {
                    m.stats.complete < u64::MAX
                } else {
                    m.stats.incomplete < u64::MAX
                }
            } else {
                true
            }
        },
    }
}

/// An event being reassembled.
struct Pending {
    event: Event,
    ranges: ByteRanges,
    copied: u64,
}

impl Pending {
    closed spec fn view(&self) -> PendingView {
        PendingView {
            meta: self.event.meta,
            iso: self.event.iso@,
            payload: self.event.payload@,
            received: Set::new(|x: int| self.ranges.has(x)),
            copied: self.copied as nat,
        }
    }

    /// Its ranges are well kept, lie within the payload span, count the bytes
    /// received, and the event carries the identity of a live capture.
    closed spec fn wf(&self) -> bool {
        &&& self.ranges.wf()
        &&& forall|x: int| #[trigger] self.ranges.has(x) ==> 0 <= x < self.event.meta.payload_len
        &&& self.copied == self.ranges.size()
        &&& self.event.payload@.len() <= self.event.meta.payload_len
        &&& self.event.source_id == 0
        &&& self.event.identity_known
        &&& self.event.requested_known
    }
}

/// Writes `body` into `payload` at `offset`, zero-filling any gap before it.
fn write_payload(payload: &mut Vec<u8>, offset: usize, body: &[u8])
    requires
        offset + body@.len() <= usize::MAX,
    ensures
        final(payload)@ == write_at(old(payload)@, offset as int, body@),
{
    let ghost p0 = payload@;
    let end = offset + body.len();
    while payload.len() < end
        invariant
            p0.len() <= payload@.len(),
            payload@.len() <= if p0.len() >= end {
                p0.len()
            } else {
                end as nat
            },
            forall|i: int| 0 <= i < p0.len() ==> payload@[i] == p0[i],
            forall|i: int| p0.len() <= i < payload@.len() ==> payload@[i] == 0,
        decreases end - payload@.len(),
    {
        payload.push(0);
    }
    let ghost base = payload@;
    let mut k: usize = 0;
    while k < body.len()
        invariant
            end == offset + body@.len(),
            base.len() >= end,
            payload@.len() == base.len(),
            k <= body@.len(),
            forall|i: int|
                0 <= i < payload@.len() ==> payload@[i] == if offset <= i < offset + k {
                    body@[i - offset]
                } else {
                    base[i]
                },
        decreases body@.len() - k,
    {
        payload[offset + k] = body[k];
        k = k + 1;
    }
    assert(payload@ =~= write_at(p0, offset as int, body@));
}

impl Pending {
    proof fn lemma_received_all(&self, start: int, len: int)
        ensures
            received_all(self.view(), start, len) == (forall|x: int|
                start <= x < start + len ==> #[trigger] self.ranges.has(x)),
    {
        let v = self.view();
        if received_all(v, start, len) {
            assert forall|x: int| start <= x < start + len implies #[trigger] self.ranges.has(x) by {
                assert(v.received.contains(x));
            }
        }
        if forall|x: int| start <= x < start + len ==> #[trigger] self.ranges.has(x) {
            assert forall|x: int| start <= x < start + len implies #[trigger] v.received.contains(
                x,
            ) by {
                assert(self.ranges.has(x));
            }
        }
    }

    /// Adds a payload fragment (see [`data_step`]); on a refusal nothing changes.
    fn add_data(&mut self, offset: u64, body: &[u8]) -> (r: Result<(), RecordError>)
        requires
            old(self).wf(),
        ensures
            final(self).wf(),
            match data_step(old(self).view(), offset, body@) {
                Ok(q) => r is Ok && final(self).view() == q,
                Err(e) => r == Err::<(), RecordError>(e) && final(self).view() == old(self).view(),
            },
    {
        let ghost v0 = self.view();
        if body.len() == 0 {
            return Err(RecordError::EmptyPayloadRecord);
        }
        let end = match offset.checked_add(body.len() as u64) {
            None => {
                return Err(RecordError::PayloadOffsetOverflow);
            },
            Some(e) => e,
        };
        if end > self.event.meta.payload_len as u64 {
            return Err(RecordError::PayloadOutsideSpan);
        }
        let ghost r0 = self.ranges;
        proof {
            assert forall|x: int| #[trigger] v0.received.contains(x) == r0.has(x) by {}
        }
        if !self.ranges.add(offset, end) {
            proof {
                let x = choose|x: int| offset <= x < end && #[trigger] r0.has(x);
                assert(v0.received.contains(x));
            }
            return Err(RecordError::OverlappingFragment);
        }
        proof {
            if exists|x: int| offset <= x < end && #[trigger] v0.received.contains(x) {
                let x = choose|x: int| offset <= x < end && #[trigger] v0.received.contains(x);
                assert(r0.has(x));
            }
            self.ranges.lemma_size_bound(self.event.meta.payload_len as int);
        }
        write_payload(&mut self.event.payload, offset as usize, body);
        self.copied = self.copied + body.len() as u64;
        proof {
            let v = self.view();
            assert(v.received =~= v0.received.union(interval(offset as int, end as int)));
        }
        Ok(())
    }

    /// Adds an ISO descriptor (see [`iso_step`]); on a refusal nothing changes.
    fn add_iso(&mut self, offset: u64, body: &[u8]) -> (r: Result<(), RecordError>)
        requires
            old(self).wf(),
        ensures
            final(self).wf(),
            match iso_step(old(self).view(), offset, body@) {
                Ok(q) => r is Ok && final(self).view() == q,
                Err(e) => r == Err::<(), RecordError>(e) && final(self).view() == old(self).view(),
            },
    {
        if body.len() != 16 {
            return Err(RecordError::InvalidIsoDescriptorLength);
        }
        if !(offset == self.event.iso.len() as u64 && offset < self.event.meta.iso_count as u64) {
            return Err(RecordError::InvalidIsoDescriptorIndex);
        }
        let d = IsoDescriptor {
            status: i32_from_bits(u32_at(body, 0)),
            offset: u32_at(body, 4),
            length: u32_at(body, 8),
            padding: 0,
        };
        self.event.iso.push(d);
        Ok(())
    }

    /// What an END record decides for this event: why its ISO descriptors contradict
    /// its metadata, or whether the record confirms it complete.
    fn end_outcome(&self, body: &[u8]) -> (r: Result<bool, RecordError>)
        requires
            self.wf(),
            body@.len() == 16,
        ensures
            match iso_fault(self.view()) {
                Some(e) => r == Err::<bool, RecordError>(e),
                None => r == Ok::<bool, RecordError>(end_confirms(self.view(), body@)),
            },
    {
        let ghost v = self.view();
        let m = &self.event.meta;
        let iso = &self.event.iso;
        if m.transfer_type == 0 {
            let mut span: u64 = 0;
            let mut k: usize = 0;
            assert(iso@.take(0) =~= Seq::<IsoDescriptor>::empty());
            while k < iso.len()
                invariant
                    k <= iso@.len(),
                    iso@ == v.iso,
                    m == v.meta,
                    self.view() == v,
                    m.transfer_type == 0,
                    span == iso_span(iso@.take(k as int)),
                    forall|j: int| 0 <= j < k ==> frame_end(#[trigger] iso@[j]) <= m.requested_len,
                decreases iso@.len() - k,
            {
                let d = iso[k];
                let end = d.offset as u64 + d.length as u64;
                if end > m.requested_len as u64 {
                    assert(frame_end(iso@[k as int]) > m.requested_len);
                    return Err(RecordError::IsoDescriptorOutsideBuffer);
                }
                assert(iso@.take(k + 1).drop_last() =~= iso@.take(k as int));
                if d.length != 0 && end > span {
                    span = end;
                }
                k = k + 1;
            }
            assert(iso@.take(iso@.len() as int) =~= iso@);
            assert(!exists|k: int|
                0 <= k < v.iso.len() && frame_end(#[trigger] v.iso[k]) > v.meta.requested_len);
            if m.has_data != 0 && iso.len() as u64 == m.iso_count as u64 && span
                != m.payload_len as u64 {
                return Err(RecordError::IsoSpanMismatch);
            }
        }
        let data = if m.has_data == 0 {
            self.copied == 0
        } else if m.transfer_type == 0 {
            let mut all = true;
            let mut k: usize = 0;
            while k < iso.len()
                invariant
                    k <= iso@.len(),
                    iso@ == v.iso,
                    self.view() == v,
                    self.wf(),
                    all == forall|j: int|
                        0 <= j < k ==> received_all(
                            v,
                            (#[trigger] v.iso[j]).offset as int,
                            v.iso[j].length as int,
                        ),
                decreases iso@.len() - k,
            {
                let d = iso[k];
                let c = self.ranges.covers(d.offset as u64, d.length as u64);
                proof {
                    self.lemma_received_all(d.offset as int, d.length as int);
                }
                all = all && c;
                k = k + 1;
            }
            all
        } else {
            let c = self.ranges.covers(0, m.payload_len as u64);
            proof {
                self.lemma_received_all(0, m.payload_len as int);
            }
            c
        };
        Ok(u32_at(body, 12) == COMPLETE && u64_at(body, 0) == self.copied && u32_at(body, 8)
            == m.iso_count && iso.len() as u64 == m.iso_count as u64 && data)
    }
}

/// Whether what `push` returned is what the record's effect says.
pub open spec fn outcome_matches(
    r: Result<Option<Event>, RecordError>,
    s: Result<Option<Finished>, RecordError>,
) -> bool {
    match (r, s) {
        (Ok(None), Ok(None)) => true,
        (Ok(Some(e)), Ok(Some(f))) => {
            &&& e.meta == f.0
            &&& e.iso@ == f.1
            &&& e.payload@ == f.2
            &&& e.source_id == 0
            &&& e.identity_known
            &&& e.requested_known
        },
        (Err(a), Err(b)) => a == b,
        _ => false,
    }
}

/// Turns transport records into whole events.
pub struct Reassembler {
    pending: HashMap<u64, Pending>,
    stats: ReassemblyStats,
}

impl Reassembler {
    /// The events in flight, by event ID.
    pub closed spec fn pending_view(&self) -> Map<u64, PendingView> {
        self.pending@.map_values(|p: Pending| p.view())
    }

    /// The events in flight and the counts.
    pub closed spec fn view(&self) -> ReassemblerView {
        ReassemblerView { pending: self.pending_view(), stats: self.stats }
    }

    /// The events in flight of the view are those of [`Reassembler::pending_view`].
    pub proof fn lemma_view_pending(&self)
        ensures
            self.view().pending == self.pending_view(),
    {
    }

    /// Every event in flight is well kept.
    pub closed spec fn wf(&self) -> bool {
        forall|id: u64| #[trigger] self.pending@.contains_key(id) ==> self.pending@[id].wf()
    }

    /// Nothing in flight, nothing counted.
    pub fn new() -> (r: Self)
        ensures
            r.wf(),
            r.pending_view() == Map::<u64, PendingView>::empty(),
            r.view().pending == Map::<u64, PendingView>::empty(),
            r.view().stats == (ReassemblyStats {
                complete: 0,
                incomplete: 0,
                orphan_records: 0,
                kernel_losses: 0,
            }),
    {
        let r = Reassembler {
            pending: HashMap::new(),
            stats: ReassemblyStats { complete: 0, incomplete: 0, orphan_records: 0, kernel_losses: 0 },
        };
        assert(r.pending_view() =~= Map::<u64, PendingView>::empty());
        r
    }

    /// The counts so far.
    pub fn stats(&self) -> (r: ReassemblyStats)
        ensures
            r == self.view().stats,
    {
        self.stats
    }

    /// Whether nothing was lost: no event was counted incomplete, no record was
    /// orphaned, and the kernel reported no ring, read, buffer or state loss.
    pub fn lost_nothing(&self) -> (r: bool)
        ensures
            r == (self.view().stats.incomplete == 0 && self.view().stats.orphan_records == 0
                && self.view().stats.kernel_losses == 0),
    {
        self.stats.incomplete == 0 && self.stats.orphan_records == 0
            && self.stats.kernel_losses == 0
    }

    /// How many events are in flight.
    pub fn in_flight(&self) -> (r: usize)
        ensures
            r == self.pending_view().len(),
    {
        assert(self.pending_view().dom() =~= self.pending@.dom());
        self.pending.len()
    }

    /// An event in flight holds no byte outside its declared payload span, and has
    /// counted no more bytes than that span.
    pub proof fn law_pending_within_span(&self, id: u64)
        requires
            self.wf(),
            self.pending_view().contains_key(id),
        ensures
            ({
                let p = self.pending_view()[id];
                &&& forall|x: int| #[trigger] p.received.contains(x) ==> 0 <= x < p.meta.payload_len
                &&& p.copied <= p.meta.payload_len
                &&& p.payload.len() <= p.meta.payload_len
            }),
    {
        let q = self.pending@[id];
        assert(self.pending@.contains_key(id));
        q.ranges.lemma_size_bound(q.event.meta.payload_len as int);
    }

    /// Takes one transport record (see [`record_step`]). A completed event is handed
    /// out; a record for an event not in flight is counted and dropped.
    pub fn push(&mut self, bytes: &[u8]) -> (r: Result<Option<Event>, RecordError>)
        requires
            old(self).wf(),
            room_for(old(self).view(), bytes@),
        ensures
            final(self).wf(),
            final(self).view() == record_step(old(self).view(), bytes@).0,
            outcome_matches(r, record_step(old(self).view(), bytes@).1),
    {
        let ghost m0 = self.view();
        if bytes.len() < 24 {
            return Err(RecordError::ShortRecordHeader);
        }
        if u16_at(bytes, 0) != ABI_VERSION {
            return Err(RecordError::UnsupportedAbi);
        }
        let size = u32_at(bytes, 4) as usize;
        if !(24 <= size && size <= MAX_RECORD_SIZE && size <= bytes.len()) {
            return Err(RecordError::InvalidRecordSize);
        }
        let kind = u16_at(bytes, 2);
        let id = u64_at(bytes, 8);
        let offset = u64_at(bytes, 16);
        let body = slice_subrange(bytes, 24, size);
        assert(self.pending_view().dom() =~= self.pending@.dom());
        if kind == RECORD_STATS {
            if !(id == 0 && offset == 0 && body.len() == 64) {
                return Err(RecordError::InvalidKernelSummary);
            }
            let mut k = self.stats.kernel_losses;
            k = k.saturating_add(u64_at(body, 24));
            k = k.saturating_add(u64_at(body, 32));
            k = k.saturating_add(u64_at(body, 40));
            k = k.saturating_add(u64_at(body, 48));
            self.stats.kernel_losses = k;
            return Ok(None);
        }
        if kind == RECORD_BEGIN {
            if offset != 0 {
                return Err(RecordError::NonzeroMetadataOffset);
            }
            if self.pending.contains_key(&id) {
                return Err(RecordError::DuplicateBegin);
            }
            if self.pending.len() >= MAX_PENDING_EVENTS {
                return Err(RecordError::TooManyPending);
            }
            let meta = match decode_meta(body) {
                Err(e) => {
                    proof {
                        if body@.len() == 72 {
                            let w = choose|x: EventMeta|
                                meta_of_bytes(body@, x) && meta_fault(x) == Some(e);
                            let c = choose|x: EventMeta| meta_of_bytes(body@, x);
                            lemma_meta_of_bytes_unique(body@, w, c);
                        }
                    }
                    return Err(e);
                },
                Ok(meta) => meta,
            };
            proof {
                let c = choose|x: EventMeta| meta_of_bytes(body@, x);
                lemma_meta_of_bytes_unique(body@, meta, c);
            }
            let p = Pending {
                event: Event {
                    source_id: 0,
                    meta,
                    iso: Vec::new(),
                    payload: Vec::new(),
                    identity_known: true,
                    requested_known: true,
                },
                ranges: ByteRanges::new(),
                copied: 0,
            };
            assert(p.view().received =~= Set::<int>::empty());
            assert(p.view() == fresh(meta));
            self.pending.insert(id, p);
            assert(self.pending_view() =~= m0.pending.insert(id, fresh(meta)));
            return Ok(None);
        }
        if !(kind == RECORD_DATA || kind == RECORD_ISO || kind == RECORD_END) {
            return Err(RecordError::UnknownRecordKind);
        }
        if !self.pending.contains_key(&id) {
            self.stats.orphan_records = self.stats.orphan_records + 1;
            return Ok(None);
        }
        let ghost before = self.pending@;
        let mut p = match self.pending.remove(&id) {
            Some(p) => p,
            None => {
                return Ok(None);
            },
        };
        assert(p.view() == m0.pending[id]);
        if kind == RECORD_DATA {
            let r = p.add_data(offset, body);
            self.pending.insert(id, p);
            assert(self.pending@ =~= before.insert(id, p));
            assert(self.pending_view() =~= m0.pending.insert(id, p.view()));
            if r.is_err() {
                assert(m0.pending.insert(id, p.view()) =~= m0.pending);
            }
            return match r {
                Ok(()) => Ok(None),
                Err(e) => Err(e),
            };
        }
        if kind == RECORD_ISO {
            let r = p.add_iso(offset, body);
            self.pending.insert(id, p);
            assert(self.pending@ =~= before.insert(id, p));
            assert(self.pending_view() =~= m0.pending.insert(id, p.view()));
            if r.is_err() {
                assert(m0.pending.insert(id, p.view()) =~= m0.pending);
            }
            return match r {
                Ok(()) => Ok(None),
                Err(e) => Err(e),
            };
        }
        if !(body.len() == 16 && offset == 0) {
            self.pending.insert(id, p);
            assert(self.pending@ =~= before);
            assert(self.pending_view() =~= m0.pending);
            return Err(RecordError::InvalidEventEnd);
        }
        assert(self.pending_view() =~= m0.pending.remove(id));
        match p.end_outcome(body) {
            Err(e) => Err(e),
            Ok(false) => {
                self.stats.incomplete = self.stats.incomplete + 1;
                Ok(None)
            },
            Ok(true) => {
                self.stats.complete = self.stats.complete + 1;
                Ok(Some(p.event))
            },
        }
    }

    /// Counts every event still in flight as incomplete and forgets them.
    pub fn finish(&mut self)
        requires
            old(self).view().stats.incomplete + old(self).pending_view().len() <= u64::MAX,
        ensures
            final(self).wf(),
            final(self).pending_view() == Map::<u64, PendingView>::empty(),
            final(self).view().pending == Map::<u64, PendingView>::empty(),
            final(self).view().stats == (ReassemblyStats {
                incomplete: (old(self).view().stats.incomplete + old(self).pending_view().len()) as u64,
                ..old(self).view().stats
            }),
    {
        assert(self.pending_view().dom() =~= self.pending@.dom());
        let n = self.pending.len();
        self.stats.incomplete = self.stats.incomplete + n as u64;
        self.pending.clear();
        assert(self.pending_view() =~= Map::<u64, PendingView>::empty());
    }

    /// Forgets the events in flight without counting them: reaching a requested
    /// limit is not evidence of transport loss.
    pub fn stop_at_limit(&mut self)
        ensures
            final(self).wf(),
            final(self).pending_view() == Map::<u64, PendingView>::empty(),
            final(self).view().pending == Map::<u64, PendingView>::empty(),
            final(self).view().stats == old(self).view().stats,
    {
        self.pending.clear();
        assert(self.pending_view() =~= Map::<u64, PendingView>::empty());
    }
}

/// What a fragment writes is what the payload then holds at its offsets, and bytes
/// received before keep their values.
pub proof fn law_fragment_read_back(p: PendingView, offset: u64, body: Seq<u8>)
    requires
        data_step(p, offset, body) is Ok,
    ensures
        ({
            let q = data_step(p, offset, body)->Ok_0;
            &&& q.payload.subrange(offset as int, offset + body.len()) == body
            &&& forall|x: int| #[trigger] p.received.contains(x) && 0 <= x < p.payload.len() ==> q.payload[x] == p.payload[x]
            &&& forall|x: int| offset <= x < offset + body.len() ==> #[trigger] q.received.contains(x)
        }),
{
    let q = data_step(p, offset, body)->Ok_0;
    assert(q.payload.subrange(offset as int, offset + body.len()) =~= body);
}

/// Fragments that do not overlap may arrive in either order: the event ends up the same.
pub proof fn law_fragments_commute(
    p: PendingView,
    o1: u64,
    b1: Seq<u8>,
    o2: u64,
    b2: Seq<u8>,
)
    requires
        data_step(p, o1, b1) is Ok,
        data_step(p, o2, b2) is Ok,
        o1 + b1.len() <= o2 || o2 + b2.len() <= o1,
    ensures
        data_step(data_step(p, o1, b1)->Ok_0, o2, b2) is Ok,
        data_step(data_step(p, o1, b1)->Ok_0, o2, b2) == data_step(
            data_step(p, o2, b2)->Ok_0,
            o1,
            b1,
        ),
{
    let q1 = data_step(p, o1, b1)->Ok_0;
    let q2 = data_step(p, o2, b2)->Ok_0;
    let e1 = o1 + b1.len();
    let e2 = o2 + b2.len();
    assert(!exists|x: int| o2 <= x < e2 && #[trigger] q1.received.contains(x)) by {
        if exists|x: int| o2 <= x < e2 && #[trigger] q1.received.contains(x) {
            let x = choose|x: int| o2 <= x < e2 && #[trigger] q1.received.contains(x);
            assert(p.received.contains(x));
        }
    }
    assert(!exists|x: int| o1 <= x < e1 && #[trigger] q2.received.contains(x)) by {
        if exists|x: int| o1 <= x < e1 && #[trigger] q2.received.contains(x) {
            let x = choose|x: int| o1 <= x < e1 && #[trigger] q2.received.contains(x);
            assert(p.received.contains(x));
        }
    }
    let a = data_step(q1, o2, b2)->Ok_0;
    let b = data_step(q2, o1, b1)->Ok_0;
    assert(a.payload =~= b.payload);
    assert(a.received =~= b.received);
}

/// A fragment that arrives twice is refused the second time.
pub proof fn law_duplicate_fragment_refused(p: PendingView, offset: u64, body: Seq<u8>)
    requires
        data_step(p, offset, body) is Ok,
    ensures
        data_step(data_step(p, offset, body)->Ok_0, offset, body) == Err::<PendingView, RecordError>(
            RecordError::OverlappingFragment,
        ),
{
    let q = data_step(p, offset, body)->Ok_0;
    assert(q.received.contains(offset as int));
}

/// An event is handed out only when its END record confirms it and every byte and
/// descriptor it announced arrived; it is then no longer in flight.
pub proof fn law_only_complete_events_leave(m: ReassemblerView, b: Seq<u8>)
    ensures
        record_step(m, b).1 is Ok && record_step(m, b).1->Ok_0 is Some ==> {
            let id = le_value(b, 8, 8) as u64;
            &&& m.pending.contains_key(id)
            &&& data_complete(m.pending[id])
            &&& m.pending[id].iso.len() == m.pending[id].meta.iso_count
            &&& record_step(m, b).1->Ok_0->Some_0 == (
                m.pending[id].meta,
                m.pending[id].iso,
                m.pending[id].payload,
            )
            &&& !record_step(m, b).0.pending.contains_key(id)
        },
{
}

/// Counts only grow: no record lowers the number of complete, incomplete or orphan
/// events, nor the kernel losses.
pub proof fn law_counts_only_grow(m: ReassemblerView, b: Seq<u8>)
    requires
        room_for(m, b),
    ensures
        ({
            let n = record_step(m, b).0.stats;
            &&& n.complete >= m.stats.complete
            &&& n.incomplete >= m.stats.incomplete
            &&& n.orphan_records >= m.stats.orphan_records
            &&& n.kernel_losses >= m.stats.kernel_losses
        }),
{
}

/// With nothing in flight, as `stop_at_limit` leaves a reassembler, a later data,
/// ISO or END record is an orphan: it is counted as such and changes nothing else.
pub proof fn law_records_after_stop_are_orphans(m: ReassemblerView, b: Seq<u8>)
    requires
        m.pending == Map::<u64, PendingView>::empty(),
        header_fault(b) is None,
        le_value(b, 2, 2) == RECORD_DATA || le_value(b, 2, 2) == RECORD_ISO || le_value(b, 2, 2)
            == RECORD_END,
        m.stats.orphan_records < u64::MAX,
    ensures
        record_step(m, b) == (
            with_stats(
                m,
                ReassemblyStats { orphan_records: (m.stats.orphan_records + 1) as u64, ..m.stats },
            ),
            Ok::<Option<Finished>, RecordError>(None),
        ),
{
}

/// The fragments `(offset, length)` of `full`, delivered as DATA records one after
/// another in the order given.
pub open spec fn deliver(p: PendingView, full: Seq<u8>, frags: Seq<(u64, u64)>) -> Result<
    PendingView,
    RecordError,
>
    decreases frags.len(),
{
    if frags.len() == 0 {
        Ok(p)
    } else {
        match deliver(p, full, frags.drop_last()) {
            Err(e) => Err(e),
            Ok(q) => {
                let (o, l) = frags.last();
                data_step(q, o, full.subrange(o as int, o + l))
            },
        }
    }
}

/// Whether byte `x` lies in fragment `f`.
pub open spec fn in_fragment(f: (u64, u64), x: int) -> bool {
    f.0 <= x < f.0 + f.1
}

/// Whether byte `x` lies in one of the fragments.
pub open spec fn covered(frags: Seq<(u64, u64)>, x: int) -> bool {
    exists|j: int| 0 <= j < frags.len() && in_fragment(#[trigger] frags[j], x)
}

/// Whether the fragments are non-empty, lie inside `full`, and do not overlap.
pub open spec fn fragments_of(full: Seq<u8>, frags: Seq<(u64, u64)>) -> bool {
    &&& forall|j: int| 0 <= j < frags.len() ==> #[trigger] frags[j].1 > 0 && frags[j].0
        + frags[j].1 <= full.len()
    &&& forall|j: int, k: int|
        #![trigger frags[j], frags[k]]
        0 <= j < k < frags.len() ==> frags[j].0 + frags[j].1 <= frags[k].0 || frags[k].0
            + frags[k].1 <= frags[j].0
}

proof fn lemma_deliver(p: PendingView, full: Seq<u8>, frags: Seq<(u64, u64)>)
    requires
        p.received == Set::<int>::empty(),
        p.payload == Seq::<u8>::empty(),
        p.meta.payload_len == full.len(),
        fragments_of(full, frags),
    ensures
        deliver(p, full, frags) is Ok,
        ({
            let q = deliver(p, full, frags)->Ok_0;
            &&& q.meta == p.meta
            &&& q.iso == p.iso
            &&& forall|x: int| #[trigger] q.received.contains(x) <==> exists|j: int|
                0 <= j < frags.len() && in_fragment(#[trigger] frags[j], x)
            &&& q.payload.len() <= full.len()
            &&& forall|j: int| 0 <= j < frags.len() ==> #[trigger] frags[j].0 + frags[j].1
                <= q.payload.len()
            &&& forall|x: int| #[trigger] q.received.contains(x) ==> q.payload[x] == full[x]
        }),
    decreases frags.len(),
{
    if frags.len() > 0 {
        let init = frags.drop_last();
        assert forall|j: int| 0 <= j < init.len() implies #[trigger] init[j].1 > 0 && init[j].0
            + init[j].1 <= full.len() by {
            assert(init[j] == frags[j]);
        }
        assert forall|j: int, k: int|
            #![trigger init[j], init[k]]
            0 <= j < k < init.len() implies init[j].0 + init[j].1 <= init[k].0 || init[k].0
                + init[k].1 <= init[j].0 by {
            assert(init[j] == frags[j] && init[k] == frags[k]);
        }
        lemma_deliver(p, full, init);
        let q = deliver(p, full, init)->Ok_0;
        let n = frags.len() - 1;
        let (o, l) = frags[n];
        assert(frags.last() == frags[n]);
        let body = full.subrange(o as int, o + l);
        assert(l > 0 && o + l <= full.len());
        assert(!(exists|x: int| o <= x < o + body.len() && #[trigger] q.received.contains(x))) by {
            if exists|x: int| o <= x < o + body.len() && #[trigger] q.received.contains(x) {
                let x = choose|x: int| o <= x < o + body.len() && #[trigger] q.received.contains(x);
                let j = choose|j: int| 0 <= j < init.len() && in_fragment(#[trigger] init[j], x);
                assert(init[j] == frags[j]);
                assert(frags[j].0 + frags[j].1 <= frags[n].0 || frags[n].0 + frags[n].1
                    <= frags[j].0);
            }
        }
        let r = deliver(p, full, frags)->Ok_0;
        assert(r == data_step(q, o, body)->Ok_0);
        assert forall|x: int| #[trigger] r.received.contains(x) <==> exists|j: int|
            0 <= j < frags.len() && in_fragment(#[trigger] frags[j], x) by {
            if q.received.contains(x) {
                let j = choose|j: int| 0 <= j < init.len() && in_fragment(#[trigger] init[j], x);
                assert(init[j] == frags[j]);
            }
            if exists|j: int| 0 <= j < frags.len() && in_fragment(#[trigger] frags[j], x) {
                let j = choose|j: int| 0 <= j < frags.len() && in_fragment(#[trigger] frags[j], x);
                if j < n {
                    assert(init[j] == frags[j]);
                    assert(q.received.contains(x));
                }
            }
        }
        assert forall|j: int| 0 <= j < frags.len() implies #[trigger] frags[j].0 + frags[j].1
            <= r.payload.len() by {
            if j < n {
                assert(init[j] == frags[j]);
            }
        }
        assert forall|x: int| #[trigger] r.received.contains(x) implies r.payload[x] == full[x] by {
            if o <= x < o + l {
                assert(body[x - o] == full[x]);
            } else {
                assert(q.received.contains(x));
                let j = choose|j: int| 0 <= j < init.len() && in_fragment(#[trigger] init[j], x);
                assert(init[j] == frags[j]);
            }
        }
    }
}

/// However its payload is cut into non-overlapping fragments, and in whatever order
/// they arrive, a fresh event whose fragments cover its whole payload span ends up
/// holding exactly that payload with every byte received: no delivery order is
/// refused and none gives another payload.
pub proof fn law_any_delivery_order(p: PendingView, full: Seq<u8>, frags: Seq<(u64, u64)>)
    requires
        p.received == Set::<int>::empty(),
        p.payload == Seq::<u8>::empty(),
        p.meta.payload_len == full.len(),
        fragments_of(full, frags),
        forall|x: int| 0 <= x < full.len() ==> #[trigger] covered(frags, x),
    ensures
        deliver(p, full, frags) is Ok,
        deliver(p, full, frags)->Ok_0.payload == full,
        received_all(deliver(p, full, frags)->Ok_0, 0, full.len() as int),
{
    lemma_deliver(p, full, frags);
    let q = deliver(p, full, frags)->Ok_0;
    if full.len() > 0 {
        assert(covered(frags, full.len() - 1));
        let j = choose|j: int| 0 <= j < frags.len() && in_fragment(#[trigger] frags[j], full.len() - 1);
        assert(frags[j].0 + frags[j].1 <= q.payload.len());
        assert(in_fragment(frags[j], full.len() - 1));
        assert(q.payload.len() == full.len());
    }
    assert forall|x: int| 0 <= x < full.len() implies #[trigger] q.received.contains(x) by {
        assert(covered(frags, x));
    }
    assert forall|x: int| 0 <= x < full.len() implies q.payload[x] == full[x] by {
        assert(q.received.contains(x));
    }
    assert(q.payload =~= full);
}

/// Records of other events, interleaved with an event's own, leave that event in
/// flight exactly as it was.
pub proof fn law_other_records_leave_an_event_alone(m: ReassemblerView, b: Seq<u8>, id: u64)
    requires
        m.pending.contains_key(id),
        header_fault(b) is None ==> le_value(b, 8, 8) != id,
    ensures
        record_step(m, b).0.pending.contains_key(id),
        record_step(m, b).0.pending[id] == m.pending[id],
{
    lemma_le_value_bound(b, 8, 8);
    lemma_pow256();
}

} // verus!
