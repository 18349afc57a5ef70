//! Raw event archives: metadata decoding, record framing and kernel counter summaries.
use crate::bytes::{
    bits_of_i32, i32_from_bits, i32_of, le_bytes, le_value, lemma_le_bytes_len,
    lemma_le_roundtrip, lemma_le_value_prefix, lemma_le_value_shift, lemma_pow256, pow256,
    push_le, u16_at, u32_at, u64_at,
};
use crate::wire::{
    ByteOrder, CaptureStats, EventMeta, IsoDescriptor, ABI_VERSION, CHUNK_SIZE, RAW_MAGIC,
    RECORD_STATS, enc, lemma_enc_len,
};
use vstd::prelude::*;

verus! {

/// Largest transport record: a header and one payload chunk.
pub const MAX_RECORD_SIZE: usize = 16408;

/// Why an archive record, or the event it belongs to, was rejected.
#[derive(Clone, Copy, Debug, PartialEq, Eq, Structural)]
pub enum RecordError {
    InvalidMetadataLength,
    InvalidEventType,
    InvalidUsbMetadata,
    InvalidPresenceFlag,
    PayloadWithoutDataFlag,
    IsoDescriptorsOnNonIso,
    PayloadSpanExceedsBuffer,
    ShortRecordHeader,
    UnsupportedAbi,
    InvalidRecordSize,
    InvalidKernelSummary,
    NonzeroMetadataOffset,
    DuplicateBegin,
    TooManyPending,
    UnknownRecordKind,
    EmptyPayloadRecord,
    PayloadOffsetOverflow,
    PayloadOutsideSpan,
    OverlappingFragment,
    InvalidIsoDescriptorLength,
    InvalidIsoDescriptorIndex,
    InvalidEventEnd,
    IsoDescriptorOutsideBuffer,
    IsoSpanMismatch,
    NotAnArchive,
    TruncatedRecordLength,
    InvalidArchiveRecordLength,
    TruncatedRecord,
    ArchiveLengthMismatch,
}

/// One observed URB submission, completion or error with its payload bytes.
#[derive(Debug)]
pub struct Event {
    /// Distinguishes pcapng interfaces across sections; live/raw use source 0.
    /// URB IDs are only unique within one capture source.
    pub source_id: u64,
    pub meta: EventMeta,
    pub iso: Vec<IsoDescriptor>,
    pub payload: Vec<u8>,
    /// Native Linux USB pcapng omits these fields; do not invent filter values.
    pub identity_known: bool,
    pub requested_known: bool,
}

/// `m` holds the fields of the 72-byte little-endian metadata record `b`.
pub open spec fn meta_of_bytes(b: Seq<u8>, m: EventMeta) -> bool {
    &&& m.urb_id == le_value(b, 0, 8)
    &&& m.timestamp_ns == le_value(b, 8, 8)
    &&& m.bus == le_value(b, 16, 2)
    &&& m.device == b[18]
    &&& m.endpoint == b[19]
    &&& m.transfer_type == b[20]
    &&& m.event_type == b[21]
    &&& m.setup_present == b[22]
    &&& m.has_data == b[23]
    &&& m.status == i32_of(le_value(b, 24, 4) as u32)
    &&& m.requested_len == le_value(b, 28, 4)
    &&& m.actual_len == le_value(b, 32, 4)
    &&& m.payload_len == le_value(b, 36, 4)
    &&& m.interval == i32_of(le_value(b, 40, 4) as u32)
    &&& m.start_frame == i32_of(le_value(b, 44, 4) as u32)
    &&& m.transfer_flags == le_value(b, 48, 4)
    &&& m.iso_count == le_value(b, 52, 4)
    &&& m.error_count == i32_of(le_value(b, 56, 4) as u32)
    &&& m.vid == le_value(b, 60, 2)
    &&& m.pid == le_value(b, 62, 2)
    &&& m.setup@ == b.subrange(64, 72)
}

/// The first consistency rule that decoded metadata breaks, if any.
pub open spec fn meta_fault(m: EventMeta) -> Option<RecordError> {
    if !(m.event_type == 0x53 || m.event_type == 0x43 || m.event_type == 0x45) {
        Some(RecordError::InvalidEventType)
    } else if !(m.transfer_type <= 3 && m.device <= 127) {
        Some(RecordError::InvalidUsbMetadata)
    } else if !(m.has_data <= 1 && m.setup_present <= 1) {
        Some(RecordError::InvalidPresenceFlag)
    } else if !(m.has_data != 0 || m.payload_len == 0) {
        Some(RecordError::PayloadWithoutDataFlag)
    } else if !(m.transfer_type == 0 || m.iso_count == 0) {
        Some(RecordError::IsoDescriptorsOnNonIso)
    } else if !(m.payload_len <= m.requested_len) {
        Some(RecordError::PayloadSpanExceedsBuffer)
    } else {
        None
    }
}

/// Decodes a little-endian metadata record and checks its consistency.
pub fn decode_meta(b: &[u8]) -> (r: Result<EventMeta, RecordError>)
    ensures
        b@.len() != 72 ==> r == Err::<EventMeta, RecordError>(RecordError::InvalidMetadataLength),
        b@.len() == 72 ==> match r {
            Ok(m) => meta_of_bytes(b@, m) && meta_fault(m) is None,
            Err(e) => exists|m: EventMeta| meta_of_bytes(b@, m) && meta_fault(m) == Some(e),
        },
{
    if b.len() != 72 {
        return Err(RecordError::InvalidMetadataLength);
    }
    let mut setup = [0u8; 8];
    let mut k: usize = 0;
    while k < 8
        invariant
            k <= 8,
            b@.len() == 72,
            forall|j: int| 0 <= j < k ==> setup@[j] == b@[64 + j],
        decreases 8 - k,
    {
        setup[k] = b[64 + k];
        k = k + 1;
    }
    assert(setup@ =~= b@.subrange(64, 72));
    let m = EventMeta {
        urb_id: u64_at(b, 0),
        timestamp_ns: u64_at(b, 8),
        bus: u16_at(b, 16),
        device: b[18],
        endpoint: b[19],
        transfer_type: b[20],
        event_type: b[21],
        setup_present: b[22],
        has_data: b[23],
        status: i32_from_bits(u32_at(b, 24)),
        requested_len: u32_at(b, 28),
        actual_len: u32_at(b, 32),
        payload_len: u32_at(b, 36),
        interval: i32_from_bits(u32_at(b, 40)),
        start_frame: i32_from_bits(u32_at(b, 44)),
        transfer_flags: u32_at(b, 48),
        iso_count: u32_at(b, 52),
        error_count: i32_from_bits(u32_at(b, 56)),
        vid: u16_at(b, 60),
        pid: u16_at(b, 62),
        setup,
    };
    assert(meta_of_bytes(b@, m));
    if !(m.event_type == 0x53 || m.event_type == 0x43 || m.event_type == 0x45) {
        assert(meta_fault(m) == Some(RecordError::InvalidEventType));
        return Err(RecordError::InvalidEventType);
    }
    if !(m.transfer_type <= 3 && m.device <= 127) {
        assert(meta_fault(m) == Some(RecordError::InvalidUsbMetadata));
        return Err(RecordError::InvalidUsbMetadata);
    }
    if !(m.has_data <= 1 && m.setup_present <= 1) {
        assert(meta_fault(m) == Some(RecordError::InvalidPresenceFlag));
        return Err(RecordError::InvalidPresenceFlag);
    }
    if !(m.has_data != 0 || m.payload_len == 0) {
        assert(meta_fault(m) == Some(RecordError::PayloadWithoutDataFlag));
        return Err(RecordError::PayloadWithoutDataFlag);
    }
    if !(m.transfer_type == 0 || m.iso_count == 0) {
        assert(meta_fault(m) == Some(RecordError::IsoDescriptorsOnNonIso));
        return Err(RecordError::IsoDescriptorsOnNonIso);
    }
    if !(m.payload_len <= m.requested_len) {
        assert(meta_fault(m) == Some(RecordError::PayloadSpanExceedsBuffer));
        return Err(RecordError::PayloadSpanExceedsBuffer);
    }
    Ok(m)
}

/// Any two metadata values decoded from the same bytes are equal.
pub proof fn lemma_meta_of_bytes_unique(b: Seq<u8>, m1: EventMeta, m2: EventMeta)
    requires
        meta_of_bytes(b, m1),
        meta_of_bytes(b, m2),
    ensures
        m1 == m2,
{
    assert(m1.setup@ =~= m2.setup@);
    assert(m1.setup == m2.setup);
}

/// Reading `le_bytes(v, n)` back out of the middle of a longer sequence.
proof fn lemma_field(pre: Seq<u8>, v: nat, n: nat, post: Seq<u8>)
    requires
        v < pow256(n),
    ensures
        le_value(pre + le_bytes(v, n) + post, pre.len() as int, n) == v,
{
    lemma_le_bytes_len(v, n);
    lemma_le_roundtrip(v, n);
    lemma_le_value_prefix(le_bytes(v, n), post, 0, n);
    lemma_le_value_shift(pre, le_bytes(v, n) + post, 0, n);
    assert(pre + le_bytes(v, n) + post == pre + (le_bytes(v, n) + post));
}

/// The wire image of metadata decodes to that same metadata.
#[verifier::rlimit(100)]
#[verifier::spinoff_prover]
pub proof fn law_decode_meta_inverts_wire(m: EventMeta)
    ensures
        m.wire().len() == 72,
        meta_of_bytes(m.wire(), m),
{
    lemma_pow256();
    let o = ByteOrder::Little;
    let w = m.wire();
    let f0 = enc(m.urb_id as nat, 8, o);
    let f1 = enc(m.timestamp_ns as nat, 8, o);
    let f2 = enc(m.bus as nat, 2, o);
    let f3 = seq![
        m.device,
        m.endpoint,
        m.transfer_type,
        m.event_type,
        m.setup_present,
        m.has_data,
    ];
    let f4 = enc(bits_of_i32(m.status) as nat, 4, o);
    let f5 = enc(m.requested_len as nat, 4, o);
    let f6 = enc(m.actual_len as nat, 4, o);
    let f7 = enc(m.payload_len as nat, 4, o);
    let f8 = enc(bits_of_i32(m.interval) as nat, 4, o);
    let f9 = enc(bits_of_i32(m.start_frame) as nat, 4, o);
    let f10 = enc(m.transfer_flags as nat, 4, o);
    let f11 = enc(m.iso_count as nat, 4, o);
    let f12 = enc(bits_of_i32(m.error_count) as nat, 4, o);
    let f13 = enc(m.vid as nat, 2, o);
    let f14 = enc(m.pid as nat, 2, o);
    let f15 = m.setup@;
    lemma_enc_len(m.urb_id as nat, 8, o);
    lemma_enc_len(m.timestamp_ns as nat, 8, o);
    lemma_enc_len(m.bus as nat, 2, o);
    lemma_enc_len(bits_of_i32(m.status) as nat, 4, o);
    lemma_enc_len(m.requested_len as nat, 4, o);
    lemma_enc_len(m.actual_len as nat, 4, o);
    lemma_enc_len(m.payload_len as nat, 4, o);
    lemma_enc_len(bits_of_i32(m.interval) as nat, 4, o);
    lemma_enc_len(bits_of_i32(m.start_frame) as nat, 4, o);
    lemma_enc_len(m.transfer_flags as nat, 4, o);
    lemma_enc_len(m.iso_count as nat, 4, o);
    lemma_enc_len(bits_of_i32(m.error_count) as nat, 4, o);
    lemma_enc_len(m.vid as nat, 2, o);
    lemma_enc_len(m.pid as nat, 2, o);
    assert(w == f0 + f1 + f2 + f3 + f4 + f5 + f6 + f7 + f8 + f9 + f10 + f11 + f12 + f13 + f14
        + f15);
    let empty = Seq::<u8>::empty();
    assert(w =~= empty + f0 + (f1 + f2 + f3 + f4 + f5 + f6 + f7 + f8 + f9 + f10 + f11 + f12 + f13
        + f14 + f15));
    lemma_field(empty, m.urb_id as nat, 8, f1 + f2 + f3 + f4 + f5 + f6 + f7 + f8 + f9 + f10 + f11
        + f12 + f13 + f14 + f15);
    assert(w =~= f0 + f1 + (f2 + f3 + f4 + f5 + f6 + f7 + f8 + f9 + f10 + f11 + f12 + f13 + f14
        + f15));
    lemma_field(f0, m.timestamp_ns as nat, 8, f2 + f3 + f4 + f5 + f6 + f7 + f8 + f9 + f10 + f11
        + f12 + f13 + f14 + f15);
    let p2 = f0 + f1;
    assert(w =~= p2 + f2 + (f3 + f4 + f5 + f6 + f7 + f8 + f9 + f10 + f11 + f12 + f13 + f14 + f15));
    lemma_field(p2, m.bus as nat, 2, f3 + f4 + f5 + f6 + f7 + f8 + f9 + f10 + f11 + f12 + f13 + f14
        + f15);
    let p4 = f0 + f1 + f2 + f3;
    assert(w =~= p4 + f4 + (f5 + f6 + f7 + f8 + f9 + f10 + f11 + f12 + f13 + f14 + f15));
    lemma_field(p4, bits_of_i32(m.status) as nat, 4, f5 + f6 + f7 + f8 + f9 + f10 + f11 + f12 + f13
        + f14 + f15);
    let p5 = p4 + f4;
    assert(w =~= p5 + f5 + (f6 + f7 + f8 + f9 + f10 + f11 + f12 + f13 + f14 + f15));
    lemma_field(p5, m.requested_len as nat, 4, f6 + f7 + f8 + f9 + f10 + f11 + f12 + f13 + f14 + f15);
    let p6 = p5 + f5;
    assert(w =~= p6 + f6 + (f7 + f8 + f9 + f10 + f11 + f12 + f13 + f14 + f15));
    lemma_field(p6, m.actual_len as nat, 4, f7 + f8 + f9 + f10 + f11 + f12 + f13 + f14 + f15);
    let p7 = p6 + f6;
    assert(w =~= p7 + f7 + (f8 + f9 + f10 + f11 + f12 + f13 + f14 + f15));
    lemma_field(p7, m.payload_len as nat, 4, f8 + f9 + f10 + f11 + f12 + f13 + f14 + f15);
    let p8 = p7 + f7;
    assert(w =~= p8 + f8 + (f9 + f10 + f11 + f12 + f13 + f14 + f15));
    lemma_field(p8, bits_of_i32(m.interval) as nat, 4, f9 + f10 + f11 + f12 + f13 + f14 + f15);
    let p9 = p8 + f8;
    assert(w =~= p9 + f9 + (f10 + f11 + f12 + f13 + f14 + f15));
    lemma_field(p9, bits_of_i32(m.start_frame) as nat, 4, f10 + f11 + f12 + f13 + f14 + f15);
    let p10 = p9 + f9;
    assert(w =~= p10 + f10 + (f11 + f12 + f13 + f14 + f15));
    lemma_field(p10, m.transfer_flags as nat, 4, f11 + f12 + f13 + f14 + f15);
    let p11 = p10 + f10;
    assert(w =~= p11 + f11 + (f12 + f13 + f14 + f15));
    lemma_field(p11, m.iso_count as nat, 4, f12 + f13 + f14 + f15);
    let p12 = p11 + f11;
    assert(w =~= p12 + f12 + (f13 + f14 + f15));
    lemma_field(p12, bits_of_i32(m.error_count) as nat, 4, f13 + f14 + f15);
    let p13 = p12 + f12;
    assert(w =~= p13 + f13 + (f14 + f15));
    lemma_field(p13, m.vid as nat, 2, f14 + f15);
    let p14 = p13 + f13;
    assert(w =~= p14 + f14 + f15);
    lemma_field(p14, m.pid as nat, 2, f15);
    assert(w.subrange(64, 72) =~= f15);
    assert(w[18] == m.device);
    assert(w[23] == m.has_data);
}

/// Little-endian image of the kernel counter summary record that ends a raw archive.
pub open spec fn kernel_summary(stats: CaptureStats) -> Seq<u8> {
    le_bytes(88, 4) + le_bytes(ABI_VERSION as nat, 2) + le_bytes(RECORD_STATS as nat, 2)
        + le_bytes(88, 4) + Seq::new(16, |i: int| 0u8) + le_bytes(stats.submitted as nat, 8)
        + le_bytes(stats.completed as nat, 8) + le_bytes(stats.submit_errors as nat, 8) + le_bytes(
        stats.ring_losses as nat,
        8,
    ) + le_bytes(stats.read_errors as nat, 8) + le_bytes(stats.unsupported_buffers as nat, 8)
        + le_bytes(stats.state_errors as nat, 8) + le_bytes(stats.sg_events as nat, 8)
}

/// Appends the kernel counter summary record, with its archive length prefix.
pub fn write_kernel_summary(writer: &mut Vec<u8>, stats: &CaptureStats)
    ensures
        final(writer)@ == old(writer)@ + kernel_summary(*stats),
{
    push_le(writer, 88, 4);
    push_le(writer, ABI_VERSION as u64, 2);
    push_le(writer, RECORD_STATS as u64, 2);
    push_le(writer, 88, 4);
    let ghost before = writer@;
    let mut k: usize = 0;
    while k < 16
        invariant
            k <= 16,
            writer@ == before + Seq::new(k as nat, |i: int| 0u8),
        decreases 16 - k,
    {
        writer.push(0);
        k = k + 1;
        assert(writer@ =~= before + Seq::new(k as nat, |i: int| 0u8));
    }
    push_le(writer, stats.submitted, 8);
    push_le(writer, stats.completed, 8);
    push_le(writer, stats.submit_errors, 8);
    push_le(writer, stats.ring_losses, 8);
    push_le(writer, stats.read_errors, 8);
    push_le(writer, stats.unsupported_buffers, 8);
    push_le(writer, stats.state_errors, 8);
    push_le(writer, stats.sg_events, 8);
}

/// Checks the eight magic bytes that start a raw event archive.
pub fn read_raw_header(magic: &[u8]) -> (r: Result<(), RecordError>)
    ensures
        r is Ok <==> magic@ == RAW_MAGIC@,
        r is Err ==> r == Err::<(), RecordError>(RecordError::NotAnArchive),
{
    if magic.len() != 8 {
        return Err(RecordError::NotAnArchive);
    }
    let mut k: usize = 0;
    while k < 8
        invariant
            k <= 8,
            magic@.len() == 8,
            forall|j: int| 0 <= j < k ==> magic@[j] == RAW_MAGIC@[j],
        decreases 8 - k,
    {
        if magic[k] != RAW_MAGIC[k] {
            return Err(RecordError::NotAnArchive);
        }
        k = k + 1;
    }
    assert(magic@ =~= RAW_MAGIC@);
    Ok(())
}

/// Length of the archive record announced by a four-byte little-endian prefix.
pub fn archive_record_length(prefix: &[u8]) -> (r: Result<usize, RecordError>)
    ensures
        prefix@.len() < 4 ==> r == Err::<usize, RecordError>(RecordError::TruncatedRecordLength),
        prefix@.len() >= 4 ==> match r {
            Ok(len) => len == le_value(prefix@, 0, 4) && 24 <= len <= MAX_RECORD_SIZE,
            Err(e) => e == RecordError::InvalidArchiveRecordLength && !(24 <= le_value(
                prefix@,
                0,
                4,
            ) <= MAX_RECORD_SIZE),
        },
{
    if prefix.len() < 4 {
        return Err(RecordError::TruncatedRecordLength);
    }
    let len = u32_at(prefix, 0);
    if len < 24 || len as usize > MAX_RECORD_SIZE {
        return Err(RecordError::InvalidArchiveRecordLength);
    }
    Ok(len as usize)
}

/// The next record of an archive, from the bytes that follow the archive header:
/// nothing at the end of the input, otherwise a length prefix and that many record bytes.
pub fn read_record(input: &[u8]) -> (r: Result<Option<Vec<u8>>, RecordError>)
    ensures
        input@.len() == 0 ==> r == Ok::<Option<Vec<u8>>, RecordError>(None),
        0 < input@.len() < 4 ==> r == Err::<Option<Vec<u8>>, RecordError>(
            RecordError::TruncatedRecordLength,
        ),
        input@.len() >= 4 ==> {
            let len = le_value(input@, 0, 4);
            match r {
                Ok(Some(rec)) => 24 <= len <= MAX_RECORD_SIZE && 4 + len <= input@.len()
                    && rec@ == input@.subrange(4, 4 + len as int) && le_value(rec@, 4, 4) == len,
                Ok(None) => false,
                Err(e) => if !(24 <= len <= MAX_RECORD_SIZE) {
                    e == RecordError::InvalidArchiveRecordLength
                } else if input@.len() < 4 + len {
                    e == RecordError::TruncatedRecord
                } else {
                    e == RecordError::ArchiveLengthMismatch && le_value(input@, 8, 4) != len
                },
            }
        },
{
    if input.len() == 0 {
        return Ok(None);
    }
    let len = archive_record_length(input)?;
    if input.len() - 4 < len {
        return Err(RecordError::TruncatedRecord);
    }
    let mut bytes: Vec<u8> = Vec::new();
    let mut k: usize = 0;
    while k < len
        invariant
            k <= len,
            4 + len <= input@.len() <= usize::MAX,
            bytes@ == input@.subrange(4, 4 + k),
        decreases len - k,
    {
        bytes.push(input[4 + k]);
        k = k + 1;
        assert(bytes@ =~= input@.subrange(4, 4 + k));
    }
    let declared = u32_at(bytes.as_slice(), 4);
    proof {
        lemma_le_value_shift(input@.subrange(0, 4), bytes@, 4, 4);
        lemma_le_value_prefix(input@.subrange(0, 4 + len as int), input@.subrange(4 + len as int, input@.len() as int), 8, 4);
        assert(input@.subrange(0, 4) + bytes@ =~= input@.subrange(0, 4 + len as int));
        assert(input@.subrange(0, 4 + len as int) + input@.subrange(4 + len as int, input@.len() as int) =~= input@);
    }
    if declared as usize != len {
        return Err(RecordError::ArchiveLengthMismatch);
    }
    Ok(Some(bytes))
}

} // verus!
