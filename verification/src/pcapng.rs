//! Writing events as a pcapng file of Linux USB (memory-mapped) packets.
use crate::archive::Event;
use crate::bytes::{bits_of_i32, i32_bits, le_bytes, lemma_le_bytes_len, push_le};
use crate::wire::{EventMeta, IsoDescriptor};
use vstd::prelude::*;

verus! {

/// Why an event could not be written.
#[derive(Clone, Copy, Debug, PartialEq, Eq, Structural)]
pub enum WriteError {
    TooManyIsoDescriptors,
    IsoDescriptorOverflow,
    RecordTooLong,
    BlockTooLong,
    PayloadShorterThanSpan,
}

pub open spec fn le32(v: int) -> Seq<u8> {
    le_bytes(v as nat, 4)
}

/// A pcapng block: type, total length, body, total length again.
pub open spec fn block_bytes(kind: u32, data: Seq<u8>) -> Seq<u8> {
    le32(kind as int) + le32(data.len() + 12int) + data + le32(data.len() + 12int)
}

/// Body of the section header: byte-order magic, version 1.0, unknown section length.
pub open spec fn section_body() -> Seq<u8> {
    seq![0x4du8, 0x3c, 0x2b, 0x1a, 1, 0, 0, 0, 255, 255, 255, 255, 255, 255, 255, 255]
}

/// Body of the interface description: LINKTYPE_USB_LINUX_MMAPPED, no snap limit;
/// without options, timestamps are in microseconds.
pub open spec fn interface_body() -> Seq<u8> {
    seq![220u8, 0, 0, 0, 0, 0, 0, 0]
}

/// What a file starts with.
pub open spec fn file_header() -> Seq<u8> {
    block_bytes(0x0a0d0d0a, section_body()) + block_bytes(1, interface_body())
}

/// The timestamp in microseconds.
pub open spec fn micros(m: EventMeta) -> int {
    (m.timestamp_ns / 1000) as int
}

pub open spec fn desc_len(e: Event) -> int {
    e.iso@.len() * 16int
}

pub open spec fn data_len(e: Event) -> int {
    desc_len(e) + e.meta.payload_len
}

pub open spec fn caplen(e: Event) -> int {
    64 + data_len(e)
}

pub open spec fn padding(e: Event) -> int {
    (4 - caplen(e) % 4) % 4
}

pub open spec fn total_len(e: Event) -> int {
    caplen(e) + padding(e) + 32
}

/// Why an event does not fit the format, if it does not.
pub open spec fn size_fault(e: Event) -> Option<WriteError> {
    if e.iso@.len() > u32::MAX {
        Some(WriteError::TooManyIsoDescriptors)
    } else if desc_len(e) > u32::MAX {
        Some(WriteError::IsoDescriptorOverflow)
    } else if data_len(e) > u32::MAX || caplen(e) > u32::MAX {
        Some(WriteError::RecordTooLong)
    } else if total_len(e) > u32::MAX {
        Some(WriteError::BlockTooLong)
    } else {
        None
    }
}

/// The start of an enhanced packet block: type, length, interface 0, timestamp
/// halves, captured and original length.
pub open spec fn packet_head(e: Event) -> Seq<u8> {
    let ts = micros(e.meta);
    le32(6) + le32(total_len(e)) + le32(0) + le32(ts / 0x1_0000_0000) + le32(ts % 0x1_0000_0000)
        + le32(caplen(e)) + le32(caplen(e))
}

/// Bytes 40 to 48 of the USB header: ISO error and descriptor counts, or the setup
/// packet, or zeros.
pub open spec fn header_middle(m: EventMeta) -> Seq<u8> {
    if m.transfer_type == 0 {
        le32(bits_of_i32(m.error_count) as int) + le32(m.iso_count as int)
    } else if m.setup_present != 0 {
        m.setup@
    } else {
        Seq::new(8, |i: int| 0u8)
    }
}

/// Bytes 0 to 40 of the USB header: URB ID, event and transfer type, endpoint,
/// device, bus, presence flags, timestamp, status, URB and data length.
pub open spec fn header_front(m: EventMeta, data_len: int) -> Seq<u8> {
    let ts = micros(m);
    let setup_flag: u8 = if m.setup_present != 0 {
        0
    } else {
        0x2d
    };
    let data_flag: u8 = if m.has_data != 0 {
        0
    } else if m.endpoint & 0x80 != 0 {
        0x3c
    } else {
        0x3e
    };
    let urb_len = if m.event_type == 0x53 {
        m.requested_len
    } else {
        m.actual_len
    };
    le_bytes(m.urb_id as nat, 8) + seq![m.event_type, m.transfer_type, m.endpoint, m.device]
        + le_bytes(m.bus as nat, 2) + seq![setup_flag, data_flag] + le_bytes(
        (ts / 1_000_000) as nat,
        8,
    ) + le32(ts % 1_000_000) + le32(bits_of_i32(m.status) as int) + le32(urb_len as int) + le32(
        data_len,
    )
}

/// Bytes 48 to 64 of the USB header: interval, start frame, transfer flags and
/// descriptor count.
pub open spec fn header_back(m: EventMeta) -> Seq<u8> {
    le32(bits_of_i32(m.interval) as int) + le32(bits_of_i32(m.start_frame) as int) + le32(
        m.transfer_flags as int,
    ) + le32(m.iso_count as int)
}

/// The 64-byte Linux USB header of an event.
pub open spec fn usb_header(m: EventMeta, data_len: int) -> Seq<u8> {
    header_front(m, data_len) + header_middle(m) + header_back(m)
}

/// An ISO descriptor as the Linux USB format stores it.
pub open spec fn desc_bytes(d: IsoDescriptor) -> Seq<u8> {
    le32(bits_of_i32(d.status) as int) + le32(d.offset as int) + le32(d.length as int) + le32(0)
}

pub open spec fn iso_bytes(iso: Seq<IsoDescriptor>) -> Seq<u8>
    decreases iso.len(),
{
    if iso.len() == 0 {
        Seq::empty()
    } else {
        iso_bytes(iso.drop_last()) + desc_bytes(iso.last())
    }
}

/// Everything of the packet block before the payload.
pub open spec fn packet_prefix(e: Event) -> Seq<u8> {
    packet_head(e) + usb_header(e.meta, data_len(e)) + iso_bytes(e.iso@)
}

/// The whole enhanced packet block of an event.
pub open spec fn packet_block(e: Event) -> Seq<u8> {
    packet_prefix(e) + e.payload@.take(e.meta.payload_len as int) + Seq::new(
        padding(e) as nat,
        |i: int| 0u8,
    ) + le32(total_len(e))
}

proof fn lemma_le_zero(n: nat)
    ensures
        le_bytes(0, n) == Seq::new(n, |i: int| 0u8),
    decreases n,
{
    if n > 0 {
        lemma_le_zero((n - 1) as nat);
        assert(le_bytes(0, n) == seq![0u8] + le_bytes(0, (n - 1) as nat));
        assert(seq![0u8] + Seq::new((n - 1) as nat, |i: int| 0u8) =~= Seq::new(n, |i: int| 0u8));
    } else {
        assert(le_bytes(0, 0) =~= Seq::new(0, |i: int| 0u8));
    }
}

/// Writes pcapng records into a buffer that the caller drains.
pub struct Writer {
    output: Vec<u8>,
    bytes: u64,
}

fn write_u32(out: &mut Vec<u8>, value: u32)
    ensures
        final(out)@ == old(out)@ + le32(value as int),
{
    push_le(out, value as u64, 4);
}

fn block(out: &mut Vec<u8>, kind: u32, data: &[u8])
    requires
        data@.len() + 12 <= u32::MAX,
    ensures
        final(out)@ == old(out)@ + block_bytes(kind, data@),
{
    let len = data.len() as u32 + 12;
    write_u32(out, kind);
    write_u32(out, len);
    let mut i: usize = 0;
    let ghost start = out@;
    while i < data.len()
        invariant
            i <= data@.len(),
            out@ == start + data@.take(i as int),
        decreases data@.len() - i,
    {
        out.push(data[i]);
        i = i + 1;
        assert(out@ =~= start + data@.take(i as int));
    }
    assert(data@.take(data@.len() as int) =~= data@);
    write_u32(out, len);
    assert(out@ =~= old(out)@ + block_bytes(kind, data@));
}

fn push_header_front(out: &mut Vec<u8>, m: &EventMeta, data_len: u32)
    ensures
        final(out)@ == old(out)@ + header_front(*m, data_len as int),
{
    let ts = m.timestamp_ns / 1000;
    let ghost start = out@;
    push_le(out, m.urb_id, 8);
    out.push(m.event_type);
    out.push(m.transfer_type);
    out.push(m.endpoint);
    out.push(m.device);
    let ghost p1 = out@;
    push_le(out, m.bus as u64, 2);
    out.push(
        if m.setup_present != 0 {
            0
        } else {
            0x2d
        },
    );
    out.push(
        if m.has_data != 0 {
            0
        } else if m.endpoint & 0x80 != 0 {
            0x3c
        } else {
            0x3e
        },
    );
    let ghost p2 = out@;
    push_le(out, ts / 1_000_000, 8);
    write_u32(out, (ts % 1_000_000) as u32);
    write_u32(out, i32_bits(m.status));
    let ghost p3 = out@;
    write_u32(
        out,
        if m.event_type == 0x53 {
            m.requested_len
        } else {
            m.actual_len
        },
    );
    write_u32(out, data_len);
    assert(out@ =~= start + header_front(*m, data_len as int));
}

fn push_header_middle(out: &mut Vec<u8>, m: &EventMeta)
    ensures
        final(out)@ == old(out)@ + header_middle(*m),
{
    let ghost before_middle = out@;
    if m.transfer_type == 0 {
        write_u32(out, i32_bits(m.error_count));
        write_u32(out, m.iso_count);
    } else if m.setup_present != 0 {
        let mut k: usize = 0;
        while k < 8
            invariant
                k <= 8,
                out@ == before_middle + m.setup@.take(k as int),
            decreases 8 - k,
        {
            out.push(m.setup[k]);
            k = k + 1;
            assert(out@ =~= before_middle + m.setup@.take(k as int));
        }
        assert(m.setup@.take(8) =~= m.setup@);
    } else {
        push_le(out, 0, 8);
        proof {
            lemma_le_zero(8);
        }
    }
    assert(out@ =~= before_middle + header_middle(*m));
}

fn push_usb_header(out: &mut Vec<u8>, m: &EventMeta, data_len: u32)
    ensures
        final(out)@ == old(out)@ + usb_header(*m, data_len as int),
{
    let ghost start = out@;
    push_header_front(out, m, data_len);
    push_header_middle(out, m);
    write_u32(out, i32_bits(m.interval));
    write_u32(out, i32_bits(m.start_frame));
    write_u32(out, m.transfer_flags);
    write_u32(out, m.iso_count);
    assert(out@ =~= start + usb_header(*m, data_len as int));
}

fn push_iso(out: &mut Vec<u8>, iso: &Vec<IsoDescriptor>)
    ensures
        final(out)@ == old(out)@ + iso_bytes(iso@),
{
    let ghost start = out@;
    let mut k: usize = 0;
    assert(iso@.take(0) =~= Seq::<IsoDescriptor>::empty());
    assert(out@ =~= start + iso_bytes(iso@.take(0)));
    while k < iso.len()
        invariant
            k <= iso@.len(),
            out@ == start + iso_bytes(iso@.take(k as int)),
        decreases iso@.len() - k,
    {
        let d = iso[k];
        let ghost before = out@;
        write_u32(out, i32_bits(d.status));
        write_u32(out, d.offset);
        write_u32(out, d.length);
        write_u32(out, 0);
        assert(iso@.take(k + 1).drop_last() =~= iso@.take(k as int));
        assert(out@ =~= before + desc_bytes(d));
        k = k + 1;
        assert(out@ =~= start + iso_bytes(iso@.take(k as int)));
    }
    assert(iso@.take(iso@.len() as int) =~= iso@);
}

impl Writer {
    /// Bytes produced and not yet taken.
    pub closed spec fn buffered(&self) -> Seq<u8> {
        self.output@
    }

    /// All bytes produced so far.
    pub closed spec fn written(&self) -> nat {
        self.bytes as nat
    }

    /// A writer that has produced the section header and the interface description.
    pub fn new() -> (r: Self)
        ensures
            r.buffered() == file_header(),
            r.written() == 48,
            file_header().len() == 48,
    {
        let mut output: Vec<u8> = Vec::new();
        let shb: [u8; 16] = [
            0x4d,
            0x3c,
            0x2b,
            0x1a,
            1,
            0,
            0,
            0,
            255,
            255,
            255,
            255,
            255,
            255,
            255,
            255,
        ];
        let idb: [u8; 8] = [220, 0, 0, 0, 0, 0, 0, 0];
        assert(shb@ =~= section_body());
        assert(idb@ =~= interface_body());
        block(&mut output, 0x0a0d0d0a, shb.as_slice());
        block(&mut output, 1, idb.as_slice());
        proof {
            lemma_le_bytes_len(0x0a0d0d0a, 4);
            lemma_le_bytes_len(1, 4);
            lemma_le_bytes_len(28, 4);
            lemma_le_bytes_len(20, 4);
        }
        Writer { output, bytes: 48 }
    }

    /// Appends the enhanced packet block of an event. A record too large for the
    /// format is refused before anything is written; a payload shorter than its
    /// declared span is refused after the block's start, header, descriptors and the
    /// payload bytes there are have been written.
    pub fn write_event(&mut self, event: &Event) -> (r: Result<(), WriteError>)
        requires
            old(self).written() + u32::MAX <= u64::MAX,
        ensures
            match size_fault(*event) {
                Some(e) => r == Err::<(), WriteError>(e) && final(self).buffered() == old(
                    self,
                ).buffered() && final(self).written() == old(self).written(),
                None => if event.payload@.len() < event.meta.payload_len {
                    &&& r == Err::<(), WriteError>(WriteError::PayloadShorterThanSpan)
                    &&& final(self).buffered() == old(self).buffered() + packet_prefix(*event)
                        + event.payload@
                    &&& final(self).written() == old(self).written()
                } else {
                    &&& r is Ok
                    &&& final(self).buffered() == old(self).buffered() + packet_block(*event)
                    &&& final(self).written() == old(self).written() + total_len(*event)
                },
            },
    {
        let m = &event.meta;
        if event.iso.len() > 0xffff_ffff {
            return Err(WriteError::TooManyIsoDescriptors);
        }
        let count = event.iso.len() as u32;
        let desc_len = match count.checked_mul(16) {
            None => {
                return Err(WriteError::IsoDescriptorOverflow);
            },
            Some(v) => v,
        };
        let data_len = match desc_len.checked_add(m.payload_len) {
            None => {
                return Err(WriteError::RecordTooLong);
            },
            Some(v) => v,
        };
        let caplen = match 64u32.checked_add(data_len) {
            None => {
                return Err(WriteError::RecordTooLong);
            },
            Some(v) => v,
        };
        let padding = (4 - caplen % 4) % 4;
        let total = match caplen.checked_add(padding + 32) {
            None => {
                return Err(WriteError::BlockTooLong);
            },
            Some(v) => v,
        };
        let ts = m.timestamp_ns / 1000;
        let ghost start = self.output@;
        let out = &mut self.output;
        write_u32(out, 6);
        write_u32(out, total);
        write_u32(out, 0);
        write_u32(out, (ts / 0x1_0000_0000) as u32);
        write_u32(out, (ts % 0x1_0000_0000) as u32);
        write_u32(out, caplen);
        write_u32(out, caplen);
        assert(out@ =~= start + packet_head(*event));
        push_usb_header(out, m, data_len);
        push_iso(out, &event.iso);
        let ghost after_prefix = out@;
        assert(after_prefix =~= start + packet_prefix(*event));
        let want = m.payload_len as usize;
        let have = if event.payload.len() < want {
            event.payload.len()
        } else {
            want
        };
        let mut k: usize = 0;
        while k < have
            invariant
                k <= have <= event.payload@.len(),
                out@ == after_prefix + event.payload@.take(k as int),
            decreases have - k,
        {
            out.push(event.payload[k]);
            k = k + 1;
            assert(out@ =~= after_prefix + event.payload@.take(k as int));
        }
        if have < want {
            assert(event.payload@.take(have as int) =~= event.payload@);
            return Err(WriteError::PayloadShorterThanSpan);
        }
        let ghost after_payload = out@;
        let mut k: u32 = 0;
        while k < padding
            invariant
                k <= padding,
                out@ == after_payload + Seq::new(k as nat, |i: int| 0u8),
            decreases padding - k,
        {
            out.push(0);
            k = k + 1;
            assert(out@ =~= after_payload + Seq::new(k as nat, |i: int| 0u8));
        }
        write_u32(out, total);
        assert(out@ =~= start + packet_block(*event));
        self.bytes = self.bytes + total as u64;
        Ok(())
    }

    /// Hands out the bytes produced since the last call.
    pub fn flush(&mut self) -> (r: Vec<u8>)
        ensures
            r@ == old(self).buffered(),
            final(self).buffered() == Seq::<u8>::empty(),
            final(self).written() == old(self).written(),
    {
        let mut out: Vec<u8> = Vec::new();
        std::mem::swap(&mut out, &mut self.output);
        out
    }

    /// How many bytes have been produced in all.
    pub fn bytes_written(&self) -> (r: u64)
        ensures
            r == self.written(),
    {
        self.bytes
    }
}

} // verus!
