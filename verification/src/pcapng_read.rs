//! Reading LINKTYPE_USB_LINUX_MMAPPED packets back out of pcapng files, one block at
//! a time. Packet lengths are checked against their enclosing block before use.
use crate::archive::Event;
use crate::bytes::{
    be_at, be_value, i32_from_bits, i32_of, le_value, lemma_be_value_bound, lemma_le_value_bound,
    lemma_pow256, u16_at, u32_at, u64_at,
};
use crate::wire::{EventMeta, IsoDescriptor};
use std::collections::HashMap;
use vstd::prelude::*;

verus! {

broadcast use vstd::std_specs::hash::group_hash_axioms;

/// Byte order of a section.
#[derive(Clone, Copy, Debug, PartialEq, Eq, Structural)]
pub enum Endian {
    Little,
    Big,
}

/// Why a pcapng block could not be read.
#[derive(Clone, Copy, Debug, PartialEq, Eq, Structural)]
pub enum PcapError {
    TruncatedBlock,
    InvalidByteOrderMagic,
    InvalidSectionLength,
    UnsupportedVersion,
    MissingSection,
    InvalidBlockLength,
    BlockLengthMismatch,
    ShortInterfaceBlock,
    OptionOutsideBlock,
    InvalidTimestampResolution,
    ResolutionNotRepresentable,
    InvalidTimestampOffset,
    InvalidEndOfOptions,
    ShortPacketBlock,
    UnknownInterface,
    UnsupportedLinktype,
    TimestampOutOfRange,
    PacketExceedsBlock,
    CapturedExceedsOriginal,
    InvalidPseudoheader,
    DataLengthMismatch,
    IsoDescriptorOverflow,
    InvalidIsoSpan,
    PayloadWithoutFlag,
    TooManySubmissions,
    TruncatedIsoList,
    IsoOutsideBuffer,
    TruncatedIsoPayload,
    LegacyPacketBlock,
}

/// Most submissions remembered while waiting for their completion.
pub const MAX_UNMATCHED_SUBMISSIONS: usize = 65536;

/// The value of `n` bytes at `at` in the given byte order.
pub open spec fn rd(o: Endian, b: Seq<u8>, at: int, n: nat) -> nat {
    match o {
        Endian::Little => le_value(b, at, n),
        Endian::Big => be_value(b, at, n),
    }
}

/// What an interface description says about its packets.
#[derive(Clone, Copy, Debug, PartialEq, Eq, Structural)]
pub struct Interface {
    pub linktype: u16,
    /// Timestamp units per second.
    pub units: u64,
    /// Seconds added to every timestamp.
    pub offset: i64,
    /// Number of the interface in the whole file, counted across sections.
    pub source: u64,
}

/// The state of a reader between blocks.
pub struct ReaderView {
    pub endian: Endian,
    pub section: bool,
    pub interfaces: Seq<Interface>,
    /// Requested lengths of submissions not yet completed, by URB ID.
    pub requested: Map<u64, u32>,
    pub incomplete: u64,
    pub sources: u64,
}

/// A packet read back: metadata, ISO descriptors, payload, whether the requested
/// length is known, and the source it came from.
pub type Packet = (EventMeta, Seq<IsoDescriptor>, Seq<u8>, bool, u64);

pub open spec fn is_section_header(b: Seq<u8>) -> bool {
    b.len() >= 4 && b[0] == 10 && b[1] == 13 && b[2] == 13 && b[3] == 10
}

/// The byte order a section header's magic announces.
pub open spec fn section_order(b: Seq<u8>) -> Option<Endian> {
    if b[8] == 77 && b[9] == 60 && b[10] == 43 && b[11] == 26 {
        Some(Endian::Little)
    } else if b[8] == 26 && b[9] == 43 && b[10] == 60 && b[11] == 77 {
        Some(Endian::Big)
    } else {
        None
    }
}

/// The length a block declares, once its first twelve bytes are known.
pub open spec fn declared_length(r: ReaderView, b: Seq<u8>) -> Result<nat, PcapError> {
    if is_section_header(b) {
        match section_order(b) {
            None => Err(PcapError::InvalidByteOrderMagic),
            Some(o) => {
                let size = rd(o, b, 4, 4);
                if size < 28 || size % 4 != 0 {
                    Err(PcapError::InvalidSectionLength)
                } else {
                    Ok(size)
                }
            },
        }
    } else if !r.section {
        Err(PcapError::MissingSection)
    } else {
        let size = rd(r.endian, b, 4, 4);
        if size < 12 || size % 4 != 0 {
            Err(PcapError::InvalidBlockLength)
        } else {
            Ok(size)
        }
    }
}

pub open spec fn power(base: nat, e: nat) -> nat
    decreases e,
{
    if e == 0 {
        1
    } else {
        base * power(base, (e - 1) as nat)
    }
}

/// Timestamp units per second from the `if_tsresol` option value: a power of two
/// when the top bit is set, else a power of ten; `None` when it exceeds `u64`.
pub open spec fn resolution(v: u8) -> Option<u64> {
    let p = if v >= 128 {
        power(2, (v - 128) as nat)
    } else {
        power(10, v as nat)
    };
    if p <= u64::MAX {
        Some(p as u64)
    } else {
        None
    }
}

/// The resolution option counts in powers of ten below 128 and in powers of two
/// from 128: values 0 and 128 mean whole seconds, and each step up multiplies the
/// units per second by ten (below 128) or by two (from 128), until they no longer
/// fit a `u64`.
pub proof fn law_resolution_steps(v: u8)
    ensures
        resolution(0) == Some(1u64),
        resolution(128) == Some(1u64),
        v < 127 ==> resolution((v + 1) as u8) == match resolution(v) {
            Some(u) => if u * 10 <= u64::MAX {
                Some((u * 10) as u64)
            } else {
                None::<u64>
            },
            None => None::<u64>,
        },
        128 <= v < 255 ==> resolution((v + 1) as u8) == match resolution(v) {
            Some(u) => if u * 2 <= u64::MAX {
                Some((u * 2) as u64)
            } else {
                None::<u64>
            },
            None => None::<u64>,
        },
{
    assert(power(10, 0) == 1);
    assert(power(2, 0) == 1);
    if v < 127 {
        assert(power(10, (v + 1) as nat) == 10 * power(10, v as nat));
    }
    if 128 <= v < 255 {
        assert(((v + 1) as u8 - 128) as nat == (v - 128) as nat + 1);
        assert(power(2, ((v - 128) as nat + 1) as nat) == 2 * power(2, (v - 128) as nat));
    }
}

/// Two's complement reading of a 64-bit pattern.
pub open spec fn i64_of(u: u64) -> i64 {
    if u < 0x8000_0000_0000_0000 {
        u as i64
    } else {
        (u - 0x1_0000_0000_0000_0000) as i64
    }
}

/// The options of an interface description from `pos`, with `remaining` bytes left
/// before the footer.
pub open spec fn options(o: Endian, b: Seq<u8>, pos: int, remaining: int, itf: Interface) -> Result<
    Interface,
    PcapError,
>
    decreases remaining,
{
    if remaining < 4 {
        Ok(itf)
    } else {
        let code = rd(o, b, pos, 2);
        let length = rd(o, b, pos + 2, 2);
        let padded = (length + 3) / 4 * 4;
        let rem = remaining - 4;
        if padded > rem {
            Err(PcapError::OptionOutsideBlock)
        } else {
            let value = pos + 4;
            let next = pos + 4 + padded;
            let rest = rem - padded;
            if code == 9 {
                if length != 1 {
                    Err(PcapError::InvalidTimestampResolution)
                } else {
                    match resolution(b[value]) {
                        None => Err(PcapError::ResolutionNotRepresentable),
                        Some(u) => options(o, b, next, rest, Interface { units: u, ..itf }),
                    }
                }
            } else if code == 14 {
                if length != 8 {
                    Err(PcapError::InvalidTimestampOffset)
                } else {
                    options(
                        o,
                        b,
                        next,
                        rest,
                        Interface { offset: i64_of(rd(o, b, value, 8) as u64), ..itf },
                    )
                }
            } else if code == 0 {
                if length != 0 {
                    Err(PcapError::InvalidEndOfOptions)
                } else {
                    Ok(itf)
                }
            } else {
                options(o, b, next, rest, itf)
            }
        }
    }
}

/// Whether the block's last four bytes repeat its length.
pub open spec fn footer_ok(o: Endian, b: Seq<u8>) -> bool {
    rd(o, b, b.len() - 4, 4) == b.len()
}

/// An interface description block.
pub open spec fn interface_step(r: ReaderView, b: Seq<u8>) -> (
    ReaderView,
    Result<Option<Packet>, PcapError>,
) {
    let o = r.endian;
    if b.len() < 20 {
        (r, Err(PcapError::ShortInterfaceBlock))
    } else {
        let fresh = Interface {
            linktype: rd(o, b, 8, 2) as u16,
            units: 1_000_000,
            offset: 0,
            source: r.sources,
        };
        match options(o, b, 16, b.len() - 20, fresh) {
            Err(e) => (r, Err(e)),
            Ok(itf) => {
                let r1 = ReaderView {
                    interfaces: r.interfaces.push(itf),
                    sources: if r.sources < u64::MAX {
                        (r.sources + 1) as u64
                    } else {
                        u64::MAX
                    },
                    ..r
                };
                if !footer_ok(o, b) {
                    (r1, Err(PcapError::BlockLengthMismatch))
                } else {
                    (r1, Ok(None))
                }
            },
        }
    }
}

/// The ISO descriptor stored at `at`.
pub open spec fn desc_at(o: Endian, b: Seq<u8>, at: int) -> IsoDescriptor {
    IsoDescriptor {
        status: i32_of(rd(o, b, at, 4) as u32),
        offset: rd(o, b, at + 4, 4) as u32,
        length: rd(o, b, at + 8, 4) as u32,
        padding: 0,
    }
}

/// The first ISO descriptor that lies outside the URB buffer or the captured payload.
pub open spec fn iso_check(
    ds: Seq<IsoDescriptor>,
    known: bool,
    requested: u32,
    has_data: bool,
    payload_len: u32,
) -> Option<PcapError>
    decreases ds.len(),
{
    if ds.len() == 0 {
        None
    } else {
        match iso_check(ds.drop_last(), known, requested, has_data, payload_len) {
            Some(e) => Some(e),
            None => {
                let d = ds.last();
                let end = d.offset + d.length;
                if !(end <= u32::MAX && (!known || end <= requested)) {
                    Some(PcapError::IsoOutsideBuffer)
                } else if has_data && d.length != 0 && end > payload_len {
                    Some(PcapError::TruncatedIsoPayload)
                } else {
                    None
                }
            },
        }
    }
}

/// `m` holds what the Linux USB header at byte 28 of packet block `b` says, with the
/// given timestamp, lengths, error count and setup bytes; identity is unknown.
pub open spec fn packet_meta(
    m: EventMeta,
    o: Endian,
    b: Seq<u8>,
    ts: int,
    requested: u32,
    actual: u32,
    payload_len: u32,
    errors: i32,
    setup: Seq<u8>,
) -> bool {
    &&& m.urb_id == rd(o, b, 28, 8)
    &&& m.timestamp_ns == ts
    &&& m.bus == rd(o, b, 40, 2)
    &&& m.device == b[39]
    &&& m.endpoint == b[38]
    &&& m.transfer_type == b[37]
    &&& m.event_type == b[36]
    &&& m.setup_present == (if b[42] == 0 {
        1u8
    } else {
        0u8
    })
    &&& m.has_data == (if b[43] == 0 {
        1u8
    } else {
        0u8
    })
    &&& m.status == i32_of(rd(o, b, 56, 4) as u32)
    &&& m.requested_len == requested
    &&& m.actual_len == actual
    &&& m.payload_len == payload_len
    &&& m.interval == i32_of(rd(o, b, 76, 4) as u32)
    &&& m.start_frame == i32_of(rd(o, b, 80, 4) as u32)
    &&& m.transfer_flags == rd(o, b, 84, 4)
    &&& m.iso_count == rd(o, b, 88, 4)
    &&& m.error_count == errors
    &&& m.vid == 0
    &&& m.pid == 0
    &&& m.setup@ == setup
}

pub open spec fn with_requested(r: ReaderView, q: Map<u64, u32>) -> ReaderView {
    ReaderView { requested: q, ..r }
}

pub open spec fn counted(r: ReaderView) -> ReaderView {
    ReaderView { incomplete: (r.incomplete + 1) as u64, ..r }
}

/// An enhanced packet block.
pub open spec fn packet_step(r: ReaderView, b: Seq<u8>) -> (
    ReaderView,
    Result<Option<Packet>, PcapError>,
) {
    let o = r.endian;
    let size = b.len() as int;
    if size < 32 {
        (r, Err(PcapError::ShortPacketBlock))
    } else if rd(o, b, 8, 4) >= r.interfaces.len() {
        (r, Err(PcapError::UnknownInterface))
    } else {
        let itf = r.interfaces[rd(o, b, 8, 4) as int];
        let ticks = rd(o, b, 12, 4) * 0x1_0000_0000 + rd(o, b, 16, 4);
        let ts = (ticks * 1_000_000_000) as int / (itf.units as int) + itf.offset * 1_000_000_000;
        let caplen = rd(o, b, 20, 4);
        let original = rd(o, b, 24, 4);
        if itf.linktype != 220 {
            (r, Err(PcapError::UnsupportedLinktype))
        } else if ts < 0 || ts > u64::MAX {
            (r, Err(PcapError::TimestampOutOfRange))
        } else if (caplen + 3) / 4 * 4 > size - 32 {
            (r, Err(PcapError::PacketExceedsBlock))
        } else if caplen < 64 || caplen < original {
            if !footer_ok(o, b) {
                (r, Err(PcapError::BlockLengthMismatch))
            } else {
                (counted(r), Ok(None))
            }
        } else if caplen != original {
            (r, Err(PcapError::CapturedExceedsOriginal))
        } else {
            let urb_id = rd(o, b, 28, 8) as u64;
            let event_type = b[36];
            let transfer_type = b[37];
            let has_data = b[43] == 0;
            let setup_present = b[42] == 0;
            let wire_len = rd(o, b, 60, 4) as u32;
            let data_len = rd(o, b, 64, 4);
            let iso_count = rd(o, b, 88, 4);
            if !((event_type == 0x53 || event_type == 0x43 || event_type == 0x45)
                && transfer_type <= 3 && b[39] <= 127) {
                (r, Err(PcapError::InvalidPseudoheader))
            } else if data_len != caplen - 64 {
                (r, Err(PcapError::DataLengthMismatch))
            } else if iso_count * 16 > u32::MAX {
                (r, Err(PcapError::IsoDescriptorOverflow))
            } else if !(iso_count * 16 <= data_len && (transfer_type == 0 || iso_count == 0)) {
                (r, Err(PcapError::InvalidIsoSpan))
            } else {
                let payload_len = (data_len - iso_count * 16) as u32;
                if !(has_data || payload_len == 0) {
                    (r, Err(PcapError::PayloadWithoutFlag))
                } else if event_type == 0x53 && r.requested.len() >= MAX_UNMATCHED_SUBMISSIONS {
                    (r, Err(PcapError::TooManySubmissions))
                } else {
                    let submit = event_type == 0x53;
                    let known = submit || r.requested.contains_key(urb_id);
                    let requested_len: u32 = if submit {
                        wire_len
                    } else if known {
                        r.requested[urb_id]
                    } else {
                        0
                    };
                    let actual_len: u32 = if submit {
                        0
                    } else {
                        wire_len
                    };
                    let r1 = with_requested(
                        r,
                        if submit {
                            r.requested.insert(urb_id, wire_len)
                        } else {
                            r.requested.remove(urb_id)
                        },
                    );
                    let iso = if transfer_type == 0 {
                        Seq::new(iso_count, |k: int| desc_at(o, b, 92 + 16 * k))
                    } else {
                        Seq::empty()
                    };
                    let errors = if transfer_type == 0 {
                        i32_of(rd(o, b, 68, 4) as u32)
                    } else {
                        0
                    };
                    let setup = if transfer_type != 0 && setup_present {
                        b.subrange(68, 76)
                    } else {
                        Seq::new(8, |i: int| 0u8)
                    };
                    if transfer_type == 0 && rd(o, b, 72, 4) != iso_count {
                        (r1, Err(PcapError::TruncatedIsoList))
                    } else {
                        match iso_check(iso, known, requested_len, has_data, payload_len) {
                            Some(e) => (r1, Err(e)),
                            None => if !footer_ok(o, b) {
                                (r1, Err(PcapError::BlockLengthMismatch))
                            } else if transfer_type != 0 && has_data && payload_len != wire_len {
                                (counted(r1), Ok(None))
                            } else {
                                let start = (92 + iso_count * 16) as int;
                                let meta = choose|m: EventMeta|
                                    packet_meta(
                                        m,
                                        o,
                                        b,
                                        ts,
                                        requested_len,
                                        actual_len,
                                        payload_len,
                                        errors,
                                        setup,
                                    );
                                (
                                    r1,
                                    Ok(
                                        Some(
                                            (
                                                meta,
                                                iso,
                                                b.subrange(start, start + payload_len),
                                                known,
                                                itf.source,
                                            ),
                                        ),
                                    ),
                                )
                            },
                        }
                    }
                }
            }
        }
    }
}

/// The effect of one whole block: the next state, and a packet, nothing, or why the
/// block could not be read.
pub open spec fn block_step(r: ReaderView, b: Seq<u8>) -> (
    ReaderView,
    Result<Option<Packet>, PcapError>,
) {
    if b.len() < 12 {
        (r, Err(PcapError::TruncatedBlock))
    } else if is_section_header(b) {
        match section_order(b) {
            None => (r, Err(PcapError::InvalidByteOrderMagic)),
            Some(o) => {
                let r1 = ReaderView { endian: o, ..r };
                let size = rd(o, b, 4, 4);
                if size < 28 || size % 4 != 0 {
                    (r1, Err(PcapError::InvalidSectionLength))
                } else if b.len() != size {
                    (r1, Err(PcapError::TruncatedBlock))
                } else if rd(o, b, 12, 2) != 1 {
                    (r1, Err(PcapError::UnsupportedVersion))
                } else if !footer_ok(o, b) {
                    (r1, Err(PcapError::BlockLengthMismatch))
                } else {
                    (
                        ReaderView {
                            section: true,
                            interfaces: Seq::empty(),
                            requested: Map::empty(),
                            ..r1
                        },
                        Ok(None),
                    )
                }
            },
        }
    } else if !r.section {
        (r, Err(PcapError::MissingSection))
    } else {
        let o = r.endian;
        let kind = rd(o, b, 0, 4);
        let size = rd(o, b, 4, 4);
        if size < 12 || size % 4 != 0 {
            (r, Err(PcapError::InvalidBlockLength))
        } else if kind == 2 || kind == 3 {
            (r, Err(PcapError::LegacyPacketBlock))
        } else if kind == 1 && size < 20 {
            (r, Err(PcapError::ShortInterfaceBlock))
        } else if kind == 6 && size < 32 {
            (r, Err(PcapError::ShortPacketBlock))
        } else if b.len() != size {
            (r, Err(PcapError::TruncatedBlock))
        } else if kind == 1 {
            interface_step(r, b)
        } else if kind == 6 {
            packet_step(r, b)
        } else if !footer_ok(o, b) {
            (r, Err(PcapError::BlockLengthMismatch))
        } else {
            (r, Ok(None))
        }
    }
}

impl Endian {
    /// A `u16` at `at`.
    pub fn u16(self, b: &[u8], at: usize) -> (r: u16)
        requires
            at + 2 <= b@.len(),
        ensures
            r == rd(self, b@, at as int, 2),
    {
        match self {
            Endian::Little => u16_at(b, at),
            Endian::Big => {
                proof {
                    lemma_be_value_bound(b@, at as int, 2);
                    lemma_pow256();
                }
                be_at(b, at, 2) as u16
            },
        }
    }

    /// A `u32` at `at`.
    pub fn u32(self, b: &[u8], at: usize) -> (r: u32)
        requires
            at + 4 <= b@.len(),
        ensures
            r == rd(self, b@, at as int, 4),
    {
        match self {
            Endian::Little => u32_at(b, at),
            Endian::Big => {
                proof {
                    lemma_be_value_bound(b@, at as int, 4);
                    lemma_pow256();
                }
                be_at(b, at, 4) as u32
            },
        }
    }

    /// A `u64` at `at`.
    pub fn u64(self, b: &[u8], at: usize) -> (r: u64)
        requires
            at + 8 <= b@.len(),
        ensures
            r == rd(self, b@, at as int, 8),
    {
        match self {
            Endian::Little => u64_at(b, at),
            Endian::Big => be_at(b, at, 8),
        }
    }
}

fn i64_from_bits(u: u64) -> (r: i64)
    ensures
        r == i64_of(u),
{
    if u < 0x8000_0000_0000_0000 {
        u as i64
    } else {
        let w: i128 = u as i128 - 0x1_0000_0000_0000_0000;
        w as i64
    }
}

proof fn lemma_power_grows(base: nat, k: nat, e: nat)
    requires
        base >= 1,
        k <= e,
    ensures
        power(base, k) <= power(base, e),
        power(base, e) >= 1,
    decreases e,
{
    if e > 0 {
        if k < e {
            lemma_power_grows(base, k, (e - 1) as nat);
        } else {
            lemma_power_grows(base, 0, (e - 1) as nat);
        }
        let p = power(base, (e - 1) as nat);
        assert(p <= base * p) by (nonlinear_arith)
            requires
                base >= 1,
                p >= 1,
        ;
    }
}

/// Timestamp units per second (see [`resolution`]).
fn resolution_of(v: u8) -> (r: Option<u64>)
    ensures
        r == resolution(v),
        r matches Some(u) ==> u >= 1,
{
    let (base, e): (u64, u8) = if v >= 128 {
        (2, v - 128)
    } else {
        (10, v)
    };
    let mut acc: u64 = 1;
    let mut k: u8 = 0;
    while k < e
        invariant
            k <= e,
            base >= 2,
            base == (if v >= 128 {
                2u64
            } else {
                10u64
            }),
            e == (if v >= 128 {
                (v - 128) as u8
            } else {
                v
            }),
            acc == power(base as nat, k as nat),
        decreases e - k,
    {
        match base.checked_mul(acc) {
            None => {
                proof {
                    assert(power(base as nat, (k + 1) as nat) == base * power(
                        base as nat,
                        k as nat,
                    ));
                    lemma_power_grows(base as nat, (k + 1) as nat, e as nat);
                    if v >= 128 {
                        assert(power(2, (v - 128) as nat) > u64::MAX);
                    } else {
                        assert(power(10, v as nat) > u64::MAX);
                    }
                }
                return None;
            },
            Some(next) => {
                acc = next;
            },
        }
        k = k + 1;
    }
    proof {
        lemma_power_grows(base as nat, 0, e as nat);
    }
    Some(acc)
}

/// Whether the block ends with its own length (see [`footer_ok`]).
fn footer_matches(o: Endian, b: &[u8]) -> (r: bool)
    requires
        b@.len() >= 4,
        b@.len() <= u32::MAX,
    ensures
        r == footer_ok(o, b@),
{
    o.u32(b, b.len() - 4) as usize == b.len()
}

/// The options of an interface description (see [`options`]).
fn read_options(o: Endian, b: &[u8], start: usize, left: usize, fresh: Interface) -> (r: Result<
    Interface,
    PcapError,
>)
    requires
        start + left + 4 <= b@.len(),
        fresh.units >= 1,
    ensures
        r == options(o, b@, start as int, left as int, fresh),
        r matches Ok(i) ==> i.units >= 1 && i.source == fresh.source,
{
    let _n = b.len();
    let mut pos = start;
    let mut remaining = left;
    let mut itf = fresh;
    let ghost goal = options(o, b@, pos as int, remaining as int, itf);
    while remaining >= 4
        invariant
            pos + remaining + 4 <= b@.len(),
            b@.len() <= usize::MAX,
            goal == options(o, b@, start as int, left as int, fresh),
            itf.units >= 1,
            itf.source == fresh.source,
            goal == options(o, b@, pos as int, remaining as int, itf),
        decreases remaining,
    {
        assert(goal == options(o, b@, pos as int, remaining as int, itf));
        let code = o.u16(b, pos);
        let length = o.u16(b, pos + 2) as usize;
        let padded = (length + 3) / 4 * 4;
        let rem = remaining - 4;
        assert(code == rd(o, b@, pos as int, 2));
        assert(length == rd(o, b@, pos + 2, 2));
        if padded > rem {
            assert(options(o, b@, pos as int, remaining as int, itf) == Err::<Interface, PcapError>(
                PcapError::OptionOutsideBlock,
            ));
            return Err(PcapError::OptionOutsideBlock);
        }
        let value = pos + 4;
        if code == 9 {
            if length != 1 {
                return Err(PcapError::InvalidTimestampResolution);
            }
            match resolution_of(b[value]) {
                None => {
                    return Err(PcapError::ResolutionNotRepresentable);
                },
                Some(u) => {
                    itf = Interface { units: u, ..itf };
                },
            }
        } else if code == 14 {
            if length != 8 {
                return Err(PcapError::InvalidTimestampOffset);
            }
            itf = Interface { offset: i64_from_bits(o.u64(b, value)), ..itf };
        } else if code == 0 {
            if length != 0 {
                return Err(PcapError::InvalidEndOfOptions);
            }
            return Ok(itf);
        }
        pos = pos + 4 + padded;
        remaining = rem - padded;
    }
    Ok(itf)
}

proof fn lemma_packet_meta_unique(
    m1: EventMeta,
    m2: EventMeta,
    o: Endian,
    b: Seq<u8>,
    ts: int,
    requested: u32,
    actual: u32,
    payload_len: u32,
    errors: i32,
    setup: Seq<u8>,
)
    requires
        packet_meta(m1, o, b, ts, requested, actual, payload_len, errors, setup),
        packet_meta(m2, o, b, ts, requested, actual, payload_len, errors, setup),
    ensures
        m1 == m2,
{
    assert(m1.setup@ =~= m2.setup@);
    assert(m1.setup == m2.setup);
}

/// Once a prefix of the descriptors has a fault, that fault is the answer.
proof fn lemma_iso_check_prefix(
    ds: Seq<IsoDescriptor>,
    k: int,
    known: bool,
    requested: u32,
    has_data: bool,
    payload_len: u32,
)
    requires
        0 <= k <= ds.len(),
        iso_check(ds.take(k), known, requested, has_data, payload_len) is Some,
    ensures
        iso_check(ds, known, requested, has_data, payload_len) == iso_check(
            ds.take(k),
            known,
            requested,
            has_data,
            payload_len,
        ),
    decreases ds.len() - k,
{
    if k < ds.len() {
        assert(ds.take(k + 1).drop_last() =~= ds.take(k));
        lemma_iso_check_prefix(ds, k + 1, known, requested, has_data, payload_len);
    } else {
        assert(ds.take(k) =~= ds);
    }
}

/// The descriptors of a packet (see [`iso_check`]), or the first fault among them.
fn read_iso(
    o: Endian,
    b: &[u8],
    count: u32,
    known: bool,
    requested: u32,
    has_data: bool,
    payload_len: u32,
) -> (r: Result<Vec<IsoDescriptor>, PcapError>)
    requires
        92 + 16 * count <= b@.len(),
    ensures
        ({
            let ds = Seq::new(count as nat, |k: int| desc_at(o, b@, 92 + 16 * k));
            match iso_check(ds, known, requested, has_data, payload_len) {
                Some(e) => r == Err::<Vec<IsoDescriptor>, PcapError>(e),
                None => r matches Ok(v) && v@ == ds,
            }
        }),
{
    let ghost ds = Seq::new(count as nat, |k: int| desc_at(o, b@, 92 + 16 * k));
    let _n = b.len();
    let mut v: Vec<IsoDescriptor> = Vec::new();
    let mut k: u32 = 0;
    assert(ds.take(0) =~= v@);
    while k < count
        invariant
            k <= count,
            92 + 16 * count <= b@.len(),
            b@.len() <= usize::MAX,
            ds == Seq::new(count as nat, |k: int| desc_at(o, b@, 92 + 16 * k)),
            v@ == ds.take(k as int),
            iso_check(v@, known, requested, has_data, payload_len) is None,
        decreases count - k,
    {
        let at = 92 + 16 * (k as usize);
        let d = IsoDescriptor {
            status: i32_from_bits(o.u32(b, at)),
            offset: o.u32(b, at + 4),
            length: o.u32(b, at + 8),
            padding: 0,
        };
        assert(d == ds[k as int]);
        assert(ds.take(k + 1).drop_last() =~= ds.take(k as int));
        assert(ds.take(k + 1).last() == d);
        let end = d.offset as u64 + d.length as u64;
        if !(end <= 0xffff_ffff && (!known || end <= requested as u64)) {
            proof {
                lemma_iso_check_prefix(ds, k + 1, known, requested, has_data, payload_len);
            }
            return Err(PcapError::IsoOutsideBuffer);
        }
        if has_data && d.length != 0 && end > payload_len as u64 {
            proof {
                lemma_iso_check_prefix(ds, k + 1, known, requested, has_data, payload_len);
            }
            return Err(PcapError::TruncatedIsoPayload);
        }
        v.push(d);
        k = k + 1;
        assert(v@ =~= ds.take(k as int));
    }
    assert(ds.take(count as int) =~= ds);
    Ok(v)
}

/// A packet timestamp in nanoseconds, when it fits a `u64`.
fn packet_time(itf: Interface, hi: u32, lo: u32) -> (r: Option<u64>)
    requires
        itf.units >= 1,
    ensures
        ({
            let ticks = hi * 0x1_0000_0000 + lo;
            let ts = (ticks * 1_000_000_000) as int / (itf.units as int) + itf.offset
                * 1_000_000_000;
            r == if 0 <= ts <= u64::MAX {
                Some(ts as u64)
            } else {
                None::<u64>
            }
        }),
{
    let ticks: u128 = (hi as u128) * 0x1_0000_0000 + (lo as u128);
    assert(ticks * 1_000_000_000 <= 0x1_0000_0000_0000_0000 * 1_000_000_000) by (nonlinear_arith)
        requires
            ticks <= 0x1_0000_0000_0000_0000,
    ;
    let product: u128 = ticks * 1_000_000_000;
    let scaled: u128 = product / (itf.units as u128);
    assert(scaled <= product) by (nonlinear_arith)
        requires
            scaled == product / (itf.units as u128),
            itf.units >= 1,
    ;
    let shift: i128 = (itf.offset as i128) * 1_000_000_000;
    let ts: i128 = scaled as i128 + shift;
    if ts < 0 || ts > 0xffff_ffff_ffff_ffff {
        None
    } else {
        Some(ts as u64)
    }
}

/// Whether what `next_event` returned is what the block's effect says.
pub open spec fn packet_matches(
    r: Result<Option<Event>, PcapError>,
    s: Result<Option<Packet>, PcapError>,
) -> bool {
    match (r, s) {
        (Ok(None), Ok(None)) => true,
        (Ok(Some(e)), Ok(Some(p))) => {
            &&& e.meta == p.0
            &&& e.iso@ == p.1
            &&& e.payload@ == p.2
            &&& e.requested_known == p.3
            &&& e.source_id == p.4
            &&& !e.identity_known
        },
        (Err(a), Err(b)) => a == b,
        _ => false,
    }
}

/// A reader before its first block.
pub open spec fn initial_reader() -> ReaderView {
    ReaderView {
        endian: Endian::Little,
        section: false,
        interfaces: Seq::empty(),
        requested: Map::empty(),
        incomplete: 0,
        sources: 0,
    }
}

/// Reads pcapng blocks one at a time; the caller reads each block whole, using
/// [`Reader::block_length`] on its first twelve bytes.
pub struct Reader {
    endian: Endian,
    section: bool,
    interfaces: Vec<Interface>,
    requested: HashMap<u64, u32>,
    incomplete: u64,
    sources: u64,
}

impl Reader {
    pub closed spec fn view(&self) -> ReaderView {
        ReaderView {
            endian: self.endian,
            section: self.section,
            interfaces: self.interfaces@,
            requested: self.requested@,
            incomplete: self.incomplete,
            sources: self.sources,
        }
    }

    /// Every interface counts at least one timestamp unit per second.
    pub closed spec fn wf(&self) -> bool {
        forall|i: int| 0 <= i < self.interfaces@.len() ==> #[trigger] self.interfaces@[i].units >= 1
    }

    pub fn new() -> (r: Self)
        ensures
            r.wf(),
            r.view() == initial_reader(),
    {
        let r = Reader {
            endian: Endian::Little,
            section: false,
            interfaces: Vec::new(),
            requested: HashMap::new(),
            incomplete: 0,
            sources: 0,
        };
        assert(r.view().interfaces =~= Seq::<Interface>::empty());
        r
    }

    /// Packets skipped because they were cut short or their payload disagrees with
    /// the URB length.
    pub fn incomplete(&self) -> (r: u64)
        ensures
            r == self.view().incomplete,
    {
        self.incomplete
    }

    /// The length of the block whose first twelve bytes are `head` (see
    /// [`declared_length`]).
    pub fn block_length(&self, head: &[u8]) -> (r: Result<u32, PcapError>)
        requires
            head@.len() >= 12,
        ensures
            match declared_length(self.view(), head@) {
                Ok(n) => r == Ok::<u32, PcapError>(n as u32),
                Err(e) => r == Err::<u32, PcapError>(e),
            },
    {
        if head[0] == 10 && head[1] == 13 && head[2] == 13 && head[3] == 10 {
            let o = if head[8] == 77 && head[9] == 60 && head[10] == 43 && head[11] == 26 {
                Endian::Little
            } else if head[8] == 26 && head[9] == 43 && head[10] == 60 && head[11] == 77 {
                Endian::Big
            } else {
                return Err(PcapError::InvalidByteOrderMagic);
            };
            let size = o.u32(head, 4);
            if size < 28 || size % 4 != 0 {
                return Err(PcapError::InvalidSectionLength);
            }
            return Ok(size);
        }
        if !self.section {
            return Err(PcapError::MissingSection);
        }
        let size = self.endian.u32(head, 4);
        if size < 12 || size % 4 != 0 {
            return Err(PcapError::InvalidBlockLength);
        }
        Ok(size)
    }

    /// Takes one whole block (see [`block_step`]): a USB packet comes out; other
    /// blocks change how later ones are read.
    pub fn next_event(&mut self, block: &[u8]) -> (r: Result<Option<Event>, PcapError>)
        requires
            old(self).wf(),
            old(self).view().incomplete < u64::MAX,
        ensures
            final(self).wf(),
            final(self).view() == block_step(old(self).view(), block@).0,
            packet_matches(r, block_step(old(self).view(), block@).1),
    {
        let b = block;
        if b.len() < 12 {
            return Err(PcapError::TruncatedBlock);
        }
        if b[0] == 10 && b[1] == 13 && b[2] == 13 && b[3] == 10 {
            let o = if b[8] == 77 && b[9] == 60 && b[10] == 43 && b[11] == 26 {
                Endian::Little
            } else if b[8] == 26 && b[9] == 43 && b[10] == 60 && b[11] == 77 {
                Endian::Big
            } else {
                return Err(PcapError::InvalidByteOrderMagic);
            };
            self.endian = o;
            let size = o.u32(b, 4);
            if size < 28 || size % 4 != 0 {
                return Err(PcapError::InvalidSectionLength);
            }
            if b.len() != size as usize {
                return Err(PcapError::TruncatedBlock);
            }
            if o.u16(b, 12) != 1 {
                return Err(PcapError::UnsupportedVersion);
            }
            if !footer_matches(o, b) {
                return Err(PcapError::BlockLengthMismatch);
            }
            self.section = true;
            self.interfaces.clear();
            self.requested.clear();
            assert(self.view().interfaces =~= Seq::<Interface>::empty());
            return Ok(None);
        }
        if !self.section {
            return Err(PcapError::MissingSection);
        }
        let o = self.endian;
        let kind = o.u32(b, 0);
        let size = o.u32(b, 4);
        if size < 12 || size % 4 != 0 {
            return Err(PcapError::InvalidBlockLength);
        }
        if kind == 2 || kind == 3 {
            return Err(PcapError::LegacyPacketBlock);
        }
        if kind == 1 && size < 20 {
            return Err(PcapError::ShortInterfaceBlock);
        }
        if kind == 6 && size < 32 {
            return Err(PcapError::ShortPacketBlock);
        }
        if b.len() != size as usize {
            return Err(PcapError::TruncatedBlock);
        }
        if kind == 1 {
            if b.len() < 20 {
                return Err(PcapError::ShortInterfaceBlock);
            }
            let fresh = Interface {
                linktype: o.u16(b, 8),
                units: 1_000_000,
                offset: 0,
                source: self.sources,
            };
            let itf = match read_options(o, b, 16, b.len() - 20, fresh) {
                Err(e) => {
                    return Err(e);
                },
                Ok(itf) => itf,
            };
            self.interfaces.push(itf);
            self.sources = self.sources.saturating_add(1);
            if !footer_matches(o, b) {
                return Err(PcapError::BlockLengthMismatch);
            }
            return Ok(None);
        }
        if kind == 6 {
            return self.packet(b);
        }
        if !footer_matches(o, b) {
            return Err(PcapError::BlockLengthMismatch);
        }
        Ok(None)
    }

    /// An enhanced packet block (see [`packet_step`]).
    fn packet(&mut self, b: &[u8]) -> (r: Result<Option<Event>, PcapError>)
        requires
            old(self).wf(),
            old(self).view().incomplete < u64::MAX,
            12 <= b@.len() <= u32::MAX,
        ensures
            final(self).wf(),
            final(self).view() == packet_step(old(self).view(), b@).0,
            packet_matches(r, packet_step(old(self).view(), b@).1),
    {
        let ghost r0 = self.view();
        let o = self.endian;
        let size = b.len();
        if size < 32 {
            return Err(PcapError::ShortPacketBlock);
        }
        let index = o.u32(b, 8) as usize;
        if index >= self.interfaces.len() {
            return Err(PcapError::UnknownInterface);
        }
        let itf = self.interfaces[index];
        if itf.linktype != 220 {
            return Err(PcapError::UnsupportedLinktype);
        }
        let ts = match packet_time(itf, o.u32(b, 12), o.u32(b, 16)) {
            None => {
                return Err(PcapError::TimestampOutOfRange);
            },
            Some(ts) => ts,
        };
        let caplen = o.u32(b, 20);
        let original = o.u32(b, 24);
        if (caplen as u64 + 3) / 4 * 4 > (size - 32) as u64 {
            return Err(PcapError::PacketExceedsBlock);
        }
        if caplen < 64 || caplen < original {
            if !footer_matches(o, b) {
                return Err(PcapError::BlockLengthMismatch);
            }
            self.incomplete = self.incomplete + 1;
            return Ok(None);
        }
        if caplen != original {
            return Err(PcapError::CapturedExceedsOriginal);
        }
        let event_type = b[36];
        let transfer_type = b[37];
        if !((event_type == 0x53 || event_type == 0x43 || event_type == 0x45) && transfer_type <= 3
            && b[39] <= 127) {
            return Err(PcapError::InvalidPseudoheader);
        }
        let wire_len = o.u32(b, 60);
        let data_len = o.u32(b, 64);
        let iso_count = o.u32(b, 88);
        if data_len != caplen - 64 {
            return Err(PcapError::DataLengthMismatch);
        }
        let desc = match iso_count.checked_mul(16) {
            None => {
                return Err(PcapError::IsoDescriptorOverflow);
            },
            Some(d) => d,
        };
        if !(desc <= data_len && (transfer_type == 0 || iso_count == 0)) {
            return Err(PcapError::InvalidIsoSpan);
        }
        let payload_len = data_len - desc;
        let has_data = b[43] == 0;
        let setup_present = b[42] == 0;
        if !(has_data || payload_len == 0) {
            return Err(PcapError::PayloadWithoutFlag);
        }
        let urb_id = o.u64(b, 28);
        let submit = event_type == 0x53;
        let (requested_len, actual_len, known): (u32, u32, bool) = if submit {
            if self.requested.len() >= MAX_UNMATCHED_SUBMISSIONS {
                return Err(PcapError::TooManySubmissions);
            }
            self.requested.insert(urb_id, wire_len);
            (wire_len, 0, true)
        } else {
            match self.requested.remove(&urb_id) {
                Some(v) => (v, wire_len, true),
                None => (0, wire_len, false),
            }
        };
        let mut setup = [0u8; 8];
        assert(setup@ =~= Seq::new(8, |i: int| 0u8));
        let mut errors: i32 = 0;
        let iso = if transfer_type == 0 {
            errors = i32_from_bits(o.u32(b, 68));
            if o.u32(b, 72) != iso_count {
                return Err(PcapError::TruncatedIsoList);
            }
            match read_iso(o, b, iso_count, known, requested_len, has_data, payload_len) {
                Err(e) => {
                    return Err(e);
                },
                Ok(v) => v,
            }
        } else {
            if setup_present {
                let mut k: usize = 0;
                while k < 8
                    invariant
                        k <= 8,
                        76 <= b@.len(),
                        forall|j: int| 0 <= j < k ==> setup@[j] == b@[68 + j],
                    decreases 8 - k,
                {
                    setup[k] = b[68 + k];
                    k = k + 1;
                }
                assert(setup@ =~= b@.subrange(68, 76));
            } else {
                assert(setup@ =~= Seq::new(8, |i: int| 0u8));
            }
            let v: Vec<IsoDescriptor> = Vec::new();
            assert(v@ =~= Seq::<IsoDescriptor>::empty());
            v
        };
        let start = 92 + desc as usize;
        let mut payload: Vec<u8> = Vec::new();
        let mut k: usize = 0;
        while k < payload_len as usize
            invariant
                k <= payload_len,
                start + payload_len <= b@.len(),
                b@.len() <= usize::MAX,
                payload@ == b@.subrange(start as int, start + k),
            decreases payload_len - k,
        {
            payload.push(b[start + k]);
            k = k + 1;
            assert(payload@ =~= b@.subrange(start as int, start + k));
        }
        if !footer_matches(o, b) {
            return Err(PcapError::BlockLengthMismatch);
        }
        if transfer_type != 0 && has_data && payload_len != wire_len {
            self.incomplete = self.incomplete + 1;
            return Ok(None);
        }
        let meta = EventMeta {
            urb_id,
            timestamp_ns: ts,
            bus: o.u16(b, 40),
            device: b[39],
            endpoint: b[38],
            transfer_type,
            event_type,
            setup_present: if setup_present {
                1
            } else {
                0
            },
            has_data: if has_data {
                1
            } else {
                0
            },
            status: i32_from_bits(o.u32(b, 56)),
            requested_len,
            actual_len,
            payload_len,
            interval: i32_from_bits(o.u32(b, 76)),
            start_frame: i32_from_bits(o.u32(b, 80)),
            transfer_flags: o.u32(b, 84),
            iso_count,
            error_count: errors,
            vid: 0,
            pid: 0,
            setup,
        };
        proof {
            let setup_spec = if transfer_type != 0 && setup_present {
                b@.subrange(68, 76)
            } else {
                Seq::new(8, |i: int| 0u8)
            };
            assert(packet_meta(
                meta,
                o,
                b@,
                ts as int,
                requested_len,
                actual_len,
                payload_len,
                errors,
                setup_spec,
            ));
            let c = choose|m: EventMeta|
                packet_meta(
                    m,
                    o,
                    b@,
                    ts as int,
                    requested_len,
                    actual_len,
                    payload_len,
                    errors,
                    setup_spec,
                );
            lemma_packet_meta_unique(
                meta,
                c,
                o,
                b@,
                ts as int,
                requested_len,
                actual_len,
                payload_len,
                errors,
                setup_spec,
            );
        }
        Ok(
            Some(
                Event {
                    source_id: itf.source,
                    meta,
                    iso,
                    payload,
                    identity_known: false,
                    requested_known: known,
                },
            ),
        )
    }
}

} // verus!
