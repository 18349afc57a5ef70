//! Records shared with the BPF program: the ring/archive transport ABI.
//! All multibyte scalars travel little endian, whatever the host byte order.
use crate::bytes::{
    be_at, be_bytes, be_value, bits_of_i32, i32_bits, i32_from_bits, lemma_be_bytes_step,
    lemma_be_bytes_len, lemma_be_value_bound, lemma_be_value_prefix, lemma_le_bytes_len,
    lemma_le_roundtrip, lemma_pow256, le_bytes, le_value, pow256, push_be, push_le,
};
use vstd::prelude::*;

verus! {

pub const ABI_VERSION: u16 = 1;
pub const RAW_MAGIC: [u8; 8] = [0x55, 0x53, 0x42, 0x53, 0x43, 0x50, 0, 1];
pub const CHUNK_SIZE: usize = 16384;
pub const RECORD_BEGIN: u16 = 1;
pub const RECORD_DATA: u16 = 2;
pub const RECORD_ISO: u16 = 3;
pub const RECORD_END: u16 = 4;
/// Userspace appends final independent kernel counters to a raw archive.
pub const RECORD_STATS: u16 = 5;
pub const COMPLETE: u32 = 0;
pub const LOSS_RING: u32 = 1;
pub const LOSS_READ: u32 = 2;
pub const LOSS_UNSUPPORTED_BUFFER: u32 = 3;
pub const MAX_KERNEL_PREDICATES: u32 = 64;
pub const BPF_BUILD_MAGIC: [u8; 8] = [0x55, 0x53, 0x42, 0x53, 0x42, 0x50, 0x46, 0x31];
pub const SG_ARM64_LEGACY: u32 = 1;
pub const SG_ARM64_COMPACT: u32 = 2;

#[derive(Debug)]
pub struct BpfBuildInfo {
    pub magic: [u8; 8],
    pub architecture: u32,
    pub config_size: u32,
}

#[derive(Clone, Copy, Debug, Default)]
pub struct SgMemory {
    /// x86_64 kernel variables, read by BPF after relocation of struct page.
    pub vmemmap_symbol: u64,
    pub page_offset_symbol: u64,
    /// Zero disables SG. arm64 additionally needs CONFIG_ARM64_VA_BITS.
    pub page_shift: u32,
    pub va_bits: u32,
    /// arm64 vmemmap placement changed in upstream Linux 6.9.
    pub layout: u32,
    pub padding: u32,
}

#[derive(Clone, Copy, Debug, Default)]
pub struct KernelPredicate {
    pub value: u64,
    pub mask: u64,
    pub field: u32,
    pub comparison: u32,
}

#[derive(Clone, Copy, Debug, Default)]
pub struct CaptureConfig {
    pub epoch_offset_ns: u64,
    pub giveback_start: u64,
    pub giveback_end: u64,
    pub memory: SgMemory,
    /// Zero selects all buses; u32::MAX selects all device addresses.
    pub bus: u32,
    pub device: u32,
    pub enabled: u32,
    pub filter_count: u32,
}

#[derive(Clone, Copy, Debug, Default)]
pub struct CaptureStats {
    pub submitted: u64,
    pub completed: u64,
    pub submit_errors: u64,
    pub ring_losses: u64,
    pub read_errors: u64,
    pub unsupported_buffers: u64,
    pub state_errors: u64,
    pub sg_events: u64,
}

/// Ring/archive record header. `size` excludes unused reservation bytes.
#[derive(Clone, Copy, Debug, Default)]
pub struct RecordHeader {
    pub version: u16,
    pub kind: u16,
    pub size: u32,
    pub event_id: u64,
    pub offset: u64,
}

#[derive(Clone, Copy, Debug, Default)]
pub struct EventMeta {
    pub urb_id: u64,
    pub timestamp_ns: u64,
    pub bus: u16,
    pub device: u8,
    pub endpoint: u8,
    /// usbmon encoding: ISO=0, interrupt=1, control=2, bulk=3.
    pub transfer_type: u8,
    pub event_type: u8,
    pub setup_present: u8,
    pub has_data: u8,
    pub status: i32,
    pub requested_len: u32,
    pub actual_len: u32,
    /// Address span including padding between ISO packets.
    pub payload_len: u32,
    pub interval: i32,
    pub start_frame: i32,
    pub transfer_flags: u32,
    pub iso_count: u32,
    pub error_count: i32,
    pub vid: u16,
    pub pid: u16,
    pub setup: [u8; 8],
}

#[derive(Clone, Copy, Debug, Default, PartialEq, Eq, Structural)]
pub struct IsoDescriptor {
    pub status: i32,
    pub offset: u32,
    pub length: u32,
    pub padding: u32,
}

#[derive(Clone, Copy, Debug, Default)]
pub struct EventEnd {
    pub copied_bytes: u64,
    pub descriptors: u32,
    pub reason: u32,
}

/// The value a kernel predicate reads from the metadata, or `None` for a field
/// code it does not know (such a predicate never rejects).
pub open spec fn kernel_field(field: u32, meta: EventMeta) -> Option<u64> {
    if field == 1 {
        Some(meta.bus as u64)
    } else if field == 2 {
        Some(meta.device as u64)
    } else if field == 3 {
        Some(meta.vid as u64)
    } else if field == 4 {
        Some(meta.pid as u64)
    } else if field == 5 {
        Some(meta.endpoint as u64)
    } else if field == 6 {
        Some((meta.endpoint % 16) as u64)
    } else if field == 7 {
        Some((meta.endpoint / 128) as u64)
    } else if field == 8 {
        Some(meta.transfer_type as u64)
    } else if field == 9 {
        Some(meta.requested_len as u64)
    } else if field == 10 {
        Some(meta.iso_count as u64)
    } else {
        None
    }
}

/// Comparison `code` applied to `a` and `b`; unknown codes accept.
pub open spec fn kernel_compare(code: u32, a: u64, b: u64) -> bool {
    if code == 0 {
        a == b
    } else if code == 1 {
        a != b
    } else if code == 2 {
        a < b
    } else if code == 3 {
        a <= b
    } else if code == 4 {
        a > b
    } else if code == 5 {
        a >= b
    } else {
        true
    }
}

impl KernelPredicate {
    pub open spec fn accepts(self, meta: EventMeta) -> bool {
        match kernel_field(self.field, meta) {
            None => true,
            Some(v) => kernel_compare(self.comparison, v & self.mask, self.value),
        }
    }

    /// Whether the metadata passes this predicate.
    pub fn matches(&self, meta: &EventMeta) -> (r: bool)
        ensures
            r == self.accepts(*meta),
    {
        let value: u64 = if self.field == 1 {
            meta.bus as u64
        } else if self.field == 2 {
            meta.device as u64
        } else if self.field == 3 {
            meta.vid as u64
        } else if self.field == 4 {
            meta.pid as u64
        } else if self.field == 5 {
            meta.endpoint as u64
        } else if self.field == 6 {
            (meta.endpoint % 16) as u64
        } else if self.field == 7 {
            (meta.endpoint / 128) as u64
        } else if self.field == 8 {
            meta.transfer_type as u64
        } else if self.field == 9 {
            meta.requested_len as u64
        } else if self.field == 10 {
            meta.iso_count as u64
        } else {
            return true;
        };
        let value = value & self.mask;
        if self.comparison == 0 {
            value == self.value
        } else if self.comparison == 1 {
            value != self.value
        } else if self.comparison == 2 {
            value < self.value
        } else if self.comparison == 3 {
            value <= self.value
        } else if self.comparison == 4 {
            value > self.value
        } else if self.comparison == 5 {
            value >= self.value
        } else {
            true
        }
    }
}

/// Byte order of a memory image.
#[derive(Clone, Copy, Debug, PartialEq, Eq, Structural)]
pub enum ByteOrder {
    Little,
    Big,
}

/// `n`-byte encoding of `v` in byte order `o`.
pub open spec fn enc(v: nat, n: nat, o: ByteOrder) -> Seq<u8> {
    match o {
        ByteOrder::Little => le_bytes(v, n),
        ByteOrder::Big => be_bytes(v, n),
    }
}

/// `v` with the order of its `n` bytes reversed.
pub open spec fn swap(v: nat, n: nat) -> nat {
    be_value(le_bytes(v, n), 0, n)
}

/// The value whose encoding in `o` is the little-endian encoding of `v`.
pub open spec fn to_le_in(v: nat, n: nat, o: ByteOrder) -> nat {
    match o {
        ByteOrder::Little => v,
        ByteOrder::Big => swap(v, n),
    }
}

/// Reads the bytes `[1, 0]` with `u16::from_ne_bytes`. The contract claims only
/// that the value is 1 (little-endian machine) or 256 (big-endian machine); which
/// of the two depends on the machine and is left open.
#[verifier::external_body]
fn native_order_probe() -> (r: u16)
    ensures
        r == 1 || r == 256,
{
    u16::from_ne_bytes([1, 0])
}

/// The byte order in which the bytes `[1, 0]` read as `probe`: 1 when the first
/// byte is the least significant, which is little endian.
pub fn order_from_probe(probe: u16) -> (r: ByteOrder)
    ensures
        r == (if probe == 1 {
            ByteOrder::Little
        } else {
            ByteOrder::Big
        }),
{
    if probe == 1 {
        ByteOrder::Little
    } else {
        ByteOrder::Big
    }
}

/// Byte order of the machine this runs on: what [`order_from_probe`] makes of the
/// native reading of `[1, 0]`. Which order that is depends on the machine, so the
/// contract leaves it open.
pub fn host_byte_order() -> ByteOrder {
    order_from_probe(native_order_probe())
}

/// Appends the `n`-byte encoding of `v` in byte order `o`.
pub fn push_in(out: &mut Vec<u8>, v: u64, n: usize, o: ByteOrder)
    requires
        n <= 8,
    ensures
        final(out)@ == old(out)@ + enc(v as nat, n as nat, o),
{
    match o {
        ByteOrder::Little => push_le(out, v, n),
        ByteOrder::Big => push_be(out, v, n),
    }
}

pub proof fn lemma_be_bytes_of_value(s: Seq<u8>)
    ensures
        be_bytes(be_value(s, 0, s.len()), s.len()) == s,
    decreases s.len(),
{
    if s.len() > 0 {
        let n = s.len();
        let t = s.take(n - 1);
        lemma_be_bytes_of_value(t);
        lemma_be_value_prefix(t, seq![s[n - 1]], 0, (n - 1) as nat);
        assert(t + seq![s[n - 1]] =~= s);
        let x = be_value(s, 0, (n - 1) as nat);
        assert((x * 256 + s[n - 1] as nat) / 256 == x);
        assert((x * 256 + s[n - 1] as nat) % 256 == s[n - 1] as nat);
        lemma_be_bytes_step(be_value(s, 0, n), (n - 1) as nat);
    } else {
        assert(s =~= Seq::<u8>::empty());
    }
}

/// Encoding the byte-swapped value big endian gives the little-endian encoding.
pub proof fn lemma_enc_to_le(v: nat, n: nat, o: ByteOrder)
    ensures
        enc(to_le_in(v, n, o), n, o) == le_bytes(v, n),
{
    if o == ByteOrder::Big {
        lemma_le_bytes_len(v, n);
        lemma_be_bytes_of_value(le_bytes(v, n));
    }
}

pub proof fn lemma_enc_len(v: nat, n: nat, o: ByteOrder)
    ensures
        enc(v, n, o).len() == n,
{
    lemma_le_bytes_len(v, n);
    lemma_be_bytes_len(v, n);
}

pub proof fn lemma_swap_bound(v: nat, n: nat)
    ensures
        swap(v, n) < pow256(n),
{
    lemma_be_value_bound(le_bytes(v, n), 0, n);
}

/// `v` converted so that its `n`-byte encoding in `o` is little endian.
fn convert(v: u64, n: usize, o: ByteOrder) -> (r: u64)
    requires
        n <= 8,
    ensures
        r == to_le_in(v as nat, n as nat, o),
{
    match o {
        ByteOrder::Little => v,
        ByteOrder::Big => {
            let mut tmp: Vec<u8> = Vec::new();
            push_le(&mut tmp, v, n);
            proof {
                lemma_le_bytes_len(v as nat, n as nat);
            }
            be_at(tmp.as_slice(), 0, n)
        },
    }
}

fn convert16(v: u16, o: ByteOrder) -> (r: u16)
    ensures
        r == to_le_in(v as nat, 2, o),
{
    proof {
        lemma_swap_bound(v as nat, 2);
        lemma_pow256();
    }
    convert(v as u64, 2, o) as u16
}

fn convert32(v: u32, o: ByteOrder) -> (r: u32)
    ensures
        r == to_le_in(v as nat, 4, o),
{
    proof {
        lemma_swap_bound(v as nat, 4);
        lemma_pow256();
    }
    convert(v as u64, 4, o) as u32
}

fn convert_i32(v: i32, o: ByteOrder) -> (r: i32)
    ensures
        bits_of_i32(r) == to_le_in(bits_of_i32(v) as nat, 4, o),
{
    i32_from_bits(convert32(i32_bits(v), o))
}

fn convert64(v: u64, o: ByteOrder) -> (r: u64)
    ensures
        r == to_le_in(v as nat, 8, o),
{
    convert(v, 8, o)
}

impl RecordHeader {
    /// Memory image of the record in byte order `o` (its `repr(C)` layout has no padding).
    pub open spec fn image(self, o: ByteOrder) -> Seq<u8> {
        enc(self.version as nat, 2, o) + enc(self.kind as nat, 2, o) + enc(self.size as nat, 4, o)
            + enc(self.event_id as nat, 8, o) + enc(self.offset as nat, 8, o)
    }

    /// The record as it travels: every scalar little endian.
    pub open spec fn wire(self) -> Seq<u8> {
        self.image(ByteOrder::Little)
    }

    /// Scalars converted so that the image in `o` is the wire image.
    pub open spec fn le_in(self, o: ByteOrder) -> Self {
        RecordHeader {
            version: to_le_in(self.version as nat, 2, o) as u16,
            kind: to_le_in(self.kind as nat, 2, o) as u16,
            size: to_le_in(self.size as nat, 4, o) as u32,
            event_id: to_le_in(self.event_id as nat, 8, o) as u64,
            offset: to_le_in(self.offset as nat, 8, o) as u64,
        }
    }

    pub fn convert_in(self, o: ByteOrder) -> (r: Self)
        ensures
            r == self.le_in(o),
    {
        RecordHeader {
            version: convert16(self.version, o),
            kind: convert16(self.kind, o),
            size: convert32(self.size, o),
            event_id: convert64(self.event_id, o),
            offset: convert64(self.offset, o),
        }
    }

    /// Converts every scalar to little endian for publication: unchanged on a
    /// little-endian host, byte-swapped on a big-endian one.
    pub fn to_le(self) -> (r: Self)
        ensures
            r == self.le_in(ByteOrder::Little) || r == self.le_in(ByteOrder::Big),
    {
        self.convert_in(host_byte_order())
    }

    pub fn image_in(&self, o: ByteOrder) -> (r: Vec<u8>)
        ensures
            r@ == self.image(o),
    {
        let mut out: Vec<u8> = Vec::new();
        push_in(&mut out, self.version as u64, 2, o);
        push_in(&mut out, self.kind as u64, 2, o);
        push_in(&mut out, self.size as u64, 4, o);
        push_in(&mut out, self.event_id, 8, o);
        push_in(&mut out, self.offset, 8, o);
        out
    }

    /// The bytes of this record in host memory.
    pub fn native_bytes(&self) -> (r: Vec<u8>)
        ensures
            r@ == self.image(ByteOrder::Little) || r@ == self.image(ByteOrder::Big),
    {
        self.image_in(host_byte_order())
    }
}

impl IsoDescriptor {
    pub open spec fn image(self, o: ByteOrder) -> Seq<u8> {
        enc(bits_of_i32(self.status) as nat, 4, o) + enc(self.offset as nat, 4, o) + enc(
            self.length as nat,
            4,
            o,
        ) + enc(self.padding as nat, 4, o)
    }

    pub open spec fn wire(self) -> Seq<u8> {
        self.image(ByteOrder::Little)
    }

    /// Scalars converted so that the image in `o` is the wire image.
    pub open spec fn le_in(self, o: ByteOrder, r: Self) -> bool {
        &&& bits_of_i32(r.status) == to_le_in(bits_of_i32(self.status) as nat, 4, o)
        &&& r.offset == to_le_in(self.offset as nat, 4, o)
        &&& r.length == to_le_in(self.length as nat, 4, o)
        &&& r.padding == to_le_in(self.padding as nat, 4, o)
    }

    pub fn convert_in(self, o: ByteOrder) -> (r: Self)
        ensures
            self.le_in(o, r),
    {
        IsoDescriptor {
            status: convert_i32(self.status, o),
            offset: convert32(self.offset, o),
            length: convert32(self.length, o),
            padding: convert32(self.padding, o),
        }
    }

    /// Converts every scalar to little endian for publication.
    pub fn to_le(self) -> (r: Self)
        ensures
            self.le_in(ByteOrder::Little, r) || self.le_in(ByteOrder::Big, r),
    {
        self.convert_in(host_byte_order())
    }

    pub fn image_in(&self, o: ByteOrder) -> (r: Vec<u8>)
        ensures
            r@ == self.image(o),
    {
        let mut out: Vec<u8> = Vec::new();
        push_in(&mut out, i32_bits(self.status) as u64, 4, o);
        push_in(&mut out, self.offset as u64, 4, o);
        push_in(&mut out, self.length as u64, 4, o);
        push_in(&mut out, self.padding as u64, 4, o);
        out
    }

    /// The bytes of this record in host memory.
    pub fn native_bytes(&self) -> (r: Vec<u8>)
        ensures
            r@ == self.image(ByteOrder::Little) || r@ == self.image(ByteOrder::Big),
    {
        self.image_in(host_byte_order())
    }
}

impl EventEnd {
    pub open spec fn image(self, o: ByteOrder) -> Seq<u8> {
        enc(self.copied_bytes as nat, 8, o) + enc(self.descriptors as nat, 4, o) + enc(
            self.reason as nat,
            4,
            o,
        )
    }

    pub open spec fn wire(self) -> Seq<u8> {
        self.image(ByteOrder::Little)
    }

    pub open spec fn le_in(self, o: ByteOrder) -> Self {
        EventEnd {
            copied_bytes: to_le_in(self.copied_bytes as nat, 8, o) as u64,
            descriptors: to_le_in(self.descriptors as nat, 4, o) as u32,
            reason: to_le_in(self.reason as nat, 4, o) as u32,
        }
    }

    pub fn convert_in(self, o: ByteOrder) -> (r: Self)
        ensures
            r == self.le_in(o),
    {
        EventEnd {
            copied_bytes: convert64(self.copied_bytes, o),
            descriptors: convert32(self.descriptors, o),
            reason: convert32(self.reason, o),
        }
    }

    /// Converts every scalar to little endian for publication.
    pub fn to_le(self) -> (r: Self)
        ensures
            r == self.le_in(ByteOrder::Little) || r == self.le_in(ByteOrder::Big),
    {
        self.convert_in(host_byte_order())
    }

    pub fn image_in(&self, o: ByteOrder) -> (r: Vec<u8>)
        ensures
            r@ == self.image(o),
    {
        let mut out: Vec<u8> = Vec::new();
        push_in(&mut out, self.copied_bytes, 8, o);
        push_in(&mut out, self.descriptors as u64, 4, o);
        push_in(&mut out, self.reason as u64, 4, o);
        out
    }

    /// The bytes of this record in host memory.
    pub fn native_bytes(&self) -> (r: Vec<u8>)
        ensures
            r@ == self.image(ByteOrder::Little) || r@ == self.image(ByteOrder::Big),
    {
        self.image_in(host_byte_order())
    }
}

impl EventMeta {
    pub open spec fn image(self, o: ByteOrder) -> Seq<u8> {
        enc(self.urb_id as nat, 8, o) + enc(self.timestamp_ns as nat, 8, o) + enc(
            self.bus as nat,
            2,
            o,
        ) + seq![
            self.device,
            self.endpoint,
            self.transfer_type,
            self.event_type,
            self.setup_present,
            self.has_data,
        ] + enc(bits_of_i32(self.status) as nat, 4, o) + enc(self.requested_len as nat, 4, o)
            + enc(self.actual_len as nat, 4, o) + enc(self.payload_len as nat, 4, o) + enc(
            bits_of_i32(self.interval) as nat,
            4,
            o,
        ) + enc(bits_of_i32(self.start_frame) as nat, 4, o) + enc(
            self.transfer_flags as nat,
            4,
            o,
        ) + enc(self.iso_count as nat, 4, o) + enc(bits_of_i32(self.error_count) as nat, 4, o)
            + enc(self.vid as nat, 2, o) + enc(self.pid as nat, 2, o) + self.setup@
    }

    /// The metadata as it travels: every scalar little endian, setup bytes as they are.
    pub open spec fn wire(self) -> Seq<u8> {
        self.image(ByteOrder::Little)
    }

    /// `r` holds the scalars of `self` converted so that its image in `o` is the
    /// wire image; single bytes and the setup packet are unchanged.
    pub open spec fn le_in(self, o: ByteOrder, r: Self) -> bool {
        &&& r.urb_id == to_le_in(self.urb_id as nat, 8, o)
        &&& r.timestamp_ns == to_le_in(self.timestamp_ns as nat, 8, o)
        &&& r.bus == to_le_in(self.bus as nat, 2, o)
        &&& r.device == self.device
        &&& r.endpoint == self.endpoint
        &&& r.transfer_type == self.transfer_type
        &&& r.event_type == self.event_type
        &&& r.setup_present == self.setup_present
        &&& r.has_data == self.has_data
        &&& bits_of_i32(r.status) == to_le_in(bits_of_i32(self.status) as nat, 4, o)
        &&& r.requested_len == to_le_in(self.requested_len as nat, 4, o)
        &&& r.actual_len == to_le_in(self.actual_len as nat, 4, o)
        &&& r.payload_len == to_le_in(self.payload_len as nat, 4, o)
        &&& bits_of_i32(r.interval) == to_le_in(bits_of_i32(self.interval) as nat, 4, o)
        &&& bits_of_i32(r.start_frame) == to_le_in(bits_of_i32(self.start_frame) as nat, 4, o)
        &&& r.transfer_flags == to_le_in(self.transfer_flags as nat, 4, o)
        &&& r.iso_count == to_le_in(self.iso_count as nat, 4, o)
        &&& bits_of_i32(r.error_count) == to_le_in(bits_of_i32(self.error_count) as nat, 4, o)
        &&& r.vid == to_le_in(self.vid as nat, 2, o)
        &&& r.pid == to_le_in(self.pid as nat, 2, o)
        &&& r.setup == self.setup
    }

    /// Converts the scalars in place so that the image in `o` is the wire image.
    pub fn encode_in(&mut self, o: ByteOrder)
        ensures
            old(self).le_in(o, *final(self)),
    {
        self.urb_id = convert64(self.urb_id, o);
        self.timestamp_ns = convert64(self.timestamp_ns, o);
        self.bus = convert16(self.bus, o);
        self.status = convert_i32(self.status, o);
        self.requested_len = convert32(self.requested_len, o);
        self.actual_len = convert32(self.actual_len, o);
        self.payload_len = convert32(self.payload_len, o);
        self.interval = convert_i32(self.interval, o);
        self.start_frame = convert_i32(self.start_frame, o);
        self.transfer_flags = convert32(self.transfer_flags, o);
        self.iso_count = convert32(self.iso_count, o);
        self.error_count = convert_i32(self.error_count, o);
        self.vid = convert16(self.vid, o);
        self.pid = convert16(self.pid, o);
    }

    /// Converts an initialized record at its destination to little endian, in
    /// place: unchanged on a little-endian host, scalars byte-swapped on a big-endian one.
    pub fn encode_le(&mut self)
        ensures
            old(self).le_in(ByteOrder::Little, *final(self)) || old(self).le_in(
                ByteOrder::Big,
                *final(self),
            ),
    {
        self.encode_in(host_byte_order());
    }

    /// Converts every scalar to little endian for publication.
    pub fn to_le(self) -> (r: Self)
        ensures
            self.le_in(ByteOrder::Little, r) || self.le_in(ByteOrder::Big, r),
    {
        let mut m = self;
        m.encode_le();
        m
    }

    pub fn image_in(&self, o: ByteOrder) -> (r: Vec<u8>)
        ensures
            r@ == self.image(o),
    {
        let mut out: Vec<u8> = Vec::new();
        push_in(&mut out, self.urb_id, 8, o);
        push_in(&mut out, self.timestamp_ns, 8, o);
        push_in(&mut out, self.bus as u64, 2, o);
        out.push(self.device);
        out.push(self.endpoint);
        out.push(self.transfer_type);
        out.push(self.event_type);
        out.push(self.setup_present);
        out.push(self.has_data);
        push_in(&mut out, i32_bits(self.status) as u64, 4, o);
        push_in(&mut out, self.requested_len as u64, 4, o);
        push_in(&mut out, self.actual_len as u64, 4, o);
        push_in(&mut out, self.payload_len as u64, 4, o);
        push_in(&mut out, i32_bits(self.interval) as u64, 4, o);
        push_in(&mut out, i32_bits(self.start_frame) as u64, 4, o);
        push_in(&mut out, self.transfer_flags as u64, 4, o);
        push_in(&mut out, self.iso_count as u64, 4, o);
        push_in(&mut out, i32_bits(self.error_count) as u64, 4, o);
        push_in(&mut out, self.vid as u64, 2, o);
        push_in(&mut out, self.pid as u64, 2, o);
        proof {
            lemma_enc_len(self.urb_id as nat, 8, o);
            lemma_enc_len(self.timestamp_ns as nat, 8, o);
            lemma_enc_len(self.bus as nat, 2, o);
            lemma_enc_len(bits_of_i32(self.status) as nat, 4, o);
            lemma_enc_len(self.requested_len as nat, 4, o);
            lemma_enc_len(self.actual_len as nat, 4, o);
            lemma_enc_len(self.payload_len as nat, 4, o);
            lemma_enc_len(bits_of_i32(self.interval) as nat, 4, o);
            lemma_enc_len(bits_of_i32(self.start_frame) as nat, 4, o);
            lemma_enc_len(self.transfer_flags as nat, 4, o);
            lemma_enc_len(self.iso_count as nat, 4, o);
            lemma_enc_len(bits_of_i32(self.error_count) as nat, 4, o);
            lemma_enc_len(self.vid as nat, 2, o);
            lemma_enc_len(self.pid as nat, 2, o);
            assert(out@ =~= self.image(o).take(64));
        }
        let mut k: usize = 0;
        while k < 8
            invariant
                k <= 8,
                out@ == self.image(o).take(64 + k),
                self.image(o).len() == 72,
            decreases 8 - k,
        {
            out.push(self.setup[k]);
            k = k + 1;
            assert(out@ =~= self.image(o).take(64 + k));
        }
        assert(out@ =~= self.image(o));
        out
    }

    /// The bytes of this record in host memory.
    pub fn native_bytes(&self) -> (r: Vec<u8>)
        ensures
            r@ == self.image(ByteOrder::Little) || r@ == self.image(ByteOrder::Big),
    {
        self.image_in(host_byte_order())
    }
}

/// Whatever the host byte order, the memory image of a record converted with
/// `to_le` on that host is its little-endian wire image.
pub proof fn law_to_le_image_is_wire(
    h: RecordHeader,
    m: EventMeta,
    mc: EventMeta,
    d: IsoDescriptor,
    dc: IsoDescriptor,
    e: EventEnd,
    o: ByteOrder,
)
    requires
        m.le_in(o, mc),
        d.le_in(o, dc),
    ensures
        h.le_in(o).image(o) == h.wire(),
        mc.image(o) == m.wire(),
        dc.image(o) == d.wire(),
        e.le_in(o).image(o) == e.wire(),
{
    lemma_pow256();
    lemma_enc_to_le(h.version as nat, 2, o);
    lemma_enc_to_le(h.kind as nat, 2, o);
    lemma_enc_to_le(h.size as nat, 4, o);
    lemma_enc_to_le(h.event_id as nat, 8, o);
    lemma_enc_to_le(h.offset as nat, 8, o);
    lemma_swap_bound(h.version as nat, 2);
    lemma_swap_bound(h.kind as nat, 2);
    lemma_swap_bound(h.size as nat, 4);
    lemma_swap_bound(h.event_id as nat, 8);
    lemma_swap_bound(h.offset as nat, 8);
    lemma_enc_to_le(bits_of_i32(d.status) as nat, 4, o);
    lemma_enc_to_le(d.offset as nat, 4, o);
    lemma_enc_to_le(d.length as nat, 4, o);
    lemma_enc_to_le(d.padding as nat, 4, o);
    lemma_enc_to_le(e.copied_bytes as nat, 8, o);
    lemma_enc_to_le(e.descriptors as nat, 4, o);
    lemma_enc_to_le(e.reason as nat, 4, o);
    lemma_swap_bound(e.copied_bytes as nat, 8);
    lemma_swap_bound(e.descriptors as nat, 4);
    lemma_swap_bound(e.reason as nat, 4);
    lemma_enc_to_le(m.urb_id as nat, 8, o);
    lemma_enc_to_le(m.timestamp_ns as nat, 8, o);
    lemma_enc_to_le(m.bus as nat, 2, o);
    lemma_enc_to_le(bits_of_i32(m.status) as nat, 4, o);
    lemma_enc_to_le(m.requested_len as nat, 4, o);
    lemma_enc_to_le(m.actual_len as nat, 4, o);
    lemma_enc_to_le(m.payload_len as nat, 4, o);
    lemma_enc_to_le(bits_of_i32(m.interval) as nat, 4, o);
    lemma_enc_to_le(bits_of_i32(m.start_frame) as nat, 4, o);
    lemma_enc_to_le(m.transfer_flags as nat, 4, o);
    lemma_enc_to_le(m.iso_count as nat, 4, o);
    lemma_enc_to_le(bits_of_i32(m.error_count) as nat, 4, o);
    lemma_enc_to_le(m.vid as nat, 2, o);
    lemma_enc_to_le(m.pid as nat, 2, o);
}

/// Whether `m` is all zero but for the submission event type.
pub open spec fn blank_submission(m: EventMeta) -> bool {
    &&& m.event_type == 0x53
    &&& m.urb_id == 0 && m.timestamp_ns == 0 && m.bus == 0 && m.device == 0 && m.endpoint == 0
    &&& m.transfer_type == 0 && m.setup_present == 0 && m.has_data == 0 && m.status == 0
    &&& m.requested_len == 0 && m.actual_len == 0 && m.payload_len == 0 && m.interval == 0
    &&& m.start_frame == 0 && m.transfer_flags == 0 && m.iso_count == 0 && m.error_count == 0
    &&& m.vid == 0 && m.pid == 0
    &&& m.setup@ == Seq::new(8, |i: int| 0u8)
}

/// The begin record the kernel side reserves for a URB submitted at `address`,
/// before the URB's fields are read into its metadata: a record of the whole
/// 96-byte begin size for event `address` at offset 0, with blank submission
/// metadata.
pub fn submission_begin(address: u64) -> (r: (RecordHeader, EventMeta))
    ensures
        r.0.version == ABI_VERSION,
        r.0.kind == RECORD_BEGIN,
        r.0.size == 96,
        r.0.event_id == address,
        r.0.offset == 0,
        blank_submission(r.1),
{
    let header = RecordHeader { version: ABI_VERSION, kind: RECORD_BEGIN, size: 96, event_id: address, offset: 0 };
    let setup = [0u8; 8];
    assert(setup@ =~= Seq::new(8, |i: int| 0u8));
    let meta = EventMeta {
        urb_id: 0,
        timestamp_ns: 0,
        bus: 0,
        device: 0,
        endpoint: 0,
        transfer_type: 0,
        event_type: 0x53,
        setup_present: 0,
        has_data: 0,
        status: 0,
        requested_len: 0,
        actual_len: 0,
        payload_len: 0,
        interval: 0,
        start_frame: 0,
        transfer_flags: 0,
        iso_count: 0,
        error_count: 0,
        vid: 0,
        pid: 0,
        setup,
    };
    (header, meta)
}

/// Little-endian bytes are big-endian bytes read backwards.
proof fn lemma_le_is_reversed_be(w: nat, n: nat, k: int)
    requires
        0 <= k < n,
    ensures
        le_bytes(w, n).len() == n,
        be_bytes(w, n).len() == n,
        le_bytes(w, n)[k] == be_bytes(w, n)[n - 1 - k],
    decreases n,
{
    lemma_le_bytes_len(w, n);
    lemma_be_bytes_len(w, n);
    lemma_le_bytes_len(w / 256, (n - 1) as nat);
    lemma_be_bytes_len(w / 256, (n - 1) as nat);
    lemma_be_bytes_step(w, (n - 1) as nat);
    if k > 0 {
        lemma_le_is_reversed_be(w / 256, (n - 1) as nat, k - 1);
    }
}

/// Reading bytes big endian is reading them reversed little endian.
proof fn lemma_be_of_reversed(t: Seq<u8>, s: Seq<u8>, a: int, n: nat)
    requires
        t.len() >= n,
        forall|k: int| 0 <= k < n ==> #[trigger] t[k] == s[a + n - 1 - k],
    ensures
        be_value(t, 0, n) == le_value(s, a, n),
    decreases n,
{
    if n > 0 {
        assert(t[n - 1] == s[a + n - 1 - (n - 1)]);
        assert forall|k: int| 0 <= k < n - 1 implies #[trigger] t[k] == s[(a + 1) + (n - 1) - 1
            - k] by {
            assert(t[k] == s[a + n - 1 - k]);
        }
        lemma_be_of_reversed(t, s, a + 1, (n - 1) as nat);
    }
}

/// Swapping the byte order twice gives the value back.
proof fn lemma_swap_twice(v: nat, n: nat)
    requires
        v < pow256(n),
    ensures
        swap(swap(v, n), n) == v,
{
    let s = le_bytes(v, n);
    let w = swap(v, n);
    lemma_le_bytes_len(v, n);
    lemma_be_bytes_of_value(s);
    assert(be_bytes(w, n) == s);
    let t = le_bytes(w, n);
    lemma_le_bytes_len(w, n);
    assert forall|k: int| 0 <= k < n implies #[trigger] t[k] == s[0 + n - 1 - k] by {
        lemma_le_is_reversed_be(w, n, k);
    }
    lemma_be_of_reversed(t, s, 0, n);
    lemma_le_roundtrip(v, n);
}

/// Converting an `n`-byte value twice for the same byte order gives it back.
proof fn lemma_to_le_twice(v: nat, n: nat, o: ByteOrder)
    requires
        v < pow256(n),
    ensures
        to_le_in(to_le_in(v, n, o), n, o) == v,
{
    if o == ByteOrder::Big {
        lemma_swap_twice(v, n);
    }
}

proof fn lemma_i32_pattern(a: i32, b: i32)
    requires
        bits_of_i32(a) == bits_of_i32(b),
    ensures
        a == b,
{
}

/// Converting a record for publication is its own inverse: converting the
/// converted record again, for the same byte order, gives the original back. A
/// record received on the wire is read by the same conversion.
pub proof fn law_convert_twice_restores(
    h: RecordHeader,
    e: EventEnd,
    d: IsoDescriptor,
    d1: IsoDescriptor,
    d2: IsoDescriptor,
    m: EventMeta,
    m1: EventMeta,
    m2: EventMeta,
    o: ByteOrder,
)
    requires
        d.le_in(o, d1),
        d1.le_in(o, d2),
        m.le_in(o, m1),
        m1.le_in(o, m2),
    ensures
        h.le_in(o).le_in(o) == h,
        e.le_in(o).le_in(o) == e,
        d2 == d,
        m2 == m,
{
    lemma_pow256();
    lemma_to_le_twice(h.version as nat, 2, o);
    lemma_to_le_twice(h.kind as nat, 2, o);
    lemma_to_le_twice(h.size as nat, 4, o);
    lemma_to_le_twice(h.event_id as nat, 8, o);
    lemma_to_le_twice(h.offset as nat, 8, o);
    lemma_swap_bound(h.version as nat, 2);
    lemma_swap_bound(h.kind as nat, 2);
    lemma_swap_bound(h.size as nat, 4);
    lemma_swap_bound(h.event_id as nat, 8);
    lemma_swap_bound(h.offset as nat, 8);
    lemma_to_le_twice(e.copied_bytes as nat, 8, o);
    lemma_to_le_twice(e.descriptors as nat, 4, o);
    lemma_to_le_twice(e.reason as nat, 4, o);
    lemma_swap_bound(e.copied_bytes as nat, 8);
    lemma_swap_bound(e.descriptors as nat, 4);
    lemma_swap_bound(e.reason as nat, 4);
    lemma_to_le_twice(bits_of_i32(d.status) as nat, 4, o);
    lemma_to_le_twice(d.offset as nat, 4, o);
    lemma_to_le_twice(d.length as nat, 4, o);
    lemma_to_le_twice(d.padding as nat, 4, o);
    lemma_i32_pattern(d2.status, d.status);
    lemma_to_le_twice(m.urb_id as nat, 8, o);
    lemma_to_le_twice(m.timestamp_ns as nat, 8, o);
    lemma_to_le_twice(m.bus as nat, 2, o);
    lemma_to_le_twice(bits_of_i32(m.status) as nat, 4, o);
    lemma_to_le_twice(m.requested_len as nat, 4, o);
    lemma_to_le_twice(m.actual_len as nat, 4, o);
    lemma_to_le_twice(m.payload_len as nat, 4, o);
    lemma_to_le_twice(bits_of_i32(m.interval) as nat, 4, o);
    lemma_to_le_twice(bits_of_i32(m.start_frame) as nat, 4, o);
    lemma_to_le_twice(m.transfer_flags as nat, 4, o);
    lemma_to_le_twice(m.iso_count as nat, 4, o);
    lemma_to_le_twice(bits_of_i32(m.error_count) as nat, 4, o);
    lemma_to_le_twice(m.vid as nat, 2, o);
    lemma_to_le_twice(m.pid as nat, 2, o);
    lemma_i32_pattern(m2.status, m.status);
    lemma_i32_pattern(m2.interval, m.interval);
    lemma_i32_pattern(m2.start_frame, m.start_frame);
    lemma_i32_pattern(m2.error_count, m.error_count);
}

} // verus!
