use usbscope::wire::{
    host_byte_order, order_from_probe, submission_begin, ByteOrder, EventEnd, EventMeta, IsoDescriptor, KernelPredicate, RecordHeader, ABI_VERSION,
    RECORD_BEGIN,
};

#[test]
fn wire_records_keep_the_v1_little_endian_format() {
    let header = RecordHeader {
        version: 1,
        kind: 3,
        size: 40,
        event_id: 0x0102_0304_0506_0708,
        offset: 0x1122_3344,
    }
    .to_le();
    assert_eq!(
        header.native_bytes(),
        [
            1, 0, 3, 0, 40, 0, 0, 0, 8, 7, 6, 5, 4, 3, 2, 1, 0x44, 0x33, 0x22, 0x11, 0, 0, 0, 0,
        ]
    );
    let descriptor = IsoDescriptor {
        status: -121,
        offset: 0x1234_5678,
        length: 192,
        padding: 0,
    }
    .to_le();
    assert_eq!(
        descriptor.native_bytes(),
        [0x87, 0xff, 0xff, 0xff, 0x78, 0x56, 0x34, 0x12, 192, 0, 0, 0, 0, 0, 0, 0]
    );
    let end = EventEnd {
        copied_bytes: 0x0102_0304_0506_0708,
        descriptors: 137,
        reason: 3,
    }
    .to_le();
    assert_eq!(
        end.native_bytes(),
        [8, 7, 6, 5, 4, 3, 2, 1, 137, 0, 0, 0, 3, 0, 0, 0]
    );
}

#[test]
fn metadata_encodes_scalars_and_preserves_usb_setup_bytes() {
    let meta = EventMeta {
        urb_id: 0x0102_0304_0506_0708,
        timestamp_ns: 0x1112_1314_1516_1718,
        bus: 0x1234,
        device: 7,
        endpoint: 0x81,
        transfer_type: 0,
        event_type: b'C',
        setup_present: 1,
        has_data: 1,
        status: -121,
        requested_len: 0x1122_3344,
        actual_len: 0x1234_5678,
        payload_len: 0x1122_0001,
        interval: -2,
        start_frame: 0x0102_0304,
        transfer_flags: 0xaabb_ccdd,
        iso_count: 137,
        error_count: -5,
        vid: 0x1234,
        pid: 0xabcd,
        setup: [0x80, 6, 0, 1, 0, 0, 18, 0],
    }
    .to_le();
    assert_eq!(
        meta.native_bytes(),
        [
            8, 7, 6, 5, 4, 3, 2, 1, 0x18, 0x17, 0x16, 0x15, 0x14, 0x13, 0x12, 0x11, 0x34, 0x12, 7,
            0x81, 0, b'C', 1, 1, 0x87, 0xff, 0xff, 0xff, 0x44, 0x33, 0x22, 0x11, 0x78, 0x56, 0x34,
            0x12, 1, 0, 0x22, 0x11, 0xfe, 0xff, 0xff, 0xff, 4, 3, 2, 1, 0xdd, 0xcc, 0xbb, 0xaa,
            137, 0, 0, 0, 0xfb, 0xff, 0xff, 0xff, 0x34, 0x12, 0xcd, 0xab, 0x80, 6, 0, 1, 0, 0, 18,
            0,
        ]
    );
}

#[test]
fn encode_le_in_place_gives_the_same_bytes_as_to_le() {
    let mut meta = EventMeta {
        urb_id: 42,
        bus: 3,
        status: -32,
        ..EventMeta::default()
    };
    let copy = meta.to_le();
    meta.encode_le();
    assert_eq!(meta.native_bytes(), copy.native_bytes());
    assert_eq!(&meta.native_bytes()[24..28], &[0xe0, 0xff, 0xff, 0xff]);
}

#[test]
fn kernel_predicate_compares_masked_fields() {
    let meta = EventMeta {
        bus: 2,
        device: 5,
        endpoint: 0x81,
        ..EventMeta::default()
    };
    let direction_in = KernelPredicate { value: 1, mask: u64::MAX, field: 7, comparison: 0 };
    assert!(direction_in.matches(&meta));
    let device_low_bits = KernelPredicate { value: 1, mask: 3, field: 2, comparison: 0 };
    assert!(device_low_bits.matches(&meta));
    let bus_above_two = KernelPredicate { value: 2, mask: u64::MAX, field: 1, comparison: 4 };
    assert!(!bus_above_two.matches(&meta));
    let unknown_field = KernelPredicate { value: 9, mask: u64::MAX, field: 99, comparison: 0 };
    assert!(unknown_field.matches(&meta));
}

#[test]
fn submission_begin_reserves_a_whole_blank_record() {
    let (header, meta) = submission_begin(0xffff_8880_0000_1000);
    assert_eq!(header.version, ABI_VERSION);
    assert_eq!(header.kind, RECORD_BEGIN);
    assert_eq!(header.size, 96);
    assert_eq!(header.event_id, 0xffff_8880_0000_1000);
    assert_eq!(header.offset, 0);
    assert_eq!(meta.event_type, b'S');
    let blank = EventMeta {
        event_type: b'S',
        ..EventMeta::default()
    };
    assert_eq!(meta.native_bytes(), blank.native_bytes());
    assert_eq!(header.native_bytes().len() + meta.native_bytes().len(), 96);
}

#[test]
fn the_host_order_is_read_from_a_native_probe() {
    assert_eq!(order_from_probe(1), ByteOrder::Little);
    assert_eq!(order_from_probe(256), ByteOrder::Big);
    assert_eq!(host_byte_order(), order_from_probe(u16::from_ne_bytes([1, 0])));
    let header = RecordHeader { version: 1, kind: 2, size: 3, event_id: 4, offset: 5 };
    let converted = header.to_le();
    let expected = if host_byte_order() == ByteOrder::Little { 3u32 } else { 3u32.swap_bytes() };
    assert_eq!(converted.size, expected);
}
