use usbscope::archive::{decode_meta, read_raw_header, read_record, write_kernel_summary, RecordError};
use usbscope::reassembly::Reassembler;
use usbscope::wire::{CaptureStats, EventMeta, RAW_MAGIC};

fn record(kind: u16, id: u64, offset: u64, body: &[u8]) -> Vec<u8> {
    let mut out = Vec::new();
    out.extend_from_slice(&1u16.to_le_bytes());
    out.extend_from_slice(&kind.to_le_bytes());
    out.extend_from_slice(&(24 + body.len() as u32).to_le_bytes());
    out.extend_from_slice(&id.to_le_bytes());
    out.extend_from_slice(&offset.to_le_bytes());
    out.extend_from_slice(body);
    out
}

fn meta_bytes(m: &EventMeta) -> Vec<u8> {
    m.to_le().native_bytes()
}

fn end(copied: u64, descriptors: u32, reason: u32) -> Vec<u8> {
    let mut out = Vec::new();
    out.extend_from_slice(&copied.to_le_bytes());
    out.extend_from_slice(&descriptors.to_le_bytes());
    out.extend_from_slice(&reason.to_le_bytes());
    out
}

fn bulk(payload_len: u32) -> EventMeta {
    EventMeta {
        urb_id: 9,
        bus: 1,
        device: 3,
        endpoint: 0x81,
        transfer_type: 3,
        event_type: b'C',
        has_data: u8::from(payload_len > 0),
        requested_len: 64,
        actual_len: payload_len,
        payload_len,
        ..EventMeta::default()
    }
}

#[test]
fn fragments_in_any_order_make_one_event() {
    let mut r = Reassembler::new();
    assert!(r.push(&record(1, 7, 0, &meta_bytes(&bulk(6)))).unwrap().is_none());
    assert!(r.push(&record(2, 7, 3, b"def")).unwrap().is_none());
    assert!(r.push(&record(2, 7, 0, b"abc")).unwrap().is_none());
    let event = r.push(&record(4, 7, 0, &end(6, 0, 0))).unwrap().unwrap();
    assert_eq!(event.payload, b"abcdef");
    assert_eq!(event.meta.payload_len, 6);
    assert_eq!(event.source_id, 0);
    assert!(event.identity_known && event.requested_known);
    assert_eq!(r.stats().complete, 1);
}

#[test]
fn overlapping_and_out_of_span_fragments_are_refused() {
    let mut r = Reassembler::new();
    r.push(&record(1, 7, 0, &meta_bytes(&bulk(6)))).unwrap();
    r.push(&record(2, 7, 2, b"cd")).unwrap();
    assert_eq!(r.push(&record(2, 7, 3, b"x")).unwrap_err(), RecordError::OverlappingFragment);
    assert_eq!(r.push(&record(2, 7, 1, b"xy")).unwrap_err(), RecordError::OverlappingFragment);
    assert_eq!(r.push(&record(2, 7, 2, b"cd")).unwrap_err(), RecordError::OverlappingFragment);
    assert_eq!(r.push(&record(2, 7, 5, b"xy")).unwrap_err(), RecordError::PayloadOutsideSpan);
    assert_eq!(r.push(&record(2, 7, 0, b"")).unwrap_err(), RecordError::EmptyPayloadRecord);
    assert_eq!(
        r.push(&record(2, 7, u64::MAX, b"x")).unwrap_err(),
        RecordError::PayloadOffsetOverflow
    );
    r.push(&record(2, 7, 0, b"ab")).unwrap();
    r.push(&record(2, 7, 4, b"ef")).unwrap();
    let event = r.push(&record(4, 7, 0, &end(6, 0, 0))).unwrap().unwrap();
    assert_eq!(event.payload, b"abcdef");
}

#[test]
fn a_gap_or_a_lying_end_record_makes_the_event_incomplete() {
    let mut r = Reassembler::new();
    r.push(&record(1, 7, 0, &meta_bytes(&bulk(6)))).unwrap();
    r.push(&record(2, 7, 0, b"abc")).unwrap();
    assert!(r.push(&record(4, 7, 0, &end(3, 0, 0))).unwrap().is_none());
    assert_eq!(r.stats().incomplete, 1);
    r.push(&record(1, 8, 0, &meta_bytes(&bulk(3)))).unwrap();
    r.push(&record(2, 8, 0, b"abc")).unwrap();
    assert!(r.push(&record(4, 8, 0, &end(2, 0, 0))).unwrap().is_none());
    r.push(&record(1, 9, 0, &meta_bytes(&bulk(3)))).unwrap();
    r.push(&record(2, 9, 0, b"abc")).unwrap();
    assert!(r.push(&record(4, 9, 0, &end(3, 0, 1))).unwrap().is_none());
    assert_eq!(r.stats().incomplete, 3);
    assert_eq!(r.stats().complete, 0);
}

#[test]
fn records_for_unknown_events_are_counted_as_orphans() {
    let mut r = Reassembler::new();
    assert!(r.push(&record(2, 5, 0, b"x")).unwrap().is_none());
    assert!(r.push(&record(4, 5, 0, &end(0, 0, 0))).unwrap().is_none());
    assert_eq!(r.stats().orphan_records, 2);
}

#[test]
fn header_and_begin_errors() {
    let mut r = Reassembler::new();
    assert_eq!(r.push(&[0; 10]).unwrap_err(), RecordError::ShortRecordHeader);
    let mut bad = record(1, 1, 0, &meta_bytes(&bulk(0)));
    bad[0] = 2;
    assert_eq!(r.push(&bad).unwrap_err(), RecordError::UnsupportedAbi);
    let mut bad = record(1, 1, 0, &meta_bytes(&bulk(0)));
    bad[4] = 200;
    assert_eq!(r.push(&bad).unwrap_err(), RecordError::InvalidRecordSize);
    assert_eq!(r.push(&record(9, 1, 0, b"")).unwrap_err(), RecordError::UnknownRecordKind);
    assert_eq!(
        r.push(&record(1, 1, 4, &meta_bytes(&bulk(0)))).unwrap_err(),
        RecordError::NonzeroMetadataOffset
    );
    assert_eq!(r.push(&record(1, 1, 0, b"short")).unwrap_err(), RecordError::InvalidMetadataLength);
    let mut wrong = bulk(0);
    wrong.event_type = b'X';
    assert_eq!(r.push(&record(1, 1, 0, &meta_bytes(&wrong))).unwrap_err(), RecordError::InvalidEventType);
    r.push(&record(1, 1, 0, &meta_bytes(&bulk(0)))).unwrap();
    assert_eq!(
        r.push(&record(1, 1, 0, &meta_bytes(&bulk(0)))).unwrap_err(),
        RecordError::DuplicateBegin
    );
    assert_eq!(r.push(&record(4, 1, 1, &end(0, 0, 0))).unwrap_err(), RecordError::InvalidEventEnd);
    let event = r.push(&record(4, 1, 0, &end(0, 0, 0))).unwrap().unwrap();
    assert_eq!(event.payload.len(), 0);
}

#[test]
fn iso_events_need_their_descriptors_and_frames() {
    let meta = EventMeta {
        transfer_type: 0,
        event_type: b'C',
        has_data: 1,
        requested_len: 16,
        actual_len: 4,
        payload_len: 12,
        iso_count: 2,
        ..EventMeta::default()
    };
    let descriptor = |offset: u32, length: u32| {
        let mut out = Vec::new();
        out.extend_from_slice(&0u32.to_le_bytes());
        out.extend_from_slice(&offset.to_le_bytes());
        out.extend_from_slice(&length.to_le_bytes());
        out.extend_from_slice(&0u32.to_le_bytes());
        out
    };
    let mut r = Reassembler::new();
    r.push(&record(1, 3, 0, &meta_bytes(&meta))).unwrap();
    assert_eq!(
        r.push(&record(3, 3, 1, &descriptor(0, 2))).unwrap_err(),
        RecordError::InvalidIsoDescriptorIndex
    );
    r.push(&record(3, 3, 0, &descriptor(0, 2))).unwrap();
    r.push(&record(3, 3, 1, &descriptor(10, 2))).unwrap();
    r.push(&record(2, 3, 0, b"ab")).unwrap();
    r.push(&record(2, 3, 10, b"yz")).unwrap();
    let event = r.push(&record(4, 3, 0, &end(4, 2, 0))).unwrap().unwrap();
    assert_eq!(event.iso.len(), 2);
    assert_eq!(&event.payload[0..2], b"ab");
    assert_eq!(&event.payload[2..10], &[0; 8]);
    assert_eq!(&event.payload[10..12], b"yz");

    let mut r = Reassembler::new();
    r.push(&record(1, 4, 0, &meta_bytes(&meta))).unwrap();
    r.push(&record(3, 4, 0, &descriptor(0, 2))).unwrap();
    r.push(&record(3, 4, 1, &descriptor(4, 2))).unwrap();
    assert_eq!(r.push(&record(4, 4, 0, &end(0, 2, 0))).unwrap_err(), RecordError::IsoSpanMismatch);
    assert_eq!(r.stats().complete + r.stats().incomplete, 0);
    assert!(r.push(&record(2, 4, 0, b"ab")).unwrap().is_none());
    assert_eq!(r.stats().orphan_records, 1);
}

#[test]
fn kernel_losses_add_up_and_saturate() {
    let mut r = Reassembler::new();
    let mut body = vec![0u8; 64];
    body[24..32].copy_from_slice(&3u64.to_le_bytes());
    body[48..56].copy_from_slice(&4u64.to_le_bytes());
    assert!(r.lost_nothing());
    r.push(&record(5, 0, 0, &body)).unwrap();
    assert_eq!(r.stats().kernel_losses, 7);
    assert!(!r.lost_nothing());
    body[32..40].copy_from_slice(&u64::MAX.to_le_bytes());
    r.push(&record(5, 0, 0, &body)).unwrap();
    assert_eq!(r.stats().kernel_losses, u64::MAX);
    assert_eq!(r.push(&record(5, 1, 0, &body)).unwrap_err(), RecordError::InvalidKernelSummary);
}

#[test]
fn finish_counts_unfinished_events_and_stop_at_limit_does_not() {
    let mut r = Reassembler::new();
    r.push(&record(1, 1, 0, &meta_bytes(&bulk(0)))).unwrap();
    r.push(&record(1, 2, 0, &meta_bytes(&bulk(0)))).unwrap();
    assert_eq!(r.in_flight(), 2);
    r.stop_at_limit();
    assert_eq!(r.in_flight(), 0);
    assert_eq!(r.stats().incomplete, 0);
    assert!(r.lost_nothing());
    r.push(&record(1, 1, 0, &meta_bytes(&bulk(0)))).unwrap();
    r.finish();
    assert!(!r.lost_nothing());
    assert_eq!(r.in_flight(), 0);
    assert_eq!(r.stats().incomplete, 1);
}

#[test]
fn metadata_round_trips_through_its_wire_image() {
    let meta = EventMeta {
        urb_id: 0x0102_0304_0506_0708,
        bus: 2,
        device: 9,
        endpoint: 0x02,
        transfer_type: 2,
        event_type: b'S',
        setup_present: 1,
        status: -115,
        requested_len: 18,
        setup: [0x80, 6, 0, 1, 0, 0, 18, 0],
        ..EventMeta::default()
    };
    let decoded = decode_meta(&meta_bytes(&meta)).unwrap();
    assert_eq!(decoded.urb_id, meta.urb_id);
    assert_eq!(decoded.status, -115);
    assert_eq!(decoded.setup, meta.setup);
    let mut bad = meta;
    bad.payload_len = 40;
    bad.has_data = 1;
    assert_eq!(decode_meta(&meta_bytes(&bad)).unwrap_err(), RecordError::PayloadSpanExceedsBuffer);
}

#[test]
fn archive_framing() {
    assert!(read_raw_header(&RAW_MAGIC).is_ok());
    assert_eq!(read_raw_header(b"USBSCP\0\x02").unwrap_err(), RecordError::NotAnArchive);
    let rec = record(2, 1, 0, b"xyz");
    let mut input = (rec.len() as u32).to_le_bytes().to_vec();
    input.extend_from_slice(&rec);
    assert_eq!(read_record(&input).unwrap().unwrap(), rec);
    assert_eq!(read_record(&[]).unwrap(), None);
    assert_eq!(read_record(&input[..2]).unwrap_err(), RecordError::TruncatedRecordLength);
    assert_eq!(read_record(&input[..10]).unwrap_err(), RecordError::TruncatedRecord);
    let mut lying = input.clone();
    lying[8] = 99;
    assert_eq!(read_record(&lying).unwrap_err(), RecordError::ArchiveLengthMismatch);
    assert_eq!(read_record(&[3, 0, 0, 0, 1]).unwrap_err(), RecordError::InvalidArchiveRecordLength);
}

#[test]
fn kernel_summary_reads_back_as_losses() {
    let stats = CaptureStats {
        submitted: 10,
        completed: 9,
        submit_errors: 1,
        ring_losses: 2,
        read_errors: 3,
        unsupported_buffers: 4,
        state_errors: 5,
        sg_events: 6,
    };
    let mut out = Vec::new();
    write_kernel_summary(&mut out, &stats);
    assert_eq!(out.len(), 92);
    let rec = read_record(&out).unwrap().unwrap();
    let mut r = Reassembler::new();
    r.push(&rec).unwrap();
    assert_eq!(r.stats().kernel_losses, 2 + 3 + 4 + 5);
}

#[test]
fn every_delivery_order_and_interleaving_gives_the_same_payload() {
    let payload = b"0123456789";
    let pieces: [(u64, &[u8]); 3] = [(0, &payload[0..4]), (4, &payload[4..5]), (5, &payload[5..10])];
    let orders = [[0, 1, 2], [0, 2, 1], [1, 0, 2], [1, 2, 0], [2, 0, 1], [2, 1, 0]];
    for order in orders {
        let mut r = Reassembler::new();
        r.push(&record(1, 7, 0, &meta_bytes(&bulk(10)))).unwrap();
        r.push(&record(1, 8, 0, &meta_bytes(&bulk(2)))).unwrap();
        for (n, &i) in order.iter().enumerate() {
            let (offset, body) = pieces[i];
            assert!(r.push(&record(2, 7, offset, body)).unwrap().is_none());
            if n == 1 {
                assert!(r.push(&record(2, 8, 0, b"zz")).unwrap().is_none());
            }
        }
        let event = r.push(&record(4, 7, 0, &end(10, 0, 0))).unwrap().unwrap();
        assert_eq!(event.payload, payload);
        assert_eq!(r.in_flight(), 1);
        let other = r.push(&record(4, 8, 0, &end(2, 0, 0))).unwrap().unwrap();
        assert_eq!(other.payload, b"zz");
        assert_eq!(r.stats().complete, 2);
    }
}

#[test]
fn a_written_kernel_summary_reads_back_as_losses() {
    let stats = CaptureStats {
        submitted: 10,
        completed: 9,
        submit_errors: 1,
        ring_losses: 2,
        read_errors: 3,
        unsupported_buffers: 4,
        state_errors: 5,
        sg_events: 6,
    };
    let mut buf = Vec::new();
    write_kernel_summary(&mut buf, &stats);
    let rec = read_record(&buf).unwrap().unwrap();
    let mut r = Reassembler::new();
    r.push(&record(1, 7, 0, &meta_bytes(&bulk(0)))).unwrap();
    assert!(r.push(&rec).unwrap().is_none());
    let s = r.stats();
    assert_eq!((s.kernel_losses, s.complete, s.incomplete, s.orphan_records), (14, 0, 0, 0));
    assert_eq!(r.in_flight(), 1);
}

#[test]
fn records_after_a_stop_are_orphans() {
    let mut r = Reassembler::new();
    r.push(&record(1, 7, 0, &meta_bytes(&bulk(4)))).unwrap();
    r.stop_at_limit();
    assert!(r.push(&record(2, 7, 0, b"ab")).unwrap().is_none());
    assert!(r.push(&record(4, 7, 0, &end(4, 0, 0))).unwrap().is_none());
    let s = r.stats();
    assert_eq!((s.orphan_records, s.complete, s.incomplete), (2, 0, 0));
}
