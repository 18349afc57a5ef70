use usbscope::archive::Event;
use usbscope::pcapng::{WriteError, Writer};
use usbscope::pcapng_read::{PcapError, Reader};
use usbscope::wire::{EventMeta, IsoDescriptor};

/// Splits pcapng bytes into blocks the way a caller reading a file does.
fn read_all(bytes: &[u8]) -> Result<Vec<Event>, PcapError> {
    let mut reader = Reader::new();
    let mut events = Vec::new();
    let mut at = 0;
    while at < bytes.len() {
        let size = reader.block_length(&bytes[at..at + 12])? as usize;
        if let Some(event) = reader.next_event(&bytes[at..at + size])? {
            events.push(event);
        }
        at += size;
    }
    Ok(events)
}

fn event(meta: EventMeta, iso: Vec<IsoDescriptor>, payload: &[u8]) -> Event {
    Event {
        source_id: 0,
        meta,
        iso,
        payload: payload.to_vec(),
        identity_known: true,
        requested_known: true,
    }
}

#[test]
fn the_file_starts_with_section_and_interface_blocks() {
    let mut writer = Writer::new();
    assert_eq!(writer.bytes_written(), 48);
    let header = writer.flush();
    assert_eq!(header.len(), 48);
    assert_eq!(&header[0..4], &[0x0a, 0x0d, 0x0d, 0x0a]);
    assert_eq!(&header[8..12], &[0x4d, 0x3c, 0x2b, 0x1a]);
    assert_eq!(&header[28..32], &[1, 0, 0, 0]);
    assert_eq!(&header[36..38], &[220, 0]);
    assert!(writer.flush().is_empty());
}

#[test]
fn written_events_read_back() {
    let submit = EventMeta {
        urb_id: 0xffff_8000_1234_5678,
        timestamp_ns: 1_700_000_000_123_456_789,
        bus: 2,
        device: 5,
        endpoint: 0x02,
        transfer_type: 3,
        event_type: b'S',
        has_data: 1,
        status: -115,
        requested_len: 5,
        payload_len: 5,
        ..EventMeta::default()
    };
    let complete = EventMeta {
        event_type: b'C',
        timestamp_ns: 1_700_000_000_223_456_789,
        has_data: 0,
        status: 0,
        actual_len: 5,
        payload_len: 0,
        ..submit
    };
    let control = EventMeta {
        urb_id: 77,
        transfer_type: 2,
        endpoint: 0x80,
        event_type: b'S',
        setup_present: 1,
        has_data: 0,
        payload_len: 0,
        requested_len: 18,
        setup: [0x80, 6, 0, 1, 0, 0, 18, 0],
        ..submit
    };
    let mut writer = Writer::new();
    writer.write_event(&event(submit, vec![], b"hello")).unwrap();
    writer.write_event(&event(complete, vec![], b"")).unwrap();
    writer.write_event(&event(control, vec![], b"")).unwrap();
    let bytes = writer.flush();
    assert_eq!(writer.bytes_written() as usize, bytes.len());
    let events = read_all(&bytes).unwrap();
    assert_eq!(events.len(), 3);
    let s = &events[0];
    assert_eq!(s.payload, b"hello");
    assert_eq!(s.meta.urb_id, submit.urb_id);
    assert_eq!(s.meta.timestamp_ns, 1_700_000_000_123_456_000);
    assert_eq!((s.meta.bus, s.meta.device, s.meta.endpoint), (2, 5, 0x02));
    assert_eq!(s.meta.status, -115);
    assert_eq!(s.meta.requested_len, 5);
    assert!(s.requested_known && !s.identity_known);
    let c = &events[1];
    assert_eq!(c.meta.actual_len, 5);
    assert_eq!(c.meta.requested_len, 5);
    assert!(c.requested_known);
    assert_eq!(c.meta.has_data, 0);
    let k = &events[2];
    assert_eq!(k.meta.setup_present, 1);
    assert_eq!(k.meta.setup, [0x80, 6, 0, 1, 0, 0, 18, 0]);
}

#[test]
fn iso_descriptors_and_padding_read_back() {
    let meta = EventMeta {
        urb_id: 5,
        timestamp_ns: 3_000,
        transfer_type: 0,
        event_type: b'C',
        has_data: 1,
        endpoint: 0x83,
        actual_len: 3,
        payload_len: 7,
        iso_count: 2,
        error_count: 1,
        ..EventMeta::default()
    };
    let iso = vec![
        IsoDescriptor { status: -18, offset: 0, length: 2, padding: 9 },
        IsoDescriptor { status: 0, offset: 6, length: 1, padding: 0 },
    ];
    let mut writer = Writer::new();
    writer.write_event(&event(meta, iso, b"ab\0\0\0\0c")).unwrap();
    let bytes = writer.flush();
    assert_eq!(bytes.len() % 4, 0);
    let events = read_all(&bytes).unwrap();
    let e = &events[0];
    assert_eq!(e.iso.len(), 2);
    assert_eq!(e.iso[0].status, -18);
    assert_eq!(e.iso[0].padding, 0);
    assert_eq!(e.iso[1].offset, 6);
    assert_eq!(e.payload, b"ab\0\0\0\0c");
    assert_eq!(e.meta.error_count, 1);
    assert!(!e.requested_known);
}

#[test]
fn a_short_payload_is_refused() {
    let meta = EventMeta {
        transfer_type: 3,
        event_type: b'C',
        has_data: 1,
        payload_len: 4,
        ..EventMeta::default()
    };
    let mut writer = Writer::new();
    writer.flush();
    assert_eq!(
        writer.write_event(&event(meta, vec![], b"ab")).unwrap_err(),
        WriteError::PayloadShorterThanSpan
    );
    assert_eq!(writer.bytes_written(), 48);
}

#[test]
fn reader_errors() {
    let mut reader = Reader::new();
    assert_eq!(
        reader.block_length(&[6, 0, 0, 0, 32, 0, 0, 0, 0, 0, 0, 0]).unwrap_err(),
        PcapError::MissingSection
    );
    let mut shb = Writer::new().flush();
    shb[8] = 0;
    assert_eq!(reader.block_length(&shb[..12]).unwrap_err(), PcapError::InvalidByteOrderMagic);
    let mut bytes = Writer::new().flush();
    bytes[44] = 0;
    assert_eq!(read_all(&bytes).unwrap_err(), PcapError::BlockLengthMismatch);
    let mut legacy = Writer::new().flush();
    legacy.extend_from_slice(&[2, 0, 0, 0, 12, 0, 0, 0, 12, 0, 0, 0]);
    assert_eq!(read_all(&legacy).unwrap_err(), PcapError::LegacyPacketBlock);
    let mut other = Writer::new().flush();
    other.extend_from_slice(&[4, 0, 0, 0, 12, 0, 0, 0, 12, 0, 0, 0]);
    assert_eq!(read_all(&other).unwrap().len(), 0);
}

#[test]
fn big_endian_sections_are_read() {
    let mut b = Vec::new();
    b.extend_from_slice(&[10, 13, 13, 10, 0, 0, 0, 28, 26, 43, 60, 77, 0, 1, 0, 0]);
    b.extend_from_slice(&[0xff; 8]);
    b.extend_from_slice(&[0, 0, 0, 28]);
    b.extend_from_slice(&[0, 0, 0, 1, 0, 0, 0, 20, 0, 220, 0, 0, 0, 0, 0, 0, 0, 0, 0, 20]);
    let mut reader = Reader::new();
    let size = reader.block_length(&b[..12]).unwrap() as usize;
    assert_eq!(size, 28);
    assert!(reader.next_event(&b[..28]).unwrap().is_none());
    let size = reader.block_length(&b[28..40]).unwrap() as usize;
    assert_eq!(size, 20);
    assert!(reader.next_event(&b[28..48]).unwrap().is_none());
    assert_eq!(reader.incomplete(), 0);
}

#[test]
fn block_kinds_are_judged_from_the_header_before_the_body() {
    let header = Writer::new().flush();
    let mut reader = Reader::new();
    assert!(reader.next_event(&header[..28]).unwrap().is_none());
    assert!(reader.next_event(&header[28..]).unwrap().is_none());
    let legacy = [3, 0, 0, 0, 64, 0, 0, 0, 0, 0, 0, 0];
    assert_eq!(reader.next_event(&legacy).unwrap_err(), PcapError::LegacyPacketBlock);
    let short_packet = [6, 0, 0, 0, 28, 0, 0, 0, 0, 0, 0, 0];
    assert_eq!(reader.next_event(&short_packet).unwrap_err(), PcapError::ShortPacketBlock);
    let short_interface = [1, 0, 0, 0, 16, 0, 0, 0, 0, 0, 0, 0];
    assert_eq!(reader.next_event(&short_interface).unwrap_err(), PcapError::ShortInterfaceBlock);
    let truncated = [6, 0, 0, 0, 96, 0, 0, 0, 0, 0, 0, 0];
    assert_eq!(reader.next_event(&truncated).unwrap_err(), PcapError::TruncatedBlock);
}

#[test]
fn a_submission_pairs_with_one_completion() {
    let submit = EventMeta {
        urb_id: 5,
        bus: 1,
        device: 2,
        endpoint: 0x81,
        transfer_type: 3,
        event_type: b'S',
        status: -115,
        requested_len: 100,
        ..EventMeta::default()
    };
    let complete = EventMeta { event_type: b'C', status: 0, requested_len: 0, actual_len: 60, ..submit };
    let again = EventMeta { actual_len: 7, ..complete };
    let mut writer = Writer::new();
    for m in [submit, complete, again] {
        writer.write_event(&event(m, vec![], b"")).unwrap();
    }
    let events = read_all(&writer.flush()).unwrap();
    assert_eq!(events.len(), 3);
    assert!(events[0].requested_known && events[0].meta.requested_len == 100);
    assert!(events[1].requested_known && events[1].meta.requested_len == 100);
    assert_eq!(events[1].meta.actual_len, 60);
    assert!(!events[2].requested_known);
    assert_eq!((events[2].meta.requested_len, events[2].meta.actual_len), (0, 7));
}
