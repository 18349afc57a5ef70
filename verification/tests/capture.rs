use usbscope::archive::Event;
use usbscope::audio::IsoStats;
use usbscope::bpf::{check_object, validate_object, BpfError, ObjectFacts};
use usbscope::devices::descriptor_hex;
use usbscope::live::{
    capture_settings, epoch_offset, giveback_range, kernel_record_size, ring_bytes, total_stats,
    LiveError, Options, StopState, STOP_GRACE_NS,
};
use usbscope::output::{rotated_path, CaptureOutput, OutputError};
use usbscope::wire::{ByteOrder, CaptureStats, EventMeta, IsoDescriptor, SgMemory, BPF_BUILD_MAGIC};

fn event_at(timestamp_ns: u64, payload_len: u32) -> Event {
    Event {
        source_id: 0,
        meta: EventMeta {
            timestamp_ns,
            transfer_type: 3,
            event_type: b'C',
            has_data: u8::from(payload_len > 0),
            payload_len,
            ..EventMeta::default()
        },
        iso: vec![],
        payload: vec![7; payload_len as usize],
        identity_known: true,
        requested_known: true,
    }
}

#[test]
fn rotated_names_are_zero_padded() {
    assert_eq!(rotated_path("cap.pcapng", 0), "cap.pcapng.000000");
    assert_eq!(rotated_path("cap.pcapng", 42), "cap.pcapng.000042");
    assert_eq!(rotated_path("x", 1234567), "x.1234567");
    assert_eq!(rotated_path("x", u32::MAX), "x.4294967295");
}

#[test]
fn output_settings_are_checked() {
    assert_eq!(CaptureOutput::new("-", Some(10), None, None).err(), Some(OutputError::RotationNeedsPath));
    assert_eq!(
        CaptureOutput::new("out", None, None, Some(3)).err(),
        Some(OutputError::FileCountNeedsRotation)
    );
    assert_eq!(CaptureOutput::new("out", Some(0), None, None).err(), Some(OutputError::ZeroLimit));
    assert_eq!(CaptureOutput::new("out", None, Some(5), Some(0)).err(), Some(OutputError::ZeroLimit));
    let plain = CaptureOutput::new("-", None, None, None).unwrap();
    assert_eq!(plain.path(), "-");
}

#[test]
fn size_rotation_starts_new_files_and_stops_at_the_file_limit() {
    let mut out = CaptureOutput::new("cap", Some(100), None, Some(2)).unwrap();
    assert_eq!(out.path(), "cap.000000");
    assert_eq!(out.flush().len(), 48);
    assert!(out.write(&event_at(1, 40)).unwrap());
    assert_eq!(out.file_index(), 0);
    let first = out.flush();
    assert!(first.len() > 100 - 48);
    assert!(out.write(&event_at(2, 4)).unwrap());
    assert_eq!(out.file_index(), 1);
    assert_eq!(out.path(), "cap.000001");
    assert!(out.take_retired().is_empty());
    let second = out.flush();
    assert_eq!(&second[0..4], &[0x0a, 0x0d, 0x0d, 0x0a]);
    assert!(!out.write(&event_at(3, 100)).unwrap());
    assert_eq!(out.file_index(), 1);
    assert!(out.flush().is_empty());
}

#[test]
fn time_rotation_uses_event_timestamps() {
    let mut out = CaptureOutput::new("t", None, Some(2), None).unwrap();
    assert_eq!((out.bytes_written(), out.events()), (48, 0));
    assert!(out.write(&event_at(10_000_000_000, 0)).unwrap());
    assert!(out.write(&event_at(11_999_999_999, 0)).unwrap());
    assert_eq!(out.file_index(), 0);
    assert_eq!(out.events(), 2);
    assert!(out.write(&event_at(12_000_000_000, 0)).unwrap());
    assert_eq!(out.file_index(), 1);
    assert_eq!(out.events(), 1);
    assert_eq!(out.bytes_written(), 48 + 96);
    assert!(out.write(&event_at(5, 0)).unwrap());
    assert_eq!(out.file_index(), 1);
}

#[test]
fn untaken_bytes_of_a_finished_file_are_kept() {
    let mut out = CaptureOutput::new("k", Some(1), None, None).unwrap();
    assert!(out.write(&event_at(1, 1)).unwrap());
    assert!(out.write(&event_at(2, 1)).unwrap());
    let retired = out.take_retired();
    assert_eq!(&retired[0..4], &[0x0a, 0x0d, 0x0d, 0x0a]);
    assert!(retired.len() > 48);
}

fn iso_completion(timestamp_ns: u64, status: i32, frames: &[(i32, u32)]) -> Event {
    Event {
        source_id: 1,
        meta: EventMeta {
            timestamp_ns,
            bus: 3,
            device: 4,
            endpoint: 0x84,
            transfer_type: 0,
            event_type: b'C',
            status,
            ..EventMeta::default()
        },
        iso: frames
            .iter()
            .map(|&(status, length)| IsoDescriptor { status, offset: 0, length, padding: 0 })
            .collect(),
        payload: vec![],
        identity_known: true,
        requested_known: true,
    }
}

#[test]
fn iso_statistics_per_endpoint() {
    let mut stats = IsoStats::new();
    stats.observe(&iso_completion(1_000, 0, &[(0, 192), (-18, 0)]));
    stats.observe(&iso_completion(4_000, -71, &[(0, 96)]));
    stats.observe(&iso_completion(5_000, 0, &[]));
    let mut submit = iso_completion(9_000, 0, &[(0, 1)]);
    submit.meta.event_type = b'S';
    stats.observe(&submit);
    let mut bulk = iso_completion(9_000, 0, &[]);
    bulk.meta.transfer_type = 3;
    stats.observe(&bulk);
    let mut other = iso_completion(2_000, 0, &[(0, 8)]);
    other.meta.device = 2;
    stats.observe(&other);
    let report = stats.report();
    assert_eq!(report.len(), 2);
    assert_eq!(report[0].0, (1, 3, 2, 0x84));
    let (key, ep) = report[1];
    assert_eq!(key, (1, 3, 4, 0x84));
    assert_eq!((ep.urbs, ep.frames, ep.bytes), (3, 3, 288));
    assert_eq!((ep.frame_errors, ep.urb_errors, ep.empty_frames), (1, 1, 1));
    assert_eq!(ep.max_gap_ns, 3_000);
    assert_eq!(ep.previous_ns, Some(5_000));
}

#[test]
fn ring_size_rules() {
    assert_eq!(ring_bytes(4, 4096), Ok(4096));
    assert_eq!(ring_bytes(16384, 4096), Ok(16 * 1024 * 1024));
    assert_eq!(ring_bytes(3, 4096), Err(LiveError::InvalidRingSize));
    assert_eq!(ring_bytes(2, 4096), Err(LiveError::InvalidRingSize));
    assert_eq!(ring_bytes(0, 4096), Err(LiveError::InvalidRingSize));
    assert_eq!(ring_bytes(1 << 23, 4096), Err(LiveError::RingSizeOverflow));
}

#[test]
fn giveback_range_from_kernel_symbols() {
    let symbols = "ffffffff81000000 T _stext\n\
                   ffffffff81a00100 t __usb_hcd_giveback_urb\t[usbcore]\n\
                   ffffffff81a00300 d some_data\n\
                   ffffffff81a00200 T usb_hcd_giveback_urb\n\
                   ffffffff81a00400 T later\n";
    assert_eq!(giveback_range(symbols), Ok((0xffffffff81a00100, 0xffffffff81a00200)));
    let redacted = "0000000000000000 t __usb_hcd_giveback_urb\n0000000000000000 T next\n";
    assert_eq!(giveback_range(redacted), Err(LiveError::GivebackUnavailable));
    assert_eq!(giveback_range("ffff T other\n"), Err(LiveError::GivebackUnavailable));
    assert_eq!(
        giveback_range("10 t __usb_hcd_giveback_urb\n5 T lower\n10 D data\n"),
        Err(LiveError::NoCompletionBoundary)
    );
}

#[test]
fn clocks_records_and_counters() {
    assert_eq!(epoch_offset(100, 5, 3, 2), 97_000_000_003);
    assert_eq!(epoch_offset(1, 0, 2, 0), 0u64.wrapping_sub(1_000_000_000));
    let mut item = vec![0u8; 40];
    item[4] = 32;
    assert_eq!(kernel_record_size(&item), Ok(32));
    assert_eq!(kernel_record_size(&item[..20]), Err(LiveError::ShortKernelRecord));
    item[4] = 41;
    assert_eq!(kernel_record_size(&item), Err(LiveError::InvalidKernelRecordLength));
    let cpu = CaptureStats { submitted: 2, completed: 1, sg_events: 4, ..CaptureStats::default() };
    let total = total_stats(&[cpu, cpu, cpu]);
    assert_eq!((total.submitted, total.completed, total.sg_events, total.ring_losses), (6, 3, 12, 0));
    let mut options = Options {
        object: "usbscope.bpf.o".to_string(),
        ring_kib: 4096,
        bus: 0,
        device: None,
        duration_ns: None,
        ready_file: None,
    };
    let settings = capture_settings(9, (1, 2), SgMemory::default(), &options, true);
    assert_eq!((settings.device, settings.enabled, settings.giveback_end), (u32::MAX, 1, 2));
    options.bus = 1;
    options.device = Some(7);
    let settings = capture_settings(9, (1, 2), SgMemory::default(), &options, false);
    assert_eq!((settings.bus, settings.device, settings.enabled), (1, 7, 0));
}

#[test]
fn a_capture_times_out_only_when_given_a_duration() {
    let mut options = Options {
        object: String::new(),
        ring_kib: 4,
        bus: 1,
        device: None,
        duration_ns: None,
        ready_file: None,
    };
    assert!(!options.timed_out(u64::MAX));
    options.duration_ns = Some(30_000_000_000);
    assert!(!options.timed_out(29_999_999_999));
    assert!(options.timed_out(30_000_000_000));
}

#[test]
fn stopping_happens_once_then_waits_for_the_grace_period() {
    let mut stop = StopState::new();
    assert!(!stop.check(false, false, 10));
    stop.record(false);
    stop.record(true);
    stop.record(false);
    assert!(!stop.finished(u64::MAX));
    assert!(stop.check(false, false, 1_000));
    assert_eq!(stop.stopped_at_ns, 1_000);
    assert!(!stop.check(true, true, 5_000));
    assert_eq!(stop.stopped_at_ns, 1_000);
    assert!(!stop.finished(1_000 + STOP_GRACE_NS - 1));
    assert!(stop.finished(1_000 + STOP_GRACE_NS));
    let mut interrupted = StopState::new();
    assert!(interrupted.check(true, false, 0));
}

#[test]
fn bpf_build_records_are_checked() {
    assert_eq!(validate_object(b"not an object", 62, ByteOrder::Little), Err(BpfError::NotAnObject));
    let mut info = BPF_BUILD_MAGIC.to_vec();
    info.extend_from_slice(&62u32.to_le_bytes());
    info.extend_from_slice(&72u32.to_le_bytes());
    let facts = |build_info| Some(ObjectFacts { bpf: true, little_endian: true, build_info });
    assert_eq!(check_object(&facts(Some(Some(info.clone()))), 62, ByteOrder::Little), Ok(()));
    assert_eq!(check_object(&facts(Some(Some(info.clone()))), 183, ByteOrder::Little), Err(BpfError::ArchitectureMismatch));
    assert_eq!(check_object(&facts(None), 62, ByteOrder::Little), Err(BpfError::MissingBuildInfo));
    assert_eq!(check_object(&facts(Some(None)), 62, ByteOrder::Little), Err(BpfError::UnreadableBuildInfo));
    let mut wrong_size = info.clone();
    wrong_size[12] = 80;
    assert_eq!(check_object(&facts(Some(Some(wrong_size))), 62, ByteOrder::Little), Err(BpfError::ConfigAbiMismatch));
    let mut wrong_magic = info.clone();
    wrong_magic[0] = 0;
    assert_eq!(check_object(&facts(Some(Some(wrong_magic))), 62, ByteOrder::Little), Err(BpfError::InvalidBuildInfo));
    let not_bpf = Some(ObjectFacts { bpf: false, little_endian: true, build_info: None });
    assert_eq!(check_object(&not_bpf, 62, ByteOrder::Little), Err(BpfError::NotHostOrderBpf));
    assert_eq!(check_object(&None, 62, ByteOrder::Little), Err(BpfError::NotAnObject));
    let big = Some(ObjectFacts {
        bpf: true,
        little_endian: false,
        build_info: Some(Some(info.clone())),
    });
    assert_eq!(check_object(&big, 62, ByteOrder::Big), Ok(()));
    assert_eq!(check_object(&big, 62, ByteOrder::Little), Err(BpfError::NotHostOrderBpf));
    assert_eq!(check_object(&facts(Some(Some(info.clone()))), 62, ByteOrder::Big), Err(BpfError::NotHostOrderBpf));
}

#[test]
fn descriptors_as_hex() {
    assert_eq!(descriptor_hex(&[0x12, 0x01, 0x00, 0x02, 0xff]), "12010002ff");
    assert_eq!(descriptor_hex(&[]), "");
}

/// A minimal little-endian ELF64 relocatable object for `machine` with one
/// `.usbscope` section holding `info`.
fn elf_object(machine: u16, info: &[u8]) -> Vec<u8> {
    let names = b"\0.usbscope\0.shstrtab\0";
    let data_at = 64u64;
    let names_at = data_at + info.len() as u64;
    let headers_at = (names_at + names.len() as u64 + 7) / 8 * 8;
    let mut elf = vec![0x7f, b'E', b'L', b'F', 2, 1, 1, 0, 0, 0, 0, 0, 0, 0, 0, 0];
    elf.extend_from_slice(&1u16.to_le_bytes());
    elf.extend_from_slice(&machine.to_le_bytes());
    elf.extend_from_slice(&1u32.to_le_bytes());
    elf.extend_from_slice(&0u64.to_le_bytes());
    elf.extend_from_slice(&0u64.to_le_bytes());
    elf.extend_from_slice(&headers_at.to_le_bytes());
    elf.extend_from_slice(&0u32.to_le_bytes());
    for half in [64u16, 0, 0, 64, 3, 2] {
        elf.extend_from_slice(&half.to_le_bytes());
    }
    elf.extend_from_slice(info);
    elf.extend_from_slice(names);
    elf.resize(headers_at as usize, 0);
    let section = |name: u32, kind: u32, offset: u64, size: u64| {
        let mut h = Vec::new();
        h.extend_from_slice(&name.to_le_bytes());
        h.extend_from_slice(&kind.to_le_bytes());
        h.extend_from_slice(&[0; 16]);
        h.extend_from_slice(&offset.to_le_bytes());
        h.extend_from_slice(&size.to_le_bytes());
        h.extend_from_slice(&[0; 8]);
        h.extend_from_slice(&1u64.to_le_bytes());
        h.extend_from_slice(&0u64.to_le_bytes());
        h
    };
    elf.extend_from_slice(&[0; 64]);
    elf.extend_from_slice(&section(1, 1, data_at, info.len() as u64));
    elf.extend_from_slice(&section(11, 3, names_at, names.len() as u64));
    elf
}

#[test]
fn parsed_objects_are_judged_by_their_build_record() {
    let mut info = BPF_BUILD_MAGIC.to_vec();
    info.extend_from_slice(&62u32.to_le_bytes());
    info.extend_from_slice(&72u32.to_le_bytes());
    assert_eq!(validate_object(&elf_object(247, &info), 62, ByteOrder::Little), Ok(()));
    assert_eq!(validate_object(&elf_object(247, &info), 183, ByteOrder::Little), Err(BpfError::ArchitectureMismatch));
    assert_eq!(validate_object(&elf_object(62, &info), 62, ByteOrder::Little), Err(BpfError::NotHostOrderBpf));
    assert_eq!(validate_object(&elf_object(247, &info[..12]), 62, ByteOrder::Little), Err(BpfError::InvalidBuildInfo));
    assert_eq!(validate_object(&elf_object(247, &info), 62, ByteOrder::Big), Err(BpfError::NotHostOrderBpf));
}
