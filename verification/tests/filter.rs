use usbscope::archive::Event;
use usbscope::filter::{Filter, FilterError};
use usbscope::wire::{EventMeta, IsoDescriptor};

fn completion(meta: EventMeta, payload: &[u8]) -> Event {
    Event {
        source_id: 0,
        meta,
        iso: vec![],
        payload: payload.to_vec(),
        identity_known: true,
        requested_known: true,
    }
}

#[test]
fn kernel_requirements_never_reject_a_matching_completion() {
    let expressions = [
        "bus 1 and (in or payload contains 0x61)",
        "bus 1 or payload contains 0x61",
        "not (bus 1 and status 0)",
        "not (bus 1 or status 0)",
        "(bus 1 and status 0) or (bus 1 and event submit)",
        "not (not in or not bulk)",
        "not (payload[0] = 0x61 or not bus 1)",
        "bus > -1 and dev & 3 != 2",
        "vid = 0x1234 and requested >= 1 and event complete",
        "status = -32 or latency > 1ms",
    ];
    for expression in expressions {
        let filter = Filter::parse(expression).unwrap();
        let kernel = filter.kernel_predicates();
        for bus in 1..=2 {
            for endpoint in [1, 0x81] {
                for status in [0, -32] {
                    for payload in *b"ab" {
                        let event = completion(
                            EventMeta {
                                bus,
                                device: 5,
                                endpoint,
                                transfer_type: 3,
                                event_type: b'C',
                                status,
                                vid: 0x1234,
                                requested_len: 1,
                                actual_len: 1,
                                payload_len: 1,
                                has_data: 1,
                                ..EventMeta::default()
                            },
                            &[payload],
                        );
                        if filter.matches(&event, Some(2_000_000)).unwrap() {
                            let submit = EventMeta {
                                event_type: b'S',
                                status: -115,
                                actual_len: 0,
                                has_data: 0,
                                payload_len: 0,
                                ..event.meta
                            };
                            assert!(
                                kernel.iter().all(|p| p.matches(&submit)),
                                "false negative: {expression} {submit:?}"
                            );
                        }
                    }
                }
            }
        }
    }
}

fn bulk_in(payload: &[u8]) -> Event {
    completion(
        EventMeta {
            bus: 1,
            device: 4,
            endpoint: 0x81,
            transfer_type: 3,
            event_type: b'C',
            status: 0,
            requested_len: 64,
            actual_len: payload.len() as u32,
            payload_len: payload.len() as u32,
            has_data: 1,
            vid: 0x1234,
            pid: 0x5678,
            ..EventMeta::default()
        },
        payload,
    )
}

fn selects(expression: &str, event: &Event) -> bool {
    Filter::parse(expression).unwrap().matches(event, None).unwrap()
}

#[test]
fn an_empty_filter_selects_everything() {
    let event = bulk_in(b"x");
    assert!(selects("", &event));
    assert!(selects("  \t\n", &event));
    assert!(Filter::parse("").unwrap().kernel_predicates().is_empty());
}

#[test]
fn precedence_is_not_then_and_then_or() {
    let event = bulk_in(b"x");
    assert!(selects("bus 2 and dev 9 or bulk", &event));
    assert!(!selects("bus 2 and (dev 9 or bulk)", &event));
    assert!(selects("not bus 2 and bulk", &event));
    assert!(!selects("not (bus 1 and bulk)", &event));
    assert!(selects("! bus 2 && in || out", &event));
}

#[test]
fn adjacent_predicates_imply_and() {
    let event = bulk_in(b"x");
    assert!(selects("bus 1 in bulk", &event));
    assert!(!selects("bus 1 out bulk", &event));
}

#[test]
fn omitted_comparison_means_equality() {
    let event = bulk_in(b"x");
    assert!(selects("vid 0x1234", &event));
    assert!(selects("vid = 0x1234", &event));
    assert!(selects("vid == 4660", &event));
    assert!(!selects("vid 0x1235", &event));
    assert!(selects("pid >= 0x5678 and pid <= 0x5678 and pid != 1 and pid > 1 and pid < 0x10000", &event));
}

#[test]
fn masks_and_signed_status() {
    let mut event = bulk_in(b"x");
    event.meta.status = -32;
    assert!(selects("status -32", &event));
    assert!(selects("status < 0", &event));
    assert!(selects("ep & 0x0f = 1", &event));
    assert!(selects("epnum 1 and dir in", &event));
}

#[test]
fn unknown_never_matches_even_under_not() {
    let mut event = bulk_in(b"x");
    event.identity_known = false;
    assert!(!selects("vid 0x1234", &event));
    assert!(!selects("not vid 0x1234", &event));
    assert!(!selects("not not vid 0x1234", &event));
    assert!(selects("vid 1 or bulk", &event));
    assert!(!selects("vid 1 and bulk", &event));
    event.meta.event_type = b'S';
    assert!(!selects("actual 1", &event));
    assert!(!selects("latency > 1", &event));
}

#[test]
fn latency_units() {
    let event = bulk_in(b"x");
    let filter = Filter::parse("latency >= 2ms").unwrap();
    assert!(filter.needs_latency());
    assert!(filter.matches(&event, Some(2_000_000)).unwrap());
    assert!(!filter.matches(&event, Some(1_999_999)).unwrap());
    assert!(!filter.matches(&event, None).unwrap());
    assert!(Filter::parse("latency > 1s").unwrap().matches(&event, Some(1_000_000_001)).unwrap());
    assert!(Filter::parse("latency = 3us").unwrap().matches(&event, Some(3000)).unwrap());
    assert!(Filter::parse("latency = 5ns").unwrap().matches(&event, Some(5)).unwrap());
    assert!(Filter::parse("latency = 7").unwrap().matches(&event, Some(7)).unwrap());
    assert!(!Filter::parse("bus 1").unwrap().needs_latency());
}

#[test]
fn payload_extraction_is_big_endian() {
    let event = bulk_in(&[0x55, 0x53, 0x42, 0x43, 0x01]);
    assert!(selects("payload[0:4] == 0x55534243", &event));
    assert!(selects("payload[1:2] = 0x5342", &event));
    assert!(selects("payload[4] = 1", &event));
    assert!(!selects("payload[4:2] = 1", &event));
    assert!(!selects("not payload[4:2] = 1", &event));
}

#[test]
fn payload_contains_text_and_hex() {
    let event = bulk_in(b"say hello!");
    assert!(selects("payload contains \"hello\"", &event));
    assert!(selects("payload contains 'o!'", &event));
    assert!(selects("payload contains 0x68656c6c6f", &event));
    assert!(!selects("payload contains 0x+6+8", &event));
    assert!(selects("payload contains 0x+6+8", &bulk_in(&[1, 6, 8, 2])));
    assert!(!selects("payload contains \"help\"", &event));
    let mut empty = bulk_in(b"");
    empty.meta.has_data = 0;
    assert!(!selects("payload contains 0x00", &empty));
    assert!(!selects("not payload contains 0x00", &empty));
}

#[test]
fn iso_contains_searches_each_frame_alone() {
    let mut event = bulk_in(b"abXXcd");
    event.meta.transfer_type = 0;
    event.iso = vec![
        IsoDescriptor { status: 0, offset: 0, length: 2, padding: 0 },
        IsoDescriptor { status: 0, offset: 4, length: 2, padding: 0 },
    ];
    assert!(selects("payload contains \"ab\"", &event));
    assert!(selects("payload contains \"cd\"", &event));
    assert!(!selects("payload contains \"bc\"", &event));
    assert!(!selects("payload contains \"XX\"", &event));
    assert!(!selects("payload[2] = 0x58", &event));
    assert!(selects("payload[4] = 0x63", &event));
}

#[test]
fn setup_fields_are_little_endian() {
    let mut event = bulk_in(b"");
    event.meta.transfer_type = 2;
    event.meta.setup_present = 1;
    event.meta.setup = [0x80, 6, 0, 1, 0, 0, 18, 0];
    assert!(selects("control and setup.request 6 and setup.value & 0xff00 = 0x0100", &event));
    assert!(selects("setup.type 0x80 and setup.index 0 and setup.length 18", &event));
    event.meta.setup_present = 0;
    assert!(!selects("setup.request 6", &event));
}

#[test]
fn parse_errors_name_the_problem() {
    let cases: [(&str, FilterError); 19] = [
        ("bus 1 and", FilterError::UnexpectedEnd),
        ("bus 1 )", FilterError::UnexpectedToken),
        ("(bus 1", FilterError::ExpectedCloseParen),
        ("payload 0", FilterError::ExpectedOpenBracket),
        ("payload[0 = 1", FilterError::ExpectedCloseBracket),
        ("colour 1", FilterError::UnknownField),
        ("payload contains abc", FilterError::PatternNotHex),
        ("payload contains 0xabc", FilterError::OddHexPattern),
        ("payload contains 0xzz", FilterError::InvalidHexPattern),
        ("payload contains 0x", FilterError::EmptyPattern),
        ("payload contains ''", FilterError::EmptyPattern),
        ("payload[-1] = 1", FilterError::InvalidPayloadOffset),
        ("payload[0:3] = 1", FilterError::InvalidPayloadWidth),
        ("payload[0:300] = 1", FilterError::InvalidPayloadWidth),
        ("bus & -1 = 1", FilterError::InvalidMask),
        ("bus 0xg", FilterError::InvalidHexNumber),
        ("bus one", FilterError::InvalidNumber),
        ("bus 18446744073709551616", FilterError::NumberOutOfRange),
        ("bus \"1", FilterError::UnterminatedQuote),
    ];
    for (expression, error) in cases {
        assert_eq!(Filter::parse(expression).unwrap_err(), error, "{expression}");
    }
    assert_eq!(Filter::parse("bus \"\\").unwrap_err(), FilterError::UnfinishedEscape);
    assert_eq!(
        Filter::parse("bus 1000000000000000000000000000000000000000").unwrap_err(),
        FilterError::InvalidNumber
    );
    assert_eq!(
        Filter::parse("bus 0x10000000000000000").unwrap_err(),
        FilterError::InvalidHexNumber
    );
}

#[test]
fn nesting_is_bounded() {
    let deep = format!("{}bus 1{}", "(".repeat(127), ")".repeat(127));
    assert!(Filter::parse(&deep).is_ok());
    let deeper = format!("{}bus 1{}", "(".repeat(128), ")".repeat(128));
    assert_eq!(Filter::parse(&deeper).unwrap_err(), FilterError::NestingTooDeep);
    let nots = format!("{}bus 1", "not ".repeat(200));
    assert_eq!(Filter::parse(&nots).unwrap_err(), FilterError::NestingTooDeep);
}

#[test]
fn long_flat_expressions_parse_and_evaluate() {
    let event = bulk_in(b"x");
    let many = vec!["bus 2"; 5000].join(" or ") + " or bus 1";
    assert!(selects(&many, &event));
    let all = vec!["bulk"; 5000].join(" and ");
    assert!(selects(&all, &event));
}

#[test]
fn only_stable_necessary_predicates_reach_the_kernel() {
    assert_eq!(Filter::parse("bus 1 or payload contains 0x61").unwrap().kernel_predicates().len(), 0);
    let kernel = Filter::parse("bus 1 and dev 2 and status 0").unwrap().kernel_predicates();
    assert_eq!(kernel.len(), 2);
    assert_eq!((kernel[0].field, kernel[0].value, kernel[0].comparison), (1, 1, 0));
    assert_eq!((kernel[1].field, kernel[1].value, kernel[1].mask), (2, 2, u64::MAX));
    let negated = Filter::parse("not bus > 3").unwrap().kernel_predicates();
    assert_eq!((negated[0].field, negated[0].comparison, negated[0].value), (1, 3, 3));
    let masked = Filter::parse("dev & 3 != 2").unwrap().kernel_predicates();
    assert_eq!((masked[0].mask, masked[0].comparison), (3, 1));
    assert!(Filter::parse("bus < -1").unwrap().kernel_predicates().is_empty());
    let many = vec!["bus 1"; 100]
        .iter()
        .enumerate()
        .map(|(i, _)| format!("dev != {i}"))
        .collect::<Vec<_>>()
        .join(" and ");
    assert_eq!(Filter::parse(&many).unwrap().kernel_predicates().len(), 64);
}

#[test]
fn missing_payload_bytes_are_an_error() {
    let mut event = bulk_in(b"ab");
    event.meta.payload_len = 4;
    assert_eq!(
        Filter::parse("payload[3] = 0").unwrap().matches(&event, None).unwrap_err(),
        FilterError::PayloadUnavailable
    );
}

#[test]
fn empty_iso_frames_past_the_payload_are_searched_without_error() {
    let mut event = bulk_in(b"abcd");
    event.meta.transfer_type = 0;
    event.iso = vec![
        IsoDescriptor { status: 0, offset: 0, length: 4, padding: 0 },
        IsoDescriptor { status: 0, offset: 64, length: 0, padding: 0 },
    ];
    assert!(!selects("payload contains \"xyz\"", &event));
    assert!(selects("payload contains \"cd\"", &event));
}

#[test]
fn payload_search_reads_whole_blocks_until_one_is_missing() {
    let mut payload = vec![0u8; 20000];
    payload[10..13].copy_from_slice(b"abc");
    payload[17000..17003].copy_from_slice(b"xyz");
    let mut event = bulk_in(&payload);
    event.meta.payload_len = 40000;
    assert!(selects("payload contains \"abc\"", &event));
    assert_eq!(
        Filter::parse("payload contains \"xyz\"").unwrap().matches(&event, None).unwrap_err(),
        FilterError::PayloadUnavailable
    );
    event.meta.payload_len = 20000;
    assert!(selects("payload contains \"xyz\"", &event));
    assert!(!selects("payload contains \"qqq\"", &event));
}

/// Events that differ in every field the two filters below read.
fn sample_events() -> Vec<Event> {
    let mut events = Vec::new();
    for bus in [1u16, 2] {
        for device in [2u8, 3] {
            for endpoint in [0x01u8, 0x81] {
                for transfer_type in [2u8, 3] {
                    for event_type in [b'S', b'C'] {
                        for (vid, pid) in [(0x1234u16, 0x5678u16), (0x1234, 1), (7, 0x5678)] {
                            let mut e = bulk_in(b"");
                            e.meta.bus = bus;
                            e.meta.device = device;
                            e.meta.endpoint = endpoint;
                            e.meta.transfer_type = transfer_type;
                            e.meta.event_type = event_type;
                            e.meta.vid = vid;
                            e.meta.pid = pid;
                            events.push(e);
                        }
                    }
                }
            }
        }
    }
    events
}

#[test]
fn not_binds_tighter_than_and_and_and_than_or() {
    let f = Filter::parse("bus 1 or not dev 2 and in").unwrap();
    let g = Filter::parse("bus 1 or ((not dev 2) and in)").unwrap();
    let h = Filter::parse("(bus 1 or not dev 2) and in").unwrap();
    for e in sample_events() {
        assert_eq!(f.matches(&e, None), g.matches(&e, None));
    }
    let mut e = bulk_in(b"");
    e.meta.bus = 1;
    e.meta.device = 2;
    e.meta.endpoint = 0x01;
    assert!(f.matches(&e, None).unwrap());
    assert!(!h.matches(&e, None).unwrap());
}

#[test]
fn adjacent_terms_and_shorthands_mean_the_same() {
    let f = Filter::parse("vid 0x1234 pid 22136 dir in type bulk event S").unwrap();
    let g = Filter::parse("vid == 4660 and pid = 0x5678 && in && bulk and event submit").unwrap();
    let mut selected = 0;
    for e in sample_events() {
        assert_eq!(f.matches(&e, None), g.matches(&e, None));
        if f.matches(&e, None).unwrap() {
            selected += 1;
        }
    }
    assert_eq!(selected, 4);
}

#[test]
fn nesting_is_bounded_and_flat_chains_are_not_nested() {
    let nots = |n: usize| format!("{}bus 1", "not ".repeat(n));
    let parens = |n: usize| format!("{}bus 1{}", "(".repeat(n), ")".repeat(n));
    assert!(Filter::parse(&nots(127)).is_ok());
    assert_eq!(Filter::parse(&nots(128)).unwrap_err(), FilterError::NestingTooDeep);
    assert!(Filter::parse(&parens(127)).is_ok());
    assert_eq!(Filter::parse(&parens(128)).unwrap_err(), FilterError::NestingTooDeep);
    let chain = vec!["bus 1"; 5000].join(" or ");
    assert!(Filter::parse(&chain).is_ok());
    let mut event = bulk_in(b"");
    event.meta.bus = 1;
    assert!(Filter::parse(&chain).unwrap().matches(&event, None).unwrap());
}

#[test]
fn a_filter_and_its_negation_never_both_select() {
    let mut event = bulk_in(b"");
    event.identity_known = false;
    let f = Filter::parse("vid 0x1234").unwrap();
    let g = Filter::parse("not (vid 0x1234)").unwrap();
    assert_eq!(f.matches(&event, None), Ok(false));
    assert_eq!(g.matches(&event, None), Ok(false));
    for e in sample_events() {
        for s in ["bus 1 or not dev 2 and in", "vid 0x1234 pid 22136", "event S"] {
            let f = Filter::parse(s).unwrap();
            let g = Filter::parse(&format!("not ({s})")).unwrap();
            assert!(!(f.matches(&e, None) == Ok(true) && g.matches(&e, None) == Ok(true)));
        }
    }
}
