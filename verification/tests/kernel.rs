use phillos_core::signing::sign_token;
use phillos_core::wire::{build_request, decode_device_event, decode_sched_stats, query_ioctl_code,
    QueryKind, RawDeviceEvent};

#[test]
fn query_scheduler_parses_response() {
    let payload: u64 = ((1.25f32).to_bits() as u64) << 32 | 42;
    let stats = decode_sched_stats(payload);
    assert_eq!(stats.task_count, 42);
    assert!((f32::from_bits(stats.residual_bits) - 1.25).abs() < f32::EPSILON);
}

#[test]
fn sched_stats_exact_payload() {
    let stats = decode_sched_stats(0x3FA0_0000_0000_002A);
    assert_eq!(stats.task_count, 42);
    assert_eq!(f32::from_bits(stats.residual_bits), 1.25);
}

#[test]
fn next_device_event_returns_event() {
    let raw = RawDeviceEvent {
        added: 1,
        bus: 1,
        slot: 2,
        func: 3,
        vendor_id: 0x1234,
        device_id: 0x5678,
        class_code: 0x9,
        subclass: 0x2,
    };
    let ev = decode_device_event(1, &raw).unwrap();
    assert!(ev.added);
    assert_eq!(ev.bus, 1);
    assert_eq!(ev.slot, 2);
    assert_eq!(ev.func, 3);
    assert_eq!(ev.vendor_id, 0x1234);
    assert_eq!(ev.device_id, 0x5678);
    assert_eq!(ev.class_code, 0x9);
    assert_eq!(ev.subclass, 0x2);
}

#[test]
fn zero_payload_means_no_event() {
    let raw = RawDeviceEvent {
        added: 0,
        bus: 0,
        slot: 0,
        func: 0,
        vendor_id: 0,
        device_id: 0,
        class_code: 0,
        subclass: 0,
    };
    assert!(decode_device_event(0, &raw).is_none());
}

#[test]
fn removed_event_decodes_added_false() {
    let raw = RawDeviceEvent {
        added: 0,
        bus: 5,
        slot: 0,
        func: 1,
        vendor_id: 0xABCD,
        device_id: 0x0001,
        class_code: 0x3,
        subclass: 0x0,
    };
    let ev = decode_device_event(7, &raw).unwrap();
    assert!(!ev.added);
    assert_eq!(ev.bus, 5);
    assert_eq!(ev.vendor_id, 0xABCD);
}

#[test]
fn ioctl_code_packs_fields() {
    assert_eq!(query_ioctl_code(), 0xC028_7001);
}

#[test]
fn build_request_signs_nonce_and_code() {
    let r = build_request(QueryKind::SchedStats, 7);
    assert_eq!(r.query, 2);
    assert_eq!(r.nonce, 7);
    assert_eq!(r.signature, sign_token(7, 2));
}

#[test]
fn query_codes_match_wire_protocol() {
    assert_eq!(build_request(QueryKind::HeapUsage, 0).query, 1);
    assert_eq!(build_request(QueryKind::SchedStats, 0).query, 2);
    assert_eq!(build_request(QueryKind::AiHeapUsage, 0).query, 3);
    assert_eq!(build_request(QueryKind::NextDeviceEvent, 0).query, 4);
}

#[test]
fn sign_token_exact_value() {
    assert_eq!(sign_token(0, 0), 0xF3E5_2DF3);
}

#[test]
fn sign_token_deterministic_and_distinct() {
    assert_eq!(sign_token(42, 2), sign_token(42, 2));
    let outs = [
        sign_token(0, 0),
        sign_token(0, 1),
        sign_token(42, 2),
        sign_token(42, 4),
    ];
    for i in 0..outs.len() {
        for j in 0..outs.len() {
            if i != j {
                assert_ne!(outs[i], outs[j]);
            }
        }
    }
}
