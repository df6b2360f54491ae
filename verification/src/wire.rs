//! The kernel query bridge's wire protocol: the device-control code, the
//! request structure with its authenticity tag, and the decoders for the two
//! structured response kinds.
//!
//! Both sides of the device boundary share one fixed-layout aggregate. Its
//! exact size enters the device-control code, so the two sides agree byte for
//! byte; `WIRE_SIZE` documents that size and the byte layout is spelled out
//! beside it. The blocking call itself is raw I/O and lives outside the
//! verified library; it hands the 64-bit response payload (and, for device
//! events, the shared event area) back to the decoders here.

use vstd::prelude::*;
use crate::signing::{sign_spec, sign_token};

verus! {

/// Query code: heap usage of the kernel allocator.
pub const KERNEL_QUERY_HEAP_USAGE: u32 = 1;

/// Query code: scheduler statistics.
pub const KERNEL_QUERY_SCHED_STATS: u32 = 2;

/// Query code: heap usage of the in-kernel inference service.
pub const KERNEL_QUERY_AI_HEAP_USAGE: u32 = 3;

/// Query code: drain one pending hot-plug device event.
pub const KERNEL_QUERY_NEXT_DEVICE_EVENT: u32 = 4;

/// The four supported query kinds.
#[derive(Clone, Copy, Debug, PartialEq, Eq, Structural)]
pub enum QueryKind {
    HeapUsage,
    SchedStats,
    AiHeapUsage,
    NextDeviceEvent,
}

/// The wire code of a query kind.
pub open spec fn query_code_spec(kind: QueryKind) -> u32 {
    match kind {
        QueryKind::HeapUsage => KERNEL_QUERY_HEAP_USAGE,
        QueryKind::SchedStats => KERNEL_QUERY_SCHED_STATS,
        QueryKind::AiHeapUsage => KERNEL_QUERY_AI_HEAP_USAGE,
        QueryKind::NextDeviceEvent => KERNEL_QUERY_NEXT_DEVICE_EVENT,
    }
}

/// Maps a query kind to its wire code.
pub fn query_code(kind: QueryKind) -> (r: u32)
    ensures
        r == query_code_spec(kind),
{
    match kind {
        QueryKind::HeapUsage => KERNEL_QUERY_HEAP_USAGE,
        QueryKind::SchedStats => KERNEL_QUERY_SCHED_STATS,
        QueryKind::AiHeapUsage => KERNEL_QUERY_AI_HEAP_USAGE,
        QueryKind::NextDeviceEvent => KERNEL_QUERY_NEXT_DEVICE_EVENT,
    }
}

/// The outbound half of the wire aggregate: query code, nonce, signature.
/// On the wire each field is a little-endian `u32`, in this order.
pub struct QueryRequest {
    pub query: u32,
    pub nonce: u32,
    pub signature: u32,
}

/// Builds the request for one query: the kind's wire code, the caller's
/// nonce (wall-clock derived by the unverified caller; it need only vary
/// call to call), and the signature binding the two together.
pub fn build_request(kind: QueryKind, nonce: u32) -> (r: QueryRequest)
    ensures
        r.query == query_code_spec(kind),
        r.nonce == nonce,
        r.signature == sign_spec(nonce, query_code_spec(kind)),
{
    let query = query_code(kind);
    let signature = sign_token(nonce, query);
    QueryRequest { query, nonce, signature }
}

/// Size in bytes of the shared wire aggregate, which the device-control code
/// embeds. Layout (C layout rules, 8-byte aligned, 40 bytes total):
///
/// | offset | width | field                                  |
/// |--------|-------|----------------------------------------|
/// |      0 |     4 | request.query                          |
/// |      4 |     4 | request.nonce                          |
/// |      8 |     4 | request.signature                      |
/// |     12 |     4 | padding (response aligned to 8)        |
/// |     16 |     8 | response.result                        |
/// |     24 |     1 | event.added                            |
/// |     25 |     1 | padding (device aligned to 2)          |
/// |     26 |     1 | event.device.bus                       |
/// |     27 |     1 | event.device.slot                      |
/// |     28 |     1 | event.device.func                      |
/// |     29 |     1 | padding (vendor_id aligned to 2)       |
/// |     30 |     2 | event.device.vendor_id                 |
/// |     32 |     2 | event.device.device_id                 |
/// |     34 |     1 | event.device.class_code                |
/// |     35 |     1 | event.device.subclass                  |
/// |     36 |     4 | padding (aggregate rounded to 8)       |
pub const WIRE_SIZE: u64 = 40;

/// Bit positions of the four fields packed into a device-control code.
pub const IOC_NRSHIFT: u64 = 0;

/// See `IOC_NRSHIFT`.
pub const IOC_TYPESHIFT: u64 = 8;

/// See `IOC_NRSHIFT`.
pub const IOC_SIZESHIFT: u64 = 16;

/// See `IOC_NRSHIFT`.
pub const IOC_DIRSHIFT: u64 = 30;

/// Direction bit: the call writes data to the kernel.
pub const IOC_WRITE: u64 = 1;

/// Direction bit: the call reads data from the kernel.
pub const IOC_READ: u64 = 2;

/// Type tag of the query device's control call: the byte `p`.
pub const QUERY_IOC_TYPE: u64 = 112;

/// Sequence number of the query control call.
pub const QUERY_IOC_NR: u64 = 1;

/// A device-control code: direction, type tag, sequence number and argument
/// size packed into one word.
pub open spec fn ioc_spec(dir: u64, t: u64, nr: u64, size: u64) -> u64 {
    (dir << IOC_DIRSHIFT) | (t << IOC_TYPESHIFT) | (nr << IOC_NRSHIFT) | (size << IOC_SIZESHIFT)
}

/// Packs a device-control code from its four fields.
pub fn ioc(dir: u64, t: u64, nr: u64, size: u64) -> (r: u64)
    ensures
        r == ioc_spec(dir, t, nr, size),
{
    (dir << IOC_DIRSHIFT) | (t << IOC_TYPESHIFT) | (nr << IOC_NRSHIFT) | (size << IOC_SIZESHIFT)
}

/// Packs a read-write device-control code.
pub fn iowr(t: u64, nr: u64, size: u64) -> (r: u64)
    ensures
        r == ioc_spec(IOC_READ | IOC_WRITE, t, nr, size),
{
    ioc(IOC_READ | IOC_WRITE, t, nr, size)
}

/// The device-control code of the query call: read-write direction, type `p`,
/// sequence number 1, and the exact size of the wire aggregate. A size
/// mismatch between the two sides is a protocol-breaking change.
pub fn query_ioctl_code() -> (r: u64)
    ensures
        r == ioc_spec(IOC_READ | IOC_WRITE, QUERY_IOC_TYPE, QUERY_IOC_NR, WIRE_SIZE),
{
    iowr(QUERY_IOC_TYPE, QUERY_IOC_NR, WIRE_SIZE)
}

/// Scheduler statistics, decoded. The residual metric travels as the bit
/// pattern of an IEEE-754 single-precision float; it is handed on as raw
/// bits, and reinterpreting them is the unverified caller's step.
pub struct SchedStats {
    pub task_count: u32,
    pub residual_bits: u32,
}

/// The low half of a scheduler-stats payload: the unsigned task count.
pub open spec fn sched_task_count(payload: u64) -> u32 {
    (payload & 0xFFFF_FFFF) as u32
}

/// The high half of a scheduler-stats payload: the residual's float bits.
pub open spec fn sched_residual_bits(payload: u64) -> u32 {
    (payload >> 32) as u32
}

/// Decodes a scheduler-stats payload: the low 32 bits are the task count,
/// the high 32 bits the residual's bit pattern. Any bit pattern is accepted;
/// no payload is rejected.
pub fn decode_sched_stats(payload: u64) -> (r: SchedStats)
    ensures
        r.task_count == sched_task_count(payload),
        r.residual_bits == sched_residual_bits(payload),
{
    let task_count = (payload & 0xFFFF_FFFF) as u32;
    let residual_bits = (payload >> 32) as u32;
    SchedStats { task_count, residual_bits }
}

/// The two halves recompose the payload exactly: the split loses nothing.
pub proof fn lemma_sched_split_exact(payload: u64)
    ensures
        payload == sched_task_count(payload) + sched_residual_bits(payload) * 0x1_0000_0000,
{
    assert(payload == ((payload & 0xFFFF_FFFF) as u32) + ((payload >> 32) as u32)
        * 0x1_0000_0000) by (bit_vector);
}

/// The event detail area of the wire aggregate, as the kernel fills it:
/// the added/removed flag as a byte, then the device address and identity.
pub struct RawDeviceEvent {
    pub added: u8,
    pub bus: u8,
    pub slot: u8,
    pub func: u8,
    pub vendor_id: u16,
    pub device_id: u16,
    pub class_code: u8,
    pub subclass: u8,
}

/// One hot-plug notification: a device appeared or disappeared.
#[derive(Clone, Copy, Debug, PartialEq, Eq, Structural)]
pub struct DeviceEvent {
    pub added: bool,
    pub bus: u8,
    pub slot: u8,
    pub func: u8,
    pub vendor_id: u16,
    pub device_id: u16,
    pub class_code: u8,
    pub subclass: u8,
}

/// Decodes one hot-plug poll. A payload of exactly zero means no event is
/// pending — absence, not an error. Any non-zero payload presents the event
/// area, decoded field by field; one call drains at most one event.
pub fn decode_device_event(payload: u64, raw: &RawDeviceEvent) -> (r: Option<DeviceEvent>)
    ensures
        r is Some <==> payload != 0,
        payload != 0 ==> r == Some(
            (DeviceEvent {
                added: raw.added != 0,
                bus: raw.bus,
                slot: raw.slot,
                func: raw.func,
                vendor_id: raw.vendor_id,
                device_id: raw.device_id,
                class_code: raw.class_code,
                subclass: raw.subclass,
            }),
        ),
{
    if payload == 0 {
        return None;
    }
    Some(
        DeviceEvent {
            added: raw.added != 0,
            bus: raw.bus,
            slot: raw.slot,
            func: raw.func,
            vendor_id: raw.vendor_id,
            device_id: raw.device_id,
            class_code: raw.class_code,
            subclass: raw.subclass,
        },
    )
}

} // verus!
