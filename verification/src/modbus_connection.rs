//! The Modbus side of the register store: the server dispatcher that turns
//! request PDUs into array operations, and the client's read plan and write
//! flushing.  The transports (TCP framing, RTU framing, timers) live in the
//! unverified shell; everything they decide is computed here.

use crate::devices::{unit_idx, Devices};
use crate::observable_array::{base_written, wake_list_for};
use crate::range_array::{span_contains, spans_cover, Span};
use crate::tags::{Tags, Updated};
use vstd::prelude::*;
use vstd::string::StringSliceAdditionalSpecFns;

verus! {

/// Longest bit read a single request may carry.
pub const READ_BITS_MAX_LEN: u16 = 2000;

/// Longest register read a single request may carry.
pub const READ_REGISTERS_MAX_LEN: u16 = 125;

/// Per-request timeout of the polling client, in milliseconds.
pub const CLIENT_TIMEOUT_MS: u64 = 500;

/// Delay before the client reconnects after losing the transport.
pub const BACKOFF_MS: u64 = 2000;

/// Default time between client polls, in milliseconds.
pub const DEFAULT_POLL_INTERVAL_MS: u64 = 100;

/// A request PDU, as far as the dispatcher understands it.  Any other
/// function code arrives as `Unsupported`.
#[derive(Debug)]
pub enum Request {
    ReadHoldingRegisters(u16, u16),
    WriteSingleRegister(u16, u16),
    WriteMultipleRegisters(u16, Vec<u16>),
    ReadInputRegisters(u16, u16),
    ReadCoils(u16, u16),
    WriteSingleCoil(u16, bool),
    WriteMultipleCoils(u16, Vec<bool>),
    ReadDiscreteInputs(u16, u16),
    Unsupported,
}

/// A response PDU.
#[derive(Debug)]
pub enum Response {
    ReadHoldingRegisters(Vec<u16>),
    WriteSingleRegister(u16, u16),
    WriteMultipleRegisters(u16, u16),
    ReadInputRegisters(Vec<u16>),
    ReadCoils(Vec<bool>),
    WriteSingleCoil(u16, bool),
    WriteMultipleCoils(u16, u16),
    ReadDiscreteInputs(Vec<bool>),
}

/// A Modbus exception reply.
#[derive(Clone, Copy, Debug, PartialEq, Eq, Structural)]
pub enum ExceptionCode {
    IllegalFunction,
    IllegalDataAddress,
    IllegalDataValue,
    ServerDeviceFailure,
}

/// `post` is `pre` with `data` written into device `i`'s holding registers
/// at `start`, everything else untouched.
pub open spec fn device_holding_written(
    pre: Devices,
    post: Devices,
    i: int,
    start: int,
    data: Seq<u16>,
    origin: int,
) -> bool {
    &&& post.0@.len() == pre.0@.len()
    &&& forall|j: int| 0 <= j < pre.0@.len() && j != i ==> #[trigger] post.0@[j] == pre.0@[j]
    &&& post.0@[i].unit == pre.0@[i].unit
    &&& post.0@[i].ranges == pre.0@[i].ranges
    &&& post.0@[i].tags.input_registers == pre.0@[i].tags.input_registers
    &&& post.0@[i].tags.discrete_inputs == pre.0@[i].tags.discrete_inputs
    &&& post.0@[i].tags.coils == pre.0@[i].tags.coils
    &&& base_written(
        pre.0@[i].tags.holding_registers,
        post.0@[i].tags.holding_registers,
        start,
        data,
        origin,
    )
}

/// `post` is `pre` with `data` written into device `i`'s coils at `start`,
/// everything else untouched.
pub open spec fn device_coils_written(
    pre: Devices,
    post: Devices,
    i: int,
    start: int,
    data: Seq<bool>,
    origin: int,
) -> bool {
    &&& post.0@.len() == pre.0@.len()
    &&& forall|j: int| 0 <= j < pre.0@.len() && j != i ==> #[trigger] post.0@[j] == pre.0@[j]
    &&& post.0@[i].unit == pre.0@[i].unit
    &&& post.0@[i].ranges == pre.0@[i].ranges
    &&& post.0@[i].tags.input_registers == pre.0@[i].tags.input_registers
    &&& post.0@[i].tags.discrete_inputs == pre.0@[i].tags.discrete_inputs
    &&& post.0@[i].tags.holding_registers == pre.0@[i].tags.holding_registers
    &&& base_written(pre.0@[i].tags.coils, post.0@[i].tags.coils, start, data, origin)
}

/// What the dispatcher does for a present unit `i`: the mapping of every
/// request to its array operation, its reply, and the exception it raises
/// when the addressed range leaves the array.
pub open spec fn dispatch_post(
    pre: Devices,
    post: Devices,
    i: int,
    origin: int,
    req: Request,
    r: Result<Response, ExceptionCode>,
) -> bool {
    match req {
        Request::ReadHoldingRegisters(start, qty) => {
            &&& post == pre
            &&& if start + qty <= pre.0@[i].tags.holding_registers.elems().len() {
                match r {
                    Ok(Response::ReadHoldingRegisters(v)) => v@
                        == pre.0@[i].tags.holding_registers.elems().subrange(
                        start as int,
                        start + qty,
                    ),
                    _ => false,
                }
            } else {
                r == Err::<Response, ExceptionCode>(ExceptionCode::IllegalDataAddress)
            }
        },
        Request::ReadInputRegisters(start, qty) => {
            &&& post == pre
            &&& if start + qty <= pre.0@[i].tags.input_registers.elems().len() {
                match r {
                    Ok(Response::ReadInputRegisters(v)) => v@
                        == pre.0@[i].tags.input_registers.elems().subrange(
                        start as int,
                        start + qty,
                    ),
                    _ => false,
                }
            } else {
                r == Err::<Response, ExceptionCode>(ExceptionCode::IllegalDataAddress)
            }
        },
        Request::ReadCoils(start, qty) => {
            &&& post == pre
            &&& if start + qty <= pre.0@[i].tags.coils.elems().len() {
                match r {
                    Ok(Response::ReadCoils(v)) => v@ == pre.0@[i].tags.coils.elems().subrange(
                        start as int,
                        start + qty,
                    ),
                    _ => false,
                }
            } else {
                r == Err::<Response, ExceptionCode>(ExceptionCode::IllegalDataAddress)
            }
        },
        Request::ReadDiscreteInputs(start, qty) => {
            &&& post == pre
            &&& if start + qty <= pre.0@[i].tags.discrete_inputs.elems().len() {
                match r {
                    Ok(Response::ReadDiscreteInputs(v)) => v@
                        == pre.0@[i].tags.discrete_inputs.elems().subrange(
                        start as int,
                        start + qty,
                    ),
                    _ => false,
                }
            } else {
                r == Err::<Response, ExceptionCode>(ExceptionCode::IllegalDataAddress)
            }
        },
        Request::WriteSingleRegister(addr, value) => {
            if addr + 1 <= pre.0@[i].tags.holding_registers.elems().len() {
                &&& device_holding_written(pre, post, i, addr as int, seq![value], origin)
                &&& r == Ok::<Response, ExceptionCode>(
                    Response::WriteSingleRegister(addr, value),
                )
            } else {
                &&& post == pre
                &&& r == Err::<Response, ExceptionCode>(ExceptionCode::IllegalDataAddress)
            }
        },
        Request::WriteMultipleRegisters(addr, values) => {
            if addr + values@.len() <= pre.0@[i].tags.holding_registers.elems().len() {
                &&& device_holding_written(pre, post, i, addr as int, values@, origin)
                &&& r == Ok::<Response, ExceptionCode>(
                    Response::WriteMultipleRegisters(addr, values@.len() as u16),
                )
            } else {
                &&& post == pre
                &&& r == Err::<Response, ExceptionCode>(ExceptionCode::IllegalDataAddress)
            }
        },
        Request::WriteSingleCoil(addr, value) => {
            if addr + 1 <= pre.0@[i].tags.coils.elems().len() {
                &&& device_coils_written(pre, post, i, addr as int, seq![value], origin)
                &&& r == Ok::<Response, ExceptionCode>(Response::WriteSingleCoil(addr, value))
            } else {
                &&& post == pre
                &&& r == Err::<Response, ExceptionCode>(ExceptionCode::IllegalDataAddress)
            }
        },
        Request::WriteMultipleCoils(addr, values) => {
            if addr + values@.len() <= pre.0@[i].tags.coils.elems().len() {
                &&& device_coils_written(pre, post, i, addr as int, values@, origin)
                &&& r == Ok::<Response, ExceptionCode>(
                    Response::WriteMultipleCoils(addr, values@.len() as u16),
                )
            } else {
                &&& post == pre
                &&& r == Err::<Response, ExceptionCode>(ExceptionCode::IllegalDataAddress)
            }
        },
        Request::Unsupported => {
            &&& post == pre
            &&& r == Err::<Response, ExceptionCode>(ExceptionCode::IllegalFunction)
        },
    }
}

/// Serve one request against the device index: an unknown function code is
/// answered with an illegal-function exception before the unit is even
/// looked up; otherwise the unit is looked up, the array operation runs, and
/// an absent unit maps to a server device failure, an out-of-range address
/// to an illegal-data-address exception.
/// `origin` is the serving connection's observer slot on the touched array;
/// the returned slot list names the observers the shell must wake.
pub fn dispatch(devices: &mut Devices, unit: u8, origin: usize, req: &Request) -> (r: (
    Result<Response, ExceptionCode>,
    Vec<usize>,
))
    requires
        old(devices).wf(),
    ensures
        final(devices).wf(),
        *req is Unsupported ==> *final(devices) == *old(devices) && r.0 == Err::<
            Response,
            ExceptionCode,
        >(ExceptionCode::IllegalFunction) && r.1@.len() == 0,
        !old(devices).has_unit(unit) && !(*req is Unsupported) ==> *final(devices) == *old(
            devices,
        ) && r.0 == Err::<Response, ExceptionCode>(ExceptionCode::ServerDeviceFailure)
            && r.1@.len() == 0,
        old(devices).has_unit(unit) ==> dispatch_post(
            *old(devices),
            *final(devices),
            unit_idx(old(devices).0@, unit),
            origin as int,
            *req,
            r.0,
        ),
        old(devices).has_unit(unit) ==> match *req {
            Request::WriteSingleRegister(addr, _) => addr + 1 <= old(devices).0@[unit_idx(
                old(devices).0@,
                unit,
            )].tags.holding_registers.elems().len() ==> wake_list_for(
                r.1@,
                old(devices).0@[unit_idx(old(devices).0@, unit)].tags.holding_registers,
                origin as int,
            ),
            Request::WriteMultipleRegisters(addr, values) => addr + values@.len() <= old(
                devices,
            ).0@[unit_idx(old(devices).0@, unit)].tags.holding_registers.elems().len()
                ==> wake_list_for(
                r.1@,
                old(devices).0@[unit_idx(old(devices).0@, unit)].tags.holding_registers,
                origin as int,
            ),
            Request::WriteSingleCoil(addr, _) => addr + 1 <= old(devices).0@[unit_idx(
                old(devices).0@,
                unit,
            )].tags.coils.elems().len() ==> wake_list_for(
                r.1@,
                old(devices).0@[unit_idx(old(devices).0@, unit)].tags.coils,
                origin as int,
            ),
            Request::WriteMultipleCoils(addr, values) => addr + values@.len() <= old(
                devices,
            ).0@[unit_idx(old(devices).0@, unit)].tags.coils.elems().len() ==> wake_list_for(
                r.1@,
                old(devices).0@[unit_idx(old(devices).0@, unit)].tags.coils,
                origin as int,
            ),
            _ => r.1@.len() == 0,
        },
{
    if let Request::Unsupported = req {
        return (Err(ExceptionCode::IllegalFunction), Vec::new());
    }
    let found = devices.find_unit(unit);
    match found {
        None => (Err(ExceptionCode::ServerDeviceFailure), Vec::new()),
        Some(i) => {
            proof {
                crate::devices::lemma_unit_idx(devices.0@, unit);
                assert(unit_idx(devices.0@, unit) == i as int);
            }
            let empty_wakes: Vec<usize> = Vec::new();
            match req {
                Request::ReadHoldingRegisters(start, qty) => {
                    let n = devices.0[i].tags.holding_registers.len();
                    if (*start as usize) + (*qty as usize) <= n {
                        let v = devices.0[i].tags.holding_registers.read_slice(
                            *start as usize,
                            *qty as usize,
                        );
                        (Ok(Response::ReadHoldingRegisters(v)), empty_wakes)
                    } else {
                        (Err(ExceptionCode::IllegalDataAddress), empty_wakes)
                    }
                },
                Request::ReadInputRegisters(start, qty) => {
                    let n = devices.0[i].tags.input_registers.len();
                    if (*start as usize) + (*qty as usize) <= n {
                        let v = devices.0[i].tags.input_registers.read_slice(
                            *start as usize,
                            *qty as usize,
                        );
                        (Ok(Response::ReadInputRegisters(v)), empty_wakes)
                    } else {
                        (Err(ExceptionCode::IllegalDataAddress), empty_wakes)
                    }
                },
                Request::ReadCoils(start, qty) => {
                    let n = devices.0[i].tags.coils.len();
                    if (*start as usize) + (*qty as usize) <= n {
                        let v = devices.0[i].tags.coils.read_slice(*start as usize, *qty as usize);
                        (Ok(Response::ReadCoils(v)), empty_wakes)
                    } else {
                        (Err(ExceptionCode::IllegalDataAddress), empty_wakes)
                    }
                },
                Request::ReadDiscreteInputs(start, qty) => {
                    let n = devices.0[i].tags.discrete_inputs.len();
                    if (*start as usize) + (*qty as usize) <= n {
                        let v = devices.0[i].tags.discrete_inputs.read_slice(
                            *start as usize,
                            *qty as usize,
                        );
                        (Ok(Response::ReadDiscreteInputs(v)), empty_wakes)
                    } else {
                        (Err(ExceptionCode::IllegalDataAddress), empty_wakes)
                    }
                },
                Request::WriteSingleRegister(addr, value) => {
                    let n = devices.0[i].tags.holding_registers.len();
                    if (*addr as usize) + 1 <= n {
                        let data: Vec<u16> = vec![*value];
                        assert(data@ =~= seq![*value]);
                        let wakes = devices.0[i].tags.holding_registers.update(
                            *addr as usize,
                            data.as_slice(),
                            origin,
                        );
                        (Ok(Response::WriteSingleRegister(*addr, *value)), wakes)
                    } else {
                        (Err(ExceptionCode::IllegalDataAddress), empty_wakes)
                    }
                },
                Request::WriteMultipleRegisters(addr, values) => {
                    let n = devices.0[i].tags.holding_registers.len();
                    if values.len() <= n && (*addr as usize) <= n - values.len() {
                        let wakes = devices.0[i].tags.holding_registers.update(
                            *addr as usize,
                            values.as_slice(),
                            origin,
                        );
                        (
                            Ok(Response::WriteMultipleRegisters(*addr, #[verifier::truncate] (values.len() as u16))),
                            wakes,
                        )
                    } else {
                        (Err(ExceptionCode::IllegalDataAddress), empty_wakes)
                    }
                },
                Request::WriteSingleCoil(addr, value) => {
                    let n = devices.0[i].tags.coils.len();
                    if (*addr as usize) + 1 <= n {
                        let data: Vec<bool> = vec![*value];
                        assert(data@ =~= seq![*value]);
                        let wakes = devices.0[i].tags.coils.update(
                            *addr as usize,
                            data.as_slice(),
                            origin,
                        );
                        (Ok(Response::WriteSingleCoil(*addr, *value)), wakes)
                    } else {
                        (Err(ExceptionCode::IllegalDataAddress), empty_wakes)
                    }
                },
                Request::WriteMultipleCoils(addr, values) => {
                    let n = devices.0[i].tags.coils.len();
                    if values.len() <= n && (*addr as usize) <= n - values.len() {
                        let wakes = devices.0[i].tags.coils.update(
                            *addr as usize,
                            values.as_slice(),
                            origin,
                        );
                        (Ok(Response::WriteMultipleCoils(*addr, #[verifier::truncate] (values.len() as u16))), wakes)
                    } else {
                        (Err(ExceptionCode::IllegalDataAddress), empty_wakes)
                    }
                },
                Request::Unsupported => {
                    // already answered above, before the unit lookup
                    (Err(ExceptionCode::IllegalFunction), empty_wakes)
                },
            }
        },
    }
}

/// Law: writing `data` into a device's holding registers and then reading
/// the same span back yields exactly the written values, when no other write
/// comes between.
pub proof fn lemma_write_then_read_holding(
    pre: Devices,
    post: Devices,
    i: int,
    start: int,
    data: Seq<u16>,
    origin: int,
)
    requires
        0 <= i < pre.0@.len(),
        0 <= start,
        start + data.len() <= pre.0@[i].tags.holding_registers.elems().len(),
        device_holding_written(pre, post, i, start, data, origin),
    ensures
        post.0@[i].tags.holding_registers.elems().subrange(start, start + data.len()) =~= data,
{
    assert forall|k: int| 0 <= k < data.len() implies post.0@[
        i].tags.holding_registers.elems().subrange(start, start + data.len())[k] == data[k] by {
        assert(post.0@[i].tags.holding_registers.elems()[start + k] == data[k]);
    };
}

/// Which of the four address spaces an operation touches.
#[derive(Clone, Copy, Debug, PartialEq, Eq, Structural)]
pub enum TagKind {
    HoldingRegisters,
    InputRegisters,
    Coils,
    DiscreteInputs,
}

/// One read of the cycling plan: a unit, an address space, and a span.
#[derive(Clone, Copy, Debug, PartialEq, Eq, Structural)]
pub struct ClientOp {
    pub unit: u8,
    pub kind: TagKind,
    pub start: u16,
    pub length: u16,
}

/// The longest read the wire allows for this address space.
pub open spec fn kind_max_len(kind: TagKind) -> int {
    match kind {
        TagKind::HoldingRegisters => READ_REGISTERS_MAX_LEN as int,
        TagKind::InputRegisters => READ_REGISTERS_MAX_LEN as int,
        TagKind::Coils => READ_BITS_MAX_LEN as int,
        TagKind::DiscreteInputs => READ_BITS_MAX_LEN as int,
    }
}

/// `[start, end)` cut into pieces of at most `max`, in ascending order, each
/// piece but the last exactly `max` long.
pub open spec fn chunks(start: int, end: int, max: int) -> Seq<(int, int)>
    decreases end - start,
{
    if max <= 0 || start >= end {
        Seq::empty()
    } else {
        let l = if end - start < max {
            end - start
        } else {
            max
        };
        seq![(start, l)] + chunks(start + l, end, max)
    }
}

/// Law: the plan's pieces for one declared range cover exactly that range,
/// stay within the wire limit, and number exactly the ceiling of the range's
/// length over the limit -- no more requests than needed.
pub proof fn lemma_chunks_cover(start: int, end: int, max: int)
    requires
        0 < max,
        start <= end,
    ensures
        chunks(start, end, max).len() == (end - start + max - 1) / max,
        forall|k: int|
            0 <= k < chunks(start, end, max).len() ==> 0 < (#[trigger] chunks(start, end, max)[k]).1
                <= max && start <= chunks(start, end, max)[k].0 && chunks(start, end, max)[k].0
                + chunks(start, end, max)[k].1 <= end,
        forall|a: int|
            #[trigger] span_contains((start, end), a) <==> exists|k: int|
                0 <= k < chunks(start, end, max).len() && span_contains(
                    (
                        (#[trigger] chunks(start, end, max)[k]).0,
                        chunks(start, end, max)[k].0 + chunks(start, end, max)[k].1,
                    ),
                    a,
                ),
    decreases end - start,
{
    let c = chunks(start, end, max);
    if start >= end {
        assert(c.len() == 0);
        assert((end - start + max - 1) / max == 0) by (nonlinear_arith)
            requires
                0 < max,
                end == start,
        ;
    } else {
        let l = if end - start < max {
            end - start
        } else {
            max
        };
        let rest = chunks(start + l, end, max);
        lemma_chunks_cover(start + l, end, max);
        assert(c == seq![(start, l)] + rest);
        assert(c.len() == 1 + rest.len());
        assert(rest.len() == (end - start - l + max - 1) / max);
        assert(1 + (end - start - l + max - 1) / max == (end - start + max - 1) / max)
            by (nonlinear_arith)
            requires
                0 < max,
                start < end,
                l == if end - start < max {
                    end - start
                } else {
                    max
                },
        ;
        assert forall|k: int| 0 <= k < c.len() implies 0 < (#[trigger] c[k]).1 <= max && start
            <= c[k].0 && c[k].0 + c[k].1 <= end by {
            if k == 0 {
                assert(c[0] == (start, l));
            } else {
                assert(c[k] == rest[k - 1]);
            }
        };
        assert forall|a: int|
            #[trigger] span_contains((start, end), a) <==> exists|k: int|
                0 <= k < c.len() && span_contains(((#[trigger] c[k]).0, c[k].0 + c[k].1), a) by {
            if start <= a < end {
                assert(span_contains((start + l, end), a) <==> start + l <= a < end);
                if a < start + l {
                    assert(span_contains(((c[0]).0, c[0].0 + c[0].1), a));
                } else {
                    let k = choose|k: int|
                        0 <= k < rest.len() && span_contains(
                            ((#[trigger] rest[k]).0, rest[k].0 + rest[k].1),
                            a,
                        );
                    assert(c[k + 1] == rest[k]);
                    assert(span_contains(((c[k + 1]).0, c[k + 1].0 + c[k + 1].1), a));
                }
            }
            if exists|k: int|
                0 <= k < c.len() && span_contains(((#[trigger] c[k]).0, c[k].0 + c[k].1), a) {
                let k = choose|k: int|
                    0 <= k < c.len() && span_contains(((#[trigger] c[k]).0, c[k].0 + c[k].1), a);
                if k == 0 {
                    assert(start <= a < start + l <= end);
                } else {
                    assert(c[k] == rest[k - 1]);
                    assert(span_contains(((rest[k - 1]).0, rest[k - 1].0 + rest[k - 1].1), a));
                    assert(span_contains((start + l, end), a));
                }
                assert(span_contains((start, end), a));
            }
        };
    }
}

/// The number of reads one declared interval needs: its length over the
/// wire limit, rounded up.
pub open spec fn span_op_count(s: (int, int), max: int) -> int {
    (s.1 - s.0 + max - 1) / max
}

/// The number of reads a declared-range set needs: the ceiling count of each
/// of its intervals, summed.
pub open spec fn spans_op_count(ks: Seq<(int, int)>, max: int) -> int
    decreases ks.len(),
{
    if ks.len() == 0 {
        0
    } else {
        span_op_count(ks[0], max) + spans_op_count(ks.subrange(1, ks.len() as int), max)
    }
}

/// Append the reads for one declared span, cut to the wire limit.
pub fn push_range(ops: &mut Vec<ClientOp>, range: &Span<u16>, max_len: u16, unit: u8, kind: TagKind)
    requires
        max_len > 0,
        max_len as int == kind_max_len(kind),
        range.start <= range.end,
    ensures
        final(ops)@.len() == old(ops)@.len() + chunks(
            range.start as int,
            range.end as int,
            max_len as int,
        ).len(),
        forall|k: int| 0 <= k < old(ops)@.len() ==> #[trigger] final(ops)@[k] == old(ops)@[k],
        forall|k: int|
            0 <= k < chunks(range.start as int, range.end as int, max_len as int).len()
                ==> #[trigger] final(ops)@[old(ops)@.len() + k] == (ClientOp {
                unit,
                kind,
                start: chunks(range.start as int, range.end as int, max_len as int)[k].0 as u16,
                length: chunks(range.start as int, range.end as int, max_len as int)[k].1 as u16,
            }),
    decreases range.end - range.start,
{
    let ghost all = chunks(range.start as int, range.end as int, max_len as int);
    let ghost base: int = old(ops)@.len() as int;
    let mut start: u16 = range.start;
    let mut length: u16 = range.end - range.start;
    proof {
        assert(all.subrange(0, all.len() as int) =~= all);
    }
    while start < range.end
        invariant
            max_len > 0,
            range.start <= start <= range.end,
            length == range.end - start,
            all == chunks(range.start as int, range.end as int, max_len as int),
            base == old(ops)@.len(),
            base <= ops@.len(),
            ops@.len() - base <= all.len(),
            forall|k: int| 0 <= k < base ==> #[trigger] ops@[k] == old(ops)@[k],
            forall|k: int|
                0 <= k < ops@.len() - base ==> #[trigger] ops@[base + k] == (ClientOp {
                    unit,
                    kind,
                    start: all[k].0 as u16,
                    length: all[k].1 as u16,
                }),
            chunks(start as int, range.end as int, max_len as int) == all.subrange(
                ops@.len() - base,
                all.len() as int,
            ),
        decreases range.end - start,
    {
        let op_len = if length < max_len {
            length
        } else {
            max_len
        };
        let ghost done: int = ops@.len() - base;
        let ghost sub = chunks(start as int, range.end as int, max_len as int);
        let ghost sub1 = chunks(start as int + op_len as int, range.end as int, max_len as int);
        proof {
            assert(sub == seq![(start as int, op_len as int)] + sub1);
            assert(sub[0] == (start as int, op_len as int));
            assert(all[done] == sub[0]);
            assert(sub1 =~= sub.subrange(1, sub.len() as int));
            assert(sub1 =~= all.subrange(done + 1, all.len() as int));
        }
        ops.push(ClientOp { unit, kind, start, length: op_len });
        proof {
            assert(ops@[base + done] == (ClientOp {
                unit,
                kind,
                start: all[done].0 as u16,
                length: all[done].1 as u16,
            }));
            assert forall|k: int| 0 <= k < ops@.len() - base implies #[trigger] ops@[base + k]
                == (ClientOp {
                unit,
                kind,
                start: all[k].0 as u16,
                length: all[k].1 as u16,
            }) by {};
        }
        start += op_len;
        length -= op_len;
    }
    proof {
        assert(chunks(start as int, range.end as int, max_len as int).len() == 0);
        assert(ops@.len() - base == all.len());
        assert forall|k: int| 0 <= k < all.len() implies #[trigger] ops@[old(ops)@.len() + k]
            == (ClientOp {
            unit,
            kind,
            start: all[k].0 as u16,
            length: all[k].1 as u16,
        }) by {
            assert(ops@[base + k] == (ClientOp {
                unit,
                kind,
                start: all[k].0 as u16,
                length: all[k].1 as u16,
            }));
        };
    }
}

/// A read already in the plan stays in the plan as more reads are appended.
pub proof fn lemma_plan_covers_prefix(
    pre: Seq<ClientOp>,
    post: Seq<ClientOp>,
    unit: u8,
    kind: TagKind,
    a: int,
)
    requires
        pre.len() <= post.len(),
        forall|k: int| 0 <= k < pre.len() ==> #[trigger] post[k] == pre[k],
        plan_covers(pre, unit, kind, a),
    ensures
        plan_covers(post, unit, kind, a),
{
    let k = choose|k: int|
        0 <= k < pre.len() && (#[trigger] pre[k]).unit == unit && pre[k].kind == kind
            && pre[k].start <= a < pre[k].start + pre[k].length;
    assert(post[k] == pre[k]);
}

/// Every address the op reads is declared for its unit and kind, its length
/// respects the wire limit, and it stays inside the address space.
pub open spec fn op_valid(devices: Devices, op: ClientOp) -> bool {
    exists|i: int|
        0 <= i < devices.0@.len() && (#[trigger] devices.0@[i]).unit == op.unit && {
            let rs = match op.kind {
                TagKind::HoldingRegisters => devices.0@[i].ranges.holding_registers@,
                TagKind::InputRegisters => devices.0@[i].ranges.input_registers@,
                TagKind::Coils => devices.0@[i].ranges.coils@,
                TagKind::DiscreteInputs => devices.0@[i].ranges.discrete_inputs@,
            };
            &&& 0 < op.length <= kind_max_len(op.kind)
            &&& op.start + op.length <= u16::MAX + 1
            &&& forall|a: int|
                op.start <= a < op.start + op.length ==> #[trigger] spans_cover(rs, a)
        }
}

/// The plan reads address `a` of this unit and kind.
pub open spec fn plan_covers(ops: Seq<ClientOp>, unit: u8, kind: TagKind, a: int) -> bool {
    exists|k: int|
        0 <= k < ops.len() && (#[trigger] ops[k]).unit == unit && ops[k].kind == kind
            && ops[k].start <= a < ops[k].start + ops[k].length
}

/// The number of reads one device's whole plan needs: per address space, the
/// ceiling count of each declared interval over that space's wire limit.
pub open spec fn device_op_count(devices: Devices, i: int) -> int {
    spans_op_count(devices.0@[i].ranges.holding_registers@, READ_REGISTERS_MAX_LEN as int)
        + spans_op_count(devices.0@[i].ranges.input_registers@, READ_REGISTERS_MAX_LEN as int)
        + spans_op_count(devices.0@[i].ranges.coils@, READ_BITS_MAX_LEN as int)
        + spans_op_count(devices.0@[i].ranges.discrete_inputs@, READ_BITS_MAX_LEN as int)
}

/// The number of reads the plans of the first `i` devices need together.
pub open spec fn plan_op_count(devices: Devices, i: int) -> int
    decreases i,
{
    if i <= 0 {
        0
    } else {
        plan_op_count(devices, i - 1) + device_op_count(devices, i - 1)
    }
}

/// Build the cycling read plan: for every unit, for every address space, the
/// declared spans cut to the wire limit.  Every op reads only declared
/// addresses, every declared address of every unit is read by some op, and
/// the plan is no longer than needed: exactly the summed ceiling counts of
/// the declared intervals.
pub fn read_sequence(devices: &Devices) -> (ops: Vec<ClientOp>)
    requires
        devices.wf(),
    ensures
        ops@.len() == plan_op_count(*devices, devices.0@.len() as int),
        forall|k: int| 0 <= k < ops@.len() ==> op_valid(*devices, #[trigger] ops@[k]),
        forall|i: int, a: int|
            0 <= i < devices.0@.len() && #[trigger] spans_cover(
                devices.0@[i].ranges.holding_registers@,
                a,
            ) ==> plan_covers(ops@, devices.0@[i].unit, TagKind::HoldingRegisters, a),
        forall|i: int, a: int|
            0 <= i < devices.0@.len() && #[trigger] spans_cover(
                devices.0@[i].ranges.input_registers@,
                a,
            ) ==> plan_covers(ops@, devices.0@[i].unit, TagKind::InputRegisters, a),
        forall|i: int, a: int|
            0 <= i < devices.0@.len() && #[trigger] spans_cover(
                devices.0@[i].ranges.coils@,
                a,
            ) ==> plan_covers(ops@, devices.0@[i].unit, TagKind::Coils, a),
        forall|i: int, a: int|
            0 <= i < devices.0@.len() && #[trigger] spans_cover(
                devices.0@[i].ranges.discrete_inputs@,
                a,
            ) ==> plan_covers(ops@, devices.0@[i].unit, TagKind::DiscreteInputs, a),
{
    let n = devices.0.len();
    let mut ops: Vec<ClientOp> = Vec::new();
    let mut i: usize = 0;
    while i < n
        invariant
            devices.wf(),
            n == devices.0@.len(),
            i <= n,
            ops@.len() == plan_op_count(*devices, i as int),
            forall|k: int| 0 <= k < ops@.len() ==> op_valid(*devices, #[trigger] ops@[k]),
            forall|t: int, a: int|
                0 <= t < i && #[trigger] spans_cover(
                    devices.0@[t].ranges.holding_registers@,
                    a,
                ) ==> plan_covers(ops@, devices.0@[t].unit, TagKind::HoldingRegisters, a),
            forall|t: int, a: int|
                0 <= t < i && #[trigger] spans_cover(
                    devices.0@[t].ranges.input_registers@,
                    a,
                ) ==> plan_covers(ops@, devices.0@[t].unit, TagKind::InputRegisters, a),
            forall|t: int, a: int|
                0 <= t < i && #[trigger] spans_cover(devices.0@[t].ranges.coils@, a)
                    ==> plan_covers(ops@, devices.0@[t].unit, TagKind::Coils, a),
            forall|t: int, a: int|
                0 <= t < i && #[trigger] spans_cover(
                    devices.0@[t].ranges.discrete_inputs@,
                    a,
                ) ==> plan_covers(ops@, devices.0@[t].unit, TagKind::DiscreteInputs, a),
        decreases n - i,
    {
        let unit = devices.0[i].unit;
        let ghost ops0 = ops@;
        push_kind_ranges(
            &mut ops,
            devices,
            i,
            unit,
            TagKind::HoldingRegisters,
            READ_REGISTERS_MAX_LEN,
        );
        let ghost ops1 = ops@;
        push_kind_ranges(
            &mut ops,
            devices,
            i,
            unit,
            TagKind::InputRegisters,
            READ_REGISTERS_MAX_LEN,
        );
        let ghost ops2 = ops@;
        push_kind_ranges(&mut ops, devices, i, unit, TagKind::Coils, READ_BITS_MAX_LEN);
        let ghost ops3 = ops@;
        push_kind_ranges(&mut ops, devices, i, unit, TagKind::DiscreteInputs, READ_BITS_MAX_LEN);
        proof {
            assert forall|t: int, a: int|
                0 <= t < i + 1 && #[trigger] spans_cover(
                    devices.0@[t].ranges.holding_registers@,
                    a,
                ) implies plan_covers(ops@, devices.0@[t].unit, TagKind::HoldingRegisters, a) by {
                if t < i {
                    lemma_plan_covers_prefix(
                        ops0,
                        ops@,
                        devices.0@[t].unit,
                        TagKind::HoldingRegisters,
                        a,
                    );
                } else {
                    assert(spans_cover(kind_spans(*devices, i as int, TagKind::HoldingRegisters), a));
                    assert(plan_covers(ops1, unit, TagKind::HoldingRegisters, a));
                    lemma_plan_covers_prefix(ops1, ops@, unit, TagKind::HoldingRegisters, a);
                }
            };
            assert forall|t: int, a: int|
                0 <= t < i + 1 && #[trigger] spans_cover(
                    devices.0@[t].ranges.input_registers@,
                    a,
                ) implies plan_covers(ops@, devices.0@[t].unit, TagKind::InputRegisters, a) by {
                if t < i {
                    lemma_plan_covers_prefix(
                        ops0,
                        ops@,
                        devices.0@[t].unit,
                        TagKind::InputRegisters,
                        a,
                    );
                } else {
                    assert(spans_cover(kind_spans(*devices, i as int, TagKind::InputRegisters), a));
                    assert(plan_covers(ops2, unit, TagKind::InputRegisters, a));
                    lemma_plan_covers_prefix(ops2, ops@, unit, TagKind::InputRegisters, a);
                }
            };
            assert forall|t: int, a: int|
                0 <= t < i + 1 && #[trigger] spans_cover(devices.0@[t].ranges.coils@, a) implies
                plan_covers(ops@, devices.0@[t].unit, TagKind::Coils, a) by {
                if t < i {
                    lemma_plan_covers_prefix(ops0, ops@, devices.0@[t].unit, TagKind::Coils, a);
                } else {
                    assert(spans_cover(kind_spans(*devices, i as int, TagKind::Coils), a));
                    assert(plan_covers(ops3, unit, TagKind::Coils, a));
                    lemma_plan_covers_prefix(ops3, ops@, unit, TagKind::Coils, a);
                }
            };
            assert(ops@.len() == plan_op_count(*devices, i + 1)) by {
                assert(plan_op_count(*devices, i + 1) == plan_op_count(*devices, i as int)
                    + device_op_count(*devices, i as int));
                assert(kind_spans(*devices, i as int, TagKind::HoldingRegisters) == devices.0@[
                i as int].ranges.holding_registers@);
                assert(kind_spans(*devices, i as int, TagKind::InputRegisters) == devices.0@[
                i as int].ranges.input_registers@);
                assert(kind_spans(*devices, i as int, TagKind::Coils) == devices.0@[
                i as int].ranges.coils@);
                assert(kind_spans(*devices, i as int, TagKind::DiscreteInputs) == devices.0@[
                i as int].ranges.discrete_inputs@);
            };
            assert forall|t: int, a: int|
                0 <= t < i + 1 && #[trigger] spans_cover(
                    devices.0@[t].ranges.discrete_inputs@,
                    a,
                ) implies plan_covers(ops@, devices.0@[t].unit, TagKind::DiscreteInputs, a) by {
                if t < i {
                    lemma_plan_covers_prefix(
                        ops0,
                        ops@,
                        devices.0@[t].unit,
                        TagKind::DiscreteInputs,
                        a,
                    );
                } else {
                    assert(spans_cover(kind_spans(*devices, i as int, TagKind::DiscreteInputs), a));
                    assert(plan_covers(ops@, unit, TagKind::DiscreteInputs, a));
                }
            };
        }
        i += 1;
    }
    ops
}

/// The declared spans of device `i` for this kind.
pub open spec fn kind_spans(devices: Devices, i: int, kind: TagKind) -> Seq<(int, int)> {
    match kind {
        TagKind::HoldingRegisters => devices.0@[i].ranges.holding_registers@,
        TagKind::InputRegisters => devices.0@[i].ranges.input_registers@,
        TagKind::Coils => devices.0@[i].ranges.coils@,
        TagKind::DiscreteInputs => devices.0@[i].ranges.discrete_inputs@,
    }
}

/// Append the reads for every declared span of one address space of device
/// `i`.
#[verifier::rlimit(40)]
fn push_kind_ranges(
    ops: &mut Vec<ClientOp>,
    devices: &Devices,
    i: usize,
    unit: u8,
    kind: TagKind,
    max_len: u16,
)
    requires
        devices.wf(),
        i < devices.0@.len(),
        unit == devices.0@[i as int].unit,
        max_len > 0,
        max_len as int == kind_max_len(kind),
    ensures
        final(ops)@.len() >= old(ops)@.len(),
        final(ops)@.len() == old(ops)@.len() + spans_op_count(
            kind_spans(*devices, i as int, kind),
            max_len as int,
        ),
        forall|k: int| 0 <= k < old(ops)@.len() ==> #[trigger] final(ops)@[k] == old(ops)@[k],
        forall|k: int|
            old(ops)@.len() <= k < final(ops)@.len() ==> op_valid(*devices, #[trigger] final(ops)@[k]),
        forall|a: int|
            spans_cover(kind_spans(*devices, i as int, kind), a) ==> plan_covers(
                final(ops)@,
                unit,
                kind,
                a,
            ),
{
    let spans: &Vec<Span<u16>> = match kind {
        TagKind::HoldingRegisters => devices.0[i].ranges.holding_registers.spans(),
        TagKind::InputRegisters => devices.0[i].ranges.input_registers.spans(),
        TagKind::Coils => devices.0[i].ranges.coils.spans(),
        TagKind::DiscreteInputs => devices.0[i].ranges.discrete_inputs.spans(),
    };
    let ghost ks = kind_spans(*devices, i as int, kind);
    proof {
        assert(ks.subrange(0, ks.len() as int) =~= ks);
    }
    let m = spans.len();
    let mut s: usize = 0;
    while s < m
        invariant
            devices.wf(),
            i < devices.0@.len(),
            unit == devices.0@[i as int].unit,
            max_len > 0,
            max_len as int == kind_max_len(kind),
            ks == kind_spans(*devices, i as int, kind),
            crate::range_array::wf_spans(ks),
            m == spans@.len(),
            spans@.len() == ks.len(),
            forall|t: int|
                0 <= t < m ==> crate::range_array::span_view(#[trigger] spans@[t]) == ks[t],
            s <= m,
            ops@.len() >= old(ops)@.len(),
            ops@.len() == old(ops)@.len() + spans_op_count(ks, max_len as int) - spans_op_count(
                ks.subrange(s as int, ks.len() as int),
                max_len as int,
            ),
            forall|k: int| 0 <= k < old(ops)@.len() ==> #[trigger] ops@[k] == old(ops)@[k],
            forall|k: int|
                old(ops)@.len() <= k < ops@.len() ==> op_valid(*devices, #[trigger] ops@[k]),
            forall|t: int, a: int|
                0 <= t < s && #[trigger] span_contains(ks[t], a) ==> plan_covers(
                    ops@,
                    unit,
                    kind,
                    a,
                ),
        decreases m - s,
    {
        let sp = spans[s];
        let ghost pre_ops = ops@;
        proof {
            assert(crate::range_array::span_view(sp) == ks[s as int]);
            assert(ks[s as int].0 < ks[s as int].1);
            lemma_chunks_cover(sp.start as int, sp.end as int, max_len as int);
            let suf = ks.subrange(s as int, ks.len() as int);
            assert(suf[0] == ks[s as int]);
            assert(suf.subrange(1, suf.len() as int) =~= ks.subrange(s + 1, ks.len() as int));
            assert(spans_op_count(suf, max_len as int) == span_op_count(ks[s as int], max_len as int)
                + spans_op_count(ks.subrange(s + 1, ks.len() as int), max_len as int));
        }
        push_range(ops, &sp, max_len, unit, kind);
        proof {
            let cs = chunks(sp.start as int, sp.end as int, max_len as int);
            assert forall|k: int|
                old(ops)@.len() <= k < ops@.len() implies op_valid(*devices, #[trigger] ops@[k]) by {
                if k < pre_ops.len() {
                    assert(ops@[k] == pre_ops[k]);
                    assert(op_valid(*devices, pre_ops[k]));
                } else {
                    let k2 = k - pre_ops.len();
                    assert(ops@[pre_ops.len() + k2] == (ClientOp {
                        unit,
                        kind,
                        start: cs[k2].0 as u16,
                        length: cs[k2].1 as u16,
                    }));
                    let c = cs[k2];
                    assert(0 < c.1 <= max_len && sp.start as int <= c.0 && c.0 + c.1
                        <= sp.end as int);
                    assert forall|a: int| c.0 <= a < c.0 + c.1 implies #[trigger] spans_cover(
                        ks,
                        a,
                    ) by {
                        assert(span_contains(ks[s as int], a));
                    };
                    assert(op_valid(*devices, ops@[k])) by {
                        assert(devices.0@[i as int].unit == unit);
                    };
                }
            };
            assert forall|t: int, a: int|
                0 <= t < s + 1 && #[trigger] span_contains(ks[t], a) implies plan_covers(
                ops@,
                unit,
                kind,
                a,
            ) by {
                if t < s {
                    lemma_plan_covers_prefix(pre_ops, ops@, unit, kind, a);
                } else {
                    assert(ks[t] == (sp.start as int, sp.end as int));
                    assert(span_contains((sp.start as int, sp.end as int), a));
                    let k = choose|k: int|
                        0 <= k < cs.len() && span_contains(
                            ((#[trigger] cs[k]).0, cs[k].0 + cs[k].1),
                            a,
                        );
                    assert(ops@[pre_ops.len() + k] == (ClientOp {
                        unit,
                        kind,
                        start: cs[k].0 as u16,
                        length: cs[k].1 as u16,
                    }));
                    assert((ops@[pre_ops.len() + k]).start <= a < (ops@[pre_ops.len() + k]).start
                        + (ops@[pre_ops.len() + k]).length);
                    assert(plan_covers(ops@, unit, kind, a));
                }
            };
        }
        s += 1;
    }
    proof {
        assert(ks.subrange(ks.len() as int, ks.len() as int) =~= Seq::<(int, int)>::empty());
        assert(spans_op_count(ks.subrange(ks.len() as int, ks.len() as int), max_len as int)
            == 0);
        assert forall|a: int| spans_cover(ks, a) implies plan_covers(ops@, unit, kind, a) by {
            let t = choose|t: int| 0 <= t < ks.len() && #[trigger] span_contains(ks[t], a);
        };
    }
}


/// One write the client issues to flush a local change: a single write for a
/// one-address interval, a multiple write otherwise.
#[derive(Debug)]
pub enum WriteOp {
    SingleRegister(u16, u16),
    MultipleRegisters(u16, Vec<u16>),
    SingleCoil(u16, bool),
    MultipleCoils(u16, Vec<bool>),
}

/// Turn one drained change set into the writes that push it to the server:
/// one write per dirty interval, carrying the array's current values.  Only
/// holding registers and coils are client-writable; changes to the other two
/// spaces produce nothing.
pub fn write_ops(tags: &Tags, updated: &Updated) -> (ops: Vec<WriteOp>)
    requires
        tags.wf(),
        match *updated {
            Updated::HoldingRegisters(ref d) => crate::range_array::wf_spans(d@)
                && crate::observable_array::dirty_in_bounds(
                d@,
                tags.holding_registers.elems().len() as int,
            ),
            Updated::Coils(ref d) => crate::range_array::wf_spans(d@)
                && crate::observable_array::dirty_in_bounds(d@, tags.coils.elems().len() as int),
            _ => true,
        },
    ensures
        match *updated {
            Updated::HoldingRegisters(ref d) => {
                &&& ops@.len() == d@.len()
                &&& forall|k: int|
                    0 <= k < d@.len() ==> match #[trigger] ops@[k] {
                        WriteOp::SingleRegister(a, v) => d@[k].1 == d@[k].0 + 1 && a == d@[k].0
                            && v == tags.holding_registers.elems()[d@[k].0],
                        WriteOp::MultipleRegisters(a, v) => d@[k].1 > d@[k].0 + 1 && a == d@[k].0
                            && v@ == tags.holding_registers.elems().subrange(d@[k].0, d@[k].1),
                        _ => false,
                    }
            },
            Updated::Coils(ref d) => {
                &&& ops@.len() == d@.len()
                &&& forall|k: int|
                    0 <= k < d@.len() ==> match #[trigger] ops@[k] {
                        WriteOp::SingleCoil(a, v) => d@[k].1 == d@[k].0 + 1 && a == d@[k].0 && v
                            == tags.coils.elems()[d@[k].0],
                        WriteOp::MultipleCoils(a, v) => d@[k].1 > d@[k].0 + 1 && a == d@[k].0 && v@
                            == tags.coils.elems().subrange(d@[k].0, d@[k].1),
                        _ => false,
                    }
            },
            _ => ops@.len() == 0,
        },
{
    let mut ops: Vec<WriteOp> = Vec::new();
    match updated {
        Updated::HoldingRegisters(d) => {
            let spans = d.spans();
            let m = spans.len();
            let mut k: usize = 0;
            while k < m
                invariant
                    tags.wf(),
                    crate::range_array::wf_spans(d@),
                    crate::observable_array::dirty_in_bounds(
                        d@,
                        tags.holding_registers.elems().len() as int,
                    ),
                    m == spans@.len(),
                    spans@.len() == d@.len(),
                    forall|j: int|
                        0 <= j < m ==> crate::range_array::span_view(#[trigger] spans@[j])
                            == d@[j],
                    k <= m,
                    ops@.len() == k,
                    forall|j: int|
                        0 <= j < k ==> match #[trigger] ops@[j] {
                            WriteOp::SingleRegister(a, v) => d@[j].1 == d@[j].0 + 1 && a == d@[j].0
                                && v == tags.holding_registers.elems()[d@[j].0],
                            WriteOp::MultipleRegisters(a, v) => d@[j].1 > d@[j].0 + 1 && a
                                == d@[j].0 && v@ == tags.holding_registers.elems().subrange(
                                d@[j].0,
                                d@[j].1,
                            ),
                            _ => false,
                        },
                decreases m - k,
            {
                let sp = spans[k];
                proof {
                    assert(crate::range_array::span_view(sp) == d@[k as int]);
                    assert(d@[k as int].0 < d@[k as int].1);
                    assert(span_contains(d@[k as int], d@[k as int].0));
                    assert(span_contains(d@[k as int], d@[k as int].1 - 1));
                    assert(spans_cover(d@, d@[k as int].0));
                    assert(spans_cover(d@, d@[k as int].1 - 1));
                }
                let data = tags.holding_registers.read_slice(sp.start, sp.end - sp.start);
                if sp.end - sp.start == 1 {
                    let value = data[0];
                    ops.push(WriteOp::SingleRegister(sp.start as u16, value));
                } else {
                    ops.push(WriteOp::MultipleRegisters(sp.start as u16, data));
                }
                k += 1;
            }
        },
        Updated::Coils(d) => {
            let spans = d.spans();
            let m = spans.len();
            let mut k: usize = 0;
            while k < m
                invariant
                    tags.wf(),
                    crate::range_array::wf_spans(d@),
                    crate::observable_array::dirty_in_bounds(
                        d@,
                        tags.coils.elems().len() as int,
                    ),
                    m == spans@.len(),
                    spans@.len() == d@.len(),
                    forall|j: int|
                        0 <= j < m ==> crate::range_array::span_view(#[trigger] spans@[j])
                            == d@[j],
                    k <= m,
                    ops@.len() == k,
                    forall|j: int|
                        0 <= j < k ==> match #[trigger] ops@[j] {
                            WriteOp::SingleCoil(a, v) => d@[j].1 == d@[j].0 + 1 && a == d@[j].0
                                && v == tags.coils.elems()[d@[j].0],
                            WriteOp::MultipleCoils(a, v) => d@[j].1 > d@[j].0 + 1 && a == d@[j].0
                                && v@ == tags.coils.elems().subrange(d@[j].0, d@[j].1),
                            _ => false,
                        },
                decreases m - k,
            {
                let sp = spans[k];
                proof {
                    assert(crate::range_array::span_view(sp) == d@[k as int]);
                    assert(d@[k as int].0 < d@[k as int].1);
                    assert(span_contains(d@[k as int], d@[k as int].0));
                    assert(span_contains(d@[k as int], d@[k as int].1 - 1));
                    assert(spans_cover(d@, d@[k as int].0));
                    assert(spans_cover(d@, d@[k as int].1 - 1));
                }
                let data = tags.coils.read_slice(sp.start, sp.end - sp.start);
                if sp.end - sp.start == 1 {
                    let value = data[0];
                    ops.push(WriteOp::SingleCoil(sp.start as u16, value));
                } else {
                    ops.push(WriteOp::MultipleCoils(sp.start as u16, data));
                }
                k += 1;
            }
        },
        Updated::InputRegisters(_) => {},
        Updated::DiscreteInputs(_) => {},
    }
    ops
}

/// Where the polling client stands.
#[derive(Clone, Copy, Debug, PartialEq, Eq, Structural)]
pub enum PollerState {
    Connecting,
    Polling,
    FlushingWrites,
    Backoff,
}

/// How one read attempt ended.
#[derive(Clone, Copy, Debug, PartialEq, Eq, Structural)]
pub enum ReadOutcome {
    Success,
    ModbusException,
    IoOther,
    BrokenPipe,
    TimedOut,
}

/// What the transport shell reports to the poller.
#[derive(Clone, Copy, Debug, PartialEq, Eq, Structural)]
pub enum PollerEvent {
    Connected,
    ConnectFailed,
    ReadCompleted(ReadOutcome),
    WritesFlushed,
    IntervalElapsed,
    ChangesPending,
    BackoffElapsed,
}

/// What the shell must do next.
#[derive(Clone, Copy, Debug, PartialEq, Eq, Structural)]
pub enum PollerAction {
    AttemptConnect,
    IssueNextRead,
    AwaitTickOrChange,
    FlushPendingWrites,
    SleepBackoff,
}

/// The shell's standing duty in each state, resumed when an event arrives
/// that the state has no transition for.
pub open spec fn poller_resume(state: PollerState) -> PollerAction {
    match state {
        PollerState::Connecting => PollerAction::AttemptConnect,
        PollerState::Polling => PollerAction::AwaitTickOrChange,
        PollerState::FlushingWrites => PollerAction::FlushPendingWrites,
        PollerState::Backoff => PollerAction::SleepBackoff,
    }
}

/// The poll loop's transition table.  A failed connection attempt backs off;
/// a broken pipe during polling does too; any other read outcome is logged
/// by the shell and polling goes on; a pending local change wins over the
/// next poll tick and is flushed before polling resumes.
pub open spec fn poller_step_spec(state: PollerState, event: PollerEvent) -> (
    PollerState,
    PollerAction,
) {
    match (state, event) {
        (PollerState::Connecting, PollerEvent::Connected) => (
            PollerState::Polling,
            PollerAction::IssueNextRead,
        ),
        (PollerState::Connecting, PollerEvent::ConnectFailed) => (
            PollerState::Backoff,
            PollerAction::SleepBackoff,
        ),
        (PollerState::Polling, PollerEvent::ReadCompleted(outcome)) => {
            if outcome is BrokenPipe {
                (PollerState::Backoff, PollerAction::SleepBackoff)
            } else {
                (PollerState::Polling, PollerAction::AwaitTickOrChange)
            }
        },
        (PollerState::Polling, PollerEvent::IntervalElapsed) => (
            PollerState::Polling,
            PollerAction::IssueNextRead,
        ),
        (PollerState::Polling, PollerEvent::ChangesPending) => (
            PollerState::FlushingWrites,
            PollerAction::FlushPendingWrites,
        ),
        (PollerState::FlushingWrites, PollerEvent::WritesFlushed) => (
            PollerState::Polling,
            PollerAction::IssueNextRead,
        ),
        (PollerState::Backoff, PollerEvent::BackoffElapsed) => (
            PollerState::Connecting,
            PollerAction::AttemptConnect,
        ),
        (s, _) => (s, poller_resume(s)),
    }
}

/// Take one step of the poll loop's state machine.
pub fn poller_step(state: PollerState, event: &PollerEvent) -> (r: (PollerState, PollerAction))
    ensures
        r == poller_step_spec(state, *event),
{
    match (state, *event) {
        (PollerState::Connecting, PollerEvent::Connected) => (
            PollerState::Polling,
            PollerAction::IssueNextRead,
        ),
        (PollerState::Connecting, PollerEvent::ConnectFailed) => (
            PollerState::Backoff,
            PollerAction::SleepBackoff,
        ),
        (PollerState::Polling, PollerEvent::ReadCompleted(outcome)) => {
            if outcome == ReadOutcome::BrokenPipe {
                (PollerState::Backoff, PollerAction::SleepBackoff)
            } else {
                (PollerState::Polling, PollerAction::AwaitTickOrChange)
            }
        },
        (PollerState::Polling, PollerEvent::IntervalElapsed) => (
            PollerState::Polling,
            PollerAction::IssueNextRead,
        ),
        (PollerState::Polling, PollerEvent::ChangesPending) => (
            PollerState::FlushingWrites,
            PollerAction::FlushPendingWrites,
        ),
        (PollerState::FlushingWrites, PollerEvent::WritesFlushed) => (
            PollerState::Polling,
            PollerAction::IssueNextRead,
        ),
        (PollerState::Backoff, PollerEvent::BackoffElapsed) => (
            PollerState::Connecting,
            PollerAction::AttemptConnect,
        ),
        (s, _) => {
            let resume = match s {
                PollerState::Connecting => PollerAction::AttemptConnect,
                PollerState::Polling => PollerAction::AwaitTickOrChange,
                PollerState::FlushingWrites => PollerAction::FlushPendingWrites,
                PollerState::Backoff => PollerAction::SleepBackoff,
            };
            (s, resume)
        },
    }
}

/// Serial parity, as the configuration names it.
#[derive(Clone, Copy, Debug, PartialEq, Eq, Structural)]
pub enum Parity {
    Even,
    Odd,
    NoParity,
}

/// The parity a configuration string selects: by its first character,
/// case-insensitively, with even parity for anything unrecognised.
pub open spec fn spec_parity(s: Seq<u8>) -> Parity {
    if s.len() > 0 && (s[0] == 111 || s[0] == 79) {
        Parity::Odd
    } else if s.len() > 0 && (s[0] == 110 || s[0] == 78) {
        Parity::NoParity
    } else {
        Parity::Even
    }
}

/// Parse the configured parity.
pub fn parse_parity(s: &str) -> (r: Parity)
    ensures
        r == spec_parity(s.spec_bytes()),
{
    let bytes = s.as_bytes();
    if bytes.len() == 0 {
        return Parity::Even;
    }
    let c = bytes[0];
    if c == 111 || c == 79 {
        Parity::Odd
    } else if c == 110 || c == 78 {
        Parity::NoParity
    } else {
        Parity::Even
    }
}

} // verus!
