//! The bridge between the register store and browser clients.
//!
//! A connection's socket, JSON framing, and wakeups live in the unverified
//! shell.  Everything the bridge decides is here: which commands are valid,
//! what each command reads or writes, which frames a drained change set
//! produces, and which unit to serve next when several have pending changes.

use crate::devices::{unit_idx, Devices};
use crate::modbus_connection::{device_coils_written, device_holding_written};
use crate::observable_array::{base_written, dirty_in_bounds, wake_list_for};
use crate::range_array::wf_spans;
use crate::tag_list::ADDRESS_SPACE;
use crate::tags::{Tags, TagsSlots, Updated};
use vstd::prelude::*;

verus! {

/// The frames of the socket protocol, after JSON decoding.
#[derive(Debug)]
pub enum MbCommands {
    UpdateHoldingRegs { unit_addr: u8, start: u16, regs: Vec<u16> },
    UpdateInputRegs { unit_addr: u8, start: u16, regs: Vec<u16> },
    UpdateDiscreteInputs { unit_addr: u8, start: u16, regs: Vec<bool> },
    UpdateCoils { unit_addr: u8, start: u16, regs: Vec<bool> },
    RequestHoldingRegs { unit_addr: u8, start: u16, length: u16 },
    RequestInputRegs { unit_addr: u8, start: u16, length: u16 },
    RequestDiscreteInputs { unit_addr: u8, start: u16, length: u16 },
    RequestCoils { unit_addr: u8, start: u16, length: u16 },
    ListUnitAddresses(Vec<u8>),
    Echo(i64),
}

/// One listener's observer slots across all devices, plus the unit where its
/// round-robin drain scan resumes.
pub struct WsSession {
    pub slots: Vec<TagsSlots>,
    pub next_unit: usize,
}

impl WsSession {
    /// One slot quadruple per device, each naming a live observer other than
    /// the origin slot.
    pub open spec fn valid_for(&self, devices: Devices) -> bool {
        &&& self.slots@.len() == devices.0@.len()
        &&& forall|i: int|
            0 <= i < devices.0@.len() ==> (#[trigger] devices.0@[i]).tags.slots_valid(
                self.slots@[i],
            ) && self.slots@[i].holding != crate::tags::ORIGIN_SLOT && self.slots@[i].input
                != crate::tags::ORIGIN_SLOT && self.slots@[i].discrete != crate::tags::ORIGIN_SLOT
                && self.slots@[i].coils != crate::tags::ORIGIN_SLOT
    }
}

/// `post` is `pre` with `data` written into device `i`'s input registers.
pub open spec fn device_input_written(
    pre: Devices,
    post: Devices,
    i: int,
    start: int,
    data: Seq<u16>,
    origin: int,
) -> bool {
    &&& post.0@.len() == pre.0@.len()
    &&& forall|j: int| 0 <= j < pre.0@.len() && j != i ==> #[trigger] post.0@[j] == pre.0@[j]
    &&& post.0@[i].unit == pre.0@[i].unit
    &&& post.0@[i].ranges == pre.0@[i].ranges
    &&& post.0@[i].tags.holding_registers == pre.0@[i].tags.holding_registers
    &&& post.0@[i].tags.discrete_inputs == pre.0@[i].tags.discrete_inputs
    &&& post.0@[i].tags.coils == pre.0@[i].tags.coils
    &&& base_written(
        pre.0@[i].tags.input_registers,
        post.0@[i].tags.input_registers,
        start,
        data,
        origin,
    )
}

/// `post` is `pre` with `data` written into device `i`'s discrete inputs.
pub open spec fn device_discrete_written(
    pre: Devices,
    post: Devices,
    i: int,
    start: int,
    data: Seq<bool>,
    origin: int,
) -> bool {
    &&& post.0@.len() == pre.0@.len()
    &&& forall|j: int| 0 <= j < pre.0@.len() && j != i ==> #[trigger] post.0@[j] == pre.0@[j]
    &&& post.0@[i].unit == pre.0@[i].unit
    &&& post.0@[i].ranges == pre.0@[i].ranges
    &&& post.0@[i].tags.holding_registers == pre.0@[i].tags.holding_registers
    &&& post.0@[i].tags.input_registers == pre.0@[i].tags.input_registers
    &&& post.0@[i].tags.coils == pre.0@[i].tags.coils
    &&& base_written(
        pre.0@[i].tags.discrete_inputs,
        post.0@[i].tags.discrete_inputs,
        start,
        data,
        origin,
    )
}

/// The commands the bridge can serve: the unit must exist and the addressed
/// interval must stay inside the address space.  The shell checks this
/// before calling in and drops a frame that does not hold.
pub open spec fn cmd_valid(devices: Devices, cmd: MbCommands) -> bool {
    match cmd {
        MbCommands::RequestHoldingRegs { unit_addr, start, length } => devices.has_unit(unit_addr)
            && start + length <= ADDRESS_SPACE,
        MbCommands::RequestInputRegs { unit_addr, start, length } => devices.has_unit(unit_addr)
            && start + length <= ADDRESS_SPACE,
        MbCommands::RequestDiscreteInputs { unit_addr, start, length } => devices.has_unit(
            unit_addr,
        ) && start + length <= ADDRESS_SPACE,
        MbCommands::RequestCoils { unit_addr, start, length } => devices.has_unit(unit_addr)
            && start + length <= ADDRESS_SPACE,
        MbCommands::UpdateHoldingRegs { unit_addr, start, regs } => devices.has_unit(unit_addr)
            && start + regs@.len() <= ADDRESS_SPACE,
        MbCommands::UpdateInputRegs { unit_addr, start, regs } => devices.has_unit(unit_addr)
            && start + regs@.len() <= ADDRESS_SPACE,
        MbCommands::UpdateDiscreteInputs { unit_addr, start, regs } => devices.has_unit(unit_addr)
            && start + regs@.len() <= ADDRESS_SPACE,
        MbCommands::UpdateCoils { unit_addr, start, regs } => devices.has_unit(unit_addr) && start
            + regs@.len() <= ADDRESS_SPACE,
        MbCommands::ListUnitAddresses(_) => true,
        MbCommands::Echo(_) => true,
    }
}

/// Check a command against the device index.
pub fn command_valid(devices: &Devices, cmd: &MbCommands) -> (r: bool)
    requires
        devices.wf(),
    ensures
        r == cmd_valid(*devices, *cmd),
{
    match cmd {
        MbCommands::RequestHoldingRegs { unit_addr, start, length }
        | MbCommands::RequestInputRegs { unit_addr, start, length }
        | MbCommands::RequestDiscreteInputs { unit_addr, start, length }
        | MbCommands::RequestCoils { unit_addr, start, length } => {
            devices.find_unit(*unit_addr).is_some() && (*start as usize) + (*length as usize)
                <= ADDRESS_SPACE
        },
        MbCommands::UpdateHoldingRegs { unit_addr, start, regs }
        | MbCommands::UpdateInputRegs { unit_addr, start, regs } => {
            devices.find_unit(*unit_addr).is_some() && regs.len() <= ADDRESS_SPACE && (*start
                as usize) <= ADDRESS_SPACE - regs.len()
        },
        MbCommands::UpdateDiscreteInputs { unit_addr, start, regs }
        | MbCommands::UpdateCoils { unit_addr, start, regs } => {
            devices.find_unit(*unit_addr).is_some() && regs.len() <= ADDRESS_SPACE && (*start
                as usize) <= ADDRESS_SPACE - regs.len()
        },
        MbCommands::ListUnitAddresses(_) => true,
        MbCommands::Echo(_) => true,
    }
}

/// What serving one command does: requests read the addressed slice and
/// produce the matching update frame; updates write through the session's
/// observer slot, so the writer gets no echo; a list request reports the
/// configured units; an echo comes straight back.
pub open spec fn ws_post(
    pre: Devices,
    post: Devices,
    slots: Seq<TagsSlots>,
    cmd: MbCommands,
    reply: Option<MbCommands>,
    wakes: Seq<usize>,
) -> bool {
    match cmd {
        MbCommands::RequestHoldingRegs { unit_addr, start, length } => {
            &&& post == pre
            &&& wakes.len() == 0
            &&& match reply {
                Some(
                    MbCommands::UpdateHoldingRegs { unit_addr: u2, start: s2, regs },
                ) => u2 == unit_addr && s2 == start && regs@ == pre.0@[unit_idx(
                    pre.0@,
                    unit_addr,
                )].tags.holding_registers.elems().subrange(start as int, start + length),
                _ => false,
            }
        },
        MbCommands::RequestInputRegs { unit_addr, start, length } => {
            &&& post == pre
            &&& wakes.len() == 0
            &&& match reply {
                Some(
                    MbCommands::UpdateInputRegs { unit_addr: u2, start: s2, regs },
                ) => u2 == unit_addr && s2 == start && regs@ == pre.0@[unit_idx(
                    pre.0@,
                    unit_addr,
                )].tags.input_registers.elems().subrange(start as int, start + length),
                _ => false,
            }
        },
        MbCommands::RequestDiscreteInputs { unit_addr, start, length } => {
            &&& post == pre
            &&& wakes.len() == 0
            &&& match reply {
                Some(
                    MbCommands::UpdateDiscreteInputs { unit_addr: u2, start: s2, regs },
                ) => u2 == unit_addr && s2 == start && regs@ == pre.0@[unit_idx(
                    pre.0@,
                    unit_addr,
                )].tags.discrete_inputs.elems().subrange(start as int, start + length),
                _ => false,
            }
        },
        MbCommands::RequestCoils { unit_addr, start, length } => {
            &&& post == pre
            &&& wakes.len() == 0
            &&& match reply {
                Some(
                    MbCommands::UpdateCoils { unit_addr: u2, start: s2, regs },
                ) => u2 == unit_addr && s2 == start && regs@ == pre.0@[unit_idx(
                    pre.0@,
                    unit_addr,
                )].tags.coils.elems().subrange(start as int, start + length),
                _ => false,
            }
        },
        MbCommands::UpdateHoldingRegs { unit_addr, start, regs } => {
            let i = unit_idx(pre.0@, unit_addr);
            &&& device_holding_written(
                pre,
                post,
                i,
                start as int,
                regs@,
                slots[i].holding as int,
            )
            &&& wake_list_for(wakes, pre.0@[i].tags.holding_registers, slots[i].holding as int)
            &&& reply is None
        },
        MbCommands::UpdateInputRegs { unit_addr, start, regs } => {
            let i = unit_idx(pre.0@, unit_addr);
            &&& device_input_written(pre, post, i, start as int, regs@, slots[i].input as int)
            &&& wake_list_for(wakes, pre.0@[i].tags.input_registers, slots[i].input as int)
            &&& reply is None
        },
        MbCommands::UpdateDiscreteInputs { unit_addr, start, regs } => {
            let i = unit_idx(pre.0@, unit_addr);
            &&& device_discrete_written(
                pre,
                post,
                i,
                start as int,
                regs@,
                slots[i].discrete as int,
            )
            &&& wake_list_for(wakes, pre.0@[i].tags.discrete_inputs, slots[i].discrete as int)
            &&& reply is None
        },
        MbCommands::UpdateCoils { unit_addr, start, regs } => {
            let i = unit_idx(pre.0@, unit_addr);
            &&& device_coils_written(pre, post, i, start as int, regs@, slots[i].coils as int)
            &&& wake_list_for(wakes, pre.0@[i].tags.coils, slots[i].coils as int)
            &&& reply is None
        },
        MbCommands::ListUnitAddresses(_) => {
            &&& post == pre
            &&& wakes.len() == 0
            &&& match reply {
                Some(MbCommands::ListUnitAddresses(units)) => units@.len() == pre.0@.len()
                    && forall|k: int|
                    0 <= k < units@.len() ==> #[trigger] units@[k] == pre.0@[k].unit,
                _ => false,
            }
        },
        MbCommands::Echo(n) => {
            &&& post == pre
            &&& wakes.len() == 0
            &&& match reply {
                Some(MbCommands::Echo(m)) => m == n,
                _ => false,
            }
        },
    }
}

/// Serve one socket command: the reply frame to send back, if any, and the
/// observer slots the shell must wake.
pub fn handle_command(devices: &mut Devices, session: &WsSession, cmd: &MbCommands) -> (r: (
    Option<MbCommands>,
    Vec<usize>,
))
    requires
        old(devices).wf(),
        session.valid_for(*old(devices)),
        cmd_valid(*old(devices), *cmd),
    ensures
        final(devices).wf(),
        session.valid_for(*final(devices)),
        ws_post(*old(devices), *final(devices), session.slots@, *cmd, r.0, r.1@),
{
    let no_wakes: Vec<usize> = Vec::new();
    match cmd {
        MbCommands::RequestHoldingRegs { unit_addr, start, length } => {
            let i = devices.find_unit(*unit_addr).unwrap();
            proof {
                crate::devices::lemma_unit_idx(devices.0@, *unit_addr);
            }
            let regs = devices.0[i].tags.holding_registers.read_slice(
                *start as usize,
                *length as usize,
            );
            (
                Some(MbCommands::UpdateHoldingRegs { unit_addr: *unit_addr, start: *start, regs }),
                no_wakes,
            )
        },
        MbCommands::RequestInputRegs { unit_addr, start, length } => {
            let i = devices.find_unit(*unit_addr).unwrap();
            proof {
                crate::devices::lemma_unit_idx(devices.0@, *unit_addr);
            }
            let regs = devices.0[i].tags.input_registers.read_slice(
                *start as usize,
                *length as usize,
            );
            (
                Some(MbCommands::UpdateInputRegs { unit_addr: *unit_addr, start: *start, regs }),
                no_wakes,
            )
        },
        MbCommands::RequestDiscreteInputs { unit_addr, start, length } => {
            let i = devices.find_unit(*unit_addr).unwrap();
            proof {
                crate::devices::lemma_unit_idx(devices.0@, *unit_addr);
            }
            let regs = devices.0[i].tags.discrete_inputs.read_slice(
                *start as usize,
                *length as usize,
            );
            (
                Some(
                    MbCommands::UpdateDiscreteInputs { unit_addr: *unit_addr, start: *start, regs },
                ),
                no_wakes,
            )
        },
        MbCommands::RequestCoils { unit_addr, start, length } => {
            let i = devices.find_unit(*unit_addr).unwrap();
            proof {
                crate::devices::lemma_unit_idx(devices.0@, *unit_addr);
            }
            let regs = devices.0[i].tags.coils.read_slice(*start as usize, *length as usize);
            (
                Some(MbCommands::UpdateCoils { unit_addr: *unit_addr, start: *start, regs }),
                no_wakes,
            )
        },
        MbCommands::UpdateHoldingRegs { unit_addr, start, regs } => {
            let i = devices.find_unit(*unit_addr).unwrap();
            proof {
                crate::devices::lemma_unit_idx(devices.0@, *unit_addr);
            }
            let slot = session.slots[i].holding;
            let wakes = devices.0[i].tags.holding_registers.update(
                *start as usize,
                regs.as_slice(),
                slot,
            );
            proof {
                restore_session_validity(devices, session);
            }
            (None, wakes)
        },
        MbCommands::UpdateInputRegs { unit_addr, start, regs } => {
            let i = devices.find_unit(*unit_addr).unwrap();
            proof {
                crate::devices::lemma_unit_idx(devices.0@, *unit_addr);
            }
            let slot = session.slots[i].input;
            let wakes = devices.0[i].tags.input_registers.update(
                *start as usize,
                regs.as_slice(),
                slot,
            );
            proof {
                restore_session_validity(devices, session);
            }
            (None, wakes)
        },
        MbCommands::UpdateDiscreteInputs { unit_addr, start, regs } => {
            let i = devices.find_unit(*unit_addr).unwrap();
            proof {
                crate::devices::lemma_unit_idx(devices.0@, *unit_addr);
            }
            let slot = session.slots[i].discrete;
            let wakes = devices.0[i].tags.discrete_inputs.update(
                *start as usize,
                regs.as_slice(),
                slot,
            );
            proof {
                restore_session_validity(devices, session);
            }
            (None, wakes)
        },
        MbCommands::UpdateCoils { unit_addr, start, regs } => {
            let i = devices.find_unit(*unit_addr).unwrap();
            proof {
                crate::devices::lemma_unit_idx(devices.0@, *unit_addr);
            }
            let slot = session.slots[i].coils;
            let wakes = devices.0[i].tags.coils.update(*start as usize, regs.as_slice(), slot);
            proof {
                restore_session_validity(devices, session);
            }
            (None, wakes)
        },
        MbCommands::ListUnitAddresses(_) => {
            let units = devices.units();
            (Some(MbCommands::ListUnitAddresses(units)), no_wakes)
        },
        MbCommands::Echo(n) => (Some(MbCommands::Echo(*n)), no_wakes),
    }
}

/// A write through a live slot leaves every slot live, so the session stays
/// valid.
proof fn restore_session_validity(devices: &Devices, session: &WsSession)
    requires
        session.slots@.len() == devices.0@.len(),
        forall|i: int|
            0 <= i < devices.0@.len() ==> {
                let s = #[trigger] session.slots@[i];
                let tg = devices.0@[i].tags;
                &&& s.holding < tg.holding_registers.obs().len()
                &&& tg.holding_registers.obs()[s.holding as int] is Some
                &&& s.input < tg.input_registers.obs().len()
                &&& tg.input_registers.obs()[s.input as int] is Some
                &&& s.discrete < tg.discrete_inputs.obs().len()
                &&& tg.discrete_inputs.obs()[s.discrete as int] is Some
                &&& s.coils < tg.coils.obs().len()
                &&& tg.coils.obs()[s.coils as int] is Some
                &&& s.holding != crate::tags::ORIGIN_SLOT
                &&& s.input != crate::tags::ORIGIN_SLOT
                &&& s.discrete != crate::tags::ORIGIN_SLOT
                &&& s.coils != crate::tags::ORIGIN_SLOT
            },
    ensures
        session.valid_for(*devices),
{
    assert forall|i: int| 0 <= i < devices.0@.len() implies (#[trigger] devices.0@[i]).tags.slots_valid(
        session.slots@[i],
    ) && session.slots@[i].holding != crate::tags::ORIGIN_SLOT && session.slots@[i].input
        != crate::tags::ORIGIN_SLOT && session.slots@[i].discrete != crate::tags::ORIGIN_SLOT
        && session.slots@[i].coils != crate::tags::ORIGIN_SLOT by {
        assert(session.slots@[i] == session.slots@[i]);
    };
}

/// The update frames a drained change set produces: one per dirty interval,
/// carrying the array's current values over that interval.
pub fn update_commands(tags: &Tags, unit_addr: u8, updated: &Updated) -> (cmds: Vec<MbCommands>)
    requires
        tags.wf(),
        match *updated {
            Updated::HoldingRegisters(ref d) => wf_spans(d@) && dirty_in_bounds(
                d@,
                tags.holding_registers.elems().len() as int,
            ),
            Updated::InputRegisters(ref d) => wf_spans(d@) && dirty_in_bounds(
                d@,
                tags.input_registers.elems().len() as int,
            ),
            Updated::DiscreteInputs(ref d) => wf_spans(d@) && dirty_in_bounds(
                d@,
                tags.discrete_inputs.elems().len() as int,
            ),
            Updated::Coils(ref d) => wf_spans(d@) && dirty_in_bounds(
                d@,
                tags.coils.elems().len() as int,
            ),
        },
    ensures
        match *updated {
            Updated::HoldingRegisters(ref d) => cmds@.len() == d@.len() && forall|k: int|
                0 <= k < d@.len() ==> match #[trigger] cmds@[k] {
                    MbCommands::UpdateHoldingRegs { unit_addr: u2, start, regs } => u2 == unit_addr
                        && start == d@[k].0 && regs@ == tags.holding_registers.elems().subrange(
                        d@[k].0,
                        d@[k].1,
                    ),
                    _ => false,
                },
            Updated::InputRegisters(ref d) => cmds@.len() == d@.len() && forall|k: int|
                0 <= k < d@.len() ==> match #[trigger] cmds@[k] {
                    MbCommands::UpdateInputRegs { unit_addr: u2, start, regs } => u2 == unit_addr
                        && start == d@[k].0 && regs@ == tags.input_registers.elems().subrange(
                        d@[k].0,
                        d@[k].1,
                    ),
                    _ => false,
                },
            Updated::DiscreteInputs(ref d) => cmds@.len() == d@.len() && forall|k: int|
                0 <= k < d@.len() ==> match #[trigger] cmds@[k] {
                    MbCommands::UpdateDiscreteInputs { unit_addr: u2, start, regs } => u2
                        == unit_addr && start == d@[k].0 && regs@
                        == tags.discrete_inputs.elems().subrange(d@[k].0, d@[k].1),
                    _ => false,
                },
            Updated::Coils(ref d) => cmds@.len() == d@.len() && forall|k: int|
                0 <= k < d@.len() ==> match #[trigger] cmds@[k] {
                    MbCommands::UpdateCoils { unit_addr: u2, start, regs } => u2 == unit_addr
                        && start == d@[k].0 && regs@ == tags.coils.elems().subrange(
                        d@[k].0,
                        d@[k].1,
                    ),
                    _ => false,
                },
        },
{
    let mut cmds: Vec<MbCommands> = Vec::new();
    match updated {
        Updated::HoldingRegisters(d) => {
            let spans = d.spans();
            let m = spans.len();
            let mut k: usize = 0;
            while k < m
                invariant
                    tags.wf(),
                    wf_spans(d@),
                    dirty_in_bounds(d@, tags.holding_registers.elems().len() as int),
                    m == spans@.len(),
                    spans@.len() == d@.len(),
                    forall|j: int|
                        0 <= j < m ==> crate::range_array::span_view(#[trigger] spans@[j])
                            == d@[j],
                    k <= m,
                    cmds@.len() == k,
                    forall|j: int|
                        0 <= j < k ==> match #[trigger] cmds@[j] {
                            MbCommands::UpdateHoldingRegs { unit_addr: u2, start, regs } => u2
                                == unit_addr && start == d@[j].0 && regs@
                                == tags.holding_registers.elems().subrange(d@[j].0, d@[j].1),
                            _ => false,
                        },
                decreases m - k,
            {
                let sp = spans[k];
                proof {
                    assert(crate::range_array::span_view(sp) == d@[k as int]);
                    assert(crate::range_array::span_contains(d@[k as int], d@[k as int].0));
                    assert(crate::range_array::span_contains(d@[k as int], d@[k as int].1 - 1));
                    assert(crate::range_array::spans_cover(d@, d@[k as int].0));
                    assert(crate::range_array::spans_cover(d@, d@[k as int].1 - 1));
                }
                let regs = tags.holding_registers.read_slice(sp.start, sp.end - sp.start);
                cmds.push(
                    MbCommands::UpdateHoldingRegs { unit_addr, start: sp.start as u16, regs },
                );
                k += 1;
            }
        },
        Updated::InputRegisters(d) => {
            let spans = d.spans();
            let m = spans.len();
            let mut k: usize = 0;
            while k < m
                invariant
                    tags.wf(),
                    wf_spans(d@),
                    dirty_in_bounds(d@, tags.input_registers.elems().len() as int),
                    m == spans@.len(),
                    spans@.len() == d@.len(),
                    forall|j: int|
                        0 <= j < m ==> crate::range_array::span_view(#[trigger] spans@[j])
                            == d@[j],
                    k <= m,
                    cmds@.len() == k,
                    forall|j: int|
                        0 <= j < k ==> match #[trigger] cmds@[j] {
                            MbCommands::UpdateInputRegs { unit_addr: u2, start, regs } => u2
                                == unit_addr && start == d@[j].0 && regs@
                                == tags.input_registers.elems().subrange(d@[j].0, d@[j].1),
                            _ => false,
                        },
                decreases m - k,
            {
                let sp = spans[k];
                proof {
                    assert(crate::range_array::span_view(sp) == d@[k as int]);
                    assert(crate::range_array::span_contains(d@[k as int], d@[k as int].0));
                    assert(crate::range_array::span_contains(d@[k as int], d@[k as int].1 - 1));
                    assert(crate::range_array::spans_cover(d@, d@[k as int].0));
                    assert(crate::range_array::spans_cover(d@, d@[k as int].1 - 1));
                }
                let regs = tags.input_registers.read_slice(sp.start, sp.end - sp.start);
                cmds.push(MbCommands::UpdateInputRegs { unit_addr, start: sp.start as u16, regs });
                k += 1;
            }
        },
        Updated::DiscreteInputs(d) => {
            let spans = d.spans();
            let m = spans.len();
            let mut k: usize = 0;
            while k < m
                invariant
                    tags.wf(),
                    wf_spans(d@),
                    dirty_in_bounds(d@, tags.discrete_inputs.elems().len() as int),
                    m == spans@.len(),
                    spans@.len() == d@.len(),
                    forall|j: int|
                        0 <= j < m ==> crate::range_array::span_view(#[trigger] spans@[j])
                            == d@[j],
                    k <= m,
                    cmds@.len() == k,
                    forall|j: int|
                        0 <= j < k ==> match #[trigger] cmds@[j] {
                            MbCommands::UpdateDiscreteInputs { unit_addr: u2, start, regs } => u2
                                == unit_addr && start == d@[j].0 && regs@
                                == tags.discrete_inputs.elems().subrange(d@[j].0, d@[j].1),
                            _ => false,
                        },
                decreases m - k,
            {
                let sp = spans[k];
                proof {
                    assert(crate::range_array::span_view(sp) == d@[k as int]);
                    assert(crate::range_array::span_contains(d@[k as int], d@[k as int].0));
                    assert(crate::range_array::span_contains(d@[k as int], d@[k as int].1 - 1));
                    assert(crate::range_array::spans_cover(d@, d@[k as int].0));
                    assert(crate::range_array::spans_cover(d@, d@[k as int].1 - 1));
                }
                let regs = tags.discrete_inputs.read_slice(sp.start, sp.end - sp.start);
                cmds.push(
                    MbCommands::UpdateDiscreteInputs { unit_addr, start: sp.start as u16, regs },
                );
                k += 1;
            }
        },
        Updated::Coils(d) => {
            let spans = d.spans();
            let m = spans.len();
            let mut k: usize = 0;
            while k < m
                invariant
                    tags.wf(),
                    wf_spans(d@),
                    dirty_in_bounds(d@, tags.coils.elems().len() as int),
                    m == spans@.len(),
                    spans@.len() == d@.len(),
                    forall|j: int|
                        0 <= j < m ==> crate::range_array::span_view(#[trigger] spans@[j])
                            == d@[j],
                    k <= m,
                    cmds@.len() == k,
                    forall|j: int|
                        0 <= j < k ==> match #[trigger] cmds@[j] {
                            MbCommands::UpdateCoils { unit_addr: u2, start, regs } => u2
                                == unit_addr && start == d@[j].0 && regs@
                                == tags.coils.elems().subrange(d@[j].0, d@[j].1),
                            _ => false,
                        },
                decreases m - k,
            {
                let sp = spans[k];
                proof {
                    assert(crate::range_array::span_view(sp) == d@[k as int]);
                    assert(crate::range_array::span_contains(d@[k as int], d@[k as int].0));
                    assert(crate::range_array::span_contains(d@[k as int], d@[k as int].1 - 1));
                    assert(crate::range_array::spans_cover(d@, d@[k as int].0));
                    assert(crate::range_array::spans_cover(d@, d@[k as int].1 - 1));
                }
                let regs = tags.coils.read_slice(sp.start, sp.end - sp.start);
                cmds.push(MbCommands::UpdateCoils { unit_addr, start: sp.start as u16, regs });
                k += 1;
            }
        },
    }
    cmds
}

/// Allocate one observer slot on every array of every device: the slots a
/// new listener drains through.  Existing observers, and every stored value,
/// are untouched.
#[verifier::rlimit(40)]
pub fn subscribe_all(devices: &mut Devices) -> (session: WsSession)
    requires
        old(devices).wf(),
    ensures
        final(devices).wf(),
        session.valid_for(*final(devices)),
        final(devices).0@.len() == old(devices).0@.len(),
        forall|i: int|
            0 <= i < old(devices).0@.len() ==> (#[trigger] final(devices).0@[i]).unit == old(devices).0@[i].unit && final(devices).0@[i].ranges == old(devices).0@[i].ranges,
        forall|i: int|
            0 <= i < old(devices).0@.len()
                ==> (#[trigger] final(devices).0@[i]).tags.holding_registers.elems() == old(devices).0@[i].tags.holding_registers.elems()
                && final(devices).0@[i].tags.input_registers.elems() == old(devices).0@[i].tags.input_registers.elems()
                && final(devices).0@[i].tags.discrete_inputs.elems() == old(devices).0@[i].tags.discrete_inputs.elems() && final(devices).0@[i].tags.coils.elems()
                == old(devices).0@[i].tags.coils.elems(),
        // a listener that held a live slot before still holds it, with the
        // same dirty set
        forall|i: int, j: int|
            0 <= i < old(devices).0@.len() && 0 <= j < old(devices).0@[i].tags.holding_registers.obs().len() && old(devices).0@[i].tags.holding_registers.obs()[j] is Some ==> (#[trigger] final(devices).0@[i].tags.holding_registers.obs()[j]) == old(devices).0@[i].tags.holding_registers.obs()[j],
        forall|i: int, j: int|
            0 <= i < old(devices).0@.len() && 0 <= j < old(devices).0@[i].tags.input_registers.obs().len() && old(devices).0@[i].tags.input_registers.obs()[j] is Some ==> (#[trigger] final(devices).0@[i].tags.input_registers.obs()[j]) == old(devices).0@[i].tags.input_registers.obs()[j],
        forall|i: int, j: int|
            0 <= i < old(devices).0@.len() && 0 <= j < old(devices).0@[i].tags.discrete_inputs.obs().len() && old(devices).0@[i].tags.discrete_inputs.obs()[j] is Some ==> (#[trigger] final(devices).0@[i].tags.discrete_inputs.obs()[j]) == old(devices).0@[i].tags.discrete_inputs.obs()[j],
        forall|i: int, j: int|
            0 <= i < old(devices).0@.len() && 0 <= j < old(devices).0@[i].tags.coils.obs().len()
                && old(devices).0@[i].tags.coils.obs()[j] is Some ==> (#[trigger] final(devices).0@[i].tags.coils.obs()[j]) == old(devices).0@[i].tags.coils.obs()[j],
        // the new slots start with empty dirty sets
        forall|i: int|
            0 <= i < final(devices).0@.len() ==> (#[trigger] final(devices).0@[i].tags.holding_registers.obs()[session.slots@[i].holding as int]) == Some(
                Seq::<(int, int)>::empty(),
            ) && final(devices).0@[i].tags.input_registers.obs()[session.slots@[i].input as int]
                == Some(Seq::<(int, int)>::empty()) && final(devices).0@[i].tags.discrete_inputs.obs()[session.slots@[i].discrete as int] == Some(
                Seq::<(int, int)>::empty(),
            ) && final(devices).0@[i].tags.coils.obs()[session.slots@[i].coils as int] == Some(
                Seq::<(int, int)>::empty(),
            ),
{
    let n = devices.0.len();
    let mut slots: Vec<crate::tags::TagsSlots> = Vec::new();
    let mut i: usize = 0;
    while i < n
        invariant
            devices.wf(),
            n == devices.0@.len(),
            n == old(devices).0@.len(),
            i <= n,
            slots@.len() == i,
            forall|t: int|
                0 <= t < n ==> (#[trigger] devices.0@[t]).unit == old(devices).0@[t].unit
                    && devices.0@[t].ranges == old(devices).0@[t].ranges,
            forall|t: int| i <= t < n ==> #[trigger] devices.0@[t] == old(devices).0@[t],
            forall|t: int|
                0 <= t < n ==> (#[trigger] devices.0@[t]).tags.holding_registers.elems() == old(devices).0@[t].tags.holding_registers.elems()
                    && devices.0@[t].tags.input_registers.elems() == old(devices).0@[t].tags.input_registers.elems()
                    && devices.0@[t].tags.discrete_inputs.elems() == old(devices).0@[t].tags.discrete_inputs.elems() && devices.0@[t].tags.coils.elems() == old(devices).0@[t].tags.coils.elems(),
            forall|t: int, j: int|
                0 <= t < n && 0 <= j < old(devices).0@[t].tags.holding_registers.obs().len()
                    && old(devices).0@[t].tags.holding_registers.obs()[j] is Some
                    ==> (#[trigger] devices.0@[t].tags.holding_registers.obs()[j]) == old(devices).0@[t].tags.holding_registers.obs()[j],
            forall|t: int, j: int|
                0 <= t < n && 0 <= j < old(devices).0@[t].tags.input_registers.obs().len() && old(devices).0@[t].tags.input_registers.obs()[j] is Some
                    ==> (#[trigger] devices.0@[t].tags.input_registers.obs()[j]) == old(devices).0@[t].tags.input_registers.obs()[j],
            forall|t: int, j: int|
                0 <= t < n && 0 <= j < old(devices).0@[t].tags.discrete_inputs.obs().len() && old(devices).0@[t].tags.discrete_inputs.obs()[j] is Some
                    ==> (#[trigger] devices.0@[t].tags.discrete_inputs.obs()[j]) == old(devices).0@[t].tags.discrete_inputs.obs()[j],
            forall|t: int, j: int|
                0 <= t < n && 0 <= j < old(devices).0@[t].tags.coils.obs().len() && old(devices).0@[t].tags.coils.obs()[j] is Some
                    ==> (#[trigger] devices.0@[t].tags.coils.obs()[j]) == old(devices).0@[t].tags.coils.obs()[j],
            forall|t: int|
                0 <= t < i ==> (#[trigger] devices.0@[t]).tags.slots_valid(slots@[t])
                    && slots@[t].holding != crate::tags::ORIGIN_SLOT && slots@[t].input
                    != crate::tags::ORIGIN_SLOT && slots@[t].discrete != crate::tags::ORIGIN_SLOT
                    && slots@[t].coils != crate::tags::ORIGIN_SLOT,
            forall|t: int|
                0 <= t < i ==> (#[trigger] devices.0@[t].tags.holding_registers.obs()[
                    slots@[t].holding as int]) == Some(Seq::<(int, int)>::empty())
                    && devices.0@[t].tags.input_registers.obs()[slots@[t].input as int] == Some(
                    Seq::<(int, int)>::empty(),
                ) && devices.0@[t].tags.discrete_inputs.obs()[slots@[t].discrete as int] == Some(
                    Seq::<(int, int)>::empty(),
                ) && devices.0@[t].tags.coils.obs()[slots@[t].coils as int] == Some(
                    Seq::<(int, int)>::empty(),
                ),
        decreases n - i,
    {
        let ghost pre = *devices;
        let h = devices.0[i].tags.holding_registers.get_observer();
        let p = devices.0[i].tags.input_registers.get_observer();
        let d = devices.0[i].tags.discrete_inputs.get_observer();
        let c = devices.0[i].tags.coils.get_observer();
        slots.push(crate::tags::TagsSlots { holding: h, input: p, discrete: d, coils: c });
        proof {
            assert forall|t: int| 0 <= t < n && t != i implies #[trigger] devices.0@[t]
                == pre.0@[t] by {};
            assert(devices.0@[i as int].tags.slots_valid(slots@[i as int]));
            assert(h != crate::tags::ORIGIN_SLOT && p != crate::tags::ORIGIN_SLOT && d
                != crate::tags::ORIGIN_SLOT && c != crate::tags::ORIGIN_SLOT);
            assert forall|t: int|
                0 <= t < i + 1 implies (#[trigger] devices.0@[t]).tags.slots_valid(slots@[t])
                    && slots@[t].holding != crate::tags::ORIGIN_SLOT && slots@[t].input
                    != crate::tags::ORIGIN_SLOT && slots@[t].discrete != crate::tags::ORIGIN_SLOT
                    && slots@[t].coils != crate::tags::ORIGIN_SLOT by {
                if t < i {
                    assert(devices.0@[t] == pre.0@[t]);
                    assert(pre.0@[t].tags.slots_valid(slots@[t]));
                } else {
                    assert(slots@[t] == slots@[i as int]);
                }
            };
        }
        i += 1;
    }
    WsSession { slots, next_unit: 0 }
}

/// Release a listener's observer slots on every array of every device,
/// leaving everyone else's slots and every stored value untouched.
pub fn release_all(devices: &mut Devices, session: WsSession)
    requires
        old(devices).wf(),
        session.valid_for(*old(devices)),
    ensures
        final(devices).wf(),
        final(devices).0@.len() == old(devices).0@.len(),
        forall|i: int|
            0 <= i < old(devices).0@.len() ==> (#[trigger] final(devices).0@[i]).unit == old(devices).0@[i].unit && final(devices).0@[i].ranges == old(devices).0@[i].ranges,
        forall|i: int|
            0 <= i < old(devices).0@.len()
                ==> (#[trigger] final(devices).0@[i]).tags.holding_registers.elems() == old(devices).0@[i].tags.holding_registers.elems()
                && final(devices).0@[i].tags.input_registers.elems() == old(devices).0@[i].tags.input_registers.elems()
                && final(devices).0@[i].tags.discrete_inputs.elems() == old(devices).0@[i].tags.discrete_inputs.elems() && final(devices).0@[i].tags.coils.elems()
                == old(devices).0@[i].tags.coils.elems(),
        forall|i: int, j: int|
            0 <= i < old(devices).0@.len() && 0 <= j < old(devices).0@[i].tags.holding_registers.obs().len() && j != session.slots@[i].holding
                ==> (#[trigger] final(devices).0@[i].tags.holding_registers.obs()[j]) == old(devices).0@[i].tags.holding_registers.obs()[j],
        forall|i: int, j: int|
            0 <= i < old(devices).0@.len() && 0 <= j < old(devices).0@[i].tags.input_registers.obs().len() && j != session.slots@[i].input
                ==> (#[trigger] final(devices).0@[i].tags.input_registers.obs()[j]) == old(devices).0@[i].tags.input_registers.obs()[j],
        forall|i: int, j: int|
            0 <= i < old(devices).0@.len() && 0 <= j < old(devices).0@[i].tags.discrete_inputs.obs().len() && j != session.slots@[i].discrete
                ==> (#[trigger] final(devices).0@[i].tags.discrete_inputs.obs()[j]) == old(devices).0@[i].tags.discrete_inputs.obs()[j],
        forall|i: int, j: int|
            0 <= i < old(devices).0@.len() && 0 <= j < old(devices).0@[i].tags.coils.obs().len()
                && j != session.slots@[i].coils ==> (#[trigger] final(devices).0@[i].tags.coils.obs()[j]) == old(devices).0@[i].tags.coils.obs()[j],
{
    let n = devices.0.len();
    let mut i: usize = 0;
    while i < n
        invariant
            devices.wf(),
            session.valid_for(*old(devices)),
            n == devices.0@.len(),
            n == old(devices).0@.len(),
            session.slots@.len() == n,
            i <= n,
            forall|t: int| i <= t < n ==> #[trigger] devices.0@[t] == old(devices).0@[t],
            forall|t: int|
                0 <= t < n ==> (#[trigger] devices.0@[t]).unit == old(devices).0@[t].unit
                    && devices.0@[t].ranges == old(devices).0@[t].ranges,
            forall|t: int|
                0 <= t < n ==> (#[trigger] devices.0@[t]).tags.holding_registers.elems() == old(devices).0@[t].tags.holding_registers.elems()
                    && devices.0@[t].tags.input_registers.elems() == old(devices).0@[t].tags.input_registers.elems()
                    && devices.0@[t].tags.discrete_inputs.elems() == old(devices).0@[t].tags.discrete_inputs.elems() && devices.0@[t].tags.coils.elems() == old(devices).0@[t].tags.coils.elems(),
            forall|t: int, j: int|
                0 <= t < n && 0 <= j < old(devices).0@[t].tags.holding_registers.obs().len() && j
                    != session.slots@[t].holding
                    ==> (#[trigger] devices.0@[t].tags.holding_registers.obs()[j]) == old(devices).0@[t].tags.holding_registers.obs()[j],
            forall|t: int, j: int|
                0 <= t < n && 0 <= j < old(devices).0@[t].tags.input_registers.obs().len() && j
                    != session.slots@[t].input
                    ==> (#[trigger] devices.0@[t].tags.input_registers.obs()[j]) == old(devices).0@[t].tags.input_registers.obs()[j],
            forall|t: int, j: int|
                0 <= t < n && 0 <= j < old(devices).0@[t].tags.discrete_inputs.obs().len() && j
                    != session.slots@[t].discrete
                    ==> (#[trigger] devices.0@[t].tags.discrete_inputs.obs()[j]) == old(devices).0@[t].tags.discrete_inputs.obs()[j],
            forall|t: int, j: int|
                0 <= t < n && 0 <= j < old(devices).0@[t].tags.coils.obs().len() && j
                    != session.slots@[t].coils ==> (#[trigger] devices.0@[t].tags.coils.obs()[j])
                    == old(devices).0@[t].tags.coils.obs()[j],
        decreases n - i,
    {
        let ghost pre = *devices;
        let s = session.slots[i];
        proof {
            assert(old(devices).0@[i as int].tags.slots_valid(session.slots@[i as int]));
            assert(devices.0@[i as int] == old(devices).0@[i as int]);
        }
        devices.0[i].tags.holding_registers.release(s.holding);
        devices.0[i].tags.input_registers.release(s.input);
        devices.0[i].tags.discrete_inputs.release(s.discrete);
        devices.0[i].tags.coils.release(s.coils);
        proof {
            assert forall|t: int| 0 <= t < n && t != i implies #[trigger] devices.0@[t]
                == pre.0@[t] by {};
        }
        i += 1;
    }
}



/// This listener has changes pending somewhere on device `d`.
pub open spec fn has_pending(d: crate::devices::Device, s: TagsSlots) -> bool {
    ||| d.tags.holding_registers.obs()[s.holding as int].unwrap().len() > 0
    ||| d.tags.input_registers.obs()[s.input as int].unwrap().len() > 0
    ||| d.tags.discrete_inputs.obs()[s.discrete as int].unwrap().len() > 0
    ||| d.tags.coils.obs()[s.coils as int].unwrap().len() > 0
}

/// Where a drain scan saved at position `next` starts over `n` devices.
pub open spec fn scan_start(next: usize, n: nat) -> int {
    if next < n {
        next as int
    } else {
        0
    }
}

/// Every device the scan visits strictly before reaching index `i` -- from
/// `first` up, wrapping past the end of the table when `i` lies before
/// `first` -- has nothing pending.
pub open spec fn scan_clean_before(
    devices: Devices,
    slots: Seq<TagsSlots>,
    first: int,
    i: int,
) -> bool {
    if first <= i {
        forall|j: int| first <= j < i ==> !has_pending(#[trigger] devices.0@[j], slots[j])
    } else {
        &&& forall|j: int|
            first <= j < devices.0@.len() ==> !has_pending(#[trigger] devices.0@[j], slots[j])
        &&& forall|j: int| 0 <= j < i ==> !has_pending(#[trigger] devices.0@[j], slots[j])
    }
}

/// Two device tables that agree on everything observable: units, ranges,
/// stored values, and every observer's dirty set.
pub open spec fn same_store(a: Devices, b: Devices) -> bool {
    &&& a.0@.len() == b.0@.len()
    &&& forall|i: int|
        0 <= i < a.0@.len() ==> {
            let x = #[trigger] a.0@[i];
            let y = b.0@[i];
            &&& x.unit == y.unit
            &&& x.ranges == y.ranges
            &&& x.tags.holding_registers.elems() == y.tags.holding_registers.elems()
            &&& x.tags.input_registers.elems() == y.tags.input_registers.elems()
            &&& x.tags.discrete_inputs.elems() == y.tags.discrete_inputs.elems()
            &&& x.tags.coils.elems() == y.tags.coils.elems()
            &&& x.tags.holding_registers.obs() == y.tags.holding_registers.obs()
            &&& x.tags.input_registers.obs() == y.tags.input_registers.obs()
            &&& x.tags.discrete_inputs.obs() == y.tags.discrete_inputs.obs()
            &&& x.tags.coils.obs() == y.tags.coils.obs()
        }
}

/// Well-formedness and session validity only look at the observable parts,
/// so they carry across `same_store`.
proof fn lemma_same_store_wf(a: Devices, b: Devices, session: &WsSession)
    requires
        same_store(a, b),
        b.wf(),
        session.valid_for(b),
    ensures
        a.wf(),
        session.valid_for(a),
{
    assert forall|i: int, j: int|
        0 <= i < j < a.0@.len() implies (#[trigger] a.0@[i]).unit < (#[trigger] a.0@[j]).unit by {
        assert(a.0@[i].unit == b.0@[i].unit);
        assert(a.0@[j].unit == b.0@[j].unit);
    };
    assert forall|i: int| 0 <= i < a.0@.len() implies (#[trigger] a.0@[i]).tags.wf()
        && a.0@[i].ranges.wf() && a.0@[i].tags.slots_valid(session.slots@[i]) by {
        assert(a.0@[i].unit == b.0@[i].unit);
        assert(b.0@[i].tags.wf());
        assert(b.0@[i].tags.slots_valid(session.slots@[i]));
    };
}

/// Drain the next device with pending changes for this listener: the first
/// pending device at or after the saved scan position, cyclically, with the
/// position then set just past it, so no unit is starved when several stay
/// busy.  Returns `None`, leaving the position alone, when no device has
/// anything pending; the stored values are never touched.
pub fn poll_updates(devices: &mut Devices, session: &mut WsSession) -> (r: Option<(u8, Updated)>)
    requires
        old(devices).wf(),
        old(session).valid_for(*old(devices)),
    ensures
        final(devices).wf(),
        final(session).valid_for(*final(devices)),
        final(session).slots == old(session).slots,
        final(devices).0@.len() == old(devices).0@.len(),
        forall|i: int|
            0 <= i < old(devices).0@.len() ==> (#[trigger] final(devices).0@[i]).unit == old(devices).0@[i].unit && final(devices).0@[i].ranges == old(devices).0@[i].ranges,
        forall|i: int|
            0 <= i < old(devices).0@.len()
                ==> (#[trigger] final(devices).0@[i]).tags.holding_registers.elems() == old(devices).0@[i].tags.holding_registers.elems()
                && final(devices).0@[i].tags.input_registers.elems() == old(devices).0@[i].tags.input_registers.elems()
                && final(devices).0@[i].tags.discrete_inputs.elems() == old(devices).0@[i].tags.discrete_inputs.elems() && final(devices).0@[i].tags.coils.elems()
                == old(devices).0@[i].tags.coils.elems(),
        r is None ==> final(session).next_unit == old(session).next_unit,
        // the drained device is the first pending one at or after the saved
        // scan position, cyclically, and the scan resumes just past it
        r is Some ==> 0 < final(session).next_unit <= old(devices).0@.len() && old(devices).0@[
            final(session).next_unit - 1].unit == r.unwrap().0 && has_pending(
            old(devices).0@[final(session).next_unit - 1],
            old(session).slots@[final(session).next_unit - 1],
        ) && scan_clean_before(
            *old(devices),
            old(session).slots@,
            scan_start(old(session).next_unit, old(devices).0@.len()),
            final(session).next_unit - 1,
        ),
        match r {
            Some((unit, ref upd)) => final(devices).has_unit(unit) && (match *upd {
                Updated::HoldingRegisters(ref d) => d@.len() > 0 && wf_spans(d@)
                    && dirty_in_bounds(d@, ADDRESS_SPACE as int),
                Updated::InputRegisters(ref d) => d@.len() > 0 && wf_spans(d@) && dirty_in_bounds(
                    d@,
                    ADDRESS_SPACE as int,
                ),
                Updated::DiscreteInputs(ref d) => d@.len() > 0 && wf_spans(d@) && dirty_in_bounds(
                    d@,
                    ADDRESS_SPACE as int,
                ),
                Updated::Coils(ref d) => d@.len() > 0 && wf_spans(d@) && dirty_in_bounds(
                    d@,
                    ADDRESS_SPACE as int,
                ),
            }),
            None => forall|i: int|
                0 <= i < old(devices).0@.len() ==> {
                    let tg = (#[trigger] old(devices).0@[i]).tags;
                    let s = old(session).slots@[i];
                    &&& tg.holding_registers.obs()[s.holding as int].unwrap().len() == 0
                    &&& tg.input_registers.obs()[s.input as int].unwrap().len() == 0
                    &&& tg.discrete_inputs.obs()[s.discrete as int].unwrap().len() == 0
                    &&& tg.coils.obs()[s.coils as int].unwrap().len() == 0
                },
        },
{
    let n = devices.0.len();
    if n == 0 {
        return None;
    }
    let first = if session.next_unit < n {
        session.next_unit
    } else {
        0
    };
    let ghost pre = *devices;
    let mut idx: usize = first;
    while idx < n
        invariant
            devices.wf(),
            session.slots == old(session).slots,
            session.next_unit == old(session).next_unit,
            session.valid_for(*devices),
            pre == *old(devices),
            same_store(*devices, pre),
            pre.wf(),
            session.valid_for(pre),
            n == devices.0@.len(),
            first as int == (if old(session).next_unit < n {
                old(session).next_unit as int
            } else {
                0
            }),
            first <= idx <= n,
            session.slots@.len() == n,
            forall|t: int|
                first <= t < idx ==> {
                    let tg = (#[trigger] pre.0@[t]).tags;
                    let s = session.slots@[t];
                    &&& tg.holding_registers.obs()[s.holding as int].unwrap().len() == 0
                    &&& tg.input_registers.obs()[s.input as int].unwrap().len() == 0
                    &&& tg.discrete_inputs.obs()[s.discrete as int].unwrap().len() == 0
                    &&& tg.coils.obs()[s.coils as int].unwrap().len() == 0
                },
        decreases n - idx,
    {
        let ghost entry = *devices;
        let slots = session.slots[idx];
        let got = devices.0[idx].tags.try_updated(&slots);
        match got {
            Some(upd) => {
                let unit = devices.0[idx].unit;
                session.next_unit = idx + 1;
                proof {
                    poll_restore(devices, session, entry, pre, idx as int);
                    let first_scan = first as int;
                    assert(has_pending(pre.0@[idx as int], session.slots@[idx as int])) by {
                        assert(entry.0@[idx as int].tags.holding_registers.obs() == pre.0@[
                        idx as int].tags.holding_registers.obs());
                        assert(entry.0@[idx as int].tags.input_registers.obs() == pre.0@[
                        idx as int].tags.input_registers.obs());
                        assert(entry.0@[idx as int].tags.discrete_inputs.obs() == pre.0@[
                        idx as int].tags.discrete_inputs.obs());
                        assert(entry.0@[idx as int].tags.coils.obs() == pre.0@[
                        idx as int].tags.coils.obs());
                    };
                    assert(pre == *old(devices));
                    assert(old(session).slots@ == session.slots@);
                    assert(scan_start(old(session).next_unit, old(devices).0@.len())
                        == first_scan);
                    assert(session.next_unit as int == idx + 1);
                    assert(scan_clean_before(
                        *old(devices),
                        old(session).slots@,
                        first_scan,
                        idx as int,
                    )) by {
                        assert forall|j: int| first_scan <= j < idx implies !has_pending(
                            #[trigger] old(devices).0@[j],
                            old(session).slots@[j],
                        ) by {
                            assert(old(devices).0@[j] == pre.0@[j]);
                        };
                    };
                }
                return Some((unit, upd));
            },
            None => {
                proof {
                    poll_none_step(devices, session, entry, pre, idx as int);
                }
            },
        }
        idx += 1;
    }
    let mut idx2: usize = 0;
    while idx2 < first
        invariant
            devices.wf(),
            session.slots == old(session).slots,
            session.next_unit == old(session).next_unit,
            session.valid_for(*devices),
            pre == *old(devices),
            same_store(*devices, pre),
            pre.wf(),
            session.valid_for(pre),
            n == devices.0@.len(),
            first as int == (if old(session).next_unit < n {
                old(session).next_unit as int
            } else {
                0
            }),
            first <= n,
            idx2 <= first,
            session.slots@.len() == n,
            forall|t: int|
                first <= t < n ==> {
                    let tg = (#[trigger] pre.0@[t]).tags;
                    let s = session.slots@[t];
                    &&& tg.holding_registers.obs()[s.holding as int].unwrap().len() == 0
                    &&& tg.input_registers.obs()[s.input as int].unwrap().len() == 0
                    &&& tg.discrete_inputs.obs()[s.discrete as int].unwrap().len() == 0
                    &&& tg.coils.obs()[s.coils as int].unwrap().len() == 0
                },
            forall|t: int|
                0 <= t < idx2 ==> {
                    let tg = (#[trigger] pre.0@[t]).tags;
                    let s = session.slots@[t];
                    &&& tg.holding_registers.obs()[s.holding as int].unwrap().len() == 0
                    &&& tg.input_registers.obs()[s.input as int].unwrap().len() == 0
                    &&& tg.discrete_inputs.obs()[s.discrete as int].unwrap().len() == 0
                    &&& tg.coils.obs()[s.coils as int].unwrap().len() == 0
                },
        decreases first - idx2,
    {
        let ghost entry = *devices;
        let slots = session.slots[idx2];
        let got = devices.0[idx2].tags.try_updated(&slots);
        match got {
            Some(upd) => {
                let unit = devices.0[idx2].unit;
                session.next_unit = idx2 + 1;
                proof {
                    poll_restore(devices, session, entry, pre, idx2 as int);
                    let first_scan = first as int;
                    assert(has_pending(pre.0@[idx2 as int], session.slots@[idx2 as int])) by {
                        assert(entry.0@[idx2 as int].tags.holding_registers.obs() == pre.0@[
                        idx2 as int].tags.holding_registers.obs());
                        assert(entry.0@[idx2 as int].tags.input_registers.obs() == pre.0@[
                        idx2 as int].tags.input_registers.obs());
                        assert(entry.0@[idx2 as int].tags.discrete_inputs.obs() == pre.0@[
                        idx2 as int].tags.discrete_inputs.obs());
                        assert(entry.0@[idx2 as int].tags.coils.obs() == pre.0@[
                        idx2 as int].tags.coils.obs());
                    };
                    assert(pre == *old(devices));
                    assert(old(session).slots@ == session.slots@);
                    assert(scan_start(old(session).next_unit, old(devices).0@.len())
                        == first_scan);
                    assert(session.next_unit as int == idx2 + 1);
                    assert(idx2 < first);
                    assert(scan_clean_before(
                        *old(devices),
                        old(session).slots@,
                        first_scan,
                        idx2 as int,
                    )) by {
                        assert forall|j: int|
                            first_scan <= j < old(devices).0@.len() implies !has_pending(
                            #[trigger] old(devices).0@[j],
                            old(session).slots@[j],
                        ) by {
                            assert(old(devices).0@[j] == pre.0@[j]);
                        };
                        assert forall|j: int| 0 <= j < idx2 implies !has_pending(
                            #[trigger] old(devices).0@[j],
                            old(session).slots@[j],
                        ) by {
                            assert(old(devices).0@[j] == pre.0@[j]);
                        };
                    };
                }
                return Some((unit, upd));
            },
            None => {
                proof {
                    poll_none_step(devices, session, entry, pre, idx2 as int);
                }
            },
        }
        idx2 += 1;
    }
    None
}

/// After draining one device, everything observable but that device's one
/// slot matches the table the scan started from, and the session stays
/// valid.
proof fn poll_restore(devices: &Devices, session: &WsSession, entry: Devices, pre: Devices, idx: int)
    requires
        0 <= idx < pre.0@.len(),
        entry.wf(),
        session.valid_for(entry),
        same_store(entry, pre),
        pre.wf(),
        session.valid_for(pre),
        devices.0@.len() == entry.0@.len(),
        forall|t: int|
            0 <= t < entry.0@.len() && t != idx ==> #[trigger] devices.0@[t] == entry.0@[t],
        devices.0@[idx].unit == entry.0@[idx].unit,
        devices.0@[idx].ranges == entry.0@[idx].ranges,
        devices.0@[idx].tags.wf(),
        devices.0@[idx].tags.slots_valid(session.slots@[idx]),
        devices.0@[idx].tags.holding_registers.elems() == entry.0@[
            idx].tags.holding_registers.elems(),
        devices.0@[idx].tags.input_registers.elems() == entry.0@[
            idx].tags.input_registers.elems(),
        devices.0@[idx].tags.discrete_inputs.elems() == entry.0@[
            idx].tags.discrete_inputs.elems(),
        devices.0@[idx].tags.coils.elems() == entry.0@[idx].tags.coils.elems(),
    ensures
        devices.wf(),
        session.valid_for(*devices),
        devices.0@.len() == pre.0@.len(),
        forall|i: int|
            0 <= i < pre.0@.len() ==> (#[trigger] devices.0@[i]).unit == pre.0@[i].unit
                && devices.0@[i].ranges == pre.0@[i].ranges,
        forall|i: int|
            0 <= i < pre.0@.len() ==> (#[trigger] devices.0@[i]).tags.holding_registers.elems()
                == pre.0@[i].tags.holding_registers.elems()
                && devices.0@[i].tags.input_registers.elems() == pre.0@[
                i].tags.input_registers.elems() && devices.0@[i].tags.discrete_inputs.elems()
                == pre.0@[i].tags.discrete_inputs.elems() && devices.0@[i].tags.coils.elems()
                == pre.0@[i].tags.coils.elems(),
{
    assert forall|i: int| 0 <= i < pre.0@.len() implies (#[trigger] devices.0@[i]).unit == pre.0@[
        i].unit && devices.0@[i].ranges == pre.0@[i].ranges
        && devices.0@[i].tags.holding_registers.elems() == pre.0@[
        i].tags.holding_registers.elems() && devices.0@[i].tags.input_registers.elems() == pre.0@[
        i].tags.input_registers.elems() && devices.0@[i].tags.discrete_inputs.elems() == pre.0@[
        i].tags.discrete_inputs.elems() && devices.0@[i].tags.coils.elems() == pre.0@[
        i].tags.coils.elems() by {
        if i != idx {
            assert(devices.0@[i] == entry.0@[i]);
        }
        assert(entry.0@[i].unit == pre.0@[i].unit);
    };
    assert forall|i: int, j: int|
        0 <= i < j < devices.0@.len() implies (#[trigger] devices.0@[i]).unit < (
    #[trigger] devices.0@[j]).unit by {
        assert(pre.0@[i].unit < pre.0@[j].unit);
    };
    assert forall|i: int| 0 <= i < devices.0@.len() implies (#[trigger] devices.0@[i]).tags.wf()
        && devices.0@[i].ranges.wf() && devices.0@[i].tags.slots_valid(session.slots@[i]) by {
        if i != idx {
            assert(devices.0@[i] == entry.0@[i]);
            assert(entry.0@[i].tags.wf());
            assert(entry.0@[i].tags.slots_valid(session.slots@[i]));
        } else {
            assert(entry.0@[i].ranges.wf());
        }
    };
}

/// A scan step that found nothing leaves everything observable as it was.
proof fn poll_none_step(devices: &Devices, session: &WsSession, entry: Devices, pre: Devices, idx: int)
    requires
        0 <= idx < pre.0@.len(),
        entry.wf(),
        session.valid_for(entry),
        same_store(entry, pre),
        pre.wf(),
        session.valid_for(pre),
        devices.0@.len() == entry.0@.len(),
        forall|t: int|
            0 <= t < entry.0@.len() && t != idx ==> #[trigger] devices.0@[t] == entry.0@[t],
        devices.0@[idx].unit == entry.0@[idx].unit,
        devices.0@[idx].ranges == entry.0@[idx].ranges,
        devices.0@[idx].tags.wf(),
        devices.0@[idx].tags.slots_valid(session.slots@[idx]),
        devices.0@[idx].tags.holding_registers.elems() == entry.0@[
            idx].tags.holding_registers.elems(),
        devices.0@[idx].tags.input_registers.elems() == entry.0@[
            idx].tags.input_registers.elems(),
        devices.0@[idx].tags.discrete_inputs.elems() == entry.0@[
            idx].tags.discrete_inputs.elems(),
        devices.0@[idx].tags.coils.elems() == entry.0@[idx].tags.coils.elems(),
        devices.0@[idx].tags.holding_registers.obs() == entry.0@[
            idx].tags.holding_registers.obs(),
        devices.0@[idx].tags.input_registers.obs() == entry.0@[idx].tags.input_registers.obs(),
        devices.0@[idx].tags.discrete_inputs.obs() == entry.0@[idx].tags.discrete_inputs.obs(),
        devices.0@[idx].tags.coils.obs() == entry.0@[idx].tags.coils.obs(),
    ensures
        devices.wf(),
        session.valid_for(*devices),
        same_store(*devices, pre),
{
    assert forall|i: int|
        0 <= i < devices.0@.len() implies {
            let x = #[trigger] devices.0@[i];
            let y = pre.0@[i];
            &&& x.unit == y.unit
            &&& x.ranges == y.ranges
            &&& x.tags.holding_registers.elems() == y.tags.holding_registers.elems()
            &&& x.tags.input_registers.elems() == y.tags.input_registers.elems()
            &&& x.tags.discrete_inputs.elems() == y.tags.discrete_inputs.elems()
            &&& x.tags.coils.elems() == y.tags.coils.elems()
            &&& x.tags.holding_registers.obs() == y.tags.holding_registers.obs()
            &&& x.tags.input_registers.obs() == y.tags.input_registers.obs()
            &&& x.tags.discrete_inputs.obs() == y.tags.discrete_inputs.obs()
            &&& x.tags.coils.obs() == y.tags.coils.obs()
        } by {
        if i != idx {
            assert(devices.0@[i] == entry.0@[i]);
        }
        assert(entry.0@[i].unit == pre.0@[i].unit);
    };
    lemma_same_store_wf(*devices, pre, session);
}

} // verus!
