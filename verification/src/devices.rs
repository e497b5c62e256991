//! The device index: every configured unit's register store and declared
//! address ranges, looked up by unit address.

use crate::device_list::{sorted_by_addr, DeviceDefList};
use crate::range_array::spans_cover;
use crate::tag_list::{bits_declare, regs_declare, ADDRESS_SPACE};
use crate::tag_ranges::TagRanges;
use crate::tags::{
    apply_bit_inits, apply_reg_inits, Tags,
};
use vstd::prelude::*;

verus! {

/// Why a request against the device index failed.
#[derive(Clone, Copy, Debug, PartialEq, Eq, Structural)]
pub enum Error {
    UnitNotAvailabe,
    LockFailed,
}

/// One configured device: its unit address, register store, and declared
/// ranges.
pub struct Device {
    pub unit: u8,
    pub tags: Tags,
    pub ranges: TagRanges,
}

/// All configured devices, ordered by unit address.  The table is built once
/// at startup; the shells share it behind one lock and call the verified
/// operations under it.
pub struct Devices(pub Vec<Device>);

/// Units appear strictly ascending, so each unit address occurs once.
pub open spec fn sorted_by_unit(s: Seq<Device>) -> bool {
    forall|i: int, j: int| 0 <= i < j < s.len() ==> (#[trigger] s[i]).unit < (#[trigger] s[j]).unit
}


/// The index of the device with this unit address (meaningful when some
/// device has it).
pub open spec fn unit_idx(s: Seq<Device>, unit: u8) -> int {
    choose|i: int| 0 <= i < s.len() && (#[trigger] s[i]).unit == unit
}

/// With units strictly ascending, the index of a present unit is the one
/// position holding it.
pub proof fn lemma_unit_idx(s: Seq<Device>, unit: u8)
    requires
        sorted_by_unit(s),
        exists|i: int| 0 <= i < s.len() && (#[trigger] s[i]).unit == unit,
    ensures
        0 <= unit_idx(s, unit) < s.len(),
        s[unit_idx(s, unit)].unit == unit,
        forall|j: int| 0 <= j < s.len() && (#[trigger] s[j]).unit == unit ==> j == unit_idx(s, unit),
{
    let i = unit_idx(s, unit);
    assert(0 <= i < s.len() && s[i].unit == unit);
    assert forall|j: int| 0 <= j < s.len() && (#[trigger] s[j]).unit == unit implies j == i by {
        if j < i {
            assert(s[j].unit < s[i].unit);
        } else if j > i {
            assert(s[i].unit < s[j].unit);
        }
    };
}

impl Devices {
    pub open spec fn wf(&self) -> bool {
        &&& sorted_by_unit(self.0@)
        &&& forall|i: int| 0 <= i < self.0@.len() ==> (#[trigger] self.0@[i]).tags.wf()
        &&& forall|i: int| 0 <= i < self.0@.len() ==> (#[trigger] self.0@[i]).ranges.wf()
    }

    /// Some configured device has this unit address.
    pub open spec fn has_unit(&self, unit: u8) -> bool {
        exists|i: int| 0 <= i < self.0@.len() && (#[trigger] self.0@[i]).unit == unit
    }

    /// Build the index from the parsed catalogue: one device per definition,
    /// in the catalogue's (ascending) unit order, each with its register
    /// store loaded and its declared ranges collected.
    pub fn new(init: &DeviceDefList) -> (r: Devices)
        requires
            init.wf(),
            forall|i: int| 0 <= i < init@.len() ==> (#[trigger] init@[i]).tags.wf(),
        ensures
            r.wf(),
            r.0@.len() == init@.len(),
            forall|i: int|
                0 <= i < init@.len() ==> (#[trigger] r.0@[i]).unit == init@[i].addr,
            forall|i: int|
                0 <= i < init@.len() ==> (#[trigger] r.0@[i]).tags.holding_registers.elems()
                    == apply_reg_inits(
                    Seq::new(ADDRESS_SPACE as nat, |k: int| 0u16),
                    init@[i].tags.holding_registers@,
                    0,
                ),
            forall|i: int|
                0 <= i < init@.len() ==> (#[trigger] r.0@[i]).tags.input_registers.elems()
                    == apply_reg_inits(
                    Seq::new(ADDRESS_SPACE as nat, |k: int| 0u16),
                    init@[i].tags.input_registers@,
                    0,
                ),
            forall|i: int|
                0 <= i < init@.len() ==> (#[trigger] r.0@[i]).tags.discrete_inputs.elems()
                    == apply_bit_inits(
                    Seq::new(ADDRESS_SPACE as nat, |k: int| false),
                    init@[i].tags.discrete_inputs@,
                    0,
                ),
            forall|i: int|
                0 <= i < init@.len() ==> (#[trigger] r.0@[i]).tags.coils.elems()
                    == apply_bit_inits(
                    Seq::new(ADDRESS_SPACE as nat, |k: int| false),
                    init@[i].tags.coils@,
                    0,
                ),
            forall|i: int, a: int|
                0 <= i < init@.len() ==> (#[trigger] spans_cover(
                    (#[trigger] r.0@[i]).ranges.holding_registers@,
                    a,
                ) <==> regs_declare(init@[i].tags.holding_registers@, 0, a)),
            forall|i: int, a: int|
                0 <= i < init@.len() ==> (#[trigger] spans_cover(
                    (#[trigger] r.0@[i]).ranges.input_registers@,
                    a,
                ) <==> regs_declare(init@[i].tags.input_registers@, 0, a)),
            forall|i: int, a: int|
                0 <= i < init@.len() ==> (#[trigger] spans_cover(
                    (#[trigger] r.0@[i]).ranges.discrete_inputs@,
                    a,
                ) <==> bits_declare(init@[i].tags.discrete_inputs@, 0, a)),
            forall|i: int, a: int|
                0 <= i < init@.len() ==> (#[trigger] spans_cover(
                    (#[trigger] r.0@[i]).ranges.coils@,
                    a,
                ) <==> bits_declare(init@[i].tags.coils@, 0, a)),
            forall|i: int|
                0 <= i < init@.len() ==> (#[trigger] r.0@[i]).tags.holding_registers.obs().len()
                    == 1 && r.0@[i].tags.input_registers.obs().len() == 1
                    && r.0@[i].tags.discrete_inputs.obs().len() == 1
                    && r.0@[i].tags.coils.obs().len() == 1,
    {
        let defs = init.devices();
        let n = defs.len();
        let mut devs: Vec<Device> = Vec::new();
        let mut i: usize = 0;
        while i < n
            invariant
                n == init@.len(),
                defs@ == init@,
                sorted_by_addr(init@),
                forall|t: int| 0 <= t < n ==> (#[trigger] init@[t]).tags.wf(),
                i <= n,
                devs@.len() == i,
                forall|t: int| 0 <= t < i ==> (#[trigger] devs@[t]).unit == init@[t].addr,
                forall|t: int| 0 <= t < i ==> (#[trigger] devs@[t]).tags.wf(),
                forall|t: int| 0 <= t < i ==> (#[trigger] devs@[t]).ranges.wf(),
                forall|t: int|
                    0 <= t < i ==> (#[trigger] devs@[t]).tags.holding_registers.elems()
                        == apply_reg_inits(
                        Seq::new(ADDRESS_SPACE as nat, |k: int| 0u16),
                        init@[t].tags.holding_registers@,
                        0,
                    ),
                forall|t: int|
                    0 <= t < i ==> (#[trigger] devs@[t]).tags.input_registers.elems()
                        == apply_reg_inits(
                        Seq::new(ADDRESS_SPACE as nat, |k: int| 0u16),
                        init@[t].tags.input_registers@,
                        0,
                    ),
                forall|t: int|
                    0 <= t < i ==> (#[trigger] devs@[t]).tags.discrete_inputs.elems()
                        == apply_bit_inits(
                        Seq::new(ADDRESS_SPACE as nat, |k: int| false),
                        init@[t].tags.discrete_inputs@,
                        0,
                    ),
                forall|t: int|
                    0 <= t < i ==> (#[trigger] devs@[t]).tags.coils.elems() == apply_bit_inits(
                        Seq::new(ADDRESS_SPACE as nat, |k: int| false),
                        init@[t].tags.coils@,
                        0,
                    ),
                forall|t: int, a: int|
                    0 <= t < i ==> (#[trigger] spans_cover(
                        (#[trigger] devs@[t]).ranges.holding_registers@,
                        a,
                    ) <==> regs_declare(init@[t].tags.holding_registers@, 0, a)),
                forall|t: int, a: int|
                    0 <= t < i ==> (#[trigger] spans_cover(
                        (#[trigger] devs@[t]).ranges.input_registers@,
                        a,
                    ) <==> regs_declare(init@[t].tags.input_registers@, 0, a)),
                forall|t: int, a: int|
                    0 <= t < i ==> (#[trigger] spans_cover(
                        (#[trigger] devs@[t]).ranges.discrete_inputs@,
                        a,
                    ) <==> bits_declare(init@[t].tags.discrete_inputs@, 0, a)),
                forall|t: int, a: int|
                    0 <= t < i ==> (#[trigger] spans_cover(
                        (#[trigger] devs@[t]).ranges.coils@,
                        a,
                    ) <==> bits_declare(init@[t].tags.coils@, 0, a)),
                forall|t: int|
                    0 <= t < i ==> (#[trigger] devs@[t]).tags.holding_registers.obs().len() == 1
                        && devs@[t].tags.input_registers.obs().len() == 1
                        && devs@[t].tags.discrete_inputs.obs().len() == 1
                        && devs@[t].tags.coils.obs().len() == 1,
            decreases n - i,
        {
            let def = &defs[i];
            let tags = Tags::new(&def.tags);
            let ranges = TagRanges::from_tag_list(&def.tags);
            let dev = Device { unit: def.addr, tags, ranges };
            devs.push(dev);
            i += 1;
        }
        Devices(devs)
    }

    /// Find the index of the device with this unit address.
    pub fn find_unit(&self, unit: u8) -> (r: Option<usize>)
        ensures
            r is Some <==> self.has_unit(unit),
            r is Some ==> r.unwrap() < self.0@.len() && self.0@[r.unwrap() as int].unit == unit,
    {
        let n = self.0.len();
        let mut i: usize = 0;
        while i < n
            invariant
                n == self.0@.len(),
                i <= n,
                forall|t: int| 0 <= t < i ==> (#[trigger] self.0@[t]).unit != unit,
            decreases n - i,
        {
            if self.0[i].unit == unit {
                return Some(i);
            }
            i += 1;
        }
        proof {
            if self.has_unit(unit) {
                let t = choose|t: int|
                    0 <= t < self.0@.len() && (#[trigger] self.0@[t]).unit == unit;
                assert(false);
            }
        }
        None
    }

    /// Borrow the register store of the device with this unit address.
    pub fn tags_read(&self, unit: u8) -> (r: Result<&Tags, Error>)
        ensures
            r is Ok <==> self.has_unit(unit),
            r is Err ==> r->Err_0 == Error::UnitNotAvailabe,
            r is Ok ==> exists|i: int|
                0 <= i < self.0@.len() && (#[trigger] self.0@[i]).unit == unit && *r.unwrap()
                    == self.0@[i].tags,
    {
        match self.find_unit(unit) {
            Some(i) => {
                let dev = &self.0[i];
                assert(self.0@[i as int].unit == unit);
                Ok(&dev.tags)
            },
            None => Err(Error::UnitNotAvailabe),
        }
    }

    /// Borrow the declared ranges of the device with this unit address.
    pub fn ranges(&self, unit: u8) -> (r: Result<&TagRanges, Error>)
        ensures
            r is Ok <==> self.has_unit(unit),
            r is Err ==> r->Err_0 == Error::UnitNotAvailabe,
            r is Ok ==> exists|i: int|
                0 <= i < self.0@.len() && (#[trigger] self.0@[i]).unit == unit && *r.unwrap()
                    == self.0@[i].ranges,
    {
        match self.find_unit(unit) {
            Some(i) => Ok(&self.0[i].ranges),
            None => Err(Error::UnitNotAvailabe),
        }
    }

    /// The configured unit addresses, in ascending order.
    pub fn units(&self) -> (r: Vec<u8>)
        ensures
            r@.len() == self.0@.len(),
            forall|i: int| 0 <= i < r@.len() ==> #[trigger] r@[i] == self.0@[i].unit,
    {
        let n = self.0.len();
        let mut r: Vec<u8> = Vec::new();
        let mut i: usize = 0;
        while i < n
            invariant
                n == self.0@.len(),
                i <= n,
                r@.len() == i,
                forall|t: int| 0 <= t < i ==> #[trigger] r@[t] == self.0@[t].unit,
            decreases n - i,
        {
            r.push(self.0[i].unit);
            i += 1;
        }
        r
    }
}

} // verus!
