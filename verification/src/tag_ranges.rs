//! The declared address ranges of one device, per address space.
//!
//! These sets drive the client's read plan: every address a catalogue
//! declares must be read, and nothing else.

use crate::range_array::{span_contains, spans_cover, RangeArray, Span};
use crate::tag_list::{
    bit_item_declares, bit_item_wf, bits_declare, bits_wf, reg_item_declares, reg_item_wf,
    regs_declare, regs_wf, BitOrGroup, RegisterOrGroup, TagList, TagOrGroup,
};
use vstd::prelude::*;

verus! {

/// The declared addresses of each of the four address spaces of one device.
pub struct TagRanges {
    pub holding_registers: RangeArray<u16>,
    pub input_registers: RangeArray<u16>,
    pub discrete_inputs: RangeArray<u16>,
    pub coils: RangeArray<u16>,
}

impl TagRanges {
    pub open spec fn wf(&self) -> bool {
        &&& self.holding_registers.wf()
        &&& self.input_registers.wf()
        &&& self.discrete_inputs.wf()
        &&& self.coils.wf()
    }

    pub fn new() -> (r: Self)
        ensures
            r.wf(),
            r.holding_registers@.len() == 0,
            r.input_registers@.len() == 0,
            r.discrete_inputs@.len() == 0,
            r.coils@.len() == 0,
    {
        TagRanges {
            holding_registers: RangeArray::new(),
            input_registers: RangeArray::new(),
            discrete_inputs: RangeArray::new(),
            coils: RangeArray::new(),
        }
    }

    /// Collect the declared addresses of a whole catalogue entry.
    pub fn from_tag_list(tag_list: &TagList) -> (r: Self)
        requires
            tag_list.wf(),
        ensures
            r.wf(),
            forall|a: int|
                #[trigger] spans_cover(r.holding_registers@, a) <==> regs_declare(
                    tag_list.holding_registers@,
                    0,
                    a,
                ),
            forall|a: int|
                #[trigger] spans_cover(r.input_registers@, a) <==> regs_declare(
                    tag_list.input_registers@,
                    0,
                    a,
                ),
            forall|a: int|
                #[trigger] spans_cover(r.discrete_inputs@, a) <==> bits_declare(
                    tag_list.discrete_inputs@,
                    0,
                    a,
                ),
            forall|a: int|
                #[trigger] spans_cover(r.coils@, a) <==> bits_declare(tag_list.coils@, 0, a),
    {
        let mut ranges = TagRanges::new();
        get_register_ranges(&mut ranges.input_registers, 0, &tag_list.input_registers);
        get_register_ranges(&mut ranges.holding_registers, 0, &tag_list.holding_registers);
        get_bit_ranges(&mut ranges.discrete_inputs, 0, &tag_list.discrete_inputs);
        get_bit_ranges(&mut ranges.coils, 0, &tag_list.coils);
        ranges
    }
}

/// Union the addresses declared by the register entries, offset by the base
/// address, into `ranges`.
pub fn get_register_ranges(
    ranges: &mut RangeArray<u16>,
    base_address: u16,
    registers: &Vec<RegisterOrGroup>,
)
    requires
        old(ranges).wf(),
        regs_wf(registers@, base_address as int),
    ensures
        final(ranges).wf(),
        forall|a: int|
            #[trigger] spans_cover(final(ranges)@, a) <==> spans_cover(old(ranges)@, a)
                || regs_declare(registers@, base_address as int, a),
    decreases *registers,
{
    let ghost r0 = old(ranges)@;
    let n = registers.len();
    let mut i: usize = 0;
    while i < n
        invariant
            ranges.wf(),
            n == registers@.len(),
            regs_wf(registers@, base_address as int),
            i <= n,
            forall|a: int|
                #[trigger] spans_cover(ranges@, a) <==> spans_cover(r0, a) || (exists|t: int|
                    0 <= t < i && reg_item_declares(
                        #[trigger] registers@[t],
                        base_address as int,
                        a,
                    )),
        decreases n - i,
    {
        let ghost pre = ranges@;
        assert(reg_item_wf(registers@[i as int], base_address as int));
        match &registers[i] {
            TagOrGroup::Tag(r) => {
                let span = Span { start: base_address + r.address_low, end: base_address
                    + r.address_high + 1 };
                ranges.union(&span);
                proof {
                    assert forall|a: int| #[trigger]
                        spans_cover(ranges@, a) <==> spans_cover(r0, a) || (exists|t: int|
                            0 <= t < i + 1 && reg_item_declares(
                                #[trigger] registers@[t],
                                base_address as int,
                                a,
                            )) by {
                        assert(spans_cover(ranges@, a) <==> spans_cover(pre, a) || span_contains(
                            crate::range_array::span_view(span),
                            a,
                        ));
                        if spans_cover(ranges@, a) {
                            if !spans_cover(pre, a) {
                                assert(reg_item_declares(
                                    registers@[i as int],
                                    base_address as int,
                                    a,
                                ));
                            }
                        }
                        if exists|t: int|
                            0 <= t < i + 1 && reg_item_declares(
                                #[trigger] registers@[t],
                                base_address as int,
                                a,
                            ) {
                            let t = choose|t: int|
                                0 <= t < i + 1 && reg_item_declares(
                                    #[trigger] registers@[t],
                                    base_address as int,
                                    a,
                                );
                            if t == i {
                                assert(span_contains(crate::range_array::span_view(span), a));
                            } else {
                                assert(spans_cover(pre, a));
                            }
                            assert(spans_cover(ranges@, a));
                        }
                    };
                }
            },
            TagOrGroup::Group(g) => {
                get_register_ranges(ranges, base_address + g.base_address, &g.tags);
                proof {
                    assert forall|a: int| #[trigger]
                        spans_cover(ranges@, a) <==> spans_cover(r0, a) || (exists|t: int|
                            0 <= t < i + 1 && reg_item_declares(
                                #[trigger] registers@[t],
                                base_address as int,
                                a,
                            )) by {
                        assert(spans_cover(ranges@, a) <==> spans_cover(pre, a) || regs_declare(
                            g.tags@,
                            base_address + g.base_address,
                            a,
                        ));
                        if spans_cover(ranges@, a) {
                            if !spans_cover(pre, a) {
                                assert(reg_item_declares(
                                    registers@[i as int],
                                    base_address as int,
                                    a,
                                ));
                            }
                        }
                        if exists|t: int|
                            0 <= t < i + 1 && reg_item_declares(
                                #[trigger] registers@[t],
                                base_address as int,
                                a,
                            ) {
                            let t = choose|t: int|
                                0 <= t < i + 1 && reg_item_declares(
                                    #[trigger] registers@[t],
                                    base_address as int,
                                    a,
                                );
                            if t == i {
                                assert(regs_declare(g.tags@, base_address + g.base_address, a));
                            } else {
                                assert(spans_cover(pre, a));
                            }
                            assert(spans_cover(ranges@, a));
                        }
                    };
                }
            },
        }
        i += 1;
    }
}

/// Union the addresses declared by the bit entries, offset by the base
/// address, into `ranges`.
pub fn get_bit_ranges(ranges: &mut RangeArray<u16>, base_address: u16, bits: &Vec<BitOrGroup>)
    requires
        old(ranges).wf(),
        bits_wf(bits@, base_address as int),
    ensures
        final(ranges).wf(),
        forall|a: int|
            #[trigger] spans_cover(final(ranges)@, a) <==> spans_cover(old(ranges)@, a)
                || bits_declare(bits@, base_address as int, a),
    decreases *bits,
{
    let ghost r0 = old(ranges)@;
    let n = bits.len();
    let mut i: usize = 0;
    while i < n
        invariant
            ranges.wf(),
            n == bits@.len(),
            bits_wf(bits@, base_address as int),
            i <= n,
            forall|a: int|
                #[trigger] spans_cover(ranges@, a) <==> spans_cover(r0, a) || (exists|t: int|
                    0 <= t < i && bit_item_declares(
                        #[trigger] bits@[t],
                        base_address as int,
                        a,
                    )),
        decreases n - i,
    {
        let ghost pre = ranges@;
        assert(bit_item_wf(bits@[i as int], base_address as int));
        match &bits[i] {
            TagOrGroup::Tag(b) => {
                let addr = base_address + b.address;
                let span = Span { start: addr, end: addr + 1 };
                ranges.union(&span);
                proof {
                    assert forall|a: int| #[trigger]
                        spans_cover(ranges@, a) <==> spans_cover(r0, a) || (exists|t: int|
                            0 <= t < i + 1 && bit_item_declares(
                                #[trigger] bits@[t],
                                base_address as int,
                                a,
                            )) by {
                        assert(spans_cover(ranges@, a) <==> spans_cover(pre, a) || span_contains(
                            crate::range_array::span_view(span),
                            a,
                        ));
                        if spans_cover(ranges@, a) {
                            if !spans_cover(pre, a) {
                                assert(bit_item_declares(bits@[i as int], base_address as int, a));
                            }
                        }
                        if exists|t: int|
                            0 <= t < i + 1 && bit_item_declares(
                                #[trigger] bits@[t],
                                base_address as int,
                                a,
                            ) {
                            let t = choose|t: int|
                                0 <= t < i + 1 && bit_item_declares(
                                    #[trigger] bits@[t],
                                    base_address as int,
                                    a,
                                );
                            if t == i {
                                assert(span_contains(crate::range_array::span_view(span), a));
                            } else {
                                assert(spans_cover(pre, a));
                            }
                            assert(spans_cover(ranges@, a));
                        }
                    };
                }
            },
            TagOrGroup::Group(g) => {
                get_bit_ranges(ranges, base_address + g.base_address, &g.tags);
                proof {
                    assert forall|a: int| #[trigger]
                        spans_cover(ranges@, a) <==> spans_cover(r0, a) || (exists|t: int|
                            0 <= t < i + 1 && bit_item_declares(
                                #[trigger] bits@[t],
                                base_address as int,
                                a,
                            )) by {
                        assert(spans_cover(ranges@, a) <==> spans_cover(pre, a) || bits_declare(
                            g.tags@,
                            base_address + g.base_address,
                            a,
                        ));
                        if spans_cover(ranges@, a) {
                            if !spans_cover(pre, a) {
                                assert(bit_item_declares(bits@[i as int], base_address as int, a));
                            }
                        }
                        if exists|t: int|
                            0 <= t < i + 1 && bit_item_declares(
                                #[trigger] bits@[t],
                                base_address as int,
                                a,
                            ) {
                            let t = choose|t: int|
                                0 <= t < i + 1 && bit_item_declares(
                                    #[trigger] bits@[t],
                                    base_address as int,
                                    a,
                                );
                            if t == i {
                                assert(bits_declare(g.tags@, base_address + g.base_address, a));
                            } else {
                                assert(spans_cover(pre, a));
                            }
                            assert(spans_cover(ranges@, a));
                        }
                    };
                }
            },
        }
        i += 1;
    }
}

impl Default for TagRanges {
    /// No declared addresses in any space.
    fn default() -> (r: Self)
        ensures
            r.wf(),
            r.holding_registers@.len() == 0,
            r.input_registers@.len() == 0,
            r.discrete_inputs@.len() == 0,
            r.coils@.len() == 0,
    {
        TagRanges::new()
    }
}

} // verus!
