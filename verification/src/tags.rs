//! The register store of one device: four observable arrays, loaded with the
//! catalogue's initial values.

use crate::observable_array::Base;
use crate::range_array::RangeArray;
use crate::register_value::{parse, parseable, spec_parse};
use crate::tag_list::{
    reg_item_wf, regs_wf, bit_item_wf, bits_wf, Bit, BitOrGroup, RegisterOrGroup, TagList,
    TagOrGroup, ADDRESS_SPACE,
};
use vstd::prelude::*;

verus! {

/// The observer slot that writes through `Tags::new` and the shells: the
/// first slot of every array, allocated before any listener exists, so the
/// initial values appear as state and never as change events.
pub const ORIGIN_SLOT: usize = 0;

/// Which address space of a device changed, and where.
pub enum Updated {
    HoldingRegisters(RangeArray<usize>),
    InputRegisters(RangeArray<usize>),
    DiscreteInputs(RangeArray<usize>),
    Coils(RangeArray<usize>),
}

/// One listener's observer slots, one per address space of one device.
#[derive(Clone, Copy, Debug)]
pub struct TagsSlots {
    pub holding: usize,
    pub input: usize,
    pub discrete: usize,
    pub coils: usize,
}

/// The four register arrays of one device.
pub struct Tags {
    pub holding_registers: Base<u16>,
    pub input_registers: Base<u16>,
    pub discrete_inputs: Base<bool>,
    pub coils: Base<bool>,
}

/// `elems` after writing the parsed initial value of one register entry.
/// Values that fail to parse, and the scaled or floating-point values the
/// codec leaves to the shell, change nothing.
pub open spec fn apply_reg_item(elems: Seq<u16>, t: RegisterOrGroup, base: int) -> Seq<u16>
    decreases t,
{
    match t {
        TagOrGroup::Tag(r) => match r.initial_value {
            Some(s) => {
                if parseable(r) {
                    match spec_parse(r, vstd::utf8::encode_utf8(s@)) {
                        Ok(words) => elems.map(
                            |k: int, v: u16|
                                if base + r.address_low <= k < base + r.address_low
                                    + words.len() {
                                    words[k - (base + r.address_low)]
                                } else {
                                    v
                                },
                        ),
                        Err(_) => elems,
                    }
                } else {
                    elems
                }
            },
            None => elems,
        },
        TagOrGroup::Group(g) => apply_reg_inits(elems, g.tags@, base + g.base_address),
    }
}

/// `elems` after writing the initial values of a list of register entries,
/// in order.
pub open spec fn apply_reg_inits(elems: Seq<u16>, tags: Seq<RegisterOrGroup>, base: int) -> Seq<
    u16,
>
    decreases tags,
{
    if tags.len() == 0 {
        elems
    } else {
        apply_reg_inits(
            apply_reg_item(elems, tags[0], base),
            tags.subrange(1, tags.len() as int),
            base,
        )
    }
}

/// `elems` after writing one bit entry: a bit starts at its declared initial
/// value, or cleared when the catalogue gives none.
pub open spec fn apply_bit_item(elems: Seq<bool>, t: BitOrGroup, base: int) -> Seq<bool>
    decreases t,
{
    match t {
        TagOrGroup::Tag(b) => elems.map(
            |k: int, v: bool|
                if k == base + b.address {
                    b.initial_value is Some && b.initial_value.unwrap()
                } else {
                    v
                },
        ),
        TagOrGroup::Group(g) => apply_bit_inits(elems, g.tags@, base + g.base_address),
    }
}

/// `elems` after writing a list of bit entries, in order.
pub open spec fn apply_bit_inits(elems: Seq<bool>, tags: Seq<BitOrGroup>, base: int) -> Seq<bool>
    decreases tags,
{
    if tags.len() == 0 {
        elems
    } else {
        apply_bit_inits(
            apply_bit_item(elems, tags[0], base),
            tags.subrange(1, tags.len() as int),
            base,
        )
    }
}

/// The in-order fold over register entries peels its last element off.
pub proof fn lemma_apply_reg_inits_snoc(
    elems: Seq<u16>,
    tags: Seq<RegisterOrGroup>,
    x: RegisterOrGroup,
    base: int,
)
    ensures
        apply_reg_inits(elems, tags.push(x), base) == apply_reg_item(
            apply_reg_inits(elems, tags, base),
            x,
            base,
        ),
    decreases tags.len(),
{
    let p = tags.push(x);
    if tags.len() == 0 {
        assert(p[0] == x);
        assert(p.subrange(1, p.len() as int) =~= Seq::<RegisterOrGroup>::empty());
        assert(apply_reg_inits(
            apply_reg_item(elems, x, base),
            p.subrange(1, p.len() as int),
            base,
        ) == apply_reg_item(elems, x, base));
        assert(apply_reg_inits(elems, tags, base) == elems);
    } else {
        assert(p[0] == tags[0]);
        assert(p.subrange(1, p.len() as int) =~= tags.subrange(1, tags.len() as int).push(x));
        lemma_apply_reg_inits_snoc(
            apply_reg_item(elems, tags[0], base),
            tags.subrange(1, tags.len() as int),
            x,
            base,
        );
        assert(apply_reg_inits(elems, p, base) == apply_reg_inits(
            apply_reg_item(elems, tags[0], base),
            p.subrange(1, p.len() as int),
            base,
        ));
        assert(apply_reg_inits(elems, tags, base) == apply_reg_inits(
            apply_reg_item(elems, tags[0], base),
            tags.subrange(1, tags.len() as int),
            base,
        ));
    }
}

/// The in-order fold over bit entries peels its last element off.
pub proof fn lemma_apply_bit_inits_snoc(
    elems: Seq<bool>,
    tags: Seq<BitOrGroup>,
    x: BitOrGroup,
    base: int,
)
    ensures
        apply_bit_inits(elems, tags.push(x), base) == apply_bit_item(
            apply_bit_inits(elems, tags, base),
            x,
            base,
        ),
    decreases tags.len(),
{
    let p = tags.push(x);
    if tags.len() == 0 {
        assert(p[0] == x);
        assert(p.subrange(1, p.len() as int) =~= Seq::<BitOrGroup>::empty());
        assert(apply_bit_inits(
            apply_bit_item(elems, x, base),
            p.subrange(1, p.len() as int),
            base,
        ) == apply_bit_item(elems, x, base));
        assert(apply_bit_inits(elems, tags, base) == elems);
    } else {
        assert(p[0] == tags[0]);
        assert(p.subrange(1, p.len() as int) =~= tags.subrange(1, tags.len() as int).push(x));
        lemma_apply_bit_inits_snoc(
            apply_bit_item(elems, tags[0], base),
            tags.subrange(1, tags.len() as int),
            x,
            base,
        );
        assert(apply_bit_inits(elems, p, base) == apply_bit_inits(
            apply_bit_item(elems, tags[0], base),
            p.subrange(1, p.len() as int),
            base,
        ));
        assert(apply_bit_inits(elems, tags, base) == apply_bit_inits(
            apply_bit_item(elems, tags[0], base),
            tags.subrange(1, tags.len() as int),
            base,
        ));
    }
}

/// Writing initial register values never changes the array's length.
pub proof fn lemma_apply_reg_item_len(elems: Seq<u16>, t: RegisterOrGroup, base: int)
    ensures
        apply_reg_item(elems, t, base).len() == elems.len(),
    decreases t,
{
    match t {
        TagOrGroup::Tag(r) => {},
        TagOrGroup::Group(g) => {
            lemma_apply_reg_inits_len(elems, g.tags@, base + g.base_address);
        },
    }
}

pub proof fn lemma_apply_reg_inits_len(elems: Seq<u16>, tags: Seq<RegisterOrGroup>, base: int)
    ensures
        apply_reg_inits(elems, tags, base).len() == elems.len(),
    decreases tags,
{
    if tags.len() > 0 {
        lemma_apply_reg_item_len(elems, tags[0], base);
        lemma_apply_reg_inits_len(
            apply_reg_item(elems, tags[0], base),
            tags.subrange(1, tags.len() as int),
            base,
        );
    }
}

/// Writing initial bit values never changes the array's length.
pub proof fn lemma_apply_bit_item_len(elems: Seq<bool>, t: BitOrGroup, base: int)
    ensures
        apply_bit_item(elems, t, base).len() == elems.len(),
    decreases t,
{
    match t {
        TagOrGroup::Tag(b) => {},
        TagOrGroup::Group(g) => {
            lemma_apply_bit_inits_len(elems, g.tags@, base + g.base_address);
        },
    }
}

pub proof fn lemma_apply_bit_inits_len(elems: Seq<bool>, tags: Seq<BitOrGroup>, base: int)
    ensures
        apply_bit_inits(elems, tags, base).len() == elems.len(),
    decreases tags,
{
    if tags.len() > 0 {
        lemma_apply_bit_item_len(elems, tags[0], base);
        lemma_apply_bit_inits_len(
            apply_bit_item(elems, tags[0], base),
            tags.subrange(1, tags.len() as int),
            base,
        );
    }
}

/// Write the initial values of the register entries into the array, as the
/// origin, offset by the base address.
fn init_registers(array: &mut Base<u16>, base_address: u16, tags: &Vec<RegisterOrGroup>)
    requires
        old(array).wf(),
        old(array).elems().len() == ADDRESS_SPACE,
        regs_wf(tags@, base_address as int),
        old(array).obs().len() == 1,
        old(array).obs()[ORIGIN_SLOT as int] is Some,
    ensures
        final(array).wf(),
        final(array).elems() == apply_reg_inits(
            old(array).elems(),
            tags@,
            base_address as int,
        ),
        final(array).obs() == old(array).obs(),
    decreases *tags,
{
    let n = tags.len();
    let mut i: usize = 0;
    while i < n
        invariant
            array.wf(),
            array.elems().len() == ADDRESS_SPACE,
            n == tags@.len(),
            regs_wf(tags@, base_address as int),
            array.obs().len() == 1,
            array.obs() == old(array).obs(),
            array.obs()[ORIGIN_SLOT as int] is Some,
            i <= n,
            array.elems() == apply_reg_inits(
                old(array).elems(),
                tags@.subrange(0, i as int),
                base_address as int,
            ),
        decreases n - i,
    {
        let ghost pre = array.elems();
        proof {
            assert(tags@.subrange(0, i + 1) =~= tags@.subrange(0, i as int).push(
                tags@[i as int],
            ));
            lemma_apply_reg_inits_snoc(
                old(array).elems(),
                tags@.subrange(0, i as int),
                tags@[i as int],
                base_address as int,
            );
            lemma_apply_reg_item_len(array.elems(), tags@[i as int], base_address as int);
            assert(reg_item_wf(tags@[i as int], base_address as int));
        }
        match &tags[i] {
            TagOrGroup::Tag(r) => {
                match &r.initial_value {
                    Some(value_str) => {
                        let can_parse = match r.encoding.value {
                            crate::encoding::ValueType::Integer { .. } => !r.presentation.scaled,
                            crate::encoding::ValueType::String { .. } => true,
                            crate::encoding::ValueType::Float => false,
                        };
                        if can_parse {
                            assert(parseable(*r));
                            match parse(r, value_str.as_str()) {
                                Ok(words) => {
                                    let start = (base_address as usize) + (r.address_low as usize);
                                    proof {
                                        assert(words@.len() == (r.address_high - r.address_low
                                            + 1));
                                    }
                                    let wakes = array.update(
                                        start,
                                        words.as_slice(),
                                        ORIGIN_SLOT,
                                    );
                                    proof {
                                        assert(array.elems() =~= apply_reg_item(
                                            pre,
                                            tags@[i as int],
                                            base_address as int,
                                        ));
                                        assert(array.obs() =~= old(array).obs());
                                    }
                                },
                                Err(_) => {
                                    // an unparsable initial value is skipped;
                                    // the registers keep their defaults
                                },
                            }
                        } else {
                            // scaled and floating-point initial values are
                            // the presentation shell's to write
                        }
                    },
                    None => {},
                }
            },
            TagOrGroup::Group(g) => {
                init_registers(array, base_address + g.base_address, &g.tags);
            },
        }
        i += 1;
    }
    proof {
        assert(tags@.subrange(0, n as int) =~= tags@);
    }
}

/// Write the initial values of the bit entries into the array, as the
/// origin, offset by the base address.
fn init_bits(array: &mut Base<bool>, base_address: u16, tags: &Vec<BitOrGroup>)
    requires
        old(array).wf(),
        old(array).elems().len() == ADDRESS_SPACE,
        bits_wf(tags@, base_address as int),
        old(array).obs().len() == 1,
        old(array).obs()[ORIGIN_SLOT as int] is Some,
    ensures
        final(array).wf(),
        final(array).elems() == apply_bit_inits(old(array).elems(), tags@, base_address as int),
        final(array).obs() == old(array).obs(),
    decreases *tags,
{
    let n = tags.len();
    let mut i: usize = 0;
    while i < n
        invariant
            array.wf(),
            array.elems().len() == ADDRESS_SPACE,
            n == tags@.len(),
            bits_wf(tags@, base_address as int),
            array.obs().len() == 1,
            array.obs() == old(array).obs(),
            array.obs()[ORIGIN_SLOT as int] is Some,
            i <= n,
            array.elems() == apply_bit_inits(
                old(array).elems(),
                tags@.subrange(0, i as int),
                base_address as int,
            ),
        decreases n - i,
    {
        let ghost pre = array.elems();
        proof {
            assert(tags@.subrange(0, i + 1) =~= tags@.subrange(0, i as int).push(
                tags@[i as int],
            ));
            lemma_apply_bit_inits_snoc(
                old(array).elems(),
                tags@.subrange(0, i as int),
                tags@[i as int],
                base_address as int,
            );
            lemma_apply_bit_item_len(array.elems(), tags@[i as int], base_address as int);
            assert(bit_item_wf(tags@[i as int], base_address as int));
        }
        match &tags[i] {
            TagOrGroup::Tag(b) => {
                let addr = (base_address as usize) + (b.address as usize);
                let value = match b.initial_value {
                    Some(v) => v,
                    None => false,
                };
                let data: Vec<bool> = vec![value];
                let wakes = array.update(addr, data.as_slice(), ORIGIN_SLOT);
                proof {
                    assert(array.elems() =~= apply_bit_item(
                        pre,
                        tags@[i as int],
                        base_address as int,
                    ));
                    assert(array.obs() =~= old(array).obs());
                }
            },
            TagOrGroup::Group(g) => {
                init_bits(array, base_address + g.base_address, &g.tags);
            },
        }
        i += 1;
    }
    proof {
        assert(tags@.subrange(0, n as int) =~= tags@);
    }
}

impl Tags {
    /// Every array spans the whole address space, is well formed, and has at
    /// least the origin slot.
    pub open spec fn wf(&self) -> bool {
        &&& self.holding_registers.wf()
        &&& self.input_registers.wf()
        &&& self.discrete_inputs.wf()
        &&& self.coils.wf()
        &&& self.holding_registers.elems().len() == ADDRESS_SPACE
        &&& self.input_registers.elems().len() == ADDRESS_SPACE
        &&& self.discrete_inputs.elems().len() == ADDRESS_SPACE
        &&& self.coils.elems().len() == ADDRESS_SPACE
        &&& self.holding_registers.obs().len() >= 1
        &&& self.input_registers.obs().len() >= 1
        &&& self.discrete_inputs.obs().len() >= 1
        &&& self.coils.obs().len() >= 1
        &&& self.holding_registers.obs()[ORIGIN_SLOT as int] is Some
        &&& self.input_registers.obs()[ORIGIN_SLOT as int] is Some
        &&& self.discrete_inputs.obs()[ORIGIN_SLOT as int] is Some
        &&& self.coils.obs()[ORIGIN_SLOT as int] is Some
    }

    /// Allocate the four arrays over the full address space and write the
    /// catalogue's initial values through the origin slot.
    pub fn new(init: &TagList) -> (r: Tags)
        requires
            init.wf(),
        ensures
            r.wf(),
            r.holding_registers.elems() == apply_reg_inits(
                Seq::new(ADDRESS_SPACE as nat, |k: int| 0u16),
                init.holding_registers@,
                0,
            ),
            r.input_registers.elems() == apply_reg_inits(
                Seq::new(ADDRESS_SPACE as nat, |k: int| 0u16),
                init.input_registers@,
                0,
            ),
            r.discrete_inputs.elems() == apply_bit_inits(
                Seq::new(ADDRESS_SPACE as nat, |k: int| false),
                init.discrete_inputs@,
                0,
            ),
            r.coils.elems() == apply_bit_inits(
                Seq::new(ADDRESS_SPACE as nat, |k: int| false),
                init.coils@,
                0,
            ),
            r.holding_registers.obs().len() == 1,
            r.input_registers.obs().len() == 1,
            r.discrete_inputs.obs().len() == 1,
            r.coils.obs().len() == 1,
    {
        let mut holding_registers: Base<u16> = Base::new(ADDRESS_SPACE, 0);
        let mut input_registers: Base<u16> = Base::new(ADDRESS_SPACE, 0);
        let mut discrete_inputs: Base<bool> = Base::new(ADDRESS_SPACE, false);
        let mut coils: Base<bool> = Base::new(ADDRESS_SPACE, false);
        let h0 = holding_registers.get_observer();
        let i0 = input_registers.get_observer();
        let d0 = discrete_inputs.get_observer();
        let c0 = coils.get_observer();
        proof {
            assert(holding_registers.elems() =~= Seq::new(ADDRESS_SPACE as nat, |k: int| 0u16));
            assert(input_registers.elems() =~= Seq::new(ADDRESS_SPACE as nat, |k: int| 0u16));
            assert(discrete_inputs.elems() =~= Seq::new(ADDRESS_SPACE as nat, |k: int| false));
            assert(coils.elems() =~= Seq::new(ADDRESS_SPACE as nat, |k: int| false));
        }
        init_registers(&mut holding_registers, 0, &init.holding_registers);
        init_registers(&mut input_registers, 0, &init.input_registers);
        init_bits(&mut discrete_inputs, 0, &init.discrete_inputs);
        init_bits(&mut coils, 0, &init.coils);
        proof {
            lemma_apply_reg_inits_len(
                Seq::new(ADDRESS_SPACE as nat, |k: int| 0u16),
                init.holding_registers@,
                0,
            );
            lemma_apply_reg_inits_len(
                Seq::new(ADDRESS_SPACE as nat, |k: int| 0u16),
                init.input_registers@,
                0,
            );
            lemma_apply_bit_inits_len(
                Seq::new(ADDRESS_SPACE as nat, |k: int| false),
                init.discrete_inputs@,
                0,
            );
            lemma_apply_bit_inits_len(
                Seq::new(ADDRESS_SPACE as nat, |k: int| false),
                init.coils@,
                0,
            );
        }
        Tags { holding_registers, input_registers, discrete_inputs, coils }
    }

    /// The slots are valid observer slots of the four arrays.
    pub open spec fn slots_valid(&self, slots: TagsSlots) -> bool {
        &&& slots.holding < self.holding_registers.obs().len()
        &&& self.holding_registers.obs()[slots.holding as int] is Some
        &&& slots.input < self.input_registers.obs().len()
        &&& self.input_registers.obs()[slots.input as int] is Some
        &&& slots.discrete < self.discrete_inputs.obs().len()
        &&& self.discrete_inputs.obs()[slots.discrete as int] is Some
        &&& slots.coils < self.coils.obs().len()
        &&& self.coils.obs()[slots.coils as int] is Some
    }

    /// Drain the first non-empty dirty set among this listener's four slots,
    /// checking the address spaces in declaration order.  Returns `None`, and
    /// changes nothing, when no array has pending changes for this listener.
    /// Whatever is drained, every other dirty set -- of the other listeners,
    /// and of this listener's later address spaces -- is left pending.
    pub fn try_updated(&mut self, slots: &TagsSlots) -> (r: Option<Updated>)
        requires
            old(self).wf(),
            old(self).slots_valid(*slots),
        ensures
            final(self).wf(),
            final(self).slots_valid(*slots),
            final(self).holding_registers.elems() == old(self).holding_registers.elems(),
            final(self).input_registers.elems() == old(self).input_registers.elems(),
            final(self).discrete_inputs.elems() == old(self).discrete_inputs.elems(),
            final(self).coils.elems() == old(self).coils.elems(),
            r is None ==> final(self).holding_registers.obs() == old(self).holding_registers.obs() && final(self).input_registers.obs() == old(self).input_registers.obs() && final(self).discrete_inputs.obs() == old(self).discrete_inputs.obs() && final(self).coils.obs() == old(self).coils.obs() && old(self).holding_registers.obs()[slots.holding as int].unwrap().len() == 0 && old(self).input_registers.obs()[slots.input as int].unwrap().len() == 0 && old(self).discrete_inputs.obs()[slots.discrete as int].unwrap().len() == 0 && old(self).coils.obs()[slots.coils as int].unwrap().len() == 0,
            r matches Some(Updated::HoldingRegisters(d)) ==> d@ == old(self).holding_registers.obs()[slots.holding as int].unwrap() && d@.len() > 0
                && final(self).holding_registers.obs()[slots.holding as int] == Some(
                Seq::<(int, int)>::empty(),
            ) && crate::observable_array::dirty_in_bounds(d@, ADDRESS_SPACE as int) && final(self).holding_registers.obs().len() == old(self).holding_registers.obs().len() && (
            forall|j: int|
                0 <= j < old(self).holding_registers.obs().len() && j != slots.holding
                    ==> #[trigger] final(self).holding_registers.obs()[j] == old(self).holding_registers.obs()[j]) && final(self).input_registers.obs() == old(self).input_registers.obs() && final(self).discrete_inputs.obs() == old(self).discrete_inputs.obs() && final(self).coils.obs() == old(self).coils.obs(),
            r matches Some(Updated::InputRegisters(d)) ==> d@ == old(self).input_registers.obs()[
                slots.input as int].unwrap() && d@.len() > 0 && final(self).input_registers.obs()[
                slots.input as int] == Some(Seq::<(int, int)>::empty())
                && crate::observable_array::dirty_in_bounds(d@, ADDRESS_SPACE as int) && old(self).holding_registers.obs()[slots.holding as int].unwrap().len() == 0 && final(self).holding_registers.obs() == old(self).holding_registers.obs() && final(self).input_registers.obs().len() == old(self).input_registers.obs().len() && (forall|j: int|
                0 <= j < old(self).input_registers.obs().len() && j != slots.input
                    ==> #[trigger] final(self).input_registers.obs()[j] == old(self).input_registers.obs()[j]) && final(self).discrete_inputs.obs() == old(self).discrete_inputs.obs() && final(self).coils.obs() == old(self).coils.obs(),
            r matches Some(Updated::DiscreteInputs(d)) ==> d@ == old(self).discrete_inputs.obs()[
                slots.discrete as int].unwrap() && d@.len() > 0 && final(self).discrete_inputs.obs()[slots.discrete as int] == Some(Seq::<(int, int)>::empty())
                && crate::observable_array::dirty_in_bounds(d@, ADDRESS_SPACE as int) && old(self).holding_registers.obs()[slots.holding as int].unwrap().len() == 0 && old(self).input_registers.obs()[slots.input as int].unwrap().len() == 0 && final(self).holding_registers.obs() == old(self).holding_registers.obs() && final(self).input_registers.obs() == old(self).input_registers.obs() && final(self).discrete_inputs.obs().len() == old(self).discrete_inputs.obs().len() && (forall|j: int|
                0 <= j < old(self).discrete_inputs.obs().len() && j != slots.discrete
                    ==> #[trigger] final(self).discrete_inputs.obs()[j] == old(self).discrete_inputs.obs()[j]) && final(self).coils.obs() == old(self).coils.obs(),
            r matches Some(Updated::Coils(d)) ==> d@ == old(self).coils.obs()[
                slots.coils as int].unwrap() && d@.len() > 0 && final(self).coils.obs()[
                slots.coils as int] == Some(Seq::<(int, int)>::empty())
                && crate::observable_array::dirty_in_bounds(d@, ADDRESS_SPACE as int) && old(self).holding_registers.obs()[slots.holding as int].unwrap().len() == 0 && old(self).input_registers.obs()[slots.input as int].unwrap().len() == 0 && old(self).discrete_inputs.obs()[slots.discrete as int].unwrap().len() == 0 && final(self).holding_registers.obs() == old(self).holding_registers.obs() && final(self).input_registers.obs() == old(self).input_registers.obs() && final(self).discrete_inputs.obs() == old(self).discrete_inputs.obs() && final(self).coils.obs().len() == old(self).coils.obs().len() && (forall|j: int|
                0 <= j < old(self).coils.obs().len() && j != slots.coils ==> #[trigger] final(self).coils.obs()[j] == old(self).coils.obs()[j]),
    {
        match self.holding_registers.try_drain(slots.holding) {
            Some(d) => {
                return Some(Updated::HoldingRegisters(d));
            },
            None => {},
        }
        proof {
            assert(self.holding_registers.obs() =~= old(self).holding_registers.obs());
        }
        match self.input_registers.try_drain(slots.input) {
            Some(d) => {
                return Some(Updated::InputRegisters(d));
            },
            None => {},
        }
        proof {
            assert(self.input_registers.obs() =~= old(self).input_registers.obs());
        }
        match self.discrete_inputs.try_drain(slots.discrete) {
            Some(d) => {
                return Some(Updated::DiscreteInputs(d));
            },
            None => {},
        }
        proof {
            assert(self.discrete_inputs.obs() =~= old(self).discrete_inputs.obs());
        }
        match self.coils.try_drain(slots.coils) {
            Some(d) => {
                return Some(Updated::Coils(d));
            },
            None => {},
        }
        proof {
            assert(self.holding_registers.obs() =~= old(self).holding_registers.obs());
            assert(self.input_registers.obs() =~= old(self).input_registers.obs());
            assert(self.discrete_inputs.obs() =~= old(self).discrete_inputs.obs());
            assert(self.coils.obs() =~= old(self).coils.obs());
        }
        None
    }
}

} // verus!
