//! The device catalogue: registers, bits, and nested groups.
//!
//! A catalogue lists, per device, the declared register ranges and bits of
//! each address space.  Entries nest in groups; a group offsets the addresses
//! of everything below it by its base address.

use vstd::prelude::*;

verus! {

/// Size of each Modbus address space: 65,536 addresses.
pub const ADDRESS_SPACE: usize = 65536;

/// One enumerated value of a register.
#[derive(Clone, Debug)]
pub struct IntegerEnum {
    pub value: u16,
    pub label: String,
}

/// A declared range of registers holding one value.
#[derive(Clone, Debug)]
pub struct RegisterRange {
    /// Lowest address of the range.
    pub address_low: u16,
    /// Highest address of the range, inclusive.
    pub address_high: u16,
    /// Short description of the value.
    pub label: Option<String>,
    /// Bit fields, if any.
    pub fields: Vec<RegisterField>,
    /// The value the range starts out with, as written in the catalogue.
    pub initial_value: Option<String>,
    /// How the value is displayed.
    pub presentation: crate::presentation::Presentation,
    /// How the value is encoded in the range.
    pub encoding: crate::encoding::Encoding,
    /// Enumerated values, if any.
    pub enums: Vec<IntegerEnum>,
}

/// A bit field inside a register range.
#[derive(Clone, Debug)]
pub struct RegisterField {
    /// Lowest bit of the field, zero-based.
    pub bit_low: u8,
    /// Highest bit of the field, inclusive.
    pub bit_high: u8,
    pub label: Option<String>,
    pub presentation: crate::presentation::Presentation,
    pub enums: Vec<IntegerEnum>,
}

/// A single declared bit (coil or discrete input).
#[derive(Clone, Debug)]
pub struct Bit {
    pub address: u16,
    pub label: Option<String>,
    pub initial_value: Option<bool>,
}

/// A group of tags whose addresses are offset by the group's base address.
pub struct Group<T> {
    pub base_address: u16,
    pub label: Option<String>,
    pub tags: Vec<TagOrGroup<T>>,
}

/// One catalogue entry: a tag, or a group of further entries.
pub enum TagOrGroup<T> {
    Tag(T),
    Group(Group<T>),
}

pub type RegisterOrGroup = TagOrGroup<RegisterRange>;

pub type BitOrGroup = TagOrGroup<Bit>;

/// Inherited values that apply to a nested tag.
#[derive(Clone, Debug)]
pub struct TagContext {
    /// Sum of the base addresses of the enclosing groups.
    pub base_address: u16,
}

/// The declared tags of one device, one list per address space.
pub struct TagList {
    pub input_registers: Vec<RegisterOrGroup>,
    pub holding_registers: Vec<RegisterOrGroup>,
    pub discrete_inputs: Vec<BitOrGroup>,
    pub coils: Vec<BitOrGroup>,
}

/// The number of registers a range occupies.
pub open spec fn reg_count(r: RegisterRange) -> int {
    r.address_high - r.address_low + 1
}

/// The catalogue entry `t`, offset by `base`, declares the register address
/// `a`.
pub open spec fn reg_item_declares(t: RegisterOrGroup, base: int, a: int) -> bool
    decreases t,
{
    match t {
        TagOrGroup::Tag(r) => base + r.address_low <= a <= base + r.address_high,
        TagOrGroup::Group(g) => exists|i: int|
            0 <= i < g.tags@.len() && reg_item_declares(
                #[trigger] g.tags@[i],
                base + g.base_address,
                a,
            ),
    }
}

/// Some entry of `tags`, offset by `base`, declares the register address `a`.
pub open spec fn regs_declare(tags: Seq<RegisterOrGroup>, base: int, a: int) -> bool {
    exists|i: int| 0 <= i < tags.len() && reg_item_declares(#[trigger] tags[i], base, a)
}

/// The catalogue entry `t`, offset by `base`, declares the bit address `a`.
pub open spec fn bit_item_declares(t: BitOrGroup, base: int, a: int) -> bool
    decreases t,
{
    match t {
        TagOrGroup::Tag(b) => a == base + b.address,
        TagOrGroup::Group(g) => exists|i: int|
            0 <= i < g.tags@.len() && bit_item_declares(
                #[trigger] g.tags@[i],
                base + g.base_address,
                a,
            ),
    }
}

/// Some entry of `tags`, offset by `base`, declares the bit address `a`.
pub open spec fn bits_declare(tags: Seq<BitOrGroup>, base: int, a: int) -> bool {
    exists|i: int| 0 <= i < tags.len() && bit_item_declares(#[trigger] tags[i], base, a)
}

/// Every register range under `t` is ordered and, offset by `base`, stays
/// inside the address space, leaving the very top address free so that the
/// half-open end of any declared range still fits in a 16-bit word;
/// accumulated group offsets stay inside the space too.
pub open spec fn reg_item_wf(t: RegisterOrGroup, base: int) -> bool
    decreases t,
{
    match t {
        TagOrGroup::Tag(r) => r.address_low <= r.address_high && base + r.address_high + 1
            < ADDRESS_SPACE,
        TagOrGroup::Group(g) => base + g.base_address < ADDRESS_SPACE && forall|i: int|
            0 <= i < g.tags@.len() ==> reg_item_wf(#[trigger] g.tags@[i], base + g.base_address),
    }
}

pub open spec fn regs_wf(tags: Seq<RegisterOrGroup>, base: int) -> bool {
    forall|i: int| 0 <= i < tags.len() ==> reg_item_wf(#[trigger] tags[i], base)
}

/// Every bit under `t`, offset by `base`, stays inside the address space.
pub open spec fn bit_item_wf(t: BitOrGroup, base: int) -> bool
    decreases t,
{
    match t {
        TagOrGroup::Tag(b) => base + b.address + 1 < ADDRESS_SPACE,
        TagOrGroup::Group(g) => base + g.base_address < ADDRESS_SPACE && forall|i: int|
            0 <= i < g.tags@.len() ==> bit_item_wf(#[trigger] g.tags@[i], base + g.base_address),
    }
}

pub open spec fn bits_wf(tags: Seq<BitOrGroup>, base: int) -> bool {
    forall|i: int| 0 <= i < tags.len() ==> bit_item_wf(#[trigger] tags[i], base)
}

impl TagList {
    /// Every declared address of every space lies inside the address space.
    pub open spec fn wf(&self) -> bool {
        &&& regs_wf(self.input_registers@, 0)
        &&& regs_wf(self.holding_registers@, 0)
        &&& bits_wf(self.discrete_inputs@, 0)
        &&& bits_wf(self.coils@, 0)
    }

    /// Check that every declared address lies inside the address space.
    pub fn wf_check(&self) -> (r: bool)
        ensures
            r == self.wf(),
    {
        let c0 = regs_wf_check(&self.input_registers, &TagContext { base_address: 0 });
        let c1 = regs_wf_check(&self.holding_registers, &TagContext { base_address: 0 });
        let c2 = bits_wf_check(&self.discrete_inputs, &TagContext { base_address: 0 });
        let c3 = bits_wf_check(&self.coils, &TagContext { base_address: 0 });
        c0 && c1 && c2 && c3
    }
}

/// Check that every register range under `tags` stays inside the address
/// space when offset by the context's base address.
pub fn regs_wf_check(tags: &Vec<RegisterOrGroup>, ctxt: &TagContext) -> (r: bool)
    ensures
        r == regs_wf(tags@, ctxt.base_address as int),
    decreases *tags,
{
    let base = ctxt.base_address;
    let mut i: usize = 0;
    let n = tags.len();
    let mut ok = true;
    while i < n
        invariant
            n == tags@.len(),
            i <= n,
            ok == forall|t: int| 0 <= t < i ==> reg_item_wf(#[trigger] tags@[t], base as int),
        decreases n - i,
    {
        let item_ok = match &tags[i] {
            TagOrGroup::Tag(r) => r.address_low <= r.address_high && (base as usize)
                + (r.address_high as usize) + 1 < ADDRESS_SPACE,
            TagOrGroup::Group(g) => {
                if (base as usize) + (g.base_address as usize) < ADDRESS_SPACE {
                    regs_wf_check(&g.tags, &TagContext { base_address: base + g.base_address })
                } else {
                    false
                }
            },
        };
        proof {
            assert(item_ok == reg_item_wf(tags@[i as int], base as int));
        }
        ok = ok && item_ok;
        i += 1;
    }
    ok
}

/// Check that every bit under `tags` stays inside the address space when
/// offset by the context's base address.
pub fn bits_wf_check(tags: &Vec<BitOrGroup>, ctxt: &TagContext) -> (r: bool)
    ensures
        r == bits_wf(tags@, ctxt.base_address as int),
    decreases *tags,
{
    let base = ctxt.base_address;
    let mut i: usize = 0;
    let n = tags.len();
    let mut ok = true;
    while i < n
        invariant
            n == tags@.len(),
            i <= n,
            ok == forall|t: int| 0 <= t < i ==> bit_item_wf(#[trigger] tags@[t], base as int),
        decreases n - i,
    {
        let item_ok = match &tags[i] {
            TagOrGroup::Tag(b) => (base as usize) + (b.address as usize) + 1 < ADDRESS_SPACE,
            TagOrGroup::Group(g) => {
                if (base as usize) + (g.base_address as usize) < ADDRESS_SPACE {
                    bits_wf_check(&g.tags, &TagContext { base_address: base + g.base_address })
                } else {
                    false
                }
            },
        };
        proof {
            assert(item_ok == bit_item_wf(tags@[i as int], base as int));
        }
        ok = ok && item_ok;
        i += 1;
    }
    ok
}

} // verus!
