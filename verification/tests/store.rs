use mb_tool::device_list::{DeviceDef, DeviceDefList};
use mb_tool::devices::Devices;
use mb_tool::encoding::{ByteOrder, Encoding, ValueType, WordOrder};
use mb_tool::observable_array::Base;
use mb_tool::presentation::Presentation;
use mb_tool::range_array::Span;
use mb_tool::tag_list::{Bit, Group, RegisterRange, TagList, TagOrGroup};
use mb_tool::tag_ranges::TagRanges;
use mb_tool::tags::Tags;

fn reg_def(low: u16, high: u16, initial: Option<&str>) -> RegisterRange {
    RegisterRange {
        address_low: low,
        address_high: high,
        label: None,
        fields: Vec::new(),
        initial_value: initial.map(|s| s.to_string()),
        presentation: Presentation { radix: 10, decimals: 0, scaled: false, unit: None },
        encoding: Encoding {
            value: ValueType::Integer { signed: false },
            byte_order: ByteOrder::BigEndian,
            word_order: WordOrder::BigEndian,
        },
        enums: Vec::new(),
    }
}

fn small_tag_list() -> TagList {
    TagList {
        input_registers: vec![TagOrGroup::Tag(reg_def(10, 11, Some("7")))],
        holding_registers: vec![TagOrGroup::Tag(reg_def(0, 0, Some("42")))],
        discrete_inputs: Vec::new(),
        coils: vec![TagOrGroup::Tag(Bit { address: 3, label: None, initial_value: Some(true) })],
    }
}

#[test]
fn observers_see_only_foreign_writes() {
    let mut base: Base<u16> = Base::new(16, 0);
    let origin = base.get_observer();
    let listener = base.get_observer();
    assert_eq!(origin, 0);
    assert_eq!(listener, 1);

    // a write by the origin wakes only the listener
    let data: Vec<u16> = vec![5, 6];
    let wakes = base.update(2, &data, origin);
    assert_eq!(wakes, vec![1]);
    assert_eq!(base.get(2), 5);
    assert_eq!(base.get(3), 6);

    // the origin's own set is untouched; the listener drains [2, 4)
    assert!(base.try_drain(origin).is_none());
    let drained = base.try_drain(listener).unwrap();
    assert_eq!(drained.spans(), &vec![Span { start: 2usize, end: 4usize }]);

    // a second immediate drain finds nothing until the next foreign write
    assert!(base.try_drain(listener).is_none());
    let data2: Vec<u16> = vec![9];
    base.update(0, &data2, origin);
    assert!(base.try_drain(listener).is_some());
}

#[test]
fn writes_coalesce_into_one_dirty_set() {
    let mut base: Base<bool> = Base::new(32, false);
    let origin = base.get_observer();
    let listener = base.get_observer();
    let d1: Vec<bool> = vec![true, true];
    let d2: Vec<bool> = vec![true];
    let d3: Vec<bool> = vec![true, true, true];
    base.update(0, &d1, origin);
    base.update(2, &d2, origin);
    base.update(10, &d3, origin);
    let drained = base.try_drain(listener).unwrap();
    assert_eq!(
        drained.spans(),
        &vec![Span { start: 0usize, end: 3usize }, Span { start: 10usize, end: 13usize }]
    );
    let _ = origin;
}

#[test]
fn released_slots_are_reused() {
    let mut base: Base<u16> = Base::new(4, 0);
    let a = base.get_observer();
    let b = base.get_observer();
    let c = base.get_observer();
    assert_eq!((a, b, c), (0, 1, 2));
    // the lowest vacant slot is taken first
    base.release(b);
    base.release(a);
    assert_eq!(base.get_observer(), 0);
    assert_eq!(base.get_observer(), 1);
    assert_eq!(base.get_observer(), 3);
}

#[test]
fn tags_load_initial_values() {
    let list = small_tag_list();
    assert!(list.wf_check());
    let tags = Tags::new(&list);
    assert_eq!(tags.holding_registers.get(0), 42);
    assert_eq!(tags.holding_registers.get(1), 0);
    // a two-register unsigned value, big-endian: high word first
    assert_eq!(tags.input_registers.get(10), 0);
    assert_eq!(tags.input_registers.get(11), 7);
    assert!(tags.coils.get(3));
    assert!(!tags.coils.get(2));
    assert!(!tags.discrete_inputs.get(3));
}

#[test]
fn device_def_list_orders_and_replaces() {
    let mut defs = DeviceDefList::new();
    defs.insert(DeviceDef { addr: 9, tags: small_tag_list() });
    defs.insert(DeviceDef { addr: 1, tags: small_tag_list() });
    defs.insert(DeviceDef { addr: 5, tags: small_tag_list() });
    let addrs: Vec<u8> = defs.devices().iter().map(|d| d.addr).collect();
    assert_eq!(addrs, vec![1, 5, 9]);
    assert!(defs.get(5).is_some());
    assert!(defs.get(2).is_none());
    // inserting an existing address replaces the definition
    defs.insert(DeviceDef { addr: 5, tags: small_tag_list() });
    assert_eq!(defs.devices().len(), 3);
}

#[test]
fn devices_index_by_unit() {
    let mut defs = DeviceDefList::new();
    defs.insert(DeviceDef { addr: 2, tags: small_tag_list() });
    defs.insert(DeviceDef { addr: 7, tags: small_tag_list() });
    let devices = Devices::new(&defs);
    assert_eq!(devices.units(), vec![2, 7]);
    assert_eq!(devices.find_unit(7), Some(1));
    assert_eq!(devices.find_unit(3), None);
    assert!(devices.tags_read(2).is_ok());
    assert!(matches!(
        devices.tags_read(3),
        Err(mb_tool::devices::Error::UnitNotAvailabe)
    ));
    assert!(devices.ranges(7).is_ok());
}

#[test]
fn tag_ranges_collect_declared_addresses() {
    let list = small_tag_list();
    let ranges = TagRanges::from_tag_list(&list);
    assert_eq!(ranges.holding_registers.spans(), &vec![Span { start: 0u16, end: 1u16 }]);
    assert_eq!(ranges.input_registers.spans(), &vec![Span { start: 10u16, end: 12u16 }]);
    assert_eq!(ranges.coils.spans(), &vec![Span { start: 3u16, end: 4u16 }]);
    assert!(ranges.discrete_inputs.is_empty());
}

#[test]
fn group_offsets_apply_to_nested_tags() {
    let list = TagList {
        input_registers: Vec::new(),
        holding_registers: vec![TagOrGroup::Group(Group {
            base_address: 100,
            label: None,
            tags: vec![
                TagOrGroup::Tag(reg_def(0, 1, Some("9"))),
                TagOrGroup::Group(Group {
                    base_address: 10,
                    label: None,
                    tags: vec![TagOrGroup::Tag(reg_def(2, 2, Some("3")))],
                }),
            ],
        })],
        discrete_inputs: Vec::new(),
        coils: Vec::new(),
    };
    assert!(list.wf_check());
    let tags = Tags::new(&list);
    assert_eq!(tags.holding_registers.get(101), 9);
    assert_eq!(tags.holding_registers.get(112), 3);
    let ranges = TagRanges::from_tag_list(&list);
    assert_eq!(
        ranges.holding_registers.spans(),
        &vec![Span { start: 100u16, end: 102u16 }, Span { start: 112u16, end: 113u16 }]
    );
}

#[test]
fn wf_check_rejects_out_of_space_tags() {
    let mut list = small_tag_list();
    list.holding_registers = vec![TagOrGroup::Tag(reg_def(65530, 65535, None))];
    assert!(!list.wf_check());
    list.holding_registers = vec![TagOrGroup::Tag(reg_def(7, 3, None))];
    assert!(!list.wf_check());
}
