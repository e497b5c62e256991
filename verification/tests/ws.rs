use mb_tool::device_list::{DeviceDef, DeviceDefList};
use mb_tool::devices::Devices;
use mb_tool::encoding::{ByteOrder, Encoding, ValueType, WordOrder};
use mb_tool::presentation::Presentation;
use mb_tool::range_array::Span;
use mb_tool::tag_list::{RegisterRange, TagList, TagOrGroup};
use mb_tool::tags::Updated;
use mb_tool::ws_bridge::{
    command_valid, handle_command, poll_updates, release_all, subscribe_all, update_commands,
    MbCommands,
};

fn answer_reg() -> RegisterRange {
    RegisterRange {
        address_low: 0,
        address_high: 0,
        label: None,
        fields: Vec::new(),
        initial_value: Some("42".to_string()),
        presentation: Presentation { radix: 10, decimals: 0, scaled: false, unit: None },
        encoding: Encoding {
            value: ValueType::Integer { signed: false },
            byte_order: ByteOrder::BigEndian,
            word_order: WordOrder::BigEndian,
        },
        enums: Vec::new(),
    }
}

fn bridge_devices() -> Devices {
    let mut defs = DeviceDefList::new();
    defs.insert(DeviceDef {
        addr: 1,
        tags: TagList {
            input_registers: Vec::new(),
            holding_registers: vec![TagOrGroup::Tag(answer_reg())],
            discrete_inputs: Vec::new(),
            coils: Vec::new(),
        },
    });
    Devices::new(&defs)
}

#[test]
fn echo_round_trip() {
    let mut devices = bridge_devices();
    let session = subscribe_all(&mut devices);
    let cmd = MbCommands::Echo(7);
    assert!(command_valid(&devices, &cmd));
    let (reply, wakes) = handle_command(&mut devices, &session, &cmd);
    assert!(matches!(reply, Some(MbCommands::Echo(7))));
    assert!(wakes.is_empty());
}

#[test]
fn initial_value_then_read() {
    let mut devices = bridge_devices();
    let session = subscribe_all(&mut devices);
    let cmd = MbCommands::RequestHoldingRegs { unit_addr: 1, start: 0, length: 1 };
    assert!(command_valid(&devices, &cmd));
    let (reply, _) = handle_command(&mut devices, &session, &cmd);
    match reply {
        Some(MbCommands::UpdateHoldingRegs { unit_addr, start, regs }) => {
            assert_eq!(unit_addr, 1);
            assert_eq!(start, 0);
            assert_eq!(regs, vec![42]);
        },
        _ => panic!("expected a holding-register update frame"),
    }
}

#[test]
fn list_unit_addresses() {
    let mut devices = bridge_devices();
    let session = subscribe_all(&mut devices);
    let (reply, _) = handle_command(&mut devices, &session, &MbCommands::ListUnitAddresses(
        Vec::new(),
    ));
    match reply {
        Some(MbCommands::ListUnitAddresses(units)) => assert_eq!(units, vec![1]),
        _ => panic!("expected the unit list"),
    }
}

#[test]
fn socket_write_reaches_other_listeners_but_not_itself() {
    let mut devices = bridge_devices();
    let writer = subscribe_all(&mut devices);
    let mut reader = subscribe_all(&mut devices);
    let cmd = MbCommands::UpdateHoldingRegs { unit_addr: 1, start: 0, regs: vec![9999] };
    assert!(command_valid(&devices, &cmd));
    let (reply, wakes) = handle_command(&mut devices, &writer, &cmd);
    assert!(reply.is_none());
    // the origin slot and the reader's slot are woken; the writer's is not
    assert!(wakes.contains(&reader.slots[0].holding));
    assert!(!wakes.contains(&writer.slots[0].holding));

    // the server side now reads the new value
    let tags = devices.tags_read(1).unwrap();
    assert_eq!(tags.holding_registers.get(0), 9999);

    // the reader drains exactly the written interval; the writer has nothing
    let got = poll_updates(&mut devices, &mut reader);
    match got {
        Some((unit, Updated::HoldingRegisters(d))) => {
            assert_eq!(unit, 1);
            assert_eq!(d.spans(), &vec![Span { start: 0usize, end: 1usize }]);
        },
        _ => panic!("expected pending holding-register changes"),
    }
    let mut writer2 = writer;
    assert!(poll_updates(&mut devices, &mut writer2).is_none());
    release_all(&mut devices, writer2);
}

#[test]
fn update_frames_carry_current_values() {
    let mut devices = bridge_devices();
    let session = subscribe_all(&mut devices);
    let cmd = MbCommands::UpdateHoldingRegs { unit_addr: 1, start: 5, regs: vec![1, 2, 3] };
    let (_, _) = handle_command(&mut devices, &session, &cmd);
    let tags = devices.tags_read(1).unwrap();
    let mut d = mb_tool::range_array::RangeArray::new();
    d.union(&Span { start: 5usize, end: 8usize });
    let frames = update_commands(tags, 1, &Updated::HoldingRegisters(d));
    assert_eq!(frames.len(), 1);
    match &frames[0] {
        MbCommands::UpdateHoldingRegs { unit_addr, start, regs } => {
            assert_eq!(*unit_addr, 1);
            assert_eq!(*start, 5);
            assert_eq!(regs, &vec![1, 2, 3]);
        },
        _ => panic!("expected a holding-register frame"),
    }
}

#[test]
fn invalid_commands_are_rejected_by_the_check() {
    let devices = bridge_devices();
    assert!(!command_valid(
        &devices,
        &MbCommands::RequestHoldingRegs { unit_addr: 9, start: 0, length: 1 },
    ));
    assert!(!command_valid(
        &devices,
        &MbCommands::RequestHoldingRegs { unit_addr: 1, start: 65530, length: 10 },
    ));
    assert!(!command_valid(
        &devices,
        &MbCommands::UpdateCoils { unit_addr: 1, start: 65535, regs: vec![true, false] },
    ));
    assert!(command_valid(
        &devices,
        &MbCommands::UpdateCoils { unit_addr: 1, start: 65534, regs: vec![true, false] },
    ));
}

#[test]
fn drain_scan_rotates_over_units() {
    let mut defs = DeviceDefList::new();
    defs.insert(DeviceDef {
        addr: 1,
        tags: TagList {
            input_registers: Vec::new(),
            holding_registers: vec![TagOrGroup::Tag(answer_reg())],
            discrete_inputs: Vec::new(),
            coils: Vec::new(),
        },
    });
    defs.insert(DeviceDef {
        addr: 2,
        tags: TagList {
            input_registers: Vec::new(),
            holding_registers: vec![TagOrGroup::Tag(answer_reg())],
            discrete_inputs: Vec::new(),
            coils: Vec::new(),
        },
    });
    let mut devices = Devices::new(&defs);
    let mut listener = subscribe_all(&mut devices);
    // make both units dirty through the origin slot
    let (_, _) = mb_tool::modbus_connection::dispatch(
        &mut devices,
        1,
        mb_tool::tags::ORIGIN_SLOT,
        &mb_tool::modbus_connection::Request::WriteSingleRegister(0, 5),
    );
    let (_, _) = mb_tool::modbus_connection::dispatch(
        &mut devices,
        2,
        mb_tool::tags::ORIGIN_SLOT,
        &mb_tool::modbus_connection::Request::WriteSingleRegister(0, 6),
    );
    // the scan starts at the saved position and resumes just past each find
    let first = poll_updates(&mut devices, &mut listener).unwrap();
    assert_eq!(first.0, 1);
    assert_eq!(listener.next_unit, 1);
    let second = poll_updates(&mut devices, &mut listener).unwrap();
    assert_eq!(second.0, 2);
    assert_eq!(listener.next_unit, 2);
    assert!(poll_updates(&mut devices, &mut listener).is_none());
    assert_eq!(listener.next_unit, 2);
}
