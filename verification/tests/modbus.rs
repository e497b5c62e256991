use mb_tool::device_list::{DeviceDef, DeviceDefList};
use mb_tool::devices::Devices;
use mb_tool::encoding::{ByteOrder, Encoding, ValueType, WordOrder};
use mb_tool::modbus_connection::{
    dispatch, parse_parity, poller_step, push_range, read_sequence, write_ops, ClientOp,
    ExceptionCode, Parity, PollerAction, PollerEvent, PollerState, ReadOutcome, Request, Response,
    TagKind, WriteOp,
};
use mb_tool::presentation::Presentation;
use mb_tool::range_array::Span;
use mb_tool::tag_list::{Bit, RegisterRange, TagList, TagOrGroup};
use mb_tool::tags::{Updated, ORIGIN_SLOT};

fn plain_reg(low: u16, high: u16) -> RegisterRange {
    RegisterRange {
        address_low: low,
        address_high: high,
        label: None,
        fields: Vec::new(),
        initial_value: None,
        presentation: Presentation { radix: 10, decimals: 0, scaled: false, unit: None },
        encoding: Encoding {
            value: ValueType::Integer { signed: false },
            byte_order: ByteOrder::BigEndian,
            word_order: WordOrder::BigEndian,
        },
        enums: Vec::new(),
    }
}

fn one_unit_devices() -> Devices {
    let mut defs = DeviceDefList::new();
    defs.insert(DeviceDef {
        addr: 1,
        tags: TagList {
            input_registers: vec![TagOrGroup::Tag(plain_reg(4, 5))],
            holding_registers: vec![TagOrGroup::Tag(plain_reg(0, 2))],
            discrete_inputs: Vec::new(),
            coils: vec![TagOrGroup::Tag(Bit { address: 1, label: None, initial_value: None })],
        },
    });
    Devices::new(&defs)
}

#[test]
fn write_then_read_returns_written_values() {
    let mut devices = one_unit_devices();
    let req = Request::WriteMultipleRegisters(5, vec![11, 22, 33]);
    let (r, _wakes) = dispatch(&mut devices, 1, ORIGIN_SLOT, &req);
    assert!(matches!(r, Ok(Response::WriteMultipleRegisters(5, 3))));
    let (r2, _) = dispatch(&mut devices, 1, ORIGIN_SLOT, &Request::ReadHoldingRegisters(5, 3));
    match r2 {
        Ok(Response::ReadHoldingRegisters(v)) => assert_eq!(v, vec![11, 22, 33]),
        _ => panic!("expected a holding-register read"),
    }
}

#[test]
fn out_of_range_read_yields_illegal_data_address() {
    let mut devices = one_unit_devices();
    let (r, _) = dispatch(&mut devices, 1, ORIGIN_SLOT, &Request::ReadHoldingRegisters(65530, 10));
    assert!(matches!(r, Err(ExceptionCode::IllegalDataAddress)));
}

#[test]
fn out_of_range_write_yields_illegal_data_address() {
    let mut devices = one_unit_devices();
    let req = Request::WriteMultipleRegisters(65535, vec![1, 2]);
    let (r, _) = dispatch(&mut devices, 1, ORIGIN_SLOT, &req);
    assert!(matches!(r, Err(ExceptionCode::IllegalDataAddress)));
    let (r2, _) = dispatch(&mut devices, 1, ORIGIN_SLOT, &Request::WriteSingleCoil(65535, true));
    assert!(matches!(r2, Ok(Response::WriteSingleCoil(65535, true))));
}

#[test]
fn unknown_unit_yields_server_device_failure() {
    let mut devices = one_unit_devices();
    let (r, _) = dispatch(&mut devices, 9, ORIGIN_SLOT, &Request::ReadCoils(0, 1));
    assert!(matches!(r, Err(ExceptionCode::ServerDeviceFailure)));
}

#[test]
fn unsupported_function_yields_illegal_function() {
    let mut devices = one_unit_devices();
    let (r, _) = dispatch(&mut devices, 1, ORIGIN_SLOT, &Request::Unsupported);
    assert!(matches!(r, Err(ExceptionCode::IllegalFunction)));
    // the function code is rejected before the unit is looked up, so an
    // absent unit gets the same answer
    let (r2, _) = dispatch(&mut devices, 9, ORIGIN_SLOT, &Request::Unsupported);
    assert!(matches!(r2, Err(ExceptionCode::IllegalFunction)));
}

#[test]
fn single_register_write_and_coil_read() {
    let mut devices = one_unit_devices();
    let (r, _) = dispatch(&mut devices, 1, ORIGIN_SLOT, &Request::WriteSingleRegister(0, 777));
    assert!(matches!(r, Ok(Response::WriteSingleRegister(0, 777))));
    let (r2, _) = dispatch(&mut devices, 1, ORIGIN_SLOT, &Request::WriteSingleCoil(1, true));
    assert!(matches!(r2, Ok(Response::WriteSingleCoil(1, true))));
    let (r3, _) = dispatch(&mut devices, 1, ORIGIN_SLOT, &Request::ReadCoils(0, 3));
    match r3 {
        Ok(Response::ReadCoils(v)) => assert_eq!(v, vec![false, true, false]),
        _ => panic!("expected a coil read"),
    }
}

#[test]
fn plan_chunks_a_long_range() {
    let mut ops: Vec<ClientOp> = Vec::new();
    push_range(&mut ops, &Span { start: 0u16, end: 300u16 }, 125, 1, TagKind::HoldingRegisters);
    assert_eq!(
        ops,
        vec![
            ClientOp { unit: 1, kind: TagKind::HoldingRegisters, start: 0, length: 125 },
            ClientOp { unit: 1, kind: TagKind::HoldingRegisters, start: 125, length: 125 },
            ClientOp { unit: 1, kind: TagKind::HoldingRegisters, start: 250, length: 50 },
        ]
    );
}

#[test]
fn read_plan_covers_declared_ranges() {
    let devices = one_unit_devices();
    let ops = read_sequence(&devices);
    assert_eq!(
        ops,
        vec![
            ClientOp { unit: 1, kind: TagKind::HoldingRegisters, start: 0, length: 3 },
            ClientOp { unit: 1, kind: TagKind::InputRegisters, start: 4, length: 2 },
            ClientOp { unit: 1, kind: TagKind::Coils, start: 1, length: 1 },
        ]
    );
}

#[test]
fn flush_writes_follow_dirty_intervals() {
    let mut devices = one_unit_devices();
    let (r, _) = dispatch(
        &mut devices,
        1,
        ORIGIN_SLOT,
        &Request::WriteMultipleRegisters(0, vec![5, 6]),
    );
    assert!(r.is_ok());
    let (r2, _) = dispatch(&mut devices, 1, ORIGIN_SLOT, &Request::WriteSingleRegister(9, 44));
    assert!(r2.is_ok());
    let tags = devices.tags_read(1).unwrap();
    let dirty = {
        let mut d = mb_tool::range_array::RangeArray::new();
        d.union(&Span { start: 0usize, end: 2usize });
        d.union(&Span { start: 9usize, end: 10usize });
        d
    };
    let ops = write_ops(tags, &Updated::HoldingRegisters(dirty));
    assert_eq!(ops.len(), 2);
    match &ops[0] {
        WriteOp::MultipleRegisters(0, v) => assert_eq!(v, &vec![5, 6]),
        _ => panic!("expected a multiple-register write"),
    }
    assert!(matches!(ops[1], WriteOp::SingleRegister(9, 44)));
}

#[test]
fn input_changes_produce_no_writes() {
    let devices = one_unit_devices();
    let tags = devices.tags_read(1).unwrap();
    let mut d = mb_tool::range_array::RangeArray::new();
    d.union(&Span { start: 4usize, end: 6usize });
    let ops = write_ops(tags, &Updated::InputRegisters(d));
    assert!(ops.is_empty());
}

#[test]
fn poller_follows_the_transition_table() {
    assert_eq!(poller_step(PollerState::Connecting, &PollerEvent::Connected), (PollerState::Polling, PollerAction::IssueNextRead));
    assert_eq!(poller_step(PollerState::Connecting, &PollerEvent::ConnectFailed), (PollerState::Backoff, PollerAction::SleepBackoff));
    assert_eq!(
        poller_step(PollerState::Polling, &PollerEvent::ReadCompleted(ReadOutcome::Success)),
        (PollerState::Polling, PollerAction::AwaitTickOrChange)
    );
    assert_eq!(
        poller_step(PollerState::Polling, &PollerEvent::ReadCompleted(ReadOutcome::TimedOut)),
        (PollerState::Polling, PollerAction::AwaitTickOrChange)
    );
    assert_eq!(
        poller_step(PollerState::Polling, &PollerEvent::ReadCompleted(ReadOutcome::ModbusException)),
        (PollerState::Polling, PollerAction::AwaitTickOrChange)
    );
    assert_eq!(
        poller_step(PollerState::Polling, &PollerEvent::ReadCompleted(ReadOutcome::BrokenPipe)),
        (PollerState::Backoff, PollerAction::SleepBackoff)
    );
    assert_eq!(poller_step(PollerState::Polling, &PollerEvent::IntervalElapsed), (PollerState::Polling, PollerAction::IssueNextRead));
    assert_eq!(poller_step(PollerState::Polling, &PollerEvent::ChangesPending), (PollerState::FlushingWrites, PollerAction::FlushPendingWrites));
    assert_eq!(poller_step(PollerState::FlushingWrites, &PollerEvent::WritesFlushed), (PollerState::Polling, PollerAction::IssueNextRead));
    assert_eq!(poller_step(PollerState::Backoff, &PollerEvent::BackoffElapsed), (PollerState::Connecting, PollerAction::AttemptConnect));
    // an event a state has no transition for resumes the state's duty
    assert_eq!(poller_step(PollerState::Backoff, &PollerEvent::IntervalElapsed), (PollerState::Backoff, PollerAction::SleepBackoff));
}

#[test]
fn parity_parses_by_first_letter() {
    assert_eq!(parse_parity("Even"), Parity::Even);
    assert_eq!(parse_parity("even"), Parity::Even);
    assert_eq!(parse_parity("Odd"), Parity::Odd);
    assert_eq!(parse_parity("o"), Parity::Odd);
    assert_eq!(parse_parity("None"), Parity::NoParity);
    assert_eq!(parse_parity("n"), Parity::NoParity);
    assert_eq!(parse_parity(""), Parity::Even);
    assert_eq!(parse_parity("weird"), Parity::Even);
}
