use mb_tool::encoding::{ByteOrder, Encoding, ValueType, WordOrder};
use mb_tool::presentation::Presentation;
use mb_tool::register_value::{build_words_from_le, parse, ParseError};
use mb_tool::tag_list::RegisterRange;
use mb_tool::device_list_xml::parse_u8_value;
use mb_tool::tag_list_xml::{parse_bit_value, parse_u16_value};

fn unscaled() -> Presentation {
    Presentation { radix: 10, decimals: 0, scaled: false, unit: None }
}

fn reg_for_test() -> RegisterRange {
    RegisterRange {
        address_low: 2,
        address_high: 3,
        label: None,
        fields: Vec::new(),
        initial_value: None,
        presentation: unscaled(),
        encoding: Encoding {
            value: ValueType::Integer { signed: false },
            byte_order: ByteOrder::BigEndian,
            word_order: WordOrder::BigEndian,
        },
        enums: Vec::new(),
    }
}

#[test]
fn test_parse() {
    let mut reg = reg_for_test();
    assert_eq!(parse(&reg, "8933224").unwrap(), vec![0x0088, 0x4f68]);
    reg.encoding.byte_order = ByteOrder::LittleEndian;
    assert_eq!(parse(&reg, "8933224").unwrap(), vec![0x8800, 0x684f]);
    reg.encoding.word_order = WordOrder::LittleEndian;
    assert_eq!(parse(&reg, "8933224").unwrap(), vec![0x684f, 0x8800]);
    reg.encoding.byte_order = ByteOrder::BigEndian;
    assert_eq!(parse(&reg, "8933224").unwrap(), vec![0x4f68, 0x0088]);
    reg.encoding.word_order = WordOrder::BigEndian;
    reg.address_high = 6;
    assert_eq!(
        parse(&reg, "0x99829387177729893892").unwrap(),
        vec![0x9982, 0x9387, 0x1777, 0x2989, 0x3892]
    );
    reg.encoding.value = ValueType::Integer { signed: true };
    assert_eq!(
        parse(&reg, "-0x39829387177729893892").unwrap(),
        vec![!0x3982, !0x9387, !0x1777, !0x2989, !0x3892 + 1]
    );
    assert_eq!(parse(&reg, "-0b0").unwrap(), vec![0, 0, 0, 0, 0]);
    reg.address_high = 2;
    assert_eq!(parse(&reg, "0b1001010011100110").unwrap(), vec![0b1001010011100110]);
    assert_eq!(
        parse(&reg, "-0b0001010011100110").unwrap(),
        vec![-0b0001010011100110i16 as u16]
    );
}

#[test]
fn parse_rejects_negative_for_unsigned() {
    let reg = reg_for_test();
    assert_eq!(parse(&reg, "-1"), Err(ParseError::Negative));
}

#[test]
fn parse_rejects_oversized_value() {
    let mut reg = reg_for_test();
    reg.address_high = 2;
    assert_eq!(parse(&reg, "65536"), Err(ParseError::TooBig));
    assert_eq!(parse(&reg, "65535").unwrap(), vec![65535]);
}

#[test]
fn parse_rejects_malformed_integers() {
    let reg = reg_for_test();
    assert_eq!(parse(&reg, ""), Err(ParseError::InvalidIntegerValue));
    assert_eq!(parse(&reg, "0x"), Err(ParseError::InvalidIntegerValue));
    assert_eq!(parse(&reg, "12a"), Err(ParseError::InvalidIntegerValue));
    assert_eq!(parse(&reg, "0b12"), Err(ParseError::InvalidIntegerValue));
    assert_eq!(parse(&reg, "-"), Err(ParseError::InvalidIntegerValue));
}

#[test]
fn parse_packs_string_values() {
    let mut reg = reg_for_test();
    reg.encoding.value = ValueType::String { fill: 0 };
    // big-endian bytes: first text byte is the register's high byte
    assert_eq!(parse(&reg, "AB").unwrap(), vec![0x4142, 0x0000]);
    reg.encoding.byte_order = ByteOrder::LittleEndian;
    assert_eq!(parse(&reg, "AB").unwrap(), vec![0x4241, 0x0000]);
    reg.encoding.byte_order = ByteOrder::BigEndian;
    reg.encoding.value = ValueType::String { fill: 0x20 };
    assert_eq!(parse(&reg, "ABCDE").unwrap(), vec![0x4142, 0x4344]);
}

#[test]
fn words_from_le_bytes_follow_both_orders() {
    let bytes: Vec<u8> = vec![0x68, 0x4f, 0x88, 0x00];
    let mut enc = Encoding {
        value: ValueType::Integer { signed: false },
        byte_order: ByteOrder::BigEndian,
        word_order: WordOrder::BigEndian,
    };
    assert_eq!(build_words_from_le(&bytes, &enc), vec![0x0088, 0x4f68]);
    enc.word_order = WordOrder::LittleEndian;
    assert_eq!(build_words_from_le(&bytes, &enc), vec![0x4f68, 0x0088]);
    enc.byte_order = ByteOrder::LittleEndian;
    assert_eq!(build_words_from_le(&bytes, &enc), vec![0x684f, 0x8800]);
    enc.word_order = WordOrder::BigEndian;
    assert_eq!(build_words_from_le(&bytes, &enc), vec![0x8800, 0x684f]);
}

#[test]
fn attribute_value_syntax() {
    assert_eq!(parse_u16_value("123"), Some(123));
    assert_eq!(parse_u16_value("0x10"), Some(16));
    assert_eq!(parse_u16_value("0b101"), Some(5));
    assert_eq!(parse_u16_value("-1"), Some(0xffff));
    assert_eq!(parse_u16_value("65536"), None);
    assert_eq!(parse_u16_value("zz"), None);
    assert_eq!(parse_u8_value("17"), Some(17));
    assert_eq!(parse_u8_value("0xff"), Some(255));
    assert_eq!(parse_u8_value("256"), None);
    assert_eq!(parse_u8_value("-1"), None);
    assert_eq!(parse_bit_value("1"), Some(true));
    assert_eq!(parse_bit_value("0"), Some(false));
    assert_eq!(parse_bit_value("true"), Some(true));
    assert_eq!(parse_bit_value("false"), Some(false));
    assert_eq!(parse_bit_value("yes"), None);
}
