use std::collections::HashMap;
use ulog_decoder::location::Location;
use ulog_decoder::severity::{SeverityLevel, SeverityLevelParseError};
use ulog_decoder::ulog_argument::{ULogArgument, ULogArgumentParseError, ULogArgumentReadError};
use ulog_decoder::ulog_string::{ULogString, ULogStringMap};

fn read_one(id: u8, data: &[u8], strings: &ULogStringMap) -> (Result<(), ULogArgumentReadError>, ULogArgument, usize) {
    let mut arg = ULogArgument::try_from(id).unwrap();
    let mut pos: usize = 0;
    let r = arg.read(data, &mut pos, strings);
    (r, arg, pos)
}

#[test]
fn test_32() {
    assert!(matches!(ULogArgument::try_from(242).unwrap(), ULogArgument::Int32 { size: 3, .. }));
    assert!(matches!(ULogArgument::try_from(243).unwrap(), ULogArgument::Int32 { size: 4, .. }));
    assert!(matches!(ULogArgument::try_from(250).unwrap(), ULogArgument::UInt32 { size: 3, .. }));
    assert!(matches!(ULogArgument::try_from(251).unwrap(), ULogArgument::UInt32 { size: 4, .. }));
}

#[test]
fn invalid_type_ids_are_rejected() {
    for id in [0u8, 7, 100, 239] {
        assert!(matches!(
            ULogArgument::try_from(id),
            Err(ULogArgumentParseError::InvalidTypeId { id: x }) if x == id
        ));
    }
}

#[test]
fn type_ids_pick_widths() {
    assert!(matches!(ULogArgument::try_from(244).unwrap(), ULogArgument::Int64 { size: 5, .. }));
    assert!(matches!(ULogArgument::try_from(247).unwrap(), ULogArgument::Int64 { size: 8, .. }));
    assert!(matches!(ULogArgument::try_from(252).unwrap(), ULogArgument::UInt64 { size: 5, .. }));
    assert!(matches!(ULogArgument::try_from(255).unwrap(), ULogArgument::UInt64 { size: 8, .. }));
    assert!(matches!(ULogArgument::try_from(1).unwrap(), ULogArgument::Slice { value: None }));
    assert!(matches!(ULogArgument::try_from(6).unwrap(), ULogArgument::ULogString { value: None }));
}

#[test]
fn int24_sign_extension() {
    let strings = HashMap::new();
    let (r, arg, pos) = read_one(242, &[0x80, 0x00, 0x00], &strings);
    assert!(r.is_ok());
    assert_eq!(pos, 3);
    assert!(matches!(arg, ULogArgument::Int32 { size: 3, value: Some(-8388608) }));
    let (_, arg, _) = read_one(242, &[0x7F, 0xFF, 0xFF], &strings);
    assert!(matches!(arg, ULogArgument::Int32 { size: 3, value: Some(8388607) }));
    let (_, arg, _) = read_one(242, &[0xFF, 0xFF, 0xFF], &strings);
    assert!(matches!(arg, ULogArgument::Int32 { size: 3, value: Some(-1) }));
}

#[test]
fn int24_round_trips() {
    let strings = HashMap::new();
    for v in [-8388608i32, -65536, -1, 0, 1, 4660, 8388607] {
        let b = v.to_be_bytes();
        let (_, arg, _) = read_one(242, &b[1..], &strings);
        assert!(matches!(arg, ULogArgument::Int32 { size: 3, value: Some(x) } if x == v));
    }
}

#[test]
fn uint40_round_trips() {
    let strings = HashMap::new();
    for v in [0u64, 1, 0x12_3456_789A, 0xFF_FFFF_FFFF] {
        let b = v.to_be_bytes();
        let (_, arg, pos) = read_one(252, &b[3..], &strings);
        assert_eq!(pos, 5);
        assert!(matches!(arg, ULogArgument::UInt64 { size: 5, value: Some(x) } if x == v));
    }
}

#[test]
fn int40_negative() {
    let strings = HashMap::new();
    let (_, arg, _) = read_one(244, &[0xFF, 0xFF, 0xFF, 0xFF, 0xFE], &strings);
    assert!(matches!(arg, ULogArgument::Int64 { size: 5, value: Some(-2) }));
    let (_, arg, _) = read_one(247, &[0x80, 0, 0, 0, 0, 0, 0, 0], &strings);
    assert!(matches!(arg, ULogArgument::Int64 { size: 8, value: Some(i64::MIN) }));
}

#[test]
fn small_integers() {
    let strings = HashMap::new();
    let (_, arg, _) = read_one(240, &[0xFE], &strings);
    assert!(matches!(arg, ULogArgument::Int8 { value: Some(-2) }));
    let (_, arg, _) = read_one(241, &[0x80, 0x01], &strings);
    assert!(matches!(arg, ULogArgument::Int16 { value: Some(-32767) }));
    let (_, arg, _) = read_one(248, &[0xFE], &strings);
    assert!(matches!(arg, ULogArgument::UInt8 { value: Some(254) }));
    let (_, arg, _) = read_one(249, &[0x12, 0x34], &strings);
    assert!(matches!(arg, ULogArgument::UInt16 { value: Some(0x1234) }));
    let (_, arg, _) = read_one(250, &[0x12, 0x34, 0x56], &strings);
    assert!(matches!(arg, ULogArgument::UInt32 { size: 3, value: Some(0x123456) }));
}

#[test]
fn bool_decoding() {
    let strings = HashMap::new();
    let (_, arg, _) = read_one(5, &[0x00], &strings);
    assert!(matches!(arg, ULogArgument::Bool { value: Some(false) }));
    for b in [0x01u8, 0x7F, 0xFF] {
        let (_, arg, _) = read_one(5, &[b], &strings);
        assert!(matches!(arg, ULogArgument::Bool { value: Some(true) }));
    }
}

#[test]
fn slice_and_float() {
    let strings = HashMap::new();
    let (r, arg, pos) = read_one(1, &[0, 0, 0, 3, 0xDE, 0xAD, 0xBE], &strings);
    assert!(r.is_ok());
    assert_eq!(pos, 7);
    match arg {
        ULogArgument::Slice { value: Some(v) } => assert_eq!(v, vec![0xDE, 0xAD, 0xBE]),
        _ => panic!("not a slice"),
    }
    let (_, arg, _) = read_one(2, &[0x40, 0x49, 0x0F, 0xDB], &strings);
    match arg {
        ULogArgument::Float { value: Some(bits) } => {
            assert_eq!(bits, 0x40490FDB);
            assert_eq!(format!("{}", f32::from_bits(bits)), "3.1415927");
        }
        _ => panic!("not a float"),
    }
    let (_, arg, _) = read_one(3, &[0x40, 0x09, 0x21, 0xFB, 0x54, 0x44, 0x2D, 0x18], &strings);
    match arg {
        ULogArgument::Double { value: Some(bits) } => assert_eq!(f64::from_bits(bits), std::f64::consts::PI),
        _ => panic!("not a double"),
    }
}

#[test]
fn nul_terminated_string() {
    let strings = HashMap::new();
    let (r, arg, pos) = read_one(4, b"hi\0rest", &strings);
    assert!(r.is_ok());
    assert_eq!(pos, 3);
    match arg {
        ULogArgument::String { value: Some(s) } => assert_eq!(s, "hi"),
        _ => panic!("not a string"),
    }
    let (r, _, pos) = read_one(4, b"no end", &strings);
    assert_eq!(r, Err(ULogArgumentReadError::Io));
    assert_eq!(pos, 0);
}

#[test]
fn lossy_string() {
    let strings = HashMap::new();
    let (_, arg, _) = read_one(4, &[b'a', 0xFF, b'b', 0], &strings);
    match arg {
        ULogArgument::String { value: Some(s) } => assert_eq!(s, "a\u{FFFD}b"),
        _ => panic!("not a string"),
    }
}

#[test]
fn string_reference() {
    let mut strings: ULogStringMap = HashMap::new();
    strings.insert(0x10, ULogString::new(0x10, "world".to_string(), Location::new("s.c".to_string(), 3)));
    let (r, arg, pos) = read_one(6, &[0x00, 0x10], &strings);
    assert!(r.is_ok());
    assert_eq!(pos, 2);
    match arg {
        ULogArgument::ULogString { value: Some(s) } => assert_eq!(s, "world"),
        _ => panic!("not a string reference"),
    }
    let (r, arg, pos) = read_one(6, &[0x00, 0x11, 0x00], &strings);
    assert_eq!(r, Err(ULogArgumentReadError::MissingStringId));
    assert_eq!(pos, 2);
    assert!(matches!(arg, ULogArgument::ULogString { value: None }));
}

#[test]
fn short_reads_fail() {
    let strings = HashMap::new();
    assert_eq!(read_one(243, &[1, 2, 3], &strings).0, Err(ULogArgumentReadError::Io));
    assert_eq!(read_one(1, &[0, 0, 0, 4, 1, 2, 3], &strings).0, Err(ULogArgumentReadError::Io));
    assert_eq!(read_one(3, &[0; 7], &strings).0, Err(ULogArgumentReadError::Io));
    assert_eq!(read_one(6, &[0], &strings).0, Err(ULogArgumentReadError::Io));
}

#[test]
fn severity_levels() {
    assert!(matches!(SeverityLevel::try_from(0), Ok(SeverityLevel::Emergency)));
    assert!(matches!(SeverityLevel::try_from(5), Ok(SeverityLevel::Notice)));
    assert!(matches!(SeverityLevel::try_from(8), Ok(SeverityLevel::Trace)));
    assert!(matches!(SeverityLevel::try_from(9), Err(SeverityLevelParseError::UnknownValue { value: 9 })));
    assert_eq!(SeverityLevel::Warning.name(), "Warning");
    assert_eq!(SeverityLevel::Info.name(), "Info");
}
