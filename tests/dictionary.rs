use elf::endian::AnyEndian;
use std::collections::HashMap;
use ulog_decoder::decoder::{decode_frame, register_system, DecodedEntry, SystemMap, ULogDecoderError};
use ulog_decoder::dictionary::{load_system, ElfImage, ElfParseError, ElfSymbolEntry, ElfSymbolParseError};
use ulog_decoder::line::entry_line;
use ulog_decoder::severity::SeverityLevel;
use ulog_decoder::ulog_argument::ULogArgument;
use ulog_decoder::ulog_message::ULogMessageFormatError;
use ulog_decoder::ulog_system_info::ULogSystemInfo;

const LEVELS: [(&str, u64); 9] = [
    ("_eulog_level_emergency", 0x104),
    ("_eulog_level_alert", 0x108),
    ("_eulog_level_critical", 0x10c),
    ("_eulog_level_error", 0x110),
    ("_eulog_level_warning", 0x114),
    ("_eulog_level_notice", 0x118),
    ("_eulog_level_info", 0x120),
    ("_eulog_level_debug", 0x130),
    ("_eulog_level_trace", 0x140),
];

fn sym(name: &str, value: u64) -> ElfSymbolEntry {
    ElfSymbolEntry { name: name.to_string(), value }
}

/// An image with all markers, the given members, system id 1 (big endian),
/// and the given type id bytes.
fn image(members: &[(&str, u64)], bytes: &[(u64, u8)]) -> ElfImage {
    let mut symbols = vec![
        sym("_sulog_string", 0x000),
        sym("_eulog_string", 0x040),
        sym("_sulog_level", 0x100),
        sym("_eulog_level", 0x140),
        sym("_sulog_argument", 0x200),
        sym("_eulog_argument", 0x240),
        sym("_sulog_meta", 0x300),
        sym("_eulog_meta", 0x310),
        sym("__ulog_sym_system_id", 0x300),
    ];
    for (n, v) in LEVELS {
        symbols.push(sym(n, v));
    }
    for (n, v) in members {
        symbols.push(sym(&format!("__ulog_sym_{n}"), *v));
    }
    let mut section = vec![0u8; 0x400];
    section[0x300] = 0x00;
    section[0x301] = 0x01;
    for (a, b) in bytes {
        section[*a as usize] = *b;
    }
    ElfImage { endianness: AnyEndian::Big, section, symbols }
}

fn registry(system: ULogSystemInfo) -> SystemMap {
    let mut systems: SystemMap = HashMap::new();
    register_system(&mut systems, system, "fw.elf").unwrap();
    systems
}

fn frame(payload: &[u8]) -> Vec<u8> {
    rzcobs::encode(payload)
}

fn decode(systems: &SystemMap, payload: &[u8]) -> Result<DecodedEntry, ULogDecoderError> {
    decode_frame(&frame(payload), systems)
}

#[test]
fn single_empty_argument_message() {
    let system = load_system(&image(&[("main.c_42_hello", 0x118)], &[])).unwrap();
    assert_eq!(system.system_id(), 1);
    let msg = &system.messages()[&0x18];
    assert_eq!(msg.format(), "hello");
    assert_eq!(msg.location().file.as_str(), "main.c");
    assert_eq!(msg.location().line, 42);
    assert_eq!(msg.severity_level(), SeverityLevel::Info);
    assert_eq!(msg.severity_level().name(), "Info");
    let line = entry_line(msg.severity_level().name(), msg.format(), system.system_id(), &msg.location().file, msg.location().line);
    assert!(line.starts_with("[Info] hello"));
    assert!(line.ends_with("0x1(file://main.c:42)"));
    let systems = registry(system);
    let entry = decode(&systems, &[0x00, 0x01, 0x00, 0x18]).unwrap();
    assert_eq!(entry.system_id, 1);
    assert_eq!(entry.message_id, 0x18);
    assert!(entry.arguments.is_empty());
}

#[test]
fn mixed_size_integers() {
    let system = load_system(&image(
        &[
            ("foo.c_7_\"val=%d\"", 0x118),
            ("foo.c_7_\"val=%d\"_arg_0", 0x200),
            ("foo.c_7_\"val=%d\"_arg_1", 0x201),
        ],
        &[(0x200, 242), (0x201, 243)],
    ))
    .unwrap();
    assert_eq!(system.messages()[&0x18].format(), "val=%d");
    let systems = registry(system);
    let entry = decode(&systems, &[0x00, 0x01, 0x00, 0x18, 0x80, 0x00, 0x00, 0x7F, 0xFF, 0xFF, 0xFF]).unwrap();
    assert!(matches!(entry.arguments[0], ULogArgument::Int32 { size: 3, value: Some(-8388608) }));
    assert!(matches!(entry.arguments[1], ULogArgument::Int32 { size: 4, value: Some(2147483647) }));
}

#[test]
fn user_string_reference() {
    let system = load_system(&image(
        &[("s.c_1_world", 0x010), ("m.c_3_hello %s", 0x118), ("m.c_3_hello %s_arg_0", 0x200)],
        &[(0x200, 6)],
    ))
    .unwrap();
    let s = &system.ulog_strings()[&0x10];
    assert_eq!(s.id(), 0x10);
    assert_eq!(s.string().as_str(), "world");
    assert_eq!(s.location().line, 1);
    let systems = registry(system);
    let entry = decode(&systems, &[0x00, 0x01, 0x00, 0x18, 0x00, 0x10]).unwrap();
    match &entry.arguments[0] {
        ULogArgument::ULogString { value: Some(v) } => assert_eq!(v, "world"),
        _ => panic!("not a string reference"),
    }
}

#[test]
fn bytes_and_float() {
    let system = load_system(&image(
        &[("b.c_9_{:x?} {}", 0x118), ("b.c_9_{:x?} {}_arg_0", 0x200), ("b.c_9_{:x?} {}_arg_1", 0x201)],
        &[(0x200, 1), (0x201, 2)],
    ))
    .unwrap();
    let systems = registry(system);
    let entry = decode(
        &systems,
        &[0x00, 0x01, 0x00, 0x18, 0x00, 0x00, 0x00, 0x03, 0xDE, 0xAD, 0xBE, 0x40, 0x49, 0x0F, 0xDB],
    )
    .unwrap();
    match &entry.arguments[0] {
        ULogArgument::Slice { value: Some(v) } => assert_eq!(format!("{v:x?}"), "[de, ad, be]"),
        _ => panic!("not a slice"),
    }
    match &entry.arguments[1] {
        ULogArgument::Float { value: Some(bits) } => assert_eq!(format!("{}", f32::from_bits(*bits)), "3.1415927"),
        _ => panic!("not a float"),
    }
}

#[test]
fn declaration_order_under_shuffled_addresses() {
    let system = load_system(&image(
        &[("o.c_5_{} {}_arg_1", 0x204), ("o.c_5_{} {}", 0x118), ("o.c_5_{} {}_arg_0", 0x205)],
        &[(0x204, 5), (0x205, 248)],
    ))
    .unwrap();
    let args = system.messages()[&0x18].arguments();
    assert_eq!(args.len(), 2);
    assert!(matches!(args[0], ULogArgument::UInt8 { value: None }));
    assert!(matches!(args[1], ULogArgument::Bool { value: None }));
}

#[test]
fn unknown_message_then_next_frame() {
    let system = load_system(&image(&[("u.c_1_hi", 0x118)], &[])).unwrap();
    let systems = registry(system);
    assert!(matches!(decode(&systems, &[0x00, 0x01, 0x00, 0x43, 0x01]), Err(ULogDecoderError::UnknownMessage)));
    assert!(decode(&systems, &[0x00, 0x01, 0x00, 0x18]).is_ok());
}

#[test]
fn partition_end_belongs_to_next_level() {
    let system = load_system(&image(&[("w.c_1_a", 0x114), ("w.c_2_b", 0x113), ("w.c_3_c", 0x100)], &[])).unwrap();
    assert_eq!(system.messages()[&0x14].severity_level(), SeverityLevel::Notice);
    assert_eq!(system.messages()[&0x13].severity_level(), SeverityLevel::Warning);
    assert_eq!(system.messages()[&0x00].severity_level(), SeverityLevel::Emergency);
}

#[test]
fn every_argument_lands_once() {
    let system = load_system(&image(
        &[
            ("a.c_1_x{}", 0x118),
            ("a.c_2_y{}{}", 0x119),
            ("a.c_2_y{}{}_arg_1", 0x200),
            ("a.c_1_x{}_arg_0", 0x201),
            ("a.c_2_y{}{}_arg_0", 0x202),
        ],
        &[(0x200, 249), (0x201, 5), (0x202, 240)],
    ))
    .unwrap();
    let total: usize = system.messages().values().map(|m| m.arguments().len()).sum();
    assert_eq!(total, 3);
    let y = system.messages()[&0x19].arguments();
    assert!(matches!(y[0], ULogArgument::Int8 { .. }));
    assert!(matches!(y[1], ULogArgument::UInt16 { .. }));
}

#[test]
fn orphaned_argument_fails() {
    let r = load_system(&image(&[("a.c_1_x", 0x118), ("b.c_1_x_arg_0", 0x200)], &[(0x200, 5)]));
    assert!(matches!(
        r,
        Err(ElfParseError::ElfSymbolParse { source: ElfSymbolParseError::OrphanedArguments, .. })
    ));
}

#[test]
fn missing_marker_fails() {
    let mut img = image(&[], &[]);
    img.symbols.retain(|s| s.name != "_eulog_level_debug");
    match load_system(&img) {
        Err(ElfParseError::MissingSymbol { symbol }) => assert_eq!(symbol, "_eulog_level_debug"),
        _ => panic!("expected a missing symbol"),
    }
}

#[test]
fn missing_system_id_fails() {
    let mut img = image(&[], &[]);
    img.symbols.retain(|s| s.name != "__ulog_sym_system_id");
    assert!(matches!(load_system(&img), Err(ElfParseError::NoSystemId)));
}

#[test]
fn little_endian_system_id() {
    let mut img = image(&[], &[]);
    img.endianness = AnyEndian::Little;
    img.section[0x300] = 0x34;
    img.section[0x301] = 0x12;
    assert_eq!(load_system(&img).unwrap().system_id(), 0x1234);
}

#[test]
fn bad_member_names_fail() {
    let r = load_system(&image(&[("a.c_1", 0x118)], &[]));
    assert!(matches!(
        r,
        Err(ElfParseError::ElfSymbolParse {
            source: ElfSymbolParseError::SegmentCountMismatch { expected: 3, actual: 2 },
            ..
        })
    ));
    let r = load_system(&image(&[("a.c_x_m", 0x118)], &[]));
    assert!(matches!(r, Err(ElfParseError::ElfSymbolParse { source: ElfSymbolParseError::InvalidInteger, .. })));
    let r = load_system(&image(&[("a.c_1_m", 0x118), ("a.c_1_m_val_0", 0x200)], &[(0x200, 5)]));
    assert!(matches!(
        r,
        Err(ElfParseError::ElfSymbolParse { source: ElfSymbolParseError::NonArgumentInArguments, .. })
    ));
    let r = load_system(&image(&[("a.c_1_m", 0x118), ("a.c_1_m_arg_0", 0x200)], &[(0x200, 239)]));
    assert!(matches!(
        r,
        Err(ElfParseError::ElfSymbolParse { source: ElfSymbolParseError::ULogArgumentParse { .. }, .. })
    ));
    let r = load_system(&image(&[("a.c_1_\"m", 0x118)], &[]));
    assert!(matches!(r, Err(ElfParseError::ElfSymbolParse { source: ElfSymbolParseError::SplitSegment { .. }, .. })));
}

#[test]
fn non_member_symbols_in_range_are_ignored() {
    let system = load_system(&image(&[("a.c_1_m", 0x118)], &[])).unwrap();
    assert_eq!(system.messages().len(), 1);
    let mut img = image(&[("a.c_1_m", 0x118)], &[]);
    img.symbols.push(sym("stray_symbol", 0x119));
    assert_eq!(load_system(&img).unwrap().messages().len(), 1);
}

#[test]
fn duplicate_system_id_is_refused() {
    let mut systems: SystemMap = HashMap::new();
    register_system(&mut systems, load_system(&image(&[], &[])).unwrap(), "a.elf").unwrap();
    match register_system(&mut systems, load_system(&image(&[], &[])).unwrap(), "b.elf") {
        Err(ULogDecoderError::DuplicateSystemId { system_id, file }) => {
            assert_eq!(system_id, 1);
            assert_eq!(file, "b.elf");
        }
        _ => panic!("expected a duplicate"),
    }
    assert_eq!(systems.len(), 1);
}

#[test]
fn frame_errors() {
    let systems = registry(
        load_system(&image(
            &[("e.c_1_{}", 0x118), ("e.c_1_{}_arg_0", 0x200), ("f.c_1_{:x?}", 0x119), ("f.c_1_{:x?}_arg_0", 0x201)],
            &[(0x200, 249), (0x201, 1)],
        ))
        .unwrap(),
    );
    assert!(matches!(decode_frame(&[0x00], &systems), Err(ULogDecoderError::Rzcobs)));
    assert!(matches!(decode_frame(&[], &systems), Err(ULogDecoderError::SystemIdRead)));
    assert!(matches!(decode(&systems, &[0x00, 0x02, 0x00, 0x18]), Err(ULogDecoderError::UnknownSystem)));
    assert!(matches!(
        decode(&systems, &[0x00, 0x01, 0x00, 0x19, 0xFF, 0xFF, 0xFF, 0xFF]),
        Err(ULogDecoderError::Format { source: ULogMessageFormatError::ULogArgumentRead { number: 0, .. } })
    ));
    let entry = decode(&systems, &[0x00, 0x01, 0x00, 0x18, 0x12, 0x34]).unwrap();
    assert_eq!(entry.payload[..6], [0x00, 0x01, 0x00, 0x18, 0x12, 0x34]);
    assert!(matches!(entry.arguments[0], ULogArgument::UInt16 { value: Some(0x1234) }));
}

#[test]
fn entry_line_layout() {
    assert_eq!(entry_line("Warning", "x=3", 0xBEEF, "src/a.c", 1207), "[Warning] x=3\n    From: 0xBEEF(file://src/a.c:1207)");
    assert_eq!(entry_line("Trace", "", 0, "f", 0), "[Trace] \n    From: 0x0(file://f:0)");
    assert_eq!(entry_line("Info", "t", 0x1A, "m.c", 10), format!("[Info] t\n    From: 0x{:X?}(file://m.c:{})", 0x1Au16, 10));
}

#[test]
fn shared_identifier_goes_to_smallest_id() {
    let system = load_system(&image(
        &[("d.c_1_{}", 0x119), ("d.c_1_{}", 0x118), ("d.c_1_{}_arg_0", 0x200)],
        &[(0x200, 248)],
    ))
    .unwrap();
    assert_eq!(system.messages().len(), 2);
    assert_eq!(system.messages()[&0x18].arguments().len(), 1);
    assert!(system.messages()[&0x19].arguments().is_empty());
}

#[test]
fn later_member_with_same_id_wins() {
    let mut img = image(&[("s.c_1_first", 0x010), ("s.c_2_second", 0x010)], &[]);
    img.symbols.push(sym("__ulog_sym_t.c_3_third", 0x011));
    let system = load_system(&img).unwrap();
    assert_eq!(system.ulog_strings().len(), 2);
    assert_eq!(system.ulog_strings()[&0x10].string().as_str(), "second");
    assert_eq!(system.ulog_strings()[&0x11].string().as_str(), "third");
}
