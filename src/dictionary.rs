//! Reconstruction of a device's log dictionary from the log section of its
//! firmware image: sub-section markers, encoded member symbols, strings,
//! messages, argument slots paired with their messages, and the system id.

use crate::location::Location;
use crate::severity::{level_of_rank, SeverityLevel, SeverityLevelParseError};
use crate::splitter::{split_segments, split_spec, SplitErrorKind, SplitSegmentError};
use crate::text::{has_prefix, parse_usize, parse_usize_spec, same_text, starts_with};
use crate::ulog_argument::{skeleton_of, ULogArgument, ULogArgumentParseError};
use crate::ulog_message::{all_wf, template_compiles, template_parses, ULogMessage};
use crate::ulog_string::{ULogString, ULogStringMap};
use crate::ulog_message::ULogMessageMap;
use crate::ulog_system_info::ULogSystemInfo;
use crate::bytes::{be_value, le_value};
use elf::endian::EndianParse;
use elf::endian::AnyEndian;
use std::collections::HashMap;
use vstd::prelude::*;
use vstd::string::*;

verus! {

broadcast use vstd::std_specs::hash::group_hash_axioms;

/// The byte order of an image, as the `elf` crate records it (`Little` or
/// `Big`).
#[verifier::external_type_specification]
pub struct ExAnyEndian(elf::endian::AnyEndian);

/// The `elf` crate's parse error, carried through unread.
#[verifier::external_type_specification]
#[verifier::external_body]
pub struct ExElfError(elf::ParseError);

/// An I/O error of std, carried through unread.
#[verifier::external_type_specification]
#[verifier::external_body]
pub struct ExIoError(std::io::Error);

/// A symbol of the log section: its name and its address.
#[derive(Debug, Clone)]
pub struct ElfSymbolEntry {
    pub name: String,
    pub value: u64,
}

/// What the loader reads of a firmware image: its byte order, the bytes of
/// its log section, and the symbols that lie in that section, in symbol
/// table order.
#[derive(Debug)]
pub struct ElfImage {
    pub endianness: AnyEndian,
    pub section: Vec<u8>,
    pub symbols: Vec<ElfSymbolEntry>,
}

/// A member of a sub-section: the encoded metadata that follows the member
/// prefix in its name, its address, and its offset from the start of the
/// sub-section.
#[derive(Debug, Clone)]
pub struct ElfSymbol {
    pub name: String,
    pub value: u64,
    pub rel_pos: u64,
}

pub open spec fn symbols_view(v: Seq<ElfSymbolEntry>) -> Seq<(Seq<char>, u64)> {
    v.map_values(|e: ElfSymbolEntry| (e.name@, e.value))
}

pub open spec fn members_view(v: Seq<ElfSymbol>) -> Seq<(Seq<char>, u64, u64)> {
    v.map_values(|m: ElfSymbol| (m.name@, m.value, m.rel_pos))
}

/// Why a dictionary could not be loaded.
#[derive(Debug)]
pub enum ElfParseError {
    File { source: std::io::Error },
    NoStringTable,
    NoULogSection,
    ULogSectionCompressed,
    ElfParse { source: elf::ParseError },
    NoSymbolTable,
    MissingSymbol { symbol: String },
    ElfSymbolParse { source: ElfSymbolParseError, name: String },
    NoSystemId,
}

/// Why one member symbol could not be turned into a dictionary item.
#[derive(Debug)]
pub enum ElfSymbolParseError {
    SegmentCountMismatch { expected: usize, actual: usize },
    InvalidInteger,
    SplitSegment { source: SplitSegmentError },
    SeverityLevelParse { source: SeverityLevelParseError },
    NoMatchingLogLevel,
    ULogArgumentParse { source: ULogArgumentParseError },
    ElfParse { source: elf::ParseError },
    OrphanedArguments,
    TemplateParse { template: String },
    NonArgumentInArguments,
}

/// The kinds of [`ElfSymbolParseError`], with their plain payload.
#[derive(Debug, Clone, Copy, PartialEq, Eq, Structural)]
pub enum SymbolErrorKind {
    SegmentCountMismatch { expected: usize, actual: usize },
    InvalidInteger,
    SplitSegment { kind: SplitErrorKind },
    SeverityLevelParse,
    NoMatchingLogLevel,
    ULogArgumentParse { id: u8 },
    ElfParse,
    OrphanedArguments,
    TemplateParse,
    NonArgumentInArguments,
}

impl ElfSymbolParseError {
    pub open spec fn kind(&self) -> SymbolErrorKind {
        match self {
            ElfSymbolParseError::SegmentCountMismatch { expected, actual } => {
                SymbolErrorKind::SegmentCountMismatch { expected: *expected, actual: *actual }
            },
            ElfSymbolParseError::InvalidInteger => SymbolErrorKind::InvalidInteger,
            ElfSymbolParseError::SplitSegment { source } => SymbolErrorKind::SplitSegment {
                kind: source.kind(),
            },
            ElfSymbolParseError::SeverityLevelParse { .. } => SymbolErrorKind::SeverityLevelParse,
            ElfSymbolParseError::NoMatchingLogLevel => SymbolErrorKind::NoMatchingLogLevel,
            ElfSymbolParseError::ULogArgumentParse { source } => match source {
                ULogArgumentParseError::InvalidTypeId { id } => SymbolErrorKind::ULogArgumentParse {
                    id: *id,
                },
            },
            ElfSymbolParseError::ElfParse { .. } => SymbolErrorKind::ElfParse,
            ElfSymbolParseError::OrphanedArguments => SymbolErrorKind::OrphanedArguments,
            ElfSymbolParseError::TemplateParse { .. } => SymbolErrorKind::TemplateParse,
            ElfSymbolParseError::NonArgumentInArguments => SymbolErrorKind::NonArgumentInArguments,
        }
    }
}

/// The kinds of [`ElfParseError`] that loading from an image can give, with
/// their plain payload.
pub enum LoadErrorKind {
    ElfParse,
    MissingSymbol { symbol: Seq<char> },
    ElfSymbolParse { kind: SymbolErrorKind, name: Seq<char> },
    NoSystemId,
    Other,
}

impl ElfParseError {
    pub open spec fn kind(&self) -> LoadErrorKind {
        match self {
            ElfParseError::ElfParse { .. } => LoadErrorKind::ElfParse,
            ElfParseError::MissingSymbol { symbol } => LoadErrorKind::MissingSymbol {
                symbol: symbol@,
            },
            ElfParseError::ElfSymbolParse { source, name } => LoadErrorKind::ElfSymbolParse {
                kind: source.kind(),
                name: name@,
            },
            ElfParseError::NoSystemId => LoadErrorKind::NoSystemId,
            _ => LoadErrorKind::Other,
        }
    }
}

/// The address of the first symbol called `name`.
pub open spec fn marker_spec(syms: Seq<(Seq<char>, u64)>, name: Seq<char>) -> Option<u64>
    decreases syms.len(),
{
    if syms.len() == 0 {
        None
    } else if syms[0].0 == name {
        Some(syms[0].1)
    } else {
        marker_spec(syms.drop_first(), name)
    }
}

/// The address of the first symbol called `name`; a missing one is an error.
pub fn find_marker(symbols: &Vec<ElfSymbolEntry>, name: &str) -> (r: Result<u64, ElfParseError>)
    ensures
        r matches Ok(v) ==> marker_spec(symbols_view(symbols@), name@) == Some(v),
        r is Err ==> marker_spec(symbols_view(symbols@), name@) is None,
        r matches Err(e) ==> e.kind() == (LoadErrorKind::MissingSymbol { symbol: name@ }),
{
    let mut i: usize = 0;
    assert(symbols_view(symbols@).subrange(0, symbols@.len() as int) =~= symbols_view(symbols@));
    while i < symbols.len()
        invariant
            i <= symbols@.len(),
            marker_spec(symbols_view(symbols@), name@) == marker_spec(
                symbols_view(symbols@).subrange(i as int, symbols@.len() as int),
                name@,
            ),
        decreases symbols@.len() - i,
    {
        let ghost rest = symbols_view(symbols@).subrange(i as int, symbols@.len() as int);
        assert(rest.drop_first() =~= symbols_view(symbols@).subrange(i + 1, symbols@.len() as int));
        if same_text(symbols[i].name.as_str(), name) {
            return Ok(symbols[i].value);
        }
        i += 1;
    }
    Err(ElfParseError::MissingSymbol { symbol: name.to_owned() })
}

/// The prefix that marks a member symbol.
pub open spec fn member_prefix() -> Seq<char> {
    "__ulog_sym_"@
}

/// The members of the sub-section `[start, end)` among `syms`, in order.
pub open spec fn members_spec(syms: Seq<(Seq<char>, u64)>, start: u64, end: u64) -> Seq<
    (Seq<char>, u64, u64),
>
    decreases syms.len(),
{
    if syms.len() == 0 {
        Seq::empty()
    } else {
        let prev = members_spec(syms.drop_last(), start, end);
        let (n, v) = syms.last();
        if start <= v < end && has_prefix(n, member_prefix()) {
            prev.push((n.subrange(member_prefix().len() as int, n.len() as int), v, (v - start) as u64))
        } else {
            prev
        }
    }
}

/// The members of the sub-section `[start, end)`: the symbols at an address
/// in that range whose names carry the member prefix.
pub fn section_members(symbols: &Vec<ElfSymbolEntry>, start: u64, end: u64) -> (r: Vec<ElfSymbol>)
    ensures
        members_view(r@) == members_spec(symbols_view(symbols@), start, end),
{
    let prefix = "__ulog_sym_";
    let mut out: Vec<ElfSymbol> = Vec::new();
    let mut i: usize = 0;
    while i < symbols.len()
        invariant
            i <= symbols@.len(),
            prefix@ == member_prefix(),
            members_view(out@) == members_spec(symbols_view(symbols@).subrange(0, i as int), start, end),
        decreases symbols@.len() - i,
    {
        let ghost pre = symbols_view(symbols@).subrange(0, i + 1);
        assert(pre.drop_last() =~= symbols_view(symbols@).subrange(0, i as int));
        let sym = &symbols[i];
        if start <= sym.value && sym.value < end && starts_with(sym.name.as_str(), prefix) {
            let n = sym.name.as_str().unicode_len();
            let plen = prefix.unicode_len();
            let suffix = sym.name.as_str().substring_char(plen, n).to_owned();
            let ghost before = out@;
            out.push(ElfSymbol { name: suffix, value: sym.value, rel_pos: sym.value - start });
            assert(members_view(out@) =~= members_view(before).push(
                (suffix@, sym.value, (sym.value - start) as u64),
            ));
        } else {
            assert(members_view(out@) =~= members_spec(pre, start, end));
        }
        i += 1;
    }
    assert(symbols_view(symbols@).subrange(0, symbols@.len() as int) =~= symbols_view(symbols@));
    out
}

/// Relies on `EndianParse::parse_u8_at` of the `elf` crate: the byte at
/// `offset`, which must lie in `data`.
#[verifier::external_body]
fn parse_u8_at(endianness: AnyEndian, offset: usize, data: &Vec<u8>) -> (r: Result<
    u8,
    elf::ParseError,
>)
    ensures
        r is Ok <==> offset < data@.len(),
        r matches Ok(v) ==> v == data@[offset as int],
{
    let mut at = offset;
    endianness.parse_u8_at(&mut at, data.as_slice())
}

/// Relies on `EndianParse::parse_u16_at` of the `elf` crate: the two bytes at
/// `offset`, which must lie in `data`, in the given byte order.
#[verifier::external_body]
fn parse_u16_at(endianness: AnyEndian, offset: usize, data: &Vec<u8>) -> (r: Result<
    u16,
    elf::ParseError,
>)
    ensures
        r is Ok <==> offset + 2 <= data@.len(),
        r matches Ok(v) ==> v == u16_at_spec(endianness, data@, offset as int),
{
    let mut at = offset;
    endianness.parse_u16_at(&mut at, data.as_slice())
}

/// The 16-bit value at `offset` of `data` in the byte order `e`.
pub open spec fn u16_at_spec(e: AnyEndian, data: Seq<u8>, offset: int) -> u16 {
    let b = data.subrange(offset, offset + 2);
    match e {
        AnyEndian::Little => le_value(b) as u16,
        AnyEndian::Big => be_value(b) as u16,
    }
}

/// The number of the first partition whose end lies above `addr`.
pub open spec fn level_rank_from(addr: u64, bounds: Seq<u64>, i: int) -> Option<int>
    decreases bounds.len() - i,
{
    if i < 0 || i >= bounds.len() {
        None
    } else if addr < bounds[i] {
        Some(i)
    } else {
        level_rank_from(addr, bounds, i + 1)
    }
}

/// The severity of a message at `addr`, given the ends of the nine
/// partitions of the level sub-section.
pub open spec fn severity_spec(addr: u64, bounds: Seq<u64>) -> Option<SeverityLevel> {
    match level_rank_from(addr, bounds, 0) {
        Some(i) => level_of_rank(i),
        None => None,
    }
}

/// The severity of a message at `addr`: the first partition whose end lies
/// above it.
pub fn severity_for(addr: u64, bounds: &Vec<u64>) -> (r: Result<SeverityLevel, ElfSymbolParseError>)
    requires
        bounds@.len() == 9,
    ensures
        r matches Ok(l) ==> severity_spec(addr, bounds@) == Some(l),
        r is Err ==> severity_spec(addr, bounds@) is None,
        r matches Err(e) ==> e.kind() == SymbolErrorKind::NoMatchingLogLevel,
{
    let mut i: usize = 0;
    while i < bounds.len()
        invariant
            i <= bounds@.len() == 9,
            level_rank_from(addr, bounds@, 0) == level_rank_from(addr, bounds@, i as int),
        decreases bounds@.len() - i,
    {
        if addr < bounds[i] {
            return match SeverityLevel::try_from(i) {
                Ok(l) => Ok(l),
                Err(e) => Err(ElfSymbolParseError::SeverityLevelParse { source: e }),
            };
        }
        i += 1;
    }
    Err(ElfSymbolParseError::NoMatchingLogLevel)
}

/// The fields of a member's metadata, which must number `expected`.
pub open spec fn fields_spec(name: Seq<char>, expected: nat) -> Result<Seq<Seq<char>>, SymbolErrorKind> {
    match split_spec(name, '_') {
        Err(e) => Err(SymbolErrorKind::SplitSegment { kind: e }),
        Ok(f) => if f.len() != expected {
            Err(SymbolErrorKind::SegmentCountMismatch { expected: expected as usize, actual: f.len() as usize })
        } else {
            Ok(f)
        },
    }
}

/// Splits a member's metadata on `_` into exactly `expected` fields.
fn member_fields(name: &str, expected: usize) -> (r: Result<Vec<String>, ElfSymbolParseError>)
    ensures
        r matches Ok(f) ==> fields_spec(name@, expected as nat) == Ok::<Seq<Seq<char>>, SymbolErrorKind>(f.deep_view()),
        r matches Err(e) ==> fields_spec(name@, expected as nat) == Err::<Seq<Seq<char>>, SymbolErrorKind>(e.kind()),
{
    match split_segments(name, '_') {
        Err(e) => Err(ElfSymbolParseError::SplitSegment { source: e }),
        Ok(f) => {
            if f.len() != expected {
                Err(ElfSymbolParseError::SegmentCountMismatch { expected, actual: f.len() })
            } else {
                Ok(f)
            }
        },
    }
}

/// A constant string as a string member describes it: id, value, and the
/// place of declaration.
pub open spec fn string_spec(m: (Seq<char>, u64, u64)) -> Result<
    (u16, Seq<char>, (Seq<char>, usize)),
    SymbolErrorKind,
> {
    match fields_spec(m.0, 3) {
        Err(e) => Err(e),
        Ok(f) => match parse_usize_spec(f[1]) {
            None => Err(SymbolErrorKind::InvalidInteger),
            Some(line) => Ok((m.2 as u16, f[2], (f[0], line))),
        },
    }
}

/// Builds the constant string that a string member describes.
pub fn parse_string_symbol(m: &ElfSymbol) -> (r: Result<ULogString, ElfSymbolParseError>)
    ensures
        r matches Ok(s) ==> string_spec((m.name@, m.value, m.rel_pos)) == Ok::<
            (u16, Seq<char>, (Seq<char>, usize)),
            SymbolErrorKind,
        >((s.spec_id(), s.spec_string(), s.spec_location())),
        r matches Err(e) ==> string_spec((m.name@, m.value, m.rel_pos)) == Err::<
            (u16, Seq<char>, (Seq<char>, usize)),
            SymbolErrorKind,
        >(e.kind()),
{
    let fields = member_fields(m.name.as_str(), 3)?;
    let line = match parse_usize(fields[1].as_str()) {
        Some(l) => l,
        None => {
            return Err(ElfSymbolParseError::InvalidInteger);
        },
    };
    let file = fields[0].clone();
    let value = fields[2].clone();
    Ok(ULogString::new(m.rel_pos as u16, value, Location::new(file, line)))
}

/// A message as a level member describes it: id, template text, place of
/// declaration, and severity.
#[verifier::opaque]
pub open spec fn message_spec(m: (Seq<char>, u64, u64), bounds: Seq<u64>) -> Result<
    (u16, Seq<char>, (Seq<char>, usize), SeverityLevel),
    SymbolErrorKind,
> {
    match fields_spec(m.0, 3) {
        Err(e) => Err(e),
        Ok(f) => if !template_parses(f[2]) {
            Err(SymbolErrorKind::TemplateParse)
        } else {
            match parse_usize_spec(f[1]) {
                None => Err(SymbolErrorKind::InvalidInteger),
                Some(line) => match severity_spec(m.1, bounds) {
                    None => Err(SymbolErrorKind::NoMatchingLogLevel),
                    Some(l) => Ok((m.2 as u16, f[2], (f[0], line), l)),
                },
            }
        },
    }
}

/// Builds the message, with no arguments yet, that a level member describes.
pub fn parse_message_symbol(m: &ElfSymbol, bounds: &Vec<u64>) -> (r: Result<
    ULogMessage,
    ElfSymbolParseError,
>)
    requires
        bounds@.len() == 9,
    ensures
        r matches Ok(msg) ==> message_spec((m.name@, m.value, m.rel_pos), bounds@) == Ok::<
            (u16, Seq<char>, (Seq<char>, usize), SeverityLevel),
            SymbolErrorKind,
        >((msg.spec_id(), msg.spec_format(), msg.spec_location(), msg.spec_severity())),
        r matches Ok(msg) ==> msg.spec_arguments() == Seq::<ULogArgument>::empty(),
        r matches Err(e) ==> message_spec((m.name@, m.value, m.rel_pos), bounds@) == Err::<
            (u16, Seq<char>, (Seq<char>, usize), SeverityLevel),
            SymbolErrorKind,
        >(e.kind()),
{
    reveal(message_spec);
    let fields = member_fields(m.name.as_str(), 3)?;
    let format = fields[2].clone();
    let line = parse_usize(fields[1].as_str());
    let severity = severity_for(m.value, bounds);
    match (line, severity) {
        (Some(line), Ok(severity)) => {
            let location = Location::new(fields[0].clone(), line);
            match ULogMessage::new(m.rel_pos as u16, format.clone(), location, severity) {
                Ok(msg) => Ok(msg),
                Err(_) => Err(ElfSymbolParseError::TemplateParse { template: format }),
            }
        },
        (line, severity) => {
            if !template_compiles(&format) {
                Err(ElfSymbolParseError::TemplateParse { template: format })
            } else if line.is_none() {
                Err(ElfSymbolParseError::InvalidInteger)
            } else {
                match severity {
                    Err(e) => Err(e),
                    Ok(_) => Err(ElfSymbolParseError::NoMatchingLogLevel),
                }
            }
        },
    }
}

/// An argument slot as an argument member describes it, before it is paired
/// with its message.
#[derive(Debug, Clone)]
pub struct ArgumentEntry {
    /// Where the owning message was declared.
    pub location: Location,
    /// The owning message's template text.
    pub format: String,
    /// The slot's place among the message's arguments.
    pub seq: usize,
    /// The empty slot for the argument's type id.
    pub argument: ULogArgument,
}

/// An argument member's slot: its message's place of declaration and
/// template, its sequence number, and the empty slot for the type id stored
/// at its address in the section.
pub open spec fn argument_spec(m: (Seq<char>, u64, u64), section: Seq<u8>) -> Result<
    ((Seq<char>, usize), Seq<char>, usize, ULogArgument),
    SymbolErrorKind,
> {
    match fields_spec(m.0, 5) {
        Err(e) => Err(e),
        Ok(f) => if f[3] != "arg"@ {
            Err(SymbolErrorKind::NonArgumentInArguments)
        } else if m.1 as usize >= section.len() {
            Err(SymbolErrorKind::ElfParse)
        } else {
            match skeleton_of(section[m.1 as usize as int]) {
                None => Err(SymbolErrorKind::ULogArgumentParse { id: section[m.1 as usize as int] }),
                Some(a) => match (parse_usize_spec(f[1]), parse_usize_spec(f[4])) {
                    (Some(line), Some(seq)) => Ok(((f[0], line), f[2], seq, a)),
                    _ => Err(SymbolErrorKind::InvalidInteger),
                },
            }
        },
    }
}

pub open spec fn entry_view(e: ArgumentEntry) -> ((Seq<char>, usize), Seq<char>, usize, ULogArgument) {
    (e.location@, e.format@, e.seq, e.argument)
}

/// Builds the slot that an argument member describes; its type id is the
/// byte at the member's address in `section`.
pub fn parse_argument_symbol(m: &ElfSymbol, endianness: AnyEndian, section: &Vec<u8>) -> (r: Result<
    ArgumentEntry,
    ElfSymbolParseError,
>)
    ensures
        r matches Ok(e) ==> argument_spec((m.name@, m.value, m.rel_pos), section@) == Ok::<
            ((Seq<char>, usize), Seq<char>, usize, ULogArgument),
            SymbolErrorKind,
        >(entry_view(e)),
        r matches Ok(e) ==> e.argument.wf(),
        r matches Err(e) ==> argument_spec((m.name@, m.value, m.rel_pos), section@) == Err::<
            ((Seq<char>, usize), Seq<char>, usize, ULogArgument),
            SymbolErrorKind,
        >(e.kind()),
{
    let fields = member_fields(m.name.as_str(), 5)?;
    if !same_text(fields[3].as_str(), "arg") {
        return Err(ElfSymbolParseError::NonArgumentInArguments);
    }
    let offset = #[verifier::truncate] (m.value as usize);
    let type_id = match parse_u8_at(endianness, offset, section) {
        Ok(b) => b,
        Err(e) => {
            return Err(ElfSymbolParseError::ElfParse { source: e });
        },
    };
    let argument = match ULogArgument::try_from(type_id) {
        Ok(a) => a,
        Err(e) => {
            return Err(ElfSymbolParseError::ULogArgumentParse { source: e });
        },
    };
    let line = match parse_usize(fields[1].as_str()) {
        Some(l) => l,
        None => {
            return Err(ElfSymbolParseError::InvalidInteger);
        },
    };
    let seq = match parse_usize(fields[4].as_str()) {
        Some(n) => n,
        None => {
            return Err(ElfSymbolParseError::InvalidInteger);
        },
    };
    Ok(
        ArgumentEntry {
            location: Location::new(fields[0].clone(), line),
            format: fields[2].clone(),
            seq,
            argument,
        },
    )
}

/// A message and an argument slot that name the same place of declaration
/// and the same template.
pub open spec fn same_identifier(msg: ULogMessage, e: ArgumentEntry) -> bool {
    msg.spec_location() == e.location@ && msg.spec_format() == e.format@
}

/// The first message at or after `i` that has the slot's identifier.
pub open spec fn owner_from(msgs: Seq<ULogMessage>, e: ArgumentEntry, i: int) -> Option<int>
    decreases msgs.len() - i,
{
    if i < 0 || i >= msgs.len() {
        None
    } else if same_identifier(msgs[i], e) {
        Some(i)
    } else {
        owner_from(msgs, e, i + 1)
    }
}

/// Message `q` owns the slot: of the messages with the slot's place of
/// declaration and template, it has the smallest id.
pub open spec fn is_owner(msgs: Seq<ULogMessage>, e: ArgumentEntry, q: int) -> bool {
    &&& 0 <= q < msgs.len()
    &&& same_identifier(msgs[q], e)
    &&& forall|w: int| 0 <= w < msgs.len() && #[trigger] same_identifier(msgs[w], e) ==> msgs[q].spec_id() <= msgs[w].spec_id()
}

/// The message that owns the slot, if any message has the slot's place of
/// declaration and template.
fn find_owner(messages: &Vec<ULogMessage>, e: &ArgumentEntry) -> (r: Option<usize>)
    ensures
        r is None <==> owner_from(messages@, *e, 0) is None,
        r matches Some(q) ==> is_owner(messages@, *e, q as int),
{
    let mut best: Option<usize> = None;
    let mut i: usize = 0;
    while i < messages.len()
        invariant
            i <= messages@.len(),
            best matches Some(b) ==> b < i && same_identifier(messages@[b as int], *e) && forall|w: int|
                0 <= w < i && #[trigger] same_identifier(messages@[w], *e) ==> messages@[b as int].spec_id() <= messages@[w].spec_id(),
            best is None ==> forall|w: int| 0 <= w < i ==> !(#[trigger] same_identifier(messages@[w], *e)),
        decreases messages@.len() - i,
    {
        let m = &messages[i];
        let loc = m.location();
        if loc.line == e.location.line && same_text(loc.file.as_str(), e.location.file.as_str())
            && same_text(m.format(), e.format.as_str()) {
            match best {
                Some(b) => {
                    if m.id() < messages[b].id() {
                        best = Some(i);
                    }
                },
                None => {
                    best = Some(i);
                },
            }
        }
        i += 1;
    }
    proof {
        lemma_owner_exists(messages@, *e, 0);
    }
    best
}

/// Slot `a` comes before slot `b`: by sequence number, then by position.
pub open spec fn key_lt(seqs: Seq<usize>, a: usize, b: usize) -> bool {
    seqs[a as int] < seqs[b as int] || (seqs[a as int] == seqs[b as int] && a < b)
}

/// `order` lists, without repetition and in ascending order of sequence
/// number, exactly the slots whose owner is `i`.
pub open spec fn is_order_for(order: Seq<usize>, owners: Seq<usize>, seqs: Seq<usize>, i: usize) -> bool {
    &&& forall|j: int| 0 <= j < order.len() ==> (#[trigger] order[j]) < owners.len() && owners[order[j] as int] == i
    &&& forall|j: int, l: int| 0 <= j < l < order.len() ==> key_lt(seqs, #[trigger] order[j], #[trigger] order[l])
    &&& forall|k: int| 0 <= k < owners.len() && owners[k] == i ==> order.contains(k as usize)
}

/// The slots owned by message `i`, in ascending order of sequence number.
fn order_for(owners: &Vec<usize>, seqs: &Vec<usize>, i: usize) -> (r: Vec<usize>)
    requires
        owners@.len() == seqs@.len(),
    ensures
        is_order_for(r@, owners@, seqs@, i),
{
    let mut r: Vec<usize> = Vec::new();
    let mut k: usize = 0;
    while k < owners.len()
        invariant
            owners@.len() == seqs@.len(),
            k <= owners@.len(),
            forall|j: int| 0 <= j < r@.len() ==> (#[trigger] r@[j]) < k && owners@[r@[j] as int] == i,
            forall|j: int, l: int| 0 <= j < l < r@.len() ==> key_lt(seqs@, #[trigger] r@[j], #[trigger] r@[l]),
            forall|q: int| 0 <= q < k && owners@[q] == i ==> r@.contains(q as usize),
        decreases owners@.len() - k,
    {
        if owners[k] == i {
            let mut p = r.len();
            while p > 0 && seqs[r[p - 1]] > seqs[k]
                invariant
                    p <= r@.len(),
                    k < owners@.len() == seqs@.len(),
                    forall|j: int| 0 <= j < r@.len() ==> (#[trigger] r@[j]) < k,
                    forall|j: int| p <= j < r@.len() ==> seqs@[(#[trigger] r@[j]) as int] > seqs@[k as int],
                decreases p,
            {
                p -= 1;
            }
            let ghost old_r = r@;
            r.insert(p, k);
            proof {
                assert forall|j: int, l: int| 0 <= j < l < r@.len() implies key_lt(seqs@, #[trigger] r@[j], #[trigger] r@[l]) by {
                    if l == p {
                        if j < p - 1 {
                            assert(key_lt(seqs@, old_r[j], old_r[p - 1]));
                        }
                    } else if j == p {
                        assert(seqs@[old_r[l - 1] as int] > seqs@[k as int]);
                    } else if l < p {
                        assert(r@[j] == old_r[j] && r@[l] == old_r[l]);
                    } else if j < p {
                        assert(r@[j] == old_r[j] && r@[l] == old_r[l - 1]);
                    } else {
                        assert(r@[j] == old_r[j - 1] && r@[l] == old_r[l - 1]);
                    }
                }
                assert forall|q: int| 0 <= q < k + 1 && owners@[q] == i implies r@.contains(q as usize) by {
                    if q == k {
                        assert(r@[p as int] == k);
                    } else {
                        let j = choose|j: int| 0 <= j < old_r.len() && old_r[j] == q as usize;
                        if j < p {
                            assert(r@[j] == q as usize);
                        } else {
                            assert(r@[j + 1] == q as usize);
                        }
                    }
                }
            }
        }
        k += 1;
    }
    r
}

pub open spec fn seqs_spec(entries: Seq<ArgumentEntry>) -> Seq<usize> {
    Seq::new(entries.len(), |k: int| entries[k].seq)
}

/// Every slot has a message to go to.
pub open spec fn all_owned(msgs: Seq<ULogMessage>, entries: Seq<ArgumentEntry>) -> bool {
    forall|k: int| 0 <= k < entries.len() ==> (#[trigger] owner_from(msgs, entries[k], 0)) is Some
}

pub open spec fn orders_view(orders: Seq<Vec<usize>>) -> Seq<Seq<usize>> {
    orders.map_values(|o: Vec<usize>| o@)
}

/// The slots that `order` lists, emptied of any value.
pub open spec fn slots_of(order: Seq<usize>, entries: Seq<ArgumentEntry>) -> Seq<ULogArgument> {
    order.map_values(|k: usize| entries[k as int].argument.spec_cleared())
}

/// `after` is `before` with the slots that `orders` lists appended to each
/// message, the rest of each message unchanged.
pub open spec fn paired(
    before: Seq<ULogMessage>,
    after: Seq<ULogMessage>,
    orders: Seq<Seq<usize>>,
    entries: Seq<ArgumentEntry>,
) -> bool {
    &&& after.len() == before.len()
    &&& orders.len() == before.len()
    &&& forall|i: int|
        0 <= i < before.len() ==> {
            &&& (#[trigger] after[i]).spec_id() == before[i].spec_id()
            &&& after[i].spec_format() == before[i].spec_format()
            &&& after[i].spec_location() == before[i].spec_location()
            &&& after[i].spec_severity() == before[i].spec_severity()
            &&& after[i].spec_arguments() == before[i].spec_arguments() + slots_of(orders[i], entries)
        }
}

/// Appends each slot to the message that owns it; the slots of one message
/// go in ascending order of sequence number. Returns the owner of each slot,
/// and, for each message, the positions in `entries` of the slots it
/// received. Fails, leaving the messages as they were, where a slot has no
/// message to go to.
pub fn pair_arguments(messages: &mut Vec<ULogMessage>, entries: &Vec<ArgumentEntry>) -> (r: Result<
    (Vec<usize>, Vec<Vec<usize>>),
    ElfParseError,
>)
    requires
        forall|i: int| 0 <= i < old(messages)@.len() ==> (#[trigger] old(messages)@[i]).wf(),
        forall|k: int| 0 <= k < entries@.len() ==> (#[trigger] entries@[k]).argument.wf(),
    ensures
        r is Ok <==> all_owned(old(messages)@, entries@),
        r is Err ==> final(messages)@ == old(messages)@,
        r matches Err(e) ==> exists|k: int|
            0 <= k < entries@.len() && owner_from(old(messages)@, #[trigger] entries@[k], 0) is None
                && e.kind() == (LoadErrorKind::ElfSymbolParse {
                kind: SymbolErrorKind::OrphanedArguments,
                name: entries@[k].format@,
            }),
        r matches Ok((owners, orders)) ==> owners@.len() == entries@.len() && forall|k: int|
            0 <= k < entries@.len() ==> is_owner(old(messages)@, #[trigger] entries@[k], owners@[k] as int),
        r matches Ok((owners, orders)) ==> paired(old(messages)@, final(messages)@, orders_view(orders@), entries@),
        r matches Ok((owners, orders)) ==> forall|i: int|
            0 <= i < orders@.len() ==> is_order_for(
                #[trigger] orders_view(orders@)[i],
                owners@,
                seqs_spec(entries@),
                i as usize,
            ),
        forall|i: int| 0 <= i < final(messages)@.len() ==> (#[trigger] final(messages)@[i]).wf(),
{
    let mut owners: Vec<usize> = Vec::new();
    let mut seqs: Vec<usize> = Vec::new();
    let mut k: usize = 0;
    while k < entries.len()
        invariant
            messages@ == old(messages)@,
            forall|i: int| 0 <= i < old(messages)@.len() ==> (#[trigger] old(messages)@[i]).wf(),
            k <= entries@.len(),
            owners@.len() == k,
            seqs@.len() == k,
            forall|j: int| 0 <= j < k ==> (#[trigger] owner_from(messages@, entries@[j], 0)) is Some,
            forall|j: int| 0 <= j < k ==> is_owner(messages@, #[trigger] entries@[j], owners@[j] as int),
            forall|j: int| 0 <= j < k ==> seqs@[j] == entries@[j].seq,
        decreases entries@.len() - k,
    {
        match find_owner(messages, &entries[k]) {
            Some(o) => {
                owners.push(o);
                seqs.push(entries[k].seq);
            },
            None => {
                let name = entries[k].format.clone();
                return Err(
                    ElfParseError::ElfSymbolParse {
                        source: ElfSymbolParseError::OrphanedArguments,
                        name,
                    },
                );
            },
        }
        k += 1;
    }
    assert(seqs@ =~= seqs_spec(entries@));
    let ghost before = messages@;
    assert(before == old(messages)@);
    let mut orders: Vec<Vec<usize>> = Vec::new();
    let mut i: usize = 0;
    while i < messages.len()
        invariant
            before.len() == messages@.len(),
            i <= messages@.len(),
            orders@.len() == i,
            owners@.len() == entries@.len(),
            seqs@ == seqs_spec(entries@),
            forall|k: int| 0 <= k < entries@.len() ==> (#[trigger] entries@[k]).argument.wf(),
            forall|j: int| 0 <= j < before.len() ==> (#[trigger] before[j]).wf(),
            forall|j: int| i <= j < messages@.len() ==> (#[trigger] messages@[j]) == before[j],
            forall|j: int| 0 <= j < i ==> (#[trigger] messages@[j]).wf(),
            forall|j: int| 0 <= j < i ==> {
                &&& (#[trigger] messages@[j]).spec_id() == before[j].spec_id()
                &&& messages@[j].spec_format() == before[j].spec_format()
                &&& messages@[j].spec_location() == before[j].spec_location()
                &&& messages@[j].spec_severity() == before[j].spec_severity()
                &&& messages@[j].spec_arguments() == before[j].spec_arguments() + slots_of(orders_view(orders@)[j], entries@)
            },
            forall|j: int| 0 <= j < i ==> is_order_for(#[trigger] orders_view(orders@)[j], owners@, seqs@, j as usize),
        decreases messages@.len() - i,
    {
        let order = order_for(&owners, &seqs, i);
        let ghost mid = messages@;
        let mut j: usize = 0;
        while j < order.len()
            invariant
                before.len() == messages@.len(),
                i < messages@.len(),
                j <= order@.len(),
                is_order_for(order@, owners@, seqs@, i),
                owners@.len() == entries@.len(),
                forall|k: int| 0 <= k < entries@.len() ==> (#[trigger] entries@[k]).argument.wf(),
                mid.len() == messages@.len(),
                forall|q: int| 0 <= q < messages@.len() && q != i ==> (#[trigger] messages@[q]) == mid[q],
                messages@[i as int].wf(),
                messages@[i as int].spec_id() == before[i as int].spec_id(),
                messages@[i as int].spec_format() == before[i as int].spec_format(),
                messages@[i as int].spec_location() == before[i as int].spec_location(),
                messages@[i as int].spec_severity() == before[i as int].spec_severity(),
                messages@[i as int].spec_arguments() == before[i as int].spec_arguments() + slots_of(order@.subrange(0, j as int), entries@),
            decreases order@.len() - j,
        {
            let slot = entries[order[j]].argument.cleared();
            let ghost prev = messages@[i as int].spec_arguments();
            proof {
                entries@[order@[j as int] as int].argument.lemma_cleared_reads_alike(slot, Seq::empty(), 0, Map::empty());
            }
            messages[i].push_argument(slot);
            proof {
                assert(all_wf(messages@[i as int].spec_arguments()));
                assert(slots_of(order@.subrange(0, j + 1), entries@) =~= slots_of(order@.subrange(0, j as int), entries@).push(slot));
            }
            j += 1;
        }
        assert(order@.subrange(0, order@.len() as int) =~= order@);
        let ghost prev_orders = orders_view(orders@);
        orders.push(order);
        assert(orders_view(orders@) =~= prev_orders.push(order@));
        i += 1;
    }
    Ok((owners, orders))
}

/// The members of the sub-section that the markers `s` and `e` delimit.
pub open spec fn sub_section_spec(syms: Seq<(Seq<char>, u64)>, s: Seq<char>, e: Seq<char>) -> Option<
    Seq<(Seq<char>, u64, u64)>,
> {
    match (marker_spec(syms, s), marker_spec(syms, e)) {
        (Some(a), Some(b)) => Some(members_spec(syms, a, b)),
        _ => None,
    }
}

/// `k` names a marker among `names` that the image lacks.
pub open spec fn missing_marker(syms: Seq<(Seq<char>, u64)>, k: LoadErrorKind, names: Seq<Seq<char>>) -> bool {
    k is MissingSymbol && names.contains(k->symbol) && marker_spec(syms, k->symbol) is None
}

/// The markers that end the nine severity partitions, from the most severe.
pub open spec fn level_marker_names() -> Seq<Seq<char>> {
    seq![
        "_eulog_level_emergency"@,
        "_eulog_level_alert"@,
        "_eulog_level_critical"@,
        "_eulog_level_error"@,
        "_eulog_level_warning"@,
        "_eulog_level_notice"@,
        "_eulog_level_info"@,
        "_eulog_level_debug"@,
        "_eulog_level_trace"@,
    ]
}

/// The members of the sub-section delimited by the markers `start` and `end`.
fn sub_section(symbols: &Vec<ElfSymbolEntry>, start: &str, end: &str) -> (r: Result<
    Vec<ElfSymbol>,
    ElfParseError,
>)
    ensures
        r matches Ok(v) ==> sub_section_spec(symbols_view(symbols@), start@, end@) == Some(
            members_view(v@),
        ),
        r is Err ==> sub_section_spec(symbols_view(symbols@), start@, end@) is None,
        r matches Err(e) ==> missing_marker(symbols_view(symbols@), e.kind(), seq![start@, end@]),
{
    let a = match find_marker(symbols, start) {
        Ok(a) => a,
        Err(e) => {
            assert(seq![start@, end@][0] == start@);
            return Err(e);
        },
    };
    let b = match find_marker(symbols, end) {
        Ok(b) => b,
        Err(e) => {
            assert(seq![start@, end@][1] == end@);
            return Err(e);
        },
    };
    Ok(section_members(symbols, a, b))
}

/// The ends of the nine severity partitions of the level sub-section.
pub open spec fn level_bounds_spec(syms: Seq<(Seq<char>, u64)>) -> Option<Seq<u64>> {
    match (
        marker_spec(syms, "_eulog_level_emergency"@),
        marker_spec(syms, "_eulog_level_alert"@),
        marker_spec(syms, "_eulog_level_critical"@),
        marker_spec(syms, "_eulog_level_error"@),
        marker_spec(syms, "_eulog_level_warning"@),
        marker_spec(syms, "_eulog_level_notice"@),
        marker_spec(syms, "_eulog_level_info"@),
        marker_spec(syms, "_eulog_level_debug"@),
        marker_spec(syms, "_eulog_level_trace"@),
    ) {
        (Some(a), Some(b), Some(c), Some(d), Some(e), Some(f), Some(g), Some(h), Some(i)) => Some(
            seq![a, b, c, d, e, f, g, h, i],
        ),
        _ => None,
    }
}

fn level_bounds(symbols: &Vec<ElfSymbolEntry>) -> (r: Result<Vec<u64>, ElfParseError>)
    ensures
        r matches Ok(v) ==> level_bounds_spec(symbols_view(symbols@)) == Some(v@),
        r is Err ==> level_bounds_spec(symbols_view(symbols@)) is None,
        r matches Err(e) ==> missing_marker(symbols_view(symbols@), e.kind(), level_marker_names()),
{
    let names = [
        "_eulog_level_emergency",
        "_eulog_level_alert",
        "_eulog_level_critical",
        "_eulog_level_error",
        "_eulog_level_warning",
        "_eulog_level_notice",
        "_eulog_level_info",
        "_eulog_level_debug",
        "_eulog_level_trace",
    ];
    let mut v: Vec<u64> = Vec::new();
    let mut i: usize = 0;
    while i < 9
        invariant
            i <= 9,
            v@.len() == i,
            forall|j: int| 0 <= j < 9 ==> (#[trigger] names@[j])@ == level_marker_names()[j],
            forall|j: int| 0 <= j < i ==> marker_spec(symbols_view(symbols@), level_marker_names()[j]) == Some(#[trigger] v@[j]),
        decreases 9 - i,
    {
        match find_marker(symbols, names[i]) {
            Ok(a) => v.push(a),
            Err(e) => {
                assert(level_marker_names()[i as int] == names@[i as int]@);
                return Err(e);
            },
        }
        i += 1;
    }
    let (a, b, c, d, e, f, g, h, i) = (v[0], v[1], v[2], v[3], v[4], v[5], v[6], v[7], v[8]);
    assert(v@ =~= seq![a, b, c, d, e, f, g, h, i]);
    Ok(v)
}

/// The address of the first meta member whose metadata is `system_id`.
pub open spec fn system_id_addr_spec(members: Seq<(Seq<char>, u64, u64)>) -> Option<u64>
    decreases members.len(),
{
    if members.len() == 0 {
        None
    } else if members[0].0 == "system_id"@ {
        Some(members[0].1)
    } else {
        system_id_addr_spec(members.drop_first())
    }
}

/// Reads the system id at the first meta member named `system_id`.
pub fn read_system_id(meta: &Vec<ElfSymbol>, endianness: AnyEndian, section: &Vec<u8>) -> (r: Result<
    u16,
    ElfParseError,
>)
    ensures
        r matches Ok(id) ==> system_id_addr_spec(members_view(meta@)) matches Some(a) && (a as usize)
            + 2 <= section@.len() && id == u16_at_spec(endianness, section@, (a as usize) as int),
        r matches Err(e) ==> match system_id_addr_spec(members_view(meta@)) {
            None => e.kind() == LoadErrorKind::NoSystemId,
            Some(a) => e.kind() == LoadErrorKind::ElfParse && (a as usize) + 2 > section@.len(),
        },
{
    let mut i: usize = 0;
    assert(members_view(meta@).subrange(0, meta@.len() as int) =~= members_view(meta@));
    while i < meta.len()
        invariant
            i <= meta@.len(),
            system_id_addr_spec(members_view(meta@)) == system_id_addr_spec(
                members_view(meta@).subrange(i as int, meta@.len() as int),
            ),
        decreases meta@.len() - i,
    {
        let ghost rest = members_view(meta@).subrange(i as int, meta@.len() as int);
        assert(rest.drop_first() =~= members_view(meta@).subrange(i + 1, meta@.len() as int));
        if same_text(meta[i].name.as_str(), "system_id") {
            let offset = #[verifier::truncate] (meta[i].value as usize);
            return match parse_u16_at(endianness, offset, section) {
                Ok(id) => Ok(id),
                Err(e) => Err(ElfParseError::ElfParse { source: e }),
            };
        }
        i += 1;
    }
    Err(ElfParseError::NoSystemId)
}

pub open spec fn string_model(s: ULogString) -> (u16, Seq<char>, (Seq<char>, usize)) {
    (s.spec_id(), s.spec_string(), s.spec_location())
}

pub open spec fn message_model(m: ULogMessage) -> (u16, Seq<char>, (Seq<char>, usize), SeverityLevel) {
    (m.spec_id(), m.spec_format(), m.spec_location(), m.spec_severity())
}

/// Every member of `ms` describes a string, and every string of `map` is
/// described by one of them and filed under its id.
pub open spec fn strings_from(map: Map<u16, ULogString>, ms: Seq<(Seq<char>, u64, u64)>) -> bool {
    &&& forall|j: int| 0 <= j < ms.len() ==> (#[trigger] string_spec(ms[j])) is Ok
    &&& forall|k: u16|
        #[trigger] map.contains_key(k) ==> map[k].spec_id() == k && exists|j: int|
            0 <= j < ms.len() && #[trigger] string_spec(ms[j]) == Ok::<
                (u16, Seq<char>, (Seq<char>, usize)),
                SymbolErrorKind,
            >(string_model(map[k]))
}

/// Every member of `ms` describes a message, and every message of `map` is
/// described by one of them and filed under its id.
pub open spec fn messages_from(
    map: Map<u16, ULogMessage>,
    ms: Seq<(Seq<char>, u64, u64)>,
    bounds: Seq<u64>,
) -> bool {
    &&& forall|j: int| 0 <= j < ms.len() ==> (#[trigger] message_spec(ms[j], bounds)) is Ok
    &&& forall|k: u16|
        #[trigger] map.contains_key(k) ==> map[k].spec_id() == k && exists|j: int|
            0 <= j < ms.len() && #[trigger] message_spec(ms[j], bounds) == Ok::<
                (u16, Seq<char>, (Seq<char>, usize), SeverityLevel),
                SymbolErrorKind,
            >(message_model(map[k]))
}

fn wrap_symbol_error(source: ElfSymbolParseError, m: &ElfSymbol) -> (r: ElfParseError)
    ensures
        r.kind() == (LoadErrorKind::ElfSymbolParse { kind: source.kind(), name: m.name@ }),
{
    ElfParseError::ElfSymbolParse { source, name: m.name.clone() }
}

/// A message carries the id of its member.
pub proof fn lemma_message_id(m: (Seq<char>, u64, u64), bounds: Seq<u64>)
    ensures
        message_spec(m, bounds) is Ok ==> message_spec(m, bounds)->Ok_0.0 == m.2 as u16,
{
    reveal(message_spec);
}

/// The id of a member: its offset from the start of its sub-section, in 16
/// bits.
pub open spec fn member_id(m: (Seq<char>, u64, u64)) -> u16 {
    m.2 as u16
}

/// No member after `j` and before `n` has the id of member `j`.
pub open spec fn last_with_id(ms: Seq<(Seq<char>, u64, u64)>, j: int, n: int) -> bool {
    forall|w: int| j < w < n ==> member_id(#[trigger] ms[w]) != member_id(ms[j])
}

/// The first member that does not describe a string fails with `kind`.
pub open spec fn first_string_failure(ms: Seq<(Seq<char>, u64, u64)>, e: LoadErrorKind) -> bool {
    exists|j: int|
        0 <= j < ms.len() && (forall|w: int| 0 <= w < j ==> (#[trigger] string_spec(ms[w])) is Ok)
            && (#[trigger] string_spec(ms[j])) is Err && e == (LoadErrorKind::ElfSymbolParse {
            kind: string_spec(ms[j])->Err_0,
            name: ms[j].0,
        })
}

/// The first member that does not describe a message fails with `kind`.
pub open spec fn first_message_failure(ms: Seq<(Seq<char>, u64, u64)>, bounds: Seq<u64>, e: LoadErrorKind) -> bool {
    exists|j: int|
        0 <= j < ms.len() && (forall|w: int| 0 <= w < j ==> (#[trigger] message_spec(ms[w], bounds)) is Ok)
            && (#[trigger] message_spec(ms[j], bounds)) is Err && e == (LoadErrorKind::ElfSymbolParse {
            kind: message_spec(ms[j], bounds)->Err_0,
            name: ms[j].0,
        })
}

/// The first member that does not describe an argument slot fails with `kind`.
pub open spec fn first_argument_failure(ms: Seq<(Seq<char>, u64, u64)>, section: Seq<u8>, e: LoadErrorKind) -> bool {
    exists|j: int|
        0 <= j < ms.len() && (forall|w: int| 0 <= w < j ==> (#[trigger] argument_spec(ms[w], section)) is Ok)
            && (#[trigger] argument_spec(ms[j], section)) is Err && e == (LoadErrorKind::ElfSymbolParse {
            kind: argument_spec(ms[j], section)->Err_0,
            name: ms[j].0,
        })
}

/// Each of the first `n` members that no later one of them overrides has its
/// string filed under its id.
pub open spec fn strings_complete(map: Map<u16, ULogString>, ms: Seq<(Seq<char>, u64, u64)>, n: int) -> bool {
    forall|j: int|
        0 <= j < n && #[trigger] last_with_id(ms, j, n) ==> map.contains_key(member_id(ms[j]))
            && string_spec(ms[j]) == Ok::<(u16, Seq<char>, (Seq<char>, usize)), SymbolErrorKind>(
            string_model(map[member_id(ms[j])]),
        )
}

/// The strings of the string members, filed by id; a later member with the
/// same id replaces an earlier one.
fn collect_strings(ms: &Vec<ElfSymbol>) -> (r: Result<ULogStringMap, ElfParseError>)
    ensures
        r is Ok <==> forall|j: int| 0 <= j < ms@.len() ==> (#[trigger] string_spec(members_view(ms@)[j])) is Ok,
        r matches Ok(map) ==> strings_from(map@, members_view(ms@)),
        r matches Ok(map) ==> strings_complete(map@, members_view(ms@), ms@.len() as int),
        r matches Err(e) ==> first_string_failure(members_view(ms@), e.kind()),
{
    let mut strings: ULogStringMap = HashMap::new();
    let mut i: usize = 0;
    while i < ms.len()
        invariant
            i <= ms@.len(),
            forall|j: int| 0 <= j < i ==> (#[trigger] string_spec(members_view(ms@)[j])) is Ok,
            forall|k: u16|
                #[trigger] strings@.contains_key(k) ==> strings@[k].spec_id() == k && exists|j: int|
                    0 <= j < i && #[trigger] string_spec(members_view(ms@)[j]) == Ok::<
                        (u16, Seq<char>, (Seq<char>, usize)),
                        SymbolErrorKind,
                    >(string_model(strings@[k])),
            strings_complete(strings@, members_view(ms@), i as int),
        decreases ms@.len() - i,
    {
        let m = &ms[i];
        assert(members_view(ms@)[i as int] == (m.name@, m.value, m.rel_pos));
        let s = match parse_string_symbol(m) {
            Ok(s) => s,
            Err(e) => {
                let r = wrap_symbol_error(e, m);
                assert(first_string_failure(members_view(ms@), r.kind())) by {
                    assert(string_spec(members_view(ms@)[i as int]) is Err);
                }
                return Err(r);
            },
        };
        let id = s.id();
        let ghost before = strings@;
        let ghost sm = members_view(ms@);
        assert(id == member_id(sm[i as int]));
        strings.insert(id, s);
        proof {
            assert forall|j: int| 0 <= j < i + 1 && #[trigger] last_with_id(sm, j, i + 1) implies strings@.contains_key(member_id(sm[j]))
                && string_spec(sm[j]) == Ok::<(u16, Seq<char>, (Seq<char>, usize)), SymbolErrorKind>(
                string_model(strings@[member_id(sm[j])]),
            ) by {
                if j < i {
                    assert(member_id(sm[i as int]) != member_id(sm[j]));
                    assert(last_with_id(sm, j, i as int));
                }
            }
        }
        i += 1;
    }
    Ok(strings)
}

/// No two messages of `v` share an id.
pub open spec fn distinct_ids(v: Seq<ULogMessage>) -> bool {
    forall|q: int, w: int| 0 <= q < w < v.len() ==> (#[trigger] v[q]).spec_id() != (#[trigger] v[w]).spec_id()
}

/// Member `j` describes the message `msg`.
pub open spec fn describes(lm: Seq<(Seq<char>, u64, u64)>, bounds: Seq<u64>, j: int, msg: ULogMessage) -> bool {
    message_spec(lm[j], bounds) == Ok::<(u16, Seq<char>, (Seq<char>, usize), SeverityLevel), SymbolErrorKind>(
        message_model(msg),
    )
}

/// Each message of `v` is described by a member among the first `n` that
/// no later one of them overrides.
pub open spec fn sound_upto(lm: Seq<(Seq<char>, u64, u64)>, bounds: Seq<u64>, v: Seq<ULogMessage>, n: int) -> bool {
    forall|q: int| 0 <= q < v.len() ==> #[trigger] described_upto(lm, bounds, v[q], n)
}

/// A member among the first `n` that no later one of them overrides
/// describes `msg`.
pub open spec fn described_upto(lm: Seq<(Seq<char>, u64, u64)>, bounds: Seq<u64>, msg: ULogMessage, n: int) -> bool {
    exists|j: int| 0 <= j < n && last_with_id(lm, j, n) && #[trigger] describes(lm, bounds, j, msg)
}

/// Each member among the first `n` that no later one overrides describes a
/// message of `v`.
pub open spec fn complete_upto(lm: Seq<(Seq<char>, u64, u64)>, bounds: Seq<u64>, v: Seq<ULogMessage>, n: int) -> bool {
    forall|j: int| 0 <= j < n && #[trigger] last_with_id(lm, j, n) ==> exists|q: int|
        0 <= q < v.len() && #[trigger] describes(lm, bounds, j, v[q])
}

proof fn lemma_upsert_step(
    lm: Seq<(Seq<char>, u64, u64)>,
    bounds: Seq<u64>,
    before: Seq<ULogMessage>,
    after: Seq<ULogMessage>,
    msg: ULogMessage,
    q: int,
    i: int,
)
    requires
        0 <= i < lm.len(),
        distinct_ids(before),
        sound_upto(lm, bounds, before, i),
        complete_upto(lm, bounds, before, i),
        describes(lm, bounds, i, msg),
        0 <= q <= before.len(),
        forall|w: int| 0 <= w < q ==> (#[trigger] before[w]).spec_id() != msg.spec_id(),
        q < before.len() ==> before[q].spec_id() == msg.spec_id(),
        q < before.len() ==> after == before.update(q, msg),
        q == before.len() ==> after == before.push(msg),
    ensures
        distinct_ids(after),
        sound_upto(lm, bounds, after, i + 1),
        complete_upto(lm, bounds, after, i + 1),
{
    lemma_message_id(lm[i], bounds);
    assert(msg.spec_id() == member_id(lm[i]));
    assert(after[q] == msg);
    assert forall|w: int| 0 <= w < after.len() && w != q implies #[trigger] after[w] == before[w] by {}
    assert forall|w: int| 0 <= w < after.len() implies #[trigger] described_upto(lm, bounds, after[w], i + 1) by {
        if w == q {
            assert(last_with_id(lm, i, i + 1));
            assert(describes(lm, bounds, i, after[w]));
            assert(described_upto(lm, bounds, after[w], i + 1));
        } else {
            assert(described_upto(lm, bounds, before[w], i));
            let j = choose|j: int| 0 <= j < i && last_with_id(lm, j, i) && #[trigger] describes(lm, bounds, j, before[w]);
            lemma_message_id(lm[j], bounds);
            assert(member_id(lm[j]) == before[w].spec_id());
            assert(before[w].spec_id() != msg.spec_id());
            assert(last_with_id(lm, j, i + 1));
            assert(describes(lm, bounds, j, after[w]));
        }
    }
    assert forall|j: int| 0 <= j < i + 1 && #[trigger] last_with_id(lm, j, i + 1) implies exists|w: int|
        0 <= w < after.len() && #[trigger] describes(lm, bounds, j, after[w]) by {
        if j == i {
            assert(describes(lm, bounds, j, after[q]));
        } else {
            assert(last_with_id(lm, j, i));
            let w = choose|w: int| 0 <= w < before.len() && #[trigger] describes(lm, bounds, j, before[w]);
            lemma_message_id(lm[j], bounds);
            assert(member_id(lm[i]) != member_id(lm[j]));
            assert(before[w].spec_id() == member_id(lm[j]));
            assert(w != q);
            assert(describes(lm, bounds, j, after[w]));
        }
    }
    assert forall|a: int, b: int| 0 <= a < b < after.len() implies (#[trigger] after[a]).spec_id() != (#[trigger] after[b]).spec_id() by {
        if a != q && b != q {
            assert(after[a] == before[a] && after[b] == before[b]);
        } else if a == q {
            assert(after[b] == before[b]);
            if q == before.len() {
                assert(false);
            }
        } else {
            assert(after[a] == before[a]);
        }
    }
}

/// The messages of the level members, each id once: a later member with
/// the same id replaces an earlier one.
fn collect_messages(ms: &Vec<ElfSymbol>, bounds: &Vec<u64>) -> (r: Result<Vec<ULogMessage>, ElfParseError>)
    requires
        bounds@.len() == 9,
    ensures
        r is Ok <==> forall|j: int| 0 <= j < ms@.len() ==> (#[trigger] message_spec(members_view(ms@)[j], bounds@)) is Ok,
        r matches Err(e) ==> first_message_failure(members_view(ms@), bounds@, e.kind()),
        r matches Ok(v) ==> distinct_ids(v@) && sound_upto(members_view(ms@), bounds@, v@, ms@.len() as int)
            && complete_upto(members_view(ms@), bounds@, v@, ms@.len() as int),
        r matches Ok(v) ==> forall|q: int| 0 <= q < v@.len() ==> (#[trigger] v@[q]).spec_arguments() == Seq::<ULogArgument>::empty(),
{
    let ghost lm = members_view(ms@);
    let mut messages: Vec<ULogMessage> = Vec::new();
    let mut i: usize = 0;
    while i < ms.len()
        invariant
            lm == members_view(ms@),
            bounds@.len() == 9,
            i <= ms@.len(),
            forall|j: int| 0 <= j < i ==> (#[trigger] message_spec(lm[j], bounds@)) is Ok,
            distinct_ids(messages@),
            sound_upto(lm, bounds@, messages@, i as int),
            complete_upto(lm, bounds@, messages@, i as int),
            forall|q: int| 0 <= q < messages@.len() ==> (#[trigger] messages@[q]).spec_arguments() == Seq::<ULogArgument>::empty(),
        decreases ms@.len() - i,
    {
        let m = &ms[i];
        assert(lm[i as int] == (m.name@, m.value, m.rel_pos));
        let msg = match parse_message_symbol(m, bounds) {
            Ok(msg) => msg,
            Err(e) => {
                let r = wrap_symbol_error(e, m);
                assert(first_message_failure(lm, bounds@, r.kind())) by {
                    assert(message_spec(lm[i as int], bounds@) is Err);
                }
                return Err(r);
            },
        };
        let id = msg.id();
        let mut q: usize = 0;
        while q < messages.len() && messages[q].id() != id
            invariant
                q <= messages@.len(),
                forall|w: int| 0 <= w < q ==> (#[trigger] messages@[w]).spec_id() != id,
            decreases messages@.len() - q,
        {
            q += 1;
        }
        let ghost before = messages@;
        let ghost g = msg;
        if q < messages.len() {
            messages[q] = msg;
        } else {
            messages.push(msg);
        }
        proof {
            lemma_upsert_step(lm, bounds@, before, messages@, g, q as int, i as int);
        }
        i += 1;
    }
    Ok(messages)
}

/// The argument slots of the argument members, in member order.
fn collect_entries(ms: &Vec<ElfSymbol>, endianness: AnyEndian, section: &Vec<u8>) -> (r: Result<
    Vec<ArgumentEntry>,
    ElfParseError,
>)
    ensures
        r is Ok <==> forall|j: int| 0 <= j < ms@.len() ==> (#[trigger] argument_spec(members_view(ms@)[j], section@)) is Ok,
        r matches Err(e) ==> first_argument_failure(members_view(ms@), section@, e.kind()),
        r matches Ok(v) ==> v@.len() == ms@.len() && forall|k: int| 0 <= k < v@.len() ==> argument_spec(members_view(ms@)[k], section@) == Ok::<
            ((Seq<char>, usize), Seq<char>, usize, ULogArgument),
            SymbolErrorKind,
        >(entry_view(#[trigger] v@[k])) && v@[k].argument.wf(),
{
    let mut entries: Vec<ArgumentEntry> = Vec::new();
    let mut i: usize = 0;
    while i < ms.len()
        invariant
            i <= ms@.len(),
            entries@.len() == i,
            forall|j: int| 0 <= j < i ==> (#[trigger] argument_spec(members_view(ms@)[j], section@)) is Ok,
            forall|k: int| 0 <= k < i ==> argument_spec(members_view(ms@)[k], section@) == Ok::<
                ((Seq<char>, usize), Seq<char>, usize, ULogArgument),
                SymbolErrorKind,
            >(entry_view(#[trigger] entries@[k])) && entries@[k].argument.wf(),
        decreases ms@.len() - i,
    {
        let m = &ms[i];
        assert(members_view(ms@)[i as int] == (m.name@, m.value, m.rel_pos));
        let e = match parse_argument_symbol(m, endianness, section) {
            Ok(e) => e,
            Err(e) => {
                let r = wrap_symbol_error(e, m);
                assert(first_argument_failure(members_view(ms@), section@, r.kind())) by {
                    assert forall|w: int| 0 <= w < i implies (#[trigger] argument_spec(members_view(ms@)[w], section@)) is Ok by {
                        assert(argument_spec(members_view(ms@)[w], section@) == Ok::<
                            ((Seq<char>, usize), Seq<char>, usize, ULogArgument),
                            SymbolErrorKind,
                        >(entry_view(entries@[w])));
                    }
                    assert(argument_spec(members_view(ms@)[i as int], section@) is Err);
                }
                return Err(r);
            },
        };
        entries.push(e);
        i += 1;
    }
    Ok(entries)
}

proof fn lemma_owner_exists(msgs: Seq<ULogMessage>, e: ArgumentEntry, i: int)
    requires
        0 <= i,
    ensures
        owner_from(msgs, e, i) is Some <==> exists|q: int| i <= q < msgs.len() && #[trigger] same_identifier(msgs[q], e),
    decreases msgs.len() - i,
{
    if i < msgs.len() {
        lemma_owner_exists(msgs, e, i + 1);
        if !same_identifier(msgs[i], e) {
            assert forall|q: int| i <= q < msgs.len() && #[trigger] same_identifier(msgs[q], e) implies i + 1 <= q by {}
        }
    }
}

/// A level member that no later one overrides describes the message that the
/// slot `e` belongs to.
pub open spec fn argument_has_message(
    lm: Seq<(Seq<char>, u64, u64)>,
    bounds: Seq<u64>,
    e: ((Seq<char>, usize), Seq<char>, usize, ULogArgument),
) -> bool {
    exists|j: int|
        0 <= j < lm.len() && last_with_id(lm, j, lm.len() as int) && (#[trigger] message_spec(lm[j], bounds)) is Ok
            && message_spec(lm[j], bounds)->Ok_0.2 == e.0 && message_spec(lm[j], bounds)->Ok_0.1 == e.1
}

proof fn lemma_owned_iff(
    lm: Seq<(Seq<char>, u64, u64)>,
    bounds: Seq<u64>,
    v: Seq<ULogMessage>,
    e: ArgumentEntry,
)
    requires
        sound_upto(lm, bounds, v, lm.len() as int),
        complete_upto(lm, bounds, v, lm.len() as int),
    ensures
        owner_from(v, e, 0) is Some <==> argument_has_message(lm, bounds, entry_view(e)),
{
    lemma_owner_exists(v, e, 0);
    if owner_from(v, e, 0) is Some {
        let q = choose|q: int| 0 <= q < v.len() && #[trigger] same_identifier(v[q], e);
        assert(described_upto(lm, bounds, v[q], lm.len() as int));
        let j = choose|j: int| 0 <= j < lm.len() && last_with_id(lm, j, lm.len() as int) && #[trigger] describes(lm, bounds, j, v[q]);
        assert(message_spec(lm[j], bounds) is Ok);
    }
    if argument_has_message(lm, bounds, entry_view(e)) {
        let j = choose|j: int|
            0 <= j < lm.len() && last_with_id(lm, j, lm.len() as int) && (#[trigger] message_spec(lm[j], bounds)) is Ok
                && message_spec(lm[j], bounds)->Ok_0.2 == e.location@ && message_spec(lm[j], bounds)->Ok_0.1 == e.format@;
        assert(last_with_id(lm, j, lm.len() as int));
        let q = choose|q: int| 0 <= q < v.len() && #[trigger] describes(lm, bounds, j, v[q]);
        assert(same_identifier(v[q], e));
    }
}

/// The conditions under which an image yields a dictionary: all markers are
/// present, every member describes its item, every argument slot has a
/// message, and the system id can be read.
pub open spec fn load_ok(image: ElfImage) -> bool {
    let syms = symbols_view(image.symbols@);
    &&& level_bounds_spec(syms) matches Some(bounds)
    &&& sub_section_spec(syms, "_sulog_string"@, "_eulog_string"@) matches Some(sm)
    &&& forall|j: int| 0 <= j < sm.len() ==> (#[trigger] string_spec(sm[j])) is Ok
    &&& sub_section_spec(syms, "_sulog_level"@, "_eulog_level"@) matches Some(lm)
    &&& forall|j: int| 0 <= j < lm.len() ==> (#[trigger] message_spec(lm[j], bounds)) is Ok
    &&& sub_section_spec(syms, "_sulog_argument"@, "_eulog_argument"@) matches Some(am)
    &&& forall|j: int| 0 <= j < am.len() ==> (#[trigger] argument_spec(am[j], image.section@)) is Ok
    &&& forall|j: int| 0 <= j < am.len() ==> argument_has_message(lm, bounds, #[trigger] argument_spec(am[j], image.section@)->Ok_0)
    &&& sub_section_spec(syms, "_sulog_meta"@, "_eulog_meta"@) matches Some(mm)
    &&& system_id_addr_spec(mm) matches Some(a)
    &&& (a as usize) + 2 <= image.section@.len()
}

/// Argument member `j` belongs to a message declared at `loc` with the
/// template `fmt`.
pub open spec fn arg_matches(
    am: Seq<(Seq<char>, u64, u64)>,
    section: Seq<u8>,
    j: int,
    loc: (Seq<char>, usize),
    fmt: Seq<char>,
) -> bool {
    argument_spec(am[j], section)->Ok_0.0 == loc && argument_spec(am[j], section)->Ok_0.1 == fmt
}

/// Argument member `a` comes before member `b`: by sequence number, then by
/// position.
pub open spec fn member_key_lt(am: Seq<(Seq<char>, u64, u64)>, section: Seq<u8>, a: usize, b: usize) -> bool {
    let sa = argument_spec(am[a as int], section)->Ok_0.2;
    let sb = argument_spec(am[b as int], section)->Ok_0.2;
    sa < sb || (sa == sb && a < b)
}

/// `order` lists argument members of the message declared at `loc` with
/// template `fmt`, in ascending order of sequence number: all of them where
/// the message `takes` its arguments, none otherwise.
pub open spec fn member_order(
    order: Seq<usize>,
    am: Seq<(Seq<char>, u64, u64)>,
    section: Seq<u8>,
    loc: (Seq<char>, usize),
    fmt: Seq<char>,
    takes: bool,
) -> bool {
    &&& forall|t: int| 0 <= t < order.len() ==> (#[trigger] order[t]) < am.len() && arg_matches(am, section, order[t] as int, loc, fmt)
    &&& forall|t: int, u: int| 0 <= t < u < order.len() ==> member_key_lt(am, section, #[trigger] order[t], #[trigger] order[u])
    &&& takes ==> forall|j: int| 0 <= j < am.len() && #[trigger] arg_matches(am, section, j, loc, fmt) ==> order.contains(j as usize)
    &&& !takes ==> order.len() == 0
}

/// The empty slots that the argument members listed in `order` describe.
pub open spec fn member_slots(order: Seq<usize>, am: Seq<(Seq<char>, u64, u64)>, section: Seq<u8>) -> Seq<ULogArgument> {
    order.map_values(|j: usize| argument_spec(am[j as int], section)->Ok_0.3.spec_cleared())
}

/// Of the messages with the same place of declaration and template, the one
/// under `k` has the smallest id.
pub open spec fn takes_arguments(map: Map<u16, ULogMessage>, k: u16) -> bool {
    forall|k2: u16|
        #[trigger] map.contains_key(k2) && map[k2].spec_location() == map[k].spec_location() && map[k2].spec_format()
            == map[k].spec_format() ==> k <= k2
}

/// Each message's slots are those of the argument members declared with it,
/// in ascending order of sequence number; where several messages share a
/// place and a template, the one with the smallest id takes them.
pub open spec fn arguments_from(map: Map<u16, ULogMessage>, am: Seq<(Seq<char>, u64, u64)>, section: Seq<u8>) -> bool {
    forall|k: u16|
        #[trigger] map.contains_key(k) ==> exists|order: Seq<usize>|
            member_order(order, am, section, map[k].spec_location(), map[k].spec_format(), takes_arguments(map, k))
                && map[k].spec_arguments() == #[trigger] member_slots(order, am, section)
}

/// Each level member that no later one overrides has its message filed
/// under its id.
pub open spec fn messages_complete(map: Map<u16, ULogMessage>, lm: Seq<(Seq<char>, u64, u64)>, bounds: Seq<u64>) -> bool {
    forall|j: int|
        0 <= j < lm.len() && #[trigger] last_with_id(lm, j, lm.len() as int) ==> map.contains_key(member_id(lm[j]))
            && message_spec(lm[j], bounds) == Ok::<(u16, Seq<char>, (Seq<char>, usize), SeverityLevel), SymbolErrorKind>(
            message_model(map[member_id(lm[j])]),
        )
}

/// Every key of `map` is the id of one of the members `ms`.
pub open spec fn keys_are_ids<V>(map: Map<u16, V>, ms: Seq<(Seq<char>, u64, u64)>) -> bool {
    forall|k: u16| #[trigger] map.contains_key(k) ==> exists|j: int| 0 <= j < ms.len() && member_id(#[trigger] ms[j]) == k
}

proof fn lemma_arguments_from(
    map: Map<u16, ULogMessage>,
    all: Seq<ULogMessage>,
    unpaired: Seq<ULogMessage>,
    orders: Seq<Seq<usize>>,
    owners: Seq<usize>,
    entries: Seq<ArgumentEntry>,
    am: Seq<(Seq<char>, u64, u64)>,
    section: Seq<u8>,
)
    requires
        all.len() == unpaired.len(),
        orders.len() == all.len(),
        all.len() <= usize::MAX,
        distinct_ids(unpaired),
        forall|q: int| 0 <= q < all.len() ==> {
            &&& (#[trigger] all[q]).spec_id() == unpaired[q].spec_id()
            &&& all[q].spec_location() == unpaired[q].spec_location()
            &&& all[q].spec_format() == unpaired[q].spec_format()
            &&& all[q].spec_arguments() == slots_of(orders[q], entries)
        },
        forall|q: int| 0 <= q < all.len() ==> map.contains_key((#[trigger] all[q]).spec_id()) && map[all[q].spec_id()] == all[q],
        forall|k: u16| #[trigger] map.contains_key(k) ==> exists|q: int| 0 <= q < all.len() && (#[trigger] all[q]).spec_id() == k,
        owners.len() == entries.len(),
        entries.len() == am.len(),
        forall|x: int| 0 <= x < entries.len() ==> is_owner(unpaired, #[trigger] entries[x], owners[x] as int),
        forall|i: int| 0 <= i < orders.len() ==> is_order_for(#[trigger] orders[i], owners, seqs_spec(entries), i as usize),
        forall|x: int| 0 <= x < am.len() ==> argument_spec(am[x], section) == Ok::<
            ((Seq<char>, usize), Seq<char>, usize, ULogArgument),
            SymbolErrorKind,
        >(entry_view(#[trigger] entries[x])),
    ensures
        arguments_from(map, am, section),
{
    assert forall|k: u16| #[trigger] map.contains_key(k) implies exists|order: Seq<usize>|
        member_order(order, am, section, map[k].spec_location(), map[k].spec_format(), takes_arguments(map, k))
            && map[k].spec_arguments() == #[trigger] member_slots(order, am, section) by {
        let q = choose|q: int| 0 <= q < all.len() && (#[trigger] all[q]).spec_id() == k;
        assert(map[all[q].spec_id()] == all[q]);
        let order = orders[q];
        let loc = map[k].spec_location();
        let fmt = map[k].spec_format();
        assert(is_order_for(order, owners, seqs_spec(entries), q as usize));
        assert(member_slots(order, am, section) =~= slots_of(order, entries)) by {
            assert forall|t: int| 0 <= t < order.len() implies member_slots(order, am, section)[t] == slots_of(order, entries)[t] by {
                assert(order[t] < owners.len());
                assert(argument_spec(am[order[t] as int], section) == Ok::<
                    ((Seq<char>, usize), Seq<char>, usize, ULogArgument),
                    SymbolErrorKind,
                >(entry_view(entries[order[t] as int])));
            }
        }
        assert forall|t: int| 0 <= t < order.len() implies (#[trigger] order[t]) < am.len() && arg_matches(am, section, order[t] as int, loc, fmt) by {
            let x = order[t] as int;
            assert(owners[x] == q as usize);
            assert(is_owner(unpaired, entries[x], owners[x] as int));
            assert(argument_spec(am[x], section) == Ok::<
                ((Seq<char>, usize), Seq<char>, usize, ULogArgument),
                SymbolErrorKind,
            >(entry_view(entries[x])));
        }
        assert forall|t: int, u: int| 0 <= t < u < order.len() implies member_key_lt(am, section, #[trigger] order[t], #[trigger] order[u]) by {
            assert(key_lt(seqs_spec(entries), order[t], order[u]));
            assert(order[t] < owners.len() && order[u] < owners.len());
            assert(argument_spec(am[order[t] as int], section) == Ok::<
                ((Seq<char>, usize), Seq<char>, usize, ULogArgument),
                SymbolErrorKind,
            >(entry_view(entries[order[t] as int])));
            assert(argument_spec(am[order[u] as int], section) == Ok::<
                ((Seq<char>, usize), Seq<char>, usize, ULogArgument),
                SymbolErrorKind,
            >(entry_view(entries[order[u] as int])));
        }
        if takes_arguments(map, k) {
            assert forall|j: int| 0 <= j < am.len() && #[trigger] arg_matches(am, section, j, loc, fmt) implies order.contains(j as usize) by {
                assert(argument_spec(am[j], section) == Ok::<
                    ((Seq<char>, usize), Seq<char>, usize, ULogArgument),
                    SymbolErrorKind,
                >(entry_view(entries[j])));
                let o = owners[j] as int;
                assert(is_owner(unpaired, entries[j], o));
                assert(same_identifier(unpaired[q], entries[j]));
                assert(unpaired[o].spec_id() <= unpaired[q].spec_id());
                assert(map.contains_key(all[o].spec_id()));
                assert(map[all[o].spec_id()] == all[o]);
                assert(k <= all[o].spec_id());
                if o != q {
                    assert(unpaired[o].spec_id() != unpaired[q].spec_id());
                }
                assert(owners[j] == q as usize);
            }
        } else {
            if order.len() > 0 {
                let x = order[0] as int;
                assert(owners[x] == q as usize);
                assert(is_owner(unpaired, entries[x], q));
                let k2 = choose|k2: u16|
                    #[trigger] map.contains_key(k2) && map[k2].spec_location() == map[k].spec_location()
                        && map[k2].spec_format() == map[k].spec_format() && !(k <= k2);
                let q2 = choose|q2: int| 0 <= q2 < all.len() && (#[trigger] all[q2]).spec_id() == k2;
                assert(map[all[q2].spec_id()] == all[q2]);
                assert(same_identifier(unpaired[q2], entries[x]));
                assert(unpaired[q].spec_id() <= unpaired[q2].spec_id());
                assert(false);
            }
        }
        assert(member_order(order, am, section, loc, fmt, takes_arguments(map, k)));
    }
}

/// Loading `image` fails with `k`: the first step that goes wrong decides.
/// A missing marker is named; a member that does not describe its item is
/// the first such of its sub-section; an argument slot without a message is
/// one such slot; then a missing or unreadable system id.
pub open spec fn load_failure(image: ElfImage, k: LoadErrorKind) -> bool {
    let syms = symbols_view(image.symbols@);
    let sname = seq!["_sulog_string"@, "_eulog_string"@];
    let lname = seq!["_sulog_level"@, "_eulog_level"@];
    let aname = seq!["_sulog_argument"@, "_eulog_argument"@];
    let mname = seq!["_sulog_meta"@, "_eulog_meta"@];
    match level_bounds_spec(syms) {
        None => missing_marker(syms, k, level_marker_names()),
        Some(bounds) => match sub_section_spec(syms, sname[0], sname[1]) {
            None => missing_marker(syms, k, sname),
            Some(sm) => if exists|j: int| 0 <= j < sm.len() && (#[trigger] string_spec(sm[j])) is Err {
                first_string_failure(sm, k)
            } else {
                match sub_section_spec(syms, lname[0], lname[1]) {
                    None => missing_marker(syms, k, lname),
                    Some(lm) => if exists|j: int| 0 <= j < lm.len() && (#[trigger] message_spec(lm[j], bounds)) is Err {
                        first_message_failure(lm, bounds, k)
                    } else {
                        match sub_section_spec(syms, aname[0], aname[1]) {
                            None => missing_marker(syms, k, aname),
                            Some(am) => if exists|j: int| 0 <= j < am.len() && (#[trigger] argument_spec(am[j], image.section@)) is Err {
                                first_argument_failure(am, image.section@, k)
                            } else if exists|j: int| 0 <= j < am.len() && !argument_has_message(lm, bounds, #[trigger] argument_spec(am[j], image.section@)->Ok_0) {
                                exists|j: int| 0 <= j < am.len() && !argument_has_message(lm, bounds, #[trigger] argument_spec(am[j], image.section@)->Ok_0)
                                    && k == (LoadErrorKind::ElfSymbolParse {
                                        kind: SymbolErrorKind::OrphanedArguments,
                                        name: argument_spec(am[j], image.section@)->Ok_0.1,
                                    })
                            } else {
                                match sub_section_spec(syms, mname[0], mname[1]) {
                                    None => missing_marker(syms, k, mname),
                                    Some(mm) => match system_id_addr_spec(mm) {
                                        None => k == LoadErrorKind::NoSystemId,
                                        Some(_) => k == LoadErrorKind::ElfParse,
                                    },
                                }
                            }
                        }
                    }
                }
            }
        }
    }
}

/// Reassembles the dictionary of one system from its firmware image.
pub fn load_system(image: &ElfImage) -> (r: Result<ULogSystemInfo, ElfParseError>)
    ensures
        r is Ok <==> load_ok(*image),
        r matches Err(e) ==> load_failure(*image, e.kind()),
        r matches Ok(sys) ==> {
            let syms = symbols_view(image.symbols@);
            &&& level_bounds_spec(syms) matches Some(bounds)
            &&& sub_section_spec(syms, "_sulog_string"@, "_eulog_string"@) matches Some(sm)
            &&& strings_from(sys.spec_strings()@, sm)
            &&& strings_complete(sys.spec_strings()@, sm, sm.len() as int)
            &&& keys_are_ids(sys.spec_strings()@, sm)
            &&& sub_section_spec(syms, "_sulog_level"@, "_eulog_level"@) matches Some(lm)
            &&& messages_from(sys.spec_messages()@, lm, bounds)
            &&& messages_complete(sys.spec_messages()@, lm, bounds)
            &&& keys_are_ids(sys.spec_messages()@, lm)
            &&& sub_section_spec(syms, "_sulog_argument"@, "_eulog_argument"@) matches Some(am)
            &&& arguments_from(sys.spec_messages()@, am, image.section@)
            &&& sub_section_spec(syms, "_sulog_meta"@, "_eulog_meta"@) matches Some(mm)
            &&& system_id_addr_spec(mm) matches Some(a)
            &&& sys.spec_system_id() == u16_at_spec(image.endianness, image.section@, (a as usize) as int)
        },
{
    let symbols = &image.symbols;
    let bounds = level_bounds(symbols)?;
    let string_members = sub_section(symbols, "_sulog_string", "_eulog_string")?;
    let strings = collect_strings(&string_members)?;
    let level_members = sub_section(symbols, "_sulog_level", "_eulog_level")?;
    let mut messages = collect_messages(&level_members, &bounds)?;
    let argument_members = sub_section(symbols, "_sulog_argument", "_eulog_argument")?;
    let entries = collect_entries(&argument_members, image.endianness, &image.section)?;
    let ghost lm = members_view(level_members@);
    let ghost am = members_view(argument_members@);
    let ghost unpaired = messages@;
    proof {
        assert forall|j: int| 0 <= j < am.len() implies (owner_from(unpaired, entries@[j], 0) is Some
            <==> argument_has_message(lm, bounds@, #[trigger] argument_spec(am[j], image.section@)->Ok_0)) by {
            lemma_owned_iff(lm, bounds@, unpaired, entries@[j]);
            assert(argument_spec(am[j], image.section@)->Ok_0 == entry_view(entries@[j]));
        }
        assert forall|q: int| 0 <= q < unpaired.len() implies (#[trigger] unpaired[q]).wf() by {
            assert(unpaired[q].spec_arguments() == Seq::<ULogArgument>::empty());
        }
    }
    let (owners, orders) = match pair_arguments(&mut messages, &entries) {
        Ok(r) => {
            assert forall|j: int| 0 <= j < am.len() implies argument_has_message(lm, bounds@, #[trigger] argument_spec(am[j], image.section@)->Ok_0) by {
                assert(owner_from(unpaired, entries@[j], 0) is Some);
            }
            r
        },
        Err(e) => {
            proof {
                let k = choose|k: int| 0 <= k < entries@.len() && owner_from(unpaired, #[trigger] entries@[k], 0) is None;
                assert(!argument_has_message(lm, bounds@, argument_spec(am[k], image.section@)->Ok_0));
            }
            return Err(e);
        },
    };
    let meta = sub_section(symbols, "_sulog_meta", "_eulog_meta")?;
    let system_id = read_system_id(&meta, image.endianness, &image.section)?;

    let total = messages.len();
    let ghost all = messages@;
    assert(all.len() == total);
    proof {
        assert forall|q: int| 0 <= q < all.len() implies (#[trigger] all[q]).spec_id() == unpaired[q].spec_id()
            && message_model(all[q]) == message_model(unpaired[q]) by {
            assert(paired(unpaired, all, orders_view(orders@), entries@));
        }
    }
    let mut map: ULogMessageMap = HashMap::new();
    while messages.len() > 0
        invariant
            all.len() == total,
            all.len() == unpaired.len(),
            messages@.len() <= all.len(),
            forall|q: int| 0 <= q < messages@.len() ==> #[trigger] messages@[q] == all[q],
            forall|q: int| 0 <= q < all.len() ==> (#[trigger] all[q]).spec_id() == unpaired[q].spec_id()
                && message_model(all[q]) == message_model(unpaired[q]),
            distinct_ids(unpaired),
            forall|q: int| messages@.len() <= q < all.len() ==> map@.contains_key((#[trigger] all[q]).spec_id())
                && map@[all[q].spec_id()] == all[q],
            forall|k: u16| #[trigger] map@.contains_key(k) ==> exists|q: int|
                messages@.len() <= q < all.len() && (#[trigger] all[q]).spec_id() == k,
        decreases messages@.len(),
    {
        let ghost n = messages@.len() - 1;
        let m = messages.pop().unwrap();
        let id = m.id();
        map.insert(id, m);
        proof {
            assert forall|q: int| messages@.len() <= q < all.len() implies map@.contains_key((#[trigger] all[q]).spec_id())
                && map@[all[q].spec_id()] == all[q] by {
                if q != n {
                    assert(unpaired[q].spec_id() != unpaired[n].spec_id());
                }
            }
        }
    }
    proof {
        assert forall|k: u16| #[trigger] map@.contains_key(k) implies map@[k].spec_id() == k && exists|j: int|
            0 <= j < lm.len() && #[trigger] message_spec(lm[j], bounds@) == Ok::<
                (u16, Seq<char>, (Seq<char>, usize), SeverityLevel),
                SymbolErrorKind,
            >(message_model(map@[k])) by {
            let q = choose|q: int| 0 <= q < all.len() && (#[trigger] all[q]).spec_id() == k;
            assert(map@[all[q].spec_id()] == all[q]);
            assert(described_upto(lm, bounds@, unpaired[q], lm.len() as int));
            let j = choose|j: int| 0 <= j < lm.len() && last_with_id(lm, j, lm.len() as int) && #[trigger] describes(lm, bounds@, j, unpaired[q]);
            assert(message_spec(lm[j], bounds@) == Ok::<
                (u16, Seq<char>, (Seq<char>, usize), SeverityLevel),
                SymbolErrorKind,
            >(message_model(map@[k])));
        }
        assert forall|k: u16| #[trigger] map@.contains_key(k) implies exists|j: int| 0 <= j < lm.len() && member_id(#[trigger] lm[j]) == k by {
            let q = choose|q: int| 0 <= q < all.len() && (#[trigger] all[q]).spec_id() == k;
            assert(described_upto(lm, bounds@, unpaired[q], lm.len() as int));
            let j = choose|j: int| 0 <= j < lm.len() && last_with_id(lm, j, lm.len() as int) && #[trigger] describes(lm, bounds@, j, unpaired[q]);
            lemma_message_id(lm[j], bounds@);
        }
        assert forall|j: int| 0 <= j < lm.len() && #[trigger] last_with_id(lm, j, lm.len() as int) implies map@.contains_key(member_id(lm[j]))
            && message_spec(lm[j], bounds@) == Ok::<(u16, Seq<char>, (Seq<char>, usize), SeverityLevel), SymbolErrorKind>(
            message_model(map@[member_id(lm[j])]),
        ) by {
            let q = choose|q: int| 0 <= q < unpaired.len() && #[trigger] describes(lm, bounds@, j, unpaired[q]);
            lemma_message_id(lm[j], bounds@);
            assert(all[q].spec_id() == member_id(lm[j]));
            assert(map@[all[q].spec_id()] == all[q]);
        }
        assert forall|q: int| 0 <= q < all.len() implies {
            &&& (#[trigger] all[q]).spec_id() == unpaired[q].spec_id()
            &&& all[q].spec_location() == unpaired[q].spec_location()
            &&& all[q].spec_format() == unpaired[q].spec_format()
            &&& all[q].spec_arguments() == slots_of(orders_view(orders@)[q], entries@)
        } by {
            assert(paired(unpaired, all, orders_view(orders@), entries@));
            assert(unpaired[q].spec_arguments() == Seq::<ULogArgument>::empty());
            assert(Seq::<ULogArgument>::empty() + slots_of(orders_view(orders@)[q], entries@) =~= slots_of(orders_view(orders@)[q], entries@));
        }
        assert forall|x: int| 0 <= x < am.len() implies argument_spec(am[x], image.section@) == Ok::<
            ((Seq<char>, usize), Seq<char>, usize, ULogArgument),
            SymbolErrorKind,
        >(entry_view(#[trigger] entries@[x])) by {}
        lemma_arguments_from(map@, all, unpaired, orders_view(orders@), owners@, entries@, am, image.section@);
        let sm = members_view(string_members@);
        assert forall|k: u16| #[trigger] strings@.contains_key(k) implies exists|j: int| 0 <= j < sm.len() && member_id(#[trigger] sm[j]) == k by {
            let j = choose|j: int| 0 <= j < sm.len() && #[trigger] string_spec(sm[j]) == Ok::<
                (u16, Seq<char>, (Seq<char>, usize)),
                SymbolErrorKind,
            >(string_model(strings@[k]));
            assert(member_id(sm[j]) == k);
        }
    }
    Ok(ULogSystemInfo::new(strings, map, system_id))
}

} // verus!
