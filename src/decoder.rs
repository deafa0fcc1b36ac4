//! Decoding of one frame of the log stream against the registered
//! dictionaries, and the registry of dictionaries by system id.

use crate::bytes::{be_value, read_be, lemma_be_value_bound, lemma_pow256_small};
use crate::dictionary::ElfParseError;
use crate::ulog_argument::{ULogArgument, ULogArgumentReadError};
use crate::ulog_message::{offset_after, readable_upto, ULogMessageFormatError};
use crate::ulog_system_info::ULogSystemInfo;
use std::collections::HashMap;
use vstd::prelude::*;

verus! {

broadcast use vstd::std_specs::hash::group_hash_axioms;

/// What reverse-zeroes-compressed byte stuffing decodes a frame to, or
/// `None` for a malformed frame.
pub uninterp spec fn rzcobs_decoded(frame: Seq<u8>) -> Option<Seq<u8>>;

/// Relies on `rzcobs::decode`: the result depends on the frame alone, and an
/// empty frame decodes to an empty payload.
#[verifier::external_body]
fn rzcobs_decode(frame: &[u8]) -> (r: Option<Vec<u8>>)
    ensures
        r is Some <==> rzcobs_decoded(frame@) is Some,
        r matches Some(v) ==> v@ == rzcobs_decoded(frame@)->Some_0,
        frame@.len() == 0 ==> r is Some && r->Some_0@.len() == 0,
{
    rzcobs::decode(frame).ok()
}

/// Why the decoder could not go on: loading a dictionary failed, or a frame
/// could not be decoded.
#[derive(Debug)]
pub enum ULogDecoderError {
    ELFLoad { file: String, source: Box<ElfParseError> },
    Rzcobs,
    SystemIdRead,
    MessageIdRead,
    UnknownMessage,
    UnknownSystem,
    ArgumentDecode { source: ULogArgumentReadError },
    Format { source: ULogMessageFormatError },
    DuplicateSystemId { system_id: u16, file: String },
}

/// The registry of dictionaries, by system id.
pub type SystemMap = HashMap<u16, ULogSystemInfo>;

/// Each dictionary is filed under its own system id, so no two share one.
pub open spec fn registry_wf(systems: Map<u16, ULogSystemInfo>) -> bool {
    forall|k: u16| #[trigger] systems.contains_key(k) ==> systems[k].spec_system_id() == k
}

/// Adds a dictionary to the registry. A system id that is already taken is
/// refused, and the registry stays as it was.
pub fn register_system(systems: &mut SystemMap, system: ULogSystemInfo, file: &str) -> (r: Result<
    (),
    ULogDecoderError,
>)
    ensures
        r is Err <==> old(systems)@.contains_key(system.spec_system_id()),
        r matches Err(e) ==> e matches ULogDecoderError::DuplicateSystemId { system_id, file: f }
            && system_id == system.spec_system_id() && f@ == file@,
        r is Err ==> final(systems)@ == old(systems)@,
        r is Ok ==> final(systems)@ == old(systems)@.insert(system.spec_system_id(), system),
        registry_wf(old(systems)@) ==> registry_wf(final(systems)@),
{
    let id = system.system_id();
    if systems.contains_key(&id) {
        return Err(ULogDecoderError::DuplicateSystemId { system_id: id, file: file.to_owned() });
    }
    systems.insert(id, system);
    Ok(())
}

/// One decoded frame: which message of which system it carries, its
/// payload, and the values of the message's arguments.
#[derive(Debug)]
pub struct DecodedEntry {
    pub system_id: u16,
    pub message_id: u16,
    pub payload: Vec<u8>,
    pub arguments: Vec<ULogArgument>,
}

/// The kinds of frame errors.
#[derive(Debug, Clone, Copy, PartialEq, Eq, Structural)]
pub enum FrameErrorKind {
    Rzcobs,
    SystemIdRead,
    MessageIdRead,
    UnknownSystem,
    UnknownMessage,
    Argument,
}

pub open spec fn frame_error_kind(e: ULogDecoderError) -> Option<FrameErrorKind> {
    match e {
        ULogDecoderError::Rzcobs => Some(FrameErrorKind::Rzcobs),
        ULogDecoderError::SystemIdRead => Some(FrameErrorKind::SystemIdRead),
        ULogDecoderError::MessageIdRead => Some(FrameErrorKind::MessageIdRead),
        ULogDecoderError::UnknownSystem => Some(FrameErrorKind::UnknownSystem),
        ULogDecoderError::UnknownMessage => Some(FrameErrorKind::UnknownMessage),
        ULogDecoderError::Format { .. } => Some(FrameErrorKind::Argument),
        _ => None,
    }
}

/// The big-endian 16-bit value at `pos` of `d`.
pub open spec fn be16_at(d: Seq<u8>, pos: int) -> u16 {
    be_value(d.subrange(pos, pos + 2)) as u16
}

/// Why a frame fails to decode before its arguments are read, if it does.
pub open spec fn frame_header_error(frame: Seq<u8>, systems: Map<u16, ULogSystemInfo>) -> Option<
    FrameErrorKind,
> {
    match rzcobs_decoded(frame) {
        None => Some(FrameErrorKind::Rzcobs),
        Some(d) => if d.len() < 2 {
            Some(FrameErrorKind::SystemIdRead)
        } else if d.len() < 4 {
            Some(FrameErrorKind::MessageIdRead)
        } else if !systems.contains_key(be16_at(d, 0)) {
            Some(FrameErrorKind::UnknownSystem)
        } else if !systems[be16_at(d, 0)].spec_messages()@.contains_key(be16_at(d, 2)) {
            Some(FrameErrorKind::UnknownMessage)
        } else {
            None
        },
    }
}

/// Decodes one frame (without its terminating zero byte): the payload names
/// a system and one of its messages, big-endian, and then holds the values
/// of the message's arguments in order.
pub fn decode_frame(frame: &[u8], systems: &SystemMap) -> (r: Result<DecodedEntry, ULogDecoderError>)
    ensures
        r matches Err(e) ==> frame_error_kind(e) is Some,
        frame_header_error(frame@, systems@) matches Some(k) ==> r matches Err(e)
            && frame_error_kind(e) == Some(k),
        r is Ok ==> frame_header_error(frame@, systems@) is None,
        r is Err && frame_header_error(frame@, systems@) is None ==> r->Err_0 is Format,
        r matches Ok(entry) ==> {
            let d = rzcobs_decoded(frame@)->Some_0;
            let msg = systems@[entry.system_id].spec_messages()@[entry.message_id];
            let strings = systems@[entry.system_id].spec_strings()@;
            let args = msg.spec_arguments();
            &&& entry.payload@ == d
            &&& entry.system_id == be16_at(d, 0)
            &&& entry.message_id == be16_at(d, 2)
            &&& readable_upto(args, d, 4, strings, args.len() as int)
            &&& entry.arguments@.len() == args.len()
            &&& forall|k: int|
                0 <= k < args.len() ==> (#[trigger] args[k]).filled_as(
                    entry.arguments@[k],
                    d,
                    offset_after(args, d, 4, k),
                    strings,
                )
        },
        r matches Err(ULogDecoderError::Format { source }) ==> {
            let d = rzcobs_decoded(frame@)->Some_0;
            let msg = systems@[be16_at(d, 0)].spec_messages()@[be16_at(d, 2)];
            let strings = systems@[be16_at(d, 0)].spec_strings()@;
            let args = msg.spec_arguments();
            source matches ULogMessageFormatError::ULogArgumentRead { source: why, number } && number
                < args.len() && readable_upto(args, d, 4, strings, number as int)
                && args[number as int].read_error(
                d,
                offset_after(args, d, 4, number as int),
                strings,
            ) == Some(why)
        },
{
    let payload = match rzcobs_decode(frame) {
        Some(p) => p,
        None => {
            return Err(ULogDecoderError::Rzcobs);
        },
    };
    if payload.len() < 2 {
        return Err(ULogDecoderError::SystemIdRead);
    }
    if payload.len() < 4 {
        return Err(ULogDecoderError::MessageIdRead);
    }
    proof {
        lemma_pow256_small();
        lemma_be_value_bound(payload@.subrange(0, 2));
        lemma_be_value_bound(payload@.subrange(2, 4));
    }
    let system_id = read_be(payload.as_slice(), 0, 2) as u16;
    let message_id = read_be(payload.as_slice(), 2, 2) as u16;
    let system = match systems.get(&system_id) {
        Some(s) => s,
        None => {
            return Err(ULogDecoderError::UnknownSystem);
        },
    };
    let message = match system.messages().get(&message_id) {
        Some(m) => m,
        None => {
            return Err(ULogDecoderError::UnknownMessage);
        },
    };
    let mut pos: usize = 4;
    let arguments = match message.read_arguments(payload.as_slice(), &mut pos, system.ulog_strings()) {
        Ok(v) => v,
        Err(e) => {
            return Err(ULogDecoderError::Format { source: e });
        },
    };
    Ok(DecodedEntry { system_id, message_id, payload, arguments })
}

} // verus!
