//! Log message definitions: a format template, where it was declared, its
//! severity, and the argument slots that a frame fills.

use crate::location::Location;
use crate::severity::SeverityLevel;
use crate::ulog_argument::{ULogArgument, ULogArgumentReadError};
use crate::ulog_string::{ULogString, ULogStringMap};
use dyf::FormatString;
use std::collections::HashMap;
use vstd::prelude::*;

verus! {

/// A template compiled by the `dyf` crate, carried through unread.
#[verifier::external_type_specification]
#[verifier::external_body]
pub struct ExFormatString(dyf::FormatString);

/// The `dyf` crate's error, carried through unread.
#[verifier::external_type_specification]
#[verifier::external_body]
pub struct ExFormatError(dyf::Error);

/// Whether a text is a format template that the formatter accepts.
pub uninterp spec fn template_parses(s: Seq<char>) -> bool;

/// Relies on `dyf::FormatString::from_string`: whether the text compiles
/// depends on the text alone.
#[verifier::external_body]
fn compile_template(text: String) -> (r: Result<FormatString, dyf::Error>)
    ensures
        r is Ok <==> template_parses(text@),
{
    FormatString::from_string(text)
}

/// Whether the formatter accepts `text` as a template.
pub fn template_compiles(text: &String) -> (r: bool)
    ensures
        r == template_parses(text@),
{
    compile_template(text.clone()).is_ok()
}

/// Why a message could not be filled from a frame.
#[derive(Debug)]
pub enum ULogMessageFormatError {
    /// The template could not be applied to the argument values.
    Format { source: dyf::Error },
    /// Argument `number` (counting from 0) could not be read.
    ULogArgumentRead { source: ULogArgumentReadError, number: usize },
}

/// A log message definition.
#[derive(Debug)]
pub struct ULogMessage {
    /// Offset of the message from the start of its sub-section.
    id: u16,
    /// The compiled template.
    format: FormatString,
    /// The template's text.
    format_text: String,
    /// Where the message was declared.
    location: Location,
    severity_level: SeverityLevel,
    /// The argument slots, in the order in which the device sends them.
    arguments: Vec<ULogArgument>,
}

/// The messages of a dictionary, by id.
pub type ULogMessageMap = HashMap<u16, ULogMessage>;

/// All slots hold well-formed integer widths.
pub open spec fn all_wf(args: Seq<ULogArgument>) -> bool {
    forall|i: int| 0 <= i < args.len() ==> (#[trigger] args[i]).wf()
}

/// Position in `data` after the first `k` slots of `args`, read one after
/// another from `pos`.
pub open spec fn offset_after(args: Seq<ULogArgument>, data: Seq<u8>, pos: int, k: int) -> int
    decreases k,
{
    if k <= 0 {
        pos
    } else {
        let p = offset_after(args, data, pos, k - 1);
        p + args[k - 1].wire_len(data, p)->Some_0
    }
}

/// The first `k` slots of `args` can be read one after another from `pos`.
pub open spec fn readable_upto(
    args: Seq<ULogArgument>,
    data: Seq<u8>,
    pos: int,
    strings: Map<u16, ULogString>,
    k: int,
) -> bool {
    forall|j: int|
        0 <= j < k ==> (#[trigger] args[j]).read_error(data, offset_after(args, data, pos, j), strings)
            is None
}

impl ULogMessage {
    pub closed spec fn spec_id(&self) -> u16 {
        self.id
    }

    pub closed spec fn spec_format(&self) -> Seq<char> {
        self.format_text@
    }

    pub closed spec fn spec_location(&self) -> (Seq<char>, usize) {
        self.location@
    }

    pub closed spec fn spec_severity(&self) -> SeverityLevel {
        self.severity_level
    }

    pub closed spec fn spec_arguments(&self) -> Seq<ULogArgument> {
        self.arguments@
    }

    /// Well-formed: every argument slot has a width that its type allows.
    pub open spec fn wf(&self) -> bool {
        all_wf(self.spec_arguments())
    }

    #[verifier::type_invariant]
    spec fn inv(&self) -> bool {
        all_wf(self.arguments@)
    }

    /// A message with no arguments yet. Fails where the formatter does not
    /// accept `format` as a template.
    pub fn new(id: u16, format: String, location: Location, severity_level: SeverityLevel) -> (r:
        Result<ULogMessage, dyf::Error>)
        ensures
            r is Ok <==> template_parses(format@),
            r matches Ok(m) ==> m.spec_id() == id && m.spec_format() == format@
                && m.spec_location() == location@ && m.spec_severity() == severity_level
                && m.spec_arguments() == Seq::<ULogArgument>::empty(),
    {
        let template = compile_template(format.clone());
        match template {
            Ok(t) => Ok(
                ULogMessage {
                    id,
                    format: t,
                    format_text: format,
                    location,
                    severity_level,
                    arguments: Vec::new(),
                },
            ),
            Err(e) => Err(e),
        }
    }

    pub fn id(&self) -> (r: u16)
        ensures
            r == self.spec_id(),
    {
        self.id
    }

    /// The template's text.
    pub fn format(&self) -> (r: &str)
        ensures
            r@ == self.spec_format(),
    {
        self.format_text.as_str()
    }

    /// The compiled template.
    pub fn template(&self) -> &FormatString {
        &self.format
    }

    pub fn location(&self) -> (r: &Location)
        ensures
            r@ == self.spec_location(),
    {
        &self.location
    }

    pub fn severity_level(&self) -> (r: SeverityLevel)
        ensures
            r == self.spec_severity(),
    {
        self.severity_level
    }

    pub fn arguments(&self) -> (r: &Vec<ULogArgument>)
        ensures
            r@ == self.spec_arguments(),
    {
        &self.arguments
    }

    /// Reads a value for each argument slot, in order, from `data` at `*pos`,
    /// and moves `*pos` past them; the message's own slots stay empty. Fails
    /// with the number of the first slot that could not be read; `*pos` then
    /// stands after the slots before it, and after the id where that slot's
    /// string id is missing from `string_map`.
    pub fn read_arguments(&self, data: &[u8], pos: &mut usize, string_map: &ULogStringMap) -> (r:
        Result<Vec<ULogArgument>, ULogMessageFormatError>)
        ensures
            r matches Ok(values) ==> {
                let args = self.spec_arguments();
                &&& readable_upto(args, data@, *old(pos) as int, string_map@, args.len() as int)
                &&& values@.len() == args.len()
                &&& forall|k: int|
                    0 <= k < args.len() ==> (#[trigger] args[k]).filled_as(
                        values@[k],
                        data@,
                        offset_after(args, data@, *old(pos) as int, k),
                        string_map@,
                    )
                &&& *final(pos) == offset_after(args, data@, *old(pos) as int, args.len() as int)
            },
            r matches Err(e) ==> e is ULogArgumentRead,
            r matches Err(ULogMessageFormatError::ULogArgumentRead { source, number }) ==> {
                let args = self.spec_arguments();
                &&& number < args.len()
                &&& readable_upto(args, data@, *old(pos) as int, string_map@, number as int)
                &&& args[number as int].read_error(
                    data@,
                    offset_after(args, data@, *old(pos) as int, number as int),
                    string_map@,
                ) == Some(source)
                &&& *final(pos) == offset_after(args, data@, *old(pos) as int, number as int) + (if source
                    == ULogArgumentReadError::MissingStringId {
                    2int
                } else {
                    0int
                })
            },
    {
        proof {
            use_type_invariant(self);
        }
        let ghost start = *pos as int;
        let ghost args = self.spec_arguments();
        let mut values: Vec<ULogArgument> = Vec::new();
        let mut i: usize = 0;
        while i < self.arguments.len()
            invariant
                start == *old(pos) as int,
                args == self.spec_arguments(),
                all_wf(args),
                i <= args.len(),
                values@.len() == i,
                readable_upto(args, data@, start, string_map@, i as int),
                *pos as int == offset_after(args, data@, start, i as int),
                forall|k: int|
                    0 <= k < i ==> (#[trigger] args[k]).filled_as(
                        values@[k],
                        data@,
                        offset_after(args, data@, start, k),
                        string_map@,
                    ),
            decreases args.len() - i,
        {
            let mut slot = self.arguments[i].cleared();
            let ghost p = *pos as int;
            proof {
                args[i as int].lemma_cleared_reads_alike(slot, data@, p, string_map@);
            }
            match slot.read(data, pos, string_map) {
                Ok(()) => {},
                Err(e) => {
                    assert(args[i as int].read_error(data@, p, string_map@) == Some(e));
                    assert(p == offset_after(args, data@, start, i as int));
                    return Err(ULogMessageFormatError::ULogArgumentRead { source: e, number: i });
                },
            }
            proof {
                args[i as int].lemma_cleared_reads_alike(slot, data@, p, string_map@);
            }
            values.push(slot);
            proof {
                assert(offset_after(args, data@, start, i + 1) == p + args[i as int].wire_len(data@, p)->Some_0);
                assert forall|k: int| 0 <= k < i + 1 implies (#[trigger] args[k]).read_error(data@, offset_after(args, data@, start, k), string_map@) is None by {
                    if k < i {
                        assert(readable_upto(args, data@, start, string_map@, i as int));
                    }
                }
            }
            i += 1;
        }
        Ok(values)
    }

    /// Appends an argument slot.
    pub fn push_argument(&mut self, argument: ULogArgument)
        requires
            argument.wf(),
        ensures
            final(self).spec_arguments() == old(self).spec_arguments().push(argument),
            final(self).spec_id() == old(self).spec_id(),
            final(self).spec_format() == old(self).spec_format(),
            final(self).spec_location() == old(self).spec_location(),
            final(self).spec_severity() == old(self).spec_severity(),
    {
        proof {
            use_type_invariant(&*self);
        }
        let mut args: Vec<ULogArgument> = Vec::new();
        std::mem::swap(&mut self.arguments, &mut args);
        args.push(argument);
        self.arguments = args;
    }
}

} // verus!
