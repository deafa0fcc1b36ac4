//! One device's dictionary: its strings, its messages and its system id.

use crate::ulog_message::ULogMessageMap;
use crate::ulog_string::ULogStringMap;
use vstd::prelude::*;

verus! {

/// The dictionary of one system; each firmware image yields one.
#[derive(Debug)]
pub struct ULogSystemInfo {
    ulog_strings: ULogStringMap,
    messages: ULogMessageMap,
    system_id: u16,
}

impl ULogSystemInfo {
    pub closed spec fn spec_strings(&self) -> ULogStringMap {
        self.ulog_strings
    }

    pub closed spec fn spec_messages(&self) -> ULogMessageMap {
        self.messages
    }

    pub closed spec fn spec_system_id(&self) -> u16 {
        self.system_id
    }

    pub fn new(ulog_strings: ULogStringMap, messages: ULogMessageMap, system_id: u16) -> (r:
        ULogSystemInfo)
        ensures
            r.spec_strings() == ulog_strings,
            r.spec_messages() == messages,
            r.spec_system_id() == system_id,
    {
        ULogSystemInfo { ulog_strings, messages, system_id }
    }

    pub fn ulog_strings(&self) -> (r: &ULogStringMap)
        ensures
            *r == self.spec_strings(),
    {
        &self.ulog_strings
    }

    pub fn messages(&self) -> (r: &ULogMessageMap)
        ensures
            *r == self.spec_messages(),
    {
        &self.messages
    }

    pub fn system_id(&self) -> (r: u16)
        ensures
            r == self.spec_system_id(),
    {
        self.system_id
    }
}

} // verus!
