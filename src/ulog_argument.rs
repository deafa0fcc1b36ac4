//! Typed argument slots of log messages, and their wire encodings.

use crate::bytes::{be_signed, be_value, read_be, lemma_be_value_bound, lemma_pow256_small, pow256};
use crate::ulog_string::{ULogString, ULogStringMap};
use vstd::prelude::*;
use vstd::slice::{slice_subrange, slice_to_vec};
use vstd::utf8::{decode_utf8, valid_utf8};

verus! {

broadcast use vstd::std_specs::hash::group_hash_axioms;

/// What lossy UTF-8 decoding makes of a byte sequence.
pub uninterp spec fn utf8_lossy_of(b: Seq<u8>) -> Seq<char>;

/// Relies on `String::from_utf8_lossy`: the result depends on the bytes alone,
/// and valid UTF-8 is decoded unchanged.
#[verifier::external_body]
fn utf8_lossy(b: &[u8]) -> (r: String)
    ensures
        r@ == utf8_lossy_of(b@),
        valid_utf8(b@) ==> r@ == decode_utf8(b@),
{
    String::from_utf8_lossy(b).into_owned()
}

/// One argument slot of a message. The variant is chosen by the argument's
/// type id; integer variants of several widths carry their width in bytes in
/// `size`. `value` stays `None` until the slot is filled from a frame.
/// Floating point values are held as their IEEE-754 bit patterns.
#[derive(Debug, Clone)]
pub enum ULogArgument {
    Slice { value: Option<Vec<u8>> },
    Float { value: Option<u32> },
    Double { value: Option<u64> },
    String { value: Option<String> },
    Bool { value: Option<bool> },
    ULogString { value: Option<String> },
    Int8 { value: Option<i8> },
    Int16 { value: Option<i16> },
    Int32 { size: usize, value: Option<i32> },
    Int64 { size: usize, value: Option<i64> },
    UInt8 { value: Option<u8> },
    UInt16 { value: Option<u16> },
    UInt32 { size: usize, value: Option<u32> },
    UInt64 { size: usize, value: Option<u64> },
}

/// Why an argument could not be read from a frame.
#[derive(Debug, Clone, Copy, PartialEq, Eq, Structural)]
pub enum ULogArgumentReadError {
    /// The frame refers to a string id that the dictionary does not hold.
    MissingStringId,
    /// The frame ended before the argument did.
    Io,
}

/// A type id that names no argument type.
#[derive(Debug, Clone, Copy, PartialEq, Eq, Structural)]
pub enum ULogArgumentParseError {
    InvalidTypeId { id: u8 },
}

/// The empty slot that type id `id` stands for.
pub open spec fn skeleton_of(id: u8) -> Option<ULogArgument> {
    if id == 1 {
        Some(ULogArgument::Slice { value: None })
    } else if id == 2 {
        Some(ULogArgument::Float { value: None })
    } else if id == 3 {
        Some(ULogArgument::Double { value: None })
    } else if id == 4 {
        Some(ULogArgument::String { value: None })
    } else if id == 5 {
        Some(ULogArgument::Bool { value: None })
    } else if id == 6 {
        Some(ULogArgument::ULogString { value: None })
    } else if id == 240 {
        Some(ULogArgument::Int8 { value: None })
    } else if id == 241 {
        Some(ULogArgument::Int16 { value: None })
    } else if 242 <= id <= 243 {
        Some(ULogArgument::Int32 { size: (id - 239) as usize, value: None })
    } else if 244 <= id <= 247 {
        Some(ULogArgument::Int64 { size: (id - 239) as usize, value: None })
    } else if id == 248 {
        Some(ULogArgument::UInt8 { value: None })
    } else if id == 249 {
        Some(ULogArgument::UInt16 { value: None })
    } else if 250 <= id <= 251 {
        Some(ULogArgument::UInt32 { size: (id - 247) as usize, value: None })
    } else if 252 <= id {
        Some(ULogArgument::UInt64 { size: (id - 247) as usize, value: None })
    } else {
        None
    }
}

/// Position of the first zero byte at or after `i`.
pub open spec fn nul_from(data: Seq<u8>, i: int) -> Option<int>
    decreases data.len() - i,
{
    if i < 0 || i >= data.len() {
        None
    } else if data[i] == 0 {
        Some(i)
    } else {
        nul_from(data, i + 1)
    }
}

/// The bytes that hold the four-byte length of a byte slice at `pos`.
pub open spec fn length_prefix(data: Seq<u8>, pos: int) -> nat {
    be_value(data.subrange(pos, pos + 4))
}

impl ULogArgument {
    /// Integer widths lie in the range that their type ids allow.
    pub open spec fn wf(&self) -> bool {
        match self {
            ULogArgument::Int32 { size, .. } => 3 <= *size <= 4,
            ULogArgument::Int64 { size, .. } => 5 <= *size <= 8,
            ULogArgument::UInt32 { size, .. } => 3 <= *size <= 4,
            ULogArgument::UInt64 { size, .. } => 5 <= *size <= 8,
            _ => true,
        }
    }

    /// Number of bytes this argument takes on the wire at `pos`, where the
    /// frame holds all of them.
    #[verifier::opaque]
    pub open spec fn wire_len(&self, data: Seq<u8>, pos: int) -> Option<nat> {
        let fixed = |n: nat| if pos + n <= data.len() { Some(n) } else { None };
        match self {
            ULogArgument::Slice { .. } => if pos + 4 <= data.len() && pos + 4 + length_prefix(
                data,
                pos,
            ) <= data.len() {
                Some(4 + length_prefix(data, pos))
            } else {
                None
            },
            ULogArgument::Float { .. } => fixed(4),
            ULogArgument::Double { .. } => fixed(8),
            ULogArgument::String { .. } => match nul_from(data, pos) {
                Some(z) => Some((z - pos + 1) as nat),
                None => None,
            },
            ULogArgument::Bool { .. } => fixed(1),
            ULogArgument::ULogString { .. } => fixed(2),
            ULogArgument::Int8 { .. } => fixed(1),
            ULogArgument::Int16 { .. } => fixed(2),
            ULogArgument::Int32 { size, .. } => fixed(*size as nat),
            ULogArgument::Int64 { size, .. } => fixed(*size as nat),
            ULogArgument::UInt8 { .. } => fixed(1),
            ULogArgument::UInt16 { .. } => fixed(2),
            ULogArgument::UInt32 { size, .. } => fixed(*size as nat),
            ULogArgument::UInt64 { size, .. } => fixed(*size as nat),
        }
    }

    /// Why reading this argument at `pos` fails, if it does.
    #[verifier::opaque]
    pub open spec fn read_error(
        &self,
        data: Seq<u8>,
        pos: int,
        strings: Map<u16, ULogString>,
    ) -> Option<ULogArgumentReadError> {
        if pos < 0 || pos > data.len() || self.wire_len(data, pos) is None {
            Some(ULogArgumentReadError::Io)
        } else if self is ULogString && !strings.contains_key(
            be_value(data.subrange(pos, pos + 2)) as u16,
        ) {
            Some(ULogArgumentReadError::MissingStringId)
        } else {
            None
        }
    }

    /// `after` is this slot filled from the bytes at `pos`.
    #[verifier::opaque]
    pub open spec fn filled_as(
        &self,
        after: ULogArgument,
        data: Seq<u8>,
        pos: int,
        strings: Map<u16, ULogString>,
    ) -> bool {
        let n = self.wire_len(data, pos)->Some_0;
        let b = data.subrange(pos, pos + n);
        match *self {
            ULogArgument::Slice { .. } => after matches ULogArgument::Slice { value: Some(v) }
                && v@ == data.subrange(pos + 4, pos + n),
            ULogArgument::Float { .. } => after == ULogArgument::Float {
                value: Some(be_value(b) as u32),
            },
            ULogArgument::Double { .. } => after == ULogArgument::Double {
                value: Some(be_value(b) as u64),
            },
            ULogArgument::String { .. } => after matches ULogArgument::String { value: Some(v) }
                && v@ == utf8_lossy_of(data.subrange(pos, pos + n - 1)),
            ULogArgument::Bool { .. } => after == ULogArgument::Bool { value: Some(b[0] != 0) },
            ULogArgument::ULogString { .. } => after matches ULogArgument::ULogString {
                value: Some(v),
            } && v@ == strings[be_value(b) as u16].spec_string(),
            ULogArgument::Int8 { .. } => after == ULogArgument::Int8 {
                value: Some(be_signed(b) as i8),
            },
            ULogArgument::Int16 { .. } => after == ULogArgument::Int16 {
                value: Some(be_signed(b) as i16),
            },
            ULogArgument::Int32 { size, .. } => after == ULogArgument::Int32 {
                size,
                value: Some(be_signed(b) as i32),
            },
            ULogArgument::Int64 { size, .. } => after == ULogArgument::Int64 {
                size,
                value: Some(be_signed(b) as i64),
            },
            ULogArgument::UInt8 { .. } => after == ULogArgument::UInt8 {
                value: Some(be_value(b) as u8),
            },
            ULogArgument::UInt16 { .. } => after == ULogArgument::UInt16 {
                value: Some(be_value(b) as u16),
            },
            ULogArgument::UInt32 { size, .. } => after == ULogArgument::UInt32 {
                size,
                value: Some(be_value(b) as u32),
            },
            ULogArgument::UInt64 { size, .. } => after == ULogArgument::UInt64 {
                size,
                value: Some(be_value(b) as u64),
            },
        }
    }

    /// Fills this slot from the bytes of `data` at `*pos`, and moves `*pos`
    /// past them. A string reference is resolved in `string_map`. On failure
    /// the slot does not change; a string id that the map lacks is consumed,
    /// a short read consumes nothing.
    pub fn read(&mut self, data: &[u8], pos: &mut usize, string_map: &ULogStringMap) -> (r: Result<
        (),
        ULogArgumentReadError,
    >)
        requires
            old(self).wf(),
        ensures
            r is Err <==> old(self).read_error(data@, *old(pos) as int, string_map@) is Some,
            r matches Err(e) ==> old(self).read_error(data@, *old(pos) as int, string_map@) == Some(
                e,
            ),
            r is Err ==> *final(self) == *old(self),
            r == Err::<(), ULogArgumentReadError>(ULogArgumentReadError::Io) ==> *final(pos) == *old(pos),
            r == Err::<(), ULogArgumentReadError>(ULogArgumentReadError::MissingStringId) ==> *final(pos)
                == *old(pos) + 2,
            r is Ok ==> old(self).filled_as(*final(self), data@, *old(pos) as int, string_map@),
            r is Ok ==> *final(pos) == *old(pos) + old(self).wire_len(
                data@,
                *old(pos) as int,
            )->Some_0,
            final(self).wf(),
    {
        reveal(ULogArgument::wire_len);
        reveal(ULogArgument::read_error);
        reveal(ULogArgument::filled_as);
        let n = data.len();
        let p = *pos;
        if p > n {
            return Err(ULogArgumentReadError::Io);
        }
        let avail = n - p;
        proof {
            lemma_pow256_small();
            if p + 2 <= n {
                lemma_be_value_bound(data@.subrange(p as int, p + 2));
            }
            if p + 4 <= n {
                lemma_be_value_bound(data@.subrange(p as int, p + 4));
            }
        }
        let (filled, used): (ULogArgument, usize) = match &*self {
            ULogArgument::Slice { .. } => {
                if avail < 4 {
                    return Err(ULogArgumentReadError::Io);
                }
                let len = read_be(data, p, 4);
                if len > (avail - 4) as u64 {
                    return Err(ULogArgumentReadError::Io);
                }
                let len = len as usize;
                let bytes = slice_to_vec(slice_subrange(data, p + 4, p + 4 + len));
                (ULogArgument::Slice { value: Some(bytes) }, 4 + len)
            },
            ULogArgument::Float { .. } => {
                if avail < 4 {
                    return Err(ULogArgumentReadError::Io);
                }
                (ULogArgument::Float { value: Some(read_be(data, p, 4) as u32) }, 4)
            },
            ULogArgument::Double { .. } => {
                if avail < 8 {
                    return Err(ULogArgumentReadError::Io);
                }
                (ULogArgument::Double { value: Some(read_be(data, p, 8)) }, 8)
            },
            ULogArgument::String { .. } => {
                let mut z = p;
                while z < n && data[z] != 0
                    invariant
                        p <= z <= n,
                        n == data@.len(),
                        nul_from(data@, p as int) == nul_from(data@, z as int),
                    decreases n - z,
                {
                    z += 1;
                }
                if z == n {
                    return Err(ULogArgumentReadError::Io);
                }
                let text = utf8_lossy(slice_subrange(data, p, z));
                (ULogArgument::String { value: Some(text) }, z - p + 1)
            },
            ULogArgument::Bool { .. } => {
                if avail < 1 {
                    return Err(ULogArgumentReadError::Io);
                }
                (ULogArgument::Bool { value: Some(data[p] != 0) }, 1)
            },
            ULogArgument::ULogString { .. } => {
                if avail < 2 {
                    return Err(ULogArgumentReadError::Io);
                }
                let id = read_be(data, p, 2) as u16;
                match string_map.get(&id) {
                    Some(s) => {
                        let text: String = (**s.string()).clone();
                        (ULogArgument::ULogString { value: Some(text) }, 2)
                    },
                    None => {
                        *pos = p + 2;
                        return Err(ULogArgumentReadError::MissingStringId);
                    },
                }
            },
            ULogArgument::Int8 { .. } => {
                if avail < 1 {
                    return Err(ULogArgumentReadError::Io);
                }
                (ULogArgument::Int8 { value: Some(read_signed(data, p, 1) as i8) }, 1)
            },
            ULogArgument::Int16 { .. } => {
                if avail < 2 {
                    return Err(ULogArgumentReadError::Io);
                }
                (ULogArgument::Int16 { value: Some(read_signed(data, p, 2) as i16) }, 2)
            },
            ULogArgument::Int32 { size, .. } => {
                let size = *size;
                if avail < size {
                    return Err(ULogArgumentReadError::Io);
                }
                (ULogArgument::Int32 { size, value: Some(read_signed(data, p, size) as i32) }, size)
            },
            ULogArgument::Int64 { size, .. } => {
                let size = *size;
                if avail < size {
                    return Err(ULogArgumentReadError::Io);
                }
                (ULogArgument::Int64 { size, value: Some(read_signed(data, p, size) as i64) }, size)
            },
            ULogArgument::UInt8 { .. } => {
                if avail < 1 {
                    return Err(ULogArgumentReadError::Io);
                }
                (ULogArgument::UInt8 { value: Some(read_be(data, p, 1) as u8) }, 1)
            },
            ULogArgument::UInt16 { .. } => {
                if avail < 2 {
                    return Err(ULogArgumentReadError::Io);
                }
                (ULogArgument::UInt16 { value: Some(read_be(data, p, 2) as u16) }, 2)
            },
            ULogArgument::UInt32 { size, .. } => {
                let size = *size;
                if avail < size {
                    return Err(ULogArgumentReadError::Io);
                }
                (ULogArgument::UInt32 { size, value: Some(read_be(data, p, size) as u32) }, size)
            },
            ULogArgument::UInt64 { size, .. } => {
                let size = *size;
                if avail < size {
                    return Err(ULogArgumentReadError::Io);
                }
                (ULogArgument::UInt64 { size, value: Some(read_be(data, p, size)) }, size)
            },
        };
        *self = filled;
        *pos = p + used;
        Ok(())
    }

    /// The same kind of slot, with no value.
    pub open spec fn spec_cleared(&self) -> ULogArgument {
        match *self {
            ULogArgument::Slice { .. } => ULogArgument::Slice { value: None },
            ULogArgument::Float { .. } => ULogArgument::Float { value: None },
            ULogArgument::Double { .. } => ULogArgument::Double { value: None },
            ULogArgument::String { .. } => ULogArgument::String { value: None },
            ULogArgument::Bool { .. } => ULogArgument::Bool { value: None },
            ULogArgument::ULogString { .. } => ULogArgument::ULogString { value: None },
            ULogArgument::Int8 { .. } => ULogArgument::Int8 { value: None },
            ULogArgument::Int16 { .. } => ULogArgument::Int16 { value: None },
            ULogArgument::Int32 { size, .. } => ULogArgument::Int32 { size, value: None },
            ULogArgument::Int64 { size, .. } => ULogArgument::Int64 { size, value: None },
            ULogArgument::UInt8 { .. } => ULogArgument::UInt8 { value: None },
            ULogArgument::UInt16 { .. } => ULogArgument::UInt16 { value: None },
            ULogArgument::UInt32 { size, .. } => ULogArgument::UInt32 { size, value: None },
            ULogArgument::UInt64 { size, .. } => ULogArgument::UInt64 { size, value: None },
        }
    }

    /// The same kind of slot, with no value.
    pub fn cleared(&self) -> (r: ULogArgument)
        ensures
            r == self.spec_cleared(),
    {
        match self {
            ULogArgument::Slice { .. } => ULogArgument::Slice { value: None },
            ULogArgument::Float { .. } => ULogArgument::Float { value: None },
            ULogArgument::Double { .. } => ULogArgument::Double { value: None },
            ULogArgument::String { .. } => ULogArgument::String { value: None },
            ULogArgument::Bool { .. } => ULogArgument::Bool { value: None },
            ULogArgument::ULogString { .. } => ULogArgument::ULogString { value: None },
            ULogArgument::Int8 { .. } => ULogArgument::Int8 { value: None },
            ULogArgument::Int16 { .. } => ULogArgument::Int16 { value: None },
            ULogArgument::Int32 { size, .. } => ULogArgument::Int32 { size: *size, value: None },
            ULogArgument::Int64 { size, .. } => ULogArgument::Int64 { size: *size, value: None },
            ULogArgument::UInt8 { .. } => ULogArgument::UInt8 { value: None },
            ULogArgument::UInt16 { .. } => ULogArgument::UInt16 { value: None },
            ULogArgument::UInt32 { size, .. } => ULogArgument::UInt32 { size: *size, value: None },
            ULogArgument::UInt64 { size, .. } => ULogArgument::UInt64 { size: *size, value: None },
        }
    }

    /// A slot reads as its cleared form does.
    pub proof fn lemma_cleared_reads_alike(
        &self,
        after: ULogArgument,
        data: Seq<u8>,
        pos: int,
        strings: Map<u16, ULogString>,
    )
        ensures
            self.spec_cleared().wf() == self.wf(),
            self.spec_cleared().wire_len(data, pos) == self.wire_len(data, pos),
            self.spec_cleared().read_error(data, pos, strings) == self.read_error(data, pos, strings),
            self.spec_cleared().filled_as(after, data, pos, strings) == self.filled_as(
                after,
                data,
                pos,
                strings,
            ),
    {
        reveal(ULogArgument::wire_len);
        reveal(ULogArgument::read_error);
        reveal(ULogArgument::filled_as);
    }

    /// The empty slot for a type id.
    pub fn try_from(value: u8) -> (r: Result<ULogArgument, ULogArgumentParseError>)
        ensures
            r matches Ok(a) ==> skeleton_of(value) == Some(a) && a.wf(),
            r is Err <==> skeleton_of(value) is None,
            r matches Err(e) ==> e == (ULogArgumentParseError::InvalidTypeId { id: value }),
    {
        match value {
            1 => Ok(ULogArgument::Slice { value: None }),
            2 => Ok(ULogArgument::Float { value: None }),
            3 => Ok(ULogArgument::Double { value: None }),
            4 => Ok(ULogArgument::String { value: None }),
            5 => Ok(ULogArgument::Bool { value: None }),
            6 => Ok(ULogArgument::ULogString { value: None }),
            240 => Ok(ULogArgument::Int8 { value: None }),
            241 => Ok(ULogArgument::Int16 { value: None }),
            242..=243 => Ok(ULogArgument::Int32 { size: (value - 239) as usize, value: None }),
            244..=247 => Ok(ULogArgument::Int64 { size: (value - 239) as usize, value: None }),
            248 => Ok(ULogArgument::UInt8 { value: None }),
            249 => Ok(ULogArgument::UInt16 { value: None }),
            250..=251 => Ok(ULogArgument::UInt32 { size: (value - 247) as usize, value: None }),
            252..=255 => Ok(ULogArgument::UInt64 { size: (value - 247) as usize, value: None }),
            _ => Err(ULogArgumentParseError::InvalidTypeId { id: value }),
        }
    }
}

/// Reads `k` bytes at `pos` as a big-endian two's complement integer.
fn read_signed(data: &[u8], pos: usize, k: usize) -> (r: i128)
    requires
        1 <= k <= 8,
        pos + k <= data@.len(),
    ensures
        r == be_signed(data@.subrange(pos as int, pos + k)),
{
    let v = read_be(data, pos, k);
    if data[pos] >= 128 {
        let mut p: u128 = 1;
        let mut i: usize = 0;
        while i < k
            invariant
                i <= k <= 8,
                p == pow256(i as nat),
            decreases k - i,
        {
            proof {
                lemma_pow256_small();
                crate::bytes::lemma_pow256_monotone((i + 1) as nat, 8);
            }
            p = p * 256;
            i += 1;
        }
        proof {
            lemma_pow256_small();
            crate::bytes::lemma_pow256_monotone(k as nat, 8);
        }
        v as i128 - p as i128
    } else {
        v as i128
    }
}

} // verus!
