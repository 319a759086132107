//! Entry points: decoding and encoding values of a layout, and the
//! `NetworkParse` trait of the types that the macros declare.

use vstd::prelude::*;
use crate::decode::{layout_outcome, parse_layout, parse_layout_at};
use crate::encode::{write_layout, write_layout_at};
use crate::error::{ParseError, WriteError};
use crate::layout::{Layout, Value};

verus! {

/// Whole bytes covered by `bits` bits.
pub open spec fn bytes_for_bits(bits: nat) -> nat {
    (bits + 7) / 8
}

fn ceil_bytes(bits: usize) -> (res: usize)
    ensures
        res as nat == bytes_for_bits(bits as nat),
{
    bits / 8 + if bits % 8 != 0 {
        1
    } else {
        0
    }
}

/// A type that reads itself from a bit stream and writes itself back;
/// `make_struct!` and `make_enum!` implement it for the types they declare,
/// by way of `parse_bits`, `write_bits` and the type's layout.
pub trait NetworkParse: Sized {
    /// What decoding at bit `off` of `data` gives: the outcome, and the bit
    /// position afterwards. A verified implementation defines it; the
    /// default leaves it unspecified.
    closed spec fn parsed(data: Seq<u8>, off: nat) -> (Result<Self, &'static str>, nat) {
        arbitrary()
    }

    /// Decodes a value at `*bit_offset` and moves the offset as `parsed`
    /// says.
    fn parse_bits(data: &[u8], bit_offset: &mut usize) -> (res: Result<Self, &'static str>)
        ensures
            (res, *final(bit_offset) as nat) == Self::parsed(data@, *old(bit_offset) as nat),
    ;

    /// What encoding the value at bit `off` of `buf` gives: the buffer and
    /// the bit position afterwards. A verified implementation defines it;
    /// the default leaves it unspecified.
    closed spec fn written(&self, buf: Seq<u8>, off: nat) -> (Seq<u8>, nat) {
        arbitrary()
    }

    /// Encodes the value at `*bit_offset` and moves the offset past it, as
    /// `written` says.
    fn write_bits(&self, buffer: &mut Vec<u8>, bit_offset: &mut usize)
        ensures
            (final(buffer)@, *final(bit_offset) as nat) == self.written(old(buffer)@, *old(bit_offset) as nat),
    ;

    /// Decodes a value from the start of `data` and reports how many bytes
    /// it spans: the bit position that `parse_bits` leaves, rounded up to
    /// whole bytes; an error of `parse_bits` is passed on.
    fn parse_len(data: &[u8]) -> (res: Result<(Self, usize), &'static str>)
        ensures
            match Self::parsed(data@, 0) {
                (Ok(v), end) => res == Ok::<(Self, usize), &'static str>((v, bytes_for_bits(end) as usize))
                    && bytes_for_bits(end) <= usize::MAX,
                (Err(e), _) => res == Err::<(Self, usize), &'static str>(e),
            },
    {
        let mut bit_offset: usize = 0;
        match Self::parse_bits(data, &mut bit_offset) {
            Ok(res) => Ok((res, ceil_bytes(bit_offset))),
            Err(e) => Err(e),
        }
    }
}

/// Decodes a value of `layout` at `*bit_offset` and moves the offset: past
/// the value on success, back to where it was when a record fails, past the
/// tag when no enumeration variant accepts it.
pub fn parse_bits(layout: &Layout, data: &[u8], bit_offset: &mut usize) -> (res: Result<Value, ParseError>)
    requires
        data@.len() * 8 <= usize::MAX,
    ensures
        (layout_outcome(res), *final(bit_offset) as nat) == parse_layout(*layout, data@, *old(bit_offset) as nat),
{
    let (res, o) = parse_layout_at(layout, data, *bit_offset);
    *bit_offset = o;
    res
}

/// Decodes a value of `layout` from the start of `data` (what
/// `TryFrom<Vec<u8>>` and `TryFrom<&[u8]>` of a declared type do).
pub fn decode(layout: &Layout, data: &[u8]) -> (res: Result<Value, ParseError>)
    requires
        data@.len() * 8 <= usize::MAX,
    ensures
        layout_outcome(res) == parse_layout(*layout, data@, 0).0,
{
    let (res, _) = parse_layout_at(layout, data, 0);
    res
}

/// Decodes a value of `layout` from the start of `data` and reports how many
/// bytes it spans.
pub fn parse_len(layout: &Layout, data: &[u8]) -> (res: Result<(Value, usize), ParseError>)
    requires
        data@.len() * 8 <= usize::MAX,
    ensures
        match parse_layout(*layout, data@, 0) {
            (Ok(v), end) => res is Ok && res->Ok_0.0@ == v && res->Ok_0.1 as nat == bytes_for_bits(end),
            (Err(e), _) => res == Err::<(Value, usize), ParseError>(e),
        },
{
    let (res, o) = parse_layout_at(layout, data, 0);
    match res {
        Ok(v) => Ok((v, ceil_bytes(o))),
        Err(e) => Err(e),
    }
}

/// Encodes `value` at `*bit_offset` and moves the offset past it. Where
/// writing cannot go on, it reports an error and does not panic: a byte
/// field that starts inside a byte, an integer wider than 64 bits (both
/// cases where a declared type's `write_bits` panics with the error's
/// message), a value that does not have the shape of the layout, or an
/// offset past `usize`. The buffer is then left in an unspecified state.
pub fn write_bits(layout: &Layout, value: &Value, buffer: &mut Vec<u8>, bit_offset: &mut usize) -> (res: Result<
    (),
    WriteError,
>)
    ensures
        match write_layout(*layout, value@, old(buffer)@, *old(bit_offset) as nat) {
            Ok((b, o)) => res is Ok && final(buffer)@ == b && *final(bit_offset) as nat == o,
            Err(x) => res == Err::<(), WriteError>(x),
        },
{
    match write_layout_at(layout, value, buffer, *bit_offset) {
        Ok(o) => {
            *bit_offset = o;
            Ok(())
        },
        Err(x) => Err(x),
    }
}

/// Encodes `value` into a new buffer (what `From<T> for Vec<u8>` of a
/// declared type does).
pub fn encode(layout: &Layout, value: &Value) -> (res: Result<Vec<u8>, WriteError>)
    ensures
        match write_layout(*layout, value@, Seq::empty(), 0) {
            Ok((b, _)) => res is Ok && res->Ok_0@ == b,
            Err(x) => res == Err::<Vec<u8>, WriteError>(x),
        },
{
    let mut buffer: Vec<u8> = Vec::new();
    proof {
        assert(buffer@ =~= Seq::<u8>::empty());
    }
    match write_layout_at(layout, value, &mut buffer, 0) {
        Ok(_) => Ok(buffer),
        Err(x) => Err(x),
    }
}

} // verus!
