//! Named-field reads: a field that does not fit is an error that carries the
//! field's name.

use vstd::prelude::*;
use crate::bits::{code_space, field, flag, signed_field, BitReader};
use super::syncframe::ParseError;

verus! {

/// Reading `n` bits at `p` fails on the named field.
pub open spec fn missing<T>(name: &'static str) -> Result<(T, int), ParseError> {
    Err(ParseError::InvalidHeader(name))
}

pub fn read_bits(reader: &mut BitReader<'_>, bits: usize, name: &'static str) -> (r: Result<
    u32,
    ParseError,
>)
    requires
        old(reader).wf(),
        1 <= bits <= 32,
    ensures
        final(reader).wf(),
        final(reader).same_source(old(reader)),
        match r {
            Ok(v) => {
                &&& old(reader).has(bits as int)
                &&& v as int == field(old(reader).data(), old(reader).pos(), bits as int)
                &&& (v as int) < code_space(bits as int)
                &&& final(reader).pos() == old(reader).pos() + bits
            },
            Err(e) => !old(reader).has(bits as int) && e == ParseError::InvalidHeader(name),
        },
{
    match reader.read_bits(bits) {
        Some(v) => Ok(v),
        None => Err(ParseError::InvalidHeader(name)),
    }
}

pub fn read_signed_bits(reader: &mut BitReader<'_>, bits: usize, name: &'static str) -> (r: Result<
    i32,
    ParseError,
>)
    requires
        old(reader).wf(),
        1 <= bits <= 31,
    ensures
        final(reader).wf(),
        final(reader).same_source(old(reader)),
        match r {
            Ok(v) => {
                &&& old(reader).has(bits as int)
                &&& v as int == signed_field(old(reader).data(), old(reader).pos(), bits as int)
                &&& -code_space(bits - 1) <= v < code_space(bits - 1)
                &&& final(reader).pos() == old(reader).pos() + bits
            },
            Err(e) => !old(reader).has(bits as int) && e == ParseError::InvalidHeader(name),
        },
{
    match reader.read_signed_bits(bits) {
        Some(v) => Ok(v),
        None => Err(ParseError::InvalidHeader(name)),
    }
}

pub fn read_bit(reader: &mut BitReader<'_>, name: &'static str) -> (r: Result<bool, ParseError>)
    requires
        old(reader).wf(),
    ensures
        final(reader).wf(),
        final(reader).same_source(old(reader)),
        match r {
            Ok(v) => {
                &&& old(reader).has(1)
                &&& v == flag(old(reader).data(), old(reader).pos())
                &&& final(reader).pos() == old(reader).pos() + 1
            },
            Err(e) => !old(reader).has(1) && e == ParseError::InvalidHeader(name),
        },
{
    match reader.read_bit() {
        Some(v) => Ok(v),
        None => Err(ParseError::InvalidHeader(name)),
    }
}

pub fn skip_bits(reader: &mut BitReader<'_>, bits: usize, name: &'static str) -> (r: Result<
    (),
    ParseError,
>)
    requires
        old(reader).wf(),
    ensures
        final(reader).wf(),
        final(reader).same_source(old(reader)),
        match r {
            Ok(v) => {
                &&& old(reader).has(bits as int)
                &&& final(reader).pos() == old(reader).pos() + bits
            },
            Err(e) => !old(reader).has(bits as int) && e == ParseError::InvalidHeader(name),
        },
{
    match reader.skip_bits(bits) {
        Some(v) => Ok(v),
        None => Err(ParseError::InvalidHeader(name)),
    }
}

} // verus!
