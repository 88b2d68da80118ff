//! Byte layouts of the protocol's fields: big-endian integers and the
//! interpolation byte.

use byteorder::{BigEndian, ByteOrder};
use vstd::prelude::*;

verus! {

/// The integer that four bytes spell, most significant first.
pub open spec fn be_u32(b: Seq<u8>) -> int {
    b[0] as int * 0x100_0000 + b[1] as int * 0x1_0000 + b[2] as int * 0x100 + b[3] as int
}

/// The four bytes of `n`, most significant first.
pub open spec fn be_bytes(n: u32) -> Seq<u8> {
    seq![
        (n / 0x100_0000) as u8,
        ((n / 0x1_0000) % 0x100) as u8,
        ((n / 0x100) % 0x100) as u8,
        (n % 0x100) as u8,
    ]
}

/// Reading back the four bytes of a number gives the number.
pub proof fn lemma_be_round_trip(n: u32)
    ensures
        be_bytes(n).len() == 4,
        be_u32(be_bytes(n)) == n as int,
{
    let b = be_bytes(n);
    assert(b[0] as int == n as int / 0x100_0000);
    assert(b[1] as int == (n as int / 0x1_0000) % 0x100);
    assert(b[2] as int == (n as int / 0x100) % 0x100);
    assert(b[3] as int == n as int % 0x100);
}

/// Relies on byteorder's `BigEndian::read_u32`: the four bytes at `at`, most
/// significant first; it panics on a slice shorter than four bytes.
#[verifier::external_body]
pub(crate) fn read_be_u32(buf: &[u8], at: usize) -> (r: u32)
    requires
        at + 4 <= buf@.len(),
    ensures
        r as int == be_u32(buf@.subrange(at as int, at + 4)),
{
    BigEndian::read_u32(&buf[at..])
}

/// Relies on byteorder's `BigEndian::write_u32`: fills four bytes with `n`,
/// most significant first.
#[verifier::external_body]
pub(crate) fn write_be_u32(n: u32) -> (r: [u8; 4])
    ensures
        r@ == be_bytes(n),
{
    let mut b = [0u8; 4];
    BigEndian::write_u32(&mut b, n);
    b
}

/// Appends the four bytes of `n` to `out`.
pub fn push_be_u32(out: &mut Vec<u8>, n: u32)
    ensures
        final(out)@ == old(out)@ + be_bytes(n),
{
    let b = write_be_u32(n);
    out.push(b[0]);
    out.push(b[1]);
    out.push(b[2]);
    out.push(b[3]);
    assert(final(out)@ =~= old(out)@ + be_bytes(n));
}

/// How a track's value moves from one key to the next.
#[derive(Debug, Clone, Copy, PartialEq, Eq, Structural)]
pub enum Interpolation {
    Step,
    Linear,
    Smooth,
    Ramp,
}

/// The interpolation a byte stands for: 0 to 3 in declaration order, any other
/// byte `Step`.
pub open spec fn interpolation_of(raw: u8) -> Interpolation {
    if raw == 1 {
        Interpolation::Linear
    } else if raw == 2 {
        Interpolation::Smooth
    } else if raw == 3 {
        Interpolation::Ramp
    } else {
        Interpolation::Step
    }
}

/// The byte that encodes an interpolation.
pub open spec fn interpolation_byte(i: Interpolation) -> u8 {
    match i {
        Interpolation::Step => 0,
        Interpolation::Linear => 1,
        Interpolation::Smooth => 2,
        Interpolation::Ramp => 3,
    }
}

impl From<u8> for Interpolation {
    fn from(raw: u8) -> (r: Interpolation)
        ensures
            r == interpolation_of(raw),
    {
        match raw {
            0 => Interpolation::Step,
            1 => Interpolation::Linear,
            2 => Interpolation::Smooth,
            3 => Interpolation::Ramp,
            _ => Interpolation::Step,
        }
    }
}

impl vstd::std_specs::convert::FromSpecImpl<u8> for Interpolation {
    open spec fn obeys_from_spec() -> bool {
        true
    }

    open spec fn from_spec(raw: u8) -> Interpolation {
        interpolation_of(raw)
    }
}

/// One control point of a track: at `row` the track takes the value whose
/// IEEE-754 single-precision bit pattern is `value_bits`.
#[derive(Debug, Clone, Copy, PartialEq, Eq, Structural)]
pub struct Key {
    pub row: u32,
    pub value_bits: u32,
    pub interpolation: Interpolation,
}

} // verus!
