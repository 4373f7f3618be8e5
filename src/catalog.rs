//! The field catalog: for each field its FSPEC coordinates and the shape of
//! its payload, and the framing that finds where one payload ends.
use vstd::prelude::*;

use crate::fspec::CodecError;

verus! {

/// Number of fields in the catalog.
pub const NUM_FIELDS: usize = 15;

/// Number of FSPEC octets that the catalog's fields occupy.
pub const FSPEC_BYTES: usize = 3;

pub const DATA_SOURCE_IDENTIFIER: usize = 0;
pub const TIME_OF_DAY: usize = 1;
pub const TARGET_REPORT_DESCRIPTOR: usize = 2;
pub const MEASURED_POSITION_IN_POLAR_COORDINATES: usize = 3;
pub const MODE_3_A_CODE_IN_OCTAL_REPRESENTATION: usize = 4;
pub const FLIGHT_LEVEL_IN_BINARY_REPRESENTATION: usize = 5;
pub const RADAR_PLOT_CHARACTERISTICS: usize = 6;
pub const AIRCRAFT_ADDRESS: usize = 7;
pub const AIRCRAFT_IDENTIFICATION: usize = 8;
pub const MODE_S_MB_DATA: usize = 9;
pub const TRACK_NUMBER: usize = 10;
pub const CALCULATED_POSITION_CARTESIAN_COORDINATES: usize = 11;
pub const CALCULATED_TRACK_VELOCITY: usize = 12;
pub const TRACK_STATUS: usize = 13;
pub const COMMUNICATIONS_CAPABILITY_FLIGHT_STATUS: usize = 14;

/// How the length of a field's payload is found on the wire.
#[derive(Debug, Clone, Copy, PartialEq, Eq, Structural)]
pub enum Shape {
    /// Always this many octets.
    Fixed(u8),
    /// Octets chained by their low bit (FX), at most this many.
    Extended(u8),
    /// A repetition count octet, then that many elements of this many octets.
    Repetitive(u8),
    /// A primary octet (FX clear) whose data bits 7..1 each announce one
    /// further octet.
    Compound,
}

/// A catalog entry: the FSPEC octet and bit that announce the field, and the
/// shape of its payload.
#[derive(Debug, Clone, Copy, PartialEq, Eq, Structural)]
pub struct FieldEntry {
    pub byte_index: usize,
    pub mask: u8,
    pub shape: Shape,
}

/// Position of field `i` in FSPEC bit-scan order: octet `pos / 7`, bit
/// `7 - pos % 7`. Fields are listed in increasing position.
pub open spec fn field_pos(i: int) -> int {
    if i < 14 { i } else { 20 }
}

pub open spec fn bit_mask(t: int) -> u8 {
    if t == 0 { 0x80 }
    else if t == 1 { 0x40 }
    else if t == 2 { 0x20 }
    else if t == 3 { 0x10 }
    else if t == 4 { 0x08 }
    else if t == 5 { 0x04 }
    else { 0x02 }
}

pub open spec fn field_shape(i: int) -> Shape {
    if i == 0 { Shape::Fixed(2) }
    else if i == 1 { Shape::Fixed(3) }
    else if i == 2 { Shape::Extended(3) }
    else if i == 3 { Shape::Fixed(4) }
    else if i == 4 { Shape::Fixed(2) }
    else if i == 5 { Shape::Fixed(2) }
    else if i == 6 { Shape::Compound }
    else if i == 7 { Shape::Fixed(3) }
    else if i == 8 { Shape::Fixed(6) }
    else if i == 9 { Shape::Repetitive(8) }
    else if i == 10 { Shape::Fixed(2) }
    else if i == 11 { Shape::Fixed(4) }
    else if i == 12 { Shape::Fixed(4) }
    else if i == 13 { Shape::Extended(2) }
    else { Shape::Fixed(2) }
}

/// The catalog entry of field `i`.
pub open spec fn catalog(i: int) -> FieldEntry {
    FieldEntry {
        byte_index: (field_pos(i) / 7) as usize,
        mask: bit_mask(field_pos(i) % 7),
        shape: field_shape(i),
    }
}

/// The catalog entry of field `i`.
pub fn catalog_entry(i: usize) -> (e: FieldEntry)
    requires
        i < NUM_FIELDS,
    ensures
        e == catalog(i as int),
{
    let pos: usize = if i < 14 { i } else { 20 };
    let t: usize = pos % 7;
    let mask: u8 = if t == 0 { 0x80 }
        else if t == 1 { 0x40 }
        else if t == 2 { 0x20 }
        else if t == 3 { 0x10 }
        else if t == 4 { 0x08 }
        else if t == 5 { 0x04 }
        else { 0x02 };
    let shape = if i == 0 { Shape::Fixed(2) }
        else if i == 1 { Shape::Fixed(3) }
        else if i == 2 { Shape::Extended(3) }
        else if i == 3 { Shape::Fixed(4) }
        else if i == 4 { Shape::Fixed(2) }
        else if i == 5 { Shape::Fixed(2) }
        else if i == 6 { Shape::Compound }
        else if i == 7 { Shape::Fixed(3) }
        else if i == 8 { Shape::Fixed(6) }
        else if i == 9 { Shape::Repetitive(8) }
        else if i == 10 { Shape::Fixed(2) }
        else if i == 11 { Shape::Fixed(4) }
        else if i == 12 { Shape::Fixed(4) }
        else if i == 13 { Shape::Extended(2) }
        else { Shape::Fixed(2) };
    FieldEntry { byte_index: pos / 7, mask, shape }
}

/// What framing finds at the start of a byte sequence.
pub enum Framing {
    /// A whole payload of this many octets.
    Whole(nat),
    /// The input ends before the payload does.
    Short,
    /// The octets cannot start a payload of this shape.
    Invalid,
}

/// Framing of an FX-chained payload of at most `max` octets, `i` octets of
/// which have been read, all with FX set.
pub open spec fn extended_framing(s: Seq<u8>, i: nat, max: nat) -> Framing
    decreases max - i,
{
    if i >= max {
        Framing::Invalid
    } else if i >= s.len() {
        Framing::Short
    } else if s[i as int] & 1 == 0 {
        Framing::Whole(i + 1)
    } else {
        extended_framing(s, i + 1, max)
    }
}

/// Number of the data bits 7..(8 - t) that are set in `b`.
pub open spec fn data_bits_set(b: u8, t: int) -> nat
    decreases t,
{
    if t <= 0 {
        0
    } else {
        data_bits_set(b, t - 1) + if b & bit_mask(t - 1) != 0 { 1nat } else { 0nat }
    }
}

pub open spec fn sized(s: Seq<u8>, n: nat) -> Framing {
    if n <= s.len() { Framing::Whole(n) } else { Framing::Short }
}

/// Where the payload of shape `shape` at the start of `s` ends.
pub open spec fn framing(shape: Shape, s: Seq<u8>) -> Framing {
    match shape {
        Shape::Fixed(n) => sized(s, n as nat),
        Shape::Extended(max) => extended_framing(s, 0, max as nat),
        Shape::Repetitive(n) => if s.len() == 0 {
            Framing::Short
        } else {
            sized(s, (1 + s[0] * n) as nat)
        },
        Shape::Compound => if s.len() == 0 {
            Framing::Short
        } else if s[0] & 1 == 1 {
            Framing::Invalid
        } else {
            sized(s, 1 + data_bits_set(s[0], 7))
        },
    }
}

/// `p` is exactly one payload of shape `shape`.
pub open spec fn well_framed(shape: Shape, p: Seq<u8>) -> bool {
    framing(shape, p) == Framing::Whole(p.len())
}

/// The error or length that framing `f` gives for the field with index `field`.
pub open spec fn framing_result(f: Framing, field: usize) -> Result<usize, CodecError> {
    match f {
        Framing::Whole(n) => Ok(n as usize),
        Framing::Short => Err(CodecError::TruncatedInput),
        Framing::Invalid => Err(CodecError::FieldDecodeError { field }),
    }
}

fn count_data_bits(b: u8) -> (r: u8)
    ensures
        r as nat == data_bits_set(b, 7),
{
    let mut count: u8 = 0;
    let mut t: usize = 0;
    while t < 7
        invariant
            t <= 7,
            count as nat == data_bits_set(b, t as int),
            count <= t,
        decreases 7 - t,
    {
        let m: u8 = if t == 0 { 0x80 }
            else if t == 1 { 0x40 }
            else if t == 2 { 0x20 }
            else if t == 3 { 0x10 }
            else if t == 4 { 0x08 }
            else if t == 5 { 0x04 }
            else { 0x02 };
        if b & m != 0 {
            count = count + 1;
        }
        t = t + 1;
    }
    count
}

/// Length of the payload of field `field`, of shape `shape`, that starts at
/// `pos` in `input`.
pub fn payload_len(shape: Shape, input: &[u8], pos: usize, field: usize) -> (r: Result<usize, CodecError>)
    requires
        pos <= input@.len(),
    ensures
        r == framing_result(framing(shape, input@.subrange(pos as int, input@.len() as int)), field),
        r is Ok ==> pos + r->Ok_0 <= input@.len(),
{
    let ghost s = input@.subrange(pos as int, input@.len() as int);
    let avail: usize = input.len() - pos;
    match shape {
        Shape::Fixed(n) => {
            if (n as usize) <= avail { Ok(n as usize) } else { Err(CodecError::TruncatedInput) }
        },
        Shape::Extended(max) => {
            let mut i: usize = 0;
            loop
                invariant
                    i <= max,
                    i <= avail,
                    avail == s.len(),
                    pos + avail == input@.len(),
                    input@.len() <= usize::MAX,
                    shape == Shape::Extended(max),
                    s == input@.subrange(pos as int, input@.len() as int),
                    forall|k: int| 0 <= k < s.len() ==> s[k] == input@[pos + k],
                    extended_framing(s, 0, max as nat) == extended_framing(s, i as nat, max as nat),
                decreases max - i,
            {
                if i >= max as usize {
                    return Err(CodecError::FieldDecodeError { field });
                }
                if i >= avail {
                    return Err(CodecError::TruncatedInput);
                }
                if input[pos + i] & 1 == 0 {
                    return Ok(i + 1);
                }
                i = i + 1;
            }
        },
        Shape::Repetitive(n) => {
            if avail == 0 {
                return Err(CodecError::TruncatedInput);
            }
            assert(s[0] == input@[pos as int]);
            let count: u8 = input[pos];
            assert(count as u32 * n as u32 <= 255 * 255) by (nonlinear_arith)
                requires
                    count <= 255,
                    n <= 255,
            ;
            let len: usize = (1 + count as u32 * n as u32) as usize;
            if len <= avail { Ok(len) } else { Err(CodecError::TruncatedInput) }
        },
        Shape::Compound => {
            if avail == 0 {
                return Err(CodecError::TruncatedInput);
            }
            assert(s[0] == input@[pos as int]);
            if input[pos] & 1 == 1 {
                return Err(CodecError::FieldDecodeError { field });
            }
            let len: usize = 1 + count_data_bits(input[pos]) as usize;
            if len <= avail { Ok(len) } else { Err(CodecError::TruncatedInput) }
        },
    }
}

proof fn lemma_extended_bounded(s: Seq<u8>, i: nat, max: nat)
    ensures
        extended_framing(s, i, max) is Whole ==> extended_framing(s, i, max)->Whole_0 <= s.len(),
    decreases max - i,
{
    if i < max && i < s.len() && s[i as int] & 1 != 0 {
        lemma_extended_bounded(s, i + 1, max);
    }
}

/// A whole payload never reaches past the end of the input.
pub proof fn lemma_framing_bounded(shape: Shape, s: Seq<u8>)
    ensures
        framing(shape, s) is Whole ==> framing(shape, s)->Whole_0 <= s.len(),
{
    if let Shape::Extended(max) = shape {
        lemma_extended_bounded(s, 0, max as nat);
    }
}

proof fn lemma_extended_prefix(p: Seq<u8>, q: Seq<u8>, i: nat, max: nat)
    requires
        extended_framing(p, i, max) == Framing::Whole(p.len()),
    ensures
        extended_framing(p + q, i, max) == Framing::Whole(p.len()),
    decreases max - i,
{
    if i < max && i < p.len() {
        assert((p + q)[i as int] == p[i as int]);
        if p[i as int] & 1 != 0 {
            lemma_extended_prefix(p, q, i + 1, max);
        }
    }
}

/// A whole payload stays whole, with the same length, whatever follows it.
pub proof fn lemma_framing_prefix(shape: Shape, p: Seq<u8>, q: Seq<u8>)
    requires
        well_framed(shape, p),
    ensures
        framing(shape, p + q) == Framing::Whole(p.len()),
{
    match shape {
        Shape::Extended(max) => lemma_extended_prefix(p, q, 0, max as nat),
        Shape::Repetitive(_) => assert((p + q)[0] == p[0]),
        Shape::Compound => assert((p + q)[0] == p[0]),
        _ => {},
    }
}

} // verus!
