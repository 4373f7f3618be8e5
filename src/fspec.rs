//! The FSPEC presence bitmap: reading it off the wire and asking it whether a
//! field was transmitted.
use vstd::prelude::*;

verus! {

/// Longest FSPEC chain accepted on input: the catalog's three octets plus one
/// spare octet for forward compatibility.
pub const MAX_FSPEC_LEN: usize = 4;

/// Errors of decoding and encoding a record.
#[derive(Debug, Clone, Copy, PartialEq, Eq, Structural)]
pub enum CodecError {
    /// The input ended inside the FSPEC or inside a payload.
    TruncatedInput,
    /// The FSPEC continuation chain is longer than `MAX_FSPEC_LEN`.
    MalformedFspec,
    /// The payload of the field with this catalog index is not well formed.
    FieldDecodeError { field: usize },
    /// The value held for the field with this catalog index cannot be encoded.
    FieldEncodeError { field: usize },
}

/// The continuation (FX) bit of an FSPEC octet is set.
pub open spec fn has_fx(b: u8) -> bool {
    b & 1 == 1
}

/// The field at (`byte_index`, `mask`) is marked present in `fspec`.
pub open spec fn spec_present(fspec: Seq<u8>, mask: u8, byte_index: int) -> bool {
    0 <= byte_index < fspec.len() && fspec[byte_index] & mask != 0
}

/// Outcome of reading an FSPEC chain from `s`, having already read `i`
/// octets that all carried the continuation bit: the chain's length or the
/// error that ends the read.
pub open spec fn fspec_chain(s: Seq<u8>, i: nat) -> Result<nat, CodecError>
    decreases MAX_FSPEC_LEN - i,
{
    if i >= MAX_FSPEC_LEN {
        Err(CodecError::MalformedFspec)
    } else if i >= s.len() {
        Err(CodecError::TruncatedInput)
    } else if !has_fx(s[i as int]) {
        Ok(i + 1)
    } else {
        fspec_chain(s, i + 1)
    }
}

/// Whether the field at (`byte_index`, `mask`) is present. A byte index past
/// the end of the FSPEC names an octet that was never sent: absent.
pub fn present(fspec: &[u8], mask: u8, byte_index: usize) -> (r: bool)
    ensures
        r == spec_present(fspec@, mask, byte_index as int),
        byte_index >= fspec@.len() ==> !r,
{
    byte_index < fspec.len() && fspec[byte_index] & mask != 0
}

/// Reads the FSPEC at the start of `input`: every octet up to and including
/// the first one whose continuation bit is clear.
pub fn read_fspec(input: &[u8]) -> (r: Result<Vec<u8>, CodecError>)
    ensures
        match fspec_chain(input@, 0) {
            Ok(n) => r is Ok && r->Ok_0@ == input@.subrange(0, n as int),
            Err(e) => r == Err::<Vec<u8>, CodecError>(e),
        },
{
    let mut out: Vec<u8> = Vec::new();
    let mut i: usize = 0;
    loop
        invariant
            i <= MAX_FSPEC_LEN,
            i <= input@.len(),
            out@ == input@.subrange(0, i as int),
            fspec_chain(input@, 0) == fspec_chain(input@, i as nat),
        decreases MAX_FSPEC_LEN - i,
    {
        if i >= MAX_FSPEC_LEN {
            return Err(CodecError::MalformedFspec);
        }
        if i >= input.len() {
            return Err(CodecError::TruncatedInput);
        }
        let b = input[i];
        out.push(b);
        i = i + 1;
        assert(out@ =~= input@.subrange(0, i as int));
        if b & 1 != 1 {
            return Ok(out);
        }
    }
}

/// A chain that reads to its end lies within the input and within
/// `MAX_FSPEC_LEN`, and has at least one octet.
pub proof fn lemma_chain_bounded(s: Seq<u8>, i: nat)
    ensures
        fspec_chain(s, i) is Ok ==> i < fspec_chain(s, i)->Ok_0 <= s.len()
            && fspec_chain(s, i)->Ok_0 <= MAX_FSPEC_LEN,
    decreases MAX_FSPEC_LEN - i,
{
    if i < MAX_FSPEC_LEN && i < s.len() && has_fx(s[i as int]) {
        lemma_chain_bounded(s, i + 1);
    }
}

} // verus!
