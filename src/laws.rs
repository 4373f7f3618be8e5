//! What holds of every encoded record: the shape of its FSPEC and that
//! decoding gives the record back.
use vstd::prelude::*;

use crate::catalog::{
    bit_mask, catalog, field_pos, lemma_framing_prefix, well_framed, FSPEC_BYTES, NUM_FIELDS,
};
use crate::fspec::{fspec_chain, has_fx, spec_present, MAX_FSPEC_LEN};
use crate::record::{
    canonical_fspec, decode_fields, first_malformed, payloads, spec_decode, spec_encode,
    trimmed_len, with_fx, working_fspec, Fields,
};

verus! {

/// `m` sets exactly one of the data bits 7..1 of an octet.
pub open spec fn is_data_mask(m: u8) -> bool {
    m == 0x80 || m == 0x40 || m == 0x20 || m == 0x10 || m == 0x08 || m == 0x04 || m == 0x02
}

proof fn lemma_set_bit(x: u8, m: u8, m2: u8)
    by (bit_vector)
    requires
        m == 0x80 || m == 0x40 || m == 0x20 || m == 0x10 || m == 0x08 || m == 0x04 || m == 0x02,
        m2 == 0x80 || m2 == 0x40 || m2 == 0x20 || m2 == 0x10 || m2 == 0x08 || m2 == 0x04 || m2
            == 0x02,
    ensures
        (x | m) & m != 0,
        m != m2 ==> (((x | m) & m2 != 0) == (x & m2 != 0)),
        x & 1 == 0 ==> (x | m) & 1 == 0,
{
}

proof fn lemma_fx_bit(x: u8, m: u8)
    by (bit_vector)
    requires
        m == 0x80 || m == 0x40 || m == 0x20 || m == 0x10 || m == 0x08 || m == 0x04 || m == 0x02,
    ensures
        ((x | 1) & m != 0) == (x & m != 0),
        (x | 1) & 1 == 1,
        (0u8 & m) == 0,
        (x & 1 == 0 && x & 0xFE == 0) ==> x == 0,
        x & 1 != 1 ==> x & 1 == 0,
{
}

proof fn lemma_catalog_entry(i: int)
    requires
        0 <= i < NUM_FIELDS,
    ensures
        catalog(i).byte_index < FSPEC_BYTES,
        is_data_mask(catalog(i).mask),
        forall|j: int|
            0 <= j < NUM_FIELDS && j != i ==> !(catalog(j).byte_index == catalog(i).byte_index
                && catalog(j).mask == catalog(i).mask),
{
    assert forall|j: int|
        0 <= j < NUM_FIELDS && j != i implies !(catalog(j).byte_index == catalog(i).byte_index
            && catalog(j).mask == catalog(i).mask) by {
        let (pi, pj) = (field_pos(i), field_pos(j));
        if catalog(j).byte_index == catalog(i).byte_index && catalog(j).mask == catalog(i).mask {
            assert(pi / 7 == pj / 7);
            assert(bit_mask(pi % 7) == bit_mask(pj % 7));
            assert(pi % 7 == pj % 7);
            assert(pi == pj);
        }
    }
}

proof fn lemma_working(r: Fields, n: nat)
    requires
        n <= NUM_FIELDS,
    ensures
        working_fspec(r, n).len() == FSPEC_BYTES,
        forall|k: int| 0 <= k < FSPEC_BYTES ==> #[trigger] working_fspec(r, n)[k] & 1 == 0,
        forall|i: int|
            0 <= i < NUM_FIELDS ==> ((working_fspec(r, n)[catalog(i).byte_index as int] & catalog(
                i,
            ).mask != 0) <==> (i < n && r[i] is Some)),
    decreases n,
{
    if n == 0 {
        let w = working_fspec(r, 0);
        assert forall|i: int| 0 <= i < NUM_FIELDS implies !(w[catalog(i).byte_index as int]
            & catalog(i).mask != 0) by {
            lemma_catalog_entry(i);
            lemma_fx_bit(0, catalog(i).mask);
        }
        assert(0u8 & 1 == 0) by (bit_vector);
    } else {
        lemma_working(r, (n - 1) as nat);
        let w = working_fspec(r, (n - 1) as nat);
        let e = catalog(n - 1);
        lemma_catalog_entry(n - 1);
        if r[n - 1] is Some {
            let b = e.byte_index as int;
            let w2 = working_fspec(r, n);
            assert(w2 == w.update(b, w[b] | e.mask));
            lemma_set_bit(w[b], e.mask, e.mask);
            assert forall|i: int| 0 <= i < NUM_FIELDS implies ((w2[catalog(i).byte_index as int]
                & catalog(i).mask != 0) <==> (i < n && r[i] is Some)) by {
                lemma_catalog_entry(i);
                lemma_set_bit(w[b], e.mask, catalog(i).mask);
            }
        }
    }
}

proof fn lemma_trimmed(s: Seq<u8>)
    ensures
        trimmed_len(s) <= s.len(),
        forall|k: int| trimmed_len(s) <= k < s.len() ==> s[k] == 0,
        trimmed_len(s) > 0 ==> s[trimmed_len(s) - 1] != 0,
    decreases s.len(),
{
    if s.len() > 0 && s.last() == 0 {
        lemma_trimmed(s.drop_last());
        assert forall|k: int| trimmed_len(s) <= k < s.len() implies s[k] == 0 by {
            if k < s.len() - 1 {
                assert(s.drop_last()[k] == s[k]);
            }
        }
    }
}

/// The facts about the canonical FSPEC that the laws below and the round
/// trip draw on.
proof fn lemma_canonical(r: Fields)
    ensures
        1 <= canonical_fspec(r).len() <= FSPEC_BYTES,
        forall|k: int|
            0 <= k < canonical_fspec(r).len() - 1 ==> has_fx(#[trigger] canonical_fspec(r)[k]),
        !has_fx(canonical_fspec(r).last()),
        canonical_fspec(r).last() & 0xFE == 0 ==> canonical_fspec(r).len() == 1 && forall|i: int|
            0 <= i < NUM_FIELDS ==> r[i] is None,
        forall|i: int|
            0 <= i < NUM_FIELDS ==> (spec_present(
                canonical_fspec(r),
                catalog(i).mask,
                catalog(i).byte_index as int,
            ) <==> r[i] is Some),
{
    let w = working_fspec(r, NUM_FIELDS as nat);
    lemma_working(r, NUM_FIELDS as nat);
    lemma_trimmed(w);
    let t = w.subrange(0, trimmed_len(w) as int);
    let f = canonical_fspec(r);
    assert(f == with_fx(t));
    if t.len() == 0 {
        assert(0u8 & 1 == 0 && 0u8 & 0xFE == 0) by (bit_vector);
        assert forall|i: int| 0 <= i < NUM_FIELDS implies !(r[i] is Some) by {
            lemma_catalog_entry(i);
            lemma_fx_bit(0, catalog(i).mask);
            assert(w[catalog(i).byte_index as int] == 0);
        }
    } else {
        assert forall|k: int| 0 <= k < f.len() - 1 implies has_fx(#[trigger] f[k]) by {
            lemma_fx_bit(t[k], 0x80);
        }
        assert(f.last() == t.last());
        assert(w[t.len() - 1] & 1 == 0);
        if f.last() & 0xFE == 0 {
            lemma_fx_bit(t.last(), 0x80);
        }
        assert forall|i: int| 0 <= i < NUM_FIELDS implies (spec_present(
            f,
            catalog(i).mask,
            catalog(i).byte_index as int,
        ) <==> r[i] is Some) by {
            lemma_catalog_entry(i);
            let b = catalog(i).byte_index as int;
            let m = catalog(i).mask;
            if b < t.len() {
                lemma_fx_bit(t[b], m);
            } else {
                assert(w[b] == 0);
                lemma_fx_bit(0, m);
            }
        }
    }
}

/// Continuation: in every FSPEC that encoding produces, each octet but the
/// last has its continuation bit set and the last has it clear.
pub proof fn lemma_fspec_continuation(r: Fields)
    ensures
        canonical_fspec(r).len() >= 1,
        forall|k: int|
            0 <= k < canonical_fspec(r).len() - 1 ==> has_fx(#[trigger] canonical_fspec(r)[k]),
        !has_fx(canonical_fspec(r)[canonical_fspec(r).len() - 1]),
{
    lemma_canonical(r);
}

/// Minimality: the last octet of an encoded FSPEC announces at least one
/// field, unless no field is present at all, in which case the FSPEC is that
/// one empty octet.
pub proof fn lemma_fspec_minimal(r: Fields)
    requires
        r.len() == NUM_FIELDS,
    ensures
        canonical_fspec(r)[canonical_fspec(r).len() - 1] & 0xFE == 0 ==> canonical_fspec(r)
            =~= seq![0u8] && forall|i: int| 0 <= i < NUM_FIELDS ==> r[i] is None,
{
    lemma_canonical(r);
    let f = canonical_fspec(r);
    if f.last() & 0xFE == 0 {
        assert(!has_fx(f.last()));
        lemma_fx_bit(f.last(), 0x80);
        assert(f =~= seq![0u8]);
    }
}

/// The encoded FSPEC announces exactly the fields that are present.
pub proof fn lemma_fspec_announces_present(r: Fields, i: int)
    requires
        0 <= i < NUM_FIELDS,
    ensures
        spec_present(canonical_fspec(r), catalog(i).mask, catalog(i).byte_index as int)
            <==> r[i] is Some,
{
    lemma_canonical(r);
}

proof fn lemma_chain_reads(f: Seq<u8>, q: Seq<u8>, i: nat)
    requires
        1 <= f.len() <= MAX_FSPEC_LEN,
        i < f.len(),
        forall|k: int| 0 <= k < f.len() - 1 ==> has_fx(#[trigger] f[k]),
        !has_fx(f.last()),
    ensures
        fspec_chain(f + q, i) == Ok::<nat, crate::fspec::CodecError>(f.len()),
    decreases f.len() - i,
{
    assert((f + q)[i as int] == f[i as int]);
    if i + 1 < f.len() {
        lemma_chain_reads(f, q, i + 1);
    }
}

proof fn lemma_decode_payloads(r: Fields, f: Seq<u8>, s: Seq<u8>, i: nat, pos: nat)
    requires
        r.len() == NUM_FIELDS,
        i <= NUM_FIELDS,
        pos <= s.len(),
        s.subrange(pos as int, s.len() as int) == payloads(r, i),
        first_malformed(r, i) is None,
        forall|j: int|
            0 <= j < NUM_FIELDS ==> (spec_present(f, catalog(j).mask, catalog(j).byte_index as int)
                <==> r[j] is Some),
    ensures
        decode_fields(s, f, i, pos, r.subrange(0, i as int)) == Ok::<
            (Fields, nat),
            crate::fspec::CodecError,
        >((r, s.len())),
    decreases NUM_FIELDS - i,
{
    if i >= NUM_FIELDS {
        assert(r.subrange(0, i as int) =~= r);
    } else {
        let rest = payloads(r, i + 1);
        match r[i as int] {
            Some(p) => {
                assert(well_framed(catalog(i as int).shape, p));
                lemma_framing_prefix(catalog(i as int).shape, p, rest);
                let n = p.len();
                assert(s.subrange(pos as int, s.len() as int) == p + rest);
                assert(s.subrange(pos as int, (pos + n) as int) =~= p);
                let tail = s.subrange(pos as int, s.len() as int);
                assert(tail.subrange(n as int, tail.len() as int) =~= rest);
                assert(s.subrange((pos + n) as int, s.len() as int) =~= tail.subrange(
                    n as int,
                    tail.len() as int,
                ));
                assert(r.subrange(0, i as int).push(Some(p)) =~= r.subrange(0, (i + 1) as int));
                lemma_decode_payloads(r, f, s, i + 1, pos + n);
            },
            None => {
                assert(r.subrange(0, i as int).push(None) =~= r.subrange(0, (i + 1) as int));
                lemma_decode_payloads(r, f, s, i + 1, pos);
            },
        }
    }
}

/// Round trip: decoding the encoding of a record gives the record back and
/// consumes the whole encoding.
pub proof fn lemma_round_trip(r: Fields)
    requires
        r.len() == NUM_FIELDS,
        spec_encode(r) is Ok,
    ensures
        spec_decode(spec_encode(r)->Ok_0) == Ok::<(Fields, nat), crate::fspec::CodecError>(
            (r, spec_encode(r)->Ok_0.len()),
        ),
{
    lemma_canonical(r);
    let f = canonical_fspec(r);
    let body = payloads(r, 0);
    let s = f + body;
    assert(spec_encode(r)->Ok_0 == s);
    lemma_chain_reads(f, body, 0);
    assert(s.subrange(0, f.len() as int) =~= f);
    assert(s.subrange(f.len() as int, s.len() as int) =~= body);
    assert(r.subrange(0, 0) =~= Seq::<Option<Seq<u8>>>::empty());
    lemma_decode_payloads(r, f, s, 0, f.len());
}

} // verus!
