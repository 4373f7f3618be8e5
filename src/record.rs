//! The category 048 record: one optional payload per catalog field, decoded
//! from and encoded to its wire form.
use vstd::prelude::*;

use crate::catalog::{
    catalog, catalog_entry, framing, lemma_framing_bounded, payload_len, well_framed, Framing,
    FSPEC_BYTES, NUM_FIELDS,
};
use crate::fspec::{fspec_chain, lemma_chain_bounded, present, read_fspec, spec_present, CodecError};

verus! {

/// A record's fields: for each catalog index, the payload if the field is
/// present.
pub type Fields = Seq<Option<Seq<u8>>>;

/// The FSPEC octets before canonicalisation: after the first `n` fields, each
/// present one has set its bit in its octet.
pub open spec fn working_fspec(r: Fields, n: nat) -> Seq<u8>
    decreases n,
{
    if n == 0 {
        Seq::new(FSPEC_BYTES as nat, |k: int| 0u8)
    } else {
        let w = working_fspec(r, (n - 1) as nat);
        let e = catalog(n - 1);
        if r[n - 1] is Some {
            w.update(e.byte_index as int, w[e.byte_index as int] | e.mask)
        } else {
            w
        }
    }
}

/// Length of `s` once its trailing zero octets are removed.
pub open spec fn trimmed_len(s: Seq<u8>) -> nat
    decreases s.len(),
{
    if s.len() > 0 && s.last() == 0 {
        trimmed_len(s.drop_last())
    } else {
        s.len()
    }
}

/// Sets the continuation bit on every octet but the last; an empty sequence
/// becomes the single octet that says no field is present.
pub open spec fn with_fx(s: Seq<u8>) -> Seq<u8> {
    if s.len() == 0 {
        seq![0u8]
    } else {
        Seq::new(s.len(), |k: int| if k < s.len() - 1 { s[k] | 1 } else { s[k] })
    }
}

/// The minimal FSPEC that announces exactly the present fields of `r`.
pub open spec fn canonical_fspec(r: Fields) -> Seq<u8> {
    let w = working_fspec(r, NUM_FIELDS as nat);
    with_fx(w.subrange(0, trimmed_len(w) as int))
}

/// The payloads of the present fields from index `i` on, in catalog order.
pub open spec fn payloads(r: Fields, i: nat) -> Seq<u8>
    decreases NUM_FIELDS - i,
{
    if i >= NUM_FIELDS {
        Seq::empty()
    } else {
        let rest = payloads(r, i + 1);
        match r[i as int] {
            Some(p) => p + rest,
            None => rest,
        }
    }
}

/// The first field from index `i` on whose payload is not one whole payload
/// of the field's shape.
pub open spec fn first_malformed(r: Fields, i: nat) -> Option<nat>
    decreases NUM_FIELDS - i,
{
    if i >= NUM_FIELDS {
        None
    } else if r[i as int] is Some && !well_framed(catalog(i as int).shape, r[i as int]->Some_0) {
        Some(i)
    } else {
        first_malformed(r, i + 1)
    }
}

/// The wire form of `r`: its canonical FSPEC, then the present payloads.
pub open spec fn spec_encode(r: Fields) -> Result<Seq<u8>, CodecError> {
    match first_malformed(r, 0) {
        Some(i) => Err(CodecError::FieldEncodeError { field: i as usize }),
        None => Ok(canonical_fspec(r) + payloads(r, 0)),
    }
}

/// Decoding the fields from index `i` on, with the payloads at `pos` in `s`
/// and the fields before `i` decoded into `acc`: the fields and the number of
/// octets consumed, or the first error.
pub open spec fn decode_fields(s: Seq<u8>, fspec: Seq<u8>, i: nat, pos: nat, acc: Fields)
    -> Result<(Fields, nat), CodecError>
    decreases NUM_FIELDS - i,
{
    if i >= NUM_FIELDS {
        Ok((acc, pos))
    } else {
        let e = catalog(i as int);
        if spec_present(fspec, e.mask, e.byte_index as int) {
            match framing(e.shape, s.subrange(pos as int, s.len() as int)) {
                Framing::Whole(n) => decode_fields(
                    s,
                    fspec,
                    i + 1,
                    pos + n,
                    acc.push(Some(s.subrange(pos as int, (pos + n) as int))),
                ),
                Framing::Short => Err(CodecError::TruncatedInput),
                Framing::Invalid => Err(CodecError::FieldDecodeError { field: i as usize }),
            }
        } else {
            decode_fields(s, fspec, i + 1, pos, acc.push(None))
        }
    }
}

/// Decoding one record from the start of `s`: its fields and the number of
/// octets it takes, or the first error.
pub open spec fn spec_decode(s: Seq<u8>) -> Result<(Fields, nat), CodecError> {
    match fspec_chain(s, 0) {
        Ok(n) => decode_fields(s, s.subrange(0, n as int), 0, n, Seq::empty()),
        Err(e) => Err(e),
    }
}

pub open spec fn opt_view(o: Option<Vec<u8>>) -> Option<Seq<u8>> {
    match o {
        Some(v) => Some(v@),
        None => None,
    }
}

pub open spec fn slots_view(v: Seq<Option<Vec<u8>>>) -> Fields {
    v.map_values(|o: Option<Vec<u8>>| opt_view(o))
}

/// A category 048 record: one optional payload slot per catalog field.
#[derive(Debug, PartialEq, Eq)]
pub struct Cat48 {
    slots: Vec<Option<Vec<u8>>>,
}

impl View for Cat48 {
    type V = Fields;

    closed spec fn view(&self) -> Fields {
        slots_view(self.slots@)
    }
}

fn copy_range(s: &[u8], start: usize, end: usize) -> (r: Vec<u8>)
    requires
        start <= end <= s@.len(),
    ensures
        r@ == s@.subrange(start as int, end as int),
{
    let mut r: Vec<u8> = Vec::new();
    let mut k: usize = start;
    while k < end
        invariant
            start <= k <= end <= s@.len(),
            r@ == s@.subrange(start as int, k as int),
        decreases end - k,
    {
        r.push(s[k]);
        k = k + 1;
        assert(r@ =~= s@.subrange(start as int, k as int));
    }
    r
}

impl Cat48 {
    /// The record is well formed: it has one slot per catalog field.
    pub closed spec fn wf(&self) -> bool {
        self.slots@.len() == NUM_FIELDS
    }

    /// A record with no field present.
    pub fn new() -> (r: Cat48)
        ensures
            r.wf(),
            r@ == Seq::new(NUM_FIELDS as nat, |i: int| None::<Seq<u8>>),
    {
        let mut slots: Vec<Option<Vec<u8>>> = Vec::new();
        let mut i: usize = 0;
        while i < NUM_FIELDS
            invariant
                i <= NUM_FIELDS,
                slots@.len() == i,
                forall|k: int| 0 <= k < i ==> slots@[k] is None,
            decreases NUM_FIELDS - i,
        {
            slots.push(None);
            i = i + 1;
        }
        let r = Cat48 { slots };
        assert(r@ =~= Seq::new(NUM_FIELDS as nat, |i: int| None::<Seq<u8>>));
        r
    }

    /// The minimal FSPEC announcing the present fields: each present field's
    /// bit is set, trailing octets with no field present are dropped, and the
    /// continuation bit is set on every octet but the last.
    pub fn update_fspec(&self) -> (r: Vec<u8>)
        requires
            self.wf(),
        ensures
            r@ == canonical_fspec(self@),
    {
        let mut w: Vec<u8> = vec![0u8; FSPEC_BYTES];
        assert(w@ =~= working_fspec(self@, 0));
        let mut i: usize = 0;
        while i < NUM_FIELDS
            invariant
                i <= NUM_FIELDS,
                self.wf(),
                w@ == working_fspec(self@, i as nat),
                w@.len() == FSPEC_BYTES,
            decreases NUM_FIELDS - i,
        {
            assert(self@[i as int] == opt_view(self.slots@[i as int]));
            if self.slots[i].is_some() {
                let e = catalog_entry(i);
                let b = w[e.byte_index] | e.mask;
                w.set(e.byte_index, b);
            }
            i = i + 1;
        }
        let ghost full = w@;
        while w.len() > 0 && w[w.len() - 1] == 0
            invariant
                trimmed_len(w@) == trimmed_len(full),
                w@ == full.subrange(0, w@.len() as int),
                w@.len() <= full.len(),
            decreases w@.len(),
        {
            assert(w@.drop_last() =~= full.subrange(0, w@.len() - 1));
            w.pop();
        }
        assert(trimmed_len(w@) == w@.len());
        if w.len() == 0 {
            w.push(0);
            assert(w@ =~= with_fx(full.subrange(0, 0)));
            return w;
        }
        let ghost t = w@;
        let n: usize = w.len();
        let mut k: usize = 0;
        while k + 1 < n
            invariant
                n == t.len() >= 1,
                w@.len() == n,
                k < n,
                forall|j: int| 0 <= j < k ==> w@[j] == t[j] | 1,
                forall|j: int| k <= j < n ==> w@[j] == t[j],
            decreases n - k,
        {
            let b = w[k] | 1;
            w.set(k, b);
            k = k + 1;
        }
        assert(w@ =~= with_fx(t));
        w
    }
}

impl Cat48 {
    /// Encodes the record: the canonical FSPEC, then each present payload in
    /// catalog order. Fails on the first field whose payload is not one whole
    /// payload of its shape.
    pub fn encode(&self) -> (r: Result<Vec<u8>, CodecError>)
        requires
            self.wf(),
        ensures
            match spec_encode(self@) {
                Ok(bytes) => r is Ok && r->Ok_0@ == bytes,
                Err(e) => r == Err::<Vec<u8>, CodecError>(e),
            },
    {
        let mut i: usize = 0;
        while i < NUM_FIELDS
            invariant
                i <= NUM_FIELDS,
                self.wf(),
                first_malformed(self@, 0) == first_malformed(self@, i as nat),
            decreases NUM_FIELDS - i,
        {
            assert(self@[i as int] == opt_view(self.slots@[i as int]));
            match &self.slots[i] {
                Some(p) => {
                    let e = catalog_entry(i);
                    let res = payload_len(e.shape, p.as_slice(), 0, i);
                    assert(p@.subrange(0, p@.len() as int) =~= p@);
                    proof {
                        lemma_framing_bounded(e.shape, p@);
                    }
                    let whole = match res {
                        Ok(n) => n == p.len(),
                        Err(_) => false,
                    };
                    if !whole {
                        return Err(CodecError::FieldEncodeError { field: i });
                    }
                },
                None => {},
            }
            i = i + 1;
        }
        let mut out = self.update_fspec();
        let ghost fspec = out@;
        let mut i: usize = 0;
        while i < NUM_FIELDS
            invariant
                i <= NUM_FIELDS,
                self.wf(),
                out@ + payloads(self@, i as nat) == fspec + payloads(self@, 0),
            decreases NUM_FIELDS - i,
        {
            assert(self@[i as int] == opt_view(self.slots@[i as int]));
            let ghost before = out@;
            match &self.slots[i] {
                Some(p) => {
                    let mut k: usize = 0;
                    while k < p.len()
                        invariant
                            k <= p@.len(),
                            out@ == before + p@.subrange(0, k as int),
                        decreases p@.len() - k,
                    {
                        out.push(p[k]);
                        k = k + 1;
                        assert(out@ =~= before + p@.subrange(0, k as int));
                    }
                    assert(p@.subrange(0, p@.len() as int) =~= p@);
                    assert(before + (p@ + payloads(self@, (i + 1) as nat)) =~= out@ + payloads(
                        self@,
                        (i + 1) as nat,
                    ));
                },
                None => {},
            }
            i = i + 1;
        }
        assert(out@ =~= out@ + payloads(self@, NUM_FIELDS as nat));
        Ok(out)
    }

    /// Decodes one record from the start of `input`: the record and the
    /// number of octets it takes.
    pub fn decode(input: &[u8]) -> (r: Result<(Cat48, usize), CodecError>)
        ensures
            match spec_decode(input@) {
                Ok((fields, n)) => r is Ok && r->Ok_0.0.wf() && r->Ok_0.0@ == fields && r->Ok_0.1
                    == n,
                Err(e) => r is Err && r->Err_0 == e,
            },
    {
        let fspec = match read_fspec(input) {
            Ok(f) => f,
            Err(e) => {
                return Err(e);
            },
        };
        let ghost f = fspec@;
        proof {
            lemma_chain_bounded(input@, 0);
        }
        let input_len: usize = input.len();
        let mut pos: usize = fspec.len();
        let mut slots: Vec<Option<Vec<u8>>> = Vec::new();
        let mut i: usize = 0;
        assert(slots_view(slots@) =~= Seq::<Option<Seq<u8>>>::empty());
        while i < NUM_FIELDS
            invariant
                i <= NUM_FIELDS,
                pos <= input@.len(),
                input@.len() == input_len,
                slots@.len() == i,
                fspec@ == f,
                spec_decode(input@) == decode_fields(input@, f, i as nat, pos as nat, slots_view(slots@)),
            decreases NUM_FIELDS - i,
        {
            let e = catalog_entry(i);
            let ghost prev = slots@;
            if present(fspec.as_slice(), e.mask, e.byte_index) {
                let res = payload_len(e.shape, input, pos, i);
                proof {
                    lemma_framing_bounded(e.shape, input@.subrange(pos as int, input@.len() as int));
                }
                match res {
                    Ok(n) => {
                        let p = copy_range(input, pos, pos + n);
                        slots.push(Some(p));
                        pos = pos + n;
                    },
                    Err(err) => {
                        return Err(err);
                    },
                }
            } else {
                slots.push(None);
            }
            i = i + 1;
            assert(slots@.drop_last() =~= prev);
            assert(slots_view(slots@) =~= slots_view(prev).push(opt_view(slots@.last())));
        }
        let r = Cat48 { slots };
        assert(r@ == slots_view(slots@));
        Ok((r, pos))
    }
}

impl Cat48 {
    /// The payload of field `field`, if it is present.
    pub fn get(&self, field: usize) -> (r: Option<&Vec<u8>>)
        requires
            self.wf(),
            field < NUM_FIELDS,
        ensures
            match r {
                Some(p) => self@[field as int] == Some(p@),
                None => self@[field as int] is None,
            },
    {
        assert(self@[field as int] == opt_view(self.slots@[field as int]));
        match &self.slots[field] {
            Some(p) => Some(p),
            None => None,
        }
    }

    /// Sets field `field` to `value`: a payload, or `None` to make it absent.
    pub fn set(&mut self, field: usize, value: Option<Vec<u8>>)
        requires
            old(self).wf(),
            field < NUM_FIELDS,
        ensures
            final(self).wf(),
            final(self)@ == old(self)@.update(field as int, opt_view(value)),
    {
        self.slots.set(field, value);
        assert(self@ =~= old(self)@.update(field as int, opt_view(value)));
    }
}

} // verus!
