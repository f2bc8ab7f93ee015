//! The netlink attribute codec: tagged, length-prefixed, optionally nested
//! binary fields, padded to four-byte alignment.
//!
//! An attribute record on the wire is `{ length: u16, type: u16, payload }`
//! where `length` counts the four header bytes plus the payload, the top bit
//! of `type` marks a nested payload, and the record is followed by padding
//! up to the next four-byte boundary.  Unknown tags are preserved, never
//! rejected.

use vstd::prelude::*;

use crate::endian::{
    lemma_u16_le_round_trip, spec_u16_le, spec_u16_of_le, u16_from_le, u16_to_le,
};
use crate::err::DecodeError;
use crate::spec_align4;
use crate::spec_pad_len;
use crate::align4;

verus! {

/// Wire flag in the attribute `type` field marking a nested payload.
pub const NLA_F_NESTED: u16 = 0x8000;

/// Largest payload expressible in the 16-bit length field (which counts the
/// four header bytes as well).
pub const NLA_MAX_PAYLOAD: usize = 0xFFFB;

/// One decoded attribute: a tag, the nested-payload flag, and the payload
/// bytes with padding already stripped.
#[derive(Clone, Debug)]
pub struct NlAttr {
    pub tag: u16,
    pub nested: bool,
    pub payload: Vec<u8>,
}

/// Mathematical model of one attribute.
#[verifier::ext_equal]
pub ghost struct AttrV {
    pub tag: u16,
    pub nested: bool,
    pub payload: Seq<u8>,
}

impl View for NlAttr {
    type V = AttrV;

    open spec fn view(&self) -> AttrV {
        AttrV { tag: self.tag, nested: self.nested, payload: self.payload@ }
    }
}

/// Views of a sequence of attributes.
pub open spec fn attrs_view(s: Seq<NlAttr>) -> Seq<AttrV> {
    s.map_values(|a: NlAttr| a@)
}

/// An attribute that the wire format can carry: the tag leaves the two flag
/// bits free and the payload fits the length field.
pub open spec fn attr_wf(a: AttrV) -> bool {
    &&& a.tag < 0x4000
    &&& a.payload.len() <= NLA_MAX_PAYLOAD
}

pub open spec fn attrs_wf(s: Seq<AttrV>) -> bool {
    forall|i: int| 0 <= i < s.len() ==> attr_wf(#[trigger] s[i])
}

/// The `type` field as written: tag plus the nested flag.
pub open spec fn spec_type_field(a: AttrV) -> u16 {
    if a.nested {
        (a.tag + 0x8000) as u16
    } else {
        a.tag
    }
}

/// `n` zero bytes (attribute padding).
pub open spec fn spec_zeros(n: int) -> Seq<u8> {
    Seq::new(n as nat, |i: int| 0u8)
}

/// The wire encoding of one attribute: length, type, payload, padding.
pub open spec fn spec_enc_attr(a: AttrV) -> Seq<u8> {
    spec_u16_le((a.payload.len() + 4) as u16) + spec_u16_le(spec_type_field(a)) + a.payload
        + spec_zeros(spec_pad_len(a.payload.len() + 4 as int))
}

/// Encoded length of one attribute, padding included.
pub open spec fn spec_enc_attr_len(a: AttrV) -> int {
    spec_align4(a.payload.len() + 4 as int)
}

/// The wire encoding of an attribute sequence: the records in order.
pub open spec fn spec_enc_attrs(s: Seq<AttrV>) -> Seq<u8>
    decreases s.len(),
{
    if s.len() == 0 {
        Seq::empty()
    } else {
        spec_enc_attr(s[0]) + spec_enc_attrs(s.drop_first())
    }
}

/// The decoder as a mathematical function: a linear scan that reads one
/// length-prefixed record at a time.  It fails with `Truncated` where fewer
/// bytes remain than a header needs, and with `BadLength` where a record's
/// length field is under the header size or runs past the buffer.  A final
/// record whose padding the buffer does not carry is accepted, as the
/// kernel omits trailing padding.
pub open spec fn spec_dec_attrs(b: Seq<u8>) -> Result<Seq<AttrV>, DecodeError>
    decreases b.len(),
{
    if b.len() == 0 {
        Ok(Seq::empty())
    } else if b.len() < 4 {
        Err(DecodeError::Truncated)
    } else {
        let len = spec_u16_of_le(b[0], b[1]) as int;
        let tf = spec_u16_of_le(b[2], b[3]);
        if len < 4 || len > b.len() {
            Err(DecodeError::BadLength)
        } else {
            let a = AttrV {
                tag: if tf >= 0x8000 {
                    (tf - 0x8000) as u16
                } else {
                    tf
                },
                nested: tf >= 0x8000,
                payload: b.subrange(4, len),
            };
            let adv = if spec_align4(len) <= b.len() {
                spec_align4(len)
            } else {
                b.len() as int
            };
            match spec_dec_attrs(b.skip(adv)) {
                Ok(rest) => Ok(seq![a] + rest),
                Err(e) => Err(e),
            }
        }
    }
}

/// Prefix attributes already decoded onto the outcome of decoding the rest.
pub open spec fn dec_prepend(front: Seq<AttrV>, r: Result<Seq<AttrV>, DecodeError>) -> Result<
    Seq<AttrV>,
    DecodeError,
> {
    match r {
        Ok(rest) => Ok(front + rest),
        Err(e) => Err(e),
    }
}

/// Decoding inverts encoding: a well-formed attribute sequence is recovered
/// exactly from its wire bytes.
pub proof fn lemma_dec_enc(s: Seq<AttrV>)
    requires
        attrs_wf(s),
    ensures
        spec_dec_attrs(spec_enc_attrs(s)) == Ok::<Seq<AttrV>, DecodeError>(s),
    decreases s.len(),
{
    if s.len() == 0 {
        assert(spec_enc_attrs(s) == Seq::<u8>::empty());
        assert(s =~= Seq::<AttrV>::empty());
    } else {
        let a = s[0];
        let rest = s.drop_first();
        let ea = spec_enc_attr(a);
        let eb = spec_enc_attrs(rest);
        let b = spec_enc_attrs(s);
        assert(b == ea + eb);
        let len0 = a.payload.len() + 4;
        let pad = spec_pad_len(len0 as int);
        assert(ea.len() == spec_align4(len0 as int));
        assert(spec_align4(len0 as int) == len0 + pad);
        lemma_u16_le_round_trip(len0 as u16);
        lemma_u16_le_round_trip(spec_type_field(a));
        assert(b[0] == spec_u16_le(len0 as u16)[0]);
        assert(b[1] == spec_u16_le(len0 as u16)[1]);
        assert(b[2] == spec_u16_le(spec_type_field(a))[0]);
        assert(b[3] == spec_u16_le(spec_type_field(a))[1]);
        assert(spec_u16_of_le(b[0], b[1]) == len0);
        assert(spec_u16_of_le(b[2], b[3]) == spec_type_field(a));
        let tf = spec_type_field(a);
        assert(a.nested ==> tf >= 0x8000 && tf - 0x8000 == a.tag);
        assert(!a.nested ==> tf < 0x8000 && tf == a.tag);
        assert(b.subrange(4, len0 as int) =~= a.payload);
        assert(b.len() >= spec_align4(len0 as int));
        assert(b.skip(spec_align4(len0 as int)) =~= eb);
        lemma_dec_enc(rest);
        assert(spec_dec_attrs(b) == Ok::<Seq<AttrV>, DecodeError>(seq![a] + rest));
        assert(seq![a] + rest =~= s);
        assert(seq![a] + rest == s);
        assert(spec_dec_attrs(spec_enc_attrs(s)) == Ok::<Seq<AttrV>, DecodeError>(s));
    }
}

/// The total encoded length is the sum of the records' padded lengths;
/// appending one attribute grows the encoding by that attribute's padded
/// length.
pub proof fn lemma_enc_attrs_push(s: Seq<AttrV>, a: AttrV)
    ensures
        spec_enc_attrs(s.push(a)) == spec_enc_attrs(s) + spec_enc_attr(a),
        spec_enc_attrs(s.push(a)).len() == spec_enc_attrs(s).len() + spec_enc_attr_len(a),
    decreases s.len(),
{
    if s.len() == 0 {
        assert(s.push(a).drop_first() =~= s);
        assert(s.push(a)[0] == a);
        assert(spec_enc_attrs(s.push(a)) == spec_enc_attr(a) + spec_enc_attrs(s));
        assert(spec_enc_attr(a) + spec_enc_attrs(s) =~= spec_enc_attr(a));
        assert(spec_enc_attrs(s) + spec_enc_attr(a) =~= spec_enc_attr(a));
    } else {
        assert(s.push(a).drop_first() =~= s.drop_first().push(a));
        lemma_enc_attrs_push(s.drop_first(), a);
        assert(spec_enc_attrs(s.push(a)) == spec_enc_attr(s[0]) + (spec_enc_attrs(s.drop_first())
            + spec_enc_attr(a)));
        assert(spec_enc_attr(s[0]) + (spec_enc_attrs(s.drop_first()) + spec_enc_attr(a)) =~= (
        spec_enc_attr(s[0]) + spec_enc_attrs(s.drop_first())) + spec_enc_attr(a));
    }
    assert(spec_enc_attr(a).len() == spec_enc_attr_len(a));
}

/// Copy `v[a .. b]` into a fresh vector.
pub fn bytes_sub(v: &Vec<u8>, a: usize, b: usize) -> (r: Vec<u8>)
    requires
        a <= b && b <= v@.len(),
    ensures
        r@ == v@.subrange(a as int, b as int),
{
    let mut r: Vec<u8> = Vec::new();
    let mut j: usize = a;
    while j < b
        invariant
            a <= j <= b <= v@.len(),
            r@ == v@.subrange(a as int, j as int),
        decreases b - j,
    {
        r.push(v[j]);
        proof {
            assert(r@ =~= v@.subrange(a as int, j + 1 as int));
        }
        j = j + 1;
    }
    r
}

/// Serialize one attribute onto `out`: length, type, payload, padding.
pub fn encode_attr_onto(out: &mut Vec<u8>, a: &NlAttr)
    requires
        attr_wf(a@),
        old(out)@.len() + spec_enc_attr_len(a@) <= usize::MAX,
    ensures
        final(out)@ == old(out)@ + spec_enc_attr(a@),
{
    let len_field: u16 = (a.payload.len() + 4) as u16;
    let type_field: u16 = if a.nested {
        a.tag + 0x8000
    } else {
        a.tag
    };
    let (l0, l1) = u16_to_le(len_field);
    let (t0, t1) = u16_to_le(type_field);
    out.push(l0);
    out.push(l1);
    out.push(t0);
    out.push(t1);
    let mut j: usize = 0;
    while j < a.payload.len()
        invariant
            j <= a.payload.len(),
            out@ == old(out)@ + spec_u16_le((a@.payload.len() + 4) as u16) + spec_u16_le(
                spec_type_field(a@),
            ) + a@.payload.subrange(0, j as int),
        decreases a.payload.len() - j,
    {
        out.push(a.payload[j]);
        proof {
            assert(old(out)@ + spec_u16_le((a@.payload.len() + 4) as u16) + spec_u16_le(
                spec_type_field(a@),
            ) + a@.payload.subrange(0, j as int) + seq![a@.payload[j as int]] =~= old(out)@
                + spec_u16_le((a@.payload.len() + 4) as u16) + spec_u16_le(spec_type_field(a@))
                + a@.payload.subrange(0, j + 1 as int));
        }
        j = j + 1;
    }
    proof {
        assert(a@.payload.subrange(0, a@.payload.len() as int) =~= a@.payload);
    }
    let mut p: usize = (a.payload.len() + 4) % 4;
    if p != 0 {
        p = 4 - p;
    }
    proof {
        assert(p == spec_pad_len(a@.payload.len() + 4 as int));
    }
    let mut k: usize = 0;
    while k < p
        invariant
            k <= p,
            p == spec_pad_len(a@.payload.len() + 4 as int),
            out@ == old(out)@ + spec_u16_le((a@.payload.len() + 4) as u16) + spec_u16_le(
                spec_type_field(a@),
            ) + a@.payload + spec_zeros(k as int),
        decreases p - k,
    {
        out.push(0u8);
        proof {
            assert(spec_zeros(k as int).push(0u8) =~= spec_zeros(k + 1 as int));
            assert(old(out)@ + spec_u16_le((a@.payload.len() + 4) as u16) + spec_u16_le(
                spec_type_field(a@),
            ) + a@.payload + spec_zeros(k as int) + seq![0u8] =~= old(out)@ + spec_u16_le((
            a@.payload.len() + 4) as u16) + spec_u16_le(spec_type_field(a@)) + a@.payload
                + spec_zeros(k + 1 as int));
        }
        k = k + 1;
    }
    proof {
        assert(final(out)@ =~= old(out)@ + spec_enc_attr(a@));
    }
}

/// Serialize an attribute sequence to its wire bytes.
pub fn encode_attrs(attrs: &Vec<NlAttr>) -> (r: Vec<u8>)
    requires
        attrs_wf(attrs_view(attrs@)),
        spec_enc_attrs(attrs_view(attrs@)).len() <= usize::MAX,
    ensures
        r@ == spec_enc_attrs(attrs_view(attrs@)),
{
    let mut out: Vec<u8> = Vec::new();
    let mut i: usize = 0;
    while i < attrs.len()
        invariant
            i <= attrs@.len(),
            attrs_wf(attrs_view(attrs@)),
            spec_enc_attrs(attrs_view(attrs@)).len() <= usize::MAX,
            out@ == spec_enc_attrs(attrs_view(attrs@).take(i as int)),
        decreases attrs@.len() - i,
    {
        proof {
            assert(attrs_view(attrs@)[i as int] == attrs@[i as int]@);
            assert(attr_wf(attrs@[i as int]@));
            lemma_enc_attrs_push(attrs_view(attrs@).take(i as int), attrs@[i as int]@);
            assert(attrs_view(attrs@).take(i as int).push(attrs@[i as int]@) =~= attrs_view(
                attrs@,
            ).take(i + 1 as int));
            lemma_enc_attrs_prefix_len(attrs_view(attrs@), i + 1 as int);
            assert(out@.len() + spec_enc_attr_len(attrs@[i as int]@) == spec_enc_attrs(
                attrs_view(attrs@).take(i + 1 as int),
            ).len());
        }
        encode_attr_onto(&mut out, &attrs[i]);
        i = i + 1;
    }
    proof {
        assert(attrs_view(attrs@).take(attrs@.len() as int) =~= attrs_view(attrs@));
    }
    out
}

/// The encoding of a prefix is a prefix of the encoding: its length never
/// exceeds the whole encoding's length.
pub proof fn lemma_enc_attrs_prefix_len(s: Seq<AttrV>, n: int)
    requires
        0 <= n <= s.len(),
    ensures
        spec_enc_attrs(s.take(n)).len() <= spec_enc_attrs(s).len(),
    decreases s.len() - n,
{
    if n == s.len() {
        assert(s.take(n) =~= s);
    } else {
        lemma_enc_attrs_push(s.take(n), s[n]);
        assert(s.take(n).push(s[n]) =~= s.take(n + 1));
        lemma_enc_attrs_prefix_len(s, n + 1);
        assert(spec_enc_attr(s[n]).len() >= 0);
    }
}

/// Parse a buffer into its attribute sequence, exactly as the specification
/// decoder reads it; fails precisely where that decoder does.
pub fn decode_attrs(buf: &Vec<u8>) -> (r: Result<Vec<NlAttr>, DecodeError>)
    ensures
        match (r, spec_dec_attrs(buf@)) {
            (Ok(attrs), Ok(s)) => attrs_view(attrs@) == s,
            (Err(e), Err(se)) => e == se,
            _ => false,
        },
{
    let mut out: Vec<NlAttr> = Vec::new();
    let mut i: usize = 0;
    proof {
        assert(buf@.skip(0) =~= buf@);
        assert(attrs_view(out@) =~= Seq::<AttrV>::empty());
        match spec_dec_attrs(buf@) {
            Ok(rest) => {
                assert(attrs_view(out@) + rest =~= rest);
            },
            Err(_) => {},
        }
    }
    while i < buf.len()
        invariant
            i <= buf@.len(),
            spec_dec_attrs(buf@) == dec_prepend(
                attrs_view(out@),
                spec_dec_attrs(buf@.skip(i as int)),
            ),
        decreases buf@.len() - i,
    {
        let ghost b = buf@.skip(i as int);
        if buf.len() - i < 4 {
            proof {
                assert(spec_dec_attrs(b) == Err::<Seq<AttrV>, DecodeError>(DecodeError::Truncated));
            }
            return Err(DecodeError::Truncated);
        }
        let len: usize = u16_from_le(buf[i], buf[i + 1]) as usize;
        let tf: u16 = u16_from_le(buf[i + 2], buf[i + 3]);
        proof {
            assert(b[0] == buf@[i as int]);
            assert(b[1] == buf@[i + 1]);
            assert(b[2] == buf@[i + 2]);
            assert(b[3] == buf@[i + 3]);
        }
        if len < 4 || len > buf.len() - i {
            proof {
                assert(spec_dec_attrs(b) == Err::<Seq<AttrV>, DecodeError>(DecodeError::BadLength));
            }
            return Err(DecodeError::BadLength);
        }
        let payload = bytes_sub(buf, i + 4, i + len);
        let (tag, nested) = if tf >= 0x8000 {
            (tf - 0x8000, true)
        } else {
            (tf, false)
        };
        let a = NlAttr { tag, nested, payload };
        proof {
            assert(b.subrange(4, len as int) =~= buf@.subrange(i + 4, i + len));
        }
        let aligned = align4(len);
        let next: usize = if aligned <= buf.len() - i {
            i + aligned
        } else {
            buf.len()
        };
        proof {
            let adv = next - i;
            assert(b.len() == buf@.len() - i);
            assert(adv == if spec_align4(len as int) <= b.len() {
                spec_align4(len as int)
            } else {
                b.len() as int
            });
            assert(b.skip(adv as int) =~= buf@.skip(next as int));
            match spec_dec_attrs(buf@.skip(next as int)) {
                Ok(rest) => {
                    assert(spec_dec_attrs(b) == Ok::<Seq<AttrV>, DecodeError>(seq![a@] + rest));
                    assert(attrs_view(out@.push(a)) =~= attrs_view(out@).push(a@));
                    assert(attrs_view(out@) + (seq![a@] + rest) =~= attrs_view(out@).push(a@)
                        + rest);
                    assert(spec_dec_attrs(buf@) == Ok::<Seq<AttrV>, DecodeError>(attrs_view(
                        out@.push(a),
                    ) + rest));
                },
                Err(e) => {
                    assert(spec_dec_attrs(b) == Err::<Seq<AttrV>, DecodeError>(e));
                },
            }
        }
        out.push(a);
        i = next;
    }
    proof {
        assert(buf@.skip(i as int) =~= Seq::<u8>::empty());
        assert(spec_dec_attrs(buf@.skip(i as int)) == Ok::<Seq<AttrV>, DecodeError>(
            Seq::<AttrV>::empty(),
        ));
        assert(attrs_view(out@) + Seq::<AttrV>::empty() =~= attrs_view(out@));
    }
    Ok(out)
}

/// Well-formedness of a concatenation, from its parts.
pub proof fn lemma_attrs_wf_concat(x: Seq<AttrV>, y: Seq<AttrV>)
    requires
        attrs_wf(x),
        attrs_wf(y),
    ensures
        attrs_wf(x + y),
{
    assert forall|i: int| 0 <= i < (x + y).len() implies attr_wf(#[trigger] (x + y)[i]) by {
        if i < x.len() {
            assert((x + y)[i] == x[i]);
        } else {
            assert((x + y)[i] == y[i - x.len()]);
        }
    }
}

/// Copy of a byte vector.
pub fn bytes_copy(v: &Vec<u8>) -> (r: Vec<u8>)
    ensures
        r@ == v@,
{
    let r = bytes_sub(v, 0, v.len());
    proof {
        assert(v@.subrange(0, v@.len() as int) =~= v@);
    }
    r
}

/// Byte-wise equality of two vectors.
pub fn bytes_eq(a: &Vec<u8>, b: &Vec<u8>) -> (r: bool)
    ensures
        r == (a@ == b@),
{
    if a.len() != b.len() {
        return false;
    }
    let mut i: usize = 0;
    while i < a.len()
        invariant
            i <= a@.len(),
            a@.len() == b@.len(),
            forall|j: int| 0 <= j < i ==> a@[j] == b@[j],
        decreases a@.len() - i,
    {
        if a[i] != b[i] {
            return false;
        }
        i = i + 1;
    }
    proof {
        assert(a@ =~= b@);
    }
    true
}

/// A 16-bit scalar payload read in host order, or a size-mismatch error.
pub open spec fn spec_read_u16(p: Seq<u8>) -> Result<u16, DecodeError> {
    if p.len() == 2 {
        Ok(spec_u16_of_le(p[0], p[1]))
    } else {
        Err(DecodeError::UnexpectedPayloadSize)
    }
}

/// A 32-bit scalar payload read in host order, or a size-mismatch error.
pub open spec fn spec_read_u32(p: Seq<u8>) -> Result<u32, DecodeError> {
    if p.len() == 4 {
        Ok(crate::endian::spec_u32_of_le(p[0], p[1], p[2], p[3]))
    } else {
        Err(DecodeError::UnexpectedPayloadSize)
    }
}

/// A single-byte payload, or a size-mismatch error.
pub open spec fn spec_read_u8(p: Seq<u8>) -> Result<u8, DecodeError> {
    if p.len() == 1 {
        Ok(p[0])
    } else {
        Err(DecodeError::UnexpectedPayloadSize)
    }
}

pub fn read_u16(p: &Vec<u8>) -> (r: Result<u16, DecodeError>)
    ensures
        r == spec_read_u16(p@),
{
    if p.len() == 2 {
        Ok(u16_from_le(p[0], p[1]))
    } else {
        Err(DecodeError::UnexpectedPayloadSize)
    }
}

pub fn read_u32(p: &Vec<u8>) -> (r: Result<u32, DecodeError>)
    ensures
        r == spec_read_u32(p@),
{
    if p.len() == 4 {
        Ok(crate::endian::u32_from_le(p[0], p[1], p[2], p[3]))
    } else {
        Err(DecodeError::UnexpectedPayloadSize)
    }
}

pub fn read_u8(p: &Vec<u8>) -> (r: Result<u8, DecodeError>)
    ensures
        r == spec_read_u8(p@),
{
    if p.len() == 1 {
        Ok(p[0])
    } else {
        Err(DecodeError::UnexpectedPayloadSize)
    }
}

/// The first attribute carrying `tag`, if any: the index the lookup returns.
pub open spec fn spec_find_attr(s: Seq<AttrV>, tag: u16) -> Option<int>
    decreases s.len(),
{
    if s.len() == 0 {
        None
    } else if s[0].tag == tag {
        Some(0)
    } else {
        match spec_find_attr(s.drop_first(), tag) {
            Some(i) => Some(i + 1),
            None => None,
        }
    }
}

/// Payload of the first attribute carrying `tag`, if any.
pub open spec fn spec_lookup(s: Seq<AttrV>, tag: u16) -> Option<Seq<u8>> {
    match spec_find_attr(s, tag) {
        Some(i) => Some(s[i].payload),
        None => None,
    }
}

/// The found index is the first match.
pub proof fn lemma_find_attr(s: Seq<AttrV>, tag: u16)
    ensures
        match spec_find_attr(s, tag) {
            Some(i) => 0 <= i < s.len() && s[i].tag == tag && forall|j: int|
                0 <= j < i ==> s[j].tag != tag,
            None => forall|j: int| 0 <= j < s.len() ==> s[j].tag != tag,
        },
    decreases s.len(),
{
    if s.len() == 0 {
    } else if s[0].tag == tag {
    } else {
        lemma_find_attr(s.drop_first(), tag);
        match spec_find_attr(s.drop_first(), tag) {
            Some(i) => {
                assert(s.drop_first()[i] == s[i + 1]);
                assert forall|j: int| 0 <= j < i + 1 implies s[j].tag != tag by {
                    if j > 0 {
                        assert(s.drop_first()[j - 1] == s[j]);
                    }
                }
            },
            None => {
                assert forall|j: int| 0 <= j < s.len() implies s[j].tag != tag by {
                    if j > 0 {
                        assert(s.drop_first()[j - 1] == s[j]);
                    }
                }
            },
        }
    }
}

/// Borrow the payload of the first attribute with the given tag.
pub fn lookup<'a>(attrs: &'a Vec<NlAttr>, tag: u16) -> (r: Option<&'a Vec<u8>>)
    ensures
        match r {
            Some(p) => spec_lookup(attrs_view(attrs@), tag) == Some(p@),
            None => spec_lookup(attrs_view(attrs@), tag) is None,
        },
{
    proof {
        lemma_find_attr(attrs_view(attrs@), tag);
    }
    let mut i: usize = 0;
    while i < attrs.len()
        invariant
            i <= attrs@.len(),
            forall|j: int| 0 <= j < i ==> attrs_view(attrs@)[j].tag != tag,
        decreases attrs@.len() - i,
    {
        if attrs[i].tag == tag {
            proof {
                lemma_find_attr(attrs_view(attrs@), tag);
                assert(attrs_view(attrs@)[i as int] == attrs@[i as int]@);
                let k = spec_find_attr(attrs_view(attrs@), tag);
                assert(k == Some(i as int));
            }
            return Some(&attrs[i].payload);
        }
        proof {
            assert(attrs_view(attrs@)[i as int] == attrs@[i as int]@);
        }
        i = i + 1;
    }
    None
}

} // verus!
