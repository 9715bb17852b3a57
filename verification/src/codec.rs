//! The codec: compressing a value against a schema into a minimal bit
//! stream, and reconstructing the value from the stream and the schema
//! alone.

use vstd::prelude::*;
use vstd::arithmetic::power2::pow2;
use crate::bits::{
    bit_width, bits_to_nat, lemma_bits_to_nat_bound, lemma_nat_to_bits_len,
    lemma_nat_to_bits_to_nat, nat_to_bits, padded, width_of,
};
use crate::buffer::BitBuffer;
use crate::compressed::Compressed;
use crate::error::{CompressError, DecompressError};
use crate::schema::{chunk_of, chunk_width, chunks_of, chunks_width, Schema, TAG_WIDTH, wf_schema};
use crate::value::{Value, ValueV, value_views, lemma_value_views_index};

verus! {

/// Does the value have the shape the schema describes: matching field
/// counts, a case index among the declared cases, and a payload exactly
/// where the case declares one?
pub open spec fn shape_matches(v: ValueV, s: Schema) -> bool
    decreases s,
{
    match (v, s) {
        (ValueV::Uint(_), Schema::Uint(_)) => true,
        (ValueV::Record(vs), Schema::Record(fields)) => vs.len() == fields@.len() && forall|i: int|
            0 <= i < fields@.len() ==> shape_matches(vs[i], #[trigger] fields@[i]),
        (ValueV::Variant(tag, payload), Schema::Variant(cases)) => tag < cases@.len() && (
        match cases@[tag as int] {
            Some(p) => payload matches Some(pv) && shape_matches(*pv, *p),
            None => payload is None,
        }),
        _ => false,
    }
}

/// Is every integer in the value within its declared inclusive bound?
pub open spec fn in_bounds(v: ValueV, s: Schema) -> bool
    decreases s,
{
    match (v, s) {
        (ValueV::Uint(x), Schema::Uint(m)) => x <= m as nat,
        (ValueV::Record(vs), Schema::Record(fields)) => forall|i: int|
            0 <= i < fields@.len() ==> (vs.len() == fields@.len() ==> in_bounds(
                vs[i],
                #[trigger] fields@[i],
            )),
        (ValueV::Variant(tag, payload), Schema::Variant(cases)) => tag < cases@.len() ==> (
        match cases@[tag as int] {
            Some(p) => payload matches Some(pv) ==> in_bounds(*pv, *p),
            None => true,
        }),
        _ => true,
    }
}

/// The bit stream of a value under a schema: integers in their minimal
/// width, record fields in declaration order, a variant as its fixed-width
/// discriminant followed by the payload of the active case.
pub open spec fn spec_encode(v: ValueV, s: Schema) -> Seq<bool>
    decreases s,
{
    match (v, s) {
        (ValueV::Uint(x), Schema::Uint(m)) => nat_to_bits(x, width_of(m as nat)),
        (ValueV::Record(vs), Schema::Record(fields)) => encode_fields(vs, fields@),
        (ValueV::Variant(tag, payload), Schema::Variant(cases)) => nat_to_bits(
            tag,
            TAG_WIDTH as nat,
        ) + (if tag < cases@.len() {
            match (payload, cases@[tag as int]) {
                (Some(pv), Some(p)) => spec_encode(*pv, *p),
                _ => Seq::empty(),
            }
        } else {
            Seq::empty()
        }),
        _ => Seq::empty(),
    }
}

/// The bit streams of a record's fields, concatenated in declaration order.
pub open spec fn encode_fields(vs: Seq<ValueV>, fields: Seq<Schema>) -> Seq<bool>
    decreases fields,
{
    if fields.len() == 0 || vs.len() == 0 {
        Seq::empty()
    } else {
        spec_encode(vs[0], fields[0]) + encode_fields(vs.drop_first(), fields.drop_first())
    }
}

/// The value a bit stream decodes to under a schema, with the bits left
/// over, or the error: too few bits, or a discriminant that names no case.
pub open spec fn spec_decode(bits: Seq<bool>, s: Schema) -> Result<
    (ValueV, Seq<bool>),
    DecompressError,
>
    decreases s,
{
    match s {
        Schema::Uint(m) => {
            let w = width_of(m as nat);
            if bits.len() < w {
                Err(DecompressError::WrongBytesLength)
            } else {
                Ok((ValueV::Uint(bits_to_nat(bits.take(w as int))), bits.skip(w as int)))
            }
        },
        Schema::Record(fields) => match decode_fields(bits, fields@) {
            Ok((vs, rest)) => Ok((ValueV::Record(vs), rest)),
            Err(e) => Err(e),
        },
        Schema::Variant(cases) => {
            if bits.len() < TAG_WIDTH {
                Err(DecompressError::WrongBytesLength)
            } else {
                let tag = bits_to_nat(bits.take(TAG_WIDTH as int));
                if tag >= cases@.len() {
                    Err(DecompressError::UnknownVariant)
                } else {
                    let rest = bits.skip(TAG_WIDTH as int);
                    match cases@[tag as int] {
                        None => Ok((ValueV::Variant(tag, None), rest)),
                        Some(p) => match spec_decode(rest, *p) {
                            Ok((pv, rest2)) => Ok(
                                (ValueV::Variant(tag, Some(Box::new(pv))), rest2),
                            ),
                            Err(e) => Err(e),
                        },
                    }
                }
            }
        },
    }
}

/// Round trip on bit streams: decoding an encoding recovers the value
/// exactly and leaves exactly the trailing bits, whatever they are.
pub proof fn lemma_encode_decode(v: ValueV, s: Schema, rest: Seq<bool>)
    requires
        wf_schema(s),
        shape_matches(v, s),
        in_bounds(v, s),
    ensures
        spec_decode(spec_encode(v, s) + rest, s) == Ok::<(ValueV, Seq<bool>), DecompressError>(
            (v, rest),
        ),
    decreases s,
{
    match (v, s) {
        (ValueV::Uint(x), Schema::Uint(m)) => {
            let w = width_of(m as nat);
            let enc = nat_to_bits(x, w);
            lemma_nat_to_bits_len(x, w);
            assert((enc + rest).take(w as int) =~= enc);
            assert((enc + rest).skip(w as int) =~= rest);
            lemma_nat_to_bits_to_nat(x, w);
            crate::bits::lemma_width_holds_bound(m as nat);
            vstd::arithmetic::div_mod::lemma_small_mod(x, pow2(w));
        },
        (ValueV::Record(vs), Schema::Record(fields)) => {
            lemma_encode_fields_decode(vs, fields@, rest);
        },
        (ValueV::Variant(tag, payload), Schema::Variant(cases)) => {
            let tb = nat_to_bits(tag, TAG_WIDTH as nat);
            lemma_nat_to_bits_len(tag, TAG_WIDTH as nat);
            assert(pow2(TAG_WIDTH as nat) == 16) by {
                vstd::arithmetic::power2::lemma2_to64();
            }
            lemma_nat_to_bits_to_nat(tag, TAG_WIDTH as nat);
            vstd::arithmetic::div_mod::lemma_small_mod(tag, pow2(TAG_WIDTH as nat));
            match cases@[tag as int] {
                Some(p) => {
                    match payload {
                        Some(pv) => {
                            let pe = spec_encode(*pv, *p);
                            let bits = spec_encode(v, s) + rest;
                            assert(bits.take(TAG_WIDTH as int) =~= tb);
                            assert(bits.skip(TAG_WIDTH as int) =~= pe + rest);
                            lemma_encode_decode(*pv, *p, rest);
                        },
                        None => {
                            assert(false);
                        },
                    }
                },
                None => {
                    let bits = spec_encode(v, s) + rest;
                    assert(bits.take(TAG_WIDTH as int) =~= tb);
                    assert(bits.skip(TAG_WIDTH as int) =~= rest);
                    assert(payload == Option::<Box<ValueV>>::None);
                },
            }
        },
        _ => {
            assert(false);
        },
    }
}

/// Round trip for the fields of a record, in declaration order.
pub proof fn lemma_encode_fields_decode(vs: Seq<ValueV>, fields: Seq<Schema>, rest: Seq<bool>)
    requires
        vs.len() == fields.len(),
        forall|i: int| 0 <= i < fields.len() ==> wf_schema(#[trigger] fields[i]),
        forall|i: int| 0 <= i < fields.len() ==> shape_matches(vs[i], #[trigger] fields[i]),
        forall|i: int| 0 <= i < fields.len() ==> in_bounds(vs[i], #[trigger] fields[i]),
    ensures
        decode_fields(encode_fields(vs, fields) + rest, fields) == Ok::<
            (Seq<ValueV>, Seq<bool>),
            DecompressError,
        >((vs, rest)),
    decreases fields,
{
    if fields.len() == 0 {
        assert(encode_fields(vs, fields) + rest =~= rest);
        assert(vs =~= Seq::<ValueV>::empty());
    } else {
        let e0 = spec_encode(vs[0], fields[0]);
        let erest = encode_fields(vs.drop_first(), fields.drop_first());
        let bits = encode_fields(vs, fields) + rest;
        assert(bits =~= e0 + (erest + rest));
        lemma_encode_decode(vs[0], fields[0], erest + rest);
        assert forall|i: int| 0 <= i < fields.drop_first().len() implies wf_schema(
            #[trigger] fields.drop_first()[i],
        ) && shape_matches(vs.drop_first()[i], fields.drop_first()[i]) && in_bounds(
            vs.drop_first()[i],
            fields.drop_first()[i],
        ) by {
            assert(fields.drop_first()[i] == fields[i + 1]);
            assert(vs.drop_first()[i] == vs[i + 1]);
        }
        lemma_encode_fields_decode(vs.drop_first(), fields.drop_first(), rest);
        assert(seq![vs[0]] + vs.drop_first() =~= vs);
    }
}

/// The values of a record's fields, decoded in declaration order.
pub open spec fn decode_fields(bits: Seq<bool>, fields: Seq<Schema>) -> Result<
    (Seq<ValueV>, Seq<bool>),
    DecompressError,
>
    decreases fields,
{
    if fields.len() == 0 {
        Ok((Seq::empty(), bits))
    } else {
        match spec_decode(bits, fields[0]) {
            Ok((v, rest)) => match decode_fields(rest, fields.drop_first()) {
                Ok((vs, rest2)) => Ok((seq![v] + vs, rest2)),
                Err(e) => Err(e),
            },
            Err(e) => Err(e),
        }
    }
}

/// Round trip, end to end: finalizing the encoding of a valid value and
/// decoding the padded bits under the same schema recovers the value
/// exactly; all that is left over is the zero padding of finalization.
pub proof fn lemma_round_trip(v: ValueV, s: Schema)
    requires
        wf_schema(s),
        shape_matches(v, s),
        in_bounds(v, s),
    ensures
        spec_decode(padded(spec_encode(v, s)), s) == Ok::<(ValueV, Seq<bool>), DecompressError>(
            (v, Seq::new(crate::bits::pad_len(spec_encode(v, s).len()), |i: int| false)),
        ),
{
    lemma_encode_decode(
        v,
        s,
        Seq::new(crate::bits::pad_len(spec_encode(v, s).len()), |i: int| false),
    );
}

/// Minimality: a bounded integer's encoding is exactly the minimal width
/// for its bound, whatever the value encoded — the width holds every value
/// up to the bound, and one bit fewer would not.
pub proof fn lemma_minimal_width(x: nat, m: u128)
    ensures
        spec_encode(ValueV::Uint(x), Schema::Uint(m)).len() == width_of(m as nat),
        width_of(m as nat) >= 1,
        m < pow2(width_of(m as nat)),
        width_of(m as nat) > 1 ==> pow2((width_of(m as nat) - 1) as nat) <= m,
{
    lemma_nat_to_bits_len(x, width_of(m as nat));
    crate::bits::lemma_width_holds_bound(m as nat);
    crate::bits::lemma_width_is_minimal(m as nat);
}

/// Discriminants: a variant value's encoding begins with the active case's
/// declaration index, written in the fixed discriminant width.
pub proof fn lemma_discriminant_is_case_index(
    tag: nat,
    payload: Option<Box<ValueV>>,
    cases: Vec<Option<Box<Schema>>>,
)
    requires
        shape_matches(ValueV::Variant(tag, payload), Schema::Variant(cases)),
    ensures
        spec_encode(ValueV::Variant(tag, payload), Schema::Variant(cases)).take(TAG_WIDTH as int)
            == nat_to_bits(tag, TAG_WIDTH as nat),
{
    lemma_nat_to_bits_len(tag, TAG_WIDTH as nat);
    assert(spec_encode(ValueV::Variant(tag, payload), Schema::Variant(cases)).take(
        TAG_WIDTH as int,
    ) =~= nat_to_bits(tag, TAG_WIDTH as nat));
}

/// Discriminants: a discriminant that names no declared case is rejected as
/// `UnknownVariant`.
pub proof fn lemma_unknown_variant(bits: Seq<bool>, cases: Vec<Option<Box<Schema>>>)
    requires
        bits.len() >= TAG_WIDTH,
        bits_to_nat(bits.take(TAG_WIDTH as int)) >= cases@.len(),
    ensures
        spec_decode(bits, Schema::Variant(cases)) == Err::<(ValueV, Seq<bool>), DecompressError>(
            DecompressError::UnknownVariant,
        ),
{
}

/// The layout tree announces the exact width of every encoding: where the
/// tree's width is statically fixed, a matching value's bit stream is
/// exactly that wide, whatever the value holds.
pub proof fn lemma_encoding_width(v: ValueV, s: Schema, n: nat)
    requires
        shape_matches(v, s),
        chunk_width(chunk_of(s)) == Some(n),
    ensures
        spec_encode(v, s).len() == n,
    decreases s,
{
    match (v, s) {
        (ValueV::Uint(x), Schema::Uint(m)) => {
            lemma_nat_to_bits_len(x, width_of(m as nat));
        },
        (ValueV::Record(vs), Schema::Record(fields)) => {
            lemma_encode_fields_width(vs, fields@, n);
        },
        _ => {},
    }
}

/// The summed case of the width law, over a record's fields.
pub proof fn lemma_encode_fields_width(vs: Seq<ValueV>, fields: Seq<Schema>, n: nat)
    requires
        vs.len() == fields.len(),
        forall|i: int| 0 <= i < fields.len() ==> shape_matches(vs[i], #[trigger] fields[i]),
        chunks_width(chunks_of(fields)) == Some(n),
    ensures
        encode_fields(vs, fields).len() == n,
    decreases fields,
{
    if fields.len() == 0 {
    } else {
        let cs = chunks_of(fields);
        assert(cs[0] == chunk_of(fields[0]));
        assert(cs.drop_first() =~= chunks_of(fields.drop_first()));
        let head = chunk_width(cs[0]);
        let tail = chunks_width(cs.drop_first());
        assert(head is Some && tail is Some);
        lemma_encoding_width(vs[0], fields[0], head->0);
        assert forall|i: int| 0 <= i < fields.drop_first().len() implies shape_matches(
            vs.drop_first()[i],
            #[trigger] fields.drop_first()[i],
        ) by {
            assert(fields.drop_first()[i] == fields[i + 1]);
            assert(vs.drop_first()[i] == vs[i + 1]);
        }
        lemma_encode_fields_width(vs.drop_first(), fields.drop_first(), tail->0);
    }
}

/// Appending one more field appends its encoding.
pub proof fn lemma_encode_fields_snoc(vs: Seq<ValueV>, fields: Seq<Schema>, v: ValueV, f: Schema)
    requires
        vs.len() == fields.len(),
    ensures
        encode_fields(vs.push(v), fields.push(f)) == encode_fields(vs, fields) + spec_encode(v, f),
    decreases fields,
{
    if fields.len() == 0 {
        assert(vs.push(v).drop_first() =~= Seq::<ValueV>::empty());
        assert(fields.push(f).drop_first() =~= Seq::<Schema>::empty());
        assert(vs.push(v)[0] == v);
        assert(fields.push(f)[0] == f);
        assert(encode_fields(vs.push(v), fields.push(f)) == spec_encode(v, f) + encode_fields(
            vs.push(v).drop_first(),
            fields.push(f).drop_first(),
        ));
        assert(encode_fields(vs.push(v), fields.push(f)) =~= encode_fields(vs, fields)
            + spec_encode(v, f));
    } else {
        lemma_encode_fields_snoc(vs.drop_first(), fields.drop_first(), v, f);
        assert(vs.push(v).drop_first() =~= vs.drop_first().push(v));
        assert(fields.push(f).drop_first() =~= fields.drop_first().push(f));
        assert(vs.push(v)[0] == vs[0]);
        assert(fields.push(f)[0] == fields[0]);
        let lhs = encode_fields(vs.push(v), fields.push(f));
        assert(lhs == spec_encode(vs[0], fields[0]) + encode_fields(
            vs.drop_first().push(v),
            fields.drop_first().push(f),
        ));
        assert(lhs == spec_encode(vs[0], fields[0]) + (encode_fields(
            vs.drop_first(),
            fields.drop_first(),
        ) + spec_encode(v, f)));
        assert(lhs =~= (spec_encode(vs[0], fields[0]) + encode_fields(
            vs.drop_first(),
            fields.drop_first(),
        )) + spec_encode(v, f));
    }
}

impl Schema {
    /// Compresses a value into an unaligned bit sequence.  A value over its
    /// declared bound is rejected whole: nothing is handed back but the
    /// error.
    pub fn compress_to_binaries(&self, value: &Value) -> (r: Result<Compressed, CompressError>)
        requires
            wf_schema(*self),
            shape_matches(value@, *self),
        ensures
            in_bounds(value@, *self) ==> (r matches Ok(c) && c is Binaries && c.bits()
                == spec_encode(value@, *self)),
            !in_bounds(value@, *self) ==> r == Err::<Compressed, CompressError>(
                CompressError::ValueExceedsMax,
            ),
        decreases self,
    {
        match (value, self) {
            (Value::Uint(x), Schema::Uint(m)) => {
                if *x > *m {
                    Err(CompressError::ValueExceedsMax)
                } else {
                    let mut buf = BitBuffer::new();
                    let w = bit_width(*m);
                    buf.append_bits(*x, w);
                    let bits = buf.into_bits();
                    proof {
                        assert(bits@ =~= spec_encode(value@, *self));
                    }
                    Ok(Compressed::Binaries(bits))
                }
            },
            (Value::Record(vals), Schema::Record(fields)) => {
                proof {
                    lemma_value_views_index(vals@);
                }
                let mut acc = Compressed::empty();
                let mut i: usize = 0;
                proof {
                    assert(acc.bits() =~= encode_fields(
                        value_views(vals@).take(0),
                        fields@.take(0),
                    ));
                }
                while i < fields.len()
                    invariant
                        *self == Schema::Record(*fields),
                        *value == Value::Record(*vals),
                        wf_schema(*self),
                        shape_matches(value@, *self),
                        vals@.len() == fields@.len(),
                        i <= fields@.len(),
                        acc is Binaries,
                        acc.bits() == encode_fields(
                            value_views(vals@).take(i as int),
                            fields@.take(i as int),
                        ),
                        forall|j: int|
                            0 <= j < i ==> in_bounds(
                                value_views(vals@)[j],
                                #[trigger] fields@[j],
                            ),
                    decreases fields.len() - i,
                {
                    proof {
                        lemma_value_views_index(vals@);
                        assert(decreases_to!(*self => self->Record_0));
                        assert(self->Record_0 == *fields);
                        assert(decreases_to!(*fields => fields@));
                        assert(decreases_to!(fields@ => fields@[i as int]));
                    }
                    match fields[i].compress_to_binaries(&vals[i]) {
                        Ok(c) => {
                            proof {
                                lemma_encode_fields_snoc(
                                    value_views(vals@).take(i as int),
                                    fields@.take(i as int),
                                    value_views(vals@)[i as int],
                                    fields@[i as int],
                                );
                                assert(value_views(vals@).take(i as int).push(
                                    value_views(vals@)[i as int],
                                ) =~= value_views(vals@).take(i + 1));
                                assert(fields@.take(i as int).push(fields@[i as int])
                                    =~= fields@.take(i + 1));
                            }
                            acc = acc.combine(c);
                            i = i + 1;
                        },
                        Err(e) => {
                            proof {
                                assert(!in_bounds(value_views(vals@)[i as int], fields@[i as int]));
                                assert(!in_bounds(value@, *self));
                            }
                            return Err(e);
                        },
                    }
                }
                proof {
                    lemma_value_views_index(vals@);
                    assert(value_views(vals@).take(vals@.len() as int) =~= value_views(vals@));
                    assert(fields@.take(fields@.len() as int) =~= fields@);
                }
                Ok(acc)
            },
            (Value::Variant(tag, payload), Schema::Variant(cases)) => {
                let mut buf = BitBuffer::new();
                buf.append_bits(*tag as u128, TAG_WIDTH);
                let tag_bits = Compressed::Binaries(buf.into_bits());
                proof {
                    assert(tag_bits.bits() =~= nat_to_bits(*tag as nat, TAG_WIDTH as nat));
                }
                match (&cases[*tag], payload) {
                    (Some(p), Some(pv)) => {
                        proof {
                            assert(decreases_to!(*self => self->Variant_0));
                            assert(self->Variant_0 == *cases);
                            assert(decreases_to!(*cases => cases@));
                            assert(decreases_to!(cases@ => cases@[*tag as int]));
                        }
                        match p.compress_to_binaries(pv) {
                            Ok(c) => Ok(tag_bits.combine(c)),
                            Err(e) => Err(e),
                        }
                    },
                    (None, None) => {
                        proof {
                            assert(spec_encode(value@, *self) =~= tag_bits.bits());
                        }
                        Ok(tag_bits)
                    },
                    _ => {
                        proof {
                            assert(false);
                        }
                        Err(CompressError::ValueExceedsMax)
                    },
                }
            },
            _ => {
                proof {
                    assert(false);
                }
                Err(CompressError::ValueExceedsMax)
            },
        }
    }

    /// Compresses a value and finalizes the result into bytes, padding with
    /// zero bits up to the next byte boundary.  A value over its declared
    /// bound is rejected whole: nothing is handed back but the error.
    pub fn compress(&self, value: &Value) -> (r: Result<Compressed, CompressError>)
        requires
            wf_schema(*self),
            shape_matches(value@, *self),
        ensures
            in_bounds(value@, *self) ==> (r matches Ok(c) && c is Bytes && c.bits() == padded(
                spec_encode(value@, *self),
            )),
            !in_bounds(value@, *self) ==> r == Err::<Compressed, CompressError>(
                CompressError::ValueExceedsMax,
            ),
    {
        match self.compress_to_binaries(value) {
            Ok(binaries) => Ok(Compressed::Bytes(binaries.to_bytes())),
            Err(e) => Err(e),
        }
    }

    /// Decompresses one value from the front of a bit buffer, consuming
    /// exactly the bits the schema assigns to it.
    pub fn decompress_from_binaries(&self, buf: &mut BitBuffer) -> (r: Result<
        Value,
        DecompressError,
    >)
        requires
            old(buf).wf(),
            wf_schema(*self),
        ensures
            final(buf).wf(),
            final(buf).written() == old(buf).written(),
            match spec_decode(old(buf).remaining(), *self) {
                Ok((v, rest)) => r matches Ok(val) && val@ == v && final(buf).remaining() == rest,
                Err(e) => r == Err::<Value, DecompressError>(e),
            },
        decreases self,
    {
        match self {
            Schema::Uint(m) => {
                let w = bit_width(*m);
                match buf.read_bits(w) {
                    Ok(x) => Ok(Value::Uint(x)),
                    Err(_) => Err(DecompressError::WrongBytesLength),
                }
            },
            Schema::Record(fields) => {
                let ghost rem0 = buf.remaining();
                let mut vals: Vec<Value> = Vec::new();
                let mut i: usize = 0;
                proof {
                    lemma_value_views_index(vals@);
                    assert(fields@.skip(0) =~= fields@);
                    assert(value_views(vals@) =~= Seq::<ValueV>::empty());
                }
                while i < fields.len()
                    invariant
                        *self == Schema::Record(*fields),
                        wf_schema(*self),
                        buf.wf(),
                        buf.written() == old(buf).written(),
                        rem0 == old(buf).remaining(),
                        i <= fields@.len(),
                        vals@.len() == i,
                        ({
                            match decode_fields(buf.remaining(), fields@.skip(i as int)) {
                                Ok((vs2, rest)) => decode_fields(rem0, fields@) == Ok::<
                                    (Seq<ValueV>, Seq<bool>),
                                    DecompressError,
                                >((value_views(vals@) + vs2, rest)),
                                Err(e) => decode_fields(rem0, fields@) == Err::<
                                    (Seq<ValueV>, Seq<bool>),
                                    DecompressError,
                                >(e),
                            }
                        }),
                    decreases fields.len() - i,
                {
                    proof {
                        assert(decreases_to!(*self => self->Record_0));
                        assert(self->Record_0 == *fields);
                        assert(decreases_to!(*fields => fields@));
                        assert(decreases_to!(fields@ => fields@[i as int]));
                        assert(fields@.skip(i as int)[0] == fields@[i as int]);
                        assert(fields@.skip(i as int).drop_first() =~= fields@.skip(i + 1));
                        assert(fields@.skip(i as int).len() > 0);
                    }
                    let ghost rem_before = buf.remaining();
                    match fields[i].decompress_from_binaries(buf) {
                        Ok(val) => {
                            let ghost prev = vals@;
                            vals.push(val);
                            proof {
                                lemma_value_views_index(prev);
                                lemma_value_views_index(vals@);
                                assert forall|k: int| 0 <= k < vals@.len() implies value_views(
                                    vals@,
                                )[k] == (value_views(prev).push(val@))[k] by {
                                    if k < prev.len() {
                                        assert(vals@[k] == prev[k]);
                                    } else {
                                        assert(vals@[k] == val);
                                    }
                                }
                                assert(value_views(vals@) =~= value_views(prev).push(val@));
                                match decode_fields(buf.remaining(), fields@.skip(i + 1)) {
                                    Ok((vs2, rest)) => {
                                        assert(value_views(prev) + (seq![val@] + vs2)
                                            =~= value_views(vals@) + vs2);
                                    },
                                    Err(_) => {},
                                }
                            }
                            i = i + 1;
                        },
                        Err(e) => {
                            proof {
                                assert(spec_decode(rem_before, fields@[i as int]) == Err::<
                                    (ValueV, Seq<bool>),
                                    DecompressError,
                                >(e));
                                assert(decode_fields(rem_before, fields@.skip(i as int)) == Err::<
                                    (Seq<ValueV>, Seq<bool>),
                                    DecompressError,
                                >(e));
                                assert(decode_fields(rem0, fields@) == Err::<
                                    (Seq<ValueV>, Seq<bool>),
                                    DecompressError,
                                >(e));
                            }
                            return Err(e);
                        },
                    }
                }
                proof {
                    assert(fields@.skip(fields@.len() as int) =~= Seq::<Schema>::empty());
                    assert(value_views(vals@) + Seq::<ValueV>::empty() =~= value_views(vals@));
                }
                Ok(Value::Record(vals))
            },
            Schema::Variant(cases) => {
                let tag128 = match buf.read_bits(TAG_WIDTH) {
                    Ok(t) => t,
                    Err(_) => {
                        return Err(DecompressError::WrongBytesLength);
                    },
                };
                proof {
                    lemma_bits_to_nat_bound(old(buf).remaining().take(TAG_WIDTH as int));
                    assert(pow2(TAG_WIDTH as nat) == 16) by {
                        vstd::arithmetic::power2::lemma2_to64();
                    }
                }
                if tag128 >= cases.len() as u128 {
                    return Err(DecompressError::UnknownVariant);
                }
                let tag = tag128 as usize;
                match &cases[tag] {
                    None => Ok(Value::Variant(tag, None)),
                    Some(p) => {
                        proof {
                            assert(decreases_to!(*self => self->Variant_0));
                            assert(self->Variant_0 == *cases);
                            assert(decreases_to!(*cases => cases@));
                            assert(decreases_to!(cases@ => cases@[tag as int]));
                        }
                        match p.decompress_from_binaries(buf) {
                            Ok(pv) => Ok(Value::Variant(tag, Some(Box::new(pv)))),
                            Err(e) => Err(e),
                        }
                    },
                }
            },
        }
    }

    /// Decompresses a value from a compressed form: the bits are recovered
    /// and read against the schema, which alone fixes the layout.  Bits past
    /// the value (the finalization padding) are ignored.
    pub fn decompress(&self, compressed: &Compressed) -> (r: Result<Value, DecompressError>)
        requires
            wf_schema(*self),
        ensures
            match spec_decode(compressed.bits(), *self) {
                Ok((v, _)) => r matches Ok(val) && val@ == v,
                Err(e) => r == Err::<Value, DecompressError>(e),
            },
    {
        let mut buf = compressed.to_binaries();
        self.decompress_from_binaries(&mut buf)
    }
}

} // verus!
