//! The record codec: one self-describing binary encoding shared by every
//! backend.
//!
//! A value is a tag byte followed by its payload. Integers carry a sign byte
//! and a 16-byte little-endian magnitude; text carries a 4-byte little-endian
//! byte length and UTF-8 bytes; lists and objects carry a 4-byte entry count
//! followed by their entries. A record is encoded as an object whose keys are
//! `data`, `expiry_date` and `id`; the decoder ignores keys it does not know,
//! so additive fields do not break older readers. Encoding is pure and
//! deterministic; decoding fails closed on malformed or truncated input.
use vstd::prelude::*;
use vstd::bytes::{spec_u128_from_le_bytes, spec_u128_to_le_bytes, spec_u32_from_le_bytes,
    spec_u32_to_le_bytes};
use vstd::string::StringSliceAdditionalSpecFns;
use vstd::utf8::{decode_utf8, encode_utf8, valid_utf8};

use crate::record::{lemma_pair_models_index, lemma_value_models_index, pair_models, value_models,
    DataValue, Record, RecordModel, SessionId, ValueModel};

verus! {

pub const TAG_NULL: u8 = 0;

pub const TAG_FALSE: u8 = 1;

pub const TAG_TRUE: u8 = 2;

pub const TAG_INT: u8 = 3;

pub const TAG_TEXT: u8 = 4;

pub const TAG_LIST: u8 = 5;

pub const TAG_OBJECT: u8 = 6;

/// The magnitude stored for an integer: the value itself when non-negative,
/// otherwise the ones' complement `-(i + 1)`, which always fits in `u128`.
pub open spec fn spec_int_magnitude(i: i128) -> u128 {
    if i >= 0 {
        i as u128
    } else {
        (-(i + 1)) as u128
    }
}

/// The sign byte stored for an integer: 0 for non-negative, 1 for negative.
pub open spec fn spec_int_sign(i: i128) -> u8 {
    if i >= 0 {
        0u8
    } else {
        1u8
    }
}

/// The 17-byte payload of an integer: a sign byte, then the magnitude in
/// little-endian order.
pub open spec fn spec_encode_int(i: i128) -> Seq<u8> {
    seq![spec_int_sign(i)] + spec_u128_to_le_bytes(spec_int_magnitude(i))
}

/// A length-prefixed string: a 4-byte little-endian byte count, then the
/// UTF-8 bytes of the string.
pub open spec fn spec_encode_str(s: Seq<char>) -> Seq<u8> {
    spec_u32_to_le_bytes(encode_utf8(s).len() as u32) + encode_utf8(s)
}

/// The encoding of one value: a tag byte followed by its payload.
pub open spec fn spec_encode_value(m: ValueModel) -> Seq<u8>
    decreases m,
{
    match m {
        ValueModel::Null => seq![TAG_NULL],
        ValueModel::Bool(b) => if b {
            seq![TAG_TRUE]
        } else {
            seq![TAG_FALSE]
        },
        ValueModel::Int(i) => seq![TAG_INT] + spec_encode_int(i),
        ValueModel::Text(s) => seq![TAG_TEXT] + spec_encode_str(s),
        ValueModel::List(vs) => seq![TAG_LIST] + spec_u32_to_le_bytes(vs.len() as u32)
            + spec_encode_values(vs),
        ValueModel::Object(ps) => seq![TAG_OBJECT] + spec_u32_to_le_bytes(ps.len() as u32)
            + spec_encode_pairs(ps),
    }
}

/// The concatenated encodings of a sequence of values.
pub open spec fn spec_encode_values(vs: Seq<ValueModel>) -> Seq<u8>
    decreases vs,
{
    if vs.len() == 0 {
        Seq::empty()
    } else {
        spec_encode_value(vs[0]) + spec_encode_values(vs.drop_first())
    }
}

/// The concatenated encodings of a sequence of key/value pairs: each entry is
/// a length-prefixed key string followed by the value.
pub open spec fn spec_encode_pairs(ps: Seq<(Seq<char>, ValueModel)>) -> Seq<u8>
    decreases ps,
{
    if ps.len() == 0 {
        Seq::empty()
    } else {
        spec_encode_str(ps[0].0) + spec_encode_value(ps[0].1) + spec_encode_pairs(ps.drop_first())
    }
}

/// Whether a value can be encoded: every string's UTF-8 byte length and every
/// entry count must fit the 4-byte length fields.
pub open spec fn encodable_value(m: ValueModel) -> bool
    decreases m,
{
    match m {
        ValueModel::Null => true,
        ValueModel::Bool(_) => true,
        ValueModel::Int(_) => true,
        ValueModel::Text(s) => encode_utf8(s).len() <= u32::MAX,
        ValueModel::List(vs) => vs.len() <= u32::MAX && encodable_values(vs),
        ValueModel::Object(ps) => ps.len() <= u32::MAX && encodable_pairs(ps),
    }
}

/// Whether every value of a sequence is encodable.
pub open spec fn encodable_values(vs: Seq<ValueModel>) -> bool
    decreases vs,
{
    vs.len() == 0 || (encodable_value(vs[0]) && encodable_values(vs.drop_first()))
}

/// Whether every pair of a sequence has an encodable key and value.
pub open spec fn encodable_pairs(ps: Seq<(Seq<char>, ValueModel)>) -> bool
    decreases ps,
{
    ps.len() == 0 || (encode_utf8(ps[0].0).len() <= u32::MAX && encodable_value(ps[0].1)
        && encodable_pairs(ps.drop_first()))
}

/// Decodes a length-prefixed string from the front of `b`: the decoded
/// characters and the number of bytes consumed, or `None` if the input is
/// truncated or not valid UTF-8.
pub open spec fn spec_decode_str(b: Seq<u8>) -> Option<(Seq<char>, int)> {
    if b.len() < 4 {
        None
    } else {
        let n = spec_u32_from_le_bytes(b.subrange(0, 4)) as int;
        if b.len() < 4 + n {
            None
        } else {
            let bytes = b.subrange(4, 4 + n);
            if valid_utf8(bytes) {
                Some((decode_utf8(bytes), 4 + n))
            } else {
                None
            }
        }
    }
}

/// Decodes one value from the front of `b`: the value and the number of bytes
/// consumed, or `None` if the input is malformed or truncated.
pub open spec fn spec_decode_value(b: Seq<u8>) -> Option<(ValueModel, int)>
    decreases b.len(), 0nat, 0nat,
{
    if b.len() < 1 {
        None
    } else if b[0] == TAG_NULL {
        Some((ValueModel::Null, 1))
    } else if b[0] == TAG_FALSE {
        Some((ValueModel::Bool(false), 1))
    } else if b[0] == TAG_TRUE {
        Some((ValueModel::Bool(true), 1))
    } else if b[0] == TAG_INT {
        if b.len() < 18 {
            None
        } else {
            let mag = spec_u128_from_le_bytes(b.subrange(2, 18));
            if mag <= i128::MAX as u128 {
                if b[1] == 0 {
                    Some((ValueModel::Int(mag as i128), 18))
                } else if b[1] == 1 {
                    Some((ValueModel::Int((-(mag as i128) - 1) as i128), 18))
                } else {
                    None
                }
            } else {
                None
            }
        }
    } else if b[0] == TAG_TEXT {
        match spec_decode_str(b.skip(1)) {
            Some((s, c)) => Some((ValueModel::Text(s), 1 + c)),
            None => None,
        }
    } else if b[0] == TAG_LIST {
        if b.len() < 5 {
            None
        } else {
            let n = spec_u32_from_le_bytes(b.subrange(1, 5));
            match spec_decode_values(b.skip(5), n as int) {
                Some((vs, c)) => Some((ValueModel::List(vs), 5 + c)),
                None => None,
            }
        }
    } else if b[0] == TAG_OBJECT {
        if b.len() < 5 {
            None
        } else {
            let n = spec_u32_from_le_bytes(b.subrange(1, 5));
            match spec_decode_pairs(b.skip(5), n as int) {
                Some((ps, c)) => Some((ValueModel::Object(ps), 5 + c)),
                None => None,
            }
        }
    } else {
        None
    }
}

/// Decodes `n` consecutive values from the front of `b`.
pub open spec fn spec_decode_values(b: Seq<u8>, n: int) -> Option<(Seq<ValueModel>, int)>
    decreases b.len(), 1nat, n,
{
    if n <= 0 {
        Some((Seq::empty(), 0))
    } else {
        match spec_decode_value(b) {
            None => None,
            Some((v, c)) => {
                if c < 1 || c > b.len() {
                    None
                } else {
                    match spec_decode_values(b.skip(c), n - 1) {
                        None => None,
                        Some((vs, c2)) => Some((seq![v] + vs, c + c2)),
                    }
                }
            },
        }
    }
}

/// Decodes `n` consecutive key/value pairs from the front of `b`.
pub open spec fn spec_decode_pairs(b: Seq<u8>, n: int) -> Option<
    (Seq<(Seq<char>, ValueModel)>, int),
>
    decreases b.len(), 1nat, n,
{
    if n <= 0 {
        Some((Seq::empty(), 0))
    } else {
        match spec_decode_str(b) {
            None => None,
            Some((k, ck)) => {
                if ck < 1 || ck > b.len() {
                    None
                } else {
                    match spec_decode_value(b.skip(ck)) {
                        None => None,
                        Some((v, cv)) => {
                            if cv < 1 || ck + cv > b.len() {
                                None
                            } else {
                                match spec_decode_pairs(b.skip(ck + cv), n - 1) {
                                    None => None,
                                    Some((ps, c2)) => Some(
                                        (seq![(k, v)] + ps, ck + cv + c2),
                                    ),
                                }
                            }
                        },
                    }
                }
            },
        }
    }
}

/// A length-prefixed string decodes back to the characters it was encoded
/// from, whatever bytes follow it.
pub proof fn lemma_decode_encode_str(s: Seq<char>, rest: Seq<u8>)
    requires
        encode_utf8(s).len() <= u32::MAX,
    ensures
        spec_encode_str(s).len() == 4 + encode_utf8(s).len(),
        spec_decode_str(spec_encode_str(s) + rest) == Some((s, spec_encode_str(s).len() as int)),
{
    broadcast use vstd::utf8::encode_utf8_valid_utf8;
    broadcast use vstd::utf8::encode_utf8_decode_utf8;

    vstd::bytes::lemma_auto_spec_u32_to_from_le_bytes();
    let n = encode_utf8(s).len() as int;
    let enc = spec_encode_str(s);
    let b = enc + rest;
    assert(b.subrange(0, 4) =~= spec_u32_to_le_bytes(encode_utf8(s).len() as u32));
    assert(b.subrange(4, 4 + n) =~= encode_utf8(s));
}

/// A tagged integer decodes back to the value it was encoded from, whatever
/// bytes follow it.
pub proof fn lemma_decode_encode_int(i: i128, rest: Seq<u8>)
    ensures
        spec_encode_int(i).len() == 17,
        spec_decode_value(seq![TAG_INT] + spec_encode_int(i) + rest) == Some(
            (ValueModel::Int(i), 18int),
        ),
{
    vstd::bytes::lemma_auto_spec_u128_to_from_le_bytes();
    let mag = spec_int_magnitude(i);
    let b = seq![TAG_INT] + spec_encode_int(i) + rest;
    assert(b.subrange(2, 18) =~= spec_u128_to_le_bytes(mag));
    assert(b[0] == TAG_INT);
    assert(b[1] == spec_int_sign(i));
    assert(mag <= i128::MAX as u128);
    if i >= 0 {
        assert(mag as i128 == i);
    } else {
        assert(-(mag as i128) - 1 == i);
    }
}

/// Round trip for one value: decoding the encoding of an encodable value
/// yields that value and consumes exactly its encoding, whatever follows it.
pub proof fn lemma_decode_encode_value(m: ValueModel, rest: Seq<u8>)
    requires
        encodable_value(m),
    ensures
        spec_encode_value(m).len() >= 1,
        spec_decode_value(spec_encode_value(m) + rest) == Some(
            (m, spec_encode_value(m).len() as int),
        ),
    decreases m,
{
    vstd::bytes::lemma_auto_spec_u32_to_from_le_bytes();
    let enc = spec_encode_value(m);
    let b = enc + rest;
    match m {
        ValueModel::Null => {
            assert(b[0] == TAG_NULL);
        },
        ValueModel::Bool(v) => {
            if v {
                assert(b[0] == TAG_TRUE);
            } else {
                assert(b[0] == TAG_FALSE);
            }
        },
        ValueModel::Int(i) => {
            lemma_decode_encode_int(i, rest);
            assert(b =~= seq![TAG_INT] + spec_encode_int(i) + rest);
        },
        ValueModel::Text(s) => {
            lemma_decode_encode_str(s, rest);
            assert(b[0] == TAG_TEXT);
            assert(b.skip(1) =~= spec_encode_str(s) + rest);
        },
        ValueModel::List(vs) => {
            let items = spec_encode_values(vs);
            lemma_decode_encode_values(vs, rest);
            assert(b[0] == TAG_LIST);
            assert(b.subrange(1, 5) =~= spec_u32_to_le_bytes(vs.len() as u32));
            assert(b.skip(5) =~= items + rest);
        },
        ValueModel::Object(ps) => {
            let items = spec_encode_pairs(ps);
            lemma_decode_encode_pairs(ps, rest);
            assert(b[0] == TAG_OBJECT);
            assert(b.subrange(1, 5) =~= spec_u32_to_le_bytes(ps.len() as u32));
            assert(b.skip(5) =~= items + rest);
        },
    }
}

/// Round trip for a sequence of values, decoded with its own length as the
/// expected count.
pub proof fn lemma_decode_encode_values(vs: Seq<ValueModel>, rest: Seq<u8>)
    requires
        encodable_values(vs),
    ensures
        spec_decode_values(spec_encode_values(vs) + rest, vs.len() as int) == Some(
            (vs, spec_encode_values(vs).len() as int),
        ),
    decreases vs,
{
    if vs.len() == 0 {
        assert(spec_encode_values(vs) + rest =~= rest);
    } else {
        let v0 = vs[0];
        let tail = vs.drop_first();
        let e0 = spec_encode_value(v0);
        let etail = spec_encode_values(tail);
        lemma_decode_encode_value(v0, etail + rest);
        let b = spec_encode_values(vs) + rest;
        assert(b =~= e0 + (etail + rest));
        assert(b.skip(e0.len() as int) =~= etail + rest);
        lemma_decode_encode_values(tail, rest);
        assert(seq![v0] + tail =~= vs);
    }
}

/// Round trip for a sequence of key/value pairs, decoded with its own length
/// as the expected count.
pub proof fn lemma_decode_encode_pairs(ps: Seq<(Seq<char>, ValueModel)>, rest: Seq<u8>)
    requires
        encodable_pairs(ps),
    ensures
        spec_decode_pairs(spec_encode_pairs(ps) + rest, ps.len() as int) == Some(
            (ps, spec_encode_pairs(ps).len() as int),
        ),
    decreases ps,
{
    if ps.len() == 0 {
        assert(spec_encode_pairs(ps) + rest =~= rest);
    } else {
        let (k0, v0) = ps[0];
        let tail = ps.drop_first();
        let ek = spec_encode_str(k0);
        let e0 = spec_encode_value(v0);
        let etail = spec_encode_pairs(tail);
        let b = spec_encode_pairs(ps) + rest;
        lemma_decode_encode_str(k0, e0 + (etail + rest));
        assert(b =~= ek + (e0 + (etail + rest)));
        lemma_decode_encode_value(v0, etail + rest);
        assert(b.skip(ek.len() as int) =~= e0 + (etail + rest));
        assert(b.skip(ek.len() + e0.len() as int) =~= etail + rest);
        lemma_decode_encode_pairs(tail, rest);
        assert(seq![(k0, v0)] + tail =~= ps);
    }
}

/// The value form of a record: an object holding the record's fields under
/// the keys `data`, `expiry_date` and `id`.
pub open spec fn spec_record_value(rm: RecordModel) -> ValueModel {
    ValueModel::Object(
        seq![
            ("data"@, ValueModel::Object(rm.data)),
            ("expiry_date"@, ValueModel::Int(rm.expiry_date as i128)),
            ("id"@, ValueModel::Int(rm.id)),
        ],
    )
}

/// Whether a record can be encoded: its data mapping must be encodable.
pub open spec fn record_encodable(rm: RecordModel) -> bool {
    encodable_value(spec_record_value(rm))
}

/// The wire form of a record.
pub open spec fn spec_encode_record(rm: RecordModel) -> Seq<u8> {
    spec_encode_value(spec_record_value(rm))
}

/// The value under the first occurrence of `key` among `ps`.
pub open spec fn spec_lookup(ps: Seq<(Seq<char>, ValueModel)>, key: Seq<char>) -> Option<
    ValueModel,
>
    decreases ps.len(),
{
    if ps.len() == 0 {
        None
    } else if ps[0].0 == key {
        Some(ps[0].1)
    } else {
        spec_lookup(ps.drop_first(), key)
    }
}

/// The record held by a decoded object: the object must carry an integer
/// under `id`, an integer that fits 64 bits under `expiry_date`, and an
/// object under `data`. Keys the decoder does not know are ignored, so
/// additive fields do not break older readers.
pub open spec fn spec_record_of_pairs(ps: Seq<(Seq<char>, ValueModel)>) -> Option<RecordModel> {
    match (spec_lookup(ps, "id"@), spec_lookup(ps, "expiry_date"@), spec_lookup(ps, "data"@)) {
        (
            Some(ValueModel::Int(id)),
            Some(ValueModel::Int(exp)),
            Some(ValueModel::Object(data)),
        ) => {
            if i64::MIN <= exp <= i64::MAX {
                Some(RecordModel { id: id, data: data, expiry_date: exp as i64 })
            } else {
                None
            }
        },
        _ => None,
    }
}

/// Decodes a whole record: the bytes must hold exactly one value, and that
/// value must be an object carrying the record's fields.
pub open spec fn spec_decode_record(b: Seq<u8>) -> Option<RecordModel> {
    match spec_decode_value(b) {
        None => None,
        Some((v, c)) => {
            if c != b.len() {
                None
            } else {
                match v {
                    ValueModel::Object(ps) => spec_record_of_pairs(ps),
                    _ => None,
                }
            }
        },
    }
}

/// A record's encodability depends on its data mapping alone: the fixed keys
/// and the integer fields always fit the format's length fields.
pub proof fn lemma_record_encodable(rm: RecordModel)
    ensures
        record_encodable(rm) <==> (rm.data.len() <= u32::MAX && encodable_pairs(rm.data)),
{
    broadcast use vstd::utf8::is_ascii_chars_encode_utf8;

    reveal_strlit("data");
    reveal_strlit("expiry_date");
    reveal_strlit("id");
    reveal_with_fuel(encodable_pairs, 4);
    let ps = spec_record_value(rm)->Object_0;
    assert(vstd::utf8::is_ascii_chars("data"@)) by {
        assert(forall|i: int|
            0 <= i < "data"@.len() ==> '\0' <= #[trigger] "data"@[i] <= '\u{7f}');
    }
    assert(vstd::utf8::is_ascii_chars("expiry_date"@)) by {
        assert(forall|i: int|
            0 <= i < "expiry_date"@.len() ==> '\0' <= #[trigger] "expiry_date"@[i] <= '\u{7f}');
    }
    assert(vstd::utf8::is_ascii_chars("id"@)) by {
        assert(forall|i: int| 0 <= i < "id"@.len() ==> '\0' <= #[trigger] "id"@[i] <= '\u{7f}');
    }
    assert(encode_utf8("data"@).len() == 4);
    assert(encode_utf8("expiry_date"@).len() == 11);
    assert(encode_utf8("id"@).len() == 2);
    assert(ps.drop_first() =~= seq![
        ("expiry_date"@, ValueModel::Int(rm.expiry_date as i128)),
        ("id"@, ValueModel::Int(rm.id)),
    ]);
    assert(ps.drop_first().drop_first() =~= seq![("id"@, ValueModel::Int(rm.id))]);
    assert(ps.drop_first().drop_first().drop_first() =~= Seq::<(Seq<char>, ValueModel)>::empty());
    assert(encodable_pairs(ps.drop_first().drop_first()));
    assert(encodable_pairs(ps.drop_first()));
    assert(encodable_pairs(ps) == (encode_utf8(ps[0].0).len() <= u32::MAX && encodable_value(
        ps[0].1,
    ) && encodable_pairs(ps.drop_first())));
    assert(ps[0].1 == ValueModel::Object(rm.data));
    assert(encodable_value(ValueModel::Object(rm.data)) == (rm.data.len() <= u32::MAX
        && encodable_pairs(rm.data)));
    assert(record_encodable(rm) == (ps.len() <= u32::MAX && encodable_pairs(ps)));
}

/// Round trip for a whole record: decoding the encoding of an encodable
/// record yields that record.
pub proof fn lemma_decode_encode_record(rm: RecordModel)
    requires
        record_encodable(rm),
    ensures
        spec_decode_record(spec_encode_record(rm)) == Some(rm),
{
    let v = spec_record_value(rm);
    let ps = seq![
        ("data"@, ValueModel::Object(rm.data)),
        ("expiry_date"@, ValueModel::Int(rm.expiry_date as i128)),
        ("id"@, ValueModel::Int(rm.id)),
    ];
    lemma_decode_encode_value(v, Seq::<u8>::empty());
    assert(spec_encode_value(v) + Seq::<u8>::empty() =~= spec_encode_value(v));
    reveal_strlit("data");
    reveal_strlit("expiry_date");
    reveal_strlit("id");
    assert("data"@.len() == 4 && "expiry_date"@.len() == 11 && "id"@.len() == 2);
    reveal_with_fuel(spec_lookup, 4);
    assert(ps.drop_first() =~= seq![
        ("expiry_date"@, ValueModel::Int(rm.expiry_date as i128)),
        ("id"@, ValueModel::Int(rm.id)),
    ]);
    assert(ps.drop_first().drop_first() =~= seq![("id"@, ValueModel::Int(rm.id))]);
    assert(spec_lookup(ps, "id"@) == Some(ValueModel::Int(rm.id)));
    assert(spec_lookup(ps, "expiry_date"@) == Some(ValueModel::Int(rm.expiry_date as i128)));
    assert(spec_lookup(ps, "data"@) == Some(ValueModel::Object(rm.data)));
}

/// Encoding failed: a string's byte length or a collection's entry count
/// exceeds the codec's 4-byte length fields.
#[derive(Debug, PartialEq, Eq)]
pub struct EncodeError;

/// Decoding failed: the input is malformed or truncated. The codec never
/// returns a partially decoded record.
#[derive(Debug, PartialEq, Eq)]
pub struct DecodeError;

/// A sequence of values is encodable exactly when each of its values is.
pub proof fn lemma_encodable_values_iff(vs: Seq<ValueModel>)
    ensures
        encodable_values(vs) <==> (forall|i: int|
            0 <= i < vs.len() ==> encodable_value(#[trigger] vs[i])),
    decreases vs.len(),
{
    if vs.len() > 0 {
        lemma_encodable_values_iff(vs.drop_first());
        if encodable_values(vs) {
            assert forall|i: int| 0 <= i < vs.len() implies encodable_value(
                #[trigger] vs[i],
            ) by {
                if i > 0 {
                    assert(vs.drop_first()[i - 1] == vs[i]);
                }
            }
        }
        if forall|i: int| 0 <= i < vs.len() ==> encodable_value(#[trigger] vs[i]) {
            assert forall|i: int| 0 <= i < vs.drop_first().len() implies encodable_value(
                #[trigger] vs.drop_first()[i],
            ) by {
                assert(vs.drop_first()[i] == vs[i + 1]);
            }
            assert(encodable_values(vs.drop_first()));
        }
    }
}

/// A sequence of pairs is encodable exactly when each key's byte length fits
/// the length field and each value is encodable.
pub proof fn lemma_encodable_pairs_iff(ps: Seq<(Seq<char>, ValueModel)>)
    ensures
        encodable_pairs(ps) <==> (forall|i: int|
            0 <= i < ps.len() ==> (encode_utf8((#[trigger] ps[i]).0).len() <= u32::MAX
                && encodable_value(ps[i].1))),
    decreases ps.len(),
{
    if ps.len() > 0 {
        lemma_encodable_pairs_iff(ps.drop_first());
        if encodable_pairs(ps) {
            assert forall|i: int|
                0 <= i < ps.len() implies (encode_utf8((#[trigger] ps[i]).0).len() <= u32::MAX
                && encodable_value(ps[i].1)) by {
                if i > 0 {
                    assert(ps.drop_first()[i - 1] == ps[i]);
                }
            }
        }
        if forall|i: int|
            0 <= i < ps.len() ==> (encode_utf8((#[trigger] ps[i]).0).len() <= u32::MAX
            && encodable_value(ps[i].1)) {
            assert forall|i: int|
                0 <= i < ps.drop_first().len() implies (encode_utf8(
                (#[trigger] ps.drop_first()[i]).0,
            ).len() <= u32::MAX && encodable_value(ps.drop_first()[i].1)) by {
                assert(ps.drop_first()[i] == ps[i + 1]);
            }
            assert(encodable_pairs(ps.drop_first()));
        }
    }
}

/// Appends the 17-byte integer payload: a sign byte, then the magnitude in
/// little-endian order.
fn encode_int(i: i128, out: &mut Vec<u8>)
    ensures
        final(out)@ == old(out)@ + spec_encode_int(i),
{
    if i >= 0 {
        out.push(0u8);
        let mut mag = vstd::bytes::u128_to_le_bytes(i as u128);
        out.append(&mut mag);
    } else {
        out.push(1u8);
        let mut mag = vstd::bytes::u128_to_le_bytes((-(i + 1)) as u128);
        out.append(&mut mag);
    }
    proof {
        assert(out@ =~= old(out)@ + spec_encode_int(i));
    }
}

/// Appends a length-prefixed string: a 4-byte little-endian byte count, then
/// the UTF-8 bytes.
fn encode_str(s: &str, out: &mut Vec<u8>) -> (r: Result<(), EncodeError>)
    ensures
        r is Ok ==> encode_utf8(s@).len() <= u32::MAX && final(out)@ == old(out)@ + spec_encode_str(s@),
        r is Err ==> encode_utf8(s@).len() > u32::MAX,
{
    let bytes = s.as_bytes();
    if bytes.len() > u32::MAX as usize {
        return Err(EncodeError);
    }
    let mut lenb = vstd::bytes::u32_to_le_bytes(bytes.len() as u32);
    out.append(&mut lenb);
    let mut bv = vstd::slice::slice_to_vec(bytes);
    out.append(&mut bv);
    proof {
        assert(out@ =~= old(out)@ + spec_encode_str(s@));
    }
    Ok(())
}

/// Appends an encoded object: its tag, a 4-byte entry count, then each pair
/// as a length-prefixed key followed by an encoded value.
#[verifier::loop_isolation(false)]
fn encode_object(ps: &Vec<(String, DataValue)>, out: &mut Vec<u8>) -> (r: Result<
    (),
    EncodeError,
>)
    ensures
        r is Ok ==> encodable_value(ValueModel::Object(pair_models(ps@))) && final(out)@ == old(
            out,
        )@ + spec_encode_value(ValueModel::Object(pair_models(ps@))),
        r is Err ==> !encodable_value(ValueModel::Object(pair_models(ps@))),
    decreases ps,
{
    let ghost ms = pair_models(ps@);
    proof {
        lemma_pair_models_index(ps@);
        lemma_encodable_pairs_iff(ms);
    }
    if ps.len() > u32::MAX as usize {
        return Err(EncodeError);
    }
    out.push(TAG_OBJECT);
    let mut lenb = vstd::bytes::u32_to_le_bytes(ps.len() as u32);
    out.append(&mut lenb);
    let ghost base = out@;
    proof {
        assert(ms.skip(0) =~= ms);
    }
    let mut i: usize = 0;
    while i < ps.len()
        invariant
            0 <= i <= ps@.len(),
            ms == pair_models(ps@),
            ms.len() == ps@.len(),
            forall|j: int| 0 <= j < ps@.len() ==> #[trigger] ms[j] == (ps@[j].0@, ps@[j].1.model()),
            base + spec_encode_pairs(ms) == out@ + spec_encode_pairs(ms.skip(i as int)),
            forall|j: int|
                0 <= j < i ==> encode_utf8((#[trigger] ms[j]).0).len() <= u32::MAX
                    && encodable_value(ms[j].1),
        decreases ps@.len() - i,
    {
        let pair = &ps[i];
        proof {
            assert(ms.skip(i as int)[0] == ms[i as int]);
            assert(ms.skip(i as int).drop_first() =~= ms.skip(i as int + 1));
        }
        match encode_str(pair.0.as_str(), out) {
            Err(e) => {
                return Err(e);
            },
            Ok(_) => {},
        }
        match encode_value(&pair.1, out) {
            Err(e) => {
                return Err(e);
            },
            Ok(_) => {},
        }
        i = i + 1;
    }
    proof {
        assert(ms.skip(ps@.len() as int) =~= Seq::<(Seq<char>, ValueModel)>::empty());
        assert(out@ =~= base + spec_encode_pairs(ms));
        assert(out@ =~= old(out)@ + spec_encode_value(ValueModel::Object(ms)));
    }
    Ok(())
}

/// Appends the encoding of one value. Fails exactly when some string or
/// collection inside the value is too large for the format's length fields.
#[verifier::loop_isolation(false)]
pub fn encode_value(v: &DataValue, out: &mut Vec<u8>) -> (r: Result<(), EncodeError>)
    ensures
        r is Ok ==> encodable_value(v@) && final(out)@ == old(out)@ + spec_encode_value(v@),
        r is Err ==> !encodable_value(v@),
    decreases v,
{
    match v {
        DataValue::Null => {
            out.push(TAG_NULL);
            proof {
                assert(out@ =~= old(out)@ + spec_encode_value(v@));
            }
            Ok(())
        },
        DataValue::Bool(b) => {
            out.push(if *b {
                TAG_TRUE
            } else {
                TAG_FALSE
            });
            proof {
                assert(out@ =~= old(out)@ + spec_encode_value(v@));
            }
            Ok(())
        },
        DataValue::Int(i) => {
            out.push(TAG_INT);
            encode_int(*i, out);
            proof {
                assert(out@ =~= old(out)@ + spec_encode_value(v@));
            }
            Ok(())
        },
        DataValue::Text(s) => {
            out.push(TAG_TEXT);
            match encode_str(s.as_str(), out) {
                Err(e) => Err(e),
                Ok(_) => {
                    proof {
                        assert(out@ =~= old(out)@ + spec_encode_value(v@));
                    }
                    Ok(())
                },
            }
        },
        DataValue::List(vs) => {
            let ghost ms = value_models(vs@);
            proof {
                lemma_value_models_index(vs@);
                lemma_encodable_values_iff(ms);
            }
            if vs.len() > u32::MAX as usize {
                return Err(EncodeError);
            }
            out.push(TAG_LIST);
            let mut lenb = vstd::bytes::u32_to_le_bytes(vs.len() as u32);
            out.append(&mut lenb);
            let ghost base = out@;
            proof {
                assert(ms.skip(0) =~= ms);
            }
            let mut i: usize = 0;
            while i < vs.len()
                invariant
                    0 <= i <= vs@.len(),
                    ms == value_models(vs@),
                    ms.len() == vs@.len(),
                    forall|j: int| 0 <= j < vs@.len() ==> #[trigger] ms[j] == vs@[j].model(),
                    base + spec_encode_values(ms) == out@ + spec_encode_values(ms.skip(i as int)),
                    forall|j: int| 0 <= j < i ==> encodable_value(#[trigger] ms[j]),
                decreases vs@.len() - i,
            {
                proof {
                    assert(ms.skip(i as int)[0] == ms[i as int]);
                    assert(ms.skip(i as int).drop_first() =~= ms.skip(i as int + 1));
                }
                match encode_value(&vs[i], out) {
                    Err(e) => {
                        return Err(e);
                    },
                    Ok(_) => {},
                }
                i = i + 1;
            }
            proof {
                assert(ms.skip(vs@.len() as int) =~= Seq::<ValueModel>::empty());
                assert(out@ =~= base + spec_encode_values(ms));
                assert(out@ =~= old(out)@ + spec_encode_value(v@));
            }
            Ok(())
        },
        DataValue::Object(ps) => encode_object(ps, out),
    }
}

/// Encodes a record to its wire form, appending to `out`. Fails exactly when
/// the record's data mapping is too large for the format's length fields;
/// encoding never silently drops data.
#[verifier::rlimit(60)]
pub fn encode_record(r: &Record, out: &mut Vec<u8>) -> (res: Result<(), EncodeError>)
    ensures
        res is Ok ==> record_encodable(r@) && final(out)@ == old(out)@ + spec_encode_record(r@),
        res is Err ==> !record_encodable(r@),
{
    let ghost rv = spec_record_value(r@);
    let ghost ps = rv->Object_0;
    proof {
        reveal_with_fuel(spec_encode_pairs, 4);
        reveal_with_fuel(encodable_pairs, 4);
        lemma_encodable_pairs_iff(ps);
        assert(ps[0] == ("data"@, ValueModel::Object(r@.data)));
        assert(ps[1] == ("expiry_date"@, ValueModel::Int(r@.expiry_date as i128)));
        assert(ps[2] == ("id"@, ValueModel::Int(r@.id)));
        assert(ps.drop_first() =~= seq![
            ("expiry_date"@, ValueModel::Int(r@.expiry_date as i128)),
            ("id"@, ValueModel::Int(r@.id)),
        ]);
        assert(ps.drop_first().drop_first() =~= seq![("id"@, ValueModel::Int(r@.id))]);
        assert(ps.drop_first().drop_first().drop_first() =~= Seq::<
            (Seq<char>, ValueModel),
        >::empty());
    }
    out.push(TAG_OBJECT);
    let mut lenb = vstd::bytes::u32_to_le_bytes(3);
    out.append(&mut lenb);
    match encode_str("data", out) {
        Err(e) => {
            return Err(e);
        },
        Ok(_) => {},
    }
    match encode_object(&r.data, out) {
        Err(e) => {
            return Err(e);
        },
        Ok(_) => {},
    }
    match encode_str("expiry_date", out) {
        Err(e) => {
            return Err(e);
        },
        Ok(_) => {},
    }
    out.push(TAG_INT);
    encode_int(r.expiry_date as i128, out);
    match encode_str("id", out) {
        Err(e) => {
            return Err(e);
        },
        Ok(_) => {},
    }
    out.push(TAG_INT);
    encode_int(r.id.0, out);
    proof {
        assert(spec_encode_pairs(ps.drop_first().drop_first()) =~= spec_encode_str("id"@)
            + spec_encode_value(ValueModel::Int(r@.id)));
        assert(spec_encode_pairs(ps.drop_first()) =~= spec_encode_str("expiry_date"@)
            + spec_encode_value(ValueModel::Int(r@.expiry_date as i128)) + spec_encode_pairs(
            ps.drop_first().drop_first(),
        ));
        assert(spec_encode_pairs(ps) =~= spec_encode_str("data"@) + spec_encode_value(
            ValueModel::Object(r@.data),
        ) + spec_encode_pairs(ps.drop_first()));
        assert(spec_encode_value(ValueModel::Int(r@.expiry_date as i128)) =~= seq![TAG_INT]
            + spec_encode_int(r@.expiry_date as i128));
        assert(spec_encode_value(ValueModel::Int(r@.id)) =~= seq![TAG_INT] + spec_encode_int(
            r@.id,
        ));
        assert(out@ =~= old(out)@ + spec_encode_record(r@));
    }
    Ok(())
}

/// Relies on core::str::from_utf8: it returns `Ok` exactly when the bytes are
/// valid UTF-8, and the returned string slice is a view of those same bytes.
#[verifier::external_body]
fn try_from_utf8(v: &[u8]) -> (r: Option<&str>)
    ensures
        match r {
            Some(s) => s.spec_bytes() == v@,
            None => !valid_utf8(v@),
        },
{
    core::str::from_utf8(v).ok()
}

/// Decodes a length-prefixed string starting at `pos`.
fn decode_str(b: &[u8], pos: usize) -> (r: Result<(String, usize), DecodeError>)
    requires
        pos <= b@.len(),
    ensures
        match r {
            Ok((s, end)) => pos < end <= b@.len() && spec_decode_str(b@.skip(pos as int)) == Some(
                (s@, end - pos),
            ),
            Err(_) => spec_decode_str(b@.skip(pos as int)) is None,
        },
{
    let ghost suf = b@.skip(pos as int);
    let avail = b.len() - pos;
    if avail < 4 {
        return Err(DecodeError);
    }
    let n32 = vstd::bytes::u32_from_le_bytes(vstd::slice::slice_subrange(b, pos, pos + 4));
    proof {
        assert(b@.subrange(pos as int, pos as int + 4) =~= suf.subrange(0, 4));
    }
    let n = n32 as usize;
    if avail - 4 < n {
        return Err(DecodeError);
    }
    let bytes = vstd::slice::slice_subrange(b, pos + 4, pos + 4 + n);
    proof {
        assert(bytes@ =~= suf.subrange(4, 4 + n as int));
    }
    match try_from_utf8(bytes) {
        Some(s) => {
            let owned = s.to_owned();
            proof {
                broadcast use vstd::utf8::encode_utf8_valid_utf8;
                broadcast use vstd::utf8::encode_utf8_decode_utf8;

                assert(valid_utf8(bytes@));
                assert(decode_utf8(bytes@) == s@);
            }
            Ok((owned, pos + 4 + n))
        },
        None => Err(DecodeError),
    }
}

/// Decodes one value starting at `pos`: the value and the position just past
/// it. Fails closed exactly when the input is malformed or truncated.
pub fn decode_value(b: &[u8], pos: usize) -> (r: Result<(DataValue, usize), DecodeError>)
    requires
        pos <= b@.len(),
    ensures
        match r {
            Ok((v, end)) => pos < end <= b@.len() && spec_decode_value(b@.skip(pos as int))
                == Some((v@, end - pos)),
            Err(_) => spec_decode_value(b@.skip(pos as int)) is None,
        },
    decreases b@.len() - pos, 0nat, 0nat,
{
    let ghost suf = b@.skip(pos as int);
    let avail = b.len() - pos;
    if avail < 1 {
        return Err(DecodeError);
    }
    let tag = *vstd::slice::slice_index_get(b, pos);
    proof {
        assert(suf[0] == b@[pos as int]);
    }
    if tag == TAG_NULL {
        Ok((DataValue::Null, pos + 1))
    } else if tag == TAG_FALSE {
        Ok((DataValue::Bool(false), pos + 1))
    } else if tag == TAG_TRUE {
        Ok((DataValue::Bool(true), pos + 1))
    } else if tag == TAG_INT {
        if avail < 18 {
            return Err(DecodeError);
        }
        let sign = *vstd::slice::slice_index_get(b, pos + 1);
        let mag = vstd::bytes::u128_from_le_bytes(
            vstd::slice::slice_subrange(b, pos + 2, pos + 18),
        );
        proof {
            assert(b@.subrange(pos as int + 2, pos as int + 18) =~= suf.subrange(2, 18));
            assert(suf[1] == b@[pos as int + 1]);
        }
        if mag > (i128::MAX as u128) {
            return Err(DecodeError);
        }
        if sign == 0 {
            Ok((DataValue::Int(mag as i128), pos + 18))
        } else if sign == 1 {
            Ok((DataValue::Int(-(mag as i128) - 1), pos + 18))
        } else {
            Err(DecodeError)
        }
    } else if tag == TAG_TEXT {
        proof {
            assert(suf.skip(1) =~= b@.skip(pos as int + 1));
        }
        match decode_str(b, pos + 1) {
            Ok((s, end)) => Ok((DataValue::Text(s), end)),
            Err(e) => Err(e),
        }
    } else if tag == TAG_LIST {
        if avail < 5 {
            return Err(DecodeError);
        }
        let n = vstd::bytes::u32_from_le_bytes(vstd::slice::slice_subrange(b, pos + 1, pos + 5));
        proof {
            assert(b@.subrange(pos as int + 1, pos as int + 5) =~= suf.subrange(1, 5));
            assert(suf.skip(5) =~= b@.skip(pos as int + 5));
        }
        match decode_values(b, pos + 5, n) {
            Ok((vs, end)) => Ok((DataValue::List(vs), end)),
            Err(e) => Err(e),
        }
    } else if tag == TAG_OBJECT {
        if avail < 5 {
            return Err(DecodeError);
        }
        let n = vstd::bytes::u32_from_le_bytes(vstd::slice::slice_subrange(b, pos + 1, pos + 5));
        proof {
            assert(b@.subrange(pos as int + 1, pos as int + 5) =~= suf.subrange(1, 5));
            assert(suf.skip(5) =~= b@.skip(pos as int + 5));
        }
        match decode_pairs(b, pos + 5, n) {
            Ok((ps, end)) => Ok((DataValue::Object(ps), end)),
            Err(e) => Err(e),
        }
    } else {
        Err(DecodeError)
    }
}

/// Decodes `n` consecutive values starting at `pos`.
fn decode_values(b: &[u8], pos: usize, n: u32) -> (r: Result<(Vec<DataValue>, usize), DecodeError>)
    requires
        pos <= b@.len(),
    ensures
        match r {
            Ok((vs, end)) => pos <= end <= b@.len() && spec_decode_values(
                b@.skip(pos as int),
                n as int,
            ) == Some((value_models(vs@), end - pos)),
            Err(_) => spec_decode_values(b@.skip(pos as int), n as int) is None,
        },
    decreases b@.len() - pos, 1nat, n,
{
    let ghost suf = b@.skip(pos as int);
    if n == 0 {
        let vs: Vec<DataValue> = Vec::new();
        proof {
            assert(value_models(vs@) =~= Seq::<ValueModel>::empty());
        }
        return Ok((vs, pos));
    }
    match decode_value(b, pos) {
        Err(e) => Err(e),
        Ok((v, end1)) => {
            proof {
                assert(suf.skip(end1 - pos) =~= b@.skip(end1 as int));
            }
            match decode_values(b, end1, n - 1) {
                Err(e) => Err(e),
                Ok((mut vs, end2)) => {
                    let ghost tail = vs@;
                    vs.insert(0, v);
                    proof {
                        assert(vs@ =~= seq![v] + tail);
                        assert(vs@.drop_first() =~= tail);
                        assert(value_models(vs@) =~= seq![v.model()] + value_models(tail));
                    }
                    Ok((vs, end2))
                },
            }
        },
    }
}

/// Decodes `n` consecutive key/value pairs starting at `pos`.
fn decode_pairs(b: &[u8], pos: usize, n: u32) -> (r: Result<
    (Vec<(String, DataValue)>, usize),
    DecodeError,
>)
    requires
        pos <= b@.len(),
    ensures
        match r {
            Ok((ps, end)) => pos <= end <= b@.len() && spec_decode_pairs(
                b@.skip(pos as int),
                n as int,
            ) == Some((pair_models(ps@), end - pos)),
            Err(_) => spec_decode_pairs(b@.skip(pos as int), n as int) is None,
        },
    decreases b@.len() - pos, 1nat, n,
{
    let ghost suf = b@.skip(pos as int);
    if n == 0 {
        let ps: Vec<(String, DataValue)> = Vec::new();
        proof {
            assert(pair_models(ps@) =~= Seq::<(Seq<char>, ValueModel)>::empty());
        }
        return Ok((ps, pos));
    }
    match decode_str(b, pos) {
        Err(e) => Err(e),
        Ok((k, end1)) => {
            proof {
                assert(suf.skip(end1 - pos) =~= b@.skip(end1 as int));
            }
            match decode_value(b, end1) {
                Err(e) => Err(e),
                Ok((v, end2)) => {
                    proof {
                        assert(suf.skip(end2 - pos) =~= b@.skip(end2 as int));
                    }
                    match decode_pairs(b, end2, n - 1) {
                        Err(e) => Err(e),
                        Ok((mut ps, end3)) => {
                            let ghost tail = ps@;
                            let ghost kv = (k@, v.model());
                            ps.insert(0, (k, v));
                            proof {
                                assert(ps@.drop_first() =~= tail);
                                assert(pair_models(ps@) =~= seq![kv] + pair_models(tail));
                            }
                            Ok((ps, end3))
                        },
                    }
                },
            }
        },
    }
}

/// A deep copy of a value, with the same model as the original.
#[verifier::loop_isolation(false)]
pub fn clone_value(v: &DataValue) -> (r: DataValue)
    ensures
        r@ == v@,
    decreases v,
{
    match v {
        DataValue::Null => DataValue::Null,
        DataValue::Bool(b) => DataValue::Bool(*b),
        DataValue::Int(i) => DataValue::Int(*i),
        DataValue::Text(s) => DataValue::Text(s.clone()),
        DataValue::List(vs) => {
            let mut out: Vec<DataValue> = Vec::new();
            let mut i: usize = 0;
            while i < vs.len()
                invariant
                    0 <= i <= vs@.len(),
                    out@.len() == i,
                    forall|j: int| 0 <= j < i ==> #[trigger] out@[j].model() == vs@[j].model(),
                decreases vs@.len() - i,
            {
                let c = clone_value(&vs[i]);
                out.push(c);
                i = i + 1;
            }
            proof {
                lemma_value_models_index(out@);
                lemma_value_models_index(vs@);
                assert(value_models(out@) =~= value_models(vs@));
            }
            DataValue::List(out)
        },
        DataValue::Object(ps) => DataValue::Object(clone_pairs(ps)),
    }
}

/// A deep copy of a data mapping, with the same model as the original.
#[verifier::loop_isolation(false)]
pub fn clone_pairs(ps: &Vec<(String, DataValue)>) -> (r: Vec<(String, DataValue)>)
    ensures
        pair_models(r@) == pair_models(ps@),
    decreases ps,
{
    let mut out: Vec<(String, DataValue)> = Vec::new();
    let mut i: usize = 0;
    while i < ps.len()
        invariant
            0 <= i <= ps@.len(),
            out@.len() == i,
            forall|j: int|
                0 <= j < i ==> (#[trigger] out@[j]).0@ == ps@[j].0@ && out@[j].1.model()
                    == ps@[j].1.model(),
        decreases ps@.len() - i,
    {
        let pair = &ps[i];
        let k = pair.0.clone();
        let v = clone_value(&pair.1);
        out.push((k, v));
        i = i + 1;
    }
    proof {
        lemma_pair_models_index(out@);
        lemma_pair_models_index(ps@);
        assert(pair_models(out@) =~= pair_models(ps@));
    }
    out
}

/// The value under the first occurrence of `key`, by reference.
#[verifier::loop_isolation(false)]
fn lookup<'a>(ps: &'a Vec<(String, DataValue)>, key: &String) -> (r: Option<&'a DataValue>)
    ensures
        match r {
            Some(v) => spec_lookup(pair_models(ps@), key@) == Some(v@),
            None => spec_lookup(pair_models(ps@), key@) is None,
        },
{
    proof {
        lemma_pair_models_index(ps@);
    }
    let ghost ms = pair_models(ps@);
    proof {
        assert(ms.skip(0) =~= ms);
    }
    let mut i: usize = 0;
    while i < ps.len()
        invariant
            0 <= i <= ps@.len(),
            spec_lookup(ms, key@) == spec_lookup(ms.skip(i as int), key@),
        decreases ps@.len() - i,
    {
        proof {
            assert(ms.skip(i as int)[0] == ms[i as int]);
            assert(ms.skip(i as int).drop_first() =~= ms.skip(i as int + 1));
        }
        let pair = &ps[i];
        if pair.0 == *key {
            return Some(&pair.1);
        }
        i = i + 1;
    }
    proof {
        assert(ms.skip(ps@.len() as int) =~= Seq::<(Seq<char>, ValueModel)>::empty());
    }
    None
}

/// Decodes a record from its wire form. The bytes must hold exactly one
/// value: an object carrying an integer under `id`, an integer that fits a
/// 64-bit count of seconds under `expiry_date`, and an object under `data`;
/// keys the decoder does not know are ignored. Fails closed: a malformed
/// input yields an error, never a partial record.
pub fn decode_record(b: &[u8]) -> (r: Result<Record, DecodeError>)
    ensures
        match r {
            Ok(rec) => spec_decode_record(b@) == Some(rec@),
            Err(_) => spec_decode_record(b@) is None,
        },
{
    proof {
        assert(b@.skip(0) =~= b@);
    }
    let (v, end) = match decode_value(b, 0) {
        Ok(p) => p,
        Err(e) => {
            return Err(e);
        },
    };
    if end != b.len() {
        return Err(DecodeError);
    }
    match v {
        DataValue::Object(ps) => {
            let key_id = String::from_str("id");
            let key_exp = String::from_str("expiry_date");
            let key_data = String::from_str("data");
            let idv = lookup(&ps, &key_id);
            let expv = lookup(&ps, &key_exp);
            let datav = lookup(&ps, &key_data);
            match (idv, expv, datav) {
                (
                    Some(DataValue::Int(id)),
                    Some(DataValue::Int(exp)),
                    Some(DataValue::Object(dps)),
                ) => {
                    if *exp >= i64::MIN as i128 && *exp <= i64::MAX as i128 {
                        let rec = Record {
                            id: SessionId(*id),
                            data: clone_pairs(dps),
                            expiry_date: *exp as i64,
                        };
                        Ok(rec)
                    } else {
                        Err(DecodeError)
                    }
                },
                _ => Err(DecodeError),
            }
        },
        _ => Err(DecodeError),
    }
}

} // verus!
