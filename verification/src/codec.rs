//! The binary value codec.
//!
//! Every value starts with a one-byte tag. Integers and floats carry eight
//! little-endian bytes. Strings and blobs carry a four-byte length and their
//! bytes. An array carries its payload length (eight bytes), its element
//! count (four bytes) and the encoded elements. An object carries its payload
//! length, its field count, the length of its directory, the directory (for
//! each field: key length, key, tag of the value, offset of the value in the
//! values section) and the values section.
use vstd::bytes::{
    spec_u16_from_le_bytes, spec_u16_to_le_bytes, spec_u32_from_le_bytes, spec_u32_to_le_bytes,
    spec_u64_from_le_bytes, spec_u64_to_le_bytes, u16_from_le_bytes, u16_to_le_bytes,
    u32_from_le_bytes, u32_to_le_bytes, u64_from_le_bytes, u64_to_le_bytes,
};
use vstd::prelude::*;
use vstd::utf8::{decode_utf8, encode_utf8, valid_utf8};

use crate::bytes::decimal;
use crate::error::{message, DbError};
use crate::types::{
    assoc_insert, entries_model, keys_sorted, lemma_array_model, lemma_insert_entries,
    lemma_insert_sorted, lemma_object_model, models, Doc, Fields, Value,
};

verus! {

pub const TAG_NULL: u8 = 0;

pub const TAG_FALSE: u8 = 1;

pub const TAG_TRUE: u8 = 2;

pub const TAG_INT: u8 = 3;

pub const TAG_FLOAT: u8 = 4;

pub const TAG_STRING: u8 = 5;

pub const TAG_BLOB: u8 = 6;

pub const TAG_ARRAY: u8 = 7;

pub const TAG_OBJECT: u8 = 8;

/// The tag byte that starts the encoding of a value.
pub open spec fn tag_of(d: Doc) -> u8 {
    match d {
        Doc::Null => TAG_NULL,
        Doc::Bool(b) => if b {
            TAG_TRUE
        } else {
            TAG_FALSE
        },
        Doc::Int(_) => TAG_INT,
        Doc::Float(_) => TAG_FLOAT,
        Doc::Str(_) => TAG_STRING,
        Doc::Blob(_) => TAG_BLOB,
        Doc::Array(_) => TAG_ARRAY,
        Doc::Object(_) => TAG_OBJECT,
    }
}

/// The encoding of a value.
pub open spec fn encode(d: Doc) -> Seq<u8>
    decreases d,
{
    match d {
        Doc::Null => seq![TAG_NULL],
        Doc::Bool(b) => if b {
            seq![TAG_TRUE]
        } else {
            seq![TAG_FALSE]
        },
        Doc::Int(i) => seq![TAG_INT] + spec_u64_to_le_bytes(#[verifier::truncate] (i as u64)),
        Doc::Float(bits) => seq![TAG_FLOAT] + spec_u64_to_le_bytes(bits),
        Doc::Str(s) => seq![TAG_STRING] + spec_u32_to_le_bytes(encode_utf8(s).len() as u32)
            + encode_utf8(s),
        Doc::Blob(b) => seq![TAG_BLOB] + spec_u32_to_le_bytes(b.len() as u32) + b,
        Doc::Array(items) => {
            let payload = encode_items(items);
            seq![TAG_ARRAY] + spec_u64_to_le_bytes(payload.len() as u64) + spec_u32_to_le_bytes(
                items.len() as u32,
            ) + payload
        },
        Doc::Object(fields) => {
            let dir = encode_dir(fields, 0);
            let vals = encode_vals(fields);
            seq![TAG_OBJECT] + spec_u64_to_le_bytes((dir.len() + vals.len()) as u64)
                + spec_u32_to_le_bytes(fields.len() as u32) + spec_u32_to_le_bytes(
                dir.len() as u32,
            ) + dir + vals
        },
    }
}

/// The encodings of the items, one after another.
pub open spec fn encode_items(items: Seq<Doc>) -> Seq<u8>
    decreases items,
{
    if items.len() == 0 {
        Seq::empty()
    } else {
        encode(items[0]) + encode_items(items.subrange(1, items.len() as int))
    }
}

/// One directory entry: key length, key, tag of the value, offset of the value.
pub open spec fn dir_entry(key: Seq<char>, value: Doc, offset: nat) -> Seq<u8> {
    spec_u16_to_le_bytes(encode_utf8(key).len() as u16) + encode_utf8(key) + seq![tag_of(value)]
        + spec_u32_to_le_bytes(offset as u32)
}

/// The directory of an object whose values section starts at `offset`.
pub open spec fn encode_dir(fields: Seq<(Seq<char>, Doc)>, offset: nat) -> Seq<u8>
    decreases fields,
{
    if fields.len() == 0 {
        Seq::empty()
    } else {
        dir_entry(fields[0].0, fields[0].1, offset) + encode_dir(
            fields.subrange(1, fields.len() as int),
            offset + encode(fields[0].1).len(),
        )
    }
}

/// The values section of an object.
pub open spec fn encode_vals(fields: Seq<(Seq<char>, Doc)>) -> Seq<u8>
    decreases fields,
{
    if fields.len() == 0 {
        Seq::empty()
    } else {
        encode(fields[0].1) + encode_vals(fields.subrange(1, fields.len() as int))
    }
}

/// Whether every length and offset that the encoding writes fits its field.
pub open spec fn encodable(d: Doc) -> bool
    decreases d,
{
    match d {
        Doc::Str(s) => encode_utf8(s).len() <= u32::MAX,
        Doc::Blob(b) => b.len() <= u32::MAX,
        Doc::Array(items) => {
            &&& items.len() <= u32::MAX
            &&& items_encodable(items)
            &&& encode_items(items).len() <= u64::MAX
        },
        Doc::Object(fields) => {
            &&& fields.len() <= u32::MAX
            &&& fields_encodable(fields, 0)
            &&& encode_dir(fields, 0).len() <= u32::MAX
            &&& encode_dir(fields, 0).len() + encode_vals(fields).len() <= u64::MAX
        },
        _ => true,
    }
}

pub open spec fn items_encodable(items: Seq<Doc>) -> bool
    decreases items,
{
    items.len() == 0 || (encodable(items[0]) && items_encodable(
        items.subrange(1, items.len() as int),
    ))
}

pub open spec fn fields_encodable(fields: Seq<(Seq<char>, Doc)>, offset: nat) -> bool
    decreases fields,
{
    fields.len() == 0 || {
        &&& encode_utf8(fields[0].0).len() <= u16::MAX
        &&& offset <= u32::MAX
        &&& encodable(fields[0].1)
        &&& fields_encodable(
            fields.subrange(1, fields.len() as int),
            offset + encode(fields[0].1).len(),
        )
    }
}

/// Appends `data` to `out`.
pub fn push_all(out: &mut Vec<u8>, data: &[u8])
    ensures
        final(out)@ == old(out)@ + data@,
{
    let mut i: usize = 0;
    while i < data.len()
        invariant
            0 <= i <= data@.len(),
            out@ == old(out)@ + data@.take(i as int),
        decreases data@.len() - i,
    {
        out.push(data[i]);
        proof {
            assert(data@.take(i + 1) =~= data@.take(i as int).push(data@[i as int]));
        }
        i = i + 1;
    }
    proof {
        assert(data@.take(i as int) =~= data@);
    }
}

/// The tag of a value.
pub fn value_tag(value: &Value) -> (r: u8)
    ensures
        r == tag_of(value.model()),
{
    match value {
        Value::Null => TAG_NULL,
        Value::Bool(false) => TAG_FALSE,
        Value::Bool(true) => TAG_TRUE,
        Value::Int(_) => TAG_INT,
        Value::Float(_) => TAG_FLOAT,
        Value::String(_) => TAG_STRING,
        Value::Blob(_) => TAG_BLOB,
        Value::Array(_) => TAG_ARRAY,
        Value::Object(_) => TAG_OBJECT,
    }
}

/// Encodes a value. Fails with `InvalidData` exactly when a length or an
/// offset does not fit the field that holds it.
pub fn encode_value(value: &Value) -> (r: Result<Vec<u8>, DbError>)
    ensures
        r is Ok <==> encodable(value.model()),
        r matches Ok(bytes) ==> bytes@ == encode(value.model()),
        r matches Err(e) ==> e is InvalidData,
    decreases value,
{
    match value {
        Value::Null => Ok(vec![TAG_NULL]),
        Value::Bool(false) => Ok(vec![TAG_FALSE]),
        Value::Bool(true) => Ok(vec![TAG_TRUE]),
        Value::Int(v) => {
            let mut bytes = vec![TAG_INT];
            let mut le = u64_to_le_bytes(#[verifier::truncate] (*v as u64));
            bytes.append(&mut le);
            Ok(bytes)
        },
        Value::Float(bits) => {
            let mut bytes = vec![TAG_FLOAT];
            let mut le = u64_to_le_bytes(*bits);
            bytes.append(&mut le);
            Ok(bytes)
        },
        Value::String(s) => {
            let data = s.as_str().as_bytes();
            if data.len() > 0xffff_ffff {
                return Err(DbError::InvalidData(message("string is too large to encode")));
            }
            let mut bytes = vec![TAG_STRING];
            let mut le = u32_to_le_bytes(data.len() as u32);
            bytes.append(&mut le);
            push_all(&mut bytes, data);
            Ok(bytes)
        },
        Value::Blob(b) => {
            if b.len() > 0xffff_ffff {
                return Err(DbError::InvalidData(message("blob is too large to encode")));
            }
            let mut bytes = vec![TAG_BLOB];
            let mut le = u32_to_le_bytes(b.len() as u32);
            bytes.append(&mut le);
            push_all(&mut bytes, b.as_slice());
            Ok(bytes)
        },
        Value::Array(items) => {
            proof {
                lemma_array_model(*items);
            }
            let ghost m = crate::types::models(items@);
            let mut payload: Vec<u8> = Vec::new();
            let mut i: usize = 0;
            proof {
                assert(m.subrange(0, m.len() as int) =~= m);
            }
            while i < items.len()
                invariant
                    0 <= i <= items@.len(),
                    m == crate::types::models(items@),
                    Value::Array(*items).model() == Doc::Array(m),
                    *value == Value::Array(*items),
                    encode_items(m) == payload@ + encode_items(m.subrange(i as int, m.len() as int)),
                    items_encodable(m) == items_encodable(m.subrange(i as int, m.len() as int)),
                decreases items@.len() - i,
            {
                let ghost rest = m.subrange(i as int, m.len() as int);
                proof {
                    assert(rest[0] == items@[i as int].model());
                    assert(rest.subrange(1, rest.len() as int) =~= m.subrange(i + 1, m.len() as int));
                    crate::types::lemma_item_decreases(*items, i as int);
                }
                let encoded = encode_value(&items[i]);
                match encoded {
                    Ok(mut b) => {
                        payload.append(&mut b);
                    },
                    Err(e) => {
                        return Err(e);
                    },
                }
                i = i + 1;
            }
            if items.len() > 0xffff_ffff {
                return Err(DbError::InvalidData(message("array has too many elements")));
            }
            proof {
                assert(m.subrange(i as int, m.len() as int) =~= Seq::<Doc>::empty());
                assert(payload@ == encode_items(m));
            }
            let mut bytes = vec![TAG_ARRAY];
            let mut len_le = u64_to_le_bytes(payload.len() as u64);
            bytes.append(&mut len_le);
            let mut count_le = u32_to_le_bytes(items.len() as u32);
            bytes.append(&mut count_le);
            bytes.append(&mut payload);
            Ok(bytes)
        },
        Value::Object(fields) => encode_object(fields),
    }
}

fn encode_object(fields: &Fields) -> (r: Result<Vec<u8>, DbError>)
    ensures
        r is Ok <==> encodable(Value::Object(*fields).model()),
        r matches Ok(bytes) ==> bytes@ == encode(Value::Object(*fields).model()),
        r matches Err(e) ==> e is InvalidData,
    decreases Value::Object(*fields), 0nat,
{
    proof {
        lemma_object_model(*fields);
    }
    let ghost f = fields.model();
    if fields.len() > 0xffff_ffff {
        return Err(DbError::InvalidData(message("object has too many fields")));
    }
    let mut directory: Vec<u8> = Vec::new();
    let mut values: Vec<u8> = Vec::new();
    let mut i: usize = 0;
    proof {
        assert(f.subrange(0, f.len() as int) =~= f);
    }
    while i < fields.len()
        invariant
            0 <= i <= fields@.len(),
            f == fields.model(),
            f.len() == fields@.len(),
            Value::Object(*fields).model() == Doc::Object(f),
            fields@.len() <= 0xffff_ffff,
            encode_dir(f, 0) == directory@ + encode_dir(
                f.subrange(i as int, f.len() as int),
                values@.len() as nat,
            ),
            encode_vals(f) == values@ + encode_vals(f.subrange(i as int, f.len() as int)),
            fields_encodable(f, 0) == fields_encodable(
                f.subrange(i as int, f.len() as int),
                values@.len() as nat,
            ),
        decreases fields@.len() - i,
    {
        let ghost rest = f.subrange(i as int, f.len() as int);
        let (key, value) = fields.entry(i);
        proof {
            assert(rest[0] == f[i as int]);
            assert(rest.subrange(1, rest.len() as int) =~= f.subrange(i + 1, f.len() as int));
            crate::types::lemma_field_decreases(*fields, i as int);
        }
        let key_bytes = key.as_str().as_bytes();
        if key_bytes.len() > 0xffff {
            return Err(DbError::InvalidData(message("object key is too long")));
        }
        if values.len() > 0xffff_ffff {
            return Err(DbError::InvalidData(message("object values section is too large")));
        }
        let encoded = encode_value(value);
        let mut encoded = match encoded {
            Ok(b) => b,
            Err(e) => {
                return Err(e);
            },
        };
        let mut key_len = u16_to_le_bytes(key_bytes.len() as u16);
        directory.append(&mut key_len);
        push_all(&mut directory, key_bytes);
        directory.push(value_tag(value));
        let mut offset = u32_to_le_bytes(values.len() as u32);
        directory.append(&mut offset);
        values.append(&mut encoded);
        i = i + 1;
    }
    proof {
        assert(f.subrange(i as int, f.len() as int) =~= Seq::<(Seq<char>, Doc)>::empty());
        assert(directory@ == encode_dir(f, 0));
        assert(values@ == encode_vals(f));
    }
    if directory.len() > 0xffff_ffff {
        return Err(DbError::InvalidData(message("object directory is too large")));
    }
    let dir_len = directory.len() as u64;
    let vals_len = values.len() as u64;
    if dir_len > u64::MAX - vals_len {
        return Err(DbError::InvalidData(message("object payload is too large")));
    }
    let mut bytes = vec![TAG_OBJECT];
    let mut len_le = u64_to_le_bytes(dir_len + vals_len);
    bytes.append(&mut len_le);
    let mut count_le = u32_to_le_bytes(fields.len() as u32);
    bytes.append(&mut count_le);
    let mut dir_le = u32_to_le_bytes(directory.len() as u32);
    bytes.append(&mut dir_le);
    bytes.append(&mut directory);
    bytes.append(&mut values);
    Ok(bytes)
}

// ----- decoding ----------------------------------------------------------

/// Why bytes do not decode: a malformed layout, with its message, or a
/// string that is not UTF-8.
pub enum DecodeError {
    Format(Seq<char>),
    Utf8,
}

/// The name of a length-prefixed kind of value in messages.
pub open spec fn kind_name(tag: u8) -> Seq<char> {
    if tag == TAG_STRING {
        "string"@
    } else {
        "blob"@
    }
}

/// The message for a length-prefixed value of kind `kind` that does not
/// decode from `s`.
pub open spec fn bytes_text(s: Seq<u8>, tag: u8, kind: Seq<char>) -> Seq<char> {
    if s.len() < 5 {
        "truncated "@ + kind + " header"@
    } else if s[0] != tag {
        "expected "@ + kind + " tag"@
    } else if 5 + spec_u32_from_le_bytes(s.subrange(1, 5)) > usize::MAX {
        kind + " length overflow"@
    } else {
        "truncated "@ + kind + " payload"@
    }
}

/// The message for an array whose header does not fit the bytes.
pub open spec fn array_text(s: Seq<u8>) -> Seq<char> {
    let arr_len = spec_u64_from_le_bytes(s.subrange(1, 9));
    if arr_len > usize::MAX {
        "array payload length does not fit usize"@
    } else if 13 + arr_len > usize::MAX {
        "array length overflow"@
    } else {
        "truncated array payload"@
    }
}

/// The message for an object whose header does not fit the bytes.
pub open spec fn object_text(s: Seq<u8>) -> Seq<char> {
    let obj_len = spec_u64_from_le_bytes(s.subrange(1, 9));
    let dir_len = spec_u32_from_le_bytes(s.subrange(13, 17));
    if obj_len > usize::MAX {
        "object length does not fit usize"@
    } else if dir_len > obj_len {
        "object directory length exceeds payload length"@
    } else if 17 + obj_len > usize::MAX {
        "object length overflow"@
    } else {
        "truncated object payload"@
    }
}

/// The value at the start of `s` and the number of bytes it takes.
pub open spec fn decode(s: Seq<u8>) -> Result<(Doc, nat), DecodeError>
    decreases s.len(), 0nat, 0nat,
{
    if s.len() == 0 {
        Err(DecodeError::Format("missing value tag"@))
    } else if s[0] == TAG_NULL {
        Ok((Doc::Null, 1))
    } else if s[0] == TAG_FALSE {
        Ok((Doc::Bool(false), 1))
    } else if s[0] == TAG_TRUE {
        Ok((Doc::Bool(true), 1))
    } else if s[0] == TAG_INT || s[0] == TAG_FLOAT {
        if s.len() < 9 {
            Err(
                DecodeError::Format(
                    if s[0] == TAG_INT {
                        "truncated int payload"@
                    } else {
                        "truncated float payload"@
                    },
                ),
            )
        } else {
            let bits = spec_u64_from_le_bytes(s.subrange(1, 9));
            if s[0] == TAG_INT {
                Ok((Doc::Int(#[verifier::truncate] (bits as i64)), 9))
            } else {
                Ok((Doc::Float(bits), 9))
            }
        }
    } else if s[0] == TAG_STRING || s[0] == TAG_BLOB {
        if s.len() < 5 {
            Err(DecodeError::Format(bytes_text(s, s[0], kind_name(s[0]))))
        } else {
            let total = 5 + spec_u32_from_le_bytes(s.subrange(1, 5));
            if s.len() < total {
                Err(DecodeError::Format(bytes_text(s, s[0], kind_name(s[0]))))
            } else {
                let data = s.subrange(5, total);
                if s[0] == TAG_BLOB {
                    Ok((Doc::Blob(data), total as nat))
                } else if valid_utf8(data) {
                    Ok((Doc::Str(decode_utf8(data)), total as nat))
                } else {
                    Err(DecodeError::Utf8)
                }
            }
        }
    } else if s[0] == TAG_ARRAY {
        if s.len() < 13 {
            Err(DecodeError::Format("truncated array header"@))
        } else {
            let total = 13 + spec_u64_from_le_bytes(s.subrange(1, 9));
            let count = spec_u32_from_le_bytes(s.subrange(9, 13));
            if s.len() < total {
                Err(DecodeError::Format(array_text(s)))
            } else {
                let payload = s.subrange(13, total);
                match decode_items(payload, 0, count as nat, Seq::empty()) {
                    Err(e) => Err(e),
                    Ok((items, end)) => if end != payload.len() {
                        Err(
                            DecodeError::Format(
                                "array payload length does not match encoded elements"@,
                            ),
                        )
                    } else {
                        Ok((Doc::Array(items), total as nat))
                    },
                }
            }
        }
    } else if s[0] == TAG_OBJECT {
        if s.len() < 17 {
            Err(DecodeError::Format("truncated object header"@))
        } else {
            let obj_len = spec_u64_from_le_bytes(s.subrange(1, 9));
            let count = spec_u32_from_le_bytes(s.subrange(9, 13));
            let dir_len = spec_u32_from_le_bytes(s.subrange(13, 17));
            if dir_len > obj_len || s.len() < 17 + obj_len {
                Err(DecodeError::Format(object_text(s)))
            } else {
                let dir = s.subrange(17, 17 + dir_len);
                let vals = s.subrange(17 + dir_len, 17 + obj_len);
                match parse_dir(dir, count as nat, 0, Seq::empty()) {
                    Err(e) => Err(e),
                    Ok(entries) => match decode_fields(vals, entries, 0, 0, Seq::empty()) {
                        Err(e) => Err(e),
                        Ok(fields) => Ok((Doc::Object(fields), (17 + obj_len) as nat)),
                    },
                }
            }
        }
    } else {
        Err(DecodeError::Format("unknown value tag: "@ + decimal(s[0] as nat)))
    }
}

/// Decodes `remaining` values one after another from `p`, starting at
/// `offset`; gives the values and the offset after the last one.
pub open spec fn decode_items(p: Seq<u8>, offset: nat, remaining: nat, acc: Seq<Doc>) -> Result<
    (Seq<Doc>, nat),
    DecodeError,
>
    decreases p.len(), 1nat, remaining,
{
    if remaining == 0 {
        Ok((acc, offset))
    } else if offset > p.len() {
        Err(DecodeError::Format("truncated array payload"@))
    } else {
        match decode(p.subrange(offset as int, p.len() as int)) {
            Err(e) => Err(e),
            Ok((d, used)) => decode_items(p, offset + used, (remaining - 1) as nat, acc.push(d)),
        }
    }
}

/// Parses `count` directory entries of an object, from `offset` on: for each
/// the key, the tag of the value and the offset of the value.
pub open spec fn parse_dir(dir: Seq<u8>, count: nat, offset: nat, acc: Seq<(Seq<char>, u8, nat)>) -> Result<
    Seq<(Seq<char>, u8, nat)>,
    DecodeError,
>
    decreases count,
{
    if count == 0 {
        if offset != dir.len() {
            Err(DecodeError::Format("object directory length does not match entry count"@))
        } else {
            Ok(acc)
        }
    } else if offset + 2 > dir.len() {
        Err(DecodeError::Format("truncated object directory entry"@))
    } else {
        let key_end: int = offset + 2 + spec_u16_from_le_bytes(dir.subrange(offset as int, offset + 2int));
        if key_end + 5 > dir.len() {
            Err(DecodeError::Format("truncated object directory key or metadata"@))
        } else {
            let key = dir.subrange(offset + 2int, key_end);
            if !valid_utf8(key) {
                Err(DecodeError::Utf8)
            } else {
                parse_dir(
                    dir,
                    (count - 1) as nat,
                    (key_end + 5) as nat,
                    acc.push(
                        (
                            decode_utf8(key),
                            dir[key_end],
                            spec_u32_from_le_bytes(dir.subrange(key_end + 1, key_end + 5)) as nat,
                        ),
                    ),
                )
            }
        }
    }
}

/// Decodes the values of an object, in directory order, inserting each under
/// its key; `expected` is where the next value must start.
pub open spec fn decode_fields(
    vals: Seq<u8>,
    entries: Seq<(Seq<char>, u8, nat)>,
    idx: nat,
    expected: nat,
    acc: Seq<(Seq<char>, Doc)>,
) -> Result<Seq<(Seq<char>, Doc)>, DecodeError>
    decreases vals.len(), 1nat, entries.len() - idx,
{
    if idx >= entries.len() {
        if expected != vals.len() {
            Err(DecodeError::Format("object values section does not match directory offsets"@))
        } else {
            Ok(acc)
        }
    } else {
        let e = entries[idx as int];
        if vals.len() == 0 {
            Err(DecodeError::Format("object values section is empty for non-empty object"@))
        } else if e.2 >= vals.len() {
            Err(DecodeError::Format("object field '"@ + e.0 + "' offset is out of bounds"@))
        } else if e.2 != expected {
            Err(DecodeError::Format("object field '"@ + e.0 + "' offset is non-contiguous"@))
        } else {
            match decode(vals.subrange(e.2 as int, vals.len() as int)) {
                Err(x) => Err(x),
                Ok((d, used)) => if tag_of(d) != e.1 {
                    Err(
                        DecodeError::Format(
                            "object field '"@ + e.0 + "' directory tag does not match encoded value"@,
                        ),
                    )
                } else {
                    decode_fields(vals, entries, idx + 1, expected + used, assoc_insert(acc, e.0, d))
                },
            }
        }
    }
}

/// The error that a failed decoding reports.
pub open spec fn reports(e: DbError, k: DecodeError) -> bool {
    match k {
        DecodeError::Format(m) => e is InvalidFormat && e.detail() == m,
        DecodeError::Utf8 => e is Utf8,
    }
}

/// A decoded value takes at least one byte and no more than it was given.
pub proof fn lemma_decode_len(s: Seq<u8>)
    ensures
        decode(s) matches Ok((d, n)) ==> 1 <= n <= s.len(),
{
}

/// Fails with `InvalidFormat` unless `bytes` holds at least `needed` bytes.
pub fn require_len(bytes: &[u8], needed: usize, text: &str) -> (r: Result<(), DbError>)
    ensures
        r is Ok <==> bytes@.len() >= needed,
        r matches Err(e) ==> e is InvalidFormat && e.detail() == text@,
{
    if bytes.len() < needed {
        Err(DbError::InvalidFormat(message(text)))
    } else {
        Ok(())
    }
}

/// Reads a length-prefixed byte string whose tag is `tag`: the bytes and the
/// number of bytes the whole encoding takes.
pub fn decode_bytes<'a>(bytes: &'a [u8], tag: u8, kind: &str) -> (r: Result<
    (&'a [u8], usize),
    DbError,
>)
    ensures
        match r {
            Ok((data, used)) => {
                &&& bytes@.len() >= 5
                &&& bytes@[0] == tag
                &&& used == 5 + spec_u32_from_le_bytes(bytes@.subrange(1, 5))
                &&& used <= bytes@.len()
                &&& data@ == bytes@.subrange(5, used as int)
            },
            Err(e) => {
                &&& e is InvalidFormat
                &&& e.detail() == bytes_text(bytes@, tag, kind@)
                &&& (bytes@.len() < 5 || bytes@[0] != tag || bytes@.len() < 5 + spec_u32_from_le_bytes(
                    bytes@.subrange(1, 5),
                ))
            },
        },
{
    let header_len: usize = 5;
    match require_len(bytes, header_len, &crate::bytes::describe("truncated ", kind, " header")) {
        Ok(()) => {},
        Err(e) => {
            return Err(e);
        },
    }
    if bytes[0] != tag {
        return Err(DbError::InvalidFormat(crate::bytes::describe("expected ", kind, " tag")));
    }
    let len = u32_from_le_bytes(vstd::slice::slice_subrange(bytes, 1, 5)) as usize;
    if len > usize::MAX - header_len {
        proof {
            reveal_strlit("");
            assert(kind@ + " length overflow"@ + ""@ =~= kind@ + " length overflow"@);
        }
        return Err(
            DbError::InvalidFormat(crate::bytes::describe(kind, " length overflow", "")),
        );
    }
    if len > bytes.len() - header_len {
        return Err(
            DbError::InvalidFormat(crate::bytes::describe("truncated ", kind, " payload")),
        );
    }
    let total_len = header_len + len;
    Ok((vstd::slice::slice_subrange(bytes, 5, total_len), total_len))
}

/// The meaning of the result of `decode_value` on `bytes`.
pub open spec fn decoded(bytes: Seq<u8>, r: Result<(Value, usize), DbError>) -> bool {
    match r {
        Ok((v, n)) => decode(bytes) == Ok::<(Doc, nat), DecodeError>((v.model(), n as nat)) && v.wf(),
        Err(e) => decode(bytes) matches Err(k) && reports(e, k),
    }
}

/// Decodes the value at the start of `bytes`; gives it and the number of bytes
/// it takes.
pub fn decode_value(bytes: &[u8]) -> (r: Result<(Value, usize), DbError>)
    ensures
        decoded(bytes@, r),
    decreases bytes@.len(), 1nat,
{
    if bytes.len() == 0 {
        return Err(DbError::InvalidFormat(message("missing value tag")));
    }
    let tag = bytes[0];
    if tag == TAG_NULL {
        Ok((Value::Null, 1))
    } else if tag == TAG_FALSE {
        Ok((Value::Bool(false), 1))
    } else if tag == TAG_TRUE {
        Ok((Value::Bool(true), 1))
    } else if tag == TAG_INT || tag == TAG_FLOAT {
        let end: usize = 9;
        let text = if tag == TAG_INT {
            "truncated int payload"
        } else {
            "truncated float payload"
        };
        match require_len(bytes, end, text) {
            Ok(()) => {},
            Err(e) => {
                return Err(e);
            },
        }
        let bits = u64_from_le_bytes(vstd::slice::slice_subrange(bytes, 1, end));
        if tag == TAG_INT {
            Ok((Value::Int(#[verifier::truncate] (bits as i64)), end))
        } else {
            Ok((Value::Float(bits), end))
        }
    } else if tag == TAG_STRING {
        match decode_bytes(bytes, TAG_STRING, "string") {
            Ok((data, used)) => match crate::bytes::utf8_str(data) {
                Ok(text) => Ok((Value::String(text.to_owned()), used)),
                Err(e) => Err(DbError::Utf8(e)),
            },
            Err(e) => Err(e),
        }
    } else if tag == TAG_BLOB {
        match decode_bytes(bytes, TAG_BLOB, "blob") {
            Ok((data, used)) => Ok((Value::Blob(vstd::slice::slice_to_vec(data)), used)),
            Err(e) => Err(e),
        }
    } else if tag == TAG_ARRAY {
        decode_array(bytes)
    } else if tag == TAG_OBJECT {
        decode_object(bytes)
    } else {
        Err(DbError::InvalidFormat(crate::bytes::describe_number("unknown value tag: ", tag as usize)))
    }
}

#[verifier::loop_isolation(false)]
fn decode_array(bytes: &[u8]) -> (r: Result<(Value, usize), DbError>)
    requires
        bytes@.len() > 0,
        bytes@[0] == TAG_ARRAY,
    ensures
        decoded(bytes@, r),
    decreases bytes@.len(), 0nat,
{
    let header_len: usize = 13;
    match require_len(bytes, header_len, "truncated array header") {
        Ok(()) => {},
        Err(e) => {
            return Err(e);
        },
    }
    let arr_len = u64_from_le_bytes(vstd::slice::slice_subrange(bytes, 1, 9));
    let elem_count = u32_from_le_bytes(vstd::slice::slice_subrange(bytes, 9, 13));
    let blen = bytes.len();
    proof {
        assert(bytes@.len() == blen);
    }
    if arr_len > usize::MAX as u64 {
        return Err(DbError::InvalidFormat(message("array payload length does not fit usize")));
    }
    if arr_len > (usize::MAX - header_len) as u64 {
        return Err(DbError::InvalidFormat(message("array length overflow")));
    }
    if arr_len > (bytes.len() - header_len) as u64 {
        return Err(DbError::InvalidFormat(message("truncated array payload")));
    }
    let total_len = header_len + arr_len as usize;
    let payload = vstd::slice::slice_subrange(bytes, header_len, total_len);
    let ghost count = elem_count as nat;
    let mut offset: usize = 0;
    let mut values: Vec<Value> = Vec::new();
    let mut i: u32 = 0;
    proof {
        assert(models(values@) =~= Seq::<Doc>::empty());
    }
    while i < elem_count
        invariant
            0 <= offset <= payload@.len(),
            payload@.len() < bytes@.len(),
            i <= elem_count,
            decode_items(payload@, 0, count, Seq::empty()) == decode_items(
                payload@,
                offset as nat,
                (count - i) as nat,
                models(values@),
            ),
            forall|j: int| 0 <= j < values@.len() ==> (#[trigger] values@[j]).wf(),
        decreases elem_count - i,
    {
        let rest = vstd::slice::slice_subrange(payload, offset, payload.len());
        let ghost prev = values@;
        match decode_value(rest) {
            Ok((value, used)) => {
                proof {
                    lemma_decode_len(rest@);
                }
                proof {
                    assert(decode_items(payload@, offset as nat, (count - i) as nat, models(prev))
                        == decode_items(
                        payload@,
                        (offset + used) as nat,
                        (count - (i + 1)) as nat,
                        models(prev).push(value.model()),
                    ));
                }
                values.push(value);
                offset = offset + used;
                proof {
                    assert(models(values@) =~= models(prev).push(value.model()));
                }
            },
            Err(e) => {
                return Err(e);
            },
        }
        i = i + 1;
    }
    if offset != payload.len() {
        return Err(
            DbError::InvalidFormat(message("array payload length does not match encoded elements")),
        );
    }
    proof {
        lemma_array_model(values);
    }
    Ok((Value::Array(values), total_len))
}

/// Parses the directory of an object: for each of `field_count` entries, the
/// key, the tag of the value and the offset of the value.
pub fn parse_directory(dir_bytes: &[u8], field_count: usize) -> (r: Result<
    Vec<(String, u8, u32)>,
    DbError,
>)
    ensures
        match r {
            Ok(entries) => parse_dir(dir_bytes@, field_count as nat, 0, Seq::empty()) == Ok::<
                Seq<(Seq<char>, u8, nat)>,
                DecodeError,
            >(dir_model(entries@)),
            Err(e) => parse_dir(dir_bytes@, field_count as nat, 0, Seq::empty()) matches Err(k)
                && reports(e, k),
        },
{
    let mut offset: usize = 0;
    let mut entries: Vec<(String, u8, u32)> = Vec::new();
    let mut i: usize = 0;
    proof {
        assert(dir_model(entries@) =~= Seq::<(Seq<char>, u8, nat)>::empty());
    }
    while i < field_count
        invariant
            0 <= offset <= dir_bytes@.len(),
            i <= field_count,
            parse_dir(dir_bytes@, field_count as nat, 0, Seq::empty()) == parse_dir(
                dir_bytes@,
                (field_count - i) as nat,
                offset as nat,
                dir_model(entries@),
            ),
        decreases field_count - i,
    {
        if dir_bytes.len() - offset < 2 {
            return Err(DbError::InvalidFormat(message("truncated object directory entry")));
        }
        let key_len = u16_from_le_bytes(vstd::slice::slice_subrange(dir_bytes, offset, offset + 2))
            as usize;
        offset = offset + 2;
        if dir_bytes.len() - offset < key_len || dir_bytes.len() - offset - key_len < 5 {
            return Err(
                DbError::InvalidFormat(message("truncated object directory key or metadata")),
            );
        }
        let key_end = offset + key_len;
        let key = match crate::bytes::utf8_str(
            vstd::slice::slice_subrange(dir_bytes, offset, key_end),
        ) {
            Ok(text) => text.to_owned(),
            Err(e) => {
                return Err(DbError::Utf8(e));
            },
        };
        offset = key_end;
        let tag = dir_bytes[offset];
        offset = offset + 1;
        let value_offset = u32_from_le_bytes(
            vstd::slice::slice_subrange(dir_bytes, offset, offset + 4),
        );
        offset = offset + 4;
        let ghost prev = entries@;
        entries.push((key, tag, value_offset));
        proof {
            assert(dir_model(entries@) =~= dir_model(prev).push(
                (entries@.last().0@, tag, value_offset as nat),
            ));
        }
        i = i + 1;
    }
    if offset != dir_bytes.len() {
        return Err(
            DbError::InvalidFormat(message("object directory length does not match entry count")),
        );
    }
    Ok(entries)
}

/// The meaning of parsed directory entries.
pub open spec fn dir_model(entries: Seq<(String, u8, u32)>) -> Seq<(Seq<char>, u8, nat)> {
    Seq::new(entries.len(), |i: int| (entries[i].0@, entries[i].1, entries[i].2 as nat))
}

#[verifier::loop_isolation(false)]
fn decode_object(bytes: &[u8]) -> (r: Result<(Value, usize), DbError>)
    requires
        bytes@.len() > 0,
        bytes@[0] == TAG_OBJECT,
    ensures
        decoded(bytes@, r),
    decreases bytes@.len(), 0nat,
{
    let header_len: usize = 17;
    match require_len(bytes, header_len, "truncated object header") {
        Ok(()) => {},
        Err(e) => {
            return Err(e);
        },
    }
    let obj_len = u64_from_le_bytes(vstd::slice::slice_subrange(bytes, 1, 9));
    let field_count = u32_from_le_bytes(vstd::slice::slice_subrange(bytes, 9, 13)) as usize;
    let dir_bytes_len = u32_from_le_bytes(vstd::slice::slice_subrange(bytes, 13, 17)) as u64;
    let blen = bytes.len();
    proof {
        assert(bytes@.len() == blen);
    }
    if obj_len > usize::MAX as u64 {
        return Err(DbError::InvalidFormat(message("object length does not fit usize")));
    }
    if dir_bytes_len > obj_len {
        return Err(
            DbError::InvalidFormat(message("object directory length exceeds payload length")),
        );
    }
    if obj_len > (usize::MAX - header_len) as u64 {
        return Err(DbError::InvalidFormat(message("object length overflow")));
    }
    if obj_len > (bytes.len() - header_len) as u64 {
        return Err(DbError::InvalidFormat(message("truncated object payload")));
    }
    let total_len = header_len + obj_len as usize;
    let values_start = header_len + dir_bytes_len as usize;
    let dir_bytes = vstd::slice::slice_subrange(bytes, header_len, values_start);
    let values_bytes = vstd::slice::slice_subrange(bytes, values_start, total_len);
    let entries = match parse_directory(dir_bytes, field_count) {
        Ok(entries) => entries,
        Err(e) => {
            return Err(e);
        },
    };
    let ghost es = dir_model(entries@);
    let mut expected_offset: usize = 0;
    let mut object = Fields::new();
    let mut i: usize = 0;
    while i < entries.len()
        invariant
            0 <= i <= entries@.len(),
            es == dir_model(entries@),
            expected_offset <= values_bytes@.len(),
            values_bytes@.len() < bytes@.len(),
            decode_fields(values_bytes@, es, 0, 0, Seq::empty()) == decode_fields(
                values_bytes@,
                es,
                i as nat,
                expected_offset as nat,
                object.model(),
            ),
            keys_sorted(object.model()),
            forall|j: int| 0 <= j < object.model().len() ==> (#[trigger] object.model()[j]).1.wf(),
        decreases entries@.len() - i,
    {
        let key = entries[i].0.clone();
        let tag = entries[i].1;
        let offset = entries[i].2 as usize;
        if values_bytes.len() == 0 {
            return Err(
                DbError::InvalidFormat(
                    message("object values section is empty for non-empty object"),
                ),
            );
        }
        if offset >= values_bytes.len() {
            return Err(
                DbError::InvalidFormat(
                    crate::bytes::describe("object field '", key.as_str(), "' offset is out of bounds"),
                ),
            );
        }
        if offset != expected_offset {
            return Err(
                DbError::InvalidFormat(
                    crate::bytes::describe("object field '", key.as_str(), "' offset is non-contiguous"),
                ),
            );
        }
        let rest = vstd::slice::slice_subrange(values_bytes, offset, values_bytes.len());
        let (value, used) = match decode_value(rest) {
            Ok(pair) => pair,
            Err(e) => {
                return Err(e);
            },
        };
        proof {
            lemma_decode_len(rest@);
        }
        if value_tag(&value) != tag {
            return Err(
                DbError::InvalidFormat(
                    crate::bytes::describe(
                        "object field '",
                        key.as_str(),
                        "' directory tag does not match encoded value",
                    ),
                ),
            );
        }
        expected_offset = expected_offset + used;
        let ghost before = object.model();
        let ghost vm = value.model();
        proof {
            lemma_insert_sorted(before, key@, vm);
        }
        object.insert(key, value);
        proof {
            assert forall|j: int| 0 <= j < object.model().len() implies (
            #[trigger] object.model()[j]).1.wf() by {
                lemma_insert_entries(before, es[i as int].0, vm, j);
            }
        }
        i = i + 1;
    }
    if expected_offset != values_bytes.len() {
        return Err(
            DbError::InvalidFormat(
                message("object values section does not match directory offsets"),
            ),
        );
    }
    proof {
        lemma_object_model(object);
    }
    Ok((Value::Object(object), total_len))
}

} // verus!
