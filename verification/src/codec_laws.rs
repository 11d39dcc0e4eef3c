//! What the codec promises: decoding an encoding gives the value back, and
//! reports exactly the bytes that the encoding took.
use vstd::bytes::{
    lemma_auto_spec_u16_to_from_le_bytes, lemma_auto_spec_u32_to_from_le_bytes,
    lemma_auto_spec_u64_to_from_le_bytes, spec_u16_from_le_bytes, spec_u16_to_le_bytes,
    spec_u32_from_le_bytes, spec_u32_to_le_bytes, spec_u64_from_le_bytes, spec_u64_to_le_bytes,
};
use vstd::prelude::*;
use vstd::utf8::{decode_utf8, encode_utf8, encode_utf8_decode_utf8, encode_utf8_valid_utf8, valid_utf8};

use crate::codec::{
    decode, decode_fields, decode_items, dir_entry, encodable, encode, encode_dir, encode_items,
    encode_vals, fields_encodable, items_encodable, parse_dir, tag_of, DecodeError, TAG_STRING,
};
use crate::types::{assoc_insert, keys_sorted, lemma_insert_greatest, Doc};

verus! {

broadcast use {encode_utf8_decode_utf8, encode_utf8_valid_utf8};

/// The directory entries that `parse_dir` reads back from `encode_dir`.
pub open spec fn dir_entries(fields: Seq<(Seq<char>, Doc)>, offset: nat) -> Seq<
    (Seq<char>, u8, nat),
>
    decreases fields.len(),
{
    if fields.len() == 0 {
        Seq::empty()
    } else {
        seq![(fields[0].0, tag_of(fields[0].1), offset)] + dir_entries(
            fields.subrange(1, fields.len() as int),
            offset + encode(fields[0].1).len(),
        )
    }
}

proof fn lemma_le_round_trips()
    ensures
        forall|x: u64|
            #![trigger spec_u64_to_le_bytes(x)]
            spec_u64_to_le_bytes(x).len() == 8 && spec_u64_from_le_bytes(spec_u64_to_le_bytes(x))
                == x,
        forall|x: u32|
            #![trigger spec_u32_to_le_bytes(x)]
            spec_u32_to_le_bytes(x).len() == 4 && spec_u32_from_le_bytes(spec_u32_to_le_bytes(x))
                == x,
        forall|x: u16|
            #![trigger spec_u16_to_le_bytes(x)]
            spec_u16_to_le_bytes(x).len() == 2 && spec_u16_from_le_bytes(spec_u16_to_le_bytes(x))
                == x,
{
    lemma_auto_spec_u64_to_from_le_bytes();
    lemma_auto_spec_u32_to_from_le_bytes();
    lemma_auto_spec_u16_to_from_le_bytes();
}

/// Every encoding starts with its tag and is not empty.
pub proof fn lemma_encode_nonempty(d: Doc)
    ensures
        encode(d).len() >= 1,
        encode(d)[0] == tag_of(d),
{
}

/// Decoding the encoding of a well-formed, encodable value, followed by any
/// bytes, gives the value and the length of its encoding.
pub proof fn law_decode_after_encode(d: Doc, t: Seq<u8>)
    requires
        d.wf(),
        encodable(d),
    ensures
        decode(encode(d) + t) == Ok::<(Doc, nat), DecodeError>((d, encode(d).len())),
    decreases d,
{
    lemma_le_round_trips();
    let s = encode(d) + t;
    match d {
        Doc::Null => {
            assert(s[0] == 0u8);
        },
        Doc::Bool(b) => {
            assert(s[0] == if b {
                2u8
            } else {
                1u8
            });
        },
        Doc::Int(i) => {
            let x = #[verifier::truncate] (i as u64);
            assert(s[0] == 3u8);
            assert(s.subrange(1, 9) =~= spec_u64_to_le_bytes(x));
            assert((#[verifier::truncate] (x as i64)) == i) by (bit_vector)
                requires
                    x == #[verifier::truncate] (i as u64),
            ;
        },
        Doc::Float(bits) => {
            assert(s[0] == 4u8);
            assert(s.subrange(1, 9) =~= spec_u64_to_le_bytes(bits));
        },
        Doc::Str(text) => {
            let data = encode_utf8(text);
            let n = data.len() as u32;
            assert(s[0] == 5u8);
            assert(s.subrange(1, 5) =~= spec_u32_to_le_bytes(n));
            assert(s.subrange(5, 5 + data.len() as int) =~= data);
        },
        Doc::Blob(b) => {
            let n = b.len() as u32;
            assert(s[0] == 6u8);
            assert(s.subrange(1, 5) =~= spec_u32_to_le_bytes(n));
            assert(s.subrange(5, 5 + b.len() as int) =~= b);
        },
        Doc::Array(items) => {
            let p = encode_items(items);
            assert(s[0] == 7u8);
            assert(s.subrange(1, 9) =~= spec_u64_to_le_bytes(p.len() as u64));
            assert(s.subrange(9, 13) =~= spec_u32_to_le_bytes(items.len() as u32));
            assert(s.subrange(13, 13 + p.len() as int) =~= p);
            lemma_decode_items(items, Seq::empty(), Seq::empty());
            assert(Seq::<u8>::empty() + p =~= p);
            assert(Seq::<Doc>::empty() + items =~= items);
        },
        Doc::Object(fields) => {
            let dir = encode_dir(fields, 0);
            let vals = encode_vals(fields);
            assert(s[0] == 8u8);
            assert(s.subrange(1, 9) =~= spec_u64_to_le_bytes((dir.len() + vals.len()) as u64));
            assert(s.subrange(9, 13) =~= spec_u32_to_le_bytes(fields.len() as u32));
            assert(s.subrange(13, 17) =~= spec_u32_to_le_bytes(dir.len() as u32));
            assert(s.subrange(17, 17 + dir.len() as int) =~= dir);
            assert(s.subrange(17 + dir.len() as int, 17 + dir.len() + vals.len() as int) =~= vals);
            lemma_parse_dir(fields, 0, Seq::empty(), Seq::empty());
            assert(Seq::<u8>::empty() + dir =~= dir);
            assert(Seq::<(Seq<char>, u8, nat)>::empty() + dir_entries(fields, 0) =~= dir_entries(
                fields,
                0,
            ));
            assert(Seq::<(Seq<char>, Doc)>::empty() + fields =~= fields);
            lemma_decode_fields(fields, Seq::empty(), Seq::empty(), Seq::empty());
            assert(Seq::<u8>::empty() + vals =~= vals);
        },
    }
}

/// Decoding the encodings of the items, one after another.
pub proof fn lemma_decode_items(items: Seq<Doc>, pre: Seq<u8>, acc: Seq<Doc>)
    requires
        forall|i: int| 0 <= i < items.len() ==> (#[trigger] items[i]).wf(),
        items_encodable(items),
    ensures
        decode_items(pre + encode_items(items), pre.len(), items.len(), acc) == Ok::<
            (Seq<Doc>, nat),
            DecodeError,
        >((acc + items, (pre + encode_items(items)).len())),
    decreases items,
{
    let p = pre + encode_items(items);
    if items.len() == 0 {
        assert(acc + items =~= acc);
        assert(p =~= pre);
    } else {
        let rest = items.subrange(1, items.len() as int);
        let e0 = encode(items[0]);
        assert(p.subrange(pre.len() as int, p.len() as int) =~= e0 + encode_items(rest));
        law_decode_after_encode(items[0], encode_items(rest));
        assert forall|i: int| 0 <= i < rest.len() implies (#[trigger] rest[i]).wf() by {
            assert(rest[i] == items[i + 1]);
        }
        lemma_decode_items(rest, pre + e0, acc.push(items[0]));
        assert((pre + e0) + encode_items(rest) =~= p);
        assert(acc.push(items[0]) + rest =~= acc + items);
    }
}

/// Parsing the directory that `encode_dir` wrote.
pub proof fn lemma_parse_dir(
    fields: Seq<(Seq<char>, Doc)>,
    offset: nat,
    pre: Seq<u8>,
    acc: Seq<(Seq<char>, u8, nat)>,
)
    requires
        fields_encodable(fields, offset),
    ensures
        parse_dir(pre + encode_dir(fields, offset), fields.len(), pre.len(), acc) == Ok::<
            Seq<(Seq<char>, u8, nat)>,
            DecodeError,
        >(acc + dir_entries(fields, offset)),
    decreases fields.len(),
{
    lemma_le_round_trips();
    let d = pre + encode_dir(fields, offset);
    if fields.len() == 0 {
        assert(d =~= pre);
        assert(acc + dir_entries(fields, offset) =~= acc);
    } else {
        let rest = fields.subrange(1, fields.len() as int);
        let key = fields[0].0;
        let kb = encode_utf8(key);
        let entry = dir_entry(key, fields[0].1, offset);
        let next = offset + encode(fields[0].1).len();
        let pl = pre.len() as int;
        assert(d =~= (pre + entry) + encode_dir(rest, next));
        assert(d.subrange(pl, pl + 2) =~= spec_u16_to_le_bytes(kb.len() as u16));
        let key_end = pl + 2 + kb.len();
        assert(d.subrange(pl + 2, key_end) =~= kb);
        assert(d[key_end] == tag_of(fields[0].1));
        assert(d.subrange(key_end + 1, key_end + 5) =~= spec_u32_to_le_bytes(offset as u32));
        let e = (key, tag_of(fields[0].1), offset);
        lemma_parse_dir(rest, next, pre + entry, acc.push(e));
        assert(acc.push(e) + dir_entries(rest, next) =~= acc + dir_entries(fields, offset));
    }
}

/// Decoding the values section: every value comes back under its key, and in
/// key order each insertion appends.
pub proof fn lemma_decode_fields(
    fields: Seq<(Seq<char>, Doc)>,
    pre: Seq<u8>,
    entries_before: Seq<(Seq<char>, u8, nat)>,
    acc: Seq<(Seq<char>, Doc)>,
)
    requires
        forall|i: int| 0 <= i < fields.len() ==> (#[trigger] fields[i]).1.wf(),
        fields_encodable(fields, pre.len()),
        keys_sorted(acc + fields),
    ensures
        decode_fields(
            pre + encode_vals(fields),
            entries_before + dir_entries(fields, pre.len()),
            entries_before.len(),
            pre.len(),
            acc,
        ) == Ok::<Seq<(Seq<char>, Doc)>, DecodeError>(acc + fields),
    decreases fields,
{
    let v = pre + encode_vals(fields);
    let es = entries_before + dir_entries(fields, pre.len());
    if fields.len() == 0 {
        assert(v =~= pre);
        assert(es =~= entries_before);
        assert(acc + fields =~= acc);
    } else {
        let rest = fields.subrange(1, fields.len() as int);
        let (key, value) = fields[0];
        let e0 = encode(value);
        lemma_encode_nonempty(value);
        let pl = pre.len() as int;
        assert(es[entries_before.len() as int] == (key, tag_of(value), pre.len()));
        assert(v.subrange(pl, v.len() as int) =~= e0 + encode_vals(rest));
        law_decode_after_encode(value, encode_vals(rest));
        assert forall|j: int| 0 <= j < acc.len() implies crate::bytes::key_lt(
            #[trigger] acc[j].0,
            key,
        ) by {
            let all = acc + fields;
            assert(all[j] == acc[j]);
            assert(all[acc.len() as int] == fields[0]);
            assert(crate::bytes::key_lt(all[j].0, all[acc.len() as int].0));
        }
        lemma_insert_greatest(acc, key, value);
        let acc2 = acc.push((key, value));
        assert(acc2 + rest =~= acc + fields);
        assert forall|i: int| 0 <= i < rest.len() implies (#[trigger] rest[i]).1.wf() by {
            assert(rest[i] == fields[i + 1]);
        }
        lemma_decode_fields(rest, pre + e0, entries_before.push((key, tag_of(value), pre.len())), acc2);
        assert((pre + e0) + encode_vals(rest) =~= v);
        assert(entries_before.push((key, tag_of(value), pre.len())) + dir_entries(
            rest,
            (pre + e0).len(),
        ) =~= es);
    }
}

/// Every decoded value is well-formed: its objects keep their keys in order.
pub proof fn lemma_decode_wf(s: Seq<u8>)
    ensures
        decode(s) matches Ok((d, _)) ==> d.wf(),
    decreases s.len(), 0nat, 0nat,
{
    if s.len() > 0 && s[0] == crate::codec::TAG_ARRAY && s.len() >= 13 {
        let total = 13 + spec_u64_from_le_bytes(s.subrange(1, 9));
        let count = spec_u32_from_le_bytes(s.subrange(9, 13));
        if s.len() >= total {
            lemma_decode_items_wf(s.subrange(13, total), 0, count as nat, Seq::empty());
        }
    } else if s.len() > 0 && s[0] == crate::codec::TAG_OBJECT && s.len() >= 17 {
        let obj_len = spec_u64_from_le_bytes(s.subrange(1, 9));
        let count = spec_u32_from_le_bytes(s.subrange(9, 13));
        let dir_len = spec_u32_from_le_bytes(s.subrange(13, 17));
        if !(dir_len > obj_len || s.len() < 17 + obj_len) {
            let dir = s.subrange(17, 17 + dir_len);
            let vals = s.subrange(17 + dir_len, 17 + obj_len);
            if let Ok(entries) = parse_dir(dir, count as nat, 0, Seq::empty()) {
                lemma_decode_fields_wf(vals, entries, 0, 0, Seq::empty());
            }
        }
    }
}

proof fn lemma_decode_items_wf(p: Seq<u8>, offset: nat, remaining: nat, acc: Seq<Doc>)
    requires
        forall|i: int| 0 <= i < acc.len() ==> (#[trigger] acc[i]).wf(),
    ensures
        decode_items(p, offset, remaining, acc) matches Ok((items, _)) ==> forall|i: int|
            0 <= i < items.len() ==> (#[trigger] items[i]).wf(),
    decreases p.len(), 1nat, remaining,
{
    if remaining > 0 && offset <= p.len() {
        let rest = p.subrange(offset as int, p.len() as int);
        lemma_decode_wf(rest);
        if let Ok((d, used)) = decode(rest) {
            let acc2 = acc.push(d);
            assert forall|i: int| 0 <= i < acc2.len() implies (#[trigger] acc2[i]).wf() by {
                if i < acc.len() {
                    assert(acc2[i] == acc[i]);
                }
            }
            lemma_decode_items_wf(p, offset + used, (remaining - 1) as nat, acc2);
        }
    }
}

proof fn lemma_decode_fields_wf(
    vals: Seq<u8>,
    entries: Seq<(Seq<char>, u8, nat)>,
    idx: nat,
    expected: nat,
    acc: Seq<(Seq<char>, Doc)>,
)
    requires
        Doc::Object(acc).wf(),
    ensures
        decode_fields(vals, entries, idx, expected, acc) matches Ok(f) ==> Doc::Object(f).wf(),
    decreases vals.len(), 1nat, entries.len() - idx,
{
    if idx < entries.len() {
        let e = entries[idx as int];
        if !(e.2 >= vals.len() || e.2 != expected) {
            let rest = vals.subrange(e.2 as int, vals.len() as int);
            lemma_decode_wf(rest);
            if let Ok((d, used)) = decode(rest) {
                if tag_of(d) == e.1 {
                    crate::types::lemma_wf_insert(acc, e.0, d);
                    lemma_decode_fields_wf(vals, entries, idx + 1, expected + used, assoc_insert(acc, e.0, d));
                }
            }
        }
    }
}

/// Decoding ignores what follows a value: where the bytes decode, the same
/// bytes followed by any others decode to the same value and length.
pub proof fn law_decode_ignores_trailing(s: Seq<u8>, t: Seq<u8>)
    requires
        decode(s) is Ok,
    ensures
        decode(s + t) == decode(s),
{
    let st = s + t;
    assert(st[0] == s[0]);
    if s.len() >= 9 {
        assert(st.subrange(1, 9) =~= s.subrange(1, 9));
    }
    if s.len() >= 5 {
        assert(st.subrange(1, 5) =~= s.subrange(1, 5));
    }
    if s.len() >= 13 {
        assert(st.subrange(9, 13) =~= s.subrange(9, 13));
    }
    if s.len() >= 17 {
        assert(st.subrange(13, 17) =~= s.subrange(13, 17));
    }
    if s[0] == crate::codec::TAG_STRING || s[0] == crate::codec::TAG_BLOB {
        let total = 5 + spec_u32_from_le_bytes(s.subrange(1, 5));
        assert(st.subrange(5, total) =~= s.subrange(5, total));
    } else if s[0] == crate::codec::TAG_ARRAY {
        let total = 13 + spec_u64_from_le_bytes(s.subrange(1, 9));
        assert(st.subrange(13, total) =~= s.subrange(13, total));
    } else if s[0] == crate::codec::TAG_OBJECT {
        let obj_len = spec_u64_from_le_bytes(s.subrange(1, 9));
        let dir_len = spec_u32_from_le_bytes(s.subrange(13, 17));
        assert(st.subrange(17, 17 + dir_len) =~= s.subrange(17, 17 + dir_len));
        assert(st.subrange(17 + dir_len, 17 + obj_len) =~= s.subrange(17 + dir_len, 17 + obj_len));
    }
}

/// Decoding reads only the bytes it reports: where the bytes decode to a
/// value that takes `n` of them, their first `n` bytes alone decode to the
/// same value and length.
pub proof fn law_decode_prefix(s: Seq<u8>)
    requires
        decode(s) is Ok,
    ensures
        decode(s.take(decode(s)->Ok_0.1 as int)) == decode(s),
{
    crate::codec::lemma_decode_len(s);
    let n = decode(s)->Ok_0.1;
    let p = s.take(n as int);
    assert(p[0] == s[0]);
    if n >= 9 {
        assert(p.subrange(1, 9) =~= s.subrange(1, 9));
    }
    if n >= 5 {
        assert(p.subrange(1, 5) =~= s.subrange(1, 5));
    }
    if n >= 13 {
        assert(p.subrange(9, 13) =~= s.subrange(9, 13));
    }
    if n >= 17 {
        assert(p.subrange(13, 17) =~= s.subrange(13, 17));
    }
    if s[0] == crate::codec::TAG_STRING || s[0] == crate::codec::TAG_BLOB {
        let total = 5 + spec_u32_from_le_bytes(s.subrange(1, 5));
        assert(p.subrange(5, total) =~= s.subrange(5, total));
    } else if s[0] == crate::codec::TAG_ARRAY {
        let total = 13 + spec_u64_from_le_bytes(s.subrange(1, 9));
        assert(p.subrange(13, total) =~= s.subrange(13, total));
    } else if s[0] == crate::codec::TAG_OBJECT {
        let obj_len = spec_u64_from_le_bytes(s.subrange(1, 9));
        let dir_len = spec_u32_from_le_bytes(s.subrange(13, 17));
        assert(p.subrange(17, 17 + dir_len) =~= s.subrange(17, 17 + dir_len));
        assert(p.subrange(17 + dir_len, 17 + obj_len) =~= s.subrange(17 + dir_len, 17 + obj_len));
    }
}

/// Every scalar is encodable, and so is every string whose UTF-8 bytes, and
/// every blob whose bytes, fit a four-byte length: nothing shorter is
/// refused. Such a string is written as its tag, its byte length in four
/// little-endian bytes and its bytes, and decodes back to itself.
pub proof fn law_small_values_encodable(s: Seq<char>, b: Seq<u8>, i: i64, bits: u64, flag: bool)
    ensures
        encodable(Doc::Null),
        encodable(Doc::Bool(flag)),
        encodable(Doc::Int(i)),
        encodable(Doc::Float(bits)),
        encodable(Doc::Str(s)) <==> encode_utf8(s).len() <= u32::MAX,
        encodable(Doc::Blob(b)) <==> b.len() <= u32::MAX,
        encode_utf8(s).len() <= u32::MAX ==> {
            let e = encode(Doc::Str(s));
            &&& e.len() == 5 + encode_utf8(s).len()
            &&& e[0] == TAG_STRING
            &&& spec_u32_from_le_bytes(e.subrange(1, 5)) == encode_utf8(s).len()
            &&& e.subrange(5, e.len() as int) == encode_utf8(s)
            &&& decode(e) == Ok::<(Doc, nat), DecodeError>((Doc::Str(s), e.len()))
        },
{
    lemma_le_round_trips();
    if encode_utf8(s).len() <= u32::MAX {
        let d = Doc::Str(s);
        let e = encode(d);
        let n = encode_utf8(s).len() as u32;
        assert(e.subrange(1, 5) =~= spec_u32_to_le_bytes(n));
        assert(e.subrange(5, e.len() as int) =~= encode_utf8(s));
        law_decode_after_encode(d, Seq::empty());
        assert(e + Seq::<u8>::empty() =~= e);
    }
}

} // verus!
