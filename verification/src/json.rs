//! JSON values as plain trees: reading JSON text through `serde_json` into a
//! `JsonTree`, converting a tree into a document, and a document into a tree.
use vstd::prelude::*;

use crate::bytes::key_lt;
use crate::error::{DbError, ErrorKind};
use crate::types::{
    assoc_insert, keys_sorted, lemma_array_model, lemma_insert_greatest, lemma_object_model,
    lemma_wf_insert, models, Doc, Fields, Value,
};

verus! {

/// A JSON value with its parts as plain values.
///
/// `Number(int, bits)`: `int` is the number when it is an integer in the
/// range of `i64`; otherwise `bits` is the bit pattern of the 64-bit float it
/// denotes. Where `int` is present, `bits` is not read.
pub enum JsonTree {
    Null,
    Bool(bool),
    Number(Option<i64>, u64),
    String(String),
    Array(Vec<JsonTree>),
    Object(Vec<(String, JsonTree)>),
}

/// What a `JsonTree` holds.
pub enum JsonDoc {
    Null,
    Bool(bool),
    Number(Option<i64>, u64),
    Str(Seq<char>),
    Array(Seq<JsonDoc>),
    Object(Seq<(Seq<char>, JsonDoc)>),
}

impl JsonTree {
    /// The plain value of the tree.
    pub open spec fn doc(self) -> JsonDoc
        decreases self,
    {
        match self {
            JsonTree::Null => JsonDoc::Null,
            JsonTree::Bool(b) => JsonDoc::Bool(b),
            JsonTree::Number(i, bits) => JsonDoc::Number(i, bits),
            JsonTree::String(s) => JsonDoc::Str(s@),
            JsonTree::Array(items) => JsonDoc::Array(
                Seq::new(
                    items@.len(),
                    |i: int|
                        if 0 <= i < items@.len() {
                            items@[i].doc()
                        } else {
                            JsonDoc::Null
                        },
                ),
            ),
            JsonTree::Object(entries) => JsonDoc::Object(
                Seq::new(
                    entries@.len(),
                    |i: int|
                        if 0 <= i < entries@.len() {
                            (entries@[i].0@, entries@[i].1.doc())
                        } else {
                            (Seq::empty(), JsonDoc::Null)
                        },
                ),
            ),
        }
    }
}

/// Whether `serde_json::from_str` accepts `text` as a JSON value. This
/// depends on the text alone.
pub uninterp spec fn json_text_accepted(text: Seq<char>) -> bool;

/// The value that `serde_json::from_str` reads from `text` where it accepts
/// it, as a plain tree. This depends on the text alone.
pub uninterp spec fn json_document(text: Seq<char>) -> JsonDoc;

/// Moves a `serde_json::Value` into a `JsonTree`, variant by variant; a
/// number keeps what `as_i64` and `as_f64` give. Nothing is stated: Verus
/// cannot look into the argument.
#[verifier::external_body]
fn json_tree(v: serde_json::Value) -> JsonTree {
    match v {
        serde_json::Value::Null => JsonTree::Null,
        serde_json::Value::Bool(b) => JsonTree::Bool(b),
        serde_json::Value::Number(n) => JsonTree::Number(
            n.as_i64(),
            n.as_f64().map(|x| x.to_bits()).unwrap_or(0),
        ),
        serde_json::Value::String(s) => JsonTree::String(s),
        serde_json::Value::Array(items) => JsonTree::Array(items.into_iter().map(json_tree).collect()),
        serde_json::Value::Object(map) => JsonTree::Object(
            map.into_iter().map(|(k, v)| (k, json_tree(v))).collect(),
        ),
    }
}

/// Calls `serde_json::from_str` to parse JSON text, and moves the value into
/// a `JsonTree`. It succeeds exactly when the text is accepted, and the tree
/// is then the named document of the text.
#[verifier::external_body]
fn parse_json_text(input: &str) -> (r: Result<JsonTree, serde_json::Error>)
    ensures
        r is Ok <==> json_text_accepted(input@),
        r matches Ok(t) ==> t.doc() == json_document(input@),
{
    serde_json::from_str(input).map(json_tree)
}

// ----- from JSON to documents --------------------------------------------

/// The document a JSON value becomes: an integer that fits `i64` becomes
/// `Int`, any other number `Float` with its bits; an object becomes the map
/// of its entries, a later entry replacing an earlier one with the same key.
pub open spec fn json_to_doc(j: JsonDoc) -> Doc
    decreases j,
{
    match j {
        JsonDoc::Null => Doc::Null,
        JsonDoc::Bool(b) => Doc::Bool(b),
        JsonDoc::Number(whole, bits) => match whole {
            Some(i) => Doc::Int(i),
            None => Doc::Float(bits),
        },
        JsonDoc::Str(s) => Doc::Str(s),
        JsonDoc::Array(items) => Doc::Array(json_items(items)),
        JsonDoc::Object(entries) => Doc::Object(json_fields(entries, Seq::empty())),
    }
}

/// The documents of the items of a JSON array.
pub open spec fn json_items(items: Seq<JsonDoc>) -> Seq<Doc>
    decreases items,
{
    if items.len() == 0 {
        Seq::empty()
    } else {
        seq![json_to_doc(items[0])] + json_items(items.subrange(1, items.len() as int))
    }
}

/// The fields `acc` after inserting each entry of a JSON object in turn.
pub open spec fn json_fields(entries: Seq<(Seq<char>, JsonDoc)>, acc: Seq<(Seq<char>, Doc)>) -> Seq<
    (Seq<char>, Doc),
>
    decreases entries,
{
    if entries.len() == 0 {
        acc
    } else {
        json_fields(
            entries.subrange(1, entries.len() as int),
            assoc_insert(acc, entries[0].0, json_to_doc(entries[0].1)),
        )
    }
}

/// What reading JSON text gives: the document of the parsed value, or a
/// `Json` error where `serde_json` refuses the text.
pub open spec fn json_input(text: Seq<char>) -> Result<Doc, ErrorKind> {
    if json_text_accepted(text) {
        Ok(json_to_doc(json_document(text)))
    } else {
        Err(ErrorKind::Json)
    }
}

proof fn lemma_json_item_decreases(items: Vec<JsonTree>, i: int)
    requires
        0 <= i < items@.len(),
    ensures
        decreases_to!(JsonTree::Array(items) => items@[i]),
{
    let t = JsonTree::Array(items);
    assert(decreases_to!(t => t->Array_0));
    assert(decreases_to!(items => items@));
    assert(decreases_to!(items@ => items@[i]));
}

proof fn lemma_json_entry_decreases(entries: Vec<(String, JsonTree)>, i: int)
    requires
        0 <= i < entries@.len(),
    ensures
        decreases_to!(JsonTree::Object(entries) => entries@[i].1),
{
    let t = JsonTree::Object(entries);
    assert(decreases_to!(t => t->Object_0));
    assert(decreases_to!(entries => entries@));
    assert(decreases_to!(entries@ => entries@[i]));
    assert(decreases_to!(entries@[i] => entries@[i].1));
}

/// Converting a JSON value keeps every object's keys in order.
proof fn lemma_json_to_doc_wf(j: JsonDoc)
    ensures
        json_to_doc(j).wf(),
    decreases j, 0nat,
{
    match j {
        JsonDoc::Array(items) => lemma_json_items_wf(items),
        JsonDoc::Object(entries) => lemma_json_fields_wf(entries, Seq::empty()),
        _ => {},
    }
}

proof fn lemma_json_items_wf(items: Seq<JsonDoc>)
    ensures
        forall|i: int| 0 <= i < json_items(items).len() ==> (#[trigger] json_items(items)[i]).wf(),
        json_items(items).len() == items.len(),
    decreases items, 1nat,
{
    if items.len() > 0 {
        let rest = items.subrange(1, items.len() as int);
        lemma_json_to_doc_wf(items[0]);
        lemma_json_items_wf(rest);
        assert forall|i: int| 0 <= i < json_items(items).len() implies (#[trigger] json_items(
            items,
        )[i]).wf() by {
            if i > 0 {
                assert(json_items(items)[i] == json_items(rest)[i - 1]);
            }
        }
    }
}

proof fn lemma_json_fields_wf(entries: Seq<(Seq<char>, JsonDoc)>, acc: Seq<(Seq<char>, Doc)>)
    requires
        Doc::Object(acc).wf(),
    ensures
        Doc::Object(json_fields(entries, acc)).wf(),
    decreases entries, 1nat,
{
    if entries.len() > 0 {
        lemma_json_to_doc_wf(entries[0].1);
        lemma_wf_insert(acc, entries[0].0, json_to_doc(entries[0].1));
        lemma_json_fields_wf(
            entries.subrange(1, entries.len() as int),
            assoc_insert(acc, entries[0].0, json_to_doc(entries[0].1)),
        );
    }
}

/// Converts a JSON tree into a document.
fn json_value(tree: &JsonTree) -> (r: Value)
    ensures
        r.model() == json_to_doc(tree.doc()),
        r.wf(),
    decreases tree,
{
    proof {
        lemma_json_to_doc_wf(tree.doc());
    }
    match tree {
        JsonTree::Null => Value::Null,
        JsonTree::Bool(b) => Value::Bool(*b),
        JsonTree::Number(whole, bits) => match whole {
            Some(i) => Value::Int(*i),
            None => Value::Float(*bits),
        },
        JsonTree::String(s) => Value::String(s.clone()),
        JsonTree::Array(items) => {
            let ghost docs = tree.doc()->Array_0;
            let mut values: Vec<Value> = Vec::new();
            let mut i: usize = 0;
            proof {
                assert(docs.subrange(0, docs.len() as int) =~= docs);
            }
            while i < items.len()
                invariant
                    0 <= i <= items@.len(),
                    *tree == JsonTree::Array(*items),
                    docs == tree.doc()->Array_0,
                    docs.len() == items@.len(),
                    forall|j: int| 0 <= j < items@.len() ==> docs[j] == (#[trigger] items@[j]).doc(),
                    json_items(docs) == models(values@) + json_items(
                        docs.subrange(i as int, docs.len() as int),
                    ),
                    values@.len() == i,
                decreases items@.len() - i,
            {
                let ghost rest = docs.subrange(i as int, docs.len() as int);
                proof {
                    lemma_json_item_decreases(*items, i as int);
                    assert(rest[0] == docs[i as int]);
                    assert(rest.subrange(1, rest.len() as int) =~= docs.subrange(
                        i + 1,
                        docs.len() as int,
                    ));
                }
                let v = json_value(&items[i]);
                let ghost before = values@;
                values.push(v);
                proof {
                    assert(models(values@) =~= models(before) + seq![v.model()]);
                    assert(models(before) + (seq![v.model()] + json_items(
                        docs.subrange(i + 1, docs.len() as int),
                    )) =~= models(values@) + json_items(docs.subrange(i + 1, docs.len() as int)));
                }
                i = i + 1;
            }
            proof {
                assert(docs.subrange(i as int, docs.len() as int) =~= Seq::<JsonDoc>::empty());
                assert(models(values@) + Seq::<Doc>::empty() =~= models(values@));
                lemma_array_model(values);
            }
            Value::Array(values)
        },
        JsonTree::Object(entries) => {
            let ghost docs = tree.doc()->Object_0;
            let mut fields = Fields::new();
            let mut i: usize = 0;
            proof {
                assert(docs.subrange(0, docs.len() as int) =~= docs);
            }
            while i < entries.len()
                invariant
                    0 <= i <= entries@.len(),
                    *tree == JsonTree::Object(*entries),
                    docs == tree.doc()->Object_0,
                    docs.len() == entries@.len(),
                    forall|j: int|
                        0 <= j < entries@.len() ==> docs[j] == ((#[trigger] entries@[j]).0@,
                        entries@[j].1.doc()),
                    Doc::Object(fields.model()).wf(),
                    json_fields(docs, Seq::empty()) == json_fields(
                        docs.subrange(i as int, docs.len() as int),
                        fields.model(),
                    ),
                decreases entries@.len() - i,
            {
                let ghost rest = docs.subrange(i as int, docs.len() as int);
                proof {
                    lemma_json_entry_decreases(*entries, i as int);
                    assert(rest[0] == docs[i as int]);
                    assert(rest.subrange(1, rest.len() as int) =~= docs.subrange(
                        i + 1,
                        docs.len() as int,
                    ));
                }
                let v = json_value(&entries[i].1);
                let key = entries[i].0.clone();
                proof {
                    lemma_wf_insert(fields.model(), key@, v.model());
                }
                fields.insert(key, v);
                i = i + 1;
            }
            proof {
                assert(docs.subrange(i as int, docs.len() as int) =~= Seq::<
                    (Seq<char>, JsonDoc),
                >::empty());
                lemma_object_model(fields);
            }
            Value::Object(fields)
        },
    }
}

impl Value {
    /// Reads JSON text as a document: the document of the value that
    /// `serde_json` parses, or `Json` where it refuses the text.
    pub fn from_json_str(input: &str) -> (r: Result<Value, DbError>)
        ensures
            match r {
                Ok(v) => json_input(input@) == Ok::<Doc, ErrorKind>(v.model()) && v.wf(),
                Err(e) => json_input(input@) == Err::<Doc, ErrorKind>(e.kind()),
            },
    {
        match parse_json_text(input) {
            Ok(tree) => {
                let v = json_value(&tree);
                Ok(v)
            },
            Err(e) => Err(DbError::Json(e)),
        }
    }

    /// Converts a JSON tree into a document: an integer that fits `i64`
    /// becomes `Int`, any other number `Float`; an object keeps its entries
    /// in key order, a later entry replacing an earlier one with the same key.
    /// It always succeeds.
    pub fn from_json_value(value: JsonTree) -> (r: Result<Value, DbError>)
        ensures
            r is Ok,
            r matches Ok(v) ==> v.model() == json_to_doc(value.doc()) && v.wf(),
    {
        Ok(json_value(&value))
    }
}

// ----- from documents to JSON ----------------------------------------------

/// Whether a float's bit pattern is a finite number (neither infinite nor
/// NaN): such a float is a JSON number, the others are not.
pub open spec fn float_finite(bits: u64) -> bool {
    bits & 0x7ff0_0000_0000_0000 != 0x7ff0_0000_0000_0000
}

/// The JSON value of a document: a finite float becomes a number and any
/// other float `null`; a blob becomes an array of its bytes as numbers; an
/// integer becomes a number with no float bits.
pub open spec fn value_json(d: Doc) -> JsonDoc
    decreases d,
{
    match d {
        Doc::Null => JsonDoc::Null,
        Doc::Bool(b) => JsonDoc::Bool(b),
        Doc::Int(i) => JsonDoc::Number(Some(i), 0),
        Doc::Float(bits) => if float_finite(bits) {
            JsonDoc::Number(None, bits)
        } else {
            JsonDoc::Null
        },
        Doc::Str(s) => JsonDoc::Str(s),
        Doc::Blob(b) => JsonDoc::Array(blob_json(b)),
        Doc::Array(items) => JsonDoc::Array(value_json_items(items)),
        Doc::Object(fields) => JsonDoc::Object(value_json_fields(fields)),
    }
}

/// The bytes of a blob as JSON numbers.
pub open spec fn blob_json(b: Seq<u8>) -> Seq<JsonDoc> {
    Seq::new(b.len(), |i: int| JsonDoc::Number(Some(b[i] as i64), 0))
}

/// The JSON values of the items of an array.
pub open spec fn value_json_items(items: Seq<Doc>) -> Seq<JsonDoc>
    decreases items,
{
    if items.len() == 0 {
        Seq::empty()
    } else {
        seq![value_json(items[0])] + value_json_items(items.subrange(1, items.len() as int))
    }
}

/// The JSON entries of the fields of an object, in the same order.
pub open spec fn value_json_fields(fields: Seq<(Seq<char>, Doc)>) -> Seq<(Seq<char>, JsonDoc)>
    decreases fields,
{
    if fields.len() == 0 {
        Seq::empty()
    } else {
        seq![(fields[0].0, value_json(fields[0].1))] + value_json_fields(
            fields.subrange(1, fields.len() as int),
        )
    }
}

proof fn lemma_value_json_items_len(items: Seq<Doc>)
    ensures
        value_json_items(items).len() == items.len(),
        forall|i: int|
            0 <= i < items.len() ==> value_json_items(items)[i] == value_json(#[trigger] items[i]),
    decreases items.len(),
{
    if items.len() > 0 {
        let rest = items.subrange(1, items.len() as int);
        lemma_value_json_items_len(rest);
        assert forall|i: int| 0 <= i < items.len() implies value_json_items(items)[i] == value_json(
            #[trigger] items[i],
        ) by {
            if i > 0 {
                assert(items[i] == rest[i - 1]);
            }
        }
    }
}

proof fn lemma_value_json_fields_len(fields: Seq<(Seq<char>, Doc)>)
    ensures
        value_json_fields(fields).len() == fields.len(),
        forall|i: int|
            0 <= i < fields.len() ==> value_json_fields(fields)[i] == ((#[trigger] fields[i]).0,
            value_json(fields[i].1)),
    decreases fields.len(),
{
    if fields.len() > 0 {
        let rest = fields.subrange(1, fields.len() as int);
        lemma_value_json_fields_len(rest);
        assert forall|i: int| 0 <= i < fields.len() implies value_json_fields(fields)[i] == (
            (#[trigger] fields[i]).0,
            value_json(fields[i].1),
        ) by {
            if i > 0 {
                assert(fields[i] == rest[i - 1]);
            }
        }
    }
}

impl Value {
    /// The JSON value of a document (see `value_json`).
    pub fn to_json_value(&self) -> (r: JsonTree)
        ensures
            r.doc() == value_json(self.model()),
        decreases self,
    {
        match self {
            Value::Null => JsonTree::Null,
            Value::Bool(b) => JsonTree::Bool(*b),
            Value::Int(i) => JsonTree::Number(Some(*i), 0),
            Value::Float(bits) => {
                if *bits & 0x7ff0_0000_0000_0000 != 0x7ff0_0000_0000_0000 {
                    JsonTree::Number(None, *bits)
                } else {
                    JsonTree::Null
                }
            },
            Value::String(s) => JsonTree::String(s.clone()),
            Value::Blob(b) => {
                let mut items: Vec<JsonTree> = Vec::new();
                let mut i: usize = 0;
                while i < b.len()
                    invariant
                        0 <= i <= b@.len(),
                        items@.len() == i,
                        forall|j: int|
                            0 <= j < i ==> (#[trigger] items@[j]).doc() == JsonDoc::Number(
                                Some(b@[j] as i64),
                                0,
                            ),
                    decreases b@.len() - i,
                {
                    items.push(JsonTree::Number(Some(b[i] as i64), 0));
                    i = i + 1;
                }
                let r = JsonTree::Array(items);
                proof {
                    assert(r.doc()->Array_0 =~= blob_json(b@));
                }
                r
            },
            Value::Array(values) => {
                let ghost m = models(values@);
                proof {
                    lemma_array_model(*values);
                    lemma_value_json_items_len(m);
                }
                let mut items: Vec<JsonTree> = Vec::new();
                let mut i: usize = 0;
                while i < values.len()
                    invariant
                        0 <= i <= values@.len(),
                        *self == Value::Array(*values),
                        m == models(values@),
                        value_json_items(m).len() == m.len(),
                        forall|j: int|
                            0 <= j < m.len() ==> value_json_items(m)[j] == value_json(#[trigger] m[j]),
                        items@.len() == i,
                        forall|j: int|
                            0 <= j < i ==> (#[trigger] items@[j]).doc() == value_json_items(m)[j],
                    decreases values@.len() - i,
                {
                    proof {
                        crate::types::lemma_item_decreases(*values, i as int);
                    }
                    let t = values[i].to_json_value();
                    items.push(t);
                    proof {
                        assert(m[i as int] == values@[i as int].model());
                    }
                    i = i + 1;
                }
                let r = JsonTree::Array(items);
                proof {
                    assert(r.doc()->Array_0 =~= value_json_items(m));
                }
                r
            },
            Value::Object(fields) => {
                let ghost f = fields.model();
                proof {
                    lemma_object_model(*fields);
                    lemma_value_json_fields_len(f);
                }
                let mut entries: Vec<(String, JsonTree)> = Vec::new();
                let mut i: usize = 0;
                while i < fields.len()
                    invariant
                        0 <= i <= fields@.len(),
                        *self == Value::Object(*fields),
                        f == fields.model(),
                        f.len() == fields@.len(),
                        value_json_fields(f).len() == f.len(),
                        forall|j: int|
                            0 <= j < f.len() ==> value_json_fields(f)[j] == ((#[trigger] f[j]).0,
                            value_json(f[j].1)),
                        entries@.len() == i,
                        forall|j: int|
                            0 <= j < i ==> ((#[trigger] entries@[j]).0@, entries@[j].1.doc())
                                == value_json_fields(f)[j],
                    decreases fields@.len() - i,
                {
                    let (key, item) = fields.entry(i);
                    proof {
                        crate::types::lemma_field_decreases(*fields, i as int);
                    }
                    let t = item.to_json_value();
                    entries.push((key.clone(), t));
                    i = i + 1;
                }
                let r = JsonTree::Object(entries);
                proof {
                    assert(r.doc()->Object_0 =~= value_json_fields(f));
                }
                r
            },
        }
    }
}

/// Documents that converting to JSON and back gives unchanged: no blob, and
/// only finite floats, anywhere in the tree.
pub open spec fn json_safe(d: Doc) -> bool
    decreases d,
{
    match d {
        Doc::Float(bits) => float_finite(bits),
        Doc::Blob(_) => false,
        Doc::Array(items) => forall|i: int| 0 <= i < items.len() ==> json_safe(#[trigger] items[i]),
        Doc::Object(fields) => forall|i: int|
            0 <= i < fields.len() ==> json_safe((#[trigger] fields[i]).1),
        _ => true,
    }
}

proof fn lemma_round_trip(d: Doc)
    requires
        d.wf(),
        json_safe(d),
    ensures
        json_to_doc(value_json(d)) == d,
    decreases d, 0nat,
{
    match d {
        Doc::Array(items) => {
            lemma_round_trip_items(items);
        },
        Doc::Object(fields) => {
            lemma_round_trip_fields(fields, Seq::empty());
            assert(Seq::<(Seq<char>, Doc)>::empty() + fields =~= fields);
        },
        _ => {},
    }
}

proof fn lemma_round_trip_items(items: Seq<Doc>)
    requires
        forall|i: int| 0 <= i < items.len() ==> (#[trigger] items[i]).wf() && json_safe(items[i]),
    ensures
        json_items(value_json_items(items)) == items,
    decreases items, 1nat,
{
    if items.len() > 0 {
        let rest = items.subrange(1, items.len() as int);
        let v = value_json_items(items);
        lemma_value_json_items_len(items);
        lemma_value_json_items_len(rest);
        assert(v.subrange(1, v.len() as int) =~= value_json_items(rest));
        lemma_round_trip(items[0]);
        assert forall|i: int| 0 <= i < rest.len() implies (#[trigger] rest[i]).wf() && json_safe(
            rest[i],
        ) by {
            assert(rest[i] == items[i + 1]);
        }
        lemma_round_trip_items(rest);
        assert(seq![items[0]] + rest =~= items);
    }
}

proof fn lemma_round_trip_fields(fields: Seq<(Seq<char>, Doc)>, acc: Seq<(Seq<char>, Doc)>)
    requires
        keys_sorted(fields),
        forall|i: int|
            0 <= i < fields.len() ==> (#[trigger] fields[i]).1.wf() && json_safe(fields[i].1),
        forall|a: int, j: int|
            0 <= a < acc.len() && 0 <= j < fields.len() ==> key_lt(
                #[trigger] acc[a].0,
                #[trigger] fields[j].0,
            ),
    ensures
        json_fields(value_json_fields(fields), acc) == acc + fields,
    decreases fields, 1nat,
{
    if fields.len() == 0 {
        assert(acc + fields =~= acc);
    } else {
        let rest = fields.subrange(1, fields.len() as int);
        let v = value_json_fields(fields);
        lemma_value_json_fields_len(fields);
        lemma_value_json_fields_len(rest);
        assert(v.subrange(1, v.len() as int) =~= value_json_fields(rest));
        lemma_round_trip(fields[0].1);
        assert forall|a: int| 0 <= a < acc.len() implies key_lt(#[trigger] acc[a].0, fields[0].0) by {
        }
        lemma_insert_greatest(acc, fields[0].0, fields[0].1);
        let acc1 = acc.push(fields[0]);
        assert forall|i: int| 0 <= i < rest.len() implies (#[trigger] rest[i]).1.wf() && json_safe(
            rest[i].1,
        ) by {
            assert(rest[i] == fields[i + 1]);
        }
        assert(keys_sorted(rest)) by {
            assert forall|a: int, b: int| 0 <= a < b < rest.len() implies key_lt(
                #[trigger] rest[a].0,
                #[trigger] rest[b].0,
            ) by {
                assert(rest[a] == fields[a + 1] && rest[b] == fields[b + 1]);
            }
        }
        assert forall|a: int, j: int| 0 <= a < acc1.len() && 0 <= j < rest.len() implies key_lt(
            #[trigger] acc1[a].0,
            #[trigger] rest[j].0,
        ) by {
            assert(rest[j] == fields[j + 1]);
            if a < acc.len() {
                assert(acc1[a] == acc[a]);
            }
        }
        lemma_round_trip_fields(rest, acc1);
        assert(acc1 + rest =~= acc + fields);
    }
}

/// Converting a document to JSON and back gives it unchanged, where it holds
/// no blob and no float that is not finite (those become arrays of numbers
/// and `null`).
pub proof fn law_json_round_trip(d: Doc)
    requires
        d.wf(),
        json_safe(d),
    ensures
        json_to_doc(value_json(d)) == d,
{
    lemma_round_trip(d);
}

/// An integer and a float never read as the same kind of number: a JSON
/// number with an integer value becomes `Int`, one without becomes `Float`.
pub proof fn law_json_numbers_stay_distinct(whole: Option<i64>, bits: u64)
    ensures
        whole matches Some(i) ==> json_to_doc(JsonDoc::Number(whole, bits)) == Doc::Int(i),
        whole is None ==> json_to_doc(JsonDoc::Number(whole, bits)) == Doc::Float(bits),
{
}

} // verus!
