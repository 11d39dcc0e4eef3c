//! The document store: an append-only log of records, read back into the
//! latest state of each document.
use vstd::prelude::*;
use vstd::string::StringExecFns;

use crate::codec::{decode, decode_value, encodable, encode, encode_value, DecodeError};
use crate::error::{message, DbError, ErrorKind};
use crate::paths::{
    get_at, id_key, id_text, is_valid_path, set_segs, set_segs_text, split_dots, unset_segs,
    valid_path,
};
use crate::record::{lemma_read_len, read_record, record_bytes, record_writable, Record, RecordView};
use crate::bytes::views;
use crate::json::json_input;
use crate::query::{
    find_request, find_request_json, find_request_text, id_filter, id_filter_json, id_filter_text,
    update_request, update_request_text, parse_find_json, parse_id_filter_json, parse_update_json,
    update_request_json, UpdateRequest,
};
use crate::types::{assoc_get, assoc_insert, doc_eq, lemma_object_model, models, Doc, Value};

verus! {

/// The error kind that a failed decoding reports.
pub open spec fn decode_kind(k: DecodeError) -> ErrorKind {
    match k {
        DecodeError::Format(_) => ErrorKind::InvalidFormat,
        DecodeError::Utf8 => ErrorKind::Utf8,
    }
}

/// The id of a document: its string `_id`.
pub open spec fn doc_id(d: Doc) -> Result<Seq<char>, ErrorKind> {
    match d {
        Doc::Object(f) => match assoc_get(f, id_key()) {
            Some(Doc::Str(id)) => Ok(id),
            Some(_) => Err(ErrorKind::InvalidData),
            None => Err(ErrorKind::MissingId),
        },
        _ => Err(ErrorKind::InvalidRootDocument),
    }
}

/// The document stored by a put record under `id`.
pub open spec fn stored_doc(id: Seq<char>, bytes: Seq<u8>) -> Result<Doc, ErrorKind> {
    match decode(bytes) {
        Err(k) => Err(decode_kind(k)),
        Ok((d, used)) => if used != bytes.len() {
            Err(ErrorKind::InvalidFormat)
        } else if !(d is Object) {
            Err(ErrorKind::InvalidRootDocument)
        } else {
            match doc_id(d) {
                Err(k) => Err(k),
                Ok(doc_id) => if doc_id != id {
                    Err(ErrorKind::InvalidData)
                } else {
                    Ok(d)
                },
            }
        },
    }
}

/// The latest state of document `id` after the records in `log`, starting
/// from `acc`: the last put gives the document, the last delete none.
pub open spec fn latest(log: Seq<u8>, id: Seq<char>, acc: Option<Doc>) -> Result<Option<Doc>, ErrorKind>
    decreases log.len(),
{
    match read_record(log) {
        Err(k) => Err(decode_kind(k)),
        Ok(None) => Ok(acc),
        Ok(Some((r, n))) => if n == 0 || n > log.len() {
            Ok(acc)
        } else {
            let rest = log.subrange(n as int, log.len() as int);
            match r {
                RecordView::Put { id: rid, doc } => if rid == id {
                    match stored_doc(rid, doc) {
                        Err(k) => Err(k),
                        Ok(d) => latest(rest, id, Some(d)),
                    }
                } else {
                    latest(rest, id, acc)
                },
                RecordView::Delete { id: rid } => if rid == id {
                    latest(rest, id, None)
                } else {
                    latest(rest, id, acc)
                },
            }
        },
    }
}

/// The message of the error that reading document `id` from a log stops
/// with; empty for the errors that carry none.
pub open spec fn latest_text(log: Seq<u8>, id: Seq<char>) -> Seq<char>
    decreases log.len(),
{
    match read_record(log) {
        Err(DecodeError::Format(m)) => m,
        Err(DecodeError::Utf8) => Seq::empty(),
        Ok(None) => Seq::empty(),
        Ok(Some((r, n))) => if n == 0 || n > log.len() {
            Seq::empty()
        } else {
            let rest = log.subrange(n as int, log.len() as int);
            match r {
                RecordView::Put { id: rid, doc } => if rid == id && stored_doc(rid, doc) is Err {
                    stored_doc_text(rid, doc)
                } else {
                    latest_text(rest, id)
                },
                RecordView::Delete { .. } => latest_text(rest, id),
            }
        },
    }
}

/// What reading document `id` from a log gives.
pub open spec fn lookup(log: Seq<u8>, id: Seq<char>) -> Result<Option<Doc>, ErrorKind> {
    latest(log, id, None)
}

/// The log after creating document `d`, or the error that refuses it.
pub open spec fn create_result(log: Seq<u8>, d: Doc) -> Result<Seq<u8>, ErrorKind> {
    match doc_id(d) {
        Err(k) => Err(k),
        Ok(id) => match lookup(log, id) {
            Err(k) => Err(k),
            Ok(Some(_)) => Err(ErrorKind::DuplicateId(id)),
            Ok(None) => {
                let r = RecordView::Put { id, doc: encode(d) };
                if !encodable(d) || !record_writable(r) {
                    Err(ErrorKind::InvalidData)
                } else {
                    Ok(log + record_bytes(r))
                }
            },
        },
    }
}

/// The log after deleting document `id`, and whether a live document was
/// deleted; or the error that stopped it.
pub open spec fn delete_result(log: Seq<u8>, id: Seq<char>) -> Result<(Seq<u8>, bool), ErrorKind> {
    match lookup(log, id) {
        Err(k) => Err(k),
        Ok(None) => Ok((log, false)),
        Ok(Some(_)) => {
            let r = RecordView::Delete { id };
            if !record_writable(r) {
                Err(ErrorKind::InvalidData)
            } else {
                Ok((log + record_bytes(r), true))
            }
        },
    }
}

/// The state of every id after the records in `log`, starting from `state`:
/// an ordered list of ids, each with its document or none when deleted.
pub open spec fn live_fold(log: Seq<u8>, state: Seq<(Seq<char>, Option<Doc>)>) -> Result<
    Seq<(Seq<char>, Option<Doc>)>,
    ErrorKind,
>
    decreases log.len(),
{
    match read_record(log) {
        Err(k) => Err(decode_kind(k)),
        Ok(None) => Ok(state),
        Ok(Some((r, n))) => if n == 0 || n > log.len() {
            Ok(state)
        } else {
            let rest = log.subrange(n as int, log.len() as int);
            match r {
                RecordView::Put { id, doc } => match stored_doc(id, doc) {
                    Err(k) => Err(k),
                    Ok(d) => live_fold(rest, assoc_insert(state, id, Some(d))),
                },
                RecordView::Delete { id } => live_fold(rest, assoc_insert(state, id, None)),
            }
        },
    }
}

/// The message of the error that folding the records of a log stops with;
/// empty for the errors that carry none.
pub open spec fn fold_text(log: Seq<u8>) -> Seq<char>
    decreases log.len(),
{
    match read_record(log) {
        Err(DecodeError::Format(m)) => m,
        Err(DecodeError::Utf8) => Seq::empty(),
        Ok(None) => Seq::empty(),
        Ok(Some((r, n))) => if n == 0 || n > log.len() {
            Seq::empty()
        } else {
            let rest = log.subrange(n as int, log.len() as int);
            match r {
                RecordView::Put { id, doc } => if stored_doc(id, doc) is Err {
                    stored_doc_text(id, doc)
                } else {
                    fold_text(rest)
                },
                RecordView::Delete { .. } => fold_text(rest),
            }
        },
    }
}

/// The documents of a state that are present, in id order.
pub open spec fn present(state: Seq<(Seq<char>, Option<Doc>)>) -> Seq<Doc>
    decreases state.len(),
{
    if state.len() == 0 {
        Seq::empty()
    } else {
        match state[0].1 {
            Some(d) => seq![d] + present(state.drop_first()),
            None => present(state.drop_first()),
        }
    }
}

/// The live documents of a log, in id order.
pub open spec fn live_docs(log: Seq<u8>) -> Result<Seq<Doc>, ErrorKind> {
    match live_fold(log, Seq::empty()) {
        Err(k) => Err(k),
        Ok(state) => Ok(present(state)),
    }
}

/// Whether the value at `path` in `d` equals `needle`.
pub open spec fn matches_at(d: Doc, path: Seq<char>, needle: Doc) -> bool {
    get_at(d, path) matches Some(x) && doc_eq(x, needle)
}

/// The documents, in order, whose value at `path` equals `needle`.
pub open spec fn matching(docs: Seq<Doc>, path: Seq<char>, needle: Doc) -> Seq<Doc>
    decreases docs.len(),
{
    if docs.len() == 0 {
        Seq::empty()
    } else if matches_at(docs[0], path, needle) {
        seq![docs[0]] + matching(docs.drop_first(), path, needle)
    } else {
        matching(docs.drop_first(), path, needle)
    }
}

/// What `find_eq` gives on a log.
pub open spec fn find_result(log: Seq<u8>, path: Seq<char>, needle: Doc) -> Result<Seq<Doc>, ErrorKind> {
    if !valid_path(path) {
        Err(ErrorKind::InvalidData)
    } else {
        match live_docs(log) {
            Err(k) => Err(k),
            Ok(docs) => Ok(matching(docs, path, needle)),
        }
    }
}

/// The model of a state held in memory.
pub open spec fn state_model(s: Seq<(String, Option<Value>)>) -> Seq<(Seq<char>, Option<Doc>)> {
    Seq::new(s.len(), |i: int| (s[i].0@, opt_model(s[i].1)))
}

/// Stores `doc` under `id` in an ordered state, as `BTreeMap::insert` does.
fn state_insert(state: &mut Vec<(String, Option<Value>)>, id: String, doc: Option<Value>)
    ensures
        state_model(final(state)@) == assoc_insert(state_model(old(state)@), id@, opt_model(doc)),
        forall|j: int|
            0 <= j < final(state)@.len() ==> (#[trigger] final(state)@[j]).1 == doc || exists|k: int|
                0 <= k < old(state)@.len() && old(state)@[k].1 == final(state)@[j].1,
{
    let ghost m = state_model(state@);
    let ghost old_entries = state@;
    let mut i: usize = 0;
    while i < state.len()
        invariant_except_break
            m == state_model(state@),
            old_entries == state@,
            0 <= i <= state@.len(),
            forall|j: int| 0 <= j < i ==> crate::bytes::key_lt(#[trigger] m[j].0, id@),
        ensures
            m == state_model(state@),
            old_entries == state@,
            0 <= i <= state@.len(),
            forall|j: int| 0 <= j < i ==> crate::bytes::key_lt(#[trigger] m[j].0, id@),
            i < state@.len() ==> !crate::bytes::key_lt(m[i as int].0, id@),
        decreases state@.len() - i,
    {
        let order = crate::bytes::compare_keys(state[i].0.as_str(), id.as_str());
        if order != crate::bytes::KeyOrder::Less {
            break;
        }
        i = i + 1;
    }
    let ghost dm = opt_model(doc);
    proof {
        crate::types::lemma_insert_skip(m, id@, dm, i as int);
    }
    if i < state.len() && crate::bytes::same_text(state[i].0.as_str(), id.as_str()) {
        assert(m[i as int].0 == id@);
        let (old_key, _old_doc) = state.remove(i);
        state.insert(i, (old_key, doc));
        proof {
            assert(state@ =~= old_entries.update(i as int, (old_key, doc)));
            assert(m.skip(i as int)[0] == m[i as int]);
            assert(m.skip(i as int).drop_first() =~= m.skip(i + 1));
            assert(state_model(state@) =~= m.take(i as int) + (seq![(id@, dm)] + m.skip(i + 1)));
            assert forall|j: int| 0 <= j < state@.len() && j != i implies exists|k: int|
                0 <= k < old_entries.len() && old_entries[k].1 == (#[trigger] state@[j]).1 by {
                assert(state@[j] == old_entries[j]);
            }
        }
    } else {
        proof {
            if i < m.len() {
                crate::bytes::lemma_key_lt_total(m[i as int].0, id@);
                assert(m.skip(i as int)[0] == m[i as int]);
            } else {
                assert(m.skip(i as int) =~= Seq::<(Seq<char>, Option<Doc>)>::empty());
            }
        }
        state.insert(i, (id, doc));
        proof {
            assert(state@ =~= old_entries.insert(i as int, (id, doc)));
            assert(state_model(state@) =~= m.take(i as int) + (seq![(id@, dm)] + m.skip(i as int)));
            assert forall|j: int| 0 <= j < state@.len() && j != i implies exists|k: int|
                0 <= k < old_entries.len() && old_entries[k].1 == (#[trigger] state@[j]).1 by {
                if j < i {
                    assert(state@[j] == old_entries[j]);
                } else {
                    assert(state@[j] == old_entries[j - 1]);
                }
            }
        }
    }
}

/// `d` after storing each value of `set` at its path, in order.
pub open spec fn apply_sets(d: Doc, set: Seq<(Seq<char>, Doc)>) -> Result<Doc, ErrorKind>
    decreases set.len(),
{
    if set.len() == 0 {
        Ok(d)
    } else if !valid_path(set[0].0) {
        Err(ErrorKind::InvalidData)
    } else {
        match set_segs(d, split_dots(set[0].0), set[0].1) {
            None => Err(ErrorKind::TypeMismatch),
            Some(d1) => apply_sets(d1, set.drop_first()),
        }
    }
}

/// `d` after removing the value at each path of `unset`, in order.
pub open spec fn apply_unsets(d: Doc, unset: Seq<Seq<char>>) -> Result<Doc, ErrorKind>
    decreases unset.len(),
{
    if unset.len() == 0 {
        Ok(d)
    } else if !valid_path(unset[0]) {
        Err(ErrorKind::InvalidData)
    } else {
        match unset_segs(d, split_dots(unset[0])) {
            None => Err(ErrorKind::TypeMismatch),
            Some(d1) => apply_unsets(d1, unset.drop_first()),
        }
    }
}

/// The message of the error that `apply_sets` gives.
pub open spec fn apply_sets_text(d: Doc, set: Seq<(Seq<char>, Doc)>) -> Seq<char>
    decreases set.len(),
{
    if set.len() == 0 {
        Seq::empty()
    } else if !valid_path(set[0].0) {
        "invalid path: "@ + set[0].0
    } else {
        match set_segs(d, split_dots(set[0].0), set[0].1) {
            None => set_segs_text(d, split_dots(set[0].0)),
            Some(d1) => apply_sets_text(d1, set.drop_first()),
        }
    }
}

/// The message of the error that `apply_unsets` gives.
pub open spec fn apply_unsets_text(d: Doc, unset: Seq<Seq<char>>) -> Seq<char>
    decreases unset.len(),
{
    if unset.len() == 0 {
        Seq::empty()
    } else if !valid_path(unset[0]) {
        "invalid path: "@ + unset[0]
    } else {
        match unset_segs(d, split_dots(unset[0])) {
            None => "root document must be an object"@,
            Some(d1) => apply_unsets_text(d1, unset.drop_first()),
        }
    }
}

/// Whether `set` would store under `_id` anything but the string `id`.
pub open spec fn changes_id(set: Seq<(Seq<char>, Doc)>, id: Seq<char>) -> bool {
    exists|i: int| 0 <= i < set.len() && set[i].0 == id_key() && set[i].1 != Doc::Str(id)
}

/// The document after an update, or the error that refuses the update.
pub open spec fn updated_doc(
    log: Seq<u8>,
    id: Seq<char>,
    set: Seq<(Seq<char>, Doc)>,
    unset: Seq<Seq<char>>,
) -> Result<Doc, ErrorKind> {
    match lookup(log, id) {
        Err(k) => Err(k),
        Ok(None) => Err(ErrorKind::NotFound(id)),
        Ok(Some(doc)) => match doc_id(doc) {
            Err(k) => Err(k),
            Ok(current) => if changes_id(set, current) || unset.contains(id_key()) {
                Err(ErrorKind::InvalidData)
            } else {
                match apply_sets(doc, set) {
                    Err(k) => Err(k),
                    Ok(d1) => match apply_unsets(d1, unset) {
                        Err(k) => Err(k),
                        Ok(d2) => match doc_id(d2) {
                            Err(k) => Err(k),
                            Ok(final_id) => if final_id != current {
                                Err(ErrorKind::InvalidData)
                            } else {
                                Ok(d2)
                            },
                        },
                    },
                }
            },
        },
    }
}

/// The message of an update refused once the document is found: by its
/// rules on `_id`, by a path that cannot be set or removed, or by the
/// document it would store; `None` for the other outcomes.
pub open spec fn update_rule_text(
    log: Seq<u8>,
    id: Seq<char>,
    set: Seq<(Seq<char>, Doc)>,
    unset: Seq<Seq<char>>,
) -> Option<Seq<char>> {
    match lookup(log, id) {
        Ok(Some(doc)) => match doc_id(doc) {
            Ok(current) => if changes_id(set, current) {
                Some("updating _id to a different value is not allowed"@)
            } else if unset.contains(id_key()) {
                Some("unsetting _id is not allowed"@)
            } else {
                match apply_sets(doc, set) {
                    Ok(d1) => match apply_unsets(d1, unset) {
                        Ok(d2) => match doc_id(d2) {
                            Ok(final_id) => if final_id != current {
                                Some("document _id changed during update"@)
                            } else {
                                None
                            },
                            Err(ErrorKind::InvalidData) => Some("document _id must be a string"@),
                            Err(_) => None,
                        },
                        Err(_) => Some(apply_unsets_text(d1, unset)),
                    },
                    Err(_) => Some(apply_sets_text(doc, set)),
                }
            },
            Err(_) => None,
        },
        _ => None,
    }
}

/// The log after an update, or the error that refuses it.
pub open spec fn update_result(
    log: Seq<u8>,
    id: Seq<char>,
    set: Seq<(Seq<char>, Doc)>,
    unset: Seq<Seq<char>>,
) -> Result<Seq<u8>, ErrorKind> {
    match updated_doc(log, id, set, unset) {
        Err(k) => Err(k),
        Ok(d) => {
            let r = RecordView::Put { id: doc_id(d)->Ok_0, doc: encode(d) };
            if !encodable(d) || !record_writable(r) {
                Err(ErrorKind::InvalidData)
            } else {
                Ok(log + record_bytes(r))
            }
        },
    }
}

/// The log after creating the document that JSON text holds.
pub open spec fn create_json_result(log: Seq<u8>, text: Seq<char>) -> Result<Seq<u8>, ErrorKind> {
    match json_input(text) {
        Err(k) => Err(k),
        Ok(d) => create_result(log, d),
    }
}

/// What reading the document selected by the filter in JSON text gives.
pub open spec fn lookup_json(log: Seq<u8>, text: Seq<char>) -> Result<Option<Doc>, ErrorKind> {
    match id_filter_json(text) {
        Err(k) => Err(k),
        Ok(id) => lookup(log, id),
    }
}

/// The log after deleting the document selected by the filter in JSON text,
/// and whether one was deleted.
pub open spec fn delete_json_result(log: Seq<u8>, text: Seq<char>) -> Result<
    (Seq<u8>, bool),
    ErrorKind,
> {
    match id_filter_json(text) {
        Err(k) => Err(k),
        Ok(id) => delete_result(log, id),
    }
}

/// The log after the update request in JSON text.
pub open spec fn update_json_result(log: Seq<u8>, text: Seq<char>) -> Result<Seq<u8>, ErrorKind> {
    match update_request_json(text) {
        Err(k) => Err(k),
        Ok((id, set, unset)) => update_result(log, id, set, unset),
    }
}

/// What the find query in JSON text gives on a log.
pub open spec fn find_json_result(log: Seq<u8>, text: Seq<char>) -> Result<Seq<Doc>, ErrorKind> {
    match find_request_json(text) {
        Err(k) => Err(k),
        Ok((path, needle)) => find_result(log, path, needle),
    }
}

/// The models of an optional value.
pub open spec fn opt_model(o: Option<Value>) -> Option<Doc> {
    match o {
        Some(v) => Some(v.model()),
        None => None,
    }
}

/// The id of a document, or the error that says why it has none.
pub fn validate_document(doc: &Value) -> (r: Result<&str, DbError>)
    ensures
        match r {
            Ok(id) => doc_id(doc.model()) == Ok::<Seq<char>, ErrorKind>(id@),
            Err(e) => doc_id(doc.model()) == Err::<Seq<char>, ErrorKind>(e.kind()) && (e
                is InvalidData ==> e.detail() == "document _id must be a string"@),
        },
{
    match doc {
        Value::Object(map) => {
            proof {
                lemma_object_model(*map);
            }
            let key = id_text();
            match map.get(key) {
                Some(Value::String(id)) => Ok(id.as_str()),
                Some(_) => Err(DbError::InvalidData(message("document _id must be a string"))),
                None => Err(DbError::MissingId),
            }
        },
        _ => Err(DbError::InvalidRootDocument),
    }
}

/// The message of the error that `stored_doc` gives; empty for the errors
/// that carry none.
pub open spec fn stored_doc_text(id: Seq<char>, bytes: Seq<u8>) -> Seq<char> {
    match decode(bytes) {
        Err(DecodeError::Format(m)) => m,
        Err(DecodeError::Utf8) => Seq::empty(),
        Ok((d, used)) => if used != bytes.len() {
            "document payload contains trailing bytes"@
        } else if !(d is Object) {
            Seq::empty()
        } else {
            match doc_id(d) {
                Err(ErrorKind::InvalidData) => "document _id must be a string"@,
                Err(_) => Seq::empty(),
                Ok(doc_id) => if doc_id != id {
                    "record id '"@ + id + "' does not match document _id '"@ + doc_id + "'"@
                } else {
                    Seq::empty()
                },
            }
        },
    }
}

/// Decodes the document that a put record stores under `id`.
pub fn decode_document(id: &str, bytes: &[u8]) -> (r: Result<Value, DbError>)
    ensures
        match r {
            Ok(v) => stored_doc(id@, bytes@) == Ok::<Doc, ErrorKind>(v.model()) && v.wf(),
            Err(e) => stored_doc(id@, bytes@) == Err::<Doc, ErrorKind>(e.kind()) && e.detail()
                == stored_doc_text(id@, bytes@),
        },
{
    let (value, used) = match decode_value(bytes) {
        Ok(pair) => pair,
        Err(e) => {
            return Err(e);
        },
    };
    if used != bytes.len() {
        return Err(DbError::InvalidFormat(message("document payload contains trailing bytes")));
    }
    if !matches!(value, Value::Object(_)) {
        return Err(DbError::InvalidRootDocument);
    }
    let mismatch = match validate_document(&value) {
        Ok(doc_id) => if crate::bytes::same_text(doc_id, id) {
            None
        } else {
            let mut m = crate::bytes::describe("record id '", id, "' does not match document _id '");
            m.append(doc_id);
            m.append("'");
            Some(m)
        },
        Err(e) => {
            return Err(e);
        },
    };
    if let Some(m) = mismatch {
        return Err(DbError::InvalidData(m));
    }
    Ok(value)
}

/// An embedded document store over an append-only log of records.
///
/// The store holds the bytes of its log; whoever persists it appends to the
/// file what each successful operation added.
pub struct Database {
    path: String,
    log: Vec<u8>,
}

impl View for Database {
    type V = Seq<u8>;

    /// The bytes of the log.
    closed spec fn view(&self) -> Seq<u8> {
        self.log@
    }
}

impl Database {
    /// The path of the store's file.
    pub closed spec fn location(&self) -> Seq<char> {
        self.path@
    }

    /// A store for the file at `path`, with an empty log.
    pub fn open(path: &str) -> (r: Database)
        ensures
            r@ == Seq::<u8>::empty(),
            r.location() == path@,
    {
        Database { path: path.to_owned(), log: Vec::new() }
    }

    /// A store for the file at `path` whose log holds `log`.
    pub fn with_log(path: &str, log: Vec<u8>) -> (r: Database)
        ensures
            r@ == log@,
            r.location() == path@,
    {
        Database { path: path.to_owned(), log }
    }

    /// The path of the store's file.
    pub fn path(&self) -> (r: &str)
        ensures
            r@ == self.location(),
    {
        self.path.as_str()
    }

    /// The bytes of the log.
    pub fn log(&self) -> (r: &[u8])
        ensures
            r@ == self@,
    {
        self.log.as_slice()
    }

    /// Creates the document that JSON text holds (see `create`).
    pub fn create_json(&mut self, json: &str) -> (r: Result<(), DbError>)
        ensures
            final(self).location() == old(self).location(),
            match r {
                Ok(()) => create_json_result(old(self)@, json@) == Ok::<Seq<u8>, ErrorKind>(
                    final(self)@,
                ),
                Err(e) => create_json_result(old(self)@, json@) == Err::<Seq<u8>, ErrorKind>(
                    e.kind(),
                ) && final(self)@ == old(self)@ && (json_input(json@) matches Ok(d) ==> (doc_id(d)
                    == Err::<Seq<char>, ErrorKind>(ErrorKind::InvalidData) ==> e.detail()
                    == "document _id must be a string"@)) && (json_input(json@) matches Ok(d) ==> (
                doc_id(d) matches Ok(id) ==> (lookup(old(self)@, id) is Err ==> e.detail()
                    == latest_text(old(self)@, id)))),
            },
    {
        match Value::from_json_str(json) {
            Ok(doc) => self.create(doc),
            Err(e) => Err(e),
        }
    }

    /// The live document that the `{"_id": string}` filter in JSON text
    /// selects, if there is one. Rendering it as text is left to the caller.
    pub fn get_json(&self, json: &str) -> (r: Result<Option<Value>, DbError>)
        ensures
            match r {
                Ok(found) => lookup_json(self@, json@) == Ok::<Option<Doc>, ErrorKind>(
                    opt_model(found),
                ) && (found matches Some(v) ==> v.wf()),
                Err(e) => lookup_json(self@, json@) == Err::<Option<Doc>, ErrorKind>(e.kind()) && (
                json_input(json@) matches Ok(d) ==> (id_filter(d) is Err ==> e.detail()
                    == id_filter_text(d))) && (id_filter_json(json@) matches Ok(id) ==> e.detail()
                    == latest_text(self@, id)),
            },
    {
        let id = match parse_id_filter_json(json) {
            Ok(id) => id,
            Err(e) => {
                return Err(e);
            },
        };
        self.get_by_id(id.as_str())
    }

    /// Deletes the live document that the `{"_id": string}` filter in JSON
    /// text selects (see `delete_by_id`).
    pub fn delete_json(&mut self, json: &str) -> (r: Result<bool, DbError>)
        ensures
            final(self).location() == old(self).location(),
            match r {
                Ok(deleted) => delete_json_result(old(self)@, json@) == Ok::<
                    (Seq<u8>, bool),
                    ErrorKind,
                >((final(self)@, deleted)),
                Err(e) => delete_json_result(old(self)@, json@) == Err::<
                    (Seq<u8>, bool),
                    ErrorKind,
                >(e.kind()) && final(self)@ == old(self)@ && (json_input(json@) matches Ok(d)
                    ==> (id_filter(d) is Err ==> e.detail() == id_filter_text(d))) && (
                id_filter_json(json@) matches Ok(id) ==> (lookup(old(self)@, id) is Err
                    ==> e.detail() == latest_text(old(self)@, id))),
            },
    {
        let id = match parse_id_filter_json(json) {
            Ok(id) => id,
            Err(e) => {
                return Err(e);
            },
        };
        self.delete_by_id(id.as_str())
    }

    /// Applies the update request that JSON text holds (see `update`).
    pub fn update_json(&mut self, json: &str) -> (r: Result<(), DbError>)
        ensures
            final(self).location() == old(self).location(),
            match r {
                Ok(()) => update_json_result(old(self)@, json@) == Ok::<Seq<u8>, ErrorKind>(
                    final(self)@,
                ),
                Err(e) => update_json_result(old(self)@, json@) == Err::<Seq<u8>, ErrorKind>(
                    e.kind(),
                ) && final(self)@ == old(self)@ && (json_input(json@) matches Ok(d)
                    ==> (update_request(d) is Err ==> e.detail() == update_request_text(d))) && (
                update_request_json(json@) matches Ok((id, set, unset)) ==> (update_rule_text(
                    old(self)@,
                    id,
                    set,
                    unset,
                ) matches Some(t) ==> e.detail() == t)) && (update_request_json(json@) matches Ok(
                    (id, _, _),
                ) ==> (lookup(old(self)@, id) is Err ==> e.detail() == latest_text(old(self)@, id))),
            },
    {
        let request = match parse_update_json(json) {
            Ok(request) => request,
            Err(e) => {
                return Err(e);
            },
        };
        self.update(request)
    }

    /// The live documents, in id order, that the `{"path": string, "eq":
    /// value}` query in JSON text selects (see `find_eq`). Rendering them as
    /// text is left to the caller.
    pub fn find_json(&self, json: &str) -> (r: Result<Vec<Value>, DbError>)
        ensures
            match r {
                Ok(docs) => find_json_result(self@, json@) == Ok::<Seq<Doc>, ErrorKind>(
                    models(docs@),
                ),
                Err(e) => find_json_result(self@, json@) == Err::<Seq<Doc>, ErrorKind>(e.kind()) && (
                json_input(json@) matches Ok(d) ==> (find_request(d) is Err ==> e.detail()
                    == find_request_text(d))) && (find_request_json(json@) is Ok ==> e.detail()
                    == fold_text(self@)),
            },
    {
        let request = match parse_find_json(json) {
            Ok(request) => request,
            Err(e) => {
                return Err(e);
            },
        };
        self.find_eq(request.path.as_str(), &request.eq)
    }

    /// All live documents, in id order (see `dump`). Rendering them as text
    /// is left to the caller.
    pub fn dump_json(&self) -> (r: Result<Vec<Value>, DbError>)
        ensures
            match r {
                Ok(docs) => live_docs(self@) == Ok::<Seq<Doc>, ErrorKind>(models(docs@)),
                Err(e) => live_docs(self@) == Err::<Seq<Doc>, ErrorKind>(e.kind()) && e.detail()
                    == fold_text(self@),
            },
    {
        self.dump()
    }

    /// Creates a document. The document must be an object with a string
    /// `_id` that no live document has.
    pub fn create(&mut self, doc: Value) -> (r: Result<(), DbError>)
        ensures
            final(self).location() == old(self).location(),
            match r {
                Ok(()) => create_result(old(self)@, doc.model()) == Ok::<Seq<u8>, ErrorKind>(
                    final(self)@,
                ),
                Err(e) => create_result(old(self)@, doc.model()) == Err::<Seq<u8>, ErrorKind>(
                    e.kind(),
                ) && final(self)@ == old(self)@ && (doc_id(doc.model()) == Err::<
                    Seq<char>,
                    ErrorKind,
                >(ErrorKind::InvalidData) ==> e.detail() == "document _id must be a string"@) && (
                doc_id(doc.model()) matches Ok(id) ==> (lookup(old(self)@, id) is Err ==> e.detail()
                    == latest_text(old(self)@, id))),
            },
    {
        let id = match validate_document(&doc) {
            Ok(id) => id.to_owned(),
            Err(e) => {
                return Err(e);
            },
        };
        match self.get_by_id(id.as_str()) {
            Ok(None) => {},
            Ok(Some(_)) => {
                return Err(DbError::DuplicateId(id));
            },
            Err(e) => {
                return Err(e);
            },
        }
        let bytes = match encode_value(&doc) {
            Ok(b) => b,
            Err(e) => {
                return Err(e);
            },
        };
        let record = Record::Put { id, doc: bytes };
        record.write_to(&mut self.log)
    }

    /// Deletes the live document stored under `id`; `false` when there is none.
    pub fn delete_by_id(&mut self, id: &str) -> (r: Result<bool, DbError>)
        ensures
            final(self).location() == old(self).location(),
            match r {
                Ok(deleted) => delete_result(old(self)@, id@) == Ok::<(Seq<u8>, bool), ErrorKind>(
                    (final(self)@, deleted),
                ),
                Err(e) => delete_result(old(self)@, id@) == Err::<(Seq<u8>, bool), ErrorKind>(
                    e.kind(),
                ) && final(self)@ == old(self)@ && (lookup(old(self)@, id@) is Err ==> e.detail()
                    == latest_text(old(self)@, id@)),
            },
    {
        match self.get_by_id(id) {
            Ok(None) => {
                return Ok(false);
            },
            Ok(Some(_)) => {},
            Err(e) => {
                return Err(e);
            },
        }
        let record = Record::Delete { id: id.to_owned() };
        match record.write_to(&mut self.log) {
            Ok(()) => Ok(true),
            Err(e) => Err(e),
        }
    }

    /// The live documents, in id order.
    fn live_documents(&self) -> (r: Result<Vec<Value>, DbError>)
        ensures
            match r {
                Ok(docs) => live_docs(self@) == Ok::<Seq<Doc>, ErrorKind>(models(docs@)) && forall|
                    j: int,
                | 0 <= j < docs@.len() ==> (#[trigger] docs@[j]).wf(),
                Err(e) => live_docs(self@) == Err::<Seq<Doc>, ErrorKind>(e.kind()) && e.detail()
                    == fold_text(self@),
            },
    {
        let mut rest: &[u8] = self.log.as_slice();
        let mut state: Vec<(String, Option<Value>)> = Vec::new();
        proof {
            assert(state_model(state@) =~= Seq::<(Seq<char>, Option<Doc>)>::empty());
        }
        loop
            invariant_except_break
                live_fold(self@, Seq::empty()) == live_fold(rest@, state_model(state@)),
                fold_text(self@) == fold_text(rest@),
            invariant
                forall|j: int|
                    0 <= j < state@.len() ==> ((#[trigger] state@[j]).1 matches Some(v) ==> v.wf()),
            ensures
                live_fold(self@, Seq::empty()) == Ok::<Seq<(Seq<char>, Option<Doc>)>, ErrorKind>(
                    state_model(state@),
                ),
                forall|j: int|
                    0 <= j < state@.len() ==> ((#[trigger] state@[j]).1 matches Some(v) ==> v.wf()),
            decreases rest@.len(),
        {
            let ghost before = rest@;
            proof {
                lemma_read_len(before);
            }
            match Record::read_from(&mut rest) {
                Ok(None) => {
                    break;
                },
                Ok(Some(record)) => {
                    match record {
                        Record::Put { id, doc } => {
                            let value = match decode_document(id.as_str(), doc.as_slice()) {
                                Ok(v) => v,
                                Err(e) => {
                                    return Err(e);
                                },
                            };
                            state_insert(&mut state, id, Some(value));
                        },
                        Record::Delete { id } => {
                            state_insert(&mut state, id, None);
                        },
                    }
                },
                Err(e) => {
                    return Err(e);
                },
            }
        }
        let ghost full = state_model(state@);
        let ghost entries = state@;
        let mut docs: Vec<Value> = Vec::new();
        let mut i: usize = 0;
        proof {
            assert(full.skip(0) =~= full);
            assert(models(docs@) =~= Seq::<Doc>::empty());
        }
        while i < state.len()
            invariant
                0 <= i <= state@.len(),
                full == state_model(entries),
                entries.len() == state@.len(),
                forall|j: int| i <= j < state@.len() ==> state@[j] == entries[j],
                present(full) == models(docs@) + present(full.skip(i as int)),
                forall|j: int|
                    0 <= j < entries.len() ==> ((#[trigger] entries[j]).1 matches Some(v) ==> v.wf()),
                forall|j: int| 0 <= j < docs@.len() ==> (#[trigger] docs@[j]).wf(),
            decreases state@.len() - i,
        {
            let mut slot: (String, Option<Value>) = (String::new(), None);
            std::mem::swap(&mut state[i], &mut slot);
            proof {
                assert(slot == entries[i as int]);
                assert(full.skip(i as int)[0] == full[i as int]);
                assert(full.skip(i as int).drop_first() =~= full.skip(i + 1));
            }
            let ghost before = docs@;
            match slot.1 {
                Some(v) => {
                    docs.push(v);
                    proof {
                        assert(models(docs@) =~= models(before).push(v.model()));
                        assert(models(before) + (seq![v.model()] + present(full.skip(i + 1)))
                            =~= models(docs@) + present(full.skip(i + 1)));
                    }
                },
                None => {},
            }
            i = i + 1;
        }
        proof {
            assert(full.skip(i as int) =~= Seq::<(Seq<char>, Option<Doc>)>::empty());
            assert(models(docs@) + Seq::<Doc>::empty() =~= models(docs@));
        }
        Ok(docs)
    }

    /// All live documents, in id order.
    pub fn dump(&self) -> (r: Result<Vec<Value>, DbError>)
        ensures
            match r {
                Ok(docs) => live_docs(self@) == Ok::<Seq<Doc>, ErrorKind>(models(docs@)),
                Err(e) => live_docs(self@) == Err::<Seq<Doc>, ErrorKind>(e.kind()) && e.detail()
                    == fold_text(self@),
            },
    {
        self.live_documents()
    }

    /// The live documents, in id order, whose value at `path` equals `needle`.
    /// An integer never equals a float.
    pub fn find_eq(&self, path: &str, needle: &Value) -> (r: Result<Vec<Value>, DbError>)
        ensures
            match r {
                Ok(docs) => find_result(self@, path@, needle.model()) == Ok::<Seq<Doc>, ErrorKind>(
                    models(docs@),
                ),
                Err(e) => find_result(self@, path@, needle.model()) == Err::<Seq<Doc>, ErrorKind>(
                    e.kind(),
                ) && e.detail() == (if !valid_path(path@) {
                    "path must not be empty"@
                } else {
                    fold_text(self@)
                }),
            },
    {
        if !is_valid_path(path) {
            return Err(DbError::InvalidData(message("path must not be empty")));
        }
        let mut docs = match self.live_documents() {
            Ok(d) => d,
            Err(e) => {
                return Err(e);
            },
        };
        let ghost all = models(docs@);
        let ghost originals = docs@;
        let mut found: Vec<Value> = Vec::new();
        let mut i: usize = 0;
        proof {
            assert(all.skip(0) =~= all);
            assert(models(found@) =~= Seq::<Doc>::empty());
        }
        while i < docs.len()
            invariant
                0 <= i <= docs@.len(),
                all == models(originals),
                originals.len() == docs@.len(),
                forall|j: int| i <= j < docs@.len() ==> docs@[j] == originals[j],
                matching(all, path@, needle.model()) == models(found@) + matching(
                    all.skip(i as int),
                    path@,
                    needle.model(),
                ),
            decreases docs@.len() - i,
        {
            let mut doc = Value::Null;
            std::mem::swap(&mut docs[i], &mut doc);
            proof {
                assert(doc == originals[i as int]);
                assert(all.skip(i as int)[0] == doc.model());
                assert(all.skip(i as int).drop_first() =~= all.skip(i + 1));
            }
            let keep = match doc.get_path(path) {
                Some(v) => v.equals(needle),
                None => false,
            };
            let ghost before = found@;
            if keep {
                found.push(doc);
                proof {
                    assert(models(found@) =~= models(before).push(doc.model()));
                    assert(models(before) + (seq![doc.model()] + matching(
                        all.skip(i + 1),
                        path@,
                        needle.model(),
                    )) =~= models(found@) + matching(all.skip(i + 1), path@, needle.model()));
                }
            }
            i = i + 1;
        }
        proof {
            assert(all.skip(i as int) =~= Seq::<Doc>::empty());
            assert(models(found@) + Seq::<Doc>::empty() =~= models(found@));
        }
        Ok(found)
    }

    /// Updates the live document selected by `update.id`: stores each value
    /// of `update.set` at its path, then removes each path of `update.unset`.
    /// Changing or removing `_id` is refused.
    #[verifier::loop_isolation(false)]
    pub fn update(&mut self, update: UpdateRequest) -> (r: Result<(), DbError>)
        requires
            update.wf(),
        ensures
            final(self).location() == old(self).location(),
            match r {
                Ok(()) => update_result(
                    old(self)@,
                    update.id@,
                    update.set.model(),
                    views(update.unset@),
                ) == Ok::<Seq<u8>, ErrorKind>(final(self)@),
                Err(e) => update_result(
                    old(self)@,
                    update.id@,
                    update.set.model(),
                    views(update.unset@),
                ) == Err::<Seq<u8>, ErrorKind>(e.kind()) && final(self)@ == old(self)@ && (
                update_rule_text(old(self)@, update.id@, update.set.model(), views(update.unset@))
                    matches Some(t) ==> e.detail() == t) && (lookup(old(self)@, update.id@) is Err
                    ==> e.detail() == latest_text(old(self)@, update.id@)),
            },
    {
        let ghost set_m = update.set.model();
        let ghost unset_m = views(update.unset@);
        let mut doc = match self.get_by_id(update.id.as_str()) {
            Ok(Some(d)) => d,
            Ok(None) => {
                return Err(DbError::NotFound(update.id.clone()));
            },
            Err(e) => {
                return Err(e);
            },
        };
        let ghost doc0 = doc.model();
        let current_id = match validate_document(&doc) {
            Ok(id) => id.to_owned(),
            Err(e) => {
                return Err(e);
            },
        };
        let mut i: usize = 0;
        while i < update.set.len()
            invariant
                0 <= i <= update.set@.len(),
                set_m == update.set.model(),
                forall|j: int|
                    0 <= j < i ==> !((#[trigger] set_m[j]).0 == id_key() && set_m[j].1 != Doc::Str(
                        current_id@,
                    )),
            decreases update.set@.len() - i,
        {
            let (path, value) = update.set.entry(i);
            if crate::bytes::same_text(path.as_str(), "_id") {
                let same = match value {
                    Value::String(id) => crate::bytes::same_text(id.as_str(), current_id.as_str()),
                    _ => false,
                };
                if !same {
                    return Err(
                        DbError::InvalidData(
                            message("updating _id to a different value is not allowed"),
                        ),
                    );
                }
            }
            i = i + 1;
        }
        let mut i: usize = 0;
        while i < update.unset.len()
            invariant
                0 <= i <= update.unset@.len(),
                unset_m == views(update.unset@),
                forall|j: int| 0 <= j < i ==> (#[trigger] unset_m[j]) != id_key(),
            decreases update.unset@.len() - i,
        {
            if crate::bytes::same_text(update.unset[i].as_str(), "_id") {
                proof {
                    assert(unset_m[i as int] == id_key());
                }
                return Err(DbError::InvalidData(message("unsetting _id is not allowed")));
            }
            i = i + 1;
        }
        proof {
            assert(!unset_m.contains(id_key()));
        }
        let UpdateRequest { id: _, set, unset } = update;
        let mut entries = set.into_entries();
        let ghost originals = entries@;
        let mut i: usize = 0;
        proof {
            assert(set_m.skip(0) =~= set_m);
        }
        while i < entries.len()
            invariant
                0 <= i <= entries@.len(),
                originals.len() == entries@.len(),
                set_m == crate::types::entries_model(originals),
                forall|j: int| i <= j < entries@.len() ==> entries@[j] == originals[j],
                doc.wf(),
                Doc::Object(set_m).wf(),
                apply_sets(doc0, set_m) == apply_sets(doc.model(), set_m.skip(i as int)),
                apply_sets(doc0, set_m) is Err ==> apply_sets_text(doc0, set_m) == apply_sets_text(
                    doc.model(),
                    set_m.skip(i as int),
                ),
            decreases entries@.len() - i,
        {
            let mut entry: (String, Value) = (String::new(), Value::Null);
            std::mem::swap(&mut entries[i], &mut entry);
            let (path, value) = entry;
            proof {
                assert(set_m.skip(i as int)[0] == set_m[i as int]);
                assert(set_m.skip(i as int).drop_first() =~= set_m.skip(i + 1));
                assert(set_m[i as int].1.wf());
            }
            match crate::paths::set_path(&mut doc, path.as_str(), value) {
                Ok(()) => {},
                Err(e) => {
                    return Err(e);
                },
            }
            i = i + 1;
        }
        let ghost doc1 = doc.model();
        proof {
            assert(set_m.skip(i as int) =~= Seq::<(Seq<char>, Doc)>::empty());
            assert(unset_m.skip(0) =~= unset_m);
        }
        let mut i: usize = 0;
        while i < unset.len()
            invariant
                0 <= i <= unset@.len(),
                unset_m == views(unset@),
                doc.wf(),
                apply_unsets(doc1, unset_m) == apply_unsets(doc.model(), unset_m.skip(i as int)),
                apply_unsets(doc1, unset_m) is Err ==> apply_unsets_text(doc1, unset_m)
                    == apply_unsets_text(doc.model(), unset_m.skip(i as int)),
            decreases unset@.len() - i,
        {
            proof {
                assert(unset_m.skip(i as int)[0] == unset@[i as int]@);
                assert(unset_m.skip(i as int).drop_first() =~= unset_m.skip(i + 1));
            }
            match crate::paths::unset_path(&mut doc, unset[i].as_str()) {
                Ok(()) => {},
                Err(e) => {
                    return Err(e);
                },
            }
            i = i + 1;
        }
        proof {
            assert(unset_m.skip(i as int) =~= Seq::<Seq<char>>::empty());
        }
        let same = match validate_document(&doc) {
            Ok(final_id) => crate::bytes::same_text(final_id, current_id.as_str()),
            Err(e) => {
                return Err(e);
            },
        };
        if !same {
            return Err(DbError::InvalidData(message("document _id changed during update")));
        }
        let bytes = match encode_value(&doc) {
            Ok(b) => b,
            Err(e) => {
                return Err(e);
            },
        };
        let record = Record::Put { id: current_id, doc: bytes };
        record.write_to(&mut self.log)
    }

    /// The live document stored under `id`, if there is one.
    pub fn get_by_id(&self, id: &str) -> (r: Result<Option<Value>, DbError>)
        ensures
            match r {
                Ok(found) => lookup(self@, id@) == Ok::<Option<Doc>, ErrorKind>(opt_model(found)) && (
                found matches Some(v) ==> v.wf()),
                Err(e) => lookup(self@, id@) == Err::<Option<Doc>, ErrorKind>(e.kind())
                    && e.detail() == latest_text(self@, id@),
            },
    {
        let mut rest: &[u8] = self.log.as_slice();
        let mut found: Option<Value> = None;
        loop
            invariant
                lookup(self@, id@) == latest(rest@, id@, opt_model(found)),
                latest_text(self@, id@) == latest_text(rest@, id@),
                found matches Some(v) ==> v.wf(),
            decreases rest@.len(),
        {
            let ghost before = rest@;
            proof {
                lemma_read_len(before);
            }
            match Record::read_from(&mut rest) {
                Ok(None) => {
                    return Ok(found);
                },
                Ok(Some(record)) => {
                    match record {
                        Record::Put { id: record_id, doc } => {
                            if crate::bytes::same_text(record_id.as_str(), id) {
                                match decode_document(record_id.as_str(), doc.as_slice()) {
                                    Ok(v) => {
                                        found = Some(v);
                                    },
                                    Err(e) => {
                                        return Err(e);
                                    },
                                }
                            }
                        },
                        Record::Delete { id: record_id } => {
                            if crate::bytes::same_text(record_id.as_str(), id) {
                                found = None;
                            }
                        },
                    }
                },
                Err(e) => {
                    return Err(e);
                },
            }
        }
    }
}

} // verus!
