//! Requests of the query language, read from request documents.
use vstd::prelude::*;

use crate::bytes::views;
use crate::error::{message, DbError, ErrorKind};
use crate::json::json_input;
use crate::paths::{id_key, is_valid_path, valid_path};
use crate::types::{
    assoc_get, assoc_remove, lemma_array_model, lemma_object_model, lemma_wf_get, lemma_wf_remove,
    models, Doc, Fields, Value,
};

verus! {

/// An update of one document: values to store at paths, and paths to remove.
#[derive(Debug, PartialEq)]
pub struct UpdateRequest {
    pub id: String,
    pub set: Fields,
    pub unset: Vec<String>,
}

/// A search for the documents whose value at `path` equals `eq`.
#[derive(Debug, PartialEq)]
pub struct FindRequest {
    pub path: String,
    pub eq: Value,
}

impl UpdateRequest {
    /// The paths to set are in order and their values are well-formed.
    pub open spec fn wf(self) -> bool {
        Doc::Object(self.set.model()).wf()
    }
}

/// The id that an `{"_id": string}` filter selects.
pub open spec fn id_filter(v: Doc) -> Result<Seq<char>, ErrorKind> {
    match v {
        Doc::Object(f) => if f.len() != 1 {
            Err(ErrorKind::UnsupportedQuery)
        } else {
            match assoc_get(f, id_key()) {
                Some(Doc::Str(id)) => Ok(id),
                Some(_) => Err(ErrorKind::InvalidData),
                None => Err(ErrorKind::UnsupportedQuery),
            }
        },
        _ => Err(ErrorKind::UnsupportedQuery),
    }
}

/// The path and the value of a `{"path": string, "eq": value}` query.
pub open spec fn find_request(v: Doc) -> Result<(Seq<char>, Doc), ErrorKind> {
    match v {
        Doc::Object(f) => if f.len() != 2 || assoc_get(f, "path"@) is None || assoc_get(
            f,
            "eq"@,
        ) is None {
            Err(ErrorKind::UnsupportedQuery)
        } else {
            match assoc_get(f, "path"@)->0 {
                Doc::Str(p) => if valid_path(p) {
                    Ok((p, assoc_get(f, "eq"@)->0))
                } else {
                    Err(ErrorKind::InvalidData)
                },
                _ => Err(ErrorKind::InvalidData),
            }
        },
        _ => Err(ErrorKind::UnsupportedQuery),
    }
}

/// The paths of an `unset` list: every item must be a valid path.
pub open spec fn unset_paths(items: Seq<Doc>) -> Option<Seq<Seq<char>>>
    decreases items.len(),
{
    if items.len() == 0 {
        Some(Seq::empty())
    } else {
        match items[0] {
            Doc::Str(p) => if valid_path(p) {
                match unset_paths(items.drop_first()) {
                    Some(rest) => Some(seq![p] + rest),
                    None => None,
                }
            } else {
                None
            },
            _ => None,
        }
    }
}

/// The `set` part of an update request.
pub open spec fn set_part(f: Seq<(Seq<char>, Doc)>) -> Result<Seq<(Seq<char>, Doc)>, ErrorKind> {
    match assoc_get(f, "set"@) {
        None => Ok(Seq::empty()),
        Some(Doc::Object(entries)) => if forall|i: int|
            0 <= i < entries.len() ==> valid_path(#[trigger] entries[i].0) {
            Ok(entries)
        } else {
            Err(ErrorKind::InvalidData)
        },
        Some(_) => Err(ErrorKind::InvalidData),
    }
}

/// The `unset` part of an update request.
pub open spec fn unset_part(f: Seq<(Seq<char>, Doc)>) -> Result<Seq<Seq<char>>, ErrorKind> {
    match assoc_get(f, "unset"@) {
        None => Ok(Seq::empty()),
        Some(Doc::Array(items)) => match unset_paths(items) {
            Some(paths) => Ok(paths),
            None => Err(ErrorKind::InvalidData),
        },
        Some(_) => Err(ErrorKind::InvalidData),
    }
}

/// The id, the values to set and the paths to unset of an update request
/// `{"filter": {"_id": string}, "set": {path: value, ...}, "unset": [path, ...]}`.
pub open spec fn update_request(v: Doc) -> Result<
    (Seq<char>, Seq<(Seq<char>, Doc)>, Seq<Seq<char>>),
    ErrorKind,
> {
    match v {
        Doc::Object(f) => match assoc_get(f, "filter"@) {
            None => Err(ErrorKind::UnsupportedQuery),
            Some(filter) => match id_filter(filter) {
                Err(k) => Err(k),
                Ok(id) => {
                    let f1 = assoc_remove(f, "filter"@);
                    match set_part(f1) {
                        Err(k) => Err(k),
                        Ok(set) => {
                            let f2 = assoc_remove(f1, "set"@);
                            match unset_part(f2) {
                                Err(k) => Err(k),
                                Ok(unset) => if assoc_remove(f2, "unset"@).len() != 0 {
                                    Err(ErrorKind::UnsupportedQuery)
                                } else {
                                    Ok((id, set, unset))
                                },
                            }
                        },
                    }
                },
            },
        },
        _ => Err(ErrorKind::UnsupportedQuery),
    }
}

/// The message of the error that `id_filter` gives.
pub open spec fn id_filter_text(v: Doc) -> Seq<char> {
    match v {
        Doc::Object(f) => if f.len() != 1 {
            "only {_id: string} filters are supported"@
        } else {
            match assoc_get(f, id_key()) {
                Some(Doc::Str(_)) => Seq::empty(),
                Some(_) => "_id filter must be a string"@,
                None => "only {_id: string} filters are supported"@,
            }
        },
        _ => "expected object filter"@,
    }
}

/// The message of the error that `find_request` gives.
pub open spec fn find_request_text(v: Doc) -> Seq<char> {
    match v {
        Doc::Object(f) => if f.len() != 2 || assoc_get(f, "path"@) is None || assoc_get(
            f,
            "eq"@,
        ) is None {
            "find expects {\"path\": string, \"eq\": value}"@
        } else {
            match assoc_get(f, "path"@)->0 {
                Doc::Str(p) => if valid_path(p) {
                    Seq::empty()
                } else {
                    "path must not be empty"@
                },
                _ => "path must be a string"@,
            }
        },
        _ => "expected object find query"@,
    }
}

/// The first key of `entries` that is not a valid path.
pub open spec fn first_invalid_key(entries: Seq<(Seq<char>, Doc)>) -> Seq<char>
    decreases entries.len(),
{
    if entries.len() == 0 {
        Seq::empty()
    } else if !valid_path(entries[0].0) {
        entries[0].0
    } else {
        first_invalid_key(entries.drop_first())
    }
}

/// The message for the first item of an `unset` list that is not a valid
/// path.
pub open spec fn unset_text(items: Seq<Doc>) -> Seq<char>
    decreases items.len(),
{
    if items.len() == 0 {
        Seq::empty()
    } else {
        match items[0] {
            Doc::Str(p) => if valid_path(p) {
                unset_text(items.drop_first())
            } else {
                "invalid unset path: "@ + p
            },
            _ => "update unset entries must be strings"@,
        }
    }
}

/// The message of the error that `update_request` gives.
pub open spec fn update_request_text(v: Doc) -> Seq<char> {
    match v {
        Doc::Object(f) => match assoc_get(f, "filter"@) {
            None => "update requires filter"@,
            Some(filter) => match id_filter(filter) {
                Err(_) => id_filter_text(filter),
                Ok(_) => {
                    let f1 = assoc_remove(f, "filter"@);
                    match set_part(f1) {
                        Err(_) => match assoc_get(f1, "set"@) {
                            Some(Doc::Object(entries)) => "invalid set path: "@ + first_invalid_key(
                                entries,
                            ),
                            _ => "update set must be an object"@,
                        },
                        Ok(_) => {
                            let f2 = assoc_remove(f1, "set"@);
                            match unset_part(f2) {
                                Err(_) => match assoc_get(f2, "unset"@) {
                                    Some(Doc::Array(items)) => unset_text(items),
                                    _ => "update unset must be an array of strings"@,
                                },
                                Ok(_) => "update contains unsupported keys"@,
                            }
                        },
                    }
                },
            },
        },
        _ => "expected object update request"@,
    }
}

/// The id that an `{"_id": string}` filter selects.
pub fn parse_id_filter_value(value: &Value) -> (r: Result<String, DbError>)
    ensures
        match r {
            Ok(id) => id_filter(value.model()) == Ok::<Seq<char>, ErrorKind>(id@),
            Err(e) => id_filter(value.model()) == Err::<Seq<char>, ErrorKind>(e.kind())
                && e.detail() == id_filter_text(value.model()),
        },
{
    let object = match value {
        Value::Object(map) => map,
        _ => {
            return Err(DbError::UnsupportedQuery(message("expected object filter")));
        },
    };
    proof {
        lemma_object_model(*object);
    }
    if object.len() != 1 {
        return Err(
            DbError::UnsupportedQuery(message("only {_id: string} filters are supported")),
        );
    }
    match object.get("_id") {
        Some(Value::String(id)) => Ok(id.clone()),
        Some(_) => Err(DbError::InvalidData(message("_id filter must be a string"))),
        None => Err(DbError::UnsupportedQuery(message("only {_id: string} filters are supported"))),
    }
}

/// The path and the value of a `{"path": string, "eq": value}` query.
pub fn parse_find_value(value: Value) -> (r: Result<FindRequest, DbError>)
    requires
        value.wf(),
    ensures
        match r {
            Ok(req) => find_request(value.model()) == Ok::<(Seq<char>, Doc), ErrorKind>(
                (req.path@, req.eq.model()),
            ) && req.eq.wf(),
            Err(e) => find_request(value.model()) == Err::<(Seq<char>, Doc), ErrorKind>(e.kind())
                && e.detail() == find_request_text(value.model()),
        },
{
    let mut object = match value {
        Value::Object(map) => map,
        _ => {
            return Err(DbError::UnsupportedQuery(message("expected object find query")));
        },
    };
    proof {
        lemma_object_model(object);
    }
    let ghost f = object.model();
    if object.len() != 2 || !object.contains_key("path") || !object.contains_key("eq") {
        return Err(
            DbError::UnsupportedQuery(message("find expects {\"path\": string, \"eq\": value}")),
        );
    }
    let path = match object.get("path") {
        Some(Value::String(path)) => {
            if is_valid_path(path.as_str()) {
                path.clone()
            } else {
                return Err(DbError::InvalidData(message("path must not be empty")));
            }
        },
        _ => {
            return Err(DbError::InvalidData(message("path must be a string")));
        },
    };
    let eq = match object.remove("eq") {
        Some(v) => v,
        None => {
            return Err(
                DbError::UnsupportedQuery(message("find expects {\"path\": string, \"eq\": value}")),
            );
        },
    };
    proof {
        lemma_wf_get(f, "eq"@);
    }
    Ok(FindRequest { path, eq })
}

/// The id, the values to set and the paths to unset of an update request.
#[verifier::loop_isolation(false)]
#[verifier::rlimit(60)]
#[verifier::spinoff_prover]
pub fn parse_update_value(value: Value) -> (r: Result<UpdateRequest, DbError>)
    requires
        value.wf(),
    ensures
        match r {
            Ok(req) => update_request(value.model()) == Ok::<
                (Seq<char>, Seq<(Seq<char>, Doc)>, Seq<Seq<char>>),
                ErrorKind,
            >((req.id@, req.set.model(), views(req.unset@))) && req.wf(),
            Err(e) => update_request(value.model()) == Err::<
                (Seq<char>, Seq<(Seq<char>, Doc)>, Seq<Seq<char>>),
                ErrorKind,
            >(e.kind()) && e.detail() == update_request_text(value.model()),
        },
{
    let mut object = match value {
        Value::Object(map) => map,
        _ => {
            return Err(DbError::UnsupportedQuery(message("expected object update request")));
        },
    };
    proof {
        lemma_object_model(object);
    }
    let ghost f = object.model();
    let filter = match object.remove("filter") {
        Some(v) => v,
        None => {
            return Err(DbError::UnsupportedQuery(message("update requires filter")));
        },
    };
    let id = match parse_id_filter_value(&filter) {
        Ok(id) => id,
        Err(e) => {
            return Err(e);
        },
    };
    let ghost f1 = object.model();
    proof {
        lemma_wf_remove(f, "filter"@);
    }
    let set = match object.remove("set") {
        None => {
            let empty = Fields::new();
            proof {
                assert(Doc::Object(empty.model()).wf());
            }
            empty
        },
        Some(Value::Object(values)) => {
            proof {
                lemma_object_model(values);
                lemma_wf_get(f1, "set"@);
            }
            let ghost entries = values.model();
            let mut i: usize = 0;
            proof {
                assert(entries.skip(0) =~= entries);
            }
            while i < values.len()
                invariant
                    0 <= i <= values@.len(),
                    entries == values.model(),
                    forall|j: int| 0 <= j < i ==> valid_path(#[trigger] entries[j].0),
                    first_invalid_key(entries) == first_invalid_key(entries.skip(i as int)),
                decreases values@.len() - i,
            {
                let (path, _v) = values.entry(i);
                proof {
                    assert(entries.skip(i as int)[0] == entries[i as int]);
                    assert(entries.skip(i as int).drop_first() =~= entries.skip(i + 1));
                    reveal_strlit("");
                    assert("invalid set path: "@ + path@ + ""@ =~= "invalid set path: "@ + path@);
                }
                if !is_valid_path(path.as_str()) {
                    return Err(
                        DbError::InvalidData(
                            crate::bytes::describe("invalid set path: ", path.as_str(), ""),
                        ),
                    );
                }
                i = i + 1;
            }
            values
        },
        Some(_) => {
            return Err(DbError::InvalidData(message("update set must be an object")));
        },
    };
    let ghost f2 = object.model();
    proof {
        lemma_wf_remove(f1, "set"@);
    }
    proof {
        assert(set_part(f1) == Ok::<Seq<(Seq<char>, Doc)>, ErrorKind>(set.model()));
        assert(Doc::Object(set.model()).wf());
    }
    let unset = match object.remove("unset") {
        None => {
            let empty: Vec<String> = Vec::new();
            proof {
                assert(views(empty@) =~= Seq::<Seq<char>>::empty());
            }
            empty
        },
        Some(Value::Array(values)) => {
            proof {
                lemma_array_model(values);
            }
            let ghost items = models(values@);
            let mut paths: Vec<String> = Vec::new();
            let mut i: usize = 0;
            proof {
                assert(items.skip(0) =~= items);
                assert(views(paths@) =~= Seq::<Seq<char>>::empty());
            }
            while i < values.len()
                invariant
                    0 <= i <= values@.len(),
                    items == models(values@),
                    unset_paths(items) == match unset_paths(items.skip(i as int)) {
                        Some(rest) => Some(views(paths@) + rest),
                        None => None,
                    },
                    unset_text(items) == unset_text(items.skip(i as int)),
                decreases values@.len() - i,
            {
                proof {
                    assert(items.skip(i as int)[0] == values@[i as int].model());
                    assert(items.skip(i as int).drop_first() =~= items.skip(i + 1));
                    reveal_strlit("");
                }
                match &values[i] {
                    Value::String(path) => {
                        proof {
                            assert("invalid unset path: "@ + path@ + ""@ =~= "invalid unset path: "@
                                + path@);
                        }
                        if !is_valid_path(path.as_str()) {
                            return Err(
                                DbError::InvalidData(
                                    crate::bytes::describe("invalid unset path: ", path.as_str(), ""),
                                ),
                            );
                        }
                        let ghost before = views(paths@);
                        paths.push(path.clone());
                        proof {
                            assert(views(paths@) =~= before.push(path@));
                            assert(forall|rest: Seq<Seq<char>>|
                                before + (seq![path@] + rest) == #[trigger] (before.push(path@)
                                    + rest)) by {
                                assert forall|rest: Seq<Seq<char>>|
                                    before + (seq![path@] + rest) == #[trigger] (before.push(
                                        path@,
                                    ) + rest) by {
                                    assert(before + (seq![path@] + rest) =~= before.push(path@)
                                        + rest);
                                }
                            }
                        }
                    },
                    _ => {
                        return Err(
                            DbError::InvalidData(message("update unset entries must be strings")),
                        );
                    },
                }
                i = i + 1;
            }
            proof {
                assert(items.skip(i as int) =~= Seq::<Doc>::empty());
                assert(views(paths@) + Seq::<Seq<char>>::empty() =~= views(paths@));
            }
            paths
        },
        Some(_) => {
            return Err(DbError::InvalidData(message("update unset must be an array of strings")));
        },
    };
    proof {
        assert(unset_part(f2) == Ok::<Seq<Seq<char>>, ErrorKind>(views(unset@)));
    }
    if !object.is_empty() {
        return Err(DbError::UnsupportedQuery(message("update contains unsupported keys")));
    }
    Ok(UpdateRequest { id, set, unset })
}

/// The id that the `{"_id": string}` filter in JSON text selects.
pub open spec fn id_filter_json(text: Seq<char>) -> Result<Seq<char>, ErrorKind> {
    match json_input(text) {
        Err(k) => Err(k),
        Ok(d) => id_filter(d),
    }
}

/// The path and the value of the find query in JSON text.
pub open spec fn find_request_json(text: Seq<char>) -> Result<(Seq<char>, Doc), ErrorKind> {
    match json_input(text) {
        Err(k) => Err(k),
        Ok(d) => find_request(d),
    }
}

/// The id, the values to set and the paths to unset of the update request
/// in JSON text.
pub open spec fn update_request_json(text: Seq<char>) -> Result<
    (Seq<char>, Seq<(Seq<char>, Doc)>, Seq<Seq<char>>),
    ErrorKind,
> {
    match json_input(text) {
        Err(k) => Err(k),
        Ok(d) => update_request(d),
    }
}

/// Reads an `{"_id": string}` filter from JSON text.
pub fn parse_id_filter_json(input: &str) -> (r: Result<String, DbError>)
    ensures
        match r {
            Ok(id) => id_filter_json(input@) == Ok::<Seq<char>, ErrorKind>(id@),
            Err(e) => id_filter_json(input@) == Err::<Seq<char>, ErrorKind>(e.kind()) && (json_input(
                input@,
            ) matches Ok(d) ==> e.detail() == id_filter_text(d)),
        },
{
    match Value::from_json_str(input) {
        Ok(value) => parse_id_filter_value(&value),
        Err(e) => Err(e),
    }
}

/// Reads a `{"path": string, "eq": value}` query from JSON text.
pub fn parse_find_json(input: &str) -> (r: Result<FindRequest, DbError>)
    ensures
        match r {
            Ok(req) => find_request_json(input@) == Ok::<(Seq<char>, Doc), ErrorKind>(
                (req.path@, req.eq.model()),
            ) && req.eq.wf(),
            Err(e) => find_request_json(input@) == Err::<(Seq<char>, Doc), ErrorKind>(e.kind()) && (json_input(
                input@,
            ) matches Ok(d) ==> e.detail() == find_request_text(d)),
        },
{
    match Value::from_json_str(input) {
        Ok(value) => parse_find_value(value),
        Err(e) => Err(e),
    }
}

/// Reads an update request from JSON text.
pub fn parse_update_json(input: &str) -> (r: Result<UpdateRequest, DbError>)
    ensures
        match r {
            Ok(req) => update_request_json(input@) == Ok::<
                (Seq<char>, Seq<(Seq<char>, Doc)>, Seq<Seq<char>>),
                ErrorKind,
            >((req.id@, req.set.model(), views(req.unset@))) && req.wf(),
            Err(e) => update_request_json(input@) == Err::<
                (Seq<char>, Seq<(Seq<char>, Doc)>, Seq<Seq<char>>),
                ErrorKind,
            >(e.kind()) && (json_input(input@) matches Ok(d) ==> e.detail()
                == update_request_text(d)),
        },
{
    match Value::from_json_str(input) {
        Ok(value) => parse_update_value(value),
        Err(e) => Err(e),
    }
}

} // verus!
