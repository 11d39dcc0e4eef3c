//! Dotted paths into documents: reading, setting and removing nested fields.
use vstd::prelude::*;

use crate::bytes::{string_chars, string_from_chars, views};
use crate::error::{message, DbError};
use crate::types::{
    assoc_get, assoc_insert, assoc_remove, keys_sorted, lemma_get_some_index,
    lemma_insert_after_remove, lemma_insert_get, lemma_insert_same, lemma_object_model,
    lemma_remove_get, lemma_wf_get, lemma_wf_insert, lemma_wf_remove, Doc, Fields, Value,
};

verus! {

/// The segments of `rest`, split at each '.', the first one continuing `cur`.
pub open spec fn split_from(rest: Seq<char>, cur: Seq<char>) -> Seq<Seq<char>>
    decreases rest.len(),
{
    if rest.len() == 0 {
        seq![cur]
    } else if rest[0] == '.' {
        seq![cur] + split_from(rest.drop_first(), Seq::empty())
    } else {
        split_from(rest.drop_first(), cur.push(rest[0]))
    }
}

/// The segments of a path: its text split at each '.'.
pub open spec fn split_dots(p: Seq<char>) -> Seq<Seq<char>> {
    split_from(p, Seq::empty())
}

/// A path is valid when it is not empty and no segment is empty.
pub open spec fn valid_path(p: Seq<char>) -> bool {
    p.len() > 0 && forall|i: int|
        0 <= i < split_dots(p).len() ==> (#[trigger] split_dots(p)[i]).len() > 0
}

/// The value reached from `d` by following the keys `segs`.
pub open spec fn get_segs(d: Doc, segs: Seq<Seq<char>>) -> Option<Doc>
    decreases segs.len(),
{
    if segs.len() == 0 {
        Some(d)
    } else {
        match d {
            Doc::Object(f) => match assoc_get(f, segs[0]) {
                Some(child) => get_segs(child, segs.drop_first()),
                None => None,
            },
            _ => None,
        }
    }
}

/// The value at a path; the empty path names the document itself.
pub open spec fn get_at(d: Doc, p: Seq<char>) -> Option<Doc> {
    if p.len() == 0 {
        Some(d)
    } else {
        get_segs(d, split_dots(p))
    }
}

/// `d` with `v` stored at the keys `segs`, creating empty objects for missing
/// keys on the way; `None` when the document or a value on the way is not an
/// object.
pub open spec fn set_segs(d: Doc, segs: Seq<Seq<char>>, v: Doc) -> Option<Doc>
    decreases segs.len(),
{
    match d {
        Doc::Object(f) => if segs.len() <= 1 {
            Some(Doc::Object(assoc_insert(f, segs[0], v)))
        } else {
            let child = match assoc_get(f, segs[0]) {
                None => Some(Doc::Object(Seq::empty())),
                Some(Doc::Object(cf)) => Some(Doc::Object(cf)),
                Some(_) => None,
            };
            match child {
                None => None,
                Some(c) => match set_segs(c, segs.drop_first(), v) {
                    None => None,
                    Some(nc) => Some(Doc::Object(assoc_insert(f, segs[0], nc))),
                },
            }
        },
        _ => None,
    }
}

/// The message of the error that storing at the keys `segs` of `d` gives:
/// the root, or the first value on the way, that is not an object.
pub open spec fn set_segs_text(d: Doc, segs: Seq<Seq<char>>) -> Seq<char>
    decreases segs.len(),
{
    match d {
        Doc::Object(f) => if segs.len() <= 1 {
            Seq::empty()
        } else {
            match assoc_get(f, segs[0]) {
                None => set_segs_text(Doc::Object(Seq::empty()), segs.drop_first()),
                Some(Doc::Object(cf)) => set_segs_text(Doc::Object(cf), segs.drop_first()),
                Some(_) => "path segment '"@ + segs[0] + "' is not an object"@,
            }
        },
        _ => "root document must be an object"@,
    }
}

/// `d` without the value at the keys `segs`; a missing key, or a value on
/// the way that is not an object, leaves `d` as it is; `None` when `d` is not
/// an object.
pub open spec fn unset_segs(d: Doc, segs: Seq<Seq<char>>) -> Option<Doc>
    decreases segs.len(),
{
    match d {
        Doc::Object(f) => if segs.len() <= 1 {
            Some(Doc::Object(assoc_remove(f, segs[0])))
        } else {
            match assoc_get(f, segs[0]) {
                Some(Doc::Object(cf)) => match unset_segs(Doc::Object(cf), segs.drop_first()) {
                    Some(nc) => Some(Doc::Object(assoc_insert(f, segs[0], nc))),
                    None => None,
                },
                _ => Some(d),
            }
        },
        _ => None,
    }
}

/// Splits a path at each '.'.
pub fn split_segments(path: &str) -> (r: Vec<String>)
    ensures
        views(r@) == split_dots(path@),
{
    let chars = string_chars(path);
    let mut segs: Vec<String> = Vec::new();
    let mut cur: Vec<char> = Vec::new();
    let mut i: usize = 0;
    proof {
        assert(chars@.skip(0) =~= chars@);
        assert(views(segs@) =~= Seq::<Seq<char>>::empty());
        assert(cur@ =~= Seq::<char>::empty());
    }
    while i < chars.len()
        invariant
            0 <= i <= chars@.len(),
            chars@ == path@,
            views(segs@) + split_from(chars@.skip(i as int), cur@) == split_dots(path@),
        decreases chars@.len() - i,
    {
        let ghost rest = chars@.skip(i as int);
        proof {
            assert(rest[0] == chars@[i as int]);
            assert(rest.drop_first() =~= chars@.skip(i + 1));
        }
        if chars[i] == '.' {
            let ghost before = views(segs@);
            let seg = string_from_chars(cur.as_slice());
            segs.push(seg);
            cur = Vec::new();
            proof {
                assert(views(segs@) =~= before.push(seg@));
                assert(cur@ =~= Seq::<char>::empty());
                assert(before + split_from(rest, seg@) == before + (seq![seg@] + split_from(
                    chars@.skip(i + 1),
                    Seq::empty(),
                )));
                assert(before + (seq![seg@] + split_from(chars@.skip(i + 1), Seq::empty()))
                    =~= before.push(seg@) + split_from(chars@.skip(i + 1), Seq::empty()));
            }
        } else {
            cur.push(chars[i]);
        }
        i = i + 1;
    }
    let ghost before = views(segs@);
    let seg = string_from_chars(cur.as_slice());
    segs.push(seg);
    proof {
        assert(chars@.skip(i as int) =~= Seq::<char>::empty());
        assert(views(segs@) =~= before.push(seg@));
        assert(before + seq![seg@] =~= before.push(seg@));
    }
    segs
}

/// Whether a path is valid: not empty, and no segment empty.
pub fn is_valid_path(path: &str) -> (r: bool)
    ensures
        r == valid_path(path@),
{
    if path.is_empty() {
        return false;
    }
    let segs = split_segments(path);
    let mut i: usize = 0;
    while i < segs.len()
        invariant
            0 <= i <= segs@.len(),
            views(segs@) == split_dots(path@),
            forall|j: int| 0 <= j < i ==> (#[trigger] split_dots(path@)[j]).len() > 0,
        decreases segs@.len() - i,
    {
        proof {
            assert(views(segs@)[i as int] == segs@[i as int]@);
        }
        if segs[i].as_str().is_empty() {
            return false;
        }
        i = i + 1;
    }
    true
}

/// The segments of a valid path; `InvalidData` for a path that is not valid.
pub fn split_path(path: &str) -> (r: Result<Vec<String>, DbError>)
    ensures
        r is Ok <==> valid_path(path@),
        r matches Ok(segs) ==> views(segs@) == split_dots(path@),
        r matches Err(e) ==> e is InvalidData && e.detail() == "invalid path: "@ + path@,
{
    proof {
        reveal_strlit("");
        assert("invalid path: "@ + path@ + ""@ =~= "invalid path: "@ + path@);
    }
    if !is_valid_path(path) {
        return Err(DbError::InvalidData(crate::bytes::describe("invalid path: ", path, "")));
    }
    Ok(split_segments(path))
}

impl Value {
    /// The value at a dotted path; the empty path gives the value itself.
    pub fn get_path(&self, path: &str) -> (r: Option<&Value>)
        ensures
            match r {
                Some(v) => get_at(self.model(), path@) == Some(v.model()),
                None => get_at(self.model(), path@) is None,
            },
    {
        if path.is_empty() {
            return Some(self);
        }
        let segs = split_segments(path);
        let ghost all = views(segs@);
        let mut current = self;
        let mut i: usize = 0;
        proof {
            assert(all.skip(0) =~= all);
        }
        while i < segs.len()
            invariant
                0 <= i <= segs@.len(),
                all == views(segs@),
                all == split_dots(path@),
                path@.len() > 0,
                get_at(self.model(), path@) == get_segs(current.model(), all.skip(i as int)),
            decreases segs@.len() - i,
        {
            let ghost rest = all.skip(i as int);
            proof {
                assert(rest[0] == segs@[i as int]@);
                assert(rest.drop_first() =~= all.skip(i + 1));
            }
            match current {
                Value::Object(map) => {
                    proof {
                        lemma_object_model(*map);
                    }
                    match map.get(segs[i].as_str()) {
                        Some(v) => {
                            current = v;
                        },
                        None => {
                            return None;
                        },
                    }
                },
                _ => {
                    return None;
                },
            }
            i = i + 1;
        }
        proof {
            assert(all.skip(i as int) =~= Seq::<Seq<char>>::empty());
        }
        Some(current)
    }

    /// The document's string `_id`, if it has one.
    pub fn id_str(&self) -> (r: Option<&str>)
        ensures
            match r {
                Some(s) => self.model() matches Doc::Object(f) && assoc_get(f, id_key()) == Some(
                    Doc::Str(s@),
                ),
                None => !(self.model() matches Doc::Object(f) && assoc_get(f, id_key()) matches Some(
                    Doc::Str(_),
                )),
            },
    {
        match self {
            Value::Object(map) => {
                proof {
                    lemma_object_model(*map);
                }
                let key = id_text();
                match map.get(key) {
                    Some(Value::String(id)) => Some(id.as_str()),
                    _ => None,
                }
            },
            _ => None,
        }
    }
}

/// The key that holds a document's id.
pub open spec fn id_key() -> Seq<char> {
    "_id"@
}

/// The text `_id`.
pub fn id_text() -> (r: &'static str)
    ensures
        r@ == id_key(),
{
    "_id"
}

/// Stores `value` at `path` in `root`, creating empty objects for missing
/// keys on the way. `InvalidData` for a path that is not valid, `TypeMismatch`
/// when `root` or a value on the way is not an object; on failure `root` is
/// unchanged.
pub fn set_path(root: &mut Value, path: &str, value: Value) -> (r: Result<(), DbError>)
    requires
        old(root).wf(),
        value.wf(),
    ensures
        final(root).wf(),
        match r {
            Ok(()) => valid_path(path@) && set_segs(old(root).model(), split_dots(path@), value.model())
                == Some(final(root).model()),
            Err(e) => {
                &&& final(root).model() == old(root).model()
                &&& !valid_path(path@) ==> e is InvalidData && e.detail() == "invalid path: "@
                    + path@
                &&& valid_path(path@) ==> e is TypeMismatch && set_segs(
                    old(root).model(),
                    split_dots(path@),
                    value.model(),
                ) is None && e.detail() == set_segs_text(old(root).model(), split_dots(path@))
            },
        },
{
    let segments = match split_path(path) {
        Ok(s) => s,
        Err(e) => {
            return Err(e);
        },
    };
    proof {
        assert(views(segments@).skip(0) =~= views(segments@));
        assert(split_dots(path@).len() > 0) by {
            lemma_split_nonempty(path@, Seq::empty());
        }
    }
    set_path_segments(root, &segments, 0, value)
}

proof fn lemma_split_nonempty(rest: Seq<char>, cur: Seq<char>)
    ensures
        split_from(rest, cur).len() > 0,
    decreases rest.len(),
{
    if rest.len() > 0 {
        lemma_split_nonempty(rest.drop_first(), if rest[0] == '.' {
            Seq::empty()
        } else {
            cur.push(rest[0])
        });
    }
}

/// Storing into an empty object always succeeds.
proof fn lemma_set_empty(segs: Seq<Seq<char>>, v: Doc)
    requires
        segs.len() >= 1,
    ensures
        set_segs(Doc::Object(Seq::empty()), segs, v) is Some,
    decreases segs.len(),
{
    if segs.len() > 1 {
        lemma_set_empty(segs.drop_first(), v);
    }
}

fn set_path_segments(root: &mut Value, segments: &Vec<String>, i: usize, value: Value) -> (r: Result<
    (),
    DbError,
>)
    requires
        old(root).wf(),
        value.wf(),
        i < segments@.len(),
    ensures
        final(root).wf(),
        match r {
            Ok(()) => set_segs(old(root).model(), views(segments@).skip(i as int), value.model())
                == Some(final(root).model()),
            Err(e) => {
                &&& e is TypeMismatch
                &&& e.detail() == set_segs_text(old(root).model(), views(segments@).skip(i as int))
                &&& final(root).model() == old(root).model()
                &&& set_segs(old(root).model(), views(segments@).skip(i as int), value.model()) is None
            },
        },
    decreases segments@.len() - i,
{
    let ghost segs = views(segments@).skip(i as int);
    proof {
        assert(segs[0] == segments@[i as int]@);
        assert(segs.drop_first() =~= views(segments@).skip(i + 1));
    }
    let mut taken = Value::Null;
    std::mem::swap(root, &mut taken);
    let ghost original = taken;
    match taken {
        Value::Object(mut map) => {
            proof {
                lemma_object_model(map);
            }
            let ghost f = map.model();
            if i == segments.len() - 1 {
                let ghost vm = value.model();
                map.insert(segments[i].clone(), value);
                proof {
                    lemma_wf_insert(f, segs[0], vm);
                    lemma_object_model(map);
                }
                *root = Value::Object(map);
                return Ok(());
            }
            let existing = map.remove(segments[i].as_str());
            let was_present = existing.is_some();
            let mut child = match existing {
                Some(c) => c,
                None => {
                    let empty = Fields::new();
                    proof {
                        lemma_object_model(empty);
                    }
                    Value::Object(empty)
                },
            };
            let ghost child_before = child.model();
            proof {
                if was_present {
                    lemma_wf_get(f, segs[0]);
                }
            }
            if !matches!(child, Value::Object(_)) {
                proof {
                    lemma_remove_get(f, segs[0], segs[0]);
                    lemma_insert_after_remove(f, segs[0], child_before);
                    lemma_insert_same(f, segs[0]);
                    lemma_object_model(map);
                }
                map.insert(segments[i].clone(), child);
                proof {
                    lemma_object_model(map);
                }
                *root = Value::Object(map);
                return Err(
                    DbError::TypeMismatch(
                        crate::bytes::describe(
                            "path segment '",
                            segments[i].as_str(),
                            "' is not an object",
                        ),
                    ),
                );
            }
            let result = set_path_segments(&mut child, segments, i + 1, value);
            let ghost child_after = child.model();
            proof {
                lemma_remove_get(f, segs[0], segs[0]);
                lemma_insert_after_remove(f, segs[0], child_after);
                lemma_wf_remove(f, segs[0]);
            }
            match result {
                Ok(()) => {
                    map.insert(segments[i].clone(), child);
                    proof {
                        lemma_wf_insert(f, segs[0], child_after);
                        lemma_object_model(map);
                    }
                    *root = Value::Object(map);
                    Ok(())
                },
                Err(e) => {
                    proof {
                        if !was_present {
                            lemma_set_empty(segs.drop_first(), value.model());
                        }
                        lemma_insert_same(f, segs[0]);
                    }
                    map.insert(segments[i].clone(), child);
                    proof {
                        lemma_object_model(map);
                    }
                    *root = Value::Object(map);
                    Err(e)
                },
            }
        },
        other => {
            *root = other;
            Err(DbError::TypeMismatch(message("root document must be an object")))
        },
    }
}

/// Removes the value at `path` from `root`. A missing key, or a value on the
/// way that is not an object, leaves `root` as it is. `InvalidData` for a path
/// that is not valid, `TypeMismatch` when `root` is not an object; on failure
/// `root` is unchanged.
pub fn unset_path(root: &mut Value, path: &str) -> (r: Result<(), DbError>)
    requires
        old(root).wf(),
    ensures
        final(root).wf(),
        match r {
            Ok(()) => valid_path(path@) && unset_segs(old(root).model(), split_dots(path@)) == Some(
                final(root).model(),
            ),
            Err(e) => {
                &&& final(root).model() == old(root).model()
                &&& !valid_path(path@) ==> e is InvalidData && e.detail() == "invalid path: "@
                    + path@
                &&& valid_path(path@) ==> e is TypeMismatch && unset_segs(
                    old(root).model(),
                    split_dots(path@),
                ) is None && e.detail() == "root document must be an object"@
            },
        },
{
    let segments = match split_path(path) {
        Ok(s) => s,
        Err(e) => {
            return Err(e);
        },
    };
    proof {
        assert(views(segments@).skip(0) =~= views(segments@));
        lemma_split_nonempty(path@, Seq::empty());
    }
    unset_path_segments(root, &segments, 0)
}

fn unset_path_segments(root: &mut Value, segments: &Vec<String>, i: usize) -> (r: Result<
    (),
    DbError,
>)
    requires
        old(root).wf(),
        i < segments@.len(),
    ensures
        final(root).wf(),
        match r {
            Ok(()) => unset_segs(old(root).model(), views(segments@).skip(i as int)) == Some(
                final(root).model(),
            ),
            Err(e) => {
                &&& e is TypeMismatch
                &&& e.detail() == "root document must be an object"@
                &&& final(root).model() == old(root).model()
                &&& unset_segs(old(root).model(), views(segments@).skip(i as int)) is None
            },
        },
    decreases segments@.len() - i,
{
    let ghost segs = views(segments@).skip(i as int);
    proof {
        assert(segs[0] == segments@[i as int]@);
        assert(segs.drop_first() =~= views(segments@).skip(i + 1));
    }
    let mut taken = Value::Null;
    std::mem::swap(root, &mut taken);
    match taken {
        Value::Object(mut map) => {
            proof {
                lemma_object_model(map);
            }
            let ghost f = map.model();
            if i == segments.len() - 1 {
                map.remove(segments[i].as_str());
                proof {
                    lemma_wf_remove(f, segs[0]);
                    lemma_object_model(map);
                }
                *root = Value::Object(map);
                return Ok(());
            }
            let existing = map.remove(segments[i].as_str());
            match existing {
                Some(Value::Object(child_map)) => {
                    let mut child = Value::Object(child_map);
                    let ghost child_before = child.model();
                    proof {
                        lemma_wf_get(f, segs[0]);
                    }
                    let result = unset_path_segments(&mut child, segments, i + 1);
                    let ghost child_after = child.model();
                    proof {
                        lemma_remove_get(f, segs[0], segs[0]);
                        lemma_insert_after_remove(f, segs[0], child_after);
                        lemma_wf_remove(f, segs[0]);
                        lemma_wf_insert(f, segs[0], child_after);
                        lemma_object_model(child_map);
                        lemma_insert_same(f, segs[0]);
                    }
                    map.insert(segments[i].clone(), child);
                    proof {
                        lemma_object_model(map);
                    }
                    *root = Value::Object(map);
                    result
                },
                Some(other) => {
                    let ghost om = other.model();
                    proof {
                        lemma_insert_after_remove(f, segs[0], om);
                        lemma_insert_same(f, segs[0]);
                        lemma_remove_get(f, segs[0], segs[0]);
                    }
                    map.insert(segments[i].clone(), other);
                    proof {
                        lemma_object_model(map);
                    }
                    *root = Value::Object(map);
                    Ok(())
                },
                None => {
                    proof {
                        lemma_remove_absent_if_missing(f, segs[0]);
                        lemma_object_model(map);
                    }
                    *root = Value::Object(map);
                    Ok(())
                },
            }
        },
        other => {
            *root = other;
            Err(DbError::TypeMismatch(message("root document must be an object")))
        },
    }
}

proof fn lemma_remove_absent_if_missing(f: Seq<(Seq<char>, Doc)>, k: Seq<char>)
    requires
        assoc_get(f, k) is None,
    ensures
        assoc_remove(f, k) == f,
    decreases f.len(),
{
    if f.len() > 0 {
        lemma_remove_absent_if_missing(f.drop_first(), k);
        assert(seq![f[0]] + f.drop_first() =~= f);
    }
}

proof fn lemma_get_set_segs(d: Doc, segs: Seq<Seq<char>>, v: Doc)
    requires
        segs.len() >= 1,
        set_segs(d, segs, v) is Some,
    ensures
        get_segs(set_segs(d, segs, v)->0, segs) == Some(v),
    decreases segs.len(),
{
    if let Doc::Object(f) = d {
        let k = segs[0];
        if segs.len() == 1 {
            lemma_insert_get(f, k, v, k);
            let r = Doc::Object(assoc_insert(f, k, v));
            assert(set_segs(d, segs, v) == Some(r));
            assert(get_segs(v, segs.drop_first()) == Some(v));
            assert(get_segs(r, segs) == get_segs(v, segs.drop_first()));
        } else {
            let c = match assoc_get(f, k) {
                None => Doc::Object(Seq::empty()),
                Some(x) => x,
            };
            let nc = set_segs(c, segs.drop_first(), v)->0;
            lemma_insert_get(f, k, nc, k);
            lemma_get_set_segs(c, segs.drop_first(), v);
            let r = Doc::Object(assoc_insert(f, k, nc));
            assert(set_segs(d, segs, v) == Some(r));
            assert(get_segs(r, segs) == get_segs(nc, segs.drop_first()));
        }
    }
}

/// After a successful `set_path`, reading the same path gives back the value
/// that was stored.
pub proof fn law_get_after_set(d: Doc, p: Seq<char>, v: Doc)
    requires
        valid_path(p),
        set_segs(d, split_dots(p), v) is Some,
    ensures
        get_at(set_segs(d, split_dots(p), v)->0, p) == Some(v),
{
    lemma_split_nonempty(p, Seq::empty());
    lemma_get_set_segs(d, split_dots(p), v);
}

proof fn lemma_get_unset_segs(d: Doc, segs: Seq<Seq<char>>)
    requires
        d.wf(),
        segs.len() >= 1,
        unset_segs(d, segs) is Some,
    ensures
        get_segs(unset_segs(d, segs)->0, segs) is None,
    decreases segs.len(),
{
    if let Doc::Object(f) = d {
        let k = segs[0];
        if segs.len() == 1 {
            lemma_remove_get(f, k, k);
            let r = Doc::Object(assoc_remove(f, k));
            assert(unset_segs(d, segs) == Some(r));
            assert(get_segs(r, segs) is None);
        } else {
            match assoc_get(f, k) {
                Some(Doc::Object(cf)) => {
                    let nc = unset_segs(Doc::Object(cf), segs.drop_first())->0;
                    lemma_insert_get(f, k, nc, k);
                    lemma_wf_get(f, k);
                    lemma_get_unset_segs(Doc::Object(cf), segs.drop_first());
                    let r = Doc::Object(assoc_insert(f, k, nc));
                    assert(unset_segs(d, segs) == Some(r));
                    assert(get_segs(r, segs) == get_segs(nc, segs.drop_first()));
                },
                Some(other) => {
                    assert(unset_segs(d, segs) == Some(d));
                    assert(get_segs(d, segs) == get_segs(other, segs.drop_first()));
                    assert(segs.drop_first().len() > 0);
                },
                None => {
                    assert(unset_segs(d, segs) == Some(d));
                },
            }
        }
    }
}

/// After a successful `unset_path`, nothing is found at the path.
pub proof fn law_get_after_unset(d: Doc, p: Seq<char>)
    requires
        d.wf(),
        valid_path(p),
        unset_segs(d, split_dots(p)) is Some,
    ensures
        get_at(unset_segs(d, split_dots(p))->0, p) is None,
{
    lemma_split_nonempty(p, Seq::empty());
    lemma_get_unset_segs(d, split_dots(p));
}

/// Storing a well-formed value in a well-formed document keeps it well-formed.
pub proof fn lemma_set_segs_wf(d: Doc, segs: Seq<Seq<char>>, v: Doc)
    requires
        d.wf(),
        v.wf(),
        set_segs(d, segs, v) is Some,
    ensures
        set_segs(d, segs, v)->0.wf(),
    decreases segs.len(),
{
    if let Doc::Object(f) = d {
        let k = segs[0];
        if segs.len() <= 1 {
            lemma_wf_insert(f, k, v);
        } else {
            let c = match assoc_get(f, k) {
                None => Doc::Object(Seq::empty()),
                Some(x) => x,
            };
            if assoc_get(f, k) is Some {
                lemma_wf_get(f, k);
            }
            lemma_set_segs_wf(c, segs.drop_first(), v);
            lemma_wf_insert(f, k, set_segs(c, segs.drop_first(), v)->0);
        }
    }
}

/// Removing a value from a well-formed document keeps it well-formed.
pub proof fn lemma_unset_segs_wf(d: Doc, segs: Seq<Seq<char>>)
    requires
        d.wf(),
        unset_segs(d, segs) is Some,
    ensures
        unset_segs(d, segs)->0.wf(),
    decreases segs.len(),
{
    if let Doc::Object(f) = d {
        let k = segs[0];
        if segs.len() <= 1 {
            lemma_wf_remove(f, k);
        } else {
            if let Some(Doc::Object(cf)) = assoc_get(f, k) {
                lemma_wf_get(f, k);
                lemma_unset_segs_wf(Doc::Object(cf), segs.drop_first());
                lemma_wf_insert(f, k, unset_segs(Doc::Object(cf), segs.drop_first())->0);
            }
        }
    }
}

/// `p` cut at its first '.': the text before it and the text after it; the
/// whole of `p` and the empty text when `p` has no '.'.
pub open spec fn split_once_dot(p: Seq<char>) -> (Seq<char>, Seq<char>)
    decreases p.len(),
{
    if p.len() == 0 {
        (p, Seq::empty())
    } else if p[0] == '.' {
        (Seq::empty(), p.drop_first())
    } else {
        let (h, t) = split_once_dot(p.drop_first());
        (seq![p[0]] + h, t)
    }
}

/// The text after the first '.' is shorter than the path, or empty.
pub proof fn lemma_split_once_shorter(p: Seq<char>)
    ensures
        split_once_dot(p).1.len() < p.len() || split_once_dot(p).1.len() == 0,
    decreases p.len(),
{
    if p.len() > 0 && p[0] != '.' {
        lemma_split_once_shorter(p.drop_first());
    }
}

/// The value that a walk down `p` reaches, one key at a time: the text
/// before the first '.' names a field, and the walk goes on into it while
/// text is left after the '.'.
pub open spec fn walk_get(d: Doc, p: Seq<char>) -> Option<Doc>
    decreases p.len(),
{
    let (h, t) = split_once_dot(p);
    match d {
        Doc::Object(f) => match assoc_get(f, h) {
            Some(v) => if t.len() == 0 {
                Some(v)
            } else {
                proof {
                    lemma_split_once_shorter(p);
                }
                walk_get(v, t)
            },
            None => None,
        },
        _ => None,
    }
}

/// `d` with `x` in place of the value that the walk down `p` reaches; `d`
/// itself where the walk reaches nothing.
pub open spec fn walk_put(d: Doc, p: Seq<char>, x: Doc) -> Doc
    decreases p.len(),
{
    let (h, t) = split_once_dot(p);
    match d {
        Doc::Object(f) => match assoc_get(f, h) {
            Some(v) => if t.len() == 0 {
                Doc::Object(assoc_insert(f, h, x))
            } else {
                proof {
                    lemma_split_once_shorter(p);
                }
                Doc::Object(assoc_insert(f, h, walk_put(v, t, x)))
            },
            None => d,
        },
        _ => d,
    }
}

/// What `get_path_mut` reaches: the value itself for the empty path.
pub open spec fn get_mut_at(d: Doc, p: Seq<char>) -> Option<Doc> {
    if p.len() == 0 {
        Some(d)
    } else {
        walk_get(d, p)
    }
}

/// The document after a change through `get_path_mut`: `x` in place of the
/// value it reached.
pub open spec fn put_mut_at(d: Doc, p: Seq<char>, x: Doc) -> Doc {
    if p.len() == 0 {
        x
    } else {
        walk_put(d, p, x)
    }
}

proof fn lemma_split_once_parts(h: Seq<char>, t: Seq<char>)
    requires
        !h.contains('.'),
    ensures
        split_once_dot(h + seq!['.'] + t) == (h, t),
        split_once_dot(h) == (h, Seq::<char>::empty()),
    decreases h.len(),
{
    if h.len() > 0 {
        assert(!h.drop_first().contains('.')) by {
            if h.drop_first().contains('.') {
                let k = choose|k: int| 0 <= k < h.drop_first().len() && h.drop_first()[k] == '.';
                assert(h[k + 1] == '.');
            }
        }
        lemma_split_once_parts(h.drop_first(), t);
        assert((h + seq!['.'] + t).drop_first() =~= h.drop_first() + seq!['.'] + t);
        assert(h[0] != '.');
        assert(seq![h[0]] + h.drop_first() =~= h);
    } else {
        assert(h + seq!['.'] + t =~= seq!['.'] + t);
        assert((seq!['.'] + t).drop_first() =~= t);
    }
}

/// Calls `str::split_once` with '.': the text before the first '.' and the
/// text after it, or `None` when there is no '.'.
#[verifier::external_body]
fn split_once_str<'a>(s: &'a str) -> (r: Option<(&'a str, &'a str)>)
    ensures
        match r {
            Some((h, t)) => s@ == h@ + seq!['.'] + t@ && !h@.contains('.'),
            None => !s@.contains('.'),
        },
{
    s.split_once('.')
}

impl Value {
    /// The value at a dotted path, to change in place; the empty path gives
    /// the value itself. The walk takes one key at a time, the text before
    /// the first '.', and stops where no text is left after it.
    pub fn get_path_mut(&mut self, path: &str) -> (r: Option<&mut Value>)
        requires
            old(self).wf(),
        ensures
            match r {
                Some(m) => get_mut_at(old(self).model(), path@) == Some((*m).model())
                    && final(self).model() == put_mut_at(
                    old(self).model(),
                    path@,
                    (*final(m)).model(),
                ),
                None => get_mut_at(old(self).model(), path@) is None && final(self).model() == old(
                    self,
                ).model(),
            },
    {
        if path.is_empty() {
            return Some(self);
        }
        self.walk_mut(path)
    }

    fn walk_mut(&mut self, path: &str) -> (r: Option<&mut Value>)
        requires
            old(self).wf(),
        ensures
            match r {
                Some(m) => walk_get(old(self).model(), path@) == Some((*m).model())
                    && final(self).model() == walk_put(
                    old(self).model(),
                    path@,
                    (*final(m)).model(),
                ),
                None => walk_get(old(self).model(), path@) is None && final(self).model() == old(
                    self,
                ).model(),
            },
        decreases path@.len(),
    {
        let (head, tail) = match split_once_str(path) {
            Some(parts) => {
                proof {
                    lemma_split_once_parts(parts.0@, parts.1@);
                }
                parts
            },
            None => {
                proof {
                    reveal_strlit("");
                    lemma_split_once_parts(path@, Seq::empty());
                }
                (path, "")
            },
        };
        proof {
            lemma_split_once_shorter(path@);
        }
        match self {
            Value::Object(map) => {
                proof {
                    lemma_object_model(*map);
                    lemma_object_model(*final(map));
                }
                let ghost f = map.model();
                match map.get_mut(head) {
                    None => None,
                    Some(value) => {
                        proof {
                            lemma_wf_get(f, head@);
                        }
                        if tail.is_empty() {
                            Some(value)
                        } else {
                            proof {
                                assert(walk_get(old(self).model(), path@) == walk_get(
                                    (*value).model(),
                                    tail@,
                                ));
                                lemma_insert_same(f, head@);
                            }
                            value.walk_mut(tail)
                        }
                    },
                }
            },
            _ => None,
        }
    }
}

proof fn lemma_walk_put_get(d: Doc, p: Seq<char>, x: Doc)
    requires
        walk_get(d, p) is Some,
    ensures
        walk_get(walk_put(d, p, x), p) == Some(x),
    decreases p.len(),
{
    let (h, t) = split_once_dot(p);
    lemma_split_once_shorter(p);
    if let Doc::Object(f) = d {
        let v = assoc_get(f, h)->0;
        let y = if t.len() == 0 {
            x
        } else {
            walk_put(v, t, x)
        };
        lemma_insert_get(f, h, y, h);
        if t.len() > 0 {
            lemma_walk_put_get(v, t, x);
        }
    }
}

/// What is written through `get_path_mut` is what the same path then
/// reaches: where the path reaches a value, putting `x` there and walking the
/// path again gives `x`.
pub proof fn law_get_mut_after_put(d: Doc, p: Seq<char>, x: Doc)
    requires
        get_mut_at(d, p) is Some,
    ensures
        get_mut_at(put_mut_at(d, p, x), p) == Some(x),
{
    if p.len() > 0 {
        lemma_walk_put_get(d, p, x);
    }
}

proof fn lemma_split_from_once(p: Seq<char>, cur: Seq<char>)
    ensures
        !p.contains('.') ==> split_from(p, cur) == seq![cur + p],
        p.contains('.') ==> split_from(p, cur) == seq![cur + split_once_dot(p).0] + split_from(
            split_once_dot(p).1,
            Seq::empty(),
        ),
    decreases p.len(),
{
    if p.len() == 0 {
        assert(cur + p =~= cur);
    } else if p[0] == '.' {
        assert(p.contains('.')) by {
            assert(p[0] == '.');
        }
        assert(cur + Seq::<char>::empty() =~= cur);
    } else {
        let q = p.drop_first();
        lemma_split_from_once(q, cur.push(p[0]));
        assert(p.contains('.') <==> q.contains('.')) by {
            if p.contains('.') {
                let k = choose|k: int| 0 <= k < p.len() && p[k] == '.';
                assert(q[k - 1] == '.');
            }
            if q.contains('.') {
                let k = choose|k: int| 0 <= k < q.len() && q[k] == '.';
                assert(p[k + 1] == '.');
            }
        }
        assert(cur.push(p[0]) + q =~= cur + p);
        assert(cur.push(p[0]) + split_once_dot(q).0 =~= cur + (seq![p[0]] + split_once_dot(q).0));
    }
}

proof fn lemma_walk_is_get(d: Doc, p: Seq<char>)
    requires
        valid_path(p),
    ensures
        walk_get(d, p) == get_segs(d, split_dots(p)),
    decreases p.len(),
{
    let (h, t) = split_once_dot(p);
    lemma_split_from_once(p, Seq::empty());
    lemma_split_once_shorter(p);
    assert(Seq::<char>::empty() + h =~= h);
    assert(Seq::<char>::empty() + p =~= p);
    if p.contains('.') {
        let segs = split_dots(p);
        assert(segs == seq![h] + split_dots(t));
        assert(segs[0] == h);
        assert(segs.drop_first() =~= split_dots(t));
        if t.len() == 0 {
            assert(split_dots(t) == seq![Seq::<char>::empty()]);
            assert(segs[1] == Seq::<char>::empty());
            assert(false);
        } else {
            assert(valid_path(t)) by {
                assert forall|i: int| 0 <= i < split_dots(t).len() implies (#[trigger] split_dots(
                    t,
                )[i]).len() > 0 by {
                    assert(split_dots(t)[i] == segs[i + 1]);
                }
            }
            if let Doc::Object(f) = d {
                if let Some(v) = assoc_get(f, h) {
                    lemma_walk_is_get(v, t);
                }
            }
        }
    } else {
        let segs = split_dots(p);
        assert(segs == seq![p]);
        assert(h == p && t.len() == 0) by {
            lemma_split_once_parts(p, Seq::empty());
        }
        assert(segs.drop_first() =~= Seq::<Seq<char>>::empty());
        if let Doc::Object(f) = d {
            if let Some(v) = assoc_get(f, h) {
                assert(get_segs(v, segs.drop_first()) == Some(v));
            }
        }
    }
}

/// On a valid path, `get_path_mut` reaches the value that `get_path` reads.
pub proof fn law_get_mut_agrees_with_get(d: Doc, p: Seq<char>)
    requires
        valid_path(p),
    ensures
        get_mut_at(d, p) == get_at(d, p),
{
    lemma_walk_is_get(d, p);
}

proof fn lemma_unset_segs_keeps_absent(d: Doc, s1: Seq<Seq<char>>, s2: Seq<Seq<char>>)
    requires
        d.wf(),
        s2.len() >= 1,
        get_segs(d, s1) is None,
        unset_segs(d, s2) is Some,
    ensures
        get_segs(unset_segs(d, s2)->0, s1) is None,
    decreases s2.len(),
{
    if let Doc::Object(f) = d {
        let k1 = s1[0];
        let k2 = s2[0];
        if s2.len() <= 1 {
            lemma_remove_get(f, k2, k1);
        } else {
            match assoc_get(f, k2) {
                Some(Doc::Object(cf)) => {
                    let nc = unset_segs(Doc::Object(cf), s2.drop_first())->0;
                    lemma_insert_get(f, k2, nc, k1);
                    if k1 == k2 {
                        lemma_wf_get(f, k2);
                        lemma_unset_segs_keeps_absent(Doc::Object(cf), s1.drop_first(), s2.drop_first());
                    }
                },
                _ => {},
            }
        }
    }
}

/// Removing one path never brings back another: where nothing is found at
/// `p`, nothing is found there after removing `q`.
pub proof fn law_unset_keeps_absent(d: Doc, p: Seq<char>, q: Seq<char>)
    requires
        d.wf(),
        valid_path(p),
        valid_path(q),
        get_at(d, p) is None,
        unset_segs(d, split_dots(q)) is Some,
    ensures
        get_at(unset_segs(d, split_dots(q))->0, p) is None,
{
    lemma_split_nonempty(q, Seq::empty());
    lemma_unset_segs_keeps_absent(d, split_dots(p), split_dots(q));
}

proof fn lemma_unset_segs_keeps_other(d: Doc, s1: Seq<Seq<char>>, s2: Seq<Seq<char>>, i: int)
    requires
        d.wf(),
        s2.len() >= 1,
        0 <= i < s1.len(),
        i < s2.len(),
        s1[i] != s2[i],
        unset_segs(d, s2) is Some,
    ensures
        get_segs(unset_segs(d, s2)->0, s1) == get_segs(d, s1),
    decreases s2.len(),
{
    if let Doc::Object(f) = d {
        let k1 = s1[0];
        let k2 = s2[0];
        if s2.len() <= 1 {
            lemma_remove_get(f, k2, k1);
        } else {
            match assoc_get(f, k2) {
                Some(Doc::Object(cf)) => {
                    let nc = unset_segs(Doc::Object(cf), s2.drop_first())->0;
                    lemma_insert_get(f, k2, nc, k1);
                    if k1 == k2 {
                        lemma_wf_get(f, k2);
                        lemma_unset_segs_keeps_other(
                            Doc::Object(cf),
                            s1.drop_first(),
                            s2.drop_first(),
                            i - 1,
                        );
                    }
                },
                _ => {},
            }
        }
    }
}

/// Removing one path leaves alone every path that branches off from it:
/// where the keys of `p` and `q` differ at some position, the value at `p`
/// is the same before and after removing `q`.
pub proof fn law_unset_keeps_other_paths(d: Doc, p: Seq<char>, q: Seq<char>, i: int)
    requires
        d.wf(),
        valid_path(p),
        valid_path(q),
        0 <= i < split_dots(p).len(),
        i < split_dots(q).len(),
        split_dots(p)[i] != split_dots(q)[i],
        unset_segs(d, split_dots(q)) is Some,
    ensures
        get_at(unset_segs(d, split_dots(q))->0, p) == get_at(d, p),
{
    lemma_unset_segs_keeps_other(d, split_dots(p), split_dots(q), i);
}

} // verus!
