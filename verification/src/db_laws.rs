//! What the store promises across operations: a read gives back what the last
//! write stored, and writes to one document leave the others as they were.
use vstd::prelude::*;

use crate::bytes::key_lt;
use crate::codec::{decode, encode, DecodeError};
use crate::codec_laws::law_decode_after_encode;
use crate::db::{
    apply_sets, apply_unsets, changes_id, create_result, delete_result, doc_id, find_result, latest, live_docs,
    matching,
    live_fold, lookup, present, stored_doc, update_result, updated_doc,
};
use crate::paths::{
    get_at, id_key, law_get_after_unset, law_unset_keeps_absent, set_segs, split_dots, unset_segs,
    valid_path,
};
use crate::error::ErrorKind;
use crate::record::{
    lemma_read_len, law_read_after_write, read_all, read_record, record_bytes, record_writable,
    RecordView,
};
use crate::types::{
    assoc_get, assoc_insert, keys_sorted, lemma_get_some_index, lemma_insert_get, lemma_insert_keys,
    lemma_insert_entries, lemma_insert_sorted, lemma_sorted_drop_first, lemma_sorted_get, doc_eq, Doc,
};

verus! {

/// Bytes after a complete record do not change how it reads.
pub proof fn lemma_read_prefix(s: Seq<u8>, t: Seq<u8>)
    requires
        read_record(s) is Ok,
        read_record(s)->Ok_0 is Some,
    ensures
        read_record(s + t) == read_record(s),
{
    lemma_read_len(s);
    let st = s + t;
    assert(st[0] == s[0]);
    assert(st.subrange(1, 5) =~= s.subrange(1, 5));
    assert(st.subrange(5, 9) =~= s.subrange(5, 9));
    let id_end = 9 + vstd::bytes::spec_u32_from_le_bytes(s.subrange(1, 5));
    let doc_len = vstd::bytes::spec_u32_from_le_bytes(s.subrange(5, 9));
    assert(st.subrange(9, id_end) =~= s.subrange(9, id_end));
    if s[0] == crate::record::RECORD_PUT {
        assert(st.subrange(id_end, id_end + doc_len) =~= s.subrange(id_end, id_end + doc_len));
    }
}

/// Reading a log that continues a log which reads without error: the state
/// after the whole log is the state after the continuation, started from the
/// state after the first part.
pub proof fn lemma_latest_append(log: Seq<u8>, t: Seq<u8>, id: Seq<char>, acc: Option<Doc>)
    requires
        latest(log, id, acc) is Ok,
    ensures
        latest(log + t, id, acc) == latest(t, id, latest(log, id, acc)->Ok_0),
    decreases log.len(),
{
    lemma_read_len(log);
    match read_record(log) {
        Ok(None) => {
            assert(log + t =~= t);
        },
        Ok(Some((r, n))) => {
            lemma_read_prefix(log, t);
            let rest = log.subrange(n as int, log.len() as int);
            assert((log + t).subrange(n as int, (log + t).len() as int) =~= rest + t);
            match r {
                RecordView::Put { id: rid, doc } => {
                    if rid == id {
                        let d = stored_doc(rid, doc)->Ok_0;
                        lemma_latest_append(rest, t, id, Some(d));
                    } else {
                        lemma_latest_append(rest, t, id, acc);
                    }
                },
                RecordView::Delete { id: rid } => {
                    if rid == id {
                        lemma_latest_append(rest, t, id, None);
                    } else {
                        lemma_latest_append(rest, t, id, acc);
                    }
                },
            }
        },
        Err(_) => {},
    }
}

/// A log that holds one record whose id is not `id` leaves the state of `id`
/// as it was.
proof fn lemma_latest_other(r: RecordView, id: Seq<char>, acc: Option<Doc>)
    requires
        crate::record::record_writable(r),
        r.id() != id,
    ensures
        latest(record_bytes(r), id, acc) == Ok::<Option<Doc>, ErrorKind>(acc),
{
    law_read_after_write(r, Seq::empty());
    let b = record_bytes(r);
    assert(b + Seq::<u8>::empty() =~= b);
    lemma_read_len(b);
    assert(read_record(b) == Ok::<Option<(RecordView, nat)>, DecodeError>(Some((r, b.len()))));
    assert(b.subrange(b.len() as int, b.len() as int) =~= Seq::<u8>::empty());
    assert(latest(Seq::<u8>::empty(), id, acc) == Ok::<Option<Doc>, ErrorKind>(acc));
}

/// After a successful create, reading the new document's id gives the
/// document back, and every other document reads as it did before.
pub proof fn law_get_after_create(log: Seq<u8>, d: Doc, other: Seq<char>)
    requires
        d.wf(),
        create_result(log, d) is Ok,
    ensures
        lookup(create_result(log, d)->Ok_0, doc_id(d)->Ok_0) == Ok::<Option<Doc>, ErrorKind>(
            Some(d),
        ),
        other != doc_id(d)->Ok_0 && lookup(log, other) is Ok ==> lookup(
            create_result(log, d)->Ok_0,
            other,
        ) == lookup(log, other),
{
    let id = doc_id(d)->Ok_0;
    let r = RecordView::Put { id, doc: encode(d) };
    let b = record_bytes(r);
    lemma_latest_append(log, b, id, None);
    law_read_after_write(r, Seq::empty());
    assert(b + Seq::<u8>::empty() =~= b);
    lemma_read_len(b);
    assert(read_record(b) == Ok::<Option<(RecordView, nat)>, DecodeError>(Some((r, b.len()))));
    assert(b.subrange(b.len() as int, b.len() as int) =~= Seq::<u8>::empty());
    assert(latest(Seq::<u8>::empty(), id, Some(d)) == Ok::<Option<Doc>, ErrorKind>(Some(d)));
    law_decode_after_encode(d, Seq::empty());
    assert(encode(d) + Seq::<u8>::empty() =~= encode(d));
    assert(stored_doc(id, encode(d)) == Ok::<Doc, ErrorKind>(d));
    if other != id && lookup(log, other) is Ok {
        lemma_latest_append(log, b, other, None);
        lemma_latest_other(r, other, lookup(log, other)->Ok_0);
    }
}

/// After a delete that removed a document, reading its id gives nothing, and
/// every other document reads as it did before; a delete that found nothing
/// leaves the log as it was.
pub proof fn law_get_after_delete(log: Seq<u8>, id: Seq<char>, other: Seq<char>)
    requires
        delete_result(log, id) is Ok,
    ensures
        lookup(delete_result(log, id)->Ok_0.0, id) == Ok::<Option<Doc>, ErrorKind>(None),
        !delete_result(log, id)->Ok_0.1 ==> delete_result(log, id)->Ok_0.0 == log,
        other != id && lookup(log, other) is Ok ==> lookup(delete_result(log, id)->Ok_0.0, other)
            == lookup(log, other),
{
    if delete_result(log, id)->Ok_0.1 {
        let r = RecordView::Delete { id };
        let b = record_bytes(r);
        lemma_latest_append(log, b, id, None);
        law_read_after_write(r, Seq::empty());
        assert(b + Seq::<u8>::empty() =~= b);
        lemma_read_len(b);
        assert(read_record(b) == Ok::<Option<(RecordView, nat)>, DecodeError>(Some((r, b.len()))));
        assert(b.subrange(b.len() as int, b.len() as int) =~= Seq::<u8>::empty());
        assert(latest(Seq::<u8>::empty(), id, None) == Ok::<Option<Doc>, ErrorKind>(None));
        if other != id && lookup(log, other) is Ok {
            lemma_latest_append(log, b, other, None);
            lemma_latest_other(r, other, lookup(log, other)->Ok_0);
        }
    }
}

/// The document that a read finds is well-formed and has the id it was read by.
pub proof fn lemma_latest_found(log: Seq<u8>, id: Seq<char>, acc: Option<Doc>)
    requires
        acc matches Some(a) ==> a.wf() && doc_id(a) == Ok::<Seq<char>, ErrorKind>(id),
    ensures
        latest(log, id, acc) matches Ok(Some(d)) ==> d.wf() && doc_id(d) == Ok::<
            Seq<char>,
            ErrorKind,
        >(id),
    decreases log.len(),
{
    match read_record(log) {
        Ok(Some((r, n))) => {
            if !(n == 0 || n > log.len()) {
                let rest = log.subrange(n as int, log.len() as int);
                match r {
                    RecordView::Put { id: rid, doc } => {
                        if rid == id {
                            crate::codec_laws::lemma_decode_wf(doc);
                            if let Ok(d) = stored_doc(rid, doc) {
                                lemma_latest_found(rest, id, Some(d));
                            }
                        } else {
                            lemma_latest_found(rest, id, acc);
                        }
                    },
                    RecordView::Delete { id: rid } => {
                        if rid == id {
                            lemma_latest_found(rest, id, None);
                        } else {
                            lemma_latest_found(rest, id, acc);
                        }
                    },
                }
            }
        },
        _ => {},
    }
}

proof fn lemma_apply_sets_wf(d: Doc, set: Seq<(Seq<char>, Doc)>)
    requires
        d.wf(),
        Doc::Object(set).wf(),
    ensures
        apply_sets(d, set) matches Ok(r) ==> r.wf(),
    decreases set.len(),
{
    if set.len() > 0 && valid_path(set[0].0) {
        if let Some(d1) = set_segs(d, split_dots(set[0].0), set[0].1) {
            crate::paths::lemma_set_segs_wf(d, split_dots(set[0].0), set[0].1);
            let rest = set.drop_first();
            crate::types::lemma_sorted_drop_first(set);
            assert forall|i: int| 0 <= i < rest.len() implies (#[trigger] rest[i]).1.wf() by {
                assert(rest[i] == set[i + 1]);
            }
            lemma_apply_sets_wf(d1, rest);
        }
    }
}

proof fn lemma_apply_unsets_wf(d: Doc, unset: Seq<Seq<char>>)
    requires
        d.wf(),
    ensures
        apply_unsets(d, unset) matches Ok(r) ==> r.wf(),
    decreases unset.len(),
{
    if unset.len() > 0 && valid_path(unset[0]) {
        if let Some(d1) = unset_segs(d, split_dots(unset[0])) {
            crate::paths::lemma_unset_segs_wf(d, split_dots(unset[0]));
            lemma_apply_unsets_wf(d1, unset.drop_first());
        }
    }
}

/// After a successful update, reading the document gives the updated
/// document, and every other document reads as it did before.
pub proof fn law_get_after_update(
    log: Seq<u8>,
    id: Seq<char>,
    set: Seq<(Seq<char>, Doc)>,
    unset: Seq<Seq<char>>,
    other: Seq<char>,
)
    requires
        Doc::Object(set).wf(),
        update_result(log, id, set, unset) is Ok,
    ensures
        lookup(update_result(log, id, set, unset)->Ok_0, id) == Ok::<Option<Doc>, ErrorKind>(
            Some(updated_doc(log, id, set, unset)->Ok_0),
        ),
        other != id && lookup(log, other) is Ok ==> lookup(
            update_result(log, id, set, unset)->Ok_0,
            other,
        ) == lookup(log, other),
{
    lemma_latest_found(log, id, None);
    let doc = lookup(log, id)->Ok_0->0;
    let d1 = apply_sets(doc, set)->Ok_0;
    lemma_apply_sets_wf(doc, set);
    lemma_apply_unsets_wf(d1, unset);
    let d = updated_doc(log, id, set, unset)->Ok_0;
    let r = RecordView::Put { id: doc_id(d)->Ok_0, doc: encode(d) };
    let b = record_bytes(r);
    lemma_latest_append(log, b, id, None);
    law_read_after_write(r, Seq::empty());
    assert(b + Seq::<u8>::empty() =~= b);
    lemma_read_len(b);
    assert(read_record(b) == Ok::<Option<(RecordView, nat)>, DecodeError>(Some((r, b.len()))));
    assert(b.subrange(b.len() as int, b.len() as int) =~= Seq::<u8>::empty());
    assert(latest(Seq::<u8>::empty(), id, Some(d)) == Ok::<Option<Doc>, ErrorKind>(Some(d)));
    law_decode_after_encode(d, Seq::empty());
    assert(encode(d) + Seq::<u8>::empty() =~= encode(d));
    assert(stored_doc(id, encode(d)) == Ok::<Doc, ErrorKind>(d));
    if other != id && lookup(log, other) is Ok {
        lemma_latest_append(log, b, other, None);
        lemma_latest_other(r, other, lookup(log, other)->Ok_0);
    }
}

/// Creating a document whose id a live document already has is refused: once
/// `d` is created, creating any document with the same id fails with
/// `DuplicateId`.
pub proof fn law_create_duplicate(log: Seq<u8>, d: Doc, again: Doc)
    requires
        d.wf(),
        create_result(log, d) is Ok,
        doc_id(again) == doc_id(d),
    ensures
        create_result(create_result(log, d)->Ok_0, again) == Err::<Seq<u8>, ErrorKind>(
            ErrorKind::DuplicateId(doc_id(d)->Ok_0),
        ),
{
    law_get_after_create(log, d, doc_id(d)->Ok_0);
}

/// The log only grows: a create, a delete or an update that succeeds leaves
/// the old log as a prefix of the new one.
pub proof fn law_log_only_grows(
    log: Seq<u8>,
    d: Doc,
    id: Seq<char>,
    set: Seq<(Seq<char>, Doc)>,
    unset: Seq<Seq<char>>,
)
    ensures
        create_result(log, d) matches Ok(after) ==> log.is_prefix_of(after),
        delete_result(log, id) matches Ok((after, _)) ==> log.is_prefix_of(after),
        update_result(log, id, set, unset) matches Ok(after) ==> log.is_prefix_of(after),
{
}

/// An update keeps the id of the document: one that would store under `_id`
/// anything but the document's own id, or remove `_id`, is refused, and the
/// document that a successful update stores has the id it was selected by.
pub proof fn law_update_keeps_id(
    log: Seq<u8>,
    id: Seq<char>,
    set: Seq<(Seq<char>, Doc)>,
    unset: Seq<Seq<char>>,
)
    ensures
        changes_id(set, id) || unset.contains(id_key()) ==> update_result(log, id, set, unset) is Err,
        update_result(log, id, set, unset) is Ok ==> doc_id(updated_doc(log, id, set, unset)->Ok_0)
            == Ok::<Seq<char>, ErrorKind>(id),
{
    lemma_latest_found(log, id, None);
}

/// The document of an id in a state, `None` where the id is absent or deleted.
pub open spec fn state_doc(s: Seq<(Seq<char>, Option<Doc>)>, id: Seq<char>) -> Option<Doc> {
    match assoc_get(s, id) {
        Some(o) => o,
        None => None,
    }
}

/// Every present document of a state is stored under its own id.
pub open spec fn state_ids_match(s: Seq<(Seq<char>, Option<Doc>)>) -> bool {
    forall|i: int|
        0 <= i < s.len() ==> ((#[trigger] s[i]).1 matches Some(d) ==> doc_id(d) == Ok::<
            Seq<char>,
            ErrorKind,
        >(s[i].0))
}

/// Folding the records of a log into a state agrees, for each id, with
/// reading that id from the same log.
proof fn lemma_fold_latest(log: Seq<u8>, s: Seq<(Seq<char>, Option<Doc>)>, id: Seq<char>)
    requires
        live_fold(log, s) is Ok,
    ensures
        latest(log, id, state_doc(s, id)) == Ok::<Option<Doc>, ErrorKind>(
            state_doc(live_fold(log, s)->Ok_0, id),
        ),
    decreases log.len(),
{
    match read_record(log) {
        Ok(Some((r, n))) => {
            if !(n == 0 || n > log.len()) {
                let rest = log.subrange(n as int, log.len() as int);
                match r {
                    RecordView::Put { id: rid, doc } => {
                        let d = stored_doc(rid, doc)->Ok_0;
                        let s1 = assoc_insert(s, rid, Some(d));
                        lemma_insert_get(s, rid, Some(d), id);
                        lemma_fold_latest(rest, s1, id);
                    },
                    RecordView::Delete { id: rid } => {
                        let s1 = assoc_insert(s, rid, None::<Doc>);
                        lemma_insert_get(s, rid, None::<Doc>, id);
                        lemma_fold_latest(rest, s1, id);
                    },
                }
            }
        },
        _ => {},
    }
}

/// Folding keeps the keys of a state sorted and every present document
/// stored under its own id.
proof fn lemma_fold_state(log: Seq<u8>, s: Seq<(Seq<char>, Option<Doc>)>)
    requires
        live_fold(log, s) is Ok,
        keys_sorted(s),
        state_ids_match(s),
    ensures
        keys_sorted(live_fold(log, s)->Ok_0),
        state_ids_match(live_fold(log, s)->Ok_0),
    decreases log.len(),
{
    match read_record(log) {
        Ok(Some((r, n))) => {
            if !(n == 0 || n > log.len()) {
                let rest = log.subrange(n as int, log.len() as int);
                let (rid, o) = match r {
                    RecordView::Put { id: rid, doc } => (rid, Some(stored_doc(rid, doc)->Ok_0)),
                    RecordView::Delete { id: rid } => (rid, None::<Doc>),
                };
                let s1 = assoc_insert(s, rid, o);
                lemma_insert_sorted(s, rid, o);
                assert forall|j: int| 0 <= j < s1.len() implies ((#[trigger] s1[j]).1 matches Some(
                    d,
                ) ==> doc_id(d) == Ok::<Seq<char>, ErrorKind>(s1[j].0)) by {
                    lemma_insert_entries(s, rid, o, j);
                }
                lemma_fold_state(rest, s1);
            }
        },
        _ => {},
    }
}

/// A document is present in a state exactly when some entry holds it.
proof fn lemma_present_contains(s: Seq<(Seq<char>, Option<Doc>)>, d: Doc)
    ensures
        present(s).contains(d) <==> exists|i: int| 0 <= i < s.len() && (#[trigger] s[i]).1 == Some(d),
    decreases s.len(),
{
    if s.len() > 0 {
        let t = s.drop_first();
        lemma_present_contains(t, d);
        if present(s).contains(d) {
            match s[0].1 {
                Some(x) => {
                    if x != d {
                        let k = choose|k: int| 0 <= k < present(s).len() && present(s)[k] == d;
                        assert(present(t)[k - 1] == d);
                    }
                },
                None => {},
            }
            if s[0].1 != Some(d) {
                let i = choose|i: int| 0 <= i < t.len() && (#[trigger] t[i]).1 == Some(d);
                assert(s[i + 1] == t[i]);
            }
        }
        if exists|i: int| 0 <= i < s.len() && (#[trigger] s[i]).1 == Some(d) {
            let i = choose|i: int| 0 <= i < s.len() && (#[trigger] s[i]).1 == Some(d);
            if i == 0 {
                assert(present(s)[0] == d);
            } else {
                assert(t[i - 1] == s[i]);
                let k = choose|k: int| 0 <= k < present(t).len() && present(t)[k] == d;
                match s[0].1 {
                    Some(x) => {
                        assert(present(s)[k + 1] == d);
                    },
                    None => {},
                }
            }
        }
    }
}

/// Reading by id agrees with the dump. Where the live documents of a log can
/// be read, reading any id succeeds; a document it finds is in the dump,
/// under that id; and each document of the dump is found under its own id.
pub proof fn law_dump_agrees_with_get(log: Seq<u8>, id: Seq<char>, d: Doc)
    requires
        live_docs(log) is Ok,
    ensures
        lookup(log, id) is Ok,
        lookup(log, id) == Ok::<Option<Doc>, ErrorKind>(Some(d)) ==> live_docs(log)->Ok_0.contains(d)
            && doc_id(d) == Ok::<Seq<char>, ErrorKind>(id),
        live_docs(log)->Ok_0.contains(d) && doc_id(d) == Ok::<Seq<char>, ErrorKind>(id) ==> lookup(
            log,
            id,
        ) == Ok::<Option<Doc>, ErrorKind>(Some(d)),
{
    let empty = Seq::<(Seq<char>, Option<Doc>)>::empty();
    lemma_fold_latest(log, empty, id);
    lemma_fold_state(log, empty);
    let s = live_fold(log, empty)->Ok_0;
    lemma_present_contains(s, d);
    if lookup(log, id) == Ok::<Option<Doc>, ErrorKind>(Some(d)) {
        assert(assoc_get(s, id) is Some);
        lemma_get_some_index(s, id);
        let i = choose|i: int| 0 <= i < s.len() && s[i].0 == id && s[i].1 == assoc_get(s, id)->0;
        assert(s[i].1 == Some(d));
    }
    if present(s).contains(d) && doc_id(d) == Ok::<Seq<char>, ErrorKind>(id) {
        let i = choose|i: int| 0 <= i < s.len() && (#[trigger] s[i]).1 == Some(d);
        assert(s[i].0 == id);
        lemma_sorted_get(s, i);
    }
}

/// The present documents of a sorted state come in strictly increasing id
/// order.
proof fn lemma_present_sorted(s: Seq<(Seq<char>, Option<Doc>)>)
    requires
        keys_sorted(s),
        state_ids_match(s),
    ensures
        forall|i: int| 0 <= i < present(s).len() ==> (#[trigger] doc_id(present(s)[i])) is Ok,
        forall|i: int, j: int|
            0 <= i < j < present(s).len() ==> key_lt(
                #[trigger] doc_id(present(s)[i])->Ok_0,
                #[trigger] doc_id(present(s)[j])->Ok_0,
            ),
    decreases s.len(),
{
    if s.len() > 0 {
        let t = s.drop_first();
        lemma_sorted_drop_first(s);
        assert(state_ids_match(t)) by {
            assert forall|i: int| 0 <= i < t.len() implies ((#[trigger] t[i]).1 matches Some(d)
                ==> doc_id(d) == Ok::<Seq<char>, ErrorKind>(t[i].0)) by {
                assert(t[i] == s[i + 1]);
            }
        }
        lemma_present_sorted(t);
        assert forall|j: int| 0 <= j < present(t).len() implies key_lt(
            s[0].0,
            #[trigger] doc_id(present(t)[j])->Ok_0,
        ) by {
            let d = present(t)[j];
            lemma_present_contains(t, d);
            assert(present(t).contains(d));
            let k = choose|k: int| 0 <= k < t.len() && (#[trigger] t[k]).1 == Some(d);
            assert(doc_id(d) == Ok::<Seq<char>, ErrorKind>(t[k].0));
        }
        match s[0].1 {
            Some(d0) => {
                assert(present(s) == seq![d0] + present(t));
                assert(doc_id(d0) == Ok::<Seq<char>, ErrorKind>(s[0].0));
                assert forall|i: int, j: int| 0 <= i < j < present(s).len() implies key_lt(
                    #[trigger] doc_id(present(s)[i])->Ok_0,
                    #[trigger] doc_id(present(s)[j])->Ok_0,
                ) by {
                    assert(present(s)[j] == present(t)[j - 1]);
                    if i > 0 {
                        assert(present(s)[i] == present(t)[i - 1]);
                    }
                }
                assert forall|i: int| 0 <= i < present(s).len() implies (#[trigger] doc_id(
                    present(s)[i],
                )) is Ok by {
                    if i > 0 {
                        assert(present(s)[i] == present(t)[i - 1]);
                    }
                }
            },
            None => {},
        }
    }
}

/// The dump comes in strictly increasing id order, each document with an id.
pub proof fn law_dump_in_id_order(log: Seq<u8>)
    requires
        live_docs(log) is Ok,
    ensures
        forall|i: int|
            0 <= i < live_docs(log)->Ok_0.len() ==> (#[trigger] doc_id(live_docs(log)->Ok_0[i])) is Ok,
        forall|i: int, j: int|
            0 <= i < j < live_docs(log)->Ok_0.len() ==> key_lt(
                #[trigger] doc_id(live_docs(log)->Ok_0[i])->Ok_0,
                #[trigger] doc_id(live_docs(log)->Ok_0[j])->Ok_0,
            ),
{
    let empty = Seq::<(Seq<char>, Option<Doc>)>::empty();
    lemma_fold_state(log, empty);
    lemma_present_sorted(live_fold(log, empty)->Ok_0);
}

/// Every document that reading finds is a well-formed object stored under
/// its own `_id`.
pub proof fn law_found_document_has_own_id(log: Seq<u8>, id: Seq<char>)
    ensures
        lookup(log, id) matches Ok(Some(d)) ==> d is Object && d.wf() && doc_id(d) == Ok::<
            Seq<char>,
            ErrorKind,
        >(id),
{
    lemma_latest_found(log, id, None);
}

/// Whether every record of a log can be read, and every put record holds,
/// decodable, a document stored under its own id.
pub open spec fn log_sound(log: Seq<u8>) -> bool {
    read_all(log) matches Ok(rs) && forall|i: int|
        0 <= i < rs.len() ==> ((#[trigger] rs[i]) matches RecordView::Put { id, doc } ==> stored_doc(
            id,
            doc,
        ) is Ok)
}

/// Appending a written record to a log that reads to its end adds that
/// record to what it reads.
proof fn lemma_read_all_append(log: Seq<u8>, r: RecordView)
    requires
        read_all(log) is Ok,
        record_writable(r),
    ensures
        read_all(log + record_bytes(r)) == Ok::<Seq<RecordView>, DecodeError>(
            read_all(log)->Ok_0.push(r),
        ),
    decreases log.len(),
{
    let b = record_bytes(r);
    law_read_after_write(r, Seq::empty());
    assert(b + Seq::<u8>::empty() =~= b);
    lemma_read_len(b);
    if log.len() == 0 {
        assert(log + b =~= b);
        assert(b.subrange(b.len() as int, b.len() as int) =~= Seq::<u8>::empty());
        assert(read_all(Seq::<u8>::empty()) == Ok::<Seq<RecordView>, DecodeError>(Seq::empty()));
        assert(seq![r] + Seq::<RecordView>::empty() =~= Seq::<RecordView>::empty().push(r));
    } else {
        lemma_read_len(log);
        let (r0, n) = read_record(log)->Ok_0->0;
        lemma_read_prefix(log, b);
        let rest = log.subrange(n as int, log.len() as int);
        assert((log + b).subrange(n as int, (log + b).len() as int) =~= rest + b);
        lemma_read_all_append(rest, r);
        assert(seq![r0] + read_all(rest)->Ok_0.push(r) =~= (seq![r0] + read_all(rest)->Ok_0).push(
            r,
        ));
    }
}

/// A document that `create` stores decodes back from its record.
proof fn lemma_stored_after_encode(d: Doc)
    requires
        d.wf(),
        crate::codec::encodable(d),
        doc_id(d) is Ok,
    ensures
        stored_doc(doc_id(d)->Ok_0, encode(d)) == Ok::<Doc, ErrorKind>(d),
{
    law_decode_after_encode(d, Seq::empty());
    assert(encode(d) + Seq::<u8>::empty() =~= encode(d));
}

proof fn lemma_sound_append(log: Seq<u8>, r: RecordView)
    requires
        log_sound(log),
        record_writable(r),
        r matches RecordView::Put { id, doc } ==> stored_doc(id, doc) is Ok,
    ensures
        log_sound(log + record_bytes(r)),
{
    lemma_read_all_append(log, r);
    let rs = read_all(log)->Ok_0;
    let rs2 = rs.push(r);
    assert forall|i: int| 0 <= i < rs2.len() implies ((#[trigger] rs2[i]) matches RecordView::Put {
        id,
        doc,
    } ==> stored_doc(id, doc) is Ok) by {
        if i < rs.len() {
            assert(rs2[i] == rs[i]);
        }
    }
}

/// The operations keep a log sound: starting from the empty log, which is
/// sound, every create, delete and update that succeeds leaves a log whose
/// records all read, each put record holding a document under its own id.
/// (A failed operation leaves the log as it was.)
pub proof fn law_operations_keep_log_sound(
    log: Seq<u8>,
    d: Doc,
    id: Seq<char>,
    set: Seq<(Seq<char>, Doc)>,
    unset: Seq<Seq<char>>,
)
    requires
        log_sound(log),
        d.wf(),
        Doc::Object(set).wf(),
    ensures
        log_sound(Seq::<u8>::empty()),
        create_result(log, d) matches Ok(after) ==> log_sound(after),
        delete_result(log, id) matches Ok((after, _)) ==> log_sound(after),
        update_result(log, id, set, unset) matches Ok(after) ==> log_sound(after),
{
    assert(read_all(Seq::<u8>::empty()) == Ok::<Seq<RecordView>, DecodeError>(Seq::empty()));
    if create_result(log, d) is Ok {
        lemma_stored_after_encode(d);
        lemma_sound_append(log, RecordView::Put { id: doc_id(d)->Ok_0, doc: encode(d) });
    }
    if delete_result(log, id) matches Ok((_, true)) {
        lemma_sound_append(log, RecordView::Delete { id });
    }
    if update_result(log, id, set, unset) is Ok {
        lemma_latest_found(log, id, None);
        let doc = lookup(log, id)->Ok_0->0;
        let d1 = apply_sets(doc, set)->Ok_0;
        lemma_apply_sets_wf(doc, set);
        lemma_apply_unsets_wf(d1, unset);
        let d2 = updated_doc(log, id, set, unset)->Ok_0;
        lemma_stored_after_encode(d2);
        lemma_sound_append(log, RecordView::Put { id: doc_id(d2)->Ok_0, doc: encode(d2) });
    }
}

proof fn lemma_unsets_keep_absent(d: Doc, unset: Seq<Seq<char>>, p: Seq<char>)
    requires
        d.wf(),
        valid_path(p),
        get_at(d, p) is None,
        apply_unsets(d, unset) is Ok,
    ensures
        get_at(apply_unsets(d, unset)->Ok_0, p) is None,
    decreases unset.len(),
{
    if unset.len() > 0 {
        let d1 = unset_segs(d, split_dots(unset[0]))->0;
        law_unset_keeps_absent(d, p, unset[0]);
        crate::paths::lemma_unset_segs_wf(d, split_dots(unset[0]));
        lemma_unsets_keep_absent(d1, unset.drop_first(), p);
    }
}

proof fn lemma_unsets_remove_all(d: Doc, unset: Seq<Seq<char>>)
    requires
        d.wf(),
        apply_unsets(d, unset) is Ok,
    ensures
        forall|k: int|
            0 <= k < unset.len() ==> get_at(apply_unsets(d, unset)->Ok_0, #[trigger] unset[k])
                is None,
    decreases unset.len(),
{
    if unset.len() > 0 {
        let d1 = unset_segs(d, split_dots(unset[0]))->0;
        let rest = unset.drop_first();
        law_get_after_unset(d, unset[0]);
        crate::paths::lemma_unset_segs_wf(d, split_dots(unset[0]));
        lemma_unsets_keep_absent(d1, rest, unset[0]);
        lemma_unsets_remove_all(d1, rest);
        assert forall|k: int| 0 <= k < unset.len() implies get_at(
            apply_unsets(d, unset)->Ok_0,
            #[trigger] unset[k],
        ) is None by {
            if k > 0 {
                assert(unset[k] == rest[k - 1]);
            }
        }
    }
}

/// An update removes every path it unsets: after a successful update,
/// reading the document finds nothing at any path of its unset list.
pub proof fn law_update_removes_unset_paths(
    log: Seq<u8>,
    id: Seq<char>,
    set: Seq<(Seq<char>, Doc)>,
    unset: Seq<Seq<char>>,
    k: int,
)
    requires
        Doc::Object(set).wf(),
        update_result(log, id, set, unset) is Ok,
        0 <= k < unset.len(),
    ensures
        lookup(update_result(log, id, set, unset)->Ok_0, id) matches Ok(Some(d)) && get_at(
            d,
            unset[k],
        ) is None,
{
    law_get_after_update(log, id, set, unset, id);
    lemma_latest_found(log, id, None);
    let doc = lookup(log, id)->Ok_0->0;
    let d1 = apply_sets(doc, set)->Ok_0;
    lemma_apply_sets_wf(doc, set);
    lemma_unsets_remove_all(d1, unset);
}

/// A document is among the matches exactly when it is among the documents
/// and its value at the path equals the needle.
proof fn lemma_matching_contains(docs: Seq<Doc>, path: Seq<char>, needle: Doc, d: Doc)
    ensures
        matching(docs, path, needle).contains(d) <==> (docs.contains(d) && get_at(d, path) is Some && doc_eq(
            get_at(d, path)->Some_0,
            needle,
        )),
    decreases docs.len(),
{
    if docs.len() > 0 {
        let rest = docs.drop_first();
        lemma_matching_contains(rest, path, needle, d);
        assert(docs.contains(d) <==> (docs[0] == d || rest.contains(d))) by {
            if docs.contains(d) {
                let j = choose|j: int| 0 <= j < docs.len() && docs[j] == d;
                if j > 0 {
                    assert(rest[j - 1] == d);
                }
            }
            if rest.contains(d) {
                let j = choose|j: int| 0 <= j < rest.len() && rest[j] == d;
                assert(docs[j + 1] == d);
            }
        }
        let m = matching(rest, path, needle);
        if get_at(docs[0], path) matches Some(x) && doc_eq(x, needle) {
            let out = seq![docs[0]] + m;
            assert(out[0] == docs[0]);
            assert(out.contains(d) <==> (docs[0] == d || m.contains(d))) by {
                if out.contains(d) {
                    let j = choose|j: int| 0 <= j < out.len() && out[j] == d;
                    if j > 0 {
                        assert(m[j - 1] == d);
                    }
                }
                if m.contains(d) {
                    let j = choose|j: int| 0 <= j < m.len() && m[j] == d;
                    assert(out[j + 1] == d);
                }
            }
        }
    }
}

/// The matches are the documents, kept in their order, whose value at the
/// path equals the needle.
proof fn lemma_matching_filter(docs: Seq<Doc>, path: Seq<char>, needle: Doc)
    ensures
        matching(docs, path, needle) == docs.filter(
            |d: Doc| get_at(d, path) is Some && doc_eq(get_at(d, path)->Some_0, needle),
        ),
    decreases docs.len(),
{
    let pred = |d: Doc| get_at(d, path) is Some && doc_eq(get_at(d, path)->Some_0, needle);
    if docs.len() == 0 {
        reveal_with_fuel(Seq::filter, 1);
        assert(docs.filter(pred) =~= Seq::<Doc>::empty());
    } else {
        let rest = docs.drop_first();
        lemma_matching_filter(rest, path, needle);
        assert(docs =~= seq![docs[0]] + rest);
        Seq::filter_distributes_over_add(seq![docs[0]], rest, pred);
        reveal_with_fuel(Seq::filter, 2);
        assert(seq![docs[0]].drop_last() =~= Seq::<Doc>::empty());
        if pred(docs[0]) {
            assert(seq![docs[0]].filter(pred) =~= seq![docs[0]]);
        } else {
            assert(seq![docs[0]].filter(pred) =~= Seq::<Doc>::empty());
            assert(Seq::<Doc>::empty() + rest.filter(pred) =~= rest.filter(pred));
        }
    }
}

/// A search finds every live document whose value at the path equals the
/// needle, and nothing else; it gives them in the order of the live
/// documents, each as often as it occurs there.
pub proof fn law_find_is_all_matches(log: Seq<u8>, path: Seq<char>, needle: Doc, d: Doc)
    requires
        find_result(log, path, needle) is Ok,
    ensures
        live_docs(log) is Ok,
        find_result(log, path, needle)->Ok_0.contains(d) <==> (live_docs(log)->Ok_0.contains(d)
            && get_at(d, path) is Some && doc_eq(get_at(d, path)->Some_0, needle)),
        find_result(log, path, needle)->Ok_0 == live_docs(log)->Ok_0.filter(
            |x: Doc| get_at(x, path) is Some && doc_eq(get_at(x, path)->Some_0, needle),
        ),
{
    lemma_matching_filter(live_docs(log)->Ok_0, path, needle);
    lemma_matching_contains(live_docs(log)->Ok_0, path, needle, d);
}

} // verus!
