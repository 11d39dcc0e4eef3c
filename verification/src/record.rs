//! Records of the append-only log.
//!
//! A record is a tag byte (`1` put, `2` delete), the length of the id and the
//! length of the document (four little-endian bytes each), the id in UTF-8 and
//! the encoded document. A delete record has a document length of zero.
use vstd::bytes::{
    lemma_auto_spec_u32_to_from_le_bytes, spec_u32_from_le_bytes, spec_u32_to_le_bytes,
    u32_from_le_bytes, u32_to_le_bytes,
};
use vstd::prelude::*;
use vstd::utf8::{decode_utf8, encode_utf8, encode_utf8_decode_utf8, encode_utf8_valid_utf8, valid_utf8};

use crate::codec::{push_all, reports, DecodeError};
use crate::error::{message, DbError};

verus! {

broadcast use {encode_utf8_decode_utf8, encode_utf8_valid_utf8};

pub const RECORD_PUT: u8 = 1;

pub const RECORD_DELETE: u8 = 2;

/// One entry of the log: a document stored under an id, or the deletion of an id.
#[derive(Clone, Debug, PartialEq)]
pub enum Record {
    Put { id: String, doc: Vec<u8> },
    Delete { id: String },
}

/// What a record says.
pub enum RecordView {
    Put { id: Seq<char>, doc: Seq<u8> },
    Delete { id: Seq<char> },
}

impl View for Record {
    type V = RecordView;

    open spec fn view(&self) -> RecordView {
        match self {
            Record::Put { id, doc } => RecordView::Put { id: id@, doc: doc@ },
            Record::Delete { id } => RecordView::Delete { id: id@ },
        }
    }
}

impl RecordView {
    pub open spec fn id(self) -> Seq<char> {
        match self {
            RecordView::Put { id, .. } => id,
            RecordView::Delete { id } => id,
        }
    }
}

/// The bytes of a record.
pub open spec fn record_bytes(r: RecordView) -> Seq<u8> {
    match r {
        RecordView::Put { id, doc } => seq![RECORD_PUT] + spec_u32_to_le_bytes(
            encode_utf8(id).len() as u32,
        ) + spec_u32_to_le_bytes(doc.len() as u32) + encode_utf8(id) + doc,
        RecordView::Delete { id } => seq![RECORD_DELETE] + spec_u32_to_le_bytes(
            encode_utf8(id).len() as u32,
        ) + spec_u32_to_le_bytes(0) + encode_utf8(id),
    }
}

/// Whether the lengths of a record fit their four-byte fields.
pub open spec fn record_writable(r: RecordView) -> bool {
    match r {
        RecordView::Put { id, doc } => encode_utf8(id).len() <= u32::MAX && doc.len() <= u32::MAX,
        RecordView::Delete { id } => encode_utf8(id).len() <= u32::MAX,
    }
}

/// The record at the start of `s` and the number of bytes it takes, or
/// `None` at the end of the log.
pub open spec fn read_record(s: Seq<u8>) -> Result<Option<(RecordView, nat)>, DecodeError> {
    if s.len() == 0 {
        Ok(None)
    } else if s.len() < 5 {
        Err(DecodeError::Format("truncated record id length"@))
    } else if s.len() < 9 {
        Err(DecodeError::Format("truncated record document length"@))
    } else {
        let id_end = 9 + spec_u32_from_le_bytes(s.subrange(1, 5));
        let doc_len = spec_u32_from_le_bytes(s.subrange(5, 9));
        if s.len() < id_end {
            Err(DecodeError::Format("truncated record id bytes"@))
        } else {
            let id_bytes = s.subrange(9, id_end);
            if !valid_utf8(id_bytes) {
                Err(DecodeError::Utf8)
            } else if s[0] == RECORD_PUT {
                if s.len() < id_end + doc_len {
                    Err(DecodeError::Format("truncated record document bytes"@))
                } else {
                    Ok(
                        Some(
                            (
                                RecordView::Put {
                                    id: decode_utf8(id_bytes),
                                    doc: s.subrange(id_end, id_end + doc_len),
                                },
                                (id_end + doc_len) as nat,
                            ),
                        ),
                    )
                }
            } else if s[0] == RECORD_DELETE {
                if doc_len != 0 {
                    Err(DecodeError::Format("delete record must have zero document length"@))
                } else {
                    Ok(Some((RecordView::Delete { id: decode_utf8(id_bytes) }, id_end as nat)))
                }
            } else {
                Err(DecodeError::Format("unknown record tag: "@ + crate::bytes::decimal(s[0] as nat)))
            }
        }
    }
}

/// A record that is read takes at least its nine header bytes and no more
/// bytes than there are.
pub proof fn lemma_read_len(s: Seq<u8>)
    ensures
        read_record(s) matches Ok(Some((_, n))) ==> 9 <= n <= s.len(),
        read_record(s) matches Ok(None) ==> s.len() == 0,
{
}

/// Reading back a written record, followed by any bytes, gives the record and
/// the number of bytes it took.
pub proof fn law_read_after_write(r: RecordView, t: Seq<u8>)
    requires
        record_writable(r),
    ensures
        read_record(record_bytes(r) + t) == Ok::<Option<(RecordView, nat)>, DecodeError>(
            Some((r, record_bytes(r).len())),
        ),
{
    lemma_auto_spec_u32_to_from_le_bytes();
    let s = record_bytes(r) + t;
    match r {
        RecordView::Put { id, doc } => {
            let idb = encode_utf8(id);
            assert(s[0] == RECORD_PUT);
            assert(s.subrange(1, 5) =~= spec_u32_to_le_bytes(idb.len() as u32));
            assert(s.subrange(5, 9) =~= spec_u32_to_le_bytes(doc.len() as u32));
            assert(s.subrange(9, 9 + idb.len() as int) =~= idb);
            assert(s.subrange(9 + idb.len() as int, 9 + idb.len() + doc.len() as int) =~= doc);
        },
        RecordView::Delete { id } => {
            let idb = encode_utf8(id);
            assert(s[0] == RECORD_DELETE);
            assert(s.subrange(1, 5) =~= spec_u32_to_le_bytes(idb.len() as u32));
            assert(s.subrange(5, 9) =~= spec_u32_to_le_bytes(0));
            assert(s.subrange(9, 9 + idb.len() as int) =~= idb);
        },
    }
}

/// The bytes of records written one after another.
pub open spec fn log_bytes(rs: Seq<RecordView>) -> Seq<u8>
    decreases rs.len(),
{
    if rs.len() == 0 {
        Seq::empty()
    } else {
        record_bytes(rs[0]) + log_bytes(rs.drop_first())
    }
}

/// The records of a log, read one after another to its end.
pub open spec fn read_all(log: Seq<u8>) -> Result<Seq<RecordView>, DecodeError>
    decreases log.len(),
{
    match read_record(log) {
        Err(k) => Err(k),
        Ok(None) => Ok(Seq::empty()),
        Ok(Some((r, n))) => if n == 0 || n > log.len() {
            Ok(Seq::empty())
        } else {
            match read_all(log.subrange(n as int, log.len() as int)) {
                Err(k) => Err(k),
                Ok(rest) => Ok(seq![r] + rest),
            }
        },
    }
}

/// Reading a log of written records gives back each record, in turn.
pub proof fn law_read_log(rs: Seq<RecordView>)
    requires
        forall|i: int| 0 <= i < rs.len() ==> record_writable(#[trigger] rs[i]),
    ensures
        read_all(log_bytes(rs)) == Ok::<Seq<RecordView>, DecodeError>(rs),
    decreases rs.len(),
{
    if rs.len() > 0 {
        let rest = rs.drop_first();
        assert forall|i: int| 0 <= i < rest.len() implies record_writable(#[trigger] rest[i]) by {
            assert(rest[i] == rs[i + 1]);
        }
        law_read_log(rest);
        let b = record_bytes(rs[0]);
        let log = log_bytes(rs);
        law_read_after_write(rs[0], log_bytes(rest));
        assert(log == b + log_bytes(rest));
        lemma_read_len(log);
        assert(read_record(log) == Ok::<Option<(RecordView, nat)>, DecodeError>(
            Some((rs[0], b.len())),
        ));
        assert(b.len() > 0);
        assert(log.subrange(b.len() as int, log.len() as int) =~= log_bytes(rest));
        assert(read_all(log) == Ok::<Seq<RecordView>, DecodeError>(seq![rs[0]] + rest));
        assert(seq![rs[0]] + rest =~= rs);
    } else {
        assert(log_bytes(rs) == Seq::<u8>::empty());
        assert(rs =~= Seq::<RecordView>::empty());
    }
}

/// The bytes of records written one after another split between any two of
/// them: the first `k` records, then the others.
pub proof fn lemma_log_bytes_split(rs: Seq<RecordView>, k: int)
    requires
        0 <= k <= rs.len(),
    ensures
        log_bytes(rs) == log_bytes(rs.take(k)) + log_bytes(rs.skip(k)),
    decreases rs.len(),
{
    if k == 0 {
        assert(rs.skip(0) =~= rs);
        assert(log_bytes(rs.take(0)) == Seq::<u8>::empty()) by {
            assert(rs.take(0) =~= Seq::<RecordView>::empty());
        }
        assert(Seq::<u8>::empty() + log_bytes(rs) =~= log_bytes(rs));
    } else {
        let rest = rs.drop_first();
        lemma_log_bytes_split(rest, k - 1);
        assert(rs.take(k).drop_first() =~= rest.take(k - 1));
        assert(rs.take(k)[0] == rs[0]);
        assert(rest.skip(k - 1) =~= rs.skip(k));
        assert(record_bytes(rs[0]) + (log_bytes(rest.take(k - 1)) + log_bytes(rs.skip(k)))
            =~= (record_bytes(rs[0]) + log_bytes(rest.take(k - 1))) + log_bytes(rs.skip(k)));
    }
}

/// Reading a written log one record at a time: after `k` reads the rest of
/// the log is what the records from the `k`-th on wrote; the next read gives
/// the `k`-th record and moves past exactly its bytes, and once every record
/// is read the next read finds the end.
pub proof fn law_read_each(rs: Seq<RecordView>, k: int)
    requires
        forall|i: int| 0 <= i < rs.len() ==> record_writable(#[trigger] rs[i]),
        0 <= k <= rs.len(),
    ensures
        log_bytes(rs) == log_bytes(rs.take(k)) + log_bytes(rs.skip(k)),
        k < rs.len() ==> read_record(log_bytes(rs.skip(k))) == Ok::<
            Option<(RecordView, nat)>,
            DecodeError,
        >(Some((rs[k], record_bytes(rs[k]).len()))),
        k < rs.len() ==> log_bytes(rs.skip(k)).subrange(
            record_bytes(rs[k]).len() as int,
            log_bytes(rs.skip(k)).len() as int,
        ) == log_bytes(rs.skip(k + 1)),
        k == rs.len() ==> read_record(log_bytes(rs.skip(k))) == Ok::<
            Option<(RecordView, nat)>,
            DecodeError,
        >(None),
{
    lemma_log_bytes_split(rs, k);
    let t = rs.skip(k);
    if k < rs.len() {
        assert(t[0] == rs[k]);
        assert(t.drop_first() =~= rs.skip(k + 1));
        law_read_after_write(rs[k], log_bytes(rs.skip(k + 1)));
        assert(log_bytes(t) == record_bytes(rs[k]) + log_bytes(rs.skip(k + 1)));
        assert(log_bytes(t).subrange(record_bytes(rs[k]).len() as int, log_bytes(t).len() as int)
            =~= log_bytes(rs.skip(k + 1)));
    } else {
        assert(t =~= Seq::<RecordView>::empty());
    }
}

impl Record {
    /// Appends the bytes of the record to `writer`. Fails with `InvalidData`,
    /// writing nothing, when a length does not fit its field.
    pub fn write_to(&self, writer: &mut Vec<u8>) -> (r: Result<(), DbError>)
        ensures
            r is Ok <==> record_writable(self@),
            r is Ok ==> final(writer)@ == old(writer)@ + record_bytes(self@),
            r matches Err(e) ==> e is InvalidData && final(writer)@ == old(writer)@,
    {
        match self {
            Record::Put { id, doc } => {
                let id_bytes = id.as_str().as_bytes();
                if id_bytes.len() > 0xffff_ffff {
                    return Err(DbError::InvalidData(message("record id is too large to encode")));
                }
                if doc.len() > 0xffff_ffff {
                    return Err(
                        DbError::InvalidData(message("record document is too large to encode")),
                    );
                }
                writer.push(RECORD_PUT);
                let mut id_len = u32_to_le_bytes(id_bytes.len() as u32);
                writer.append(&mut id_len);
                let mut doc_len = u32_to_le_bytes(doc.len() as u32);
                writer.append(&mut doc_len);
                push_all(writer, id_bytes);
                push_all(writer, doc.as_slice());
                proof {
                    assert(final(writer)@ =~= old(writer)@ + record_bytes(self@));
                }
            },
            Record::Delete { id } => {
                let id_bytes = id.as_str().as_bytes();
                if id_bytes.len() > 0xffff_ffff {
                    return Err(DbError::InvalidData(message("record id is too large to encode")));
                }
                writer.push(RECORD_DELETE);
                let mut id_len = u32_to_le_bytes(id_bytes.len() as u32);
                writer.append(&mut id_len);
                let mut doc_len = u32_to_le_bytes(0);
                writer.append(&mut doc_len);
                push_all(writer, id_bytes);
                proof {
                    assert(final(writer)@ =~= old(writer)@ + record_bytes(self@));
                }
            },
        }
        Ok(())
    }

    /// Reads the next record from `reader` and moves `reader` past it; gives
    /// `None` when `reader` is empty.
    pub fn read_from(reader: &mut &[u8]) -> (r: Result<Option<Record>, DbError>)
        ensures
            match r {
                Ok(None) => read_record(old(reader)@) matches Ok(None) && final(reader)@ == old(
                    reader,
                )@,
                Ok(Some(rec)) => read_record(old(reader)@) matches Ok(Some((v, n))) && v == rec@
                    && final(reader)@ == old(reader)@.subrange(n as int, old(reader)@.len() as int),
                Err(e) => read_record(old(reader)@) matches Err(k) && reports(e, k),
            },
    {
        let ghost s = reader@;
        let tag = match read_exact_or_eof(reader, 1) {
            Ok(Some(bytes)) => bytes[0],
            Ok(None) => {
                return Ok(None);
            },
            Err(e) => {
                return Err(e);
            },
        };
        let id_len_buf = match read_exact_required(reader, 4, "truncated record id length") {
            Ok(b) => b,
            Err(e) => {
                return Err(e);
            },
        };
        let id_len = u32_from_le_bytes(id_len_buf.as_slice()) as usize;
        let doc_len_buf = match read_exact_required(reader, 4, "truncated record document length") {
            Ok(b) => b,
            Err(e) => {
                return Err(e);
            },
        };
        let doc_len = u32_from_le_bytes(doc_len_buf.as_slice()) as usize;
        proof {
            assert(id_len_buf@ =~= s.subrange(1, 5));
            assert(doc_len_buf@ =~= s.subrange(5, 9));
        }
        let id_bytes = match read_exact_required(reader, id_len, "truncated record id bytes") {
            Ok(b) => b,
            Err(e) => {
                return Err(e);
            },
        };
        proof {
            assert(id_bytes@ =~= s.subrange(9, 9 + id_len as int));
        }
        let id = match crate::bytes::utf8_str(id_bytes.as_slice()) {
            Ok(text) => text.to_owned(),
            Err(e) => {
                return Err(DbError::Utf8(e));
            },
        };
        if tag == RECORD_PUT {
            let doc = match read_exact_required(reader, doc_len, "truncated record document bytes") {
                Ok(b) => b,
                Err(e) => {
                    return Err(e);
                },
            };
            proof {
                assert(doc@ =~= s.subrange(9 + id_len as int, 9 + id_len + doc_len as int));
                assert(reader@ =~= s.subrange(9 + id_len + doc_len as int, s.len() as int));
            }
            Ok(Some(Record::Put { id, doc }))
        } else if tag == RECORD_DELETE {
            if doc_len != 0 {
                return Err(
                    DbError::InvalidFormat(message("delete record must have zero document length")),
                );
            }
            proof {
                assert(reader@ =~= s.subrange(9 + id_len as int, s.len() as int));
            }
            Ok(Some(Record::Delete { id }))
        } else {
            Err(DbError::InvalidFormat(crate::bytes::describe_number("unknown record tag: ", tag as usize)))
        }
    }
}

/// Takes `len` bytes from `reader`: `None` when `reader` is empty (and `len`
/// is not zero), `InvalidFormat` when it ends part way.
fn read_exact_or_eof(reader: &mut &[u8], len: usize) -> (r: Result<Option<Vec<u8>>, DbError>)
    ensures
        match r {
            Ok(None) => old(reader)@.len() == 0 && len > 0 && final(reader)@ == old(reader)@,
            Ok(Some(bytes)) => {
                &&& len <= old(reader)@.len()
                &&& bytes@ == old(reader)@.take(len as int)
                &&& final(reader)@ == old(reader)@.skip(len as int)
            },
            Err(e) => e is InvalidFormat && 0 < old(reader)@.len() < len,
        },
{
    if len == 0 {
        return Ok(Some(Vec::new()));
    }
    if reader.len() == 0 {
        return Ok(None);
    }
    if reader.len() < len {
        return Err(DbError::InvalidFormat(message("truncated record at end of file")));
    }
    let s: &[u8] = *reader;
    let bytes = vstd::slice::slice_to_vec(vstd::slice::slice_subrange(s, 0, len));
    *reader = vstd::slice::slice_subrange(s, len, s.len());
    proof {
        assert(bytes@ =~= old(reader)@.take(len as int));
    }
    Ok(Some(bytes))
}

/// Takes `len` bytes from `reader`; fails with `InvalidFormat`, naming
/// `context`, when there are fewer.
fn read_exact_required(reader: &mut &[u8], len: usize, context: &str) -> (r: Result<
    Vec<u8>,
    DbError,
>)
    ensures
        match r {
            Ok(bytes) => {
                &&& len <= old(reader)@.len()
                &&& bytes@ == old(reader)@.take(len as int)
                &&& final(reader)@ == old(reader)@.skip(len as int)
            },
            Err(e) => e is InvalidFormat && old(reader)@.len() < len && e.detail() == context@,
        },
{
    match read_exact_or_eof(reader, len) {
        Ok(Some(bytes)) => Ok(bytes),
        Ok(None) => Err(DbError::InvalidFormat(message(context))),
        Err(DbError::InvalidFormat(_)) => Err(DbError::InvalidFormat(message(context))),
        Err(err) => Err(err),
    }
}

} // verus!
