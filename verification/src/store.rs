//! The store contract and its reference backend: an in-memory store whose
//! four operations — create, save, load, delete — plus the bulk expiry sweep
//! carry the invariant rules every conforming adapter must uphold.
//!
//! The store is modelled as a map from identifier to record model. `create`
//! persists under a uniqueness guarantee and retries collisions with fresh
//! identifiers; `save` is an unconditional upsert; `load` treats a record
//! whose expiry is not strictly in the future as absent even while it is
//! physically present; `delete` is unconditional removal; `delete_expired`
//! reclaims every record whose expiry is at or before the given time.
//! Operations take "now" as an argument, so the time source stays a
//! configuration point.
use vstd::prelude::*;
use vstd::string::StringExecFns;

use crate::codec::{decode_record, encode_record, lemma_decode_encode_record, record_encodable,
    spec_decode_record, DecodeError, EncodeError};
use crate::ids::fresh_id;
use crate::record::{Record, RecordModel, SessionId};

verus! {

/// How many times `create` retries with a fresh identifier before reporting
/// the identifier space exhausted. Collisions are astronomically unlikely, so
/// the bound only keeps the operation total.
pub const MAX_CREATE_ATTEMPTS: u32 = 16;

/// The error taxonomy, uniform across adapters. Collisions during `create`
/// are not errors: they trigger the identifier retry loop and stay invisible
/// to the caller unless the attempt bound is exhausted.
#[derive(Debug, PartialEq, Eq)]
pub enum StoreError {
    /// The record's data could not be serialized; fatal for that operation,
    /// never silently dropped.
    Encode(EncodeError),
    /// Stored bytes could not be deserialized back into a record; the store
    /// never returns a partially decoded record.
    Decode(DecodeError),
    /// Every creation attempt found its identifier taken.
    IdSpaceExhausted,
}

impl StoreError {
    /// A short description of the error.
    pub fn message(&self) -> (r: String)
        ensures
            self is Encode ==> r@ == "failed to encode session record"@,
            self is Decode ==> r@ == "failed to decode session record"@,
            self is IdSpaceExhausted ==> r@ == "session identifier space exhausted"@,
    {
        match self {
            StoreError::Encode(_) => String::from_str("failed to encode session record"),
            StoreError::Decode(_) => String::from_str("failed to decode session record"),
            StoreError::IdSpaceExhausted => String::from_str(
                "session identifier space exhausted",
            ),
        }
    }
}

impl core::convert::From<EncodeError> for StoreError {
    /// Maps a codec encoding failure into the store's error taxonomy.
    fn from(e: EncodeError) -> (r: StoreError) {
        StoreError::Encode(e)
    }
}

impl vstd::std_specs::convert::FromSpecImpl<EncodeError> for StoreError {
    open spec fn obeys_from_spec() -> bool {
        true
    }

    open spec fn from_spec(e: EncodeError) -> StoreError {
        StoreError::Encode(e)
    }
}

impl core::convert::From<DecodeError> for StoreError {
    /// Maps a codec decoding failure into the store's error taxonomy.
    fn from(e: DecodeError) -> (r: StoreError) {
        StoreError::Decode(e)
    }
}

impl vstd::std_specs::convert::FromSpecImpl<DecodeError> for StoreError {
    open spec fn obeys_from_spec() -> bool {
        true
    }

    open spec fn from_spec(e: DecodeError) -> StoreError {
        StoreError::Decode(e)
    }
}

/// One stored row: the identifier as key, the record's encoded bytes, and
/// the expiry timestamp kept beside them so reads and sweeps can filter
/// without decoding.
struct StoredRow {
    id: i128,
    data: Vec<u8>,
    expiry_date: i64,
}

/// The record model a row's bytes decode to.
spec fn row_model(row: StoredRow) -> RecordModel {
    match spec_decode_record(row.data@) {
        Some(m) => m,
        None => RecordModel { id: 0, data: Seq::empty(), expiry_date: 0 },
    }
}

/// A row is coherent when its bytes decode to a record whose identifier and
/// expiry match the row's own columns.
spec fn row_ok(row: StoredRow) -> bool {
    &&& spec_decode_record(row.data@) is Some
    &&& row_model(row).id == row.id
    &&& row_model(row).expiry_date == row.expiry_date
}

/// Two rows that hold the same identifier, bytes and expiry.
spec fn row_eq(a: StoredRow, b: StoredRow) -> bool {
    a.id == b.id && a.data@ == b.data@ && a.expiry_date == b.expiry_date
}

/// A copy of a byte vector with the same contents.
fn clone_bytes(v: &Vec<u8>) -> (r: Vec<u8>)
    ensures
        r@ == v@,
{
    vstd::slice::slice_to_vec(v.as_slice())
}

/// No two rows share an identifier.
spec fn unique_ids(rows: Seq<StoredRow>) -> bool {
    forall|i: int, j: int|
        #![trigger rows[i].id, rows[j].id]
        0 <= i < j < rows.len() ==> rows[i].id != rows[j].id
}

/// The map held by a sequence of rows: each identifier to the record its row
/// decodes to.
spec fn rows_map(rows: Seq<StoredRow>) -> Map<i128, RecordModel>
    decreases rows.len(),
{
    if rows.len() == 0 {
        Map::empty()
    } else {
        rows_map(rows.drop_last()).insert(rows.last().id, row_model(rows.last()))
    }
}

/// With unique identifiers, the row map holds exactly the rows' identifiers,
/// each bound to its own row's record.
proof fn lemma_rows_map(rows: Seq<StoredRow>)
    requires
        unique_ids(rows),
    ensures
        forall|id: i128| #[trigger]
            rows_map(rows).contains_key(id) ==> exists|i: int|
                0 <= i < rows.len() && (#[trigger] rows[i]).id == id,
        forall|i: int|
            0 <= i < rows.len() ==> rows_map(rows).contains_key((#[trigger] rows[i]).id)
                && rows_map(rows)[rows[i].id] == row_model(rows[i]),
    decreases rows.len(),
{
    if rows.len() > 0 {
        let butlast = rows.drop_last();
        assert(unique_ids(butlast)) by {
            assert(forall|i: int|
                0 <= i < butlast.len() ==> (#[trigger] butlast[i]).id == rows[i].id);
        }
        lemma_rows_map(butlast);
        assert(forall|i: int|
            0 <= i < butlast.len() ==> (#[trigger] butlast[i]).id == rows[i].id);
        assert(forall|i: int| 0 <= i < butlast.len() ==> butlast[i] == rows[i]);
        assert(rows.last() == rows[rows.len() - 1]);
        assert forall|id: i128| #[trigger]
            rows_map(rows).contains_key(id) implies exists|i: int|
            0 <= i < rows.len() && (#[trigger] rows[i]).id == id by {
            if id == rows.last().id {
                assert(rows[rows.len() - 1].id == id);
            } else {
                assert(rows_map(butlast).contains_key(id));
                let i = choose|i: int| 0 <= i < butlast.len() && (#[trigger] butlast[i]).id == id;
                assert(rows[i].id == id);
            }
        }
    }
}

/// The in-memory store: the reference backend of the store contract. Its
/// rows keep one entry per identifier, each holding the encoded record.
pub struct MemoryStore {
    rows: Vec<StoredRow>,
}

/// What a read of `id` at time `now` observes in a store holding `m`: the
/// record only if it is present and its expiry is strictly in the future.
pub open spec fn spec_load(m: Map<i128, RecordModel>, id: i128, now: i64) -> Option<RecordModel> {
    if m.contains_key(id) && m[id].expiry_date > now {
        Some(m[id])
    } else {
        None
    }
}

impl View for MemoryStore {
    type V = Map<i128, RecordModel>;

    closed spec fn view(&self) -> Map<i128, RecordModel> {
        rows_map(self.rows@)
    }
}

impl MemoryStore {
    /// Well-formedness: identifiers are unique and every row's bytes decode
    /// to a record that matches the row. Constructors establish it and every
    /// operation preserves it.
    pub closed spec fn wf(self) -> bool {
        &&& unique_ids(self.rows@)
        &&& forall|i: int| 0 <= i < self.rows@.len() ==> row_ok(#[trigger] self.rows@[i])
    }

    /// An empty store.
    pub fn new() -> (r: MemoryStore)
        ensures
            r.wf(),
            r@ == Map::<i128, RecordModel>::empty(),
    {
        MemoryStore { rows: Vec::new() }
    }

    /// The index of the row holding `id`, if one does.
    fn find_index(&self, id: i128) -> (r: Option<usize>)
        ensures
            match r {
                Some(i) => i < self.rows@.len() && self.rows@[i as int].id == id,
                None => forall|j: int|
                    0 <= j < self.rows@.len() ==> (#[trigger] self.rows@[j]).id != id,
            },
    {
        let mut i: usize = 0;
        while i < self.rows.len()
            invariant
                0 <= i <= self.rows@.len(),
                forall|j: int| 0 <= j < i ==> (#[trigger] self.rows@[j]).id != id,
            decreases self.rows@.len() - i,
        {
            if self.rows[i].id == id {
                return Some(i);
            }
            i = i + 1;
        }
        None
    }

    /// Appends a row for a record whose identifier is not yet present.
    fn push_row(&mut self, record: &Record) -> (r: Result<(), StoreError>)
        requires
            old(self).wf(),
            forall|j: int|
                0 <= j < old(self).rows@.len() ==> (#[trigger] old(self).rows@[j]).id
                    != record@.id,
        ensures
            final(self).wf(),
            match r {
                Ok(_) => record_encodable(record@) && final(self)@ == old(self)@.insert(
                    record@.id,
                    record@,
                ),
                Err(e) => e is Encode && !record_encodable(record@) && final(self)@ == old(
                    self,
                )@,
            },
    {
        let mut buf: Vec<u8> = Vec::new();
        match encode_record(record, &mut buf) {
            Err(e) => {
                return Err(StoreError::Encode(e));
            },
            Ok(_) => {},
        }
        proof {
            lemma_decode_encode_record(record@);
            assert(buf@ =~= crate::codec::spec_encode_record(record@));
        }
        let row = StoredRow { id: record.id.0, data: buf, expiry_date: record.expiry_date };
        let ghost oldrows = self.rows@;
        self.rows.push(row);
        proof {
            assert(self.rows@.drop_last() =~= oldrows);
            assert(self.rows@.last() == row);
            assert(row_ok(row));
            assert(forall|j: int|
                0 <= j < oldrows.len() ==> self.rows@[j] == (#[trigger] oldrows[j]));
            assert(rows_map(self.rows@) == rows_map(oldrows).insert(row.id, row_model(row)));
            assert(final(self)@ =~= old(self)@.insert(record@.id, record@));
        }
        Ok(())
    }

    /// Unconditional upsert: creates the entry if missing, overwrites it if
    /// present, updating both data and expiry. Unlike `create`, it never
    /// re-keys. Fails only when the record's data cannot be encoded, and
    /// then changes nothing.
    pub fn save(&mut self, record: &Record) -> (r: Result<(), StoreError>)
        requires
            old(self).wf(),
        ensures
            final(self).wf(),
            match r {
                Ok(_) => record_encodable(record@) && final(self)@ == old(self)@.insert(
                    record@.id,
                    record@,
                ),
                Err(e) => e is Encode && !record_encodable(record@) && final(self)@ == old(
                    self,
                )@,
            },
    {
        proof {
            lemma_rows_map(self.rows@);
        }
        let idx = self.find_index(record.id.0);
        match idx {
            None => self.push_row(record),
            Some(i) => {
                let mut buf: Vec<u8> = Vec::new();
                match encode_record(record, &mut buf) {
                    Err(e) => {
                        return Err(StoreError::Encode(e));
                    },
                    Ok(_) => {},
                }
                proof {
                    lemma_decode_encode_record(record@);
                    assert(buf@ =~= crate::codec::spec_encode_record(record@));
                }
                let row = StoredRow {
                    id: record.id.0,
                    data: buf,
                    expiry_date: record.expiry_date,
                };
                let ghost oldrows = self.rows@;
                self.rows[i] = row;
                proof {
                    let newrows = self.rows@;
                    assert(row_ok(row));
                    assert(forall|j: int|
                        0 <= j < newrows.len() && j != i ==> newrows[j] == (
                        #[trigger] oldrows[j]));
                    assert(forall|j: int|
                        0 <= j < newrows.len() ==> (#[trigger] newrows[j]).id == oldrows[j].id);
                    assert(unique_ids(newrows));
                    lemma_rows_map(newrows);
                    let m1 = rows_map(newrows);
                    let m2 = rows_map(oldrows).insert(record@.id, record@);
                    assert forall|k: i128| #[trigger] m1.contains_key(k) implies m2.contains_key(
                        k,
                    ) && m1[k] == m2[k] by {
                        let j = choose|j: int|
                            0 <= j < newrows.len() && (#[trigger] newrows[j]).id == k;
                        if j == i {
                            assert(m1[k] == row_model(row));
                        } else {
                            assert(oldrows[j].id == k);
                            assert(k != record@.id);
                            assert(m1[k] == row_model(newrows[j]));
                            assert(m2[k] == row_model(oldrows[j]));
                        }
                    }
                    assert forall|k: i128| #[trigger] m2.contains_key(k) implies m1.contains_key(
                        k,
                    ) by {
                        if k == record@.id {
                            assert(newrows[i as int].id == k);
                        } else {
                            assert(rows_map(oldrows).contains_key(k));
                            let j = choose|j: int|
                                0 <= j < oldrows.len() && (#[trigger] oldrows[j]).id == k;
                            assert(newrows[j].id == k);
                        }
                    }
                    assert(m1 =~= m2);
                }
                Ok(())
            },
        }
    }

    /// The atomic insert-if-absent primitive behind `create`: persists the
    /// record only if its identifier is free, and reports whether it did. An
    /// existing record is never overwritten.
    pub fn try_create(&mut self, record: &Record) -> (r: Result<bool, StoreError>)
        requires
            old(self).wf(),
        ensures
            final(self).wf(),
            match r {
                Ok(true) => !old(self)@.contains_key(record@.id) && record_encodable(record@)
                    && final(self)@ == old(self)@.insert(record@.id, record@),
                Ok(false) => old(self)@.contains_key(record@.id) && final(self)@ == old(self)@,
                Err(e) => e is Encode && !record_encodable(record@) && final(self)@ == old(
                    self,
                )@,
            },
    {
        proof {
            lemma_rows_map(self.rows@);
        }
        let idx = self.find_index(record.id.0);
        match idx {
            Some(_) => Ok(false),
            None => {
                proof {
                    if self@.contains_key(record@.id) {
                        let j = choose|j: int|
                            0 <= j < self.rows@.len() && (#[trigger] self.rows@[j]).id
                                == record@.id;
                        assert(false);
                    }
                }
                match self.push_row(record) {
                    Ok(_) => Ok(true),
                    Err(e) => Err(e),
                }
            },
        }
    }

    /// Collision-safe creation: persists the record under a uniqueness
    /// guarantee, never overwriting. When its identifier is taken, it draws
    /// a fresh random identifier and retries, so on success the identifier
    /// was absent at the moment of commit. Data and expiry are never changed;
    /// only the identifier may be re-keyed. The attempt bound keeps the
    /// operation total; exhausting it reports the identifier space exhausted
    /// and leaves the store unchanged.
    #[verifier::loop_isolation(false)]
    pub fn create(&mut self, record: &mut Record) -> (r: Result<(), StoreError>)
        requires
            old(self).wf(),
        ensures
            final(self).wf(),
            final(record)@.data == old(record)@.data,
            final(record)@.expiry_date == old(record)@.expiry_date,
            // success is owed when the given identifier is free and the
            // record encodable: the first attempt commits deterministically,
            // and the identifier is kept
            !old(self)@.contains_key(old(record)@.id) && record_encodable(old(record)@) ==> r
                is Ok && final(record)@.id == old(record)@.id,
            // identity is immutable after creation except on collision
            // retry: a committed record is re-keyed only if its identifier
            // was taken
            r is Ok && !old(self)@.contains_key(old(record)@.id) ==> final(record)@.id == old(
                record,
            )@.id,
            match r {
                Ok(_) => !old(self)@.contains_key(final(record)@.id) && record_encodable(
                    final(record)@,
                ) && final(self)@ == old(self)@.insert(final(record)@.id, final(record)@),
                Err(e) => !(e is Decode) && final(self)@ == old(self)@ && (e is Encode
                    ==> !record_encodable(final(record)@)),
            },
    {
        let mut attempts: u32 = 0;
        while attempts < MAX_CREATE_ATTEMPTS
            invariant
                self.wf(),
                self@ == old(self)@,
                record@.data == old(record)@.data,
                record@.expiry_date == old(record)@.expiry_date,
                attempts == 0 ==> record@ == old(record)@,
                attempts > 0 ==> old(self)@.contains_key(old(record)@.id),
            decreases MAX_CREATE_ATTEMPTS - attempts,
        {
            match self.try_create(record) {
                Ok(true) => {
                    return Ok(());
                },
                Ok(false) => {
                    record.id = fresh_id();
                    attempts = attempts + 1;
                },
                Err(e) => {
                    return Err(e);
                },
            }
        }
        Err(StoreError::IdSpaceExhausted)
    }

    /// Expiry-aware read: the record under `id`, only if it exists and its
    /// expiry is strictly in the future at `now_secs`; a physically present
    /// but expired record reads as absent. This backend stores only bytes the
    /// codec produced, so a decode failure cannot occur and the operation
    /// never errs.
    pub fn load(&self, id: SessionId, now_secs: i64) -> (r: Result<Option<Record>, StoreError>)
        requires
            self.wf(),
        ensures
            match r {
                Ok(Some(rec)) => spec_load(self@, id.0, now_secs) == Some(rec@),
                Ok(None) => spec_load(self@, id.0, now_secs) is None,
                Err(_) => false,
            },
    {
        proof {
            lemma_rows_map(self.rows@);
        }
        match self.find_index(id.0) {
            None => {
                proof {
                    if self@.contains_key(id.0) {
                        let j = choose|j: int|
                            0 <= j < self.rows@.len() && (#[trigger] self.rows@[j]).id == id.0;
                        assert(false);
                    }
                }
                Ok(None)
            },
            Some(i) => {
                let row = &self.rows[i];
                if row.expiry_date > now_secs {
                    match decode_record(row.data.as_slice()) {
                        Ok(rec) => Ok(Some(rec)),
                        Err(e) => {
                            proof {
                                assert(false);
                            }
                            Err(StoreError::Decode(e))
                        },
                    }
                } else {
                    Ok(None)
                }
            },
        }
    }

    /// Unconditional removal; deleting an absent identifier is not an error
    /// and leaves the store unchanged.
    pub fn delete(&mut self, id: SessionId)
        requires
            old(self).wf(),
        ensures
            final(self).wf(),
            final(self)@ == old(self)@.remove(id.0),
    {
        proof {
            lemma_rows_map(self.rows@);
        }
        let idx = self.find_index(id.0);
        match idx {
            None => {
                proof {
                    if self@.contains_key(id.0) {
                        let j = choose|j: int|
                            0 <= j < self.rows@.len() && (#[trigger] self.rows@[j]).id == id.0;
                        assert(false);
                    }
                    assert(self@ =~= self@.remove(id.0));
                }
            },
            Some(i) => {
                let ghost oldrows = self.rows@;
                self.rows.remove(i);
                proof {
                    let newrows = self.rows@;
                    assert(forall|j: int|
                        0 <= j < newrows.len() ==> #[trigger] newrows[j] == (if j < i {
                            oldrows[j]
                        } else {
                            oldrows[j + 1]
                        }));
                    assert(unique_ids(newrows));
                    lemma_rows_map(newrows);
                    let m1 = rows_map(newrows);
                    let m2 = rows_map(oldrows).remove(id.0);
                    assert forall|k: i128| #[trigger] m1.contains_key(k) implies m2.contains_key(
                        k,
                    ) && m1[k] == m2[k] by {
                        let j = choose|j: int|
                            0 <= j < newrows.len() && (#[trigger] newrows[j]).id == k;
                        let j0: int = if j < i {
                            j
                        } else {
                            j + 1
                        };
                        assert(oldrows[j0].id == k);
                        assert(j0 != i);
                        assert(k != id.0);
                        assert(m1[k] == row_model(newrows[j]));
                        assert(m2[k] == row_model(oldrows[j0]));
                    }
                    assert forall|k: i128| #[trigger] m2.contains_key(k) implies m1.contains_key(
                        k,
                    ) by {
                        assert(rows_map(oldrows).contains_key(k));
                        let j0 = choose|j: int|
                            0 <= j < oldrows.len() && (#[trigger] oldrows[j]).id == k;
                        assert(k != id.0);
                        assert(j0 != i);
                        let j: int = if j0 < i {
                            j0
                        } else {
                            j0 - 1
                        };
                        assert(newrows[j].id == k);
                    }
                    assert(m1 =~= m2);
                }
            },
        }
    }

    /// Bulk expiry sweep: one pass removing every record whose expiry is at
    /// or before `now_secs`; records with future expiry are unaffected. Safe
    /// to call repeatedly.
    #[verifier::loop_isolation(false)]
    pub fn delete_expired(&mut self, now_secs: i64)
        requires
            old(self).wf(),
        ensures
            final(self).wf(),
            forall|k: i128| #[trigger]
                final(self)@.contains_key(k) <==> (old(self)@.contains_key(k)
                    && old(self)@[k].expiry_date > now_secs),
            forall|k: i128| #[trigger]
                final(self)@.contains_key(k) ==> final(self)@[k] == old(self)@[k],
    {
        let ghost oldrows = self.rows@;
        proof {
            lemma_rows_map(oldrows);
        }
        let mut kept: Vec<StoredRow> = Vec::new();
        let ghost mut src: Seq<int> = Seq::empty();
        let mut i: usize = 0;
        while i < self.rows.len()
            invariant
                0 <= i <= self.rows@.len(),
                self.rows@ == oldrows,
                kept@.len() == src.len(),
                forall|m: int|
                    0 <= m < src.len() ==> 0 <= #[trigger] src[m] < i && row_eq(
                        kept@[m],
                        oldrows[src[m]],
                    ),
                forall|m1: int, m2: int|
                    #![trigger src[m1], src[m2]]
                    0 <= m1 < m2 < src.len() ==> src[m1] < src[m2],
                forall|m: int|
                    0 <= m < kept@.len() ==> (#[trigger] kept@[m]).expiry_date > now_secs,
                forall|j: int|
                    0 <= j < i && (#[trigger] oldrows[j]).expiry_date > now_secs ==> exists|m: int|
                        0 <= m < src.len() && src[m] == j,
            decreases self.rows@.len() - i,
        {
            let row = &self.rows[i];
            if row.expiry_date > now_secs {
                let copied = StoredRow {
                    id: row.id,
                    data: clone_bytes(&row.data),
                    expiry_date: row.expiry_date,
                };
                proof {
                    assert(row_eq(copied, oldrows[i as int]));
                }
                kept.push(copied);
                proof {
                    let src0 = src;
                    src = src.push(i as int);
                    assert(src[src.len() - 1] == i as int);
                    assert forall|j: int|
                        0 <= j < i + 1 && (#[trigger] oldrows[j]).expiry_date
                        > now_secs implies exists|m: int| 0 <= m < src.len() && src[m] == j by {
                        if j == i {
                            assert(src[src.len() - 1] == j);
                        } else {
                            let m = choose|m: int| 0 <= m < src0.len() && (#[trigger] src0[m]) == j;
                            assert(src[m] == j);
                        }
                    }
                }
            }
            i = i + 1;
        }
        self.rows = kept;
        proof {
            let newrows = self.rows@;
            assert forall|m: int| 0 <= m < newrows.len() implies row_ok(
                #[trigger] newrows[m],
            ) && row_model(newrows[m]) == row_model(oldrows[src[m]]) by {
                assert(row_eq(newrows[m], oldrows[src[m]]));
                assert(row_model(newrows[m]) == row_model(oldrows[src[m]]));
            }
            assert(unique_ids(newrows)) by {
                assert(forall|m1: int, m2: int|
                    #![trigger newrows[m1].id, newrows[m2].id]
                    0 <= m1 < m2 < newrows.len() ==> newrows[m1].id != newrows[m2].id);
            }
            lemma_rows_map(newrows);
            let m1 = rows_map(newrows);
            let m2 = rows_map(oldrows);
            assert forall|k: i128| #[trigger]
                m1.contains_key(k) implies (m2.contains_key(k) && m2[k].expiry_date > now_secs
                && m1[k] == m2[k]) by {
                let m = choose|m: int| 0 <= m < newrows.len() && (#[trigger] newrows[m]).id == k;
                let j = src[m];
                assert(oldrows[j].id == k);
                assert(m2[k] == row_model(oldrows[j]));
                assert(m1[k] == row_model(newrows[m]));
                assert(row_model(oldrows[j]).expiry_date == oldrows[j].expiry_date);
            }
            assert forall|k: i128|
                m2.contains_key(k) && m2[k].expiry_date > now_secs implies #[trigger]
                m1.contains_key(k) by {
                let j = choose|j: int| 0 <= j < oldrows.len() && (#[trigger] oldrows[j]).id == k;
                assert(m2[k] == row_model(oldrows[j]));
                assert(oldrows[j].expiry_date > now_secs);
                let m = choose|m: int| 0 <= m < src.len() && src[m] == j;
                assert(newrows[m].id == k);
            }
        }
    }

    /// Whether a record is physically present under `id`, expired or not.
    pub fn contains(&self, id: SessionId) -> (r: bool)
        requires
            self.wf(),
        ensures
            r == self@.contains_key(id.0),
    {
        proof {
            lemma_rows_map(self.rows@);
        }
        match self.find_index(id.0) {
            Some(_) => true,
            None => {
                proof {
                    if self@.contains_key(id.0) {
                        let i = choose|i: int|
                            0 <= i < self.rows@.len() && (#[trigger] self.rows@[i]).id == id.0;
                        assert(false);
                    }
                }
                false
            },
        }
    }
}

/// Law: a forced first-attempt collision makes exactly one retry, with the
/// one fresh identifier drawn (`fresh`, a parameter here since the draw is
/// random). Over the attempt semantics that `try_create` ensures — refuse
/// and change nothing on a held identifier, commit on a free one — a store
/// holding `rm.id` refuses the first attempt; the retried attempt commits
/// the record re-keyed to `fresh`, a different identifier from the colliding
/// one; and the pre-existing colliding record is not overwritten.
pub proof fn lemma_forced_collision_one_retry(
    m: Map<i128, RecordModel>,
    rm: RecordModel,
    fresh: i128,
)
    requires
        m.contains_key(rm.id),
        !m.contains_key(fresh),
    ensures
        ({
            let rekeyed = RecordModel { id: fresh, data: rm.data, expiry_date: rm.expiry_date };
            let committed = m.insert(fresh, rekeyed);
            &&& fresh != rm.id
            &&& committed.contains_key(fresh) && committed[fresh] == rekeyed
            &&& committed.contains_key(rm.id) && committed[rm.id] == m[rm.id]
        }),
{
}

/// Law: immediately after a save of record `rm`, a load of its identifier
/// returns a record equal to it, provided its expiry is in the future.
pub proof fn lemma_load_after_save(m: Map<i128, RecordModel>, rm: RecordModel, now_secs: i64)
    requires
        rm.expiry_date > now_secs,
    ensures
        spec_load(m.insert(rm.id, rm), rm.id, now_secs) == Some(rm),
{
}

/// Law: a record whose expiry is at or before the reading time reads as
/// absent, even while it is still physically present.
pub proof fn lemma_expired_reads_absent(m: Map<i128, RecordModel>, id: i128, now_secs: i64)
    requires
        m.contains_key(id) ==> m[id].expiry_date <= now_secs,
    ensures
        spec_load(m, id, now_secs) is None,
{
}

/// Law: after a delete of `id`, a load of `id` returns absent, at any time;
/// deleting is total, also on an absent identifier.
pub proof fn lemma_load_after_delete(m: Map<i128, RecordModel>, id: i128, now_secs: i64)
    ensures
        spec_load(m.remove(id), id, now_secs) is None,
{
}

/// Law: after a sweep at `now_secs` — `m_new` related to `m_old` as
/// `delete_expired` promises — no record expired at `now_secs` remains
/// loadable, and every read is unchanged.
pub proof fn lemma_sweep_reclaims_expired(
    m_old: Map<i128, RecordModel>,
    m_new: Map<i128, RecordModel>,
    now_secs: i64,
)
    requires
        forall|k: i128| #[trigger]
            m_new.contains_key(k) <==> (m_old.contains_key(k) && m_old[k].expiry_date > now_secs),
        forall|k: i128| #[trigger] m_new.contains_key(k) ==> m_new[k] == m_old[k],
    ensures
        forall|k: i128|
            m_old.contains_key(k) && m_old[k].expiry_date <= now_secs ==> #[trigger] spec_load(
                m_new,
                k,
                now_secs,
            ) is None,
        forall|k: i128| #[trigger] spec_load(m_new, k, now_secs) == spec_load(m_old, k, now_secs),
{
    assert forall|k: i128| #[trigger] spec_load(m_new, k, now_secs) == spec_load(
        m_old,
        k,
        now_secs,
    ) by {
        assert(m_new.contains_key(k) <==> (m_old.contains_key(k) && m_old[k].expiry_date
            > now_secs));
        if m_new.contains_key(k) {
            assert(m_new[k] == m_old[k]);
        }
    }
}

} // verus!