//! Blobs: one value stored under the bare key of its name.
use vstd::prelude::*;
use crate::conn::{kind_key, readable, record_read, removal_writes, typed_fault, typed_read, Conn};
use crate::error::EngineError;
use crate::keys::{bare_key, blob};
use crate::record::{parse_record, record_bytes, tagged_payload, Record, Tag};
use crate::store::{apply_writes, batch_insert, batch_remove, new_batch, view_opt};

verus! {

impl Conn {
    /// The value of the blob `name`, if one is stored.
    pub fn blob_get(&self, name: &[u8]) -> (r: Result<Option<Vec<u8>>, EngineError>)
        ensures
            r is Ok ==> typed_read(self.items_view(), bare_key(name@), Tag::Blob) == Some(
                view_opt(r->Ok_0),
            ),
            typed_read(self.items_view(), bare_key(name@), Tag::Blob) is Some ==> r is Ok
                || r->Err_0 is Store,
            r is Err && !(r->Err_0 is Store) ==> self.items_view().contains_key(bare_key(name@))
                && typed_fault(self.items_view()[bare_key(name@)], Tag::Blob, r->Err_0),
    {
        let key = blob(name);
        self.get_typed(key.as_slice(), Tag::Blob)
    }

    /// Stores `val` as the blob `name`, first removing whatever container of
    /// another kind the name held. Returns the record that the old kind was
    /// read from.
    pub fn blob_insert(&mut self, name: &[u8], val: Vec<u8>) -> (r: Result<Option<Record>, EngineError>)
        ensures
            ({
                let m = old(self).items_view();
                let w = removal_writes(m, name@);
                match r {
                    Ok(rec) => {
                        &&& record_read(m, kind_key(m, name@), Ok(rec))
                        &&& final(self).items_view() == apply_writes(m, w).insert(
                            bare_key(name@),
                            record_bytes(Tag::Blob, val@),
                        )
                        &&& final(self).ttl_view() == apply_writes(old(self).ttl_view(), w)
                    },
                    Err(e) => e is Store || (record_read(m, kind_key(m, name@), Err(e))
                        && final(self).items_view() == m && final(self).ttl_view() == old(
                        self,
                    ).ttl_view()),
                }
            }),
            readable(old(self).items_view(), kind_key(old(self).items_view(), name@)) ==> r is Ok
                || r->Err_0 is Store,
    {
        let key = blob(name);
        let (old_record, mut batch, ttl_batch) = self.raw_remove_item(name)?;
        let ghost w = crate::store::batch_writes(batch);
        batch_insert(&mut batch, key.as_slice(), Record::FromData(Tag::Blob, val).into_raw());
        let ghost m = self.items_view();
        self.apply_items(batch)?;
        assert(self.items_view() =~= apply_writes(m, w).insert(
            bare_key(name@),
            record_bytes(Tag::Blob, val@),
        ));
        self.apply_ttl(ttl_batch)?;
        Ok(old_record)
    }

    /// Removes the blob `name` and returns its value. A name that holds no
    /// blob is left as it is.
    pub fn blob_remove(&mut self, name: &[u8]) -> (r: Result<Option<Vec<u8>>, EngineError>)
        ensures
            ({
                let m = old(self).items_view();
                let k = bare_key(name@);
                &&& r is Ok ==> (if m.contains_key(k) && tagged_payload(m[k], Tag::Blob) is Some {
                    view_opt(r->Ok_0) == tagged_payload(m[k], Tag::Blob)
                        && final(self).items_view() == m.remove(k)
                } else {
                    r->Ok_0 is None && final(self).items_view() == m
                })
                &&& readable(m, k) ==> r is Ok || r->Err_0 is Store
                &&& r is Err && !(r->Err_0 is Store) ==> final(self).items_view() == m
                    && m.contains_key(k) && parse_record(m[k]) is Err && r->Err_0
                    == EngineError::Record(parse_record(m[k])->Err_0)
            }),
            final(self).ttl_view() == old(self).ttl_view(),
    {
        let key = blob(name);
        let rec = match self.get_record(key.as_slice())? {
            Some(rec) => rec,
            None => {
                return Ok(None);
            },
        };
        if rec.tag() != Tag::Blob {
            return Ok(None);
        }
        let data = rec.data();
        let mut b = new_batch();
        batch_remove(&mut b, key.as_slice());
        let ghost m = self.items_view();
        self.apply_items(b)?;
        assert(self.items_view() =~= m.remove(bare_key(name@)));
        Ok(Some(data))
    }
}

} // verus!
