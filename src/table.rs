//! Keyed tables: a metadata record holding the number of entries, and one
//! item key per entry.
use vstd::prelude::*;
use crate::endian::{
    be_bytes, be_value, lemma_be_bytes_len, lemma_be_value_bound, lemma_be_value_of_bytes,
    lemma_pow256_values, push_be, read_be,
};
use crate::conn::{typed_fault, typed_read, Conn};
use crate::error::EngineError;
use crate::keys::{
    lemma_prefix_closure, lemma_table_item_keys, LogicalKey, meta_key, table, table_item_key,
    table_meta,
};
use crate::record::{
    lemma_parse_record_bytes, parse_record, record_bytes, tagged_payload, Record, Tag,
};
use crate::list::same_outside;
use crate::store::{batch_insert, batch_remove, lookup, new_batch, view_opt};

verus! {

/// The metadata of a table: its number of entries.
#[derive(Clone, Copy, Debug, PartialEq, Eq, Structural)]
pub struct Meta {
    pub len: u64,
}

/// Why a table operation failed.
#[derive(Debug)]
pub enum TableError {
    /// The metadata payload stored for a table is no 8-byte length, or
    /// disagrees with the entries stored.
    InvalidMeta(Vec<u8>),
}

impl Meta {
    /// The stored record: tagged `Table`, the length in 8 big-endian bytes.
    pub fn encode(&self) -> (r: Record)
        ensures
            r.wf(),
            r.tag_spec() == Tag::Table,
            r.payload() == be_bytes(self.len as nat, 8),
    {
        let mut out: Vec<u8> = Vec::with_capacity(8);
        push_be(&mut out, self.len as u128, 8);
        assert(out@ =~= be_bytes(self.len as nat, 8));
        Record::FromData(Tag::Table, out)
    }

    /// Reads table metadata out of a record.
    pub fn decode(input: &Record) -> (r: Result<Self, EngineError>)
        requires
            input.wf(),
        ensures
            input.tag_spec() != Tag::Table ==> r is Err && r->Err_0 == EngineError::BadType(
                Tag::Table,
                input.tag_spec(),
            ),
            input.tag_spec() == Tag::Table && input.payload().len() != 8 ==> r is Err && r->Err_0 is Table
                && r->Err_0->Table_0->InvalidMeta_0@ == input.payload(),
            input.tag_spec() == Tag::Table && input.payload().len() == 8 ==> r is Ok && r->Ok_0.len
                == be_value(input.payload()),
    {
        let t = input.tag();
        if t != Tag::Table {
            return Err(EngineError::BadType(Tag::Table, t));
        }
        let data = input.data();
        if data.len() != 8 {
            return Err(EngineError::Table(TableError::InvalidMeta(data)));
        }
        let l = read_be(data.as_slice(), 0, 8);
        proof {
            assert(data@.subrange(0, 8) =~= data@);
            lemma_be_value_bound(data@);
            lemma_pow256_values();
        }
        Ok(Meta { len: l as u64 })
    }

    pub fn len(&self) -> (r: u64)
        ensures
            r == self.len,
    {
        self.len
    }

    pub fn is_empty(&self) -> (r: bool)
        ensures
            r == (self.len == 0),
    {
        self.len == 0
    }
}

impl Default for Meta {
    fn default() -> (r: Meta)
        ensures
            r.len == 0,
    {
        Meta { len: 0 }
    }
}

/// The number of entries that the metadata of the table `name` in `m` holds:
/// zero when none is stored, and `None` when what is stored is no valid
/// table metadata.
pub open spec fn stored_table_len(m: Map<Seq<u8>, Seq<u8>>, name: Seq<u8>) -> Option<u64> {
    let k = meta_key(name);
    if !m.contains_key(k) {
        Some(0)
    } else {
        match tagged_payload(m[k], Tag::Table) {
            Some(p) => if p.len() == 8 {
                Some(be_value(p) as u64)
            } else {
                None
            },
            None => None,
        }
    }
}

/// The error that reading stored bytes `raw` as table metadata gives.
pub open spec fn table_meta_fault(raw: Seq<u8>, e: EngineError) -> bool {
    match parse_record(raw) {
        Err(re) => e == EngineError::Record(re),
        Ok((t, p)) => if t != Tag::Table {
            e == EngineError::BadType(Tag::Table, t)
        } else {
            e is Table && e->Table_0->InvalidMeta_0@ == p
        },
    }
}

/// The number of entries after a write: one more when an absent key gets a
/// value, one fewer when a present key loses it.
pub open spec fn next_table_len(len: u64, old_present: bool, new_present: bool) -> int {
    if !old_present && new_present {
        len + 1
    } else if old_present && !new_present {
        len - 1
    } else {
        len as int
    }
}

/// The stored record of table metadata holding `len`.
pub open spec fn table_meta_record(len: u64) -> Seq<u8> {
    record_bytes(Tag::Table, be_bytes(len as nat, 8))
}

/// `m` after the entry `key` of the table `name` becomes `new` (or goes, for
/// `None`) and its metadata holds `len`, or goes when `len` is zero.
pub open spec fn table_written(
    m: Map<Seq<u8>, Seq<u8>>,
    name: Seq<u8>,
    key: Seq<u8>,
    len: u64,
    new: Option<Seq<u8>>,
) -> Map<Seq<u8>, Seq<u8>> {
    let ik = table_item_key(name, key);
    let m1 = match new {
        Some(v) => m.insert(ik, record_bytes(Tag::Table, v)),
        None => m.remove(ik),
    };
    if len > 0 {
        m1.insert(meta_key(name), table_meta_record(len))
    } else {
        m1.remove(meta_key(name))
    }
}

/// The write of `new` under `key` in the table `name` can go ahead on `m`:
/// metadata and entry are valid and the count stays in range.
pub open spec fn table_writable(m: Map<Seq<u8>, Seq<u8>>, name: Seq<u8>, key: Seq<u8>, new_present: bool) -> bool {
    let len = stored_table_len(m, name);
    let old = typed_read(m, table_item_key(name, key), Tag::Table);
    &&& len is Some
    &&& old is Some
    &&& 0 <= next_table_len(len->Some_0, old->Some_0 is Some, new_present) <= u64::MAX
}

/// `m2` is `m` after `new` was written under `key` in the table `name`, and
/// `old` is what that key held.
pub open spec fn table_updated(
    m: Map<Seq<u8>, Seq<u8>>,
    m2: Map<Seq<u8>, Seq<u8>>,
    name: Seq<u8>,
    key: Seq<u8>,
    old: Option<Seq<u8>>,
    new: Option<Seq<u8>>,
) -> bool {
    let len = stored_table_len(m, name)->Some_0;
    &&& table_writable(m, name, key, new is Some)
    &&& typed_read(m, table_item_key(name, key), Tag::Table) == Some(old)
    &&& m2 == table_written(m, name, key, next_table_len(len, old is Some, new is Some) as u64, new)
}

/// `e` is the error that a write under `key` in the table `name` gives on `m`.
pub open spec fn table_fault(m: Map<Seq<u8>, Seq<u8>>, name: Seq<u8>, key: Seq<u8>, new_present: bool, e: EngineError) -> bool {
    let mk = meta_key(name);
    let ik = table_item_key(name, key);
    let len = stored_table_len(m, name);
    let old = typed_read(m, ik, Tag::Table);
    ||| m.contains_key(mk) && len is None && table_meta_fault(m[mk], e)
    ||| len is Some && m.contains_key(ik) && old is None && typed_fault(m[ik], Tag::Table, e)
    ||| len is Some && old is Some && !(0 <= next_table_len(len->Some_0, old->Some_0 is Some, new_present) <= u64::MAX)
        && e is Table && e->Table_0->InvalidMeta_0@ == be_bytes(len->Some_0 as nat, 8)
}

impl Conn {
    /// The metadata of the table `name`; zero entries when none is stored.
    pub fn table_get_meta(&self, name: &[u8]) -> (r: Result<Meta, EngineError>)
        ensures
            r is Ok ==> stored_table_len(self.items_view(), name@) == Some(r->Ok_0.len),
            stored_table_len(self.items_view(), name@) is Some ==> r is Ok || r->Err_0 is Store,
            r is Err && !(r->Err_0 is Store) ==> self.items_view().contains_key(meta_key(name@))
                && table_meta_fault(self.items_view()[meta_key(name@)], r->Err_0),
            table_wf(self.items_view(), name@) ==> r is Ok || r->Err_0 is Store,
            table_wf(self.items_view(), name@) && r is Ok ==> r->Ok_0.len == table_view(
                self.items_view(),
                name@,
            ).dom().len(),
    {
        proof {
            assert(table_view(self.items_view(), name@).dom() =~= table_keys(self.items_view(), name@));
        }
        let key = table_meta(name);
        match self.get_record(key.as_slice())? {
            Some(rec) => Meta::decode(&rec),
            None => Ok(Meta::default()),
        }
    }

    /// The value under `key` in the table `name`, if there is one.
    pub fn table_get(&self, name: &[u8], key: &[u8]) -> (r: Result<Option<Vec<u8>>, EngineError>)
        ensures
            r is Ok ==> typed_read(self.items_view(), table_item_key(name@, key@), Tag::Table)
                == Some(view_opt(r->Ok_0)),
            typed_read(self.items_view(), table_item_key(name@, key@), Tag::Table) is Some ==> r is Ok
                || r->Err_0 is Store,
            r is Err && !(r->Err_0 is Store) ==> self.items_view().contains_key(
                table_item_key(name@, key@),
            ) && typed_fault(self.items_view()[table_item_key(name@, key@)], Tag::Table, r->Err_0),
            table_wf(self.items_view(), name@) ==> r is Ok || r->Err_0 is Store,
            table_wf(self.items_view(), name@) && r is Ok ==> view_opt(r->Ok_0) == if table_view(
                self.items_view(),
                name@,
            ).contains_key(key@) {
                Some(table_view(self.items_view(), name@)[key@])
            } else {
                None::<Seq<u8>>
            },
    {
        proof {
            if table_wf(self.items_view(), name@) {
                lemma_table_get_reads_view(self.items_view(), name@, key@);
            }
        }
        let k = table(name, key);
        self.get_typed(k.as_slice(), Tag::Table)
    }

    /// Reads the metadata of the table `name` and its entry under `key`.
    fn table_read(&self, name: &[u8], key: &[u8], new_present: bool) -> (r: Result<(Meta, Option<Vec<u8>>), EngineError>)
        ensures
            r is Ok ==> stored_table_len(self.items_view(), name@) == Some(r->Ok_0.0.len)
                && typed_read(self.items_view(), table_item_key(name@, key@), Tag::Table) == Some(
                view_opt(r->Ok_0.1),
            ),
            stored_table_len(self.items_view(), name@) is Some && typed_read(
                self.items_view(),
                table_item_key(name@, key@),
                Tag::Table,
            ) is Some ==> r is Ok || r->Err_0 is Store,
            r is Err && !(r->Err_0 is Store) ==> table_fault(self.items_view(), name@, key@, new_present, r->Err_0),
    {
        let meta = self.table_get_meta(name)?;
        let old = self.table_get(name, key)?;
        Ok((meta, old))
    }

    /// Writes `new` under `key` in the table `name`, whose metadata is `meta`
    /// and whose entry under `key` is present when `old_present`.
    fn table_commit(&mut self, name: &[u8], key: &[u8], meta: Meta, old_present: bool, new: Option<Vec<u8>>) -> (r: Result<(), EngineError>)
        ensures
            ({
                let next = next_table_len(meta.len, old_present, new is Some);
                &&& r is Ok ==> 0 <= next <= u64::MAX && final(self).items_view() == table_written(
                    old(self).items_view(),
                    name@,
                    key@,
                    next as u64,
                    view_opt(new),
                )
                &&& 0 <= next <= u64::MAX ==> r is Ok || r->Err_0 is Store
                &&& r is Err && !(r->Err_0 is Store) ==> final(self).items_view() == old(self).items_view()
                    && !(0 <= next <= u64::MAX) && r->Err_0 is Table && r->Err_0->Table_0->InvalidMeta_0@
                    == be_bytes(meta.len as nat, 8)
            }),
            final(self).ttl_view() == old(self).ttl_view(),
    {
        let mut meta = meta;
        let new_present = new.is_some();
        if !old_present && new_present {
            if meta.len == u64::MAX {
                let rec = meta.encode();
                return Err(EngineError::Table(TableError::InvalidMeta(rec.data())));
            }
            meta.len = meta.len + 1;
        } else if old_present && !new_present {
            if meta.len == 0 {
                let rec = meta.encode();
                return Err(EngineError::Table(TableError::InvalidMeta(rec.data())));
            }
            meta.len = meta.len - 1;
        }
        let meta_key_v = table_meta(name);
        let item_key = table(name, key);
        let ghost newv = view_opt(new);
        let mut batch = new_batch();
        match new {
            Some(v) => {
                batch_insert(&mut batch, item_key.as_slice(), Record::FromData(Tag::Table, v).into_raw());
            },
            None => {
                batch_remove(&mut batch, item_key.as_slice());
            },
        }
        if meta.len > 0 {
            batch_insert(&mut batch, meta_key_v.as_slice(), meta.encode().into_raw());
        } else {
            batch_remove(&mut batch, meta_key_v.as_slice());
        }
        let ghost m = self.items_view();
        self.apply_items(batch)?;
        assert(self.items_view() =~= table_written(m, name@, key@, meta.len, newv));
        Ok(())
    }

    /// Sets the entry under `key` in the table `name` to what `f` makes of
    /// the table's metadata and the entry's current value (`None` removes
    /// it), keeping the count of entries. Returns the former value.
    pub fn table_update<F: FnOnce(&Meta, &Option<Vec<u8>>) -> Option<Vec<u8>>>(
        &mut self,
        name: &[u8],
        key: &[u8],
        f: F,
    ) -> (r: Result<Option<Vec<u8>>, EngineError>)
        requires
            forall|mt: Meta, o: Option<Vec<u8>>| f.requires((&mt, &o)),
        ensures
            r is Ok ==> exists|new: Option<Vec<u8>>|
                f.ensures(
                    (&Meta { len: stored_table_len(old(self).items_view(), name@)->Some_0 }, &r->Ok_0),
                    new,
                ) && table_updated(
                    old(self).items_view(),
                    final(self).items_view(),
                    name@,
                    key@,
                    view_opt(r->Ok_0),
                    view_opt(new),
                ),
            (forall|np: bool| table_writable(old(self).items_view(), name@, key@, np)) ==> r is Ok
                || r->Err_0 is Store,
            r is Err && !(r->Err_0 is Store) ==> final(self).items_view() == old(self).items_view()
                && exists|np: bool| table_fault(old(self).items_view(), name@, key@, np, r->Err_0),
            final(self).ttl_view() == old(self).ttl_view(),
    {
        let ghost m = self.items_view();
        let (meta, prev) = match self.table_read(name, key, false) {
            Ok(read) => read,
            Err(e) => {
                proof {
                    if !(e is Store) {
                        assert(table_fault(m, name@, key@, false, e));
                        assert(!table_writable(m, name@, key@, false));
                    }
                }
                return Err(e);
            },
        };
        let new = f(&meta, &prev);
        let ghost new_g = new;
        let ghost np = new is Some;
        match self.table_commit(name, key, meta, prev.is_some(), new) {
            Ok(()) => {},
            Err(e) => {
                proof {
                    if !(e is Store) {
                        assert(table_fault(m, name@, key@, np, e));
                        assert(!table_writable(m, name@, key@, np));
                    }
                }
                return Err(e);
            },
        }
        assert(meta == Meta { len: stored_table_len(m, name@)->Some_0 });
        assert(table_updated(m, self.items_view(), name@, key@, view_opt(prev), view_opt(new_g)));
        Ok(prev)
    }

    /// Sets the entry under `key` in the table `name` to `val`; returns the
    /// former value.
    pub fn table_insert(&mut self, name: &[u8], key: &[u8], val: Vec<u8>) -> (r: Result<Option<Vec<u8>>, EngineError>)
        ensures
            r is Ok ==> table_updated(
                old(self).items_view(),
                final(self).items_view(),
                name@,
                key@,
                view_opt(r->Ok_0),
                Some(val@),
            ),
            table_writable(old(self).items_view(), name@, key@, true) ==> r is Ok || r->Err_0 is Store,
            r is Err && !(r->Err_0 is Store) ==> final(self).items_view() == old(self).items_view()
                && table_fault(old(self).items_view(), name@, key@, true, r->Err_0),
            ({
                let m = old(self).items_view();
                &&& table_wf(m, name@) && table_op_fits(m, name@, TableOp::Insert(key@, val@)) ==> r is Ok || r->Err_0 is Store
                &&& r is Ok && table_wf(m, name@) ==> table_wf(final(self).items_view(), name@)
                    && table_view(final(self).items_view(), name@) == table_view(m, name@).insert(key@, val@) && view_opt(r->Ok_0) == (
                if table_view(m, name@).contains_key(key@) {
                    Some(table_view(m, name@)[key@])
                } else {
                    None::<Seq<u8>>
                }) && same_outside(m, final(self).items_view(), name@)
            }),
            final(self).ttl_view() == old(self).ttl_view(),
    {
        proof {
            let m = self.items_view();
            if table_wf(m, name@) {
                lemma_table_get_reads_view(m, name@, key@);
                lemma_table_step_local(m, name@, TableOp::Insert(key@, val@));
                if table_op_fits(m, name@, TableOp::Insert(key@, val@)) {
                    lemma_table_step(m, name@, TableOp::Insert(key@, val@));
                }
            }
        }
        let (meta, old) = self.table_read(name, key, true)?;
        self.table_commit(name, key, meta, old.is_some(), Some(val))?;
        Ok(old)
    }

    /// Removes the entry under `key` in the table `name`; returns its value.
    pub fn table_remove(&mut self, name: &[u8], key: &[u8]) -> (r: Result<Option<Vec<u8>>, EngineError>)
        ensures
            r is Ok ==> table_updated(
                old(self).items_view(),
                final(self).items_view(),
                name@,
                key@,
                view_opt(r->Ok_0),
                None,
            ),
            table_writable(old(self).items_view(), name@, key@, false) ==> r is Ok || r->Err_0 is Store,
            r is Err && !(r->Err_0 is Store) ==> final(self).items_view() == old(self).items_view()
                && table_fault(old(self).items_view(), name@, key@, false, r->Err_0),
            ({
                let m = old(self).items_view();
                &&& table_wf(m, name@) && table_op_fits(m, name@, TableOp::Remove(key@)) ==> r is Ok || r->Err_0 is Store
                &&& r is Ok && table_wf(m, name@) ==> table_wf(final(self).items_view(), name@)
                    && table_view(final(self).items_view(), name@) == table_view(m, name@).remove(key@) && view_opt(r->Ok_0) == (
                if table_view(m, name@).contains_key(key@) {
                    Some(table_view(m, name@)[key@])
                } else {
                    None::<Seq<u8>>
                }) && same_outside(m, final(self).items_view(), name@)
            }),
            final(self).ttl_view() == old(self).ttl_view(),
    {
        proof {
            let m = self.items_view();
            if table_wf(m, name@) {
                lemma_table_get_reads_view(m, name@, key@);
                lemma_table_step_local(m, name@, TableOp::Remove(key@));
                if table_op_fits(m, name@, TableOp::Remove(key@)) {
                    lemma_table_step(m, name@, TableOp::Remove(key@));
                }
            }
        }
        let (meta, old) = self.table_read(name, key, false)?;
        self.table_commit(name, key, meta, old.is_some(), None)?;
        Ok(old)
    }
}

/// One operation on a table, as a value.
pub enum TableOp {
    Insert(Seq<u8>, Seq<u8>),
    Remove(Seq<u8>),
}

/// The keys under which the table `name` stores an entry.
pub open spec fn table_keys(m: Map<Seq<u8>, Seq<u8>>, name: Seq<u8>) -> Set<Seq<u8>> {
    Set::new(|k: Seq<u8>| m.contains_key(table_item_key(name, k)))
}

/// The entries of the stored table `name`.
pub open spec fn table_view(m: Map<Seq<u8>, Seq<u8>>, name: Seq<u8>) -> Map<Seq<u8>, Seq<u8>> {
    Map::new(
        |k: Seq<u8>| m.contains_key(table_item_key(name, k)),
        |k: Seq<u8>| tagged_payload(m[table_item_key(name, k)], Tag::Table)->Some_0,
    )
}

/// The stored table `name` is consistent: valid metadata whose length counts
/// the stored entries, stored exactly when that count is not zero, and every
/// entry a record of a table.
pub open spec fn table_wf(m: Map<Seq<u8>, Seq<u8>>, name: Seq<u8>) -> bool {
    &&& stored_table_len(m, name) is Some
    &&& table_keys(m, name).finite()
    &&& table_keys(m, name).len() == stored_table_len(m, name)->Some_0
    &&& m.contains_key(meta_key(name)) <==> stored_table_len(m, name)->Some_0 > 0
    &&& forall|k: Seq<u8>|
        #![trigger table_item_key(name, k)]
        m.contains_key(table_item_key(name, k)) ==> tagged_payload(m[table_item_key(name, k)], Tag::Table) is Some
}

/// What one operation does to the stored entries, as the table operations of
/// the connection state it.
pub open spec fn table_step(m: Map<Seq<u8>, Seq<u8>>, name: Seq<u8>, op: TableOp) -> Map<Seq<u8>, Seq<u8>> {
    let len = stored_table_len(m, name)->Some_0;
    match op {
        TableOp::Insert(k, v) => table_written(
            m,
            name,
            k,
            next_table_len(len, m.contains_key(table_item_key(name, k)), true) as u64,
            Some(v),
        ),
        TableOp::Remove(k) => table_written(
            m,
            name,
            k,
            next_table_len(len, m.contains_key(table_item_key(name, k)), false) as u64,
            None,
        ),
    }
}

/// What one operation does to a map.
pub open spec fn map_step(t: Map<Seq<u8>, Seq<u8>>, op: TableOp) -> Map<Seq<u8>, Seq<u8>> {
    match op {
        TableOp::Insert(k, v) => t.insert(k, v),
        TableOp::Remove(k) => t.remove(k),
    }
}

pub open spec fn table_run(m: Map<Seq<u8>, Seq<u8>>, name: Seq<u8>, ops: Seq<TableOp>) -> Map<Seq<u8>, Seq<u8>>
    decreases ops.len(),
{
    if ops.len() == 0 {
        m
    } else {
        table_step(table_run(m, name, ops.drop_last()), name, ops.last())
    }
}

pub open spec fn map_run(t: Map<Seq<u8>, Seq<u8>>, ops: Seq<TableOp>) -> Map<Seq<u8>, Seq<u8>>
    decreases ops.len(),
{
    if ops.len() == 0 {
        t
    } else {
        map_step(map_run(t, ops.drop_last()), ops.last())
    }
}

/// The operation keeps the count in range: an insert under a new key does
/// not find the count at its largest.
pub open spec fn table_op_fits(m: Map<Seq<u8>, Seq<u8>>, name: Seq<u8>, op: TableOp) -> bool {
    match op {
        TableOp::Insert(k, _) => m.contains_key(table_item_key(name, k)) || stored_table_len(m, name)->Some_0
            < u64::MAX,
        TableOp::Remove(_) => true,
    }
}

/// Every operation of `ops`, run in turn from `m`, keeps the count in range.
pub open spec fn table_ops_fit(m: Map<Seq<u8>, Seq<u8>>, name: Seq<u8>, ops: Seq<TableOp>) -> bool
    decreases ops.len(),
{
    ops.len() == 0 || (table_ops_fit(m, name, ops.drop_last()) && table_op_fits(
        table_run(m, name, ops.drop_last()),
        name,
        ops.last(),
    ))
}

/// A name with no metadata and no entries holds the consistent, empty table.
pub proof fn lemma_empty_table(m: Map<Seq<u8>, Seq<u8>>, name: Seq<u8>)
    requires
        !m.contains_key(meta_key(name)),
        forall|k: Seq<u8>| !m.contains_key(#[trigger] table_item_key(name, k)),
    ensures
        table_wf(m, name),
        table_view(m, name) == Map::<Seq<u8>, Seq<u8>>::empty(),
{
    assert(table_keys(m, name) =~= Set::<Seq<u8>>::empty());
    assert(table_view(m, name) =~= Map::<Seq<u8>, Seq<u8>>::empty());
}

/// One operation keeps the stored table consistent and changes its entries
/// as the same operation changes a map.
pub proof fn lemma_table_step(m: Map<Seq<u8>, Seq<u8>>, name: Seq<u8>, op: TableOp)
    requires
        table_wf(m, name),
        table_op_fits(m, name, op),
    ensures
        table_wf(table_step(m, name, op), name),
        table_view(table_step(m, name, op), name) == map_step(table_view(m, name), op),
{
    let len = stored_table_len(m, name)->Some_0;
    let mk = meta_key(name);
    let (k, new) = match op {
        TableOp::Insert(k, v) => (k, Some(v)),
        TableOp::Remove(k) => (k, None),
    };
    let ik = table_item_key(name, k);
    let present = m.contains_key(ik);
    let next = next_table_len(len, present, new is Some);
    let m2 = table_step(m, name, op);
    assert(m2 == table_written(m, name, k, next as u64, new));
    assert forall|a: Seq<u8>| #[trigger] table_item_key(name, a) != mk by {
        lemma_table_item_keys(name, a, a);
    }
    assert forall|a: Seq<u8>| #![trigger table_item_key(name, a)]
        table_item_key(name, a) == ik ==> a == k by {
        lemma_table_item_keys(name, a, k);
    }
    if present {
        assert(table_keys(m, name).contains(k));
    }
    // the metadata reads back as the new count
    if next > 0 {
        lemma_parse_record_bytes(Tag::Table, be_bytes(next as nat, 8));
        lemma_be_bytes_len(next as nat, 8);
        lemma_be_value_of_bytes(next as nat, 8);
        lemma_pow256_values();
        assert(stored_table_len(m2, name) == Some(next as u64));
    } else {
        assert(stored_table_len(m2, name) == Some(0u64));
    }
    let keys2 = match new {
        Some(_) => table_keys(m, name).insert(k),
        None => table_keys(m, name).remove(k),
    };
    assert(table_keys(m2, name) =~= keys2);
    assert forall|a: Seq<u8>| #![trigger table_item_key(name, a)]
        m2.contains_key(table_item_key(name, a)) implies tagged_payload(m2[table_item_key(name, a)], Tag::Table) is Some by {
        if a == k {
            lemma_parse_record_bytes(Tag::Table, new->Some_0);
        }
    }
    assert forall|a: Seq<u8>| #[trigger] table_view(m2, name).contains_key(a) == map_step(table_view(m, name), op).contains_key(a) by {
    }
    assert forall|a: Seq<u8>| table_view(m2, name).contains_key(a) implies #[trigger] table_view(m2, name)[a] == map_step(table_view(m, name), op)[a] by {
        if a == k {
            lemma_parse_record_bytes(Tag::Table, new->Some_0);
        }
    }
    assert(table_view(m2, name) =~= map_step(table_view(m, name), op));
}

/// Any sequence of operations on a consistent stored table, none of which
/// finds the count out of range, keeps it consistent and leaves it holding
/// what the same operations leave in a map that held its entries; its length
/// is the number of keys in that map.
pub proof fn lemma_table_ops_follow_map(m: Map<Seq<u8>, Seq<u8>>, name: Seq<u8>, ops: Seq<TableOp>)
    requires
        table_wf(m, name),
        table_ops_fit(m, name, ops),
    ensures
        table_wf(table_run(m, name, ops), name),
        table_view(table_run(m, name, ops), name) == map_run(table_view(m, name), ops),
        map_run(table_view(m, name), ops).dom().finite(),
        stored_table_len(table_run(m, name, ops), name)->Some_0 == map_run(
            table_view(m, name),
            ops,
        ).dom().len(),
{
    lemma_table_run(m, name, ops);
    let m2 = table_run(m, name, ops);
    assert(table_view(m2, name).dom() =~= table_keys(m2, name));
}

proof fn lemma_table_run(m: Map<Seq<u8>, Seq<u8>>, name: Seq<u8>, ops: Seq<TableOp>)
    requires
        table_wf(m, name),
        table_ops_fit(m, name, ops),
    ensures
        table_wf(table_run(m, name, ops), name),
        table_view(table_run(m, name, ops), name) == map_run(table_view(m, name), ops),
    decreases ops.len(),
{
    if ops.len() > 0 {
        lemma_table_run(m, name, ops.drop_last());
        lemma_table_step(table_run(m, name, ops.drop_last()), name, ops.last());
    }
}

/// After any sequence of operations on a consistent stored table, none of
/// which finds the count out of range, the length counts the stored entries
/// and the metadata is stored exactly when the length is not zero.
pub proof fn lemma_table_ops_keep_count(m: Map<Seq<u8>, Seq<u8>>, name: Seq<u8>, ops: Seq<TableOp>)
    requires
        table_wf(m, name),
        table_ops_fit(m, name, ops),
    ensures
        ({
            let m2 = table_run(m, name, ops);
            let len = stored_table_len(m2, name)->Some_0;
            &&& table_keys(m2, name).finite()
            &&& table_keys(m2, name).len() == len
            &&& m2.contains_key(meta_key(name)) <==> len > 0
        }),
{
    lemma_table_run(m, name, ops);
}

/// On a consistent stored table, what `table_get` reads is the entry of the
/// table's map under that key.
pub proof fn lemma_table_get_reads_view(m: Map<Seq<u8>, Seq<u8>>, name: Seq<u8>, key: Seq<u8>)
    requires
        table_wf(m, name),
    ensures
        typed_read(m, table_item_key(name, key), Tag::Table) == Some(
            if table_view(m, name).contains_key(key) {
                Some(table_view(m, name)[key])
            } else {
                None::<Seq<u8>>
            },
        ),
{
    let k = table_item_key(name, key);
    if m.contains_key(k) {
        assert(tagged_payload(m[k], Tag::Table) is Some);
    }
}

/// A table operation on `name` writes only keys of `name`.
pub proof fn lemma_table_step_local(m: Map<Seq<u8>, Seq<u8>>, name: Seq<u8>, op: TableOp)
    ensures
        same_outside(m, table_step(m, name, op), name),
{
    let k = match op {
        TableOp::Insert(k, _) => k,
        TableOp::Remove(k) => k,
    };
    lemma_prefix_closure(name, LogicalKey::Table(name, k));
    lemma_prefix_closure(name, LogicalKey::TableMeta(name));
}

/// A store that holds the same under every key of `name` holds the same
/// table `name`.
pub proof fn lemma_table_depends_on_own_keys(m: Map<Seq<u8>, Seq<u8>>, m2: Map<Seq<u8>, Seq<u8>>, other: Seq<u8>, name: Seq<u8>)
    requires
        same_outside(m, m2, other),
        other != name,
    ensures
        stored_table_len(m2, name) == stored_table_len(m, name),
        table_wf(m2, name) == table_wf(m, name),
        table_wf(m, name) ==> table_view(m2, name) == table_view(m, name),
{
    lemma_prefix_closure(other, LogicalKey::TableMeta(name));
    assert(lookup(m2, meta_key(name)) == lookup(m, meta_key(name)));
    assert forall|k: Seq<u8>| #![trigger table_item_key(name, k)]
        m2.contains_key(table_item_key(name, k)) == m.contains_key(table_item_key(name, k)) && (
        m.contains_key(table_item_key(name, k)) ==> m2[table_item_key(name, k)] == m[table_item_key(
            name,
            k,
        )]) by {
        lemma_prefix_closure(other, LogicalKey::Table(name, k));
        assert(lookup(m2, table_item_key(name, k)) == lookup(m, table_item_key(name, k)));
    }
    assert(stored_table_len(m2, name) == stored_table_len(m, name));
    assert(table_keys(m2, name) =~= table_keys(m, name));
    assert(table_view(m2, name) =~= table_view(m, name));
}

/// Operations on one table leave every other name's table as it was.
pub proof fn lemma_table_ops_leave_other_names(m: Map<Seq<u8>, Seq<u8>>, name: Seq<u8>, ops: Seq<TableOp>, other: Seq<u8>)
    requires
        other != name,
    ensures
        table_wf(table_run(m, name, ops), other) == table_wf(m, other),
        table_wf(m, other) ==> table_view(table_run(m, name, ops), other) == table_view(m, other),
    decreases ops.len(),
{
    if ops.len() > 0 {
        let mid = table_run(m, name, ops.drop_last());
        lemma_table_ops_leave_other_names(m, name, ops.drop_last(), other);
        lemma_table_step_local(mid, name, ops.last());
        lemma_table_depends_on_own_keys(mid, table_step(mid, name, ops.last()), name, other);
    }
}

} // verus!
