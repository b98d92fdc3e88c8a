//! The connection: the items tree, the tree of expiry hints, reading
//! records, and removing whole containers.
use vstd::prelude::*;
use crate::error::EngineError;
use crate::keys::{
    bare, bare_key, lemma_prefix_closure, list_item_key, list_meta, meta_key, table_item_key,
    LogicalKey,
};
use crate::list::{lemma_empty_list, list_view, list_wf, same_outside};
use crate::table::{lemma_empty_table, table_view, table_wf};
use crate::record::{parse_record, tagged_payload, Record, Tag};
use crate::store::{
    no_entries, view_opt, apply_writes, batch_remove, batch_writes, config_open, db_open_tree, new_batch, tree_apply_batch,
    tree_clear, tree_contents, tree_flush, tree_get, tree_scan_prefix_keys,
};

verus! {

/// What reading the record stored under `k` in `m` may give.
pub open spec fn record_read(m: Map<Seq<u8>, Seq<u8>>, k: Seq<u8>, r: Result<Option<Record>, EngineError>) -> bool {
    match r {
        Ok(None) => !m.contains_key(k),
        Ok(Some(rec)) => m.contains_key(k) && rec.wf() && parse_record(m[k]) == Ok::<
            (Tag, Seq<u8>),
            crate::record::RecordError,
        >((rec.tag_spec(), rec.payload())),
        Err(e) => e is Store || (m.contains_key(k) && parse_record(m[k]) is Err && e
            == EngineError::Record(parse_record(m[k])->Err_0)),
    }
}

/// The entry under `k` is absent or a record.
pub open spec fn readable(m: Map<Seq<u8>, Seq<u8>>, k: Seq<u8>) -> bool {
    m.contains_key(k) ==> parse_record(m[k]) is Ok
}

/// What reading a value tagged `t` under `k` gives: `Some(None)` for no
/// entry, `Some(Some(payload))` for a record tagged `t`, and `None` for
/// anything else.
pub open spec fn typed_read(m: Map<Seq<u8>, Seq<u8>>, k: Seq<u8>, t: Tag) -> Option<Option<Seq<u8>>> {
    if !m.contains_key(k) {
        Some(None)
    } else {
        match tagged_payload(m[k], t) {
            Some(p) => Some(Some(p)),
            None => None,
        }
    }
}

/// The error that reading stored bytes `raw` as a record tagged `t` gives.
pub open spec fn typed_fault(raw: Seq<u8>, t: Tag, e: EngineError) -> bool {
    match parse_record(raw) {
        Err(re) => e == EngineError::Record(re),
        Ok((t2, _)) => t2 != t && e == EngineError::BadType(t, t2),
    }
}

/// Where the kind of the container `name` is read: its bare key if that is
/// stored, else its metadata key.
pub open spec fn kind_key(m: Map<Seq<u8>, Seq<u8>>, name: Seq<u8>) -> Seq<u8> {
    if m.contains_key(bare_key(name)) {
        bare_key(name)
    } else {
        meta_key(name)
    }
}

/// `name` holds a list or a table.
pub open spec fn holds_collection(m: Map<Seq<u8>, Seq<u8>>, name: Seq<u8>) -> bool {
    let k = kind_key(m, name);
    m.contains_key(k) && parse_record(m[k]) is Ok && parse_record(m[k])->Ok_0.0 != Tag::Blob
}

/// The writes that remove the container `name`: every key under its prefix
/// for a list or a table, its bare key otherwise.
pub open spec fn removal_writes(m: Map<Seq<u8>, Seq<u8>>, name: Seq<u8>) -> Map<
    Seq<u8>,
    Option<Seq<u8>>,
> {
    if holds_collection(m, name) {
        Map::new(
            |k: Seq<u8>| m.contains_key(k) && bare_key(name).is_prefix_of(k),
            |k: Seq<u8>| None,
        )
    } else {
        Map::empty().insert(bare_key(name), None)
    }
}

/// A handle on the store: the items tree, which is the source of truth, and
/// the tree of expiry hints that mirrors removals.
///
/// Opening takes sled's exclusive lock on the database, and the trees never
/// leave the handle, so nothing else writes them while it lives. Every write
/// goes through `&mut self`: each operation reads, decides and applies its
/// one batch as a single step.
pub struct Conn {
    db: sled::Db,
    items: sled::Tree,
    ttl: sled::Tree,
}

impl Conn {
    /// The entries of the items tree.
    pub closed spec fn items_view(&self) -> Map<Seq<u8>, Seq<u8>> {
        tree_contents(self.items)
    }

    /// The entries of the expiry tree.
    pub closed spec fn ttl_view(&self) -> Map<Seq<u8>, Seq<u8>> {
        tree_contents(self.ttl)
    }

    /// Opens the database that `c` describes, with its two trees.
    pub fn with_config(c: &sled::Config) -> (r: Result<Conn, sled::Error>) {
        let db = config_open(c)?;
        let items = db_open_tree(&db, "items")?;
        let ttl = db_open_tree(&db, "ttl")?;
        Ok(Conn { db, items, ttl })
    }

    /// Removes every entry of both trees.
    pub fn clear(&mut self) -> (r: Result<(), sled::Error>)
        ensures
            r is Ok ==> final(self).items_view() == no_entries() && final(self).ttl_view()
                == no_entries(),
    {
        tree_clear(&mut self.items)?;
        tree_clear(&mut self.ttl)?;
        Ok(())
    }

    /// Writes both trees out to disk.
    pub fn flush(&self) -> (r: Result<(), sled::Error>) {
        tree_flush(&self.items)?;
        tree_flush(&self.ttl)?;
        Ok(())
    }

    /// The record stored under `key`.
    pub(crate) fn get_record(&self, key: &[u8]) -> (r: Result<Option<Record>, EngineError>)
        ensures
            record_read(self.items_view(), key@, r),
            readable(self.items_view(), key@) ==> r is Ok || r->Err_0 is Store,
    {
        let res = match tree_get(&self.items, key) {
            Ok(v) => v,
            Err(e) => {
                return Err(EngineError::Store(e));
            },
        };
        match res {
            None => Ok(None),
            Some(iv) => match Record::decode(iv) {
                Ok(rec) => Ok(Some(rec)),
                Err(e) => Err(EngineError::Record(e)),
            },
        }
    }

    /// The payload stored under `key` in a record tagged `t`.
    pub(crate) fn get_typed(&self, key: &[u8], t: Tag) -> (r: Result<Option<Vec<u8>>, EngineError>)
        ensures
            r is Ok ==> typed_read(self.items_view(), key@, t) == Some(view_opt(r->Ok_0)),
            typed_read(self.items_view(), key@, t) is Some ==> r is Ok || r->Err_0 is Store,
            r is Err && !(r->Err_0 is Store) ==> self.items_view().contains_key(key@) && typed_fault(
                self.items_view()[key@],
                t,
                r->Err_0,
            ),
    {
        match self.get_record(key)? {
            None => Ok(None),
            Some(rec) => {
                let found = rec.tag();
                if found != t {
                    Err(EngineError::BadType(t, found))
                } else {
                    Ok(Some(rec.data()))
                }
            },
        }
    }

    /// Applies a batch to the items tree.
    pub(crate) fn apply_items(&mut self, b: sled::Batch) -> (r: Result<(), EngineError>)
        ensures
            r is Ok ==> final(self).items_view() == apply_writes(
                old(self).items_view(),
                batch_writes(b),
            ),
            r is Err ==> r->Err_0 is Store,
            final(self).ttl_view() == old(self).ttl_view(),
    {
        match tree_apply_batch(&mut self.items, b) {
            Ok(()) => Ok(()),
            Err(e) => Err(EngineError::Store(e)),
        }
    }

    /// Applies a batch to the expiry tree.
    pub(crate) fn apply_ttl(&mut self, b: sled::Batch) -> (r: Result<(), EngineError>)
        ensures
            r is Ok ==> final(self).ttl_view() == apply_writes(old(self).ttl_view(), batch_writes(b)),
            r is Err ==> r->Err_0 is Store,
            final(self).items_view() == old(self).items_view(),
    {
        match tree_apply_batch(&mut self.ttl, b) {
            Ok(()) => Ok(()),
            Err(e) => Err(EngineError::Store(e)),
        }
    }

    /// Reads the kind of the container `name` and builds two equal batches
    /// (for the items tree and the expiry tree) that remove it. Returns the
    /// record that the kind was read from.
    pub(crate) fn raw_remove_item(&self, name: &[u8]) -> (r: Result<
        (Option<Record>, sled::Batch, sled::Batch),
        EngineError,
    >)
        ensures
            match r {
                Ok((rec, b1, b2)) => {
                    &&& record_read(
                        self.items_view(),
                        kind_key(self.items_view(), name@),
                        Ok(rec),
                    )
                    &&& batch_writes(b1) == removal_writes(self.items_view(), name@)
                    &&& batch_writes(b2) == removal_writes(self.items_view(), name@)
                },
                Err(e) => record_read(
                    self.items_view(),
                    kind_key(self.items_view(), name@),
                    Err(e),
                ),
            },
            readable(self.items_view(), kind_key(self.items_view(), name@)) ==> r is Ok
                || r->Err_0 is Store,
    {
        let key = bare(name);
        let mut rec = self.get_record(key.as_slice())?;
        if rec.is_none() {
            let mkey = list_meta(name);
            rec = self.get_record(mkey.as_slice())?;
        }
        let ghost m = self.items_view();
        let is_collection = match &rec {
            Some(r) => !matches!(r.tag(), Tag::Blob),
            None => false,
        };
        let mut b1 = new_batch();
        let mut b2 = new_batch();
        if is_collection {
            let scanned = tree_scan_prefix_keys(&self.items, key.as_slice());
            let keys = match scanned {
                Ok(ks) => ks,
                Err(e) => {
                    return Err(EngineError::Store(e));
                },
            };
            let mut i: usize = 0;
            while i < keys.len()
                invariant
                    i <= keys@.len(),
                    forall|k: Seq<u8>|
                        #[trigger] batch_writes(b1).contains_key(k) <==> exists|j: int|
                            0 <= j < i && keys@[j]@ == k,
                    forall|k: Seq<u8>|
                        #[trigger] batch_writes(b1).contains_key(k) ==> batch_writes(b1)[k] is None,
                    batch_writes(b2) == batch_writes(b1),
                decreases keys@.len() - i,
            {
                batch_remove(&mut b1, keys[i].as_slice());
                batch_remove(&mut b2, keys[i].as_slice());
                proof {
                    assert forall|k: Seq<u8>|
                        #[trigger] batch_writes(b1).contains_key(k) <==> exists|j: int|
                            0 <= j < i + 1 && keys@[j]@ == k by {
                        if k == keys@[i as int]@ {
                            assert(exists|j: int| 0 <= j < i + 1 && keys@[j]@ == k);
                        }
                    }
                }
                i += 1;
            }
            proof {
                assert(holds_collection(m, name@));
                let w = removal_writes(m, name@);
                assert forall|k: Seq<u8>| #[trigger] batch_writes(b1).contains_key(k) <==> w.contains_key(k) by {
                    if w.contains_key(k) {
                        assert(m.contains_key(k));
                        assert(exists|j: int| 0 <= j < keys@.len() && keys@[j]@ == k);
                    }
                    if batch_writes(b1).contains_key(k) {
                        let j = choose|j: int| 0 <= j < i && keys@[j]@ == k;
                        assert(keys@[j]@ == k);
                    }
                }
                assert(batch_writes(b1) =~= w);
            }
        } else {
            batch_remove(&mut b1, key.as_slice());
            batch_remove(&mut b2, key.as_slice());
            assert(batch_writes(b1) =~= removal_writes(m, name@));
        }
        Ok((rec, b1, b2))
    }

    /// Removes the container `name`, whatever its kind, from the items tree,
    /// and the same keys from the expiry tree. Returns the record that its
    /// kind was read from.
    pub fn remove_item(&mut self, name: &[u8]) -> (r: Result<Option<Record>, EngineError>)
        ensures
            ({
                let m = old(self).items_view();
                match r {
                    Ok(rec) => {
                        &&& record_read(m, kind_key(m, name@), Ok(rec))
                        &&& final(self).items_view() == apply_writes(m, removal_writes(m, name@))
                        &&& final(self).ttl_view() == apply_writes(
                            old(self).ttl_view(),
                            removal_writes(m, name@),
                        )
                    },
                    Err(e) => e is Store || (record_read(m, kind_key(m, name@), Err(e))
                        && final(self).items_view() == m && final(self).ttl_view() == old(
                        self,
                    ).ttl_view()),
                }
            }),
            readable(old(self).items_view(), kind_key(old(self).items_view(), name@)) ==> r is Ok
                || r->Err_0 is Store,
    {
        let (old_rec, b1, b2) = self.raw_remove_item(name)?;
        self.apply_items(b1)?;
        // the two trees are not written atomically together: a failure here
        // leaves expiry hints behind, which are only hints
        self.apply_ttl(b2)?;
        Ok(old_rec)
    }
}

/// Removing a container writes only keys of its name; removing a list or a
/// table leaves no key of the name at all, so the name then reads as the
/// empty list and the empty table.
pub proof fn lemma_removal(m: Map<Seq<u8>, Seq<u8>>, name: Seq<u8>)
    ensures
        same_outside(m, apply_writes(m, removal_writes(m, name)), name),
        holds_collection(m, name) ==> forall|k: Seq<u8>|
            bare_key(name).is_prefix_of(k) ==> !#[trigger] apply_writes(m, removal_writes(m, name)).contains_key(k),
        holds_collection(m, name) ==> list_wf(apply_writes(m, removal_writes(m, name)), name)
            && list_view(apply_writes(m, removal_writes(m, name)), name)
            == Seq::<Seq<u8>>::empty(),
        holds_collection(m, name) ==> table_wf(apply_writes(m, removal_writes(m, name)), name)
            && table_view(apply_writes(m, removal_writes(m, name)), name)
            == Map::<Seq<u8>, Seq<u8>>::empty(),
{
    let m2 = apply_writes(m, removal_writes(m, name));
    let b = bare_key(name);
    assert(b.is_prefix_of(b)) by {
        assert(b.subrange(0, b.len() as int) =~= b);
    }
    if holds_collection(m, name) {
        lemma_prefix_closure(name, LogicalKey::ListMeta(name));
        assert forall|ix: i128| !m2.contains_key(#[trigger] list_item_key(name, ix)) by {
            lemma_prefix_closure(name, LogicalKey::List(name, ix));
        }
        assert forall|k: Seq<u8>| !m2.contains_key(#[trigger] table_item_key(name, k)) by {
            lemma_prefix_closure(name, LogicalKey::Table(name, k));
        }
        lemma_empty_list(m2, name);
        lemma_empty_table(m2, name);
    }
}

} // verus!
