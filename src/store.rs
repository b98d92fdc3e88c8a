//! The ordered byte store underneath: sled's trees and batches, seen through
//! the maps of bytes to bytes that they hold.
use vstd::prelude::*;

verus! {

#[verifier::external_type_specification]
#[verifier::external_body]
pub struct ExTree(sled::Tree);

#[verifier::external_type_specification]
#[verifier::external_body]
pub struct ExDb(sled::Db);

#[verifier::external_type_specification]
#[verifier::external_body]
pub struct ExBatch(sled::Batch);

#[verifier::external_type_specification]
#[verifier::external_body]
pub struct ExConfig(sled::Config);

#[verifier::external_type_specification]
#[verifier::external_body]
pub struct ExSledError(sled::Error);

/// The entries of a tree: key bytes to value bytes.
pub uninterp spec fn tree_contents(t: sled::Tree) -> Map<Seq<u8>, Seq<u8>>;

/// The writes of a batch: a key to its new value, or to `None` for removal.
pub uninterp spec fn batch_writes(b: sled::Batch) -> Map<Seq<u8>, Option<Seq<u8>>>;

/// The entries after every write of `w` has been applied to `m`.
pub open spec fn apply_writes(m: Map<Seq<u8>, Seq<u8>>, w: Map<Seq<u8>, Option<Seq<u8>>>) -> Map<
    Seq<u8>,
    Seq<u8>,
> {
    Map::new(
        |k: Seq<u8>|
            if w.contains_key(k) {
                w[k] is Some
            } else {
                m.contains_key(k)
            },
        |k: Seq<u8>|
            if w.contains_key(k) {
                w[k]->Some_0
            } else {
                m[k]
            },
    )
}

/// A store with no entries.
pub open spec fn no_entries() -> Map<Seq<u8>, Seq<u8>> {
    Map::empty()
}

/// A batch with no writes.
pub open spec fn no_writes() -> Map<Seq<u8>, Option<Seq<u8>>> {
    Map::empty()
}

/// What `m` holds under `k`, if anything.
pub open spec fn lookup(m: Map<Seq<u8>, Seq<u8>>, k: Seq<u8>) -> Option<Seq<u8>> {
    if m.contains_key(k) {
        Some(m[k])
    } else {
        None
    }
}

pub open spec fn view_opt(o: Option<Vec<u8>>) -> Option<Seq<u8>> {
    match o {
        Some(v) => Some(v@),
        None => None,
    }
}

/// Relies on sled::Batch::default: a new batch holds no writes.
#[verifier::external_body]
pub(crate) fn new_batch() -> (b: sled::Batch)
    ensures
        batch_writes(b) == no_writes(),
{
    sled::Batch::default()
}

/// Relies on sled::Batch::insert: the batch's write of `key` becomes a put of
/// `value`, replacing an earlier write of that key.
#[verifier::external_body]
pub(crate) fn batch_insert(b: &mut sled::Batch, key: &[u8], value: Vec<u8>)
    ensures
        batch_writes(*final(b)) == batch_writes(*old(b)).insert(key@, Some(value@)),
{
    b.insert(key, value)
}

/// Relies on sled::Batch::remove: the batch's write of `key` becomes a
/// removal, replacing an earlier write of that key.
#[verifier::external_body]
pub(crate) fn batch_remove(b: &mut sled::Batch, key: &[u8])
    ensures
        batch_writes(*final(b)) == batch_writes(*old(b)).insert(key@, None),
{
    b.remove(key)
}

/// Relies on sled::Tree::get: the value stored under `key`, if any.
#[verifier::external_body]
pub(crate) fn tree_get(t: &sled::Tree, key: &[u8]) -> (r: Result<Option<Vec<u8>>, sled::Error>)
    ensures
        r is Ok ==> view_opt(r->Ok_0) == lookup(tree_contents(*t), key@),
{
    t.get(key).map(|o| o.map(|v| v.to_vec()))
}

/// Relies on sled::Tree::apply_batch: on success every write of the batch
/// has been applied.
#[verifier::external_body]
pub(crate) fn tree_apply_batch(t: &mut sled::Tree, b: sled::Batch) -> (r: Result<(), sled::Error>)
    ensures
        r is Ok ==> tree_contents(*final(t)) == apply_writes(tree_contents(*old(t)), batch_writes(b)),
{
    t.apply_batch(b)
}

/// Relies on sled::Tree::scan_prefix: the keys stored that start with
/// `prefix`, each once.
#[verifier::external_body]
pub(crate) fn tree_scan_prefix_keys(t: &sled::Tree, prefix: &[u8]) -> (r: Result<
    Vec<Vec<u8>>,
    sled::Error,
>)
    ensures
        r is Ok ==> forall|i: int|
            0 <= i < r->Ok_0@.len() ==> tree_contents(*t).contains_key(#[trigger] r->Ok_0@[i]@)
                && prefix@.is_prefix_of(r->Ok_0@[i]@),
        r is Ok ==> forall|k: Seq<u8>|
            #![trigger tree_contents(*t).contains_key(k)]
            tree_contents(*t).contains_key(k) && prefix@.is_prefix_of(k) ==> exists|i: int|
                0 <= i < r->Ok_0@.len() && r->Ok_0@[i]@ == k,
{
    t.scan_prefix(prefix).keys().map(|k| k.map(|v| v.to_vec())).collect()
}

/// Relies on sled::Tree::clear: on success the tree holds nothing.
#[verifier::external_body]
pub(crate) fn tree_clear(t: &mut sled::Tree) -> (r: Result<(), sled::Error>)
    ensures
        r is Ok ==> tree_contents(*final(t)) == no_entries(),
{
    t.clear()
}

/// Relies on sled::Tree::flush: writes out dirty buffers; the entries stay.
#[verifier::external_body]
pub(crate) fn tree_flush(t: &sled::Tree) -> (r: Result<usize, sled::Error>) {
    t.flush()
}

/// Relies on sled::Config::open: opens or creates the database.
#[verifier::external_body]
pub(crate) fn config_open(c: &sled::Config) -> (r: Result<sled::Db, sled::Error>) {
    c.open()
}

/// Relies on sled::Db::open_tree: opens or creates the named tree.
#[verifier::external_body]
pub(crate) fn db_open_tree(db: &sled::Db, name: &str) -> (r: Result<sled::Tree, sled::Error>) {
    db.open_tree(name)
}

} // verus!
