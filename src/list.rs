//! Double-ended lists: a metadata record `(head, len)` and one item key per
//! physical index in `head .. head + len`.
use vstd::prelude::*;
use crate::conn::{typed_fault, typed_read, Conn};
use crate::endian::{
    be_bytes, be_value, lemma_be_bytes_len, lemma_be_value_bound, lemma_be_value_of_bytes,
    lemma_pow256_values, push_be, read_be,
};
use crate::error::EngineError;
use crate::keys::{
    bare_key, index_bias, lemma_list_item_keys, lemma_prefix_closure, list, list_item_key, list_meta,
    meta_key, ListIndex, LogicalKey, INDEX_BYTES,
};
use crate::record::{
    lemma_parse_record_bytes, parse_record, record_bytes, tagged_payload, Record, Tag,
};
use crate::store::{batch_insert, batch_remove, lookup, new_batch, view_opt};

verus! {

pub const META_SIZE: usize = 24;

/// `2^128`.
pub open spec fn two_128() -> int {
    2 * index_bias()
}

/// The unsigned number whose bits are the two's complement of `x`.
pub open spec fn twos_complement(x: int) -> nat {
    if x >= 0 {
        x as nat
    } else {
        (x + two_128()) as nat
    }
}

/// The signed number whose two's complement bits spell `u`.
pub open spec fn from_twos_complement(u: nat) -> int {
    if u >= index_bias() {
        u - two_128()
    } else {
        u as int
    }
}

/// The metadata of a list: the physical index of its first item and its
/// number of items.
#[derive(Clone, Copy, Debug, PartialEq, Eq, Structural)]
pub struct Meta {
    pub head: ListIndex,
    pub len: u64,
}

/// The 24 payload bytes of a list's metadata: head, then length, big-endian.
pub open spec fn meta_bytes(m: Meta) -> Seq<u8> {
    be_bytes(twos_complement(m.head as int), 16) + be_bytes(m.len as nat, 8)
}

/// The metadata that 24 payload bytes spell.
pub open spec fn meta_of_bytes(p: Seq<u8>) -> Meta {
    Meta {
        head: from_twos_complement(be_value(p.subrange(0, 16))) as i128,
        len: be_value(p.subrange(16, 24)) as u64,
    }
}

/// Every physical index of the list, `head .. head + len`, is an `i128`.
pub open spec fn fits(m: Meta) -> bool {
    m.head + m.len <= i128::MAX + 1
}

pub open spec fn empty_meta() -> Meta {
    Meta { head: 0, len: 0 }
}

/// Reading back written metadata gives it back.
pub proof fn lemma_meta_round_trip(m: Meta)
    ensures
        meta_bytes(m).len() == 24,
        meta_of_bytes(meta_bytes(m)) == m,
{
    let h = twos_complement(m.head as int);
    lemma_be_bytes_len(h, 16);
    lemma_be_bytes_len(m.len as nat, 8);
    lemma_be_value_of_bytes(h, 16);
    lemma_be_value_of_bytes(m.len as nat, 8);
    lemma_pow256_values();
    let p = meta_bytes(m);
    assert(p.subrange(0, 16) =~= be_bytes(h, 16));
    assert(p.subrange(16, 24) =~= be_bytes(m.len as nat, 8));
}

impl Meta {
    /// The payload bytes: head and length, big-endian.
    pub fn encode(self) -> (r: [u8; META_SIZE])
        ensures
            r@ == meta_bytes(self),
    {
        let v = self.encode_vec();
        proof {
            lemma_meta_round_trip(self);
        }
        let mut out = [0u8; META_SIZE];
        let mut j: usize = 0;
        while j < META_SIZE
            invariant
                j <= 24,
                v@.len() == 24,
                out@.len() == 24,
                forall|m: int| 0 <= m < j ==> out@[m] == v@[m],
            decreases 24 - j,
        {
            out[j] = v[j];
            j += 1;
        }
        assert(out@ =~= v@);
        out
    }

    pub(crate) fn encode_vec(self) -> (r: Vec<u8>)
        ensures
            r@ == meta_bytes(self),
    {
        let h: u128 = if self.head < 0 {
            (self.head - i128::MIN) as u128 + 0x8000_0000_0000_0000_0000_0000_0000_0000u128
        } else {
            self.head as u128
        };
        let mut out: Vec<u8> = Vec::with_capacity(META_SIZE);
        push_be(&mut out, h, INDEX_BYTES);
        push_be(&mut out, self.len as u128, 8);
        proof {
            lemma_be_bytes_len(h as nat, 16);
            lemma_be_bytes_len(self.len as nat, 8);
            assert(out@ =~= meta_bytes(self));
        }
        out
    }

    /// The metadata that exactly `META_SIZE` bytes spell.
    pub fn decode(inp: &[u8]) -> (r: Option<Self>)
        ensures
            r == if inp@.len() == 24 {
                Some(meta_of_bytes(inp@))
            } else {
                None::<Meta>
            },
    {
        if inp.len() != META_SIZE {
            return None;
        }
        let h = read_be(inp, 0, INDEX_BYTES);
        let l = read_be(inp, INDEX_BYTES, META_SIZE);
        proof {
            lemma_be_value_bound(inp@.subrange(16, 24));
            lemma_pow256_values();
        }
        let head: i128 = if h >= 0x8000_0000_0000_0000_0000_0000_0000_0000u128 {
            (h - 0x8000_0000_0000_0000_0000_0000_0000_0000u128) as i128 + i128::MIN
        } else {
            h as i128
        };
        Some(Meta { head, len: l as u64 })
    }

    /// The physical index of the item at logical position `ix`.
    pub fn mk_key(&self, ix: u64) -> (r: Option<ListIndex>)
        requires
            fits(*self),
        ensures
            r == if ix < self.len {
                Some((self.head + ix) as i128)
            } else {
                None::<i128>
            },
    {
        if ix < self.len {
            Some(self.head + ix as ListIndex)
        } else {
            None
        }
    }

    /// The physical index of the first item.
    pub fn head_ix(&self) -> (r: Option<ListIndex>)
        ensures
            r == if self.len != 0 {
                Some(self.head)
            } else {
                None::<i128>
            },
    {
        if self.len != 0 {
            Some(self.head)
        } else {
            None
        }
    }

    /// The physical index of the last item.
    pub fn tail_ix(&self) -> (r: Option<ListIndex>)
        requires
            fits(*self),
        ensures
            r == if self.len != 0 {
                Some((self.head + self.len - 1) as i128)
            } else {
                None::<i128>
            },
    {
        if self.len != 0 {
            Some(self.head + (self.len - 1) as ListIndex)
        } else {
            None
        }
    }

    pub fn len(&self) -> (r: u64)
        ensures
            r == self.len,
    {
        self.len
    }

    pub fn is_empty(&self) -> (r: bool)
        ensures
            r == (self.len == 0),
    {
        self.len() == 0
    }

    /// Makes room before the head; returns the new head's index.
    pub fn push_front(&mut self) -> (r: ListIndex)
        requires
            can_push_front(*old(self)),
        ensures
            *final(self) == front_pushed(*old(self)),
            r == final(self).head,
    {
        self.head -= 1;
        self.len += 1;
        self.head
    }

    /// Drops the head; returns its index, if there was one.
    pub fn pop_front(&mut self) -> (r: Option<ListIndex>)
        requires
            old(self).len == 0 || old(self).head < i128::MAX,
        ensures
            old(self).len == 0 ==> r is None && *final(self) == *old(self),
            old(self).len > 0 ==> r == Some(old(self).head) && *final(self) == front_popped(
                *old(self),
            ),
    {
        let res = match self.head_ix() {
            Some(ix) => ix,
            None => {
                return None;
            },
        };
        self.head += 1;
        self.len -= 1;
        Some(res)
    }

    /// Makes room after the tail; returns the new tail's index.
    pub fn push_back(&mut self) -> (r: ListIndex)
        requires
            fits(*old(self)),
            can_push_back(*old(self)),
        ensures
            *final(self) == back_pushed(*old(self)),
            r == old(self).head + old(self).len,
    {
        self.len += 1;
        self.head + (self.len - 1) as ListIndex
    }

    /// Drops the tail; returns its index, if there was one.
    pub fn pop_back(&mut self) -> (r: Option<ListIndex>)
        requires
            fits(*old(self)),
        ensures
            old(self).len == 0 ==> r is None && *final(self) == *old(self),
            old(self).len > 0 ==> r == Some((old(self).head + old(self).len - 1) as i128)
                && *final(self) == back_popped(*old(self)),
    {
        let res = match self.tail_ix() {
            Some(ix) => ix,
            None => {
                return None;
            },
        };
        self.len -= 1;
        Some(res)
    }
}

impl Default for Meta {
    fn default() -> (r: Meta)
        ensures
            r == empty_meta(),
    {
        Meta { head: 0, len: 0 }
    }
}

pub open spec fn can_push_front(m: Meta) -> bool {
    m.len < u64::MAX && m.head > i128::MIN
}

pub open spec fn can_push_back(m: Meta) -> bool {
    m.len < u64::MAX && m.head + m.len <= i128::MAX
}

pub open spec fn front_pushed(m: Meta) -> Meta {
    Meta { head: (m.head - 1) as i128, len: (m.len + 1) as u64 }
}

pub open spec fn back_pushed(m: Meta) -> Meta {
    Meta { head: m.head, len: (m.len + 1) as u64 }
}

pub open spec fn front_popped(m: Meta) -> Meta {
    Meta { head: (m.head + 1) as i128, len: (m.len - 1) as u64 }
}

pub open spec fn back_popped(m: Meta) -> Meta {
    Meta { head: m.head, len: (m.len - 1) as u64 }
}

/// Why a list operation failed.
#[derive(Debug)]
pub enum ListError {
    /// The metadata stored for this list is no 24-byte `(head, len)` whose
    /// indices lie in range.
    InvalidMeta(Vec<u8>),
    /// The metadata of this list promises an item at this index that is not
    /// stored.
    MissingVal(Vec<u8>, ListIndex),
    /// The indices of this list have run out on the side pushed to.
    Full(Vec<u8>),
}

/// The metadata of the list `name` as stored in `m`: the empty list when no
/// metadata is stored, and `None` when what is stored is no valid metadata.
pub open spec fn stored_list_meta(m: Map<Seq<u8>, Seq<u8>>, name: Seq<u8>) -> Option<Meta> {
    let k = meta_key(name);
    if !m.contains_key(k) {
        Some(empty_meta())
    } else {
        match tagged_payload(m[k], Tag::List) {
            Some(p) => if p.len() == 24 && fits(meta_of_bytes(p)) {
                Some(meta_of_bytes(p))
            } else {
                None
            },
            None => None,
        }
    }
}

/// The error that reading stored bytes `raw` as the metadata of the list
/// `name` gives.
pub open spec fn list_meta_fault(raw: Seq<u8>, name: Seq<u8>, e: EngineError) -> bool {
    match parse_record(raw) {
        Err(re) => e == EngineError::Record(re),
        Ok((t, _)) => if t != Tag::List {
            e == EngineError::BadType(Tag::List, t)
        } else {
            e is List && e->List_0 is InvalidMeta && e->List_0->InvalidMeta_0@ == name
        },
    }
}

/// The metadata of `name` in `m` is stored and invalid, and `e` says so.
pub open spec fn meta_fault(m: Map<Seq<u8>, Seq<u8>>, name: Seq<u8>, e: EngineError) -> bool {
    &&& m.contains_key(meta_key(name))
    &&& stored_list_meta(m, name) is None
    &&& list_meta_fault(m[meta_key(name)], name, e)
}

/// The stored record of the list metadata `meta`.
pub open spec fn meta_record(meta: Meta) -> Seq<u8> {
    record_bytes(Tag::List, meta_bytes(meta))
}

/// `m` after an item `v` is written at `ix` and the metadata becomes `meta`.
pub open spec fn pushed(m: Map<Seq<u8>, Seq<u8>>, name: Seq<u8>, meta: Meta, ix: i128, v: Seq<u8>) -> Map<
    Seq<u8>,
    Seq<u8>,
> {
    m.insert(list_item_key(name, ix), record_bytes(Tag::List, v)).insert(
        meta_key(name),
        meta_record(meta),
    )
}

/// `m` after the item at `ix` is removed and the metadata becomes `meta`,
/// or goes when `meta` is empty.
pub open spec fn popped(m: Map<Seq<u8>, Seq<u8>>, name: Seq<u8>, meta: Meta, ix: i128) -> Map<
    Seq<u8>,
    Seq<u8>,
> {
    let m1 = m.remove(list_item_key(name, ix));
    if meta.len > 0 {
        m1.insert(meta_key(name), meta_record(meta))
    } else {
        m1.remove(meta_key(name))
    }
}

/// What `list_get(name, ix)` reads from `m`: `None` when the metadata or the
/// item is no valid record of a list.
pub open spec fn list_read(m: Map<Seq<u8>, Seq<u8>>, name: Seq<u8>, ix: u64) -> Option<
    Option<Seq<u8>>,
> {
    match stored_list_meta(m, name) {
        None => None,
        Some(meta) => if ix < meta.len {
            typed_read(m, list_item_key(name, (meta.head + ix) as i128), Tag::List)
        } else {
            Some(None)
        },
    }
}

/// The item at physical index `ix` of `name` is stored, and `e` is the error
/// of reading it as a list item.
pub open spec fn item_fault(m: Map<Seq<u8>, Seq<u8>>, name: Seq<u8>, ix: i128, e: EngineError) -> bool {
    m.contains_key(list_item_key(name, ix)) && typed_fault(m[list_item_key(name, ix)], Tag::List, e)
}

/// `e` is the error of reading position `ix` of the list `name` in `m`:
/// invalid metadata, or an item in range that is no list item.
pub open spec fn read_fault(m: Map<Seq<u8>, Seq<u8>>, name: Seq<u8>, ix: u64, e: EngineError) -> bool {
    let meta = stored_list_meta(m, name)->Some_0;
    ||| meta_fault(m, name, e)
    ||| stored_list_meta(m, name) is Some && ix < meta.len && item_fault(
        m,
        name,
        (meta.head + ix) as i128,
        e,
    )
}

/// The item at physical index `ix` of `name` is stored as a list item.
pub open spec fn item_present(m: Map<Seq<u8>, Seq<u8>>, name: Seq<u8>, ix: i128) -> bool {
    m.contains_key(list_item_key(name, ix)) && tagged_payload(m[list_item_key(name, ix)], Tag::List) is Some
}

/// `e` is the error that a pop gives when the item at `ix` is missing or no
/// list item.
pub open spec fn pop_fault(m: Map<Seq<u8>, Seq<u8>>, name: Seq<u8>, ix: i128, e: EngineError) -> bool {
    if m.contains_key(list_item_key(name, ix)) {
        typed_fault(m[list_item_key(name, ix)], Tag::List, e)
    } else {
        e is List && e->List_0 is MissingVal && e->List_0->MissingVal_0@ == name
            && e->List_0->MissingVal_1 == ix
    }
}

pub open spec fn full_fault(name: Seq<u8>, e: EngineError) -> bool {
    e is List && e->List_0 is Full && e->List_0->Full_0@ == name
}

/// `m` after the item at `ix` becomes `v`.
pub open spec fn set_item(m: Map<Seq<u8>, Seq<u8>>, name: Seq<u8>, ix: i128, v: Seq<u8>) -> Map<
    Seq<u8>,
    Seq<u8>,
> {
    m.insert(list_item_key(name, ix), record_bytes(Tag::List, v))
}

impl Conn {
    /// The metadata of the list `name`; the empty list's when none is stored.
    pub fn list_get_meta(&self, name: &[u8]) -> (r: Result<Meta, EngineError>)
        ensures
            r is Ok ==> stored_list_meta(self.items_view(), name@) == Some(r->Ok_0),
            stored_list_meta(self.items_view(), name@) is Some ==> r is Ok || r->Err_0 is Store,
            r is Err && !(r->Err_0 is Store) ==> meta_fault(self.items_view(), name@, r->Err_0),
    {
        let key = list_meta(name);
        match self.get_record(key.as_slice())? {
            None => Ok(Meta::default()),
            Some(rec) => {
                let t = rec.tag();
                if t != Tag::List {
                    return Err(EngineError::BadType(Tag::List, t));
                }
                let data = rec.data();
                match Meta::decode(data.as_slice()) {
                    Some(meta) => {
                        if meta.len == 0 || meta.head <= i128::MAX - (meta.len - 1) as i128 {
                            Ok(meta)
                        } else {
                            Err(EngineError::List(ListError::InvalidMeta(vstd::slice::slice_to_vec(name))))
                        }
                    },
                    None => Err(EngineError::List(ListError::InvalidMeta(vstd::slice::slice_to_vec(name)))),
                }
            },
        }
    }

    /// The number of items of the list `name`.
    pub fn list_len(&self, name: &[u8]) -> (r: Result<u64, EngineError>)
        ensures
            r is Ok ==> stored_list_meta(self.items_view(), name@) is Some && r->Ok_0
                == stored_list_meta(self.items_view(), name@)->Some_0.len,
            stored_list_meta(self.items_view(), name@) is Some ==> r is Ok || r->Err_0 is Store,
            r is Err && !(r->Err_0 is Store) ==> meta_fault(self.items_view(), name@, r->Err_0),
    {
        Ok(self.list_get_meta(name)?.len())
    }

    /// The item at logical position `ix` of the list `name`, if there is one.
    pub fn list_get(&self, name: &[u8], ix: u64) -> (r: Result<Option<Vec<u8>>, EngineError>)
        ensures
            r is Ok ==> list_read(self.items_view(), name@, ix) == Some(view_opt(r->Ok_0)),
            list_read(self.items_view(), name@, ix) is Some ==> r is Ok || r->Err_0 is Store,
            r is Err && !(r->Err_0 is Store) ==> read_fault(self.items_view(), name@, ix, r->Err_0),
            list_wf(self.items_view(), name@) ==> r is Ok || r->Err_0 is Store,
            list_wf(self.items_view(), name@) && r is Ok ==> view_opt(r->Ok_0) == if ix < list_view(
                self.items_view(),
                name@,
            ).len() {
                Some(list_view(self.items_view(), name@)[ix as int])
            } else {
                None::<Seq<u8>>
            },
    {
        proof {
            if list_wf(self.items_view(), name@) {
                lemma_list_get_reads_view(self.items_view(), name@, ix);
            }
        }
        let meta = self.list_get_meta(name)?;
        match meta.mk_key(ix) {
            Some(pix) => {
                let key = list(name, pix);
                self.get_typed(key.as_slice(), Tag::List)
            },
            None => Ok(None),
        }
    }

    /// Pushes `val` before the head of the list `name`.
    pub fn list_push_front(&mut self, name: &[u8], val: Vec<u8>) -> (r: Result<(), EngineError>)
        ensures
            ({
                let m = old(self).items_view();
                let meta = stored_list_meta(m, name@)->Some_0;
                &&& r is Ok ==> stored_list_meta(m, name@) is Some && can_push_front(meta)
                    && final(self).items_view() == pushed(
                    m,
                    name@,
                    front_pushed(meta),
                    (meta.head - 1) as i128,
                    val@,
                )
                &&& (stored_list_meta(m, name@) is Some && can_push_front(meta)) ==> r is Ok
                    || r->Err_0 is Store
                &&& r is Err && !(r->Err_0 is Store) ==> final(self).items_view() == m && (meta_fault(
                    m,
                    name@,
                    r->Err_0,
                ) || (stored_list_meta(m, name@) is Some && !can_push_front(meta)
                    && full_fault(name@, r->Err_0)))
            }),
            ({
                let m = old(self).items_view();
                r is Ok && list_wf(m, name@) ==> list_wf(final(self).items_view(), name@) && list_view(
                    final(self).items_view(),
                    name@,
                ) == seq![val@] + list_view(m, name@) && same_outside(m, final(self).items_view(), name@)
            }),
            final(self).ttl_view() == old(self).ttl_view(),
    {
        proof {
            let m = self.items_view();
            if list_wf(m, name@) && can_push_front(stored_list_meta(m, name@)->Some_0) {
                lemma_list_step(m, name@, ListOp::PushFront(val@));
                lemma_list_step_local(m, name@, ListOp::PushFront(val@));
            }
        }
        let meta_key_v = list_meta(name);
        let mut meta = self.list_get_meta(name)?;
        if meta.len == u64::MAX || meta.head == i128::MIN {
            return Err(EngineError::List(ListError::Full(vstd::slice::slice_to_vec(name))));
        }
        let ix = meta.push_front();
        let item_key = list(name, ix);
        let raw = Record::FromData(Tag::List, val).into_raw();
        let mut b = new_batch();
        batch_insert(&mut b, item_key.as_slice(), raw);
        batch_insert(&mut b, meta_key_v.as_slice(), Record::FromData(Tag::List, meta.encode_vec()).into_raw());
        let ghost m = self.items_view();
        self.apply_items(b)?;
        assert(self.items_view() =~= pushed(m, name@, meta, ix, val@));
        Ok(())
    }

    /// Pushes `val` after the tail of the list `name`.
    pub fn list_push_back(&mut self, name: &[u8], val: Vec<u8>) -> (r: Result<(), EngineError>)
        ensures
            ({
                let m = old(self).items_view();
                let meta = stored_list_meta(m, name@)->Some_0;
                &&& r is Ok ==> stored_list_meta(m, name@) is Some && can_push_back(meta)
                    && final(self).items_view() == pushed(
                    m,
                    name@,
                    back_pushed(meta),
                    (meta.head + meta.len) as i128,
                    val@,
                )
                &&& (stored_list_meta(m, name@) is Some && can_push_back(meta)) ==> r is Ok
                    || r->Err_0 is Store
                &&& r is Err && !(r->Err_0 is Store) ==> final(self).items_view() == m && (meta_fault(
                    m,
                    name@,
                    r->Err_0,
                ) || (stored_list_meta(m, name@) is Some && !can_push_back(meta)
                    && full_fault(name@, r->Err_0)))
            }),
            ({
                let m = old(self).items_view();
                r is Ok && list_wf(m, name@) ==> list_wf(final(self).items_view(), name@) && list_view(
                    final(self).items_view(),
                    name@,
                ) == list_view(m, name@).push(val@) && same_outside(m, final(self).items_view(), name@)
            }),
            final(self).ttl_view() == old(self).ttl_view(),
    {
        proof {
            let m = self.items_view();
            if list_wf(m, name@) && can_push_back(stored_list_meta(m, name@)->Some_0) {
                lemma_list_step(m, name@, ListOp::PushBack(val@));
                lemma_list_step_local(m, name@, ListOp::PushBack(val@));
            }
        }
        let meta_key_v = list_meta(name);
        let mut meta = self.list_get_meta(name)?;
        if meta.len == u64::MAX || meta.head > i128::MAX - meta.len as i128 {
            return Err(EngineError::List(ListError::Full(vstd::slice::slice_to_vec(name))));
        }
        let ix = meta.push_back();
        let item_key = list(name, ix);
        let raw = Record::FromData(Tag::List, val).into_raw();
        let mut b = new_batch();
        batch_insert(&mut b, item_key.as_slice(), raw);
        batch_insert(&mut b, meta_key_v.as_slice(), Record::FromData(Tag::List, meta.encode_vec()).into_raw());
        let ghost m = self.items_view();
        self.apply_items(b)?;
        assert(self.items_view() =~= pushed(m, name@, meta, ix, val@));
        Ok(())
    }

    /// Removes the item at physical index `ix` and writes `meta`, or removes
    /// the metadata when `meta` is empty; returns the removed payload.
    fn take_item(&mut self, name: &[u8], meta: Meta, ix: ListIndex) -> (r: Result<Option<Vec<u8>>, EngineError>)
        ensures
            ({
                let m = old(self).items_view();
                &&& r is Ok ==> item_present(m, name@, ix) && view_opt(r->Ok_0) == tagged_payload(
                    m[list_item_key(name@, ix)],
                    Tag::List,
                ) && final(self).items_view() == popped(m, name@, meta, ix)
                &&& item_present(m, name@, ix) ==> r is Ok || r->Err_0 is Store
                &&& r is Err && !(r->Err_0 is Store) ==> final(self).items_view() == m && pop_fault(
                    m,
                    name@,
                    ix,
                    r->Err_0,
                )
            }),
            final(self).ttl_view() == old(self).ttl_view(),
    {
        let meta_key_v = list_meta(name);
        let item_key = list(name, ix);
        let old_val = match self.get_typed(item_key.as_slice(), Tag::List)? {
            Some(v) => v,
            None => {
                return Err(EngineError::List(ListError::MissingVal(vstd::slice::slice_to_vec(name), ix)));
            },
        };
        let mut b = new_batch();
        batch_remove(&mut b, item_key.as_slice());
        if meta.len > 0 {
            batch_insert(&mut b, meta_key_v.as_slice(), Record::FromData(Tag::List, meta.encode_vec()).into_raw());
        } else {
            batch_remove(&mut b, meta_key_v.as_slice());
        }
        let ghost m = self.items_view();
        self.apply_items(b)?;
        assert(self.items_view() =~= popped(m, name@, meta, ix));
        Ok(Some(old_val))
    }

    /// Removes and returns the head of the list `name`, if there is one.
    pub fn list_pop_front(&mut self, name: &[u8]) -> (r: Result<Option<Vec<u8>>, EngineError>)
        ensures
            ({
                let m = old(self).items_view();
                let meta = stored_list_meta(m, name@)->Some_0;
                &&& r is Ok ==> stored_list_meta(m, name@) is Some && (meta.len == 0 ==> r->Ok_0 is None
                    && final(self).items_view() == m) && (meta.len > 0 ==> item_present(m, name@, meta.head)
                    && view_opt(r->Ok_0) == tagged_payload(m[list_item_key(name@, meta.head)], Tag::List)
                    && final(self).items_view() == popped(m, name@, front_popped(meta), meta.head))
                &&& (stored_list_meta(m, name@) is Some && (meta.len == 0 || item_present(
                    m,
                    name@,
                    meta.head,
                ))) ==> r is Ok || r->Err_0 is Store
                &&& r is Err && !(r->Err_0 is Store) ==> final(self).items_view() == m && (meta_fault(
                    m,
                    name@,
                    r->Err_0,
                ) || (stored_list_meta(m, name@) is Some && meta.len > 0 && pop_fault(
                    m,
                    name@,
                    meta.head,
                    r->Err_0,
                )))
            }),
            ({
                let m = old(self).items_view();
                &&& list_wf(m, name@) ==> r is Ok || r->Err_0 is Store
                &&& r is Ok && list_wf(m, name@) ==> list_wf(final(self).items_view(), name@) && list_view(
                    final(self).items_view(),
                    name@,
                ) == deque_step(list_view(m, name@), ListOp::PopFront) && view_opt(r->Ok_0) == deque_step_result(
                    list_view(m, name@),
                    ListOp::PopFront,
                ) && same_outside(m, final(self).items_view(), name@)
            }),
            final(self).ttl_view() == old(self).ttl_view(),
    {
        proof {
            let m = self.items_view();
            if list_wf(m, name@) {
                let meta = stored_list_meta(m, name@)->Some_0;
                if meta.len > 0 {
                    assert(item_present(m, name@, meta.head));
                    assert(item_present(m, name@, (meta.head + meta.len - 1) as i128));
                }
                lemma_list_step(m, name@, ListOp::PopFront);
                lemma_list_step_local(m, name@, ListOp::PopFront);
            }
        }
        let mut meta = self.list_get_meta(name)?;
        let ghost m = self.items_view();
        let ghost before = meta;
        // a head at the last index has one item behind it at most: popping
        // it from either end leaves the empty list
        let popped_ix = if meta.head == i128::MAX {
            meta.pop_back()
        } else {
            meta.pop_front()
        };
        match popped_ix {
            Some(ix) => {
                let r = self.take_item(name, meta, ix);
                assert(popped(m, name@, meta, ix) =~= popped(m, name@, front_popped(before), ix));
                r
            },
            None => Ok(None),
        }
    }

    /// Removes and returns the tail of the list `name`, if there is one.
    pub fn list_pop_back(&mut self, name: &[u8]) -> (r: Result<Option<Vec<u8>>, EngineError>)
        ensures
            ({
                let m = old(self).items_view();
                let meta = stored_list_meta(m, name@)->Some_0;
                &&& r is Ok ==> stored_list_meta(m, name@) is Some && (meta.len == 0 ==> r->Ok_0 is None
                    && final(self).items_view() == m) && (meta.len > 0 ==> item_present(m, name@, (meta.head + meta.len - 1) as i128)
                    && view_opt(r->Ok_0) == tagged_payload(m[list_item_key(name@, (meta.head + meta.len - 1) as i128)], Tag::List)
                    && final(self).items_view() == popped(m, name@, back_popped(meta), (meta.head + meta.len - 1) as i128))
                &&& (stored_list_meta(m, name@) is Some && (meta.len == 0 || item_present(
                    m,
                    name@,
                    (meta.head + meta.len - 1) as i128,
                ))) ==> r is Ok || r->Err_0 is Store
                &&& r is Err && !(r->Err_0 is Store) ==> final(self).items_view() == m && (meta_fault(
                    m,
                    name@,
                    r->Err_0,
                ) || (stored_list_meta(m, name@) is Some && meta.len > 0 && pop_fault(
                    m,
                    name@,
                    (meta.head + meta.len - 1) as i128,
                    r->Err_0,
                )))
            }),
            ({
                let m = old(self).items_view();
                &&& list_wf(m, name@) ==> r is Ok || r->Err_0 is Store
                &&& r is Ok && list_wf(m, name@) ==> list_wf(final(self).items_view(), name@) && list_view(
                    final(self).items_view(),
                    name@,
                ) == deque_step(list_view(m, name@), ListOp::PopBack) && view_opt(r->Ok_0) == deque_step_result(
                    list_view(m, name@),
                    ListOp::PopBack,
                ) && same_outside(m, final(self).items_view(), name@)
            }),
            final(self).ttl_view() == old(self).ttl_view(),
    {
        proof {
            let m = self.items_view();
            if list_wf(m, name@) {
                let meta = stored_list_meta(m, name@)->Some_0;
                if meta.len > 0 {
                    assert(item_present(m, name@, meta.head));
                    assert(item_present(m, name@, (meta.head + meta.len - 1) as i128));
                }
                lemma_list_step(m, name@, ListOp::PopBack);
                lemma_list_step_local(m, name@, ListOp::PopBack);
            }
        }
        let mut meta = self.list_get_meta(name)?;
        match meta.pop_back() {
            Some(ix) => self.take_item(name, meta, ix),
            None => Ok(None),
        }
    }

    /// Replaces the item at logical position `ix` of the list `name` with
    /// `val`; returns the payload it held. Positions past the end change
    /// nothing.
    pub fn list_set(&mut self, name: &[u8], ix: u64, val: Vec<u8>) -> (r: Result<Option<Vec<u8>>, EngineError>)
        ensures
            ({
                let m = old(self).items_view();
                let meta = stored_list_meta(m, name@)->Some_0;
                &&& r is Ok ==> list_read(m, name@, ix) == Some(view_opt(r->Ok_0)) && (
                    stored_list_meta(m, name@) is Some && (ix >= meta.len ==> final(self).items_view() == m)
                    && (ix < meta.len ==> final(self).items_view() == set_item(m, name@, (meta.head + ix) as i128, val@)))
                &&& list_read(m, name@, ix) is Some ==> r is Ok || r->Err_0 is Store
                &&& r is Err && !(r->Err_0 is Store) ==> final(self).items_view() == m && read_fault(
                    m,
                    name@,
                    ix,
                    r->Err_0,
                )
            }),
            final(self).ttl_view() == old(self).ttl_view(),
    {
        let meta = self.list_get_meta(name)?;
        match meta.mk_key(ix) {
            Some(pix) => {
                let key = list(name, pix);
                let old_val = self.get_typed(key.as_slice(), Tag::List)?;
                let mut b = new_batch();
                batch_insert(&mut b, key.as_slice(), Record::FromData(Tag::List, val).into_raw());
                let ghost m = self.items_view();
                self.apply_items(b)?;
                assert(self.items_view() =~= set_item(m, name@, pix, val@));
                Ok(old_val)
            },
            None => Ok(None),
        }
    }
}

/// One operation on a list, as a value.
pub enum ListOp {
    PushFront(Seq<u8>),
    PushBack(Seq<u8>),
    PopFront,
    PopBack,
}

/// The stored list `name` is consistent: valid metadata, stored exactly when
/// the list is not empty, and one list item for each index in
/// `head .. head + len` and for no other index.
pub open spec fn list_wf(m: Map<Seq<u8>, Seq<u8>>, name: Seq<u8>) -> bool {
    &&& stored_list_meta(m, name) is Some
    &&& {
        let meta = stored_list_meta(m, name)->Some_0;
        &&& m.contains_key(meta_key(name)) <==> meta.len > 0
        &&& forall|ix: i128|
            #![trigger list_item_key(name, ix)]
            m.contains_key(list_item_key(name, ix)) <==> meta.head <= ix < meta.head + meta.len
        &&& forall|ix: i128|
            #![trigger list_item_key(name, ix)]
            meta.head <= ix < meta.head + meta.len ==> tagged_payload(
                m[list_item_key(name, ix)],
                Tag::List,
            ) is Some
    }
}

/// The items of the stored list `name`, front first.
pub open spec fn list_view(m: Map<Seq<u8>, Seq<u8>>, name: Seq<u8>) -> Seq<Seq<u8>> {
    let meta = stored_list_meta(m, name)->Some_0;
    Seq::new(
        meta.len as nat,
        |i: int| tagged_payload(m[list_item_key(name, (meta.head + i) as i128)], Tag::List)->Some_0,
    )
}

/// The operation finds room in the index space: a push does not run out of
/// indices or of length on its side.
pub open spec fn op_fits(meta: Meta, op: ListOp) -> bool {
    match op {
        ListOp::PushFront(_) => can_push_front(meta),
        ListOp::PushBack(_) => can_push_back(meta),
        _ => true,
    }
}

/// Every operation of `ops`, run in turn from `m`, finds room: none would
/// be refused as full.
pub open spec fn list_ops_fit(m: Map<Seq<u8>, Seq<u8>>, name: Seq<u8>, ops: Seq<ListOp>) -> bool
    decreases ops.len(),
{
    ops.len() == 0 || (list_ops_fit(m, name, ops.drop_last()) && op_fits(
        stored_list_meta(list_run(m, name, ops.drop_last()), name)->Some_0,
        ops.last(),
    ))
}

/// The metadata that one operation leaves: an emptied list reads as the
/// empty list, since its metadata is removed.
pub open spec fn meta_step(meta: Meta, op: ListOp) -> Meta {
    match op {
        ListOp::PushFront(_) => front_pushed(meta),
        ListOp::PushBack(_) => back_pushed(meta),
        ListOp::PopFront => if meta.len == 0 {
            meta
        } else if meta.len == 1 {
            empty_meta()
        } else {
            front_popped(meta)
        },
        ListOp::PopBack => if meta.len == 0 {
            meta
        } else if meta.len == 1 {
            empty_meta()
        } else {
            back_popped(meta)
        },
    }
}


/// What one operation does to the stored entries, as the list operations of
/// the connection state it.
pub open spec fn list_step(m: Map<Seq<u8>, Seq<u8>>, name: Seq<u8>, op: ListOp) -> Map<Seq<u8>, Seq<u8>> {
    let meta = stored_list_meta(m, name)->Some_0;
    match op {
        ListOp::PushFront(v) => pushed(m, name, front_pushed(meta), (meta.head - 1) as i128, v),
        ListOp::PushBack(v) => pushed(m, name, back_pushed(meta), (meta.head + meta.len) as i128, v),
        ListOp::PopFront => if meta.len == 0 {
            m
        } else {
            popped(m, name, front_popped(meta), meta.head)
        },
        ListOp::PopBack => if meta.len == 0 {
            m
        } else {
            popped(m, name, back_popped(meta), (meta.head + meta.len - 1) as i128)
        },
    }
}

/// The item that a pop hands back, as the list operations of the connection
/// state it: the payload stored at the end popped.
pub open spec fn list_step_result(m: Map<Seq<u8>, Seq<u8>>, name: Seq<u8>, op: ListOp) -> Option<Seq<u8>> {
    let meta = stored_list_meta(m, name)->Some_0;
    match op {
        ListOp::PopFront => if meta.len == 0 {
            None
        } else {
            tagged_payload(m[list_item_key(name, meta.head)], Tag::List)
        },
        ListOp::PopBack => if meta.len == 0 {
            None
        } else {
            tagged_payload(m[list_item_key(name, (meta.head + meta.len - 1) as i128)], Tag::List)
        },
        _ => None,
    }
}

/// What one operation does to a deque.
pub open spec fn deque_step(d: Seq<Seq<u8>>, op: ListOp) -> Seq<Seq<u8>> {
    match op {
        ListOp::PushFront(v) => seq![v] + d,
        ListOp::PushBack(v) => d.push(v),
        ListOp::PopFront => if d.len() == 0 {
            d
        } else {
            d.drop_first()
        },
        ListOp::PopBack => if d.len() == 0 {
            d
        } else {
            d.drop_last()
        },
    }
}

/// What a deque pop hands back.
pub open spec fn deque_step_result(d: Seq<Seq<u8>>, op: ListOp) -> Option<Seq<u8>> {
    match op {
        ListOp::PopFront => if d.len() == 0 {
            None
        } else {
            Some(d[0])
        },
        ListOp::PopBack => if d.len() == 0 {
            None
        } else {
            Some(d.last())
        },
        _ => None,
    }
}

pub open spec fn list_run(m: Map<Seq<u8>, Seq<u8>>, name: Seq<u8>, ops: Seq<ListOp>) -> Map<Seq<u8>, Seq<u8>>
    decreases ops.len(),
{
    if ops.len() == 0 {
        m
    } else {
        list_step(list_run(m, name, ops.drop_last()), name, ops.last())
    }
}

pub open spec fn deque_run(d: Seq<Seq<u8>>, ops: Seq<ListOp>) -> Seq<Seq<u8>>
    decreases ops.len(),
{
    if ops.len() == 0 {
        d
    } else {
        deque_step(deque_run(d, ops.drop_last()), ops.last())
    }
}

/// The metadata record of `meta` reads back as `meta`.
proof fn lemma_stored_meta_written(m: Map<Seq<u8>, Seq<u8>>, name: Seq<u8>, meta: Meta)
    requires
        m.contains_key(meta_key(name)),
        m[meta_key(name)] == meta_record(meta),
        fits(meta),
    ensures
        stored_list_meta(m, name) == Some(meta),
{
    lemma_parse_record_bytes(Tag::List, meta_bytes(meta));
    lemma_meta_round_trip(meta);
}

/// A name with no metadata and no items holds the consistent, empty list.
pub proof fn lemma_empty_list(m: Map<Seq<u8>, Seq<u8>>, name: Seq<u8>)
    requires
        !m.contains_key(meta_key(name)),
        forall|ix: i128| !m.contains_key(#[trigger] list_item_key(name, ix)),
    ensures
        list_wf(m, name),
        list_view(m, name) == Seq::<Seq<u8>>::empty(),
{
    assert(list_view(m, name) =~= Seq::<Seq<u8>>::empty());
}

/// One operation keeps the stored list consistent, changes its items as the
/// same operation changes a deque, and a pop hands back what the deque's pop
/// does.
pub proof fn lemma_list_step(m: Map<Seq<u8>, Seq<u8>>, name: Seq<u8>, op: ListOp)
    requires
        list_wf(m, name),
        op_fits(stored_list_meta(m, name)->Some_0, op),
    ensures
        list_wf(list_step(m, name, op), name),
        list_view(list_step(m, name, op), name) == deque_step(list_view(m, name), op),
        list_step_result(m, name, op) == deque_step_result(list_view(m, name), op),
        stored_list_meta(list_step(m, name, op), name) == Some(meta_step(
            stored_list_meta(m, name)->Some_0,
            op,
        )),
{
    let meta = stored_list_meta(m, name)->Some_0;
    let d = list_view(m, name);
    let m2 = list_step(m, name, op);
    let mk = meta_key(name);
    assert forall|a: i128, b: i128| #![trigger list_item_key(name, a), list_item_key(name, b)]
        list_item_key(name, a) == list_item_key(name, b) ==> a == b by {
        lemma_list_item_keys(name, a, b);
    }
    assert forall|a: i128| #[trigger] list_item_key(name, a) != mk by {
        lemma_list_item_keys(name, a, a);
    }
    match op {
        ListOp::PushFront(v) => {
            let nm = front_pushed(meta);
            lemma_stored_meta_written(m2, name, nm);
            let nix = (meta.head - 1) as i128;
            assert forall|ix: i128| #![trigger list_item_key(name, ix)]
                m2.contains_key(list_item_key(name, ix)) <==> nm.head <= ix < nm.head + nm.len by {
                if ix == nix {
                } else {
                    assert(list_item_key(name, ix) != list_item_key(name, nix));
                }
            }
            assert forall|ix: i128| #![trigger list_item_key(name, ix)]
                nm.head <= ix < nm.head + nm.len implies tagged_payload(m2[list_item_key(name, ix)], Tag::List) is Some by {
                if ix == nix {
                    lemma_parse_record_bytes(Tag::List, v);
                } else {
                    assert(list_item_key(name, ix) != list_item_key(name, nix));
                }
            }
            assert forall|i: int| 0 <= i < nm.len implies #[trigger] list_view(m2, name)[i] == deque_step(d, op)[i] by {
                let ix = (nm.head + i) as i128;
                if i == 0 {
                    lemma_parse_record_bytes(Tag::List, v);
                } else {
                    assert(list_item_key(name, ix) != list_item_key(name, nix));
                    assert(ix == (meta.head + (i - 1)) as i128);
                }
            }
            assert(list_view(m2, name) =~= deque_step(d, op));
        },
        ListOp::PushBack(v) => {
            let nm = back_pushed(meta);
            lemma_stored_meta_written(m2, name, nm);
            let nix = (meta.head + meta.len) as i128;
            assert forall|ix: i128| #![trigger list_item_key(name, ix)]
                m2.contains_key(list_item_key(name, ix)) <==> nm.head <= ix < nm.head + nm.len by {
                if ix != nix {
                    assert(list_item_key(name, ix) != list_item_key(name, nix));
                }
            }
            assert forall|ix: i128| #![trigger list_item_key(name, ix)]
                nm.head <= ix < nm.head + nm.len implies tagged_payload(m2[list_item_key(name, ix)], Tag::List) is Some by {
                if ix == nix {
                    lemma_parse_record_bytes(Tag::List, v);
                } else {
                    assert(list_item_key(name, ix) != list_item_key(name, nix));
                }
            }
            assert forall|i: int| 0 <= i < nm.len implies #[trigger] list_view(m2, name)[i] == deque_step(d, op)[i] by {
                let ix = (nm.head + i) as i128;
                if i == meta.len {
                    lemma_parse_record_bytes(Tag::List, v);
                } else {
                    assert(list_item_key(name, ix) != list_item_key(name, nix));
                }
            }
            assert(list_view(m2, name) =~= deque_step(d, op));
        },
        ListOp::PopFront => {
            if meta.len > 0 {
                let nm = front_popped(meta);
                let oix = meta.head;
                lemma_popped_consistent(m, name, nm, oix);
                if nm.len > 0 {
                    assert forall|i: int| 0 <= i < nm.len implies #[trigger] list_view(m2, name)[i] == deque_step(d, op)[i] by {
                        let ix = (nm.head + i) as i128;
                        assert(list_item_key(name, ix) != list_item_key(name, oix));
                        assert(ix == (meta.head + (i + 1)) as i128);
                    }
                }
                assert(list_view(m2, name) =~= deque_step(d, op));
            }
        },
        ListOp::PopBack => {
            if meta.len > 0 {
                let nm = back_popped(meta);
                let oix = (meta.head + meta.len - 1) as i128;
                lemma_popped_consistent(m, name, nm, oix);
                if nm.len > 0 {
                    assert forall|i: int| 0 <= i < nm.len implies #[trigger] list_view(m2, name)[i] == deque_step(d, op)[i] by {
                        let ix = (nm.head + i) as i128;
                        assert(list_item_key(name, ix) != list_item_key(name, oix));
                    }
                }
                assert(list_view(m2, name) =~= deque_step(d, op));
            }
        },
    }
}

/// Removing the item at an end of a consistent list, with `nm` the metadata
/// that remains, leaves a consistent list.
proof fn lemma_popped_consistent(m: Map<Seq<u8>, Seq<u8>>, name: Seq<u8>, nm: Meta, oix: i128)
    requires
        list_wf(m, name),
        ({
            let meta = stored_list_meta(m, name)->Some_0;
            &&& meta.len > 0
            &&& nm.len == meta.len - 1
            &&& (oix == meta.head && (nm.len == 0 || nm.head == meta.head + 1) || oix == meta.head
                + meta.len - 1 && nm.head == meta.head)
        }),
        forall|a: i128, b: i128| #![trigger list_item_key(name, a), list_item_key(name, b)]
            list_item_key(name, a) == list_item_key(name, b) ==> a == b,
        forall|a: i128| #[trigger] list_item_key(name, a) != meta_key(name),
    ensures
        list_wf(popped(m, name, nm, oix), name),
        stored_list_meta(popped(m, name, nm, oix), name)->Some_0.len == nm.len,
        nm.len > 0 ==> stored_list_meta(popped(m, name, nm, oix), name) == Some(nm),
        nm.len == 0 ==> stored_list_meta(popped(m, name, nm, oix), name) == Some(empty_meta()),
{
    let meta = stored_list_meta(m, name)->Some_0;
    let m2 = popped(m, name, nm, oix);
    if nm.len > 0 {
        lemma_stored_meta_written(m2, name, nm);
        assert forall|ix: i128| #![trigger list_item_key(name, ix)]
            m2.contains_key(list_item_key(name, ix)) <==> nm.head <= ix < nm.head + nm.len by {
            if ix != oix {
                assert(list_item_key(name, ix) != list_item_key(name, oix));
            }
        }
        assert forall|ix: i128| #![trigger list_item_key(name, ix)]
            nm.head <= ix < nm.head + nm.len implies tagged_payload(m2[list_item_key(name, ix)], Tag::List) is Some by {
            assert(list_item_key(name, ix) != list_item_key(name, oix));
        }
    } else {
        assert(stored_list_meta(m2, name) == Some(empty_meta()));
        assert forall|ix: i128| #![trigger list_item_key(name, ix)]
            !m2.contains_key(list_item_key(name, ix)) by {
            if ix != oix {
                assert(list_item_key(name, ix) != list_item_key(name, oix));
            }
        }
    }
}

/// Any sequence of operations on a consistent stored list, none of which is
/// refused as full, keeps it consistent, and leaves it holding what the same
/// operations leave in a deque that held its items; each pop hands back what
/// the deque's pop does (see `lemma_list_step`).
pub proof fn lemma_list_ops_follow_deque(m: Map<Seq<u8>, Seq<u8>>, name: Seq<u8>, ops: Seq<ListOp>)
    requires
        list_wf(m, name),
        list_ops_fit(m, name, ops),
    ensures
        list_wf(list_run(m, name, ops), name),
        list_view(list_run(m, name, ops), name) == deque_run(list_view(m, name), ops),
    decreases ops.len(),
{
    if ops.len() > 0 {
        let init = ops.drop_last();
        lemma_list_ops_follow_deque(m, name, init);
        lemma_list_step(list_run(m, name, init), name, ops.last());
    }
}

/// The physical indices at which an item of the list `name` is stored.
pub open spec fn list_item_indices(m: Map<Seq<u8>, Seq<u8>>, name: Seq<u8>) -> Set<int> {
    Set::new(
        |ix: int| i128::MIN <= ix <= i128::MAX && m.contains_key(list_item_key(name, ix as i128)),
    )
}

/// In a consistent stored list the length counts the stored items, and the
/// metadata is stored exactly when the length is not zero.
pub proof fn lemma_list_len_counts_items(m: Map<Seq<u8>, Seq<u8>>, name: Seq<u8>)
    requires
        list_wf(m, name),
    ensures
        list_item_indices(m, name).finite(),
        list_item_indices(m, name).len() == stored_list_meta(m, name)->Some_0.len,
        m.contains_key(meta_key(name)) <==> stored_list_meta(m, name)->Some_0.len > 0,
{
    let meta = stored_list_meta(m, name)->Some_0;
    let lo = meta.head as int;
    let hi = meta.head + meta.len;
    assert forall|ix: int| list_item_indices(m, name).contains(ix) <==> #[trigger] vstd::set_lib::set_int_range(lo, hi).contains(ix) by {
        if i128::MIN <= ix <= i128::MAX {
            assert(m.contains_key(list_item_key(name, ix as i128)) <==> lo <= ix < hi);
        }
    }
    assert(list_item_indices(m, name) =~= vstd::set_lib::set_int_range(lo, hi));
    vstd::set_lib::lemma_int_range(lo, hi);
}

/// After any sequence of operations on a consistent stored list, none of
/// which is refused as full, the length counts the stored items and the
/// metadata is stored exactly when the length is not zero.
pub proof fn lemma_list_ops_keep_count(m: Map<Seq<u8>, Seq<u8>>, name: Seq<u8>, ops: Seq<ListOp>)
    requires
        list_wf(m, name),
        list_ops_fit(m, name, ops),
    ensures
        ({
            let m2 = list_run(m, name, ops);
            let len = stored_list_meta(m2, name)->Some_0.len;
            &&& list_item_indices(m2, name).finite()
            &&& list_item_indices(m2, name).len() == len
            &&& m2.contains_key(meta_key(name)) <==> len > 0
        }),
{
    lemma_list_ops_follow_deque(m, name, ops);
    lemma_list_len_counts_items(list_run(m, name, ops), name);
}

/// On a consistent stored list, what `list_get` reads is the item at that
/// position of the list's items, and nothing past the end.
pub proof fn lemma_list_get_reads_view(m: Map<Seq<u8>, Seq<u8>>, name: Seq<u8>, ix: u64)
    requires
        list_wf(m, name),
    ensures
        list_read(m, name, ix) == Some(
            if ix < list_view(m, name).len() {
                Some(list_view(m, name)[ix as int])
            } else {
                None::<Seq<u8>>
            },
        ),
{
    let meta = stored_list_meta(m, name)->Some_0;
    if ix < meta.len {
        let k = list_item_key(name, (meta.head + ix) as i128);
        assert(m.contains_key(k));
    }
}

/// `m2` holds what `m` holds under every key outside the prefix of `name`.
pub open spec fn same_outside(m: Map<Seq<u8>, Seq<u8>>, m2: Map<Seq<u8>, Seq<u8>>, name: Seq<u8>) -> bool {
    forall|k: Seq<u8>| !bare_key(name).is_prefix_of(k) ==> #[trigger] lookup(m2, k) == lookup(m, k)
}

/// A list operation on `name` writes only keys of `name`.
pub proof fn lemma_list_step_local(m: Map<Seq<u8>, Seq<u8>>, name: Seq<u8>, op: ListOp)
    ensures
        same_outside(m, list_step(m, name, op), name),
{
    assert forall|ix: i128| bare_key(name).is_prefix_of(#[trigger] list_item_key(name, ix)) by {
        lemma_prefix_closure(name, LogicalKey::List(name, ix));
    }
    lemma_prefix_closure(name, LogicalKey::ListMeta(name));
}

/// A store that holds the same under every key of `name` holds the same
/// list `name`.
pub proof fn lemma_list_depends_on_own_keys(m: Map<Seq<u8>, Seq<u8>>, m2: Map<Seq<u8>, Seq<u8>>, other: Seq<u8>, name: Seq<u8>)
    requires
        same_outside(m, m2, other),
        other != name,
    ensures
        stored_list_meta(m2, name) == stored_list_meta(m, name),
        list_wf(m2, name) == list_wf(m, name),
        list_wf(m, name) ==> list_view(m2, name) == list_view(m, name),
{
    lemma_prefix_closure(other, LogicalKey::ListMeta(name));
    assert(lookup(m2, meta_key(name)) == lookup(m, meta_key(name)));
    assert forall|ix: i128| #[trigger] lookup(m2, list_item_key(name, ix)) == lookup(m, list_item_key(name, ix)) by {
        lemma_prefix_closure(other, LogicalKey::List(name, ix));
    }
    assert forall|ix: i128| #![trigger list_item_key(name, ix)]
        m2.contains_key(list_item_key(name, ix)) == m.contains_key(list_item_key(name, ix)) && (
        m.contains_key(list_item_key(name, ix)) ==> m2[list_item_key(name, ix)] == m[list_item_key(
            name,
            ix,
        )]) by {
        assert(lookup(m2, list_item_key(name, ix)) == lookup(m, list_item_key(name, ix)));
    }
    assert(stored_list_meta(m2, name) == stored_list_meta(m, name));
    if list_wf(m, name) {
        assert(list_view(m2, name) =~= list_view(m, name));
    }
}

/// Operations on one list leave every other name's list as it was.
pub proof fn lemma_list_ops_leave_other_names(m: Map<Seq<u8>, Seq<u8>>, name: Seq<u8>, ops: Seq<ListOp>, other: Seq<u8>)
    requires
        other != name,
    ensures
        list_wf(list_run(m, name, ops), other) == list_wf(m, other),
        list_wf(m, other) ==> list_view(list_run(m, name, ops), other) == list_view(m, other),
    decreases ops.len(),
{
    if ops.len() > 0 {
        let mid = list_run(m, name, ops.drop_last());
        lemma_list_ops_leave_other_names(m, name, ops.drop_last(), other);
        lemma_list_step_local(mid, name, ops.last());
        lemma_list_depends_on_own_keys(mid, list_step(mid, name, ops.last()), name, other);
    }
}

} // verus!
