//! Composite keys: an escaped name and its terminator, then what addresses
//! one entry of the container.
use vstd::prelude::*;
use crate::endian::{
    be_bytes, be_value, lemma_be_order, lemma_lex_lt_asymmetric, lex_lt, lemma_be_bytes_len,
    lemma_be_value_of_bytes, lemma_be_value_injective, lemma_pow256_values, push_be, read_be,
};
use crate::escaping::{
    escape_into, escape_seq, lemma_escaped_prefix_unique, term_seq, NULL, TERMINATE_CHAR,
};

verus! {

/// A physical list index; logical positions are offsets from the list's head.
pub type ListIndex = i128;

pub const INDEX_BYTES: usize = 16;

/// The byte after `escape(name) ‖ TERMINATOR` that marks a metadata key.
pub const META_MARK: u8 = 0;

/// The byte after `escape(name) ‖ TERMINATOR` that marks an item key.
pub const ITEM_MARK: u8 = 1;

/// `2^127`, the distance from `i128::MIN` to zero.
pub open spec fn index_bias() -> int {
    0x8000_0000_0000_0000_0000_0000_0000_0000
}

/// `ix XOR i128::MIN` read as an unsigned number, which is `ix + 2^127`.
pub open spec fn index_offset(ix: i128) -> nat {
    (ix + index_bias()) as nat
}

/// The key bytes of a physical index: big-endian, so that they sort as the
/// indices do.
pub open spec fn index_bytes(ix: i128) -> Seq<u8> {
    be_bytes(index_offset(ix), 16)
}

/// `escape(name) ‖ TERMINATOR`: the key of a blob, and the prefix of every
/// key of the container `name`.
pub open spec fn bare_key(name: Seq<u8>) -> Seq<u8> {
    escape_seq(name) + term_seq()
}

/// The metadata key of a list or a table.
pub open spec fn meta_key(name: Seq<u8>) -> Seq<u8> {
    bare_key(name).push(META_MARK)
}

/// The key of the list item at physical index `ix`.
pub open spec fn list_item_key(name: Seq<u8>, ix: i128) -> Seq<u8> {
    bare_key(name).push(ITEM_MARK) + index_bytes(ix)
}

/// The key of the table item under `key`.
pub open spec fn table_item_key(name: Seq<u8>, key: Seq<u8>) -> Seq<u8> {
    bare_key(name).push(ITEM_MARK) + escape_seq(key) + term_seq()
}

/// A logical key: what a composite key addresses.
pub enum LogicalKey {
    Blob(Seq<u8>),
    List(Seq<u8>, i128),
    ListMeta(Seq<u8>),
    Table(Seq<u8>, Seq<u8>),
    TableMeta(Seq<u8>),
}

/// The bytes of a logical key.
pub open spec fn key_bytes(k: LogicalKey) -> Seq<u8> {
    match k {
        LogicalKey::Blob(name) => bare_key(name),
        LogicalKey::List(name, ix) => list_item_key(name, ix),
        LogicalKey::ListMeta(name) => meta_key(name),
        LogicalKey::Table(name, key) => table_item_key(name, key),
        LogicalKey::TableMeta(name) => meta_key(name),
    }
}

/// The pairs whose layouts coincide: list and table metadata of one name,
/// and a list item and a table item of one name whose index bytes spell the
/// escaped, terminated table key.
pub open spec fn shares_layout(k1: LogicalKey, k2: LogicalKey) -> bool {
    ||| (k1 is ListMeta && k2 is TableMeta && k1->ListMeta_0 == k2->TableMeta_0)
    ||| (k1 is TableMeta && k2 is ListMeta && k1->TableMeta_0 == k2->ListMeta_0)
    ||| (k1 is List && k2 is Table && k1->List_0 == k2->Table_0 && index_bytes(k1->List_1)
        == escape_seq(k2->Table_1) + term_seq())
    ||| (k2 is List && k1 is Table && k2->List_0 == k1->Table_0 && index_bytes(k2->List_1)
        == escape_seq(k1->Table_1) + term_seq())
}

/// The tail that follows `escape(name) ‖ TERMINATOR` in a logical key.
pub open spec fn key_tail(k: LogicalKey) -> Seq<u8> {
    match k {
        LogicalKey::Blob(_) => Seq::empty(),
        LogicalKey::List(_, ix) => seq![ITEM_MARK] + index_bytes(ix),
        LogicalKey::ListMeta(_) => seq![META_MARK],
        LogicalKey::Table(_, key) => seq![ITEM_MARK] + escape_seq(key) + term_seq(),
        LogicalKey::TableMeta(_) => seq![META_MARK],
    }
}

pub open spec fn key_name(k: LogicalKey) -> Seq<u8> {
    match k {
        LogicalKey::Blob(name) => name,
        LogicalKey::List(name, _) => name,
        LogicalKey::ListMeta(name) => name,
        LogicalKey::Table(name, _) => name,
        LogicalKey::TableMeta(name) => name,
    }
}

proof fn lemma_key_split(k: LogicalKey)
    ensures
        key_bytes(k) == escape_seq(key_name(k)) + term_seq() + key_tail(k),
{
    assert(key_bytes(k) =~= escape_seq(key_name(k)) + term_seq() + key_tail(k));
}

/// The keys that start with `escape(name) ‖ TERMINATOR` are exactly the
/// keys of `name`: a prefix scan of it reaches no other name.
pub proof fn lemma_prefix_closure(name: Seq<u8>, k: LogicalKey)
    ensures
        bare_key(name).is_prefix_of(key_bytes(k)) <==> key_name(k) == name,
{
    lemma_key_split(k);
    let b = bare_key(name);
    let kb = key_bytes(k);
    if b.is_prefix_of(kb) {
        let rest = kb.subrange(b.len() as int, kb.len() as int);
        assert(kb =~= escape_seq(name) + term_seq() + rest);
        lemma_escaped_prefix_unique(name, rest, key_name(k), key_tail(k));
    }
    if key_name(k) == name {
        assert(kb.subrange(0, b.len() as int) =~= b);
    }
}

/// Item keys of one list sort as their indices do.
pub proof fn lemma_list_key_order(name: Seq<u8>, a: i128, b: i128)
    ensures
        a < b <==> lex_lt(list_item_key(name, a), list_item_key(name, b)),
{
    let p = bare_key(name).push(ITEM_MARK);
    assert forall|x: i128, y: i128| x < y implies lex_lt(list_item_key(name, x), list_item_key(name, y)) by {
        lemma_index_bytes(x);
        lemma_index_bytes(y);
        lemma_be_order(index_bytes(x), index_bytes(y));
        let s = index_bytes(x);
        let t = index_bytes(y);
        let i = choose|i: int|
            0 <= i <= s.len() && i <= t.len() && #[trigger] s.subrange(0, i) == t.subrange(0, i) && (
            (i < s.len() && i < t.len() && s[i] < t[i]) || (i == s.len() && i < t.len()));
        let ks = list_item_key(name, x);
        let kt = list_item_key(name, y);
        let j = p.len() + i;
        assert(ks.subrange(0, j) =~= p + s.subrange(0, i));
        assert(kt.subrange(0, j) =~= p + t.subrange(0, i));
        assert(ks[j] == s[i] && kt[j] == t[i]);
    }
    lemma_lex_lt_asymmetric(list_item_key(name, a), list_item_key(name, b));
}

/// The index bytes have sixteen bytes and spell `ix + 2^127`.
pub proof fn lemma_index_bytes(ix: i128)
    ensures
        index_bytes(ix).len() == 16,
        be_value(index_bytes(ix)) == index_offset(ix),
{
    lemma_be_bytes_len(index_offset(ix), 16);
    lemma_be_value_of_bytes(index_offset(ix), 16);
    lemma_pow256_values();
}

/// Distinct physical indices have distinct key bytes.
pub proof fn lemma_index_bytes_injective(a: i128, b: i128)
    requires
        index_bytes(a) == index_bytes(b),
    ensures
        a == b,
{
    lemma_index_bytes(a);
    lemma_index_bytes(b);
}

/// Distinct logical keys encode to distinct bytes, save for the pairs whose
/// layouts coincide.
pub proof fn lemma_encode_injective(k1: LogicalKey, k2: LogicalKey)
    requires
        k1 != k2,
        !shares_layout(k1, k2),
    ensures
        key_bytes(k1) != key_bytes(k2),
{
    if key_bytes(k1) == key_bytes(k2) {
        lemma_key_split(k1);
        lemma_key_split(k2);
        lemma_escaped_prefix_unique(key_name(k1), key_tail(k1), key_name(k2), key_tail(k2));
        let t = key_tail(k1);
        match k1 {
            LogicalKey::List(_, ix) => {
                lemma_index_bytes(ix);
                assert(t[0] == ITEM_MARK);
                assert(t.len() == 17);
                match k2 {
                    LogicalKey::List(_, ix2) => {
                        assert(index_bytes(ix) =~= t.subrange(1, 17));
                        lemma_index_bytes(ix2);
                        assert(index_bytes(ix2) =~= t.subrange(1, 17));
                        lemma_index_bytes_injective(ix, ix2);
                    },
                    LogicalKey::Table(_, key) => {
                        assert(index_bytes(ix) =~= t.subrange(1, 17));
                        assert(escape_seq(key) + term_seq() =~= t.subrange(1, 17));
                    },
                    _ => {
                        assert(key_tail(k2).len() <= 1);
                    },
                }
            },
            LogicalKey::Table(_, key) => {
                assert(t[0] == ITEM_MARK);
                match k2 {
                    LogicalKey::Table(_, key2) => {
                        assert(escape_seq(key) + term_seq() + Seq::<u8>::empty() =~= t.subrange(
                            1,
                            t.len() as int,
                        ));
                        assert(escape_seq(key2) + term_seq() + Seq::<u8>::empty() =~= t.subrange(
                            1,
                            t.len() as int,
                        ));
                        lemma_escaped_prefix_unique(key, Seq::empty(), key2, Seq::empty());
                    },
                    LogicalKey::List(_, ix2) => {
                        lemma_index_bytes(ix2);
                        assert(index_bytes(ix2) =~= t.subrange(1, t.len() as int));
                        assert(escape_seq(key) + term_seq() =~= t.subrange(1, t.len() as int));
                    },
                    _ => {
                        assert(t.len() >= 3);
                    },
                }
            },
            LogicalKey::Blob(_) => {
                assert(key_tail(k2).len() == 0);
            },
            LogicalKey::ListMeta(_) => {
                assert(key_tail(k2)[0] == META_MARK);
                assert(key_tail(k2).len() == 1);
            },
            LogicalKey::TableMeta(_) => {
                assert(key_tail(k2)[0] == META_MARK);
                assert(key_tail(k2).len() == 1);
            },
        }
    }
}

/// Item keys of one list differ when their indices do, and none is the
/// metadata key.
pub proof fn lemma_list_item_keys(name: Seq<u8>, a: i128, b: i128)
    ensures
        list_item_key(name, a) == list_item_key(name, b) ==> a == b,
        list_item_key(name, a) != meta_key(name),
{
    lemma_index_bytes(a);
    lemma_index_bytes(b);
    let p = bare_key(name).push(ITEM_MARK);
    if list_item_key(name, a) == list_item_key(name, b) {
        assert(index_bytes(a) =~= list_item_key(name, a).subrange(p.len() as int, p.len() as int + 16));
        assert(index_bytes(b) =~= list_item_key(name, b).subrange(p.len() as int, p.len() as int + 16));
        lemma_index_bytes_injective(a, b);
    }
    assert(list_item_key(name, a).len() != meta_key(name).len());
}

/// Item keys of one table differ when their keys do, and none is the
/// metadata key.
pub proof fn lemma_table_item_keys(name: Seq<u8>, a: Seq<u8>, b: Seq<u8>)
    ensures
        table_item_key(name, a) == table_item_key(name, b) ==> a == b,
        table_item_key(name, a) != meta_key(name),
{
    let p = bare_key(name).push(ITEM_MARK);
    let ka = table_item_key(name, a);
    let kb = table_item_key(name, b);
    if ka == kb {
        assert(escape_seq(a) + term_seq() + Seq::<u8>::empty() =~= ka.subrange(
            p.len() as int,
            ka.len() as int,
        ));
        assert(escape_seq(b) + term_seq() + Seq::<u8>::empty() =~= kb.subrange(
            p.len() as int,
            kb.len() as int,
        ));
        lemma_escaped_prefix_unique(a, Seq::empty(), b, Seq::empty());
    }
    assert(ka.len() != meta_key(name).len());
}

/// The key bytes of a physical index: `ix XOR i128::MIN`, big-endian.
pub fn encode_list_index(i: ListIndex) -> (r: [u8; INDEX_BYTES])
    ensures
        r@ == index_bytes(i),
{
    let u: u128 = if i < 0 {
        (i - i128::MIN) as u128
    } else {
        i as u128 + 0x8000_0000_0000_0000_0000_0000_0000_0000u128
    };
    let mut v: Vec<u8> = Vec::with_capacity(INDEX_BYTES);
    push_be(&mut v, u, INDEX_BYTES);
    proof {
        lemma_be_bytes_len(u as nat, 16);
        assert(v@ =~= index_bytes(i));
    }
    let mut out = [0u8; INDEX_BYTES];
    let mut j: usize = 0;
    while j < INDEX_BYTES
        invariant
            j <= 16,
            v@.len() == 16,
            out@.len() == 16,
            forall|m: int| 0 <= m < j ==> out@[m] == v@[m],
        decreases 16 - j,
    {
        out[j] = v[j];
        j += 1;
    }
    assert(out@ =~= v@);
    out
}

/// The physical index that sixteen key bytes spell, if there are sixteen.
pub fn decode_list_index(inp: &[u8]) -> (r: Option<ListIndex>)
    ensures
        inp@.len() != 16 ==> r is None,
        inp@.len() == 16 ==> r is Some && index_bytes(r->Some_0) == inp@,
{
    if inp.len() != INDEX_BYTES {
        return None;
    }
    let u = read_be(inp, 0, INDEX_BYTES);
    let ix: i128 = if u >= 0x8000_0000_0000_0000_0000_0000_0000_0000u128 {
        (u - 0x8000_0000_0000_0000_0000_0000_0000_0000u128) as i128
    } else {
        (u as i128) + i128::MIN
    };
    proof {
        assert(inp@.subrange(0, 16) =~= inp@);
        lemma_index_bytes(ix);
        lemma_be_value_injective(index_bytes(ix), inp@);
    }
    Some(ix)
}

/// `escape(name) ‖ TERMINATOR`.
pub fn bare(name: &[u8]) -> (r: Vec<u8>)
    ensures
        r@ == bare_key(name@),
{
    let mut out: Vec<u8> = Vec::with_capacity(name.len());
    escape_into(name, &mut out);
    out.push(NULL);
    out.push(TERMINATE_CHAR);
    assert(out@ =~= bare_key(name@));
    out
}

/// The key of the blob `name`.
pub fn blob(name: &[u8]) -> (r: Vec<u8>)
    ensures
        r@ == bare_key(name@),
{
    bare(name)
}

fn list_inner(name: &[u8], ix: Option<ListIndex>) -> (r: Vec<u8>)
    ensures
        r@ == match ix {
            Some(i) => list_item_key(name@, i),
            None => meta_key(name@),
        },
{
    let mut out = bare(name);
    match ix {
        Some(i) => {
            out.push(ITEM_MARK);
            let ix_bytes = encode_list_index(i);
            let mut j: usize = 0;
            let ghost start = out@;
            while j < INDEX_BYTES
                invariant
                    j <= 16,
                    ix_bytes@.len() == 16,
                    out@ == start + ix_bytes@.subrange(0, j as int),
                decreases 16 - j,
            {
                out.push(ix_bytes[j]);
                assert(ix_bytes@.subrange(0, j + 1) =~= ix_bytes@.subrange(0, j as int).push(
                    ix_bytes@[j as int],
                ));
                j += 1;
            }
            assert(ix_bytes@.subrange(0, 16) =~= ix_bytes@);
        },
        None => {
            out.push(META_MARK);
        },
    }
    out
}

/// The key of the list item at physical index `ix`.
pub fn list(name: &[u8], ix: ListIndex) -> (r: Vec<u8>)
    ensures
        r@ == list_item_key(name@, ix),
{
    list_inner(name, Some(ix))
}

/// The metadata key of the list `name`.
pub fn list_meta(name: &[u8]) -> (r: Vec<u8>)
    ensures
        r@ == meta_key(name@),
{
    list_inner(name, None)
}

fn table_inner(name: &[u8], key: Option<&[u8]>) -> (r: Vec<u8>)
    ensures
        r@ == match key {
            Some(k) => table_item_key(name@, k@),
            None => meta_key(name@),
        },
{
    let mut out = bare(name);
    match key {
        Some(k) => {
            out.push(ITEM_MARK);
            escape_into(k, &mut out);
            out.push(NULL);
            out.push(TERMINATE_CHAR);
            assert(out@ =~= table_item_key(name@, k@));
        },
        None => {
            out.push(META_MARK);
        },
    }
    out
}

/// The key of the table item under `key`.
pub fn table(name: &[u8], key: &[u8]) -> (r: Vec<u8>)
    ensures
        r@ == table_item_key(name@, key@),
{
    table_inner(name, Some(key))
}

/// The metadata key of the table `name`.
pub fn table_meta(name: &[u8]) -> (r: Vec<u8>)
    ensures
        r@ == meta_key(name@),
{
    table_inner(name, None)
}

} // verus!
