use vstd::prelude::*;

use crate::Error;
use crate::value::{
    Val, Value, views_of, kvs_of, val_depth, items_depth, kvs_depth, val_sized, items_sized,
    kvs_sized, val_wf, MAX_DEPTH, lemma_views_of, lemma_kvs_of, lemma_views_of_push,
    lemma_kvs_of_push, lemma_items_sized_index, lemma_kvs_sized_index,
};
use vstd::slice::{slice_subrange, slice_to_vec};

verus! {

pub const TAG_NULL: u8 = 0;

pub const TAG_BOOL: u8 = 1;

pub const TAG_I32: u8 = 2;

pub const TAG_U32: u8 = 3;

pub const TAG_I64: u8 = 4;

pub const TAG_U64: u8 = 5;

pub const TAG_F32: u8 = 6;

pub const TAG_F64: u8 = 7;

pub const TAG_STR: u8 = 8;

pub const TAG_ARR: u8 = 9;

pub const TAG_DICT: u8 = 10;

/// A document: one tagged value tree whose root is a map, together with
/// the byte order recorded at parse time and kept for re-serialization.
#[derive(Debug, PartialEq)]
pub struct Document {
    pub root: Value,
    pub big_endian: bool,
}

/// The model of a document.
#[verifier::ext_equal]
pub struct DocModel {
    pub root: Val,
    pub big: bool,
}

impl View for Document {
    type V = DocModel;

    open spec fn view(&self) -> DocModel {
        DocModel { root: self.root@, big: self.big_endian }
    }
}

/// A well-formed document: the root is a map and the tree is sized and
/// bounded in depth.
pub open spec fn doc_wf(d: DocModel) -> bool {
    d.root is Dict && val_wf(d.root)
}

/// A 32-bit value in the given byte order, most significant byte first
/// when `big` holds.
#[verifier::opaque]
pub open spec fn byte_of_u32(x: u32, k: u32) -> u8 {
    ((x >> (8 * k)) & 0xFF) as u8
}

#[verifier::opaque]
pub open spec fn byte_of_u64(x: u64, k: u64) -> u8 {
    ((x >> (8 * k)) & 0xFF) as u8
}

pub open spec fn ser_u32(x: u32, big: bool) -> Seq<u8> {
    if big {
        seq![byte_of_u32(x, 3), byte_of_u32(x, 2), byte_of_u32(x, 1), byte_of_u32(x, 0)]
    } else {
        seq![byte_of_u32(x, 0), byte_of_u32(x, 1), byte_of_u32(x, 2), byte_of_u32(x, 3)]
    }
}

/// A 64-bit value in the given byte order.
pub open spec fn ser_u64(x: u64, big: bool) -> Seq<u8> {
    if big {
        seq![
            byte_of_u64(x, 7), byte_of_u64(x, 6), byte_of_u64(x, 5), byte_of_u64(x, 4),
            byte_of_u64(x, 3), byte_of_u64(x, 2), byte_of_u64(x, 1), byte_of_u64(x, 0),
        ]
    } else {
        seq![
            byte_of_u64(x, 0), byte_of_u64(x, 1), byte_of_u64(x, 2), byte_of_u64(x, 3),
            byte_of_u64(x, 4), byte_of_u64(x, 5), byte_of_u64(x, 6), byte_of_u64(x, 7),
        ]
    }
}

pub open spec fn u32_from(a: u8, b: u8, c: u8, d: u8) -> u32 {
    ((a as u32) << 24) | ((b as u32) << 16) | ((c as u32) << 8) | (d as u32)
}

pub open spec fn u64_from(a: u8, b: u8, c: u8, d: u8, e: u8, f: u8, g: u8, h: u8) -> u64 {
    ((a as u64) << 56) | ((b as u64) << 48) | ((c as u64) << 40) | ((d as u64) << 32)
        | ((e as u64) << 24) | ((f as u64) << 16) | ((g as u64) << 8) | (h as u64)
}

/// The 32-bit value held in the first four bytes of `s`.
pub open spec fn rd_u32(s: Seq<u8>, big: bool) -> u32 {
    if big {
        u32_from(s[0], s[1], s[2], s[3])
    } else {
        u32_from(s[3], s[2], s[1], s[0])
    }
}

/// The 64-bit value held in the first eight bytes of `s`.
pub open spec fn rd_u64(s: Seq<u8>, big: bool) -> u64 {
    if big {
        u64_from(s[0], s[1], s[2], s[3], s[4], s[5], s[6], s[7])
    } else {
        u64_from(s[7], s[6], s[5], s[4], s[3], s[2], s[1], s[0])
    }
}

pub proof fn lemma_rd_ser_u32(x: u32, big: bool, tail: Seq<u8>)
    ensures
        rd_u32(ser_u32(x, big) + tail, big) == x,
        (ser_u32(x, big) + tail).skip(4) == tail,
        (ser_u32(x, big) + tail).len() == 4 + tail.len(),
{
    reveal(byte_of_u32);
    let s = ser_u32(x, big) + tail;
    assert(s[0] == ser_u32(x, big)[0] && s[1] == ser_u32(x, big)[1] && s[2] == ser_u32(x, big)[2]
        && s[3] == ser_u32(x, big)[3]);
    assert(u32_from(
        ((x >> 24) & 0xFF) as u8,
        ((x >> 16) & 0xFF) as u8,
        ((x >> 8) & 0xFF) as u8,
        ((x >> 0) & 0xFF) as u8,
    ) == x) by (bit_vector);
    assert(byte_of_u32(x, 3) == ((x >> 24) & 0xFF) as u8 && byte_of_u32(x, 2) == ((x >> 16)
        & 0xFF) as u8 && byte_of_u32(x, 1) == ((x >> 8) & 0xFF) as u8 && byte_of_u32(x, 0) == ((x
        >> 0) & 0xFF) as u8);
    assert(s.skip(4) =~= tail);
}

pub proof fn lemma_rd_ser_u64(x: u64, big: bool, tail: Seq<u8>)
    ensures
        rd_u64(ser_u64(x, big) + tail, big) == x,
        (ser_u64(x, big) + tail).skip(8) == tail,
        (ser_u64(x, big) + tail).len() == 8 + tail.len(),
{
    reveal(byte_of_u64);
    let s = ser_u64(x, big) + tail;
    assert(s[0] == ser_u64(x, big)[0] && s[1] == ser_u64(x, big)[1] && s[2] == ser_u64(x, big)[2]
        && s[3] == ser_u64(x, big)[3] && s[4] == ser_u64(x, big)[4] && s[5] == ser_u64(x, big)[5]
        && s[6] == ser_u64(x, big)[6] && s[7] == ser_u64(x, big)[7]);
    assert(u64_from(
        ((x >> 56) & 0xFF) as u8,
        ((x >> 48) & 0xFF) as u8,
        ((x >> 40) & 0xFF) as u8,
        ((x >> 32) & 0xFF) as u8,
        ((x >> 24) & 0xFF) as u8,
        ((x >> 16) & 0xFF) as u8,
        ((x >> 8) & 0xFF) as u8,
        ((x >> 0) & 0xFF) as u8,
    ) == x) by (bit_vector);
    assert(byte_of_u64(x, 7) == ((x >> 56) & 0xFF) as u8 && byte_of_u64(x, 6) == ((x >> 48)
        & 0xFF) as u8 && byte_of_u64(x, 5) == ((x >> 40) & 0xFF) as u8 && byte_of_u64(x, 4) == ((x
        >> 32) & 0xFF) as u8 && byte_of_u64(x, 3) == ((x >> 24) & 0xFF) as u8 && byte_of_u64(x, 2)
        == ((x >> 16) & 0xFF) as u8 && byte_of_u64(x, 1) == ((x >> 8) & 0xFF) as u8 && byte_of_u64(
        x,
        0,
    ) == ((x >> 0) & 0xFF) as u8);
    assert(s.skip(8) =~= tail);
}

/// The byte encoding of one node: a tag byte, then the payload, with
/// counts and multi-byte integers in the document's byte order.
pub open spec fn ser_val(v: Val, big: bool) -> Seq<u8>
    decreases v,
{
    match v {
        Val::Null => seq![TAG_NULL],
        Val::Bool(b) => seq![TAG_BOOL, if b { 1u8 } else { 0u8 }],
        Val::I32(x) => seq![TAG_I32] + ser_u32(x as u32, big),
        Val::U32(x) => seq![TAG_U32] + ser_u32(x, big),
        Val::I64(x) => seq![TAG_I64] + ser_u64(x as u64, big),
        Val::U64(x) => seq![TAG_U64] + ser_u64(x, big),
        Val::F32Bits(x) => seq![TAG_F32] + ser_u32(x, big),
        Val::F64Bits(x) => seq![TAG_F64] + ser_u64(x, big),
        Val::Str(s) => seq![TAG_STR] + ser_u32(s.len() as u32, big) + s,
        Val::Arr(items) => seq![TAG_ARR] + ser_u32(items.len() as u32, big)
            + ser_items(items, big),
        Val::Dict(entries) => seq![TAG_DICT] + ser_u32(entries.len() as u32, big)
            + ser_kvs(entries, big),
    }
}

/// The encodings of a sequence of nodes, one after the other.
pub open spec fn ser_items(items: Seq<Val>, big: bool) -> Seq<u8>
    decreases items,
{
    if items.len() == 0 {
        Seq::empty()
    } else {
        ser_val(items[0], big) + ser_items(items.drop_first(), big)
    }
}

/// The encodings of a sequence of map entries: each key as a counted byte
/// string, then the value.
pub open spec fn ser_kvs(entries: Seq<(Seq<u8>, Val)>, big: bool) -> Seq<u8>
    decreases entries,
{
    if entries.len() == 0 {
        Seq::empty()
    } else {
        ser_u32(entries[0].0.len() as u32, big) + entries[0].0 + ser_val(entries[0].1, big)
            + ser_kvs(entries.drop_first(), big)
    }
}

/// Appending one node appends its encoding.
pub proof fn lemma_ser_items_snoc(vs: Seq<Val>, v: Val, big: bool)
    ensures
        ser_items(vs.push(v), big) == ser_items(vs, big) + ser_val(v, big),
    decreases vs,
{
    reveal_with_fuel(ser_items, 3);
    if vs.len() == 0 {
        assert(vs.push(v)[0] == v);
        assert(vs.push(v).drop_first() =~= Seq::<Val>::empty());
        assert(ser_items(vs.push(v), big) =~= ser_items(vs, big) + ser_val(v, big));
    } else {
        lemma_ser_items_snoc(vs.drop_first(), v, big);
        assert(vs.push(v)[0] == vs[0]);
        assert(vs.push(v).drop_first() =~= vs.drop_first().push(v));
        assert(ser_items(vs.push(v), big) == ser_val(vs[0], big) + ser_items(
            vs.drop_first().push(v),
            big,
        ));
        assert(ser_items(vs.push(v), big) =~= ser_items(vs, big) + ser_val(v, big));
    }
}

/// Appending one entry appends its encoding.
pub proof fn lemma_ser_kvs_snoc(es: Seq<(Seq<u8>, Val)>, e: (Seq<u8>, Val), big: bool)
    ensures
        ser_kvs(es.push(e), big) == ser_kvs(es, big) + ser_u32(e.0.len() as u32, big) + e.0
            + ser_val(e.1, big),
    decreases es,
{
    reveal_with_fuel(ser_kvs, 3);
    if es.len() == 0 {
        assert(es.push(e)[0] == e);
        assert(es.push(e).drop_first() =~= Seq::<(Seq<u8>, Val)>::empty());
        assert(ser_kvs(es.push(e), big) =~= ser_kvs(es, big) + ser_u32(e.0.len() as u32, big)
            + e.0 + ser_val(e.1, big));
    } else {
        lemma_ser_kvs_snoc(es.drop_first(), e, big);
        assert(es.push(e)[0] == es[0]);
        assert(es.push(e).drop_first() =~= es.drop_first().push(e));
        assert(ser_kvs(es.push(e), big) == ser_u32(es[0].0.len() as u32, big) + es[0].0 + ser_val(
            es[0].1,
            big,
        ) + ser_kvs(es.drop_first().push(e), big));
        assert(ser_kvs(es.push(e), big) =~= ser_kvs(es, big) + ser_u32(e.0.len() as u32, big)
            + e.0 + ser_val(e.1, big));
    }
}

/// The parse of one node from the front of `s`, with at most `d` further
/// levels of nesting allowed: the node and the remaining bytes, or nothing
/// where the bytes are not an encoding.
pub open spec fn pval(s: Seq<u8>, big: bool, d: nat) -> Option<(Val, Seq<u8>)>
    decreases d, 0nat, 0nat,
{
    if s.len() < 1 {
        None
    } else {
        let t = s[0];
        let r = s.drop_first();
        if t == TAG_NULL {
            Some((Val::Null, r))
        } else if t == TAG_BOOL {
            if r.len() < 1 {
                None
            } else if r[0] == 0 {
                Some((Val::Bool(false), r.drop_first()))
            } else if r[0] == 1 {
                Some((Val::Bool(true), r.drop_first()))
            } else {
                None
            }
        } else if t == TAG_I32 {
            if r.len() < 4 {
                None
            } else {
                Some((Val::I32(rd_u32(r, big) as i32), r.skip(4)))
            }
        } else if t == TAG_U32 {
            if r.len() < 4 {
                None
            } else {
                Some((Val::U32(rd_u32(r, big)), r.skip(4)))
            }
        } else if t == TAG_I64 {
            if r.len() < 8 {
                None
            } else {
                Some((Val::I64(rd_u64(r, big) as i64), r.skip(8)))
            }
        } else if t == TAG_U64 {
            if r.len() < 8 {
                None
            } else {
                Some((Val::U64(rd_u64(r, big)), r.skip(8)))
            }
        } else if t == TAG_F32 {
            if r.len() < 4 {
                None
            } else {
                Some((Val::F32Bits(rd_u32(r, big)), r.skip(4)))
            }
        } else if t == TAG_F64 {
            if r.len() < 8 {
                None
            } else {
                Some((Val::F64Bits(rd_u64(r, big)), r.skip(8)))
            }
        } else if t == TAG_STR {
            if r.len() < 4 {
                None
            } else {
                let n = rd_u32(r, big) as int;
                let r2 = r.skip(4);
                if r2.len() < n {
                    None
                } else {
                    Some((Val::Str(r2.take(n)), r2.skip(n)))
                }
            }
        } else if t == TAG_ARR {
            if d == 0 || r.len() < 4 {
                None
            } else {
                let n = rd_u32(r, big) as nat;
                match pitems(r.skip(4), n, big, (d - 1) as nat) {
                    Some((vs, rest)) => Some((Val::Arr(vs), rest)),
                    None => None,
                }
            }
        } else if t == TAG_DICT {
            if d == 0 || r.len() < 4 {
                None
            } else {
                let n = rd_u32(r, big) as nat;
                match pkvs(r.skip(4), n, big, (d - 1) as nat) {
                    Some((es, rest)) => Some((Val::Dict(es), rest)),
                    None => None,
                }
            }
        } else {
            None
        }
    }
}

/// The parse of `n` nodes in a row.
pub open spec fn pitems(s: Seq<u8>, n: nat, big: bool, d: nat) -> Option<(Seq<Val>, Seq<u8>)>
    decreases d, 1nat, n,
{
    if n == 0 {
        Some((Seq::empty(), s))
    } else {
        match pval(s, big, d) {
            Some((v, r)) => match pitems(r, (n - 1) as nat, big, d) {
                Some((vs, rest)) => Some((seq![v] + vs, rest)),
                None => None,
            },
            None => None,
        }
    }
}

/// The parse of `n` map entries in a row.
pub open spec fn pkvs(s: Seq<u8>, n: nat, big: bool, d: nat) -> Option<
    (Seq<(Seq<u8>, Val)>, Seq<u8>),
>
    decreases d, 1nat, n,
{
    if n == 0 {
        Some((Seq::empty(), s))
    } else if s.len() < 4 {
        None
    } else {
        let kl = rd_u32(s, big) as int;
        let r = s.skip(4);
        if r.len() < kl {
            None
        } else {
            let key = r.take(kl);
            match pval(r.skip(kl), big, d) {
                Some((v, r2)) => match pkvs(r2, (n - 1) as nat, big, d) {
                    Some((es, rest)) => Some((seq![(key, v)] + es, rest)),
                    None => None,
                },
                None => None,
            }
        }
    }
}

/// Parsing inverts serialization: the encoding of a sized node of depth at
/// most `d`, followed by anything, parses back to that node with the
/// remainder untouched.
#[verifier::rlimit(100)]
pub proof fn lemma_pval_ser(v: Val, rest: Seq<u8>, big: bool, d: nat)
    requires
        val_sized(v),
        d >= val_depth(v),
    ensures
        pval(ser_val(v, big) + rest, big, d) == Some((v, rest)),
    decreases v,
{
    let s = ser_val(v, big) + rest;
    match v {
        Val::Null => {
            assert(s[0] == TAG_NULL);
            assert(s.drop_first() =~= rest);
        }
        Val::Bool(b) => {
            assert(s[0] == TAG_BOOL);
            assert(s.drop_first()[0] == (if b { 1u8 } else { 0u8 }));
            assert(s.drop_first().drop_first() =~= rest);
        }
        Val::I32(x) => {
            assert(s.drop_first() =~= ser_u32(x as u32, big) + rest);
            lemma_rd_ser_u32(x as u32, big, rest);
            assert((x as u32) as i32 == x) by (bit_vector);
        }
        Val::U32(x) => {
            assert(s.drop_first() =~= ser_u32(x, big) + rest);
            lemma_rd_ser_u32(x, big, rest);
        }
        Val::I64(x) => {
            assert(s.drop_first() =~= ser_u64(x as u64, big) + rest);
            lemma_rd_ser_u64(x as u64, big, rest);
            assert((x as u64) as i64 == x) by (bit_vector);
        }
        Val::U64(x) => {
            assert(s.drop_first() =~= ser_u64(x, big) + rest);
            lemma_rd_ser_u64(x, big, rest);
        }
        Val::F32Bits(x) => {
            assert(s.drop_first() =~= ser_u32(x, big) + rest);
            lemma_rd_ser_u32(x, big, rest);
        }
        Val::F64Bits(x) => {
            assert(s.drop_first() =~= ser_u64(x, big) + rest);
            lemma_rd_ser_u64(x, big, rest);
        }
        Val::Str(st) => {
            assert(s[0] == TAG_STR);
            let r = s.drop_first();
            assert(r =~= ser_u32(st.len() as u32, big) + (st + rest));
            lemma_rd_ser_u32(st.len() as u32, big, st + rest);
            assert(rd_u32(r, big) == st.len() as u32);
            assert(st.len() as u32 as int == st.len() as int);
            let r2 = r.skip(4);
            assert(r2 =~= st + rest);
            assert(r2.take(st.len() as int) =~= st);
            assert(r2.skip(st.len() as int) =~= rest);
        }
        Val::Arr(items) => {
            assert(s[0] == TAG_ARR);
            assert(d >= 1);
            let r = s.drop_first();
            assert(r =~= ser_u32(items.len() as u32, big) + (ser_items(items, big) + rest));
            lemma_rd_ser_u32(items.len() as u32, big, ser_items(items, big) + rest);
            assert(rd_u32(r, big) == items.len() as u32);
            assert(items.len() as u32 as nat == items.len());
            assert(r.skip(4) =~= ser_items(items, big) + rest);
            lemma_pitems_ser(items, rest, big, (d - 1) as nat);
        }
        Val::Dict(entries) => {
            assert(s[0] == TAG_DICT);
            assert(d >= 1);
            let r = s.drop_first();
            assert(r =~= ser_u32(entries.len() as u32, big) + (ser_kvs(entries, big) + rest));
            lemma_rd_ser_u32(entries.len() as u32, big, ser_kvs(entries, big) + rest);
            assert(rd_u32(r, big) == entries.len() as u32);
            assert(entries.len() as u32 as nat == entries.len());
            assert(r.skip(4) =~= ser_kvs(entries, big) + rest);
            lemma_pkvs_ser(entries, rest, big, (d - 1) as nat);
        }
    }
}

pub proof fn lemma_pitems_ser(items: Seq<Val>, rest: Seq<u8>, big: bool, d: nat)
    requires
        items_sized(items),
        d >= items_depth(items),
    ensures
        pitems(ser_items(items, big) + rest, items.len(), big, d) == Some((items, rest)),
    decreases items,
{
    if items.len() == 0 {
        assert(ser_items(items, big) + rest =~= rest);
        assert(seq![] + Seq::<Val>::empty() =~= Seq::<Val>::empty());
        assert(pitems(rest, 0, big, d) == Some((Seq::<Val>::empty(), rest)));
        assert(items =~= Seq::<Val>::empty());
    } else {
        let s = ser_items(items, big) + rest;
        assert(s =~= ser_val(items[0], big) + (ser_items(items.drop_first(), big) + rest));
        lemma_pval_ser(items[0], ser_items(items.drop_first(), big) + rest, big, d);
        lemma_pitems_ser(items.drop_first(), rest, big, d);
        assert(seq![items[0]] + items.drop_first() =~= items);
    }
}

#[verifier::rlimit(100)]
#[verifier::spinoff_prover]
pub proof fn lemma_pkvs_ser(entries: Seq<(Seq<u8>, Val)>, rest: Seq<u8>, big: bool, d: nat)
    requires
        kvs_sized(entries),
        d >= kvs_depth(entries),
    ensures
        pkvs(ser_kvs(entries, big) + rest, entries.len(), big, d) == Some((entries, rest)),
    decreases entries,
{
    if entries.len() == 0 {
        assert(ser_kvs(entries, big) + rest =~= rest);
        assert(entries =~= Seq::<(Seq<u8>, Val)>::empty());
    } else {
        let key = entries[0].0;
        let v0 = entries[0].1;
        let tail = entries.drop_first();
        let s = ser_kvs(entries, big) + rest;
        let a = ser_u32(key.len() as u32, big);
        let c = ser_val(v0, big);
        let e = ser_kvs(tail, big);
        assert(ser_kvs(entries, big) == a + key + c + e);
        assert(s =~= a + (key + (c + (e + rest)))) by {
            assert(ser_kvs(entries, big) == a + key + c + e);
        }
        lemma_rd_ser_u32(key.len() as u32, big, key + (c + (e + rest)));
        assert(rd_u32(s, big) == key.len() as u32);
        assert(key.len() as u32 as int == key.len() as int);
        let r = s.skip(4);
        assert(r =~= key + (c + (e + rest))) by {
            assert(s == a + (key + (c + (e + rest))));
            assert((a + (key + (c + (e + rest)))).skip(4) == key + (c + (e + rest)));
        }
        assert(r.take(key.len() as int) =~= key);
        assert(r.skip(key.len() as int) =~= c + (e + rest));
        lemma_pval_ser(v0, e + rest, big, d);
        lemma_pkvs_ser(tail, rest, big, d);
        assert(seq![(key, v0)] + tail =~= entries);
        assert(pkvs(s, entries.len(), big, d) == Some((entries, rest)));
    }
}

/// Whatever parses is sized: every count that was read fits 32 bits.
pub proof fn lemma_pval_sized(s: Seq<u8>, big: bool, d: nat)
    ensures
        pval(s, big, d) matches Some(p) ==> val_sized(p.0),
    decreases d, 0nat, 0nat,
{
    if s.len() >= 1 {
        let t = s[0];
        let r = s.drop_first();
        if t == TAG_STR {
            if r.len() >= 4 {
                let n = rd_u32(r, big) as int;
                if r.skip(4).len() >= n {
                    assert(r.skip(4).take(n).len() == n);
                }
            }
        } else if t == TAG_ARR {
            if !(d == 0 || r.len() < 4) {
                lemma_pitems_sized(r.skip(4), rd_u32(r, big) as nat, big, (d - 1) as nat);
            }
        } else if t == TAG_DICT {
            if !(d == 0 || r.len() < 4) {
                lemma_pkvs_sized(r.skip(4), rd_u32(r, big) as nat, big, (d - 1) as nat);
            }
        }
    }
}

pub proof fn lemma_pitems_sized(s: Seq<u8>, n: nat, big: bool, d: nat)
    ensures
        pitems(s, n, big, d) matches Some(p) ==> items_sized(p.0) && p.0.len() == n,
    decreases d, 1nat, n,
{
    if n > 0 {
        lemma_pval_sized(s, big, d);
        if pval(s, big, d) is Some {
            let (v, r) = pval(s, big, d)->Some_0;
            lemma_pitems_sized(r, (n - 1) as nat, big, d);
            if pitems(r, (n - 1) as nat, big, d) is Some {
                let vs = pitems(r, (n - 1) as nat, big, d)->Some_0.0;
                assert((seq![v] + vs)[0] == v);
                assert((seq![v] + vs).drop_first() =~= vs);
            }
        }
    }
}

pub proof fn lemma_pkvs_sized(s: Seq<u8>, n: nat, big: bool, d: nat)
    ensures
        pkvs(s, n, big, d) matches Some(p) ==> kvs_sized(p.0) && p.0.len() == n,
    decreases d, 1nat, n,
{
    if n > 0 && s.len() >= 4 {
        let kl = rd_u32(s, big) as int;
        let r = s.skip(4);
        if r.len() >= kl {
            let key = r.take(kl);
            assert(key.len() == kl);
            lemma_pval_sized(r.skip(kl), big, d);
            if pval(r.skip(kl), big, d) is Some {
                let (v, r2) = pval(r.skip(kl), big, d)->Some_0;
                lemma_pkvs_sized(r2, (n - 1) as nat, big, d);
                if pkvs(r2, (n - 1) as nat, big, d) is Some {
                    let es = pkvs(r2, (n - 1) as nat, big, d)->Some_0.0;
                    assert((seq![(key, v)] + es)[0] == (key, v));
                    assert((seq![(key, v)] + es).drop_first() =~= es);
                }
            }
        }
    }
}

/// Whatever parses with budget `d` nests at most `d` levels deep.
pub proof fn lemma_pval_depth(s: Seq<u8>, big: bool, d: nat)
    ensures
        pval(s, big, d) matches Some(p) ==> val_depth(p.0) <= d,
    decreases d, 0nat, 0nat,
{
    if s.len() >= 1 {
        let t = s[0];
        let r = s.drop_first();
        if t == TAG_ARR {
            if !(d == 0 || r.len() < 4) {
                lemma_pitems_depth(r.skip(4), rd_u32(r, big) as nat, big, (d - 1) as nat);
            }
        } else if t == TAG_DICT {
            if !(d == 0 || r.len() < 4) {
                lemma_pkvs_depth(r.skip(4), rd_u32(r, big) as nat, big, (d - 1) as nat);
            }
        }
    }
}

pub proof fn lemma_pitems_depth(s: Seq<u8>, n: nat, big: bool, d: nat)
    ensures
        pitems(s, n, big, d) matches Some(p) ==> items_depth(p.0) <= d,
    decreases d, 1nat, n,
{
    if n > 0 {
        lemma_pval_depth(s, big, d);
        if pval(s, big, d) is Some {
            let (v, r) = pval(s, big, d)->Some_0;
            lemma_pitems_depth(r, (n - 1) as nat, big, d);
            if pitems(r, (n - 1) as nat, big, d) is Some {
                let vs = pitems(r, (n - 1) as nat, big, d)->Some_0.0;
                assert((seq![v] + vs)[0] == v);
                assert((seq![v] + vs).drop_first() =~= vs);
            }
        }
    }
}

pub proof fn lemma_pkvs_depth(s: Seq<u8>, n: nat, big: bool, d: nat)
    ensures
        pkvs(s, n, big, d) matches Some(p) ==> kvs_depth(p.0) <= d,
    decreases d, 1nat, n,
{
    if n > 0 && s.len() >= 4 {
        let kl = rd_u32(s, big) as int;
        let r = s.skip(4);
        if r.len() >= kl {
            let key = r.take(kl);
            lemma_pval_depth(r.skip(kl), big, d);
            if pval(r.skip(kl), big, d) is Some {
                let (v, r2) = pval(r.skip(kl), big, d)->Some_0;
                lemma_pkvs_depth(r2, (n - 1) as nat, big, d);
                if pkvs(r2, (n - 1) as nat, big, d) is Some {
                    let es = pkvs(r2, (n - 1) as nat, big, d)->Some_0.0;
                    assert((seq![(key, v)] + es)[0] == (key, v));
                    assert((seq![(key, v)] + es).drop_first() =~= es);
                }
            }
        }
    }
}

/// The two leading bytes that announce the byte order.
pub open spec fn order_mark(big: bool) -> Seq<u8> {
    if big {
        seq![66u8, 89u8]
    } else {
        seq![89u8, 66u8]
    }
}

/// The byte encoding of a whole document: the order mark, then the root.
pub open spec fn spec_serialize(d: DocModel) -> Seq<u8> {
    order_mark(d.big) + ser_val(d.root, d.big)
}

/// The document held in a raw buffer, or nothing where the buffer is not
/// a whole, well-marked encoding of a map root.
pub open spec fn spec_parse(s: Seq<u8>) -> Option<DocModel> {
    if s.len() < 2 {
        None
    } else if s[0] == 66 && s[1] == 89 {
        spec_parse_body(s.skip(2), true)
    } else if s[0] == 89 && s[1] == 66 {
        spec_parse_body(s.skip(2), false)
    } else {
        None
    }
}

pub open spec fn spec_parse_body(s: Seq<u8>, big: bool) -> Option<DocModel> {
    match pval(s, big, MAX_DEPTH as nat) {
        Some((v, rest)) => if rest.len() == 0 && v is Dict {
            Some(DocModel { root: v, big })
        } else {
            None
        },
        None => None,
    }
}

/// Round trip: parsing the serialization of any well-formed document gives
/// back that document, byte-order tag included.
#[verifier::rlimit(100)]
pub proof fn lemma_parse_serialize_round_trip(d: DocModel)
    requires
        doc_wf(d),
    ensures
        spec_parse(spec_serialize(d)) == Some(d),
{
    let s = spec_serialize(d);
    assert(pval(s.skip(2), d.big, MAX_DEPTH as nat) == Some((d.root, Seq::<u8>::empty()))) by {
        lemma_pval_ser(d.root, Seq::empty(), d.big, MAX_DEPTH as nat);
        assert(s.skip(2) =~= ser_val(d.root, d.big) + Seq::<u8>::empty());
    }
    assert(spec_parse_body(s.skip(2), d.big) == Some(DocModel { root: d.root, big: d.big }));
    assert(s.len() >= 2);
    if d.big {
        assert(s[0] == 66 && s[1] == 89);
    } else {
        assert(s[0] == 89 && s[1] == 66);
        assert(!(s[0] == 66 && s[1] == 89));
    }
    assert(spec_parse(s) == Some(DocModel { root: d.root, big: d.big }));
    assert(DocModel { root: d.root, big: d.big } =~= d);
}

pub fn push_u32(out: &mut Vec<u8>, x: u32, big: bool)
    ensures
        final(out)@ == old(out)@ + ser_u32(x, big),
{
    let b0: u8 = ((x >> (8 * 0)) & 0xFF) as u8;
    let b1: u8 = ((x >> (8 * 1)) & 0xFF) as u8;
    let b2: u8 = ((x >> (8 * 2)) & 0xFF) as u8;
    let b3: u8 = ((x >> (8 * 3)) & 0xFF) as u8;
    proof {
        reveal(byte_of_u32);
        assert(b0 == byte_of_u32(x, 0) && b1 == byte_of_u32(x, 1) && b2 == byte_of_u32(x, 2)
            && b3 == byte_of_u32(x, 3));
    }
    if big {
        out.push(b3);
        out.push(b2);
        out.push(b1);
        out.push(b0);
    } else {
        out.push(b0);
        out.push(b1);
        out.push(b2);
        out.push(b3);
    }
    assert(out@ =~= old(out)@ + ser_u32(x, big));
}

pub fn push_u64(out: &mut Vec<u8>, x: u64, big: bool)
    ensures
        final(out)@ == old(out)@ + ser_u64(x, big),
{
    let b0: u8 = ((x >> (8 * 0)) & 0xFF) as u8;
    let b1: u8 = ((x >> (8 * 1)) & 0xFF) as u8;
    let b2: u8 = ((x >> (8 * 2)) & 0xFF) as u8;
    let b3: u8 = ((x >> (8 * 3)) & 0xFF) as u8;
    let b4: u8 = ((x >> (8 * 4)) & 0xFF) as u8;
    let b5: u8 = ((x >> (8 * 5)) & 0xFF) as u8;
    let b6: u8 = ((x >> (8 * 6)) & 0xFF) as u8;
    let b7: u8 = ((x >> (8 * 7)) & 0xFF) as u8;
    proof {
        reveal(byte_of_u64);
        assert(b0 == byte_of_u64(x, 0) && b1 == byte_of_u64(x, 1) && b2 == byte_of_u64(x, 2)
            && b3 == byte_of_u64(x, 3) && b4 == byte_of_u64(x, 4) && b5 == byte_of_u64(x, 5)
            && b6 == byte_of_u64(x, 6) && b7 == byte_of_u64(x, 7));
    }
    if big {
        out.push(b7);
        out.push(b6);
        out.push(b5);
        out.push(b4);
        out.push(b3);
        out.push(b2);
        out.push(b1);
        out.push(b0);
    } else {
        out.push(b0);
        out.push(b1);
        out.push(b2);
        out.push(b3);
        out.push(b4);
        out.push(b5);
        out.push(b6);
        out.push(b7);
    }
    assert(out@ =~= old(out)@ + ser_u64(x, big));
}

pub fn push_bytes(out: &mut Vec<u8>, s: &Vec<u8>)
    ensures
        final(out)@ == old(out)@ + s@,
{
    let mut i: usize = 0;
    while i < s.len()
        invariant
            i <= s@.len(),
            out@ == old(out)@ + s@.take(i as int),
        decreases s@.len() - i,
    {
        out.push(s[i]);
        proof {
            assert(s@.take(i + 1 as int) =~= s@.take(i as int).push(s@[i as int]));
        }
        i = i + 1;
    }
    assert(s@.take(s@.len() as int) =~= s@);
}

pub fn read_u32(buf: &[u8], i: usize, big: bool) -> (x: u32)
    requires
        i + 4 <= buf@.len(),
    ensures
        x == rd_u32(buf@.skip(i as int), big),
{
    let a: u8 = buf[i];
    let b: u8 = buf[i + 1];
    let c: u8 = buf[i + 2];
    let d: u8 = buf[i + 3];
    proof {
        let s = buf@.skip(i as int);
        assert(s[0] == a && s[1] == b && s[2] == c && s[3] == d);
    }
    if big {
        ((a as u32) << 24) | ((b as u32) << 16) | ((c as u32) << 8) | (d as u32)
    } else {
        ((d as u32) << 24) | ((c as u32) << 16) | ((b as u32) << 8) | (a as u32)
    }
}

pub fn read_u64(buf: &[u8], i: usize, big: bool) -> (x: u64)
    requires
        i + 8 <= buf@.len(),
    ensures
        x == rd_u64(buf@.skip(i as int), big),
{
    let a: u8 = buf[i];
    let b: u8 = buf[i + 1];
    let c: u8 = buf[i + 2];
    let d: u8 = buf[i + 3];
    let e: u8 = buf[i + 4];
    let f: u8 = buf[i + 5];
    let g: u8 = buf[i + 6];
    let h: u8 = buf[i + 7];
    proof {
        let s = buf@.skip(i as int);
        assert(s[0] == a && s[1] == b && s[2] == c && s[3] == d && s[4] == e && s[5] == f && s[6]
            == g && s[7] == h);
    }
    if big {
        ((a as u64) << 56) | ((b as u64) << 48) | ((c as u64) << 40) | ((d as u64) << 32) | ((
        e as u64) << 24) | ((f as u64) << 16) | ((g as u64) << 8) | (h as u64)
    } else {
        ((h as u64) << 56) | ((g as u64) << 48) | ((f as u64) << 40) | ((e as u64) << 32) | ((
        d as u64) << 24) | ((c as u64) << 16) | ((b as u64) << 8) | (a as u64)
    }
}

/// Writes the encoding of one node onto `out`.
#[verifier::loop_isolation(false)]
#[verifier::rlimit(100)]
pub fn write_value(out: &mut Vec<u8>, v: &Value, big: bool)
    requires
        val_sized(v@),
    ensures
        final(out)@ == old(out)@ + ser_val(v@, big),
    decreases v,
{
    match v {
        Value::Null => {
            out.push(TAG_NULL);
            assert(out@ =~= old(out)@ + ser_val(v@, big));
        }
        Value::Bool(b) => {
            out.push(TAG_BOOL);
            out.push(if *b { 1u8 } else { 0u8 });
            assert(out@ =~= old(out)@ + ser_val(v@, big));
        }
        Value::I32(x) => {
            out.push(TAG_I32);
            push_u32(out, *x as u32, big);
            assert(out@ =~= old(out)@ + ser_val(v@, big));
        }
        Value::U32(x) => {
            out.push(TAG_U32);
            push_u32(out, *x, big);
            assert(out@ =~= old(out)@ + ser_val(v@, big));
        }
        Value::I64(x) => {
            out.push(TAG_I64);
            push_u64(out, *x as u64, big);
            assert(out@ =~= old(out)@ + ser_val(v@, big));
        }
        Value::U64(x) => {
            out.push(TAG_U64);
            push_u64(out, *x, big);
            assert(out@ =~= old(out)@ + ser_val(v@, big));
        }
        Value::F32Bits(x) => {
            out.push(TAG_F32);
            push_u32(out, *x, big);
            assert(out@ =~= old(out)@ + ser_val(v@, big));
        }
        Value::F64Bits(x) => {
            out.push(TAG_F64);
            push_u64(out, *x, big);
            assert(out@ =~= old(out)@ + ser_val(v@, big));
        }
        Value::Str(s) => {
            out.push(TAG_STR);
            push_u32(out, s.len() as u32, big);
            push_bytes(out, s);
            assert(out@ =~= old(out)@ + ser_val(v@, big));
        }
        Value::Arr(items) => {
            out.push(TAG_ARR);
            let ghost vs = views_of(items@);
            proof {
                lemma_views_of(items@);
                lemma_items_sized_index(vs);
            }
            push_u32(out, items.len() as u32, big);
            let mut k: usize = 0;
            while k < items.len()
                invariant
                    k <= items@.len(),
                    vs == views_of(items@),
                    vs.len() == items@.len(),
                    forall|t: int| 0 <= t < items@.len() ==> vs[t] == #[trigger] items@[t]@,
                    forall|t: int| 0 <= t < vs.len() ==> val_sized(#[trigger] vs[t]),
                    out@ == old(out)@ + seq![TAG_ARR] + ser_u32(items@.len() as u32, big)
                        + ser_items(vs.take(k as int), big),
                decreases items@.len() - k,
            {
                proof {
                    assert(decreases_to!(*v => (*v)->Arr_0));
                    assert((*v)->Arr_0 == *items);
                    assert(decreases_to!(*items => items@));
                    assert(decreases_to!(items@ => items@[k as int]));
                    assert(decreases_to!(*v => items@[k as int]));
                }
                write_value(out, &items[k], big);
                proof {
                    lemma_ser_items_snoc(vs.take(k as int), vs[k as int], big);
                    assert(vs.take(k + 1 as int) =~= vs.take(k as int).push(vs[k as int]));
                }
                k = k + 1;
            }
            proof {
                assert(vs.take(items@.len() as int) =~= vs);
            }
            assert(out@ =~= old(out)@ + ser_val(v@, big));
        }
        Value::Dict(entries) => {
            out.push(TAG_DICT);
            let ghost es = kvs_of(entries@);
            proof {
                lemma_kvs_of(entries@);
                lemma_kvs_sized_index(es);
            }
            push_u32(out, entries.len() as u32, big);
            let mut k: usize = 0;
            while k < entries.len()
                invariant
                    k <= entries@.len(),
                    es == kvs_of(entries@),
                    es.len() == entries@.len(),
                    forall|t: int| 0 <= t < entries@.len() ==> es[t] == (
                    #[trigger] entries@[t].0@,
                        entries@[t].1@,
                    ),
                    forall|t: int| 0 <= t < es.len() ==> (#[trigger] es[t]).0.len() <= u32::MAX
                        && val_sized(es[t].1),
                    out@ == old(out)@ + seq![TAG_DICT] + ser_u32(entries@.len() as u32, big)
                        + ser_kvs(es.take(k as int), big),
                decreases entries@.len() - k,
            {
                proof {
                    assert(decreases_to!(*v => (*v)->Dict_0));
                    assert((*v)->Dict_0 == *entries);
                    assert(decreases_to!(*entries => entries@));
                    assert(decreases_to!(entries@ => entries@[k as int]));
                    assert(decreases_to!(entries@[k as int] => entries@[k as int].1));
                    assert(decreases_to!(*v => entries@[k as int].1));
                }
                push_u32(out, entries[k].0.len() as u32, big);
                push_bytes(out, &entries[k].0);
                write_value(out, &entries[k].1, big);
                proof {
                    lemma_ser_kvs_snoc(es.take(k as int), es[k as int], big);
                    assert(es.take(k + 1 as int) =~= es.take(k as int).push(es[k as int]));
                }
                k = k + 1;
            }
            proof {
                assert(es.take(entries@.len() as int) =~= es);
            }
            assert(out@ =~= old(out)@ + ser_val(v@, big));
        }
    }
}

/// Reads one node from `buf` at `i`, with at most `d` further levels of
/// nesting, returning the node and the index just past it.
#[verifier::loop_isolation(false)]
#[verifier::rlimit(100)]
pub fn parse_value(buf: &[u8], i: usize, big: bool, d: u32) -> (r: Option<(Value, usize)>)
    requires
        i <= buf@.len(),
    ensures
        (match r {
            Some(p) => i <= p.1 && p.1 <= buf@.len() && pval(buf@.skip(i as int), big, d as nat)
                == Some((p.0@, buf@.skip(p.1 as int))),
            None => pval(buf@.skip(i as int), big, d as nat) is None,
        }),
    decreases d, 0int,
{
    let ghost s0 = buf@.skip(i as int);
    let n_rem: usize = buf.len() - i;
    if n_rem == 0 {
        return None;
    }
    let t: u8 = buf[i];
    let ghost r0 = s0.drop_first();
    proof {
        assert(s0[0] == t);
        assert(r0 =~= buf@.skip(i + 1 as int));
        assert(r0.len() == n_rem - 1);
    }
    if t == TAG_NULL {
        assert(Value::Null@ == Val::Null);
        Some((Value::Null, i + 1))
    } else if t == TAG_BOOL {
        if n_rem < 2 {
            return None;
        }
        let b: u8 = buf[i + 1];
        proof {
            assert(r0[0] == b);
            assert(r0.drop_first() =~= buf@.skip(i + 2 as int));
        }
        if b == 0 {
            Some((Value::Bool(false), i + 2))
        } else if b == 1 {
            Some((Value::Bool(true), i + 2))
        } else {
            None
        }
    } else if t == TAG_I32 {
        if n_rem < 5 {
            return None;
        }
        let x: u32 = read_u32(buf, i + 1, big);
        proof {
            assert(rd_u32(r0, big) == x);
            assert(r0.skip(4) =~= buf@.skip(i + 5 as int));
        }
        Some((Value::I32(x as i32), i + 5))
    } else if t == TAG_U32 {
        if n_rem < 5 {
            return None;
        }
        let x: u32 = read_u32(buf, i + 1, big);
        proof {
            assert(rd_u32(r0, big) == x);
            assert(r0.skip(4) =~= buf@.skip(i + 5 as int));
        }
        Some((Value::U32(x), i + 5))
    } else if t == TAG_I64 {
        if n_rem < 9 {
            return None;
        }
        let x: u64 = read_u64(buf, i + 1, big);
        proof {
            assert(rd_u64(r0, big) == x);
            assert(r0.skip(8) =~= buf@.skip(i + 9 as int));
        }
        Some((Value::I64(x as i64), i + 9))
    } else if t == TAG_U64 {
        if n_rem < 9 {
            return None;
        }
        let x: u64 = read_u64(buf, i + 1, big);
        proof {
            assert(rd_u64(r0, big) == x);
            assert(r0.skip(8) =~= buf@.skip(i + 9 as int));
        }
        Some((Value::U64(x), i + 9))
    } else if t == TAG_F32 {
        if n_rem < 5 {
            return None;
        }
        let x: u32 = read_u32(buf, i + 1, big);
        proof {
            assert(rd_u32(r0, big) == x);
            assert(r0.skip(4) =~= buf@.skip(i + 5 as int));
        }
        Some((Value::F32Bits(x), i + 5))
    } else if t == TAG_F64 {
        if n_rem < 9 {
            return None;
        }
        let x: u64 = read_u64(buf, i + 1, big);
        proof {
            assert(rd_u64(r0, big) == x);
            assert(r0.skip(8) =~= buf@.skip(i + 9 as int));
        }
        Some((Value::F64Bits(x), i + 9))
    } else if t == TAG_STR {
        if n_rem < 5 {
            return None;
        }
        let ln32: u32 = read_u32(buf, i + 1, big);
        let ln: usize = ln32 as usize;
        proof {
            assert(rd_u32(r0, big) == ln32);
            assert(r0.skip(4) =~= buf@.skip(i + 5 as int));
        }
        if buf.len() - (i + 5) < ln {
            return None;
        }
        let sl: &[u8] = slice_subrange(buf, i + 5, i + 5 + ln);
        let sv: Vec<u8> = slice_to_vec(sl);
        proof {
            let r2 = r0.skip(4);
            assert(r2.take(ln as int) =~= sv@);
            assert(r2.skip(ln as int) =~= buf@.skip((i + 5 + ln) as int));
            assert(Value::Str(sv)@ == Val::Str(sv@));
        }
        Some((Value::Str(sv), i + 5 + ln))
    } else if t == TAG_ARR {
        if d == 0 {
            return None;
        }
        if n_rem < 5 {
            return None;
        }
        let cnt: u32 = read_u32(buf, i + 1, big);
        proof {
            assert(rd_u32(r0, big) == cnt);
            assert(r0.skip(4) =~= buf@.skip(i + 5 as int));
        }
        match parse_items(buf, i + 5, cnt, big, d - 1) {
            Some(p) => {
                let (vec_items, j): (Vec<Value>, usize) = p;
                proof {
                    assert(Value::Arr(vec_items)@ == Val::Arr(views_of(vec_items@)));
                }
                Some((Value::Arr(vec_items), j))
            }
            None => None,
        }
    } else if t == TAG_DICT {
        if d == 0 {
            return None;
        }
        if n_rem < 5 {
            return None;
        }
        let cnt: u32 = read_u32(buf, i + 1, big);
        proof {
            assert(rd_u32(r0, big) == cnt);
            assert(r0.skip(4) =~= buf@.skip(i + 5 as int));
        }
        match parse_entries(buf, i + 5, cnt, big, d - 1) {
            Some(p) => {
                let (vec_entries, j): (Vec<(Vec<u8>, Value)>, usize) = p;
                proof {
                    assert(Value::Dict(vec_entries)@ == Val::Dict(kvs_of(vec_entries@)));
                }
                Some((Value::Dict(vec_entries), j))
            }
            None => None,
        }
    } else {
        None
    }
}

/// Reads `cnt` nodes in a row starting at `start`.
#[verifier::loop_isolation(false)]
#[verifier::rlimit(100)]
fn parse_items(buf: &[u8], start: usize, cnt: u32, big: bool, d: u32) -> (r: Option<
    (Vec<Value>, usize),
>)
    requires
        start <= buf@.len(),
    ensures
        (match r {
            Some(p) => start <= p.1 && p.1 <= buf@.len() && pitems(
                buf@.skip(start as int),
                cnt as nat,
                big,
                d as nat,
            ) == Some((views_of(p.0@), buf@.skip(p.1 as int))),
            None => pitems(buf@.skip(start as int), cnt as nat, big, d as nat) is None,
        }),
    decreases d, 1int,
{
    let mut done: Vec<Value> = Vec::new();
    let mut cur: usize = start;
    let mut k: u32 = 0;
    while k < cnt
        invariant
            k <= cnt,
            start <= cur && cur <= buf@.len(),
            done@.len() == k as int,
            (match pitems(buf@.skip(cur as int), (cnt - k) as nat, big, d as nat) {
                Some(pr) => pitems(buf@.skip(start as int), cnt as nat, big, d as nat) == Some(
                    (views_of(done@) + pr.0, pr.1),
                ),
                None => pitems(buf@.skip(start as int), cnt as nat, big, d as nat) is None,
            }),
        decreases cnt - k,
    {
        let ghost scur = buf@.skip(cur as int);
        let ghost m = (cnt - k) as nat;
        match parse_value(buf, cur, big, d) {
            None => {
                proof {
                    assert(pitems(scur, m, big, d as nat) is None);
                }
                return None;
            }
            Some(p) => {
                let (vv, j): (Value, usize) = p;
                proof {
                    let srem = buf@.skip(j as int);
                    let tail_res = pitems(srem, (m - 1) as nat, big, d as nat);
                    assert(pitems(scur, m, big, d as nat) == (match tail_res {
                        Some(pr) => Some((seq![vv@] + pr.0, pr.1)),
                        None => None::<(Seq<Val>, Seq<u8>)>,
                    }));
                    lemma_views_of_push(done@, vv);
                    if tail_res is Some {
                        let vs2 = tail_res->Some_0.0;
                        assert(views_of(done@) + (seq![vv@] + vs2) =~= views_of(done@.push(vv))
                            + vs2);
                    }
                }
                done.push(vv);
                cur = j;
                k = k + 1;
            }
        }
    }
    proof {
        assert(pitems(buf@.skip(cur as int), 0, big, d as nat) == Some(
            (Seq::<Val>::empty(), buf@.skip(cur as int)),
        ));
        assert(views_of(done@) + Seq::<Val>::empty() =~= views_of(done@));
    }
    Some((done, cur))
}

/// Reads `cnt` map entries in a row starting at `start`.
#[verifier::loop_isolation(false)]
#[verifier::rlimit(100)]
fn parse_entries(buf: &[u8], start: usize, cnt: u32, big: bool, d: u32) -> (r: Option<
    (Vec<(Vec<u8>, Value)>, usize),
>)
    requires
        start <= buf@.len(),
    ensures
        (match r {
            Some(p) => start <= p.1 && p.1 <= buf@.len() && pkvs(
                buf@.skip(start as int),
                cnt as nat,
                big,
                d as nat,
            ) == Some((kvs_of(p.0@), buf@.skip(p.1 as int))),
            None => pkvs(buf@.skip(start as int), cnt as nat, big, d as nat) is None,
        }),
    decreases d, 1int,
{
    let mut done: Vec<(Vec<u8>, Value)> = Vec::new();
    let mut cur: usize = start;
    let mut k: u32 = 0;
    while k < cnt
        invariant
            k <= cnt,
            start <= cur && cur <= buf@.len(),
            done@.len() == k as int,
            (match pkvs(buf@.skip(cur as int), (cnt - k) as nat, big, d as nat) {
                Some(pr) => pkvs(buf@.skip(start as int), cnt as nat, big, d as nat) == Some(
                    (kvs_of(done@) + pr.0, pr.1),
                ),
                None => pkvs(buf@.skip(start as int), cnt as nat, big, d as nat) is None,
            }),
        decreases cnt - k,
    {
        let ghost scur = buf@.skip(cur as int);
        let ghost m = (cnt - k) as nat;
        if buf.len() - cur < 4 {
            proof {
                assert(scur.len() < 4);
                assert(pkvs(scur, m, big, d as nat) is None);
            }
            return None;
        }
        let kl32: u32 = read_u32(buf, cur, big);
        let kl: usize = kl32 as usize;
        proof {
            assert(rd_u32(scur, big) == kl32);
            assert(scur.skip(4) =~= buf@.skip(cur + 4 as int));
        }
        if buf.len() - (cur + 4) < kl {
            proof {
                assert(scur.skip(4).len() < kl as int);
                assert(pkvs(scur, m, big, d as nat) is None);
            }
            return None;
        }
        let key: Vec<u8> = slice_to_vec(slice_subrange(buf, cur + 4, cur + 4 + kl));
        let vstart: usize = cur + 4 + kl;
        proof {
            assert(scur.skip(4).take(kl as int) =~= key@);
            assert(scur.skip(4).skip(kl as int) =~= buf@.skip(vstart as int));
        }
        match parse_value(buf, vstart, big, d) {
            None => {
                proof {
                    assert(pkvs(scur, m, big, d as nat) is None);
                }
                return None;
            }
            Some(p) => {
                let (vv, j): (Value, usize) = p;
                proof {
                    let srem = buf@.skip(j as int);
                    let tail_res = pkvs(srem, (m - 1) as nat, big, d as nat);
                    assert(pkvs(scur, m, big, d as nat) == (match tail_res {
                        Some(pr) => Some((seq![(key@, vv@)] + pr.0, pr.1)),
                        None => None::<(Seq<(Seq<u8>, Val)>, Seq<u8>)>,
                    }));
                    lemma_kvs_of_push(done@, key, vv);
                    if tail_res is Some {
                        let es2 = tail_res->Some_0.0;
                        assert(kvs_of(done@) + (seq![(key@, vv@)] + es2) =~= kvs_of(
                            done@.push((key, vv)),
                        ) + es2);
                    }
                }
                done.push((key, vv));
                cur = j;
                k = k + 1;
            }
        }
    }
    proof {
        assert(pkvs(buf@.skip(cur as int), 0, big, d as nat) == Some(
            (Seq::<(Seq<u8>, Val)>::empty(), buf@.skip(cur as int)),
        ));
        assert(kvs_of(done@) + Seq::<(Seq<u8>, Val)>::empty() =~= kvs_of(done@));
    }
    Some((done, cur))
}

/// Parses a whole raw buffer: the byte order is read from the two leading
/// marker bytes, the root must be a map, and every byte must belong to the
/// encoding.
pub fn parse_document(buf: &[u8]) -> (r: Result<Document, Error>)
    ensures
        (match r {
            Ok(doc) => spec_parse(buf@) == Some(doc@),
            Err(e) => spec_parse(buf@) is None && e == Error::Decode,
        }),
{
    if buf.len() < 2 {
        return Err(Error::Decode);
    }
    let b0: u8 = buf[0];
    let b1: u8 = buf[1];
    proof {
        assert(buf@[0] == b0 && buf@[1] == b1);
    }
    let big: bool;
    if b0 == 66 && b1 == 89 {
        big = true;
    } else if b0 == 89 && b1 == 66 {
        big = false;
    } else {
        return Err(Error::Decode);
    }
    match parse_value(buf, 2, big, MAX_DEPTH) {
        None => Err(Error::Decode),
        Some(p) => {
            let (v, j): (Value, usize) = p;
            if j != buf.len() {
                proof {
                    assert(buf@.skip(j as int).len() != 0);
                }
                return Err(Error::Decode);
            }
            proof {
                assert(buf@.skip(j as int).len() == 0);
            }
            match v {
                Value::Dict(entries) => {
                    let doc = Document { root: Value::Dict(entries), big_endian: big };
                    proof {
                        assert(doc@.root is Dict);
                    }
                    Ok(doc)
                }
                other => {
                    proof {
                        assert(!(other@ is Dict));
                    }
                    Err(Error::Decode)
                }
            }
        }
    }
}

/// Serializes a whole document: the order mark, then the root node, all
/// multi-byte fields in the document's own byte order.
pub fn serialize_document(doc: &Document) -> (out: Vec<u8>)
    requires
        val_sized(doc@.root),
    ensures
        out@ == spec_serialize(doc@),
{
    let mut out: Vec<u8> = Vec::new();
    if doc.big_endian {
        out.push(66);
        out.push(89);
    } else {
        out.push(89);
        out.push(66);
    }
    write_value(&mut out, &doc.root, doc.big_endian);
    assert(out@ =~= spec_serialize(doc@));
    out
}

} // verus!
