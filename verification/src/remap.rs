use vstd::prelude::*;

use crate::Error;
use crate::codec::Document;
use crate::value::{Val, Value, kvs_of, views_of, lemma_kvs_of, lemma_views_of, val_sized, lemma_kvs_sized_index, lemma_items_sized_index};
use crate::codec::ser_val;
use crate::checksum::crc32_of;

verus! {

/// The key of the object list in the root map: "Objs".
pub open spec fn key_objs() -> Seq<u8> {
    seq![79u8, 98u8, 106u8, 115u8]
}

/// The key of an object's own identifier: "HashId".
pub open spec fn key_hash_id() -> Seq<u8> {
    seq![72u8, 97u8, 115u8, 104u8, 73u8, 100u8]
}

/// The key of an object's link list: "LinksToObj".
pub open spec fn key_links() -> Seq<u8> {
    seq![76u8, 105u8, 110u8, 107u8, 115u8, 84u8, 111u8, 79u8, 98u8, 106u8]
}

/// The key of a link's target identifier: "DestUnitHashId".
pub open spec fn key_dest() -> Seq<u8> {
    seq![68u8, 101u8, 115u8, 116u8, 85u8, 110u8, 105u8, 116u8, 72u8, 97u8, 115u8, 104u8, 73u8,
        100u8]
}

/// First-match lookup in a map's entry list.
pub open spec fn dict_get(es: Seq<(Seq<u8>, Val)>, key: Seq<u8>) -> Option<Val>
    decreases es,
{
    if es.len() == 0 {
        None
    } else if es[0].0 == key {
        Some(es[0].1)
    } else {
        dict_get(es.drop_first(), key)
    }
}

/// Replaces the value at the first occurrence of `key`, keeping its place;
/// entry lists without the key are left as they are.
pub open spec fn dict_put(es: Seq<(Seq<u8>, Val)>, key: Seq<u8>, v: Val) -> Seq<(Seq<u8>, Val)>
    decreases es,
{
    if es.len() == 0 {
        es
    } else if es[0].0 == key {
        seq![(key, v)] + es.drop_first()
    } else {
        seq![es[0]] + dict_put(es.drop_first(), key, v)
    }
}

/// First-match lookup in a remap table.
pub open spec fn tbl_get(t: Seq<(u32, u32)>, id: u32) -> Option<u32>
    decreases t,
{
    if t.len() == 0 {
        None
    } else if t[0].0 == id {
        Some(t[0].1)
    } else {
        tbl_get(t.drop_first(), id)
    }
}

/// The old identifier an object entry carries: the value of its `HashId`
/// field when that field is present and unsigned 32-bit; nothing otherwise.
pub open spec fn entry_id(obj: Val) -> Option<u32> {
    match obj {
        Val::Dict(es) => match dict_get(es, key_hash_id()) {
            Some(Val::U32(x)) => Some(x),
            _ => None,
        },
        _ => None,
    }
}

/// The new identifier derived from an entry's own content: the checksum of
/// its canonical byte encoding, written most significant byte first.
pub open spec fn new_id_of(obj: Val) -> u32 {
    crc32_of(ser_val(obj, true))
}

/// The remap table of an object list: one `(old, new)` pair for every
/// entry whose identifier is usable and not in the reference set, in list
/// order.
pub open spec fn build_tbl(objs: Seq<Val>, refs: Seq<u32>) -> Seq<(u32, u32)>
    decreases objs,
{
    if objs.len() == 0 {
        Seq::empty()
    } else {
        let rest = build_tbl(objs.drop_first(), refs);
        match entry_id(objs[0]) {
            Some(id) => if !refs.contains(id) {
                seq![(id, new_id_of(objs[0]))] + rest
            } else {
                rest
            },
            None => rest,
        }
    }
}

/// One link record after the pass: its target rewritten through the table
/// where the old target is a table key; nothing where the record is not a
/// map holding an unsigned 32-bit target.
pub open spec fn patch_link(link: Val, tbl: Seq<(u32, u32)>) -> Option<Val> {
    match link {
        Val::Dict(es) => match dict_get(es, key_dest()) {
            Some(Val::U32(dst)) => match tbl_get(tbl, dst) {
                Some(nid) => Some(Val::Dict(dict_put(es, key_dest(), Val::U32(nid)))),
                None => Some(link),
            },
            _ => None,
        },
        _ => None,
    }
}

pub open spec fn patch_links(links: Seq<Val>, tbl: Seq<(u32, u32)>) -> Option<Seq<Val>>
    decreases links,
{
    if links.len() == 0 {
        Some(Seq::empty())
    } else {
        match patch_link(links[0], tbl) {
            Some(l2) => match patch_links(links.drop_first(), tbl) {
                Some(rest) => Some(seq![l2] + rest),
                None => None,
            },
            None => None,
        }
    }
}

/// One object entry after the pass: its own identifier rewritten where it
/// is a table key, and each of its link records patched; nothing where the
/// entry or one of its link records is malformed.
pub open spec fn patch_entry(obj: Val, tbl: Seq<(u32, u32)>) -> Option<Val> {
    match obj {
        Val::Dict(es) => {
            let es1 = (match entry_id(obj) {
                Some(id) => match tbl_get(tbl, id) {
                    Some(nid) => dict_put(es, key_hash_id(), Val::U32(nid)),
                    None => es,
                },
                None => es,
            });
            match dict_get(es1, key_links()) {
                Some(Val::Arr(links)) => match patch_links(links, tbl) {
                    Some(ls) => Some(Val::Dict(dict_put(es1, key_links(), Val::Arr(ls)))),
                    None => None,
                },
                Some(_) => None,
                None => Some(Val::Dict(es1)),
            }
        }
        _ => None,
    }
}

pub open spec fn patch_objs(objs: Seq<Val>, tbl: Seq<(u32, u32)>) -> Option<Seq<Val>>
    decreases objs,
{
    if objs.len() == 0 {
        Some(Seq::empty())
    } else {
        match patch_entry(objs[0], tbl) {
            Some(o2) => match patch_objs(objs.drop_first(), tbl) {
                Some(rest) => Some(seq![o2] + rest),
                None => None,
            },
            None => None,
        }
    }
}

/// The whole pass over a root map: the table built from the object list,
/// and the list with identifiers and links rewritten; nothing where the
/// list is missing, not an array, or holds a malformed entry.
pub open spec fn remap_spec(root: Val, refs: Seq<u32>) -> Option<(Val, Seq<(u32, u32)>)> {
    match root {
        Val::Dict(res) => match dict_get(res, key_objs()) {
            Some(Val::Arr(objs)) => {
                let tbl = build_tbl(objs, refs);
                match patch_objs(objs, tbl) {
                    Some(objs2) => Some(
                        (Val::Dict(dict_put(res, key_objs(), Val::Arr(objs2))), tbl),
                    ),
                    None => None,
                }
            }
            _ => None,
        },
        _ => None,
    }
}

/// Looking a key up after `dict_put`: the put key reads back as the new
/// value where it was present, and every other key is untouched.
pub proof fn lemma_dict_put_get(es: Seq<(Seq<u8>, Val)>, key: Seq<u8>, v: Val)
    ensures
        dict_get(dict_put(es, key, v), key) == (match dict_get(es, key) {
            Some(_) => Some(v),
            None => None::<Val>,
        }),
        forall|k2: Seq<u8>| k2 != key ==> #[trigger] dict_get(dict_put(es, key, v), k2)
            == dict_get(es, k2),
    decreases es,
{
    if es.len() == 0 {
    } else if es[0].0 == key {
        let put = dict_put(es, key, v);
        assert(put == seq![(key, v)] + es.drop_first());
        assert(put[0] == (key, v));
        assert(put.drop_first() =~= es.drop_first());
        assert forall|k2: Seq<u8>| k2 != key implies #[trigger] dict_get(put, k2) == dict_get(
            es,
            k2,
        ) by {
            assert(dict_get(put, k2) == dict_get(es.drop_first(), k2));
            assert(dict_get(es, k2) == dict_get(es.drop_first(), k2));
        }
    } else {
        lemma_dict_put_get(es.drop_first(), key, v);
        let put = dict_put(es, key, v);
        assert(put == seq![es[0]] + dict_put(es.drop_first(), key, v));
        assert(put[0] == es[0]);
        assert(put.drop_first() =~= dict_put(es.drop_first(), key, v));
        assert forall|k2: Seq<u8>| k2 != key implies #[trigger] dict_get(put, k2) == dict_get(
            es,
            k2,
        ) by {
            if es[0].0 == k2 {
                assert(dict_get(put, k2) == Some(put[0].1));
                assert(dict_get(es, k2) == Some(es[0].1));
            } else {
                assert(dict_get(put, k2) == dict_get(dict_put(es.drop_first(), key, v), k2));
                assert(dict_get(es, k2) == dict_get(es.drop_first(), k2));
            }
        }
    }
}

/// `dict_put` at the first index carrying the key is a pointwise update.
pub proof fn lemma_dict_put_is_update(es: Seq<(Seq<u8>, Val)>, key: Seq<u8>, v: Val, ix: int)
    requires
        0 <= ix < es.len(),
        es[ix].0 == key,
        forall|t: int| 0 <= t < ix ==> (#[trigger] es[t]).0 != key,
    ensures
        dict_put(es, key, v) == es.update(ix, (key, v)),
    decreases es,
{
    if ix == 0 {
        assert(dict_put(es, key, v) == seq![(key, v)] + es.drop_first());
        assert(seq![(key, v)] + es.drop_first() =~= es.update(0, (key, v)));
    } else {
        assert(es[0].0 != key);
        assert forall|t: int| 0 <= t < ix - 1 implies (#[trigger] es.drop_first()[t]).0 != key by {
            assert(es.drop_first()[t] == es[t + 1]);
        }
        assert(es.drop_first()[ix - 1] == es[ix]);
        lemma_dict_put_is_update(es.drop_first(), key, v, ix - 1);
        assert(dict_put(es, key, v) == seq![es[0]] + es.drop_first().update(ix - 1, (key, v)));
        assert(seq![es[0]] + es.drop_first().update(ix - 1, (key, v)) =~= es.update(ix, (key, v)));
    }
}

/// Updating one entry of a list updates its model pointwise.
pub proof fn lemma_kvs_of_update(pre: Seq<(Vec<u8>, Value)>, ix: int, k: Vec<u8>, v: Value)
    requires
        0 <= ix < pre.len(),
    ensures
        kvs_of(pre.update(ix, (k, v))) == kvs_of(pre).update(ix, (k@, v@)),
{
    lemma_kvs_of(pre);
    lemma_kvs_of(pre.update(ix, (k, v)));
    assert forall|t: int| 0 <= t < pre.len() implies kvs_of(pre.update(ix, (k, v)))[t] == kvs_of(
        pre,
    ).update(ix, (k@, v@))[t] by {
        assert(kvs_of(pre.update(ix, (k, v)))[t] == (
            pre.update(ix, (k, v))[t].0@,
            pre.update(ix, (k, v))[t].1@,
        ));
        assert(kvs_of(pre)[t] == (pre[t].0@, pre[t].1@));
        if t != ix {
            assert(pre.update(ix, (k, v))[t] == pre[t]);
        }
    }
    assert(kvs_of(pre.update(ix, (k, v))) =~= kvs_of(pre).update(ix, (k@, v@)));
}

fn eq_bytes(a: &Vec<u8>, b: &Vec<u8>) -> (r: bool)
    ensures
        r == (a@ == b@),
{
    if a.len() != b.len() {
        return false;
    }
    let mut i: usize = 0;
    while i < a.len()
        invariant
            i <= a@.len(),
            a@.len() == b@.len(),
            forall|t: int| 0 <= t < i ==> a@[t] == b@[t],
        decreases a@.len() - i,
    {
        if a[i] != b[i] {
            assert(a@[i as int] != b@[i as int]);
            return false;
        }
        i = i + 1;
    }
    proof {
        assert(a@ =~= b@);
    }
    true
}

fn key_objs_vec() -> (k: Vec<u8>)
    ensures
        k@ == key_objs(),
{
    let mut v: Vec<u8> = Vec::new();
    v.push(79);
    v.push(98);
    v.push(106);
    v.push(115);
    assert(v@ =~= key_objs());
    v
}

fn key_hash_id_vec() -> (k: Vec<u8>)
    ensures
        k@ == key_hash_id(),
{
    let mut v: Vec<u8> = Vec::new();
    v.push(72);
    v.push(97);
    v.push(115);
    v.push(104);
    v.push(73);
    v.push(100);
    assert(v@ =~= key_hash_id());
    v
}

fn key_links_vec() -> (k: Vec<u8>)
    ensures
        k@ == key_links(),
{
    let mut v: Vec<u8> = Vec::new();
    v.push(76);
    v.push(105);
    v.push(110);
    v.push(107);
    v.push(115);
    v.push(84);
    v.push(111);
    v.push(79);
    v.push(98);
    v.push(106);
    assert(v@ =~= key_links());
    v
}

fn key_dest_vec() -> (k: Vec<u8>)
    ensures
        k@ == key_dest(),
{
    let mut v: Vec<u8> = Vec::new();
    v.push(68);
    v.push(101);
    v.push(115);
    v.push(116);
    v.push(85);
    v.push(110);
    v.push(105);
    v.push(116);
    v.push(72);
    v.push(97);
    v.push(115);
    v.push(104);
    v.push(73);
    v.push(100);
    assert(v@ =~= key_dest());
    v
}

/// The index of the first entry carrying `key`, read off against the
/// first-match lookup.
#[verifier::loop_isolation(false)]
fn dict_find(es: &Vec<(Vec<u8>, Value)>, key: &Vec<u8>) -> (r: Option<usize>)
    ensures
        (match r {
            Some(ix) => ix < es@.len() && es@[ix as int].0@ == key@ && dict_get(
                kvs_of(es@),
                key@,
            ) == Some(es@[ix as int].1@) && (forall|t: int| 0 <= t < ix ==> (#[trigger] es@[
                t
            ]).0@ != key@),
            None => dict_get(kvs_of(es@), key@) is None,
        }),
{
    let ghost s = kvs_of(es@);
    proof {
        lemma_kvs_of(es@);
        assert(s.skip(0) =~= s);
    }
    let mut k: usize = 0;
    while k < es.len()
        invariant
            k <= es@.len(),
            dict_get(s, key@) == dict_get(s.skip(k as int), key@),
            forall|t: int| 0 <= t < k ==> (#[trigger] es@[t]).0@ != key@,
        decreases es@.len() - k,
    {
        proof {
            assert(s.skip(k as int)[0] == s[k as int]);
            assert(s.skip(k as int).drop_first() =~= s.skip(k + 1 as int));
        }
        if eq_bytes(&es[k].0, key) {
            return Some(k);
        }
        k = k + 1;
    }
    proof {
        assert(s.skip(es@.len() as int).len() == 0);
    }
    None
}

/// The new identifier of one object entry: the checksum of its canonical
/// byte encoding.
pub fn object_new_id(obj: &Value) -> (r: u32)
    requires
        crate::value::val_sized(obj@),
    ensures
        r == new_id_of(obj@),
{
    let mut enc: Vec<u8> = Vec::new();
    crate::codec::write_value(&mut enc, obj, true);
    crate::checksum::crc32(&enc)
}

/// Table lookup by first match.
#[verifier::loop_isolation(false)]
pub fn tbl_find(tbl: &Vec<(u32, u32)>, id: u32) -> (r: Option<u32>)
    ensures
        r == tbl_get(tbl@, id),
{
    proof {
        assert(tbl@.skip(0) =~= tbl@);
    }
    let mut k: usize = 0;
    while k < tbl.len()
        invariant
            k <= tbl@.len(),
            tbl_get(tbl@, id) == tbl_get(tbl@.skip(k as int), id),
        decreases tbl@.len() - k,
    {
        proof {
            assert(tbl@.skip(k as int)[0] == tbl@[k as int]);
            assert(tbl@.skip(k as int).drop_first() =~= tbl@.skip(k + 1 as int));
        }
        if tbl[k].0 == id {
            return Some(tbl[k].1);
        }
        k = k + 1;
    }
    proof {
        assert(tbl@.skip(tbl@.len() as int).len() == 0);
    }
    None
}

/// A value looked up in a sized entry list is sized.
pub proof fn lemma_dict_get_sized(es: Seq<(Seq<u8>, Val)>, key: Seq<u8>)
    requires
        crate::value::kvs_sized(es),
    ensures
        dict_get(es, key) matches Some(v) ==> val_sized(v),
    decreases es,
{
    if es.len() > 0 && es[0].0 != key {
        lemma_dict_get_sized(es.drop_first(), key);
    }
}

/// Replacing a value keeps an entry list sized, and keeps its length.
pub proof fn lemma_dict_put_sized(es: Seq<(Seq<u8>, Val)>, key: Seq<u8>, v: Val)
    requires
        crate::value::kvs_sized(es),
        val_sized(v),
    ensures
        crate::value::kvs_sized(dict_put(es, key, v)),
        dict_put(es, key, v).len() == es.len(),
    decreases es,
{
    if es.len() == 0 {
    } else if es[0].0 == key {
        let put = dict_put(es, key, v);
        assert(put[0] == (key, v));
        assert(put.drop_first() =~= es.drop_first());
    } else {
        lemma_dict_put_sized(es.drop_first(), key, v);
        let put = dict_put(es, key, v);
        assert(put[0] == es[0]);
        assert(put.drop_first() =~= dict_put(es.drop_first(), key, v));
    }
}

/// A patched link record is sized where the original was.
pub proof fn lemma_patch_link_sized(link: Val, tbl: Seq<(u32, u32)>)
    requires
        val_sized(link),
    ensures
        patch_link(link, tbl) matches Some(l2) ==> val_sized(l2),
{
    if link is Dict {
        let es = link->Dict_0;
        match dict_get(es, key_dest()) {
            Some(Val::U32(dst)) => {
                if tbl_get(tbl, dst) is Some {
                    lemma_dict_put_sized(es, key_dest(), Val::U32(tbl_get(tbl, dst)->Some_0));
                }
            }
            _ => {}
        }
    }
}

/// A patched link list is sized and as long as the original.
pub proof fn lemma_patch_links_sized(links: Seq<Val>, tbl: Seq<(u32, u32)>)
    requires
        crate::value::items_sized(links),
    ensures
        patch_links(links, tbl) matches Some(ls) ==> crate::value::items_sized(ls) && ls.len()
            == links.len(),
    decreases links,
{
    if links.len() > 0 {
        lemma_patch_link_sized(links[0], tbl);
        lemma_patch_links_sized(links.drop_first(), tbl);
        if patch_link(links[0], tbl) is Some && patch_links(links.drop_first(), tbl) is Some {
            let l2 = patch_link(links[0], tbl)->Some_0;
            let rest = patch_links(links.drop_first(), tbl)->Some_0;
            assert((seq![l2] + rest)[0] == l2);
            assert((seq![l2] + rest).drop_first() =~= rest);
        }
    }
}

/// A patched object entry is sized where the original was.
pub proof fn lemma_patch_entry_sized(obj: Val, tbl: Seq<(u32, u32)>)
    requires
        val_sized(obj),
    ensures
        patch_entry(obj, tbl) matches Some(o2) ==> val_sized(o2),
{
    if obj is Dict {
        let es = obj->Dict_0;
        let es1 = (match entry_id(obj) {
            Some(id) => match tbl_get(tbl, id) {
                Some(nid) => dict_put(es, key_hash_id(), Val::U32(nid)),
                None => es,
            },
            None => es,
        });
        if entry_id(obj) is Some {
            if tbl_get(tbl, entry_id(obj)->Some_0) is Some {
                lemma_dict_put_sized(
                    es,
                    key_hash_id(),
                    Val::U32(tbl_get(tbl, entry_id(obj)->Some_0)->Some_0),
                );
            }
        }
        assert(crate::value::kvs_sized(es1) && es1.len() == es.len());
        lemma_dict_get_sized(es1, key_links());
        match dict_get(es1, key_links()) {
            Some(Val::Arr(links)) => {
                lemma_patch_links_sized(links, tbl);
                if patch_links(links, tbl) is Some {
                    let ls = patch_links(links, tbl)->Some_0;
                    lemma_dict_put_sized(es1, key_links(), Val::Arr(ls));
                }
            }
            _ => {}
        }
    }
}

/// A patched object list is sized and as long as the original.
pub proof fn lemma_patch_objs_sized(objs: Seq<Val>, tbl: Seq<(u32, u32)>)
    requires
        crate::value::items_sized(objs),
    ensures
        patch_objs(objs, tbl) matches Some(os) ==> crate::value::items_sized(os) && os.len()
            == objs.len(),
    decreases objs,
{
    if objs.len() > 0 {
        lemma_patch_entry_sized(objs[0], tbl);
        lemma_patch_objs_sized(objs.drop_first(), tbl);
        if patch_entry(objs[0], tbl) is Some && patch_objs(objs.drop_first(), tbl) is Some {
            let o2 = patch_entry(objs[0], tbl)->Some_0;
            let rest = patch_objs(objs.drop_first(), tbl)->Some_0;
            assert((seq![o2] + rest)[0] == o2);
            assert((seq![o2] + rest).drop_first() =~= rest);
        }
    }
}

/// The remapped root is sized where the original was.
pub proof fn lemma_remap_sized(root: Val, refs: Seq<u32>)
    requires
        val_sized(root),
    ensures
        remap_spec(root, refs) matches Some(p) ==> val_sized(p.0),
{
    if root is Dict {
        let res = root->Dict_0;
        lemma_dict_get_sized(res, key_objs());
        match dict_get(res, key_objs()) {
            Some(Val::Arr(objs)) => {
                let tbl = build_tbl(objs, refs);
                lemma_patch_objs_sized(objs, tbl);
                if patch_objs(objs, tbl) is Some {
                    let objs2 = patch_objs(objs, tbl)->Some_0;
                    lemma_dict_put_sized(res, key_objs(), Val::Arr(objs2));
                }
            }
            _ => {}
        }
    }
}

/// A value looked up in an entry list nests below the list's depth.
pub proof fn lemma_dict_get_depth(es: Seq<(Seq<u8>, Val)>, key: Seq<u8>)
    ensures
        dict_get(es, key) matches Some(v) ==> crate::value::val_depth(v)
            <= crate::value::kvs_depth(es),
    decreases es,
{
    if es.len() > 0 && es[0].0 != key {
        lemma_dict_get_depth(es.drop_first(), key);
    }
}

/// Replacing a value bounds the list's depth by the old depth and the
/// new value's.
pub proof fn lemma_dict_put_depth(es: Seq<(Seq<u8>, Val)>, key: Seq<u8>, v: Val)
    ensures
        crate::value::kvs_depth(dict_put(es, key, v)) <= crate::value::kvs_depth(es)
            || crate::value::kvs_depth(dict_put(es, key, v)) <= crate::value::val_depth(v),
    decreases es,
{
    if es.len() == 0 {
    } else if es[0].0 == key {
        let put = dict_put(es, key, v);
        assert(put[0] == (key, v));
        assert(put.drop_first() =~= es.drop_first());
    } else {
        lemma_dict_put_depth(es.drop_first(), key, v);
        let put = dict_put(es, key, v);
        assert(put[0] == es[0]);
        assert(put.drop_first() =~= dict_put(es.drop_first(), key, v));
    }
}

/// A patched link record nests no deeper than the original.
pub proof fn lemma_patch_link_depth(link: Val, tbl: Seq<(u32, u32)>)
    ensures
        patch_link(link, tbl) matches Some(l2) ==> crate::value::val_depth(l2)
            <= crate::value::val_depth(link),
{
    if link is Dict {
        let es = link->Dict_0;
        match dict_get(es, key_dest()) {
            Some(Val::U32(dst)) => {
                if tbl_get(tbl, dst) is Some {
                    lemma_dict_put_depth(es, key_dest(), Val::U32(tbl_get(tbl, dst)->Some_0));
                }
            }
            _ => {}
        }
    }
}

/// A patched link list nests no deeper than the original.
pub proof fn lemma_patch_links_depth(links: Seq<Val>, tbl: Seq<(u32, u32)>)
    ensures
        patch_links(links, tbl) matches Some(ls) ==> crate::value::items_depth(ls)
            <= crate::value::items_depth(links),
    decreases links,
{
    if links.len() > 0 {
        lemma_patch_link_depth(links[0], tbl);
        lemma_patch_links_depth(links.drop_first(), tbl);
        if patch_link(links[0], tbl) is Some && patch_links(links.drop_first(), tbl) is Some {
            let l2 = patch_link(links[0], tbl)->Some_0;
            let rest = patch_links(links.drop_first(), tbl)->Some_0;
            assert((seq![l2] + rest)[0] == l2);
            assert((seq![l2] + rest).drop_first() =~= rest);
        }
    }
}

/// A patched object entry nests no deeper than the original.
pub proof fn lemma_patch_entry_depth(obj: Val, tbl: Seq<(u32, u32)>)
    ensures
        patch_entry(obj, tbl) matches Some(o2) ==> crate::value::val_depth(o2)
            <= crate::value::val_depth(obj),
{
    if obj is Dict {
        let es = obj->Dict_0;
        let es1 = (match entry_id(obj) {
            Some(id) => match tbl_get(tbl, id) {
                Some(nid) => dict_put(es, key_hash_id(), Val::U32(nid)),
                None => es,
            },
            None => es,
        });
        if entry_id(obj) is Some {
            if tbl_get(tbl, entry_id(obj)->Some_0) is Some {
                lemma_dict_put_depth(
                    es,
                    key_hash_id(),
                    Val::U32(tbl_get(tbl, entry_id(obj)->Some_0)->Some_0),
                );
            }
        }
        assert(crate::value::kvs_depth(es1) <= crate::value::kvs_depth(es));
        lemma_dict_get_depth(es1, key_links());
        match dict_get(es1, key_links()) {
            Some(Val::Arr(links)) => {
                lemma_patch_links_depth(links, tbl);
                if patch_links(links, tbl) is Some {
                    let ls = patch_links(links, tbl)->Some_0;
                    lemma_dict_put_depth(es1, key_links(), Val::Arr(ls));
                }
            }
            _ => {}
        }
    }
}

/// A patched object list nests no deeper than the original.
pub proof fn lemma_patch_objs_depth(objs: Seq<Val>, tbl: Seq<(u32, u32)>)
    ensures
        patch_objs(objs, tbl) matches Some(os) ==> crate::value::items_depth(os)
            <= crate::value::items_depth(objs),
    decreases objs,
{
    if objs.len() > 0 {
        lemma_patch_entry_depth(objs[0], tbl);
        lemma_patch_objs_depth(objs.drop_first(), tbl);
        if patch_entry(objs[0], tbl) is Some && patch_objs(objs.drop_first(), tbl) is Some {
            let o2 = patch_entry(objs[0], tbl)->Some_0;
            let rest = patch_objs(objs.drop_first(), tbl)->Some_0;
            assert((seq![o2] + rest)[0] == o2);
            assert((seq![o2] + rest).drop_first() =~= rest);
        }
    }
}

/// The remapped root nests no deeper than the original, and is still a
/// map.
pub proof fn lemma_remap_depth(root: Val, refs: Seq<u32>)
    ensures
        remap_spec(root, refs) matches Some(p) ==> crate::value::val_depth(p.0)
            <= crate::value::val_depth(root) && p.0 is Dict,
{
    if root is Dict {
        let res = root->Dict_0;
        lemma_dict_get_depth(res, key_objs());
        match dict_get(res, key_objs()) {
            Some(Val::Arr(objs)) => {
                let tbl = build_tbl(objs, refs);
                lemma_patch_objs_depth(objs, tbl);
                if patch_objs(objs, tbl) is Some {
                    let objs2 = patch_objs(objs, tbl)->Some_0;
                    lemma_dict_put_depth(res, key_objs(), Val::Arr(objs2));
                }
            }
            _ => {}
        }
    }
}

/// Checksum determinism: the new identifier is a pure function of the
/// entry's content, so byte-identical entries always get the same new
/// identifier, within a run and across runs.
pub proof fn lemma_new_id_deterministic(a: Val, b: Val)
    requires
        a == b,
    ensures
        new_id_of(a) == new_id_of(b),
{
}

/// Reference exclusion: an identifier in the reference set never appears
/// as an old identifier in the remap table.
pub proof fn lemma_reference_exclusion(objs: Seq<Val>, refs: Seq<u32>, id: u32)
    requires
        refs.contains(id),
    ensures
        tbl_get(build_tbl(objs, refs), id) is None,
    decreases objs,
{
    if objs.len() > 0 {
        lemma_reference_exclusion(objs.drop_first(), refs, id);
        let t = build_tbl(objs, refs);
        if entry_id(objs[0]) is Some {
            let id0 = entry_id(objs[0])->Some_0;
            if !refs.contains(id0) {
                assert(t == seq![(id0, new_id_of(objs[0]))] + build_tbl(objs.drop_first(), refs));
                assert(t[0].0 == id0);
                assert(id0 != id);
                assert(t.drop_first() =~= build_tbl(objs.drop_first(), refs));
            }
        }
    }
}

/// Collision tolerance: every entry whose identifier is usable and foreign
/// to the reference set has its identifier among the table's keys, also
/// where two entries' contents produce the same new identifier; no mapping
/// is dropped.
pub proof fn lemma_eligible_recorded(objs: Seq<Val>, refs: Seq<u32>, i: int)
    requires
        0 <= i < objs.len(),
        entry_id(objs[i]) is Some,
        !refs.contains(entry_id(objs[i])->Some_0),
    ensures
        tbl_get(build_tbl(objs, refs), entry_id(objs[i])->Some_0) is Some,
    decreases objs,
{
    let id = entry_id(objs[i])->Some_0;
    let t = build_tbl(objs, refs);
    if i == 0 {
        assert(t == seq![(id, new_id_of(objs[0]))] + build_tbl(objs.drop_first(), refs));
        assert(t[0].0 == id);
    } else {
        assert(objs.drop_first()[i - 1] == objs[i]);
        lemma_eligible_recorded(objs.drop_first(), refs, i - 1);
        if entry_id(objs[0]) is Some {
            let id0 = entry_id(objs[0])->Some_0;
            if !refs.contains(id0) {
                assert(t == seq![(id0, new_id_of(objs[0]))] + build_tbl(objs.drop_first(), refs));
                assert(t[0].0 == id0);
                assert(t.drop_first() =~= build_tbl(objs.drop_first(), refs));
            }
        }
    }
}

/// Link consistency: patching a link record whose old target is a table
/// key rewrites exactly that target to the table's new identifier, leaves
/// a target outside the table as it was, and touches no other field of
/// the record.
pub proof fn lemma_link_consistency(link: Val, tbl: Seq<(u32, u32)>, dst: u32)
    requires
        link is Dict,
        dict_get(link->Dict_0, key_dest()) == Some(Val::U32(dst)),
    ensures
        patch_link(link, tbl) is Some,
        patch_link(link, tbl)->Some_0 is Dict,
        dict_get(patch_link(link, tbl)->Some_0->Dict_0, key_dest()) == (match tbl_get(tbl, dst) {
            Some(nid) => Some(Val::U32(nid)),
            None => Some(Val::U32(dst)),
        }),
        forall|k2: Seq<u8>| k2 != key_dest() ==> #[trigger] dict_get(
            patch_link(link, tbl)->Some_0->Dict_0,
            k2,
        ) == dict_get(link->Dict_0, k2),
{
    let es = link->Dict_0;
    if tbl_get(tbl, dst) is Some {
        lemma_dict_put_get(es, key_dest(), Val::U32(tbl_get(tbl, dst)->Some_0));
    }
}

/// A patched link list patches each record in place: same count, same
/// order, every record the image of the old one, none touched otherwise.
pub proof fn lemma_patch_links_index(links: Seq<Val>, tbl: Seq<(u32, u32)>)
    ensures
        patch_links(links, tbl) matches Some(ls) ==> ls.len() == links.len() && (forall|i: int|
            0 <= i < links.len() ==> patch_link(links[i], tbl) == Some(#[trigger] ls[i])),
    decreases links,
{
    if links.len() > 0 {
        lemma_patch_links_index(links.drop_first(), tbl);
        if patch_link(links[0], tbl) is Some && patch_links(links.drop_first(), tbl) is Some {
            let l2 = patch_link(links[0], tbl)->Some_0;
            let rest = patch_links(links.drop_first(), tbl)->Some_0;
            assert forall|i: int| 0 <= i < links.len() implies patch_link(links[i], tbl) == Some(
                #[trigger] (seq![l2] + rest)[i],
            ) by {
                if i > 0 {
                    assert(links.drop_first()[i - 1] == links[i]);
                    assert((seq![l2] + rest)[i] == rest[i - 1]);
                }
            }
        }
    }
}

/// Reference exclusion, read off the remapper's own result: where the
/// pass succeeds, no reference-set member is a key of its table.
pub proof fn lemma_remap_table_excludes_refs(root: Val, refs: Seq<u32>, id: u32)
    requires
        refs.contains(id),
        remap_spec(root, refs) is Some,
    ensures
        tbl_get(remap_spec(root, refs)->Some_0.1, id) is None,
{
    let res = root->Dict_0;
    match dict_get(res, key_objs()) {
        Some(Val::Arr(objs)) => {
            lemma_reference_exclusion(objs, refs, id);
        }
        _ => {}
    }
}

/// Where any one entry fails to patch, the whole list fails.
pub proof fn lemma_patch_objs_none(objs: Seq<Val>, tbl: Seq<(u32, u32)>, i: int)
    requires
        0 <= i < objs.len(),
        patch_entry(objs[i], tbl) is None,
    ensures
        patch_objs(objs, tbl) is None,
    decreases objs,
{
    if i > 0 {
        assert(objs.drop_first()[i - 1] == objs[i]);
        lemma_patch_objs_none(objs.drop_first(), tbl, i - 1);
    }
}

/// Membership in the reference identifier set.
#[verifier::loop_isolation(false)]
pub fn refs_contains(refs: &Vec<u32>, id: u32) -> (r: bool)
    ensures
        r == refs@.contains(id),
{
    let mut k: usize = 0;
    while k < refs.len()
        invariant
            k <= refs@.len(),
            forall|t: int| 0 <= t < k ==> refs@[t] != id,
        decreases refs@.len() - k,
    {
        if refs[k] == id {
            return true;
        }
        k = k + 1;
    }
    false
}

/// One link record patched through the table.
#[verifier::loop_isolation(false)]
fn patch_link_exec(link: Value, tbl: &Vec<(u32, u32)>) -> (r: Result<Value, Error>)
    ensures
        (match r {
            Ok(l2) => patch_link(link@, tbl@) == Some(l2@),
            Err(e) => patch_link(link@, tbl@) is None && e == Error::Schema,
        }),
{
    match link {
        Value::Dict(mut les) => {
            let ghost les0 = kvs_of(les@);
            let dest_key = key_dest_vec();
            match dict_find(&les, &dest_key) {
                Some(dix) => {
                    let dst_opt: Option<u32> = (match &les[dix].1 {
                        Value::U32(dd) => Some(*dd),
                        _ => None,
                    });
                    match dst_opt {
                        Some(dst) => {
                            proof {
                                assert(dict_get(les0, key_dest()) == Some(Val::U32(dst)));
                            }
                            match tbl_find(tbl, dst) {
                                Some(nid) => {
                                    let ghost pre = les@;
                                    let old0 = les.remove(dix);
                                    les.insert(dix, (old0.0, Value::U32(nid)));
                                    proof {
                                        assert(les@ =~= pre.update(
                                            dix as int,
                                            (old0.0, Value::U32(nid)),
                                        ));
                                        lemma_kvs_of(pre);
                                        lemma_kvs_of_update(pre, dix as int, old0.0, Value::U32(nid));
                                        assert(old0.0@ == key_dest());
                                        assert(les0 == kvs_of(pre));
                                        assert(kvs_of(les@) == les0.update(
                                            dix as int,
                                            (key_dest(), Val::U32(nid)),
                                        ));
                                        assert(les0[dix as int].0 == key_dest());
                                        assert forall|t: int| 0 <= t < dix implies (
                                        #[trigger] les0[t]).0 != key_dest() by {
                                            assert(les0[t] == (pre[t].0@, pre[t].1@));
                                        }
                                        lemma_dict_put_is_update(
                                            les0,
                                            key_dest(),
                                            Val::U32(nid),
                                            dix as int,
                                        );
                                    }
                                    Ok(Value::Dict(les))
                                }
                                None => {
                                    Ok(Value::Dict(les))
                                }
                            }
                        }
                        None => {
                            proof {
                                assert(dict_get(les0, key_dest()) == Some(les@[dix as int].1@));
                                assert(!(les@[dix as int].1@ is U32));
                            }
                            Err(Error::Schema)
                        }
                    }
                }
                None => Err(Error::Schema),
            }
        }
        other => {
            proof {
                assert(!(other@ is Dict));
            }
            Err(Error::Schema)
        }
    }
}

/// A whole link list patched through the table.
#[verifier::loop_isolation(false)]
fn patch_links_exec(links: Vec<Value>, tbl: &Vec<(u32, u32)>) -> (r: Result<Vec<Value>, Error>)
    ensures
        (match r {
            Ok(ls) => patch_links(views_of(links@), tbl@) == Some(views_of(ls@)),
            Err(e) => patch_links(views_of(links@), tbl@) is None && e == Error::Schema,
        }),
{
    let ghost full = views_of(links@);
    let mut rem = links;
    let mut out: Vec<Value> = Vec::new();
    while rem.len() > 0
        invariant
            (match patch_links(views_of(rem@), tbl@) {
                Some(rest) => patch_links(full, tbl@) == Some(views_of(out@) + rest),
                None => patch_links(full, tbl@) is None,
            }),
        decreases rem@.len(),
    {
        let ghost rem_pre = rem@;
        let head = rem.remove(0);
        proof {
            assert(rem@ =~= rem_pre.drop_first());
            assert(views_of(rem_pre)[0] == head@);
            assert(views_of(rem_pre).drop_first() =~= views_of(rem@)) by {
                lemma_views_of(rem_pre);
                lemma_views_of(rem@);
            }
            assert(views_of(rem_pre) == seq![head@] + views_of(rem@)) by {
                assert(views_of(rem_pre) =~= seq![head@] + views_of(rem@));
            }
        }
        match patch_link_exec(head, tbl) {
            Ok(l2) => {
                proof {
                    let tail_res = patch_links(views_of(rem@), tbl@);
                    assert(patch_links(views_of(rem_pre), tbl@) == (match tail_res {
                        Some(rest) => Some(seq![l2@] + rest),
                        None => None::<Seq<Val>>,
                    }));
                    crate::value::lemma_views_of_push(out@, l2);
                    if tail_res is Some {
                        let rest2 = tail_res->Some_0;
                        assert(views_of(out@) + (seq![l2@] + rest2) =~= views_of(out@.push(l2))
                            + rest2);
                    }
                }
                out.push(l2);
            }
            Err(e) => {
                proof {
                    assert(patch_links(views_of(rem_pre), tbl@) is None);
                }
                return Err(e);
            }
        }
    }
    proof {
        assert(views_of(rem@).len() == 0) by {
            lemma_views_of(rem@);
        }
        assert(patch_links(views_of(rem@), tbl@) == Some(Seq::<Val>::empty()));
        assert(views_of(out@) + Seq::<Val>::empty() =~= views_of(out@));
    }
    Ok(out)
}

/// One object entry patched: its own identifier rewritten through the
/// table, then each of its link records.
#[verifier::loop_isolation(false)]
#[verifier::rlimit(100)]
fn patch_entry_exec(obj: Value, tbl: &Vec<(u32, u32)>) -> (r: Result<Value, Error>)
    ensures
        (match r {
            Ok(o2) => patch_entry(obj@, tbl@) == Some(o2@),
            Err(e) => patch_entry(obj@, tbl@) is None && e == Error::Schema,
        }),
{
    match obj {
        Value::Dict(mut es) => {
            let ghost es0 = kvs_of(es@);
            let hash_key = key_hash_id_vec();
            match dict_find(&es, &hash_key) {
                Some(hix) => {
                    let id_opt: Option<u32> = (match &es[hix].1 {
                        Value::U32(x) => Some(*x),
                        _ => None,
                    });
                    match id_opt {
                        Some(id) => {
                            proof {
                                assert(dict_get(es0, key_hash_id()) == Some(Val::U32(id)));
                                assert(entry_id(Val::Dict(es0)) == Some(id));
                            }
                            match tbl_find(tbl, id) {
                                Some(nid) => {
                                    let ghost pre = es@;
                                    let old0 = es.remove(hix);
                                    es.insert(hix, (old0.0, Value::U32(nid)));
                                    proof {
                                        assert(es@ =~= pre.update(
                                            hix as int,
                                            (old0.0, Value::U32(nid)),
                                        ));
                                        lemma_kvs_of(pre);
                                        lemma_kvs_of_update(pre, hix as int, old0.0, Value::U32(nid));
                                        assert(old0.0@ == key_hash_id());
                                        assert(es0 == kvs_of(pre));
                                        assert(kvs_of(es@) == es0.update(
                                            hix as int,
                                            (key_hash_id(), Val::U32(nid)),
                                        ));
                                        assert(es0[hix as int].0 == key_hash_id());
                                        assert forall|t: int| 0 <= t < hix implies (
                                        #[trigger] es0[t]).0 != key_hash_id() by {
                                            assert(es0[t] == (pre[t].0@, pre[t].1@));
                                        }
                                        lemma_dict_put_is_update(
                                            es0,
                                            key_hash_id(),
                                            Val::U32(nid),
                                            hix as int,
                                        );
                                    }
                                }
                                None => {}
                            }
                        }
                        None => {
                            proof {
                                assert(dict_get(es0, key_hash_id()) == Some(es@[hix as int].1@));
                                assert(!(es@[hix as int].1@ is U32));
                                assert(entry_id(Val::Dict(es0)) is None);
                            }
                        }
                    }
                }
                None => {
                    proof {
                        assert(entry_id(Val::Dict(es0)) is None);
                    }
                }
            }
            let ghost es1 = kvs_of(es@);
            proof {
                assert(es1 == (match entry_id(obj@) {
                    Some(id) => match tbl_get(tbl@, id) {
                        Some(nid) => dict_put(es0, key_hash_id(), Val::U32(nid)),
                        None => es0,
                    },
                    None => es0,
                }));
            }
            let links_key = key_links_vec();
            match dict_find(&es, &links_key) {
                Some(lix) => {
                    let ghost pre = es@;
                    let ent = es.remove(lix);
                    proof {
                        assert(dict_get(es1, key_links()) == Some(ent.1@));
                    }
                    match ent.1 {
                        Value::Arr(links) => {
                            match patch_links_exec(links, tbl) {
                                Ok(pl) => {
                                    let ghost pl_view = views_of(pl@);
                                    es.insert(lix, (ent.0, Value::Arr(pl)));
                                    proof {
                                        assert(es@ =~= pre.update(
                                            lix as int,
                                            (ent.0, Value::Arr(pl)),
                                        ));
                                        lemma_kvs_of(pre);
                                        lemma_kvs_of_update(pre, lix as int, ent.0, Value::Arr(pl));
                                        assert(ent.0@ == key_links());
                                        assert(es1 == kvs_of(pre));
                                        assert((Value::Arr(pl))@ == Val::Arr(pl_view));
                                        assert(kvs_of(es@) == es1.update(
                                            lix as int,
                                            (key_links(), Val::Arr(pl_view)),
                                        ));
                                        assert(es1[lix as int].0 == key_links());
                                        assert forall|t: int| 0 <= t < lix implies (
                                        #[trigger] es1[t]).0 != key_links() by {
                                            assert(es1[t] == (pre[t].0@, pre[t].1@));
                                        }
                                        lemma_dict_put_is_update(
                                            es1,
                                            key_links(),
                                            Val::Arr(pl_view),
                                            lix as int,
                                        );
                                    }
                                    Ok(Value::Dict(es))
                                }
                                Err(e) => Err(e),
                            }
                        }
                        other => {
                            proof {
                                assert(!(other@ is Arr));
                            }
                            Err(Error::Schema)
                        }
                    }
                }
                None => {
                    Ok(Value::Dict(es))
                }
            }
        }
        other => {
            proof {
                assert(!(other@ is Dict));
            }
            Err(Error::Schema)
        }
    }
}

/// The identifier remapper: finds the root's object list, derives a new
/// identifier for every object whose own identifier is usable and foreign
/// to the reference set, rewrites each such object's identifier and every
/// link that targeted it, and returns the rewritten document with the
/// remap table. The object's own identifier field is rewritten along with
/// the inbound links, a deliberate choice: the identifier an object
/// advertises and the one other objects reference it by must agree after
/// the pass. Fails with the schema error exactly where the object list
/// is missing or not an array, an entry is not a map, or a link record
/// lacks a usable target.
#[verifier::loop_isolation(false)]
#[verifier::rlimit(100)]
pub fn remap_document(doc: Document, refs: &Vec<u32>) -> (r: Result<
    (Document, Vec<(u32, u32)>),
    Error,
>)
    requires
        val_sized(doc@.root),
    ensures
        (match r {
            Ok(p) => remap_spec(doc@.root, refs@) == Some((p.0@.root, p.1@)) && p.0@.big
                == doc@.big,
            Err(e) => remap_spec(doc@.root, refs@) is None && e == Error::Schema,
        }),
{
    let Document { root, big_endian } = doc;
    match root {
        Value::Dict(mut res) => {
            let ghost res0 = kvs_of(res@);
            let objs_key = key_objs_vec();
            match dict_find(&res, &objs_key) {
                Some(oix) => {
                    let ghost pre = res@;
                    let ent = res.remove(oix);
                    proof {
                        assert(dict_get(res0, key_objs()) == Some(ent.1@));
                    }
                    match ent.1 {
                        Value::Arr(objs) => {
                            let ghost objs_view = views_of(objs@);
                            proof {
                                assert(val_sized(Val::Dict(res0)));
                                lemma_kvs_sized_index(res0);
                                lemma_kvs_of(pre);
                                assert(res0[oix as int] == (pre[oix as int].0@, pre[
                                    oix as int
                                ].1@));
                                assert(val_sized(Val::Arr(objs_view)));
                                lemma_items_sized_index(objs_view);
                                lemma_views_of(objs@);
                            }
                            let hash_key = key_hash_id_vec();
                            let mut tbl: Vec<(u32, u32)> = Vec::new();
                            let mut k: usize = 0;
                            proof {
                                assert(objs_view.skip(0) =~= objs_view);
                                assert(tbl@ + build_tbl(objs_view, refs@) =~= build_tbl(
                                    objs_view,
                                    refs@,
                                ));
                            }
                            while k < objs.len()
                                invariant
                                    k <= objs@.len(),
                                    build_tbl(objs_view, refs@) == tbl@ + build_tbl(
                                        objs_view.skip(k as int),
                                        refs@,
                                    ),
                                decreases objs@.len() - k,
                            {
                                let ghost skv = objs_view.skip(k as int);
                                proof {
                                    assert(skv[0] == objs_view[k as int]);
                                    assert(skv.drop_first() =~= objs_view.skip(k + 1 as int));
                                }
                                match &objs[k] {
                                    Value::Dict(es) => {
                                        proof {
                                            assert(objs_view[k as int] == objs@[k as int]@);
                                            assert(objs_view[k as int] == Val::Dict(kvs_of(es@)));
                                        }
                                        match dict_find(es, &hash_key) {
                                            Some(hx) => {
                                                let id_opt: Option<u32> = (match &es[hx].1 {
                                                    Value::U32(x) => Some(*x),
                                                    _ => None,
                                                });
                                                match id_opt {
                                                    Some(id) => {
                                                        proof {
                                                            assert(entry_id(objs_view[k as int])
                                                                == Some(id));
                                                        }
                                                        if !refs_contains(refs, id) {
                                                            let nid: u32 = object_new_id(
                                                                &objs[k],
                                                            );
                                                            let ghost tbl_pre = tbl@;
                                                            tbl.push((id, nid));
                                                            proof {
                                                                assert(build_tbl(skv, refs@)
                                                                    == seq![(id, nid)]
                                                                    + build_tbl(
                                                                    skv.drop_first(),
                                                                    refs@,
                                                                ));
                                                                assert(tbl_pre + (seq![(id, nid)]
                                                                    + build_tbl(
                                                                    objs_view.skip(k + 1 as int),
                                                                    refs@,
                                                                )) =~= (tbl_pre + seq![(id, nid)])
                                                                    + build_tbl(
                                                                    objs_view.skip(k + 1 as int),
                                                                    refs@,
                                                                ));
                                                            }
                                                        } else {
                                                            proof {
                                                                assert(build_tbl(skv, refs@)
                                                                    == build_tbl(
                                                                    skv.drop_first(),
                                                                    refs@,
                                                                ));
                                                            }
                                                        }
                                                    }
                                                    None => {
                                                        proof {
                                                            assert(!(es@[hx as int].1@ is U32));
                                                            assert(entry_id(objs_view[k as int])
                                                                is None);
                                                            assert(build_tbl(skv, refs@)
                                                                == build_tbl(
                                                                skv.drop_first(),
                                                                refs@,
                                                            ));
                                                        }
                                                    }
                                                }
                                            }
                                            None => {
                                                proof {
                                                    assert(entry_id(objs_view[k as int]) is None);
                                                    assert(build_tbl(skv, refs@) == build_tbl(
                                                        skv.drop_first(),
                                                        refs@,
                                                    ));
                                                }
                                            }
                                        }
                                    }
                                    _ => {
                                        proof {
                                            assert(objs_view[k as int] == objs@[k as int]@);
                                            assert(!(objs_view[k as int] is Dict));
                                            assert(patch_entry(
                                                objs_view[k as int],
                                                build_tbl(objs_view, refs@),
                                            ) is None);
                                            lemma_patch_objs_none(
                                                objs_view,
                                                build_tbl(objs_view, refs@),
                                                k as int,
                                            );
                                        }
                                        return Err(Error::Schema);
                                    }
                                }
                                k = k + 1;
                            }
                            proof {
                                assert(objs_view.skip(objs_view.len() as int).len() == 0);
                                assert(tbl@ + Seq::<(u32, u32)>::empty() =~= tbl@);
                                assert(build_tbl(objs_view, refs@) == tbl@);
                            }
                            let mut out_objs: Vec<Value> = Vec::new();
                            let mut rem = objs;
                            proof {
                                assert(views_of(out_objs@).len() == 0) by {
                                    lemma_views_of(out_objs@);
                                }
                            }
                            while rem.len() > 0
                                invariant
                                    (match patch_objs(views_of(rem@), tbl@) {
                                        Some(rest) => patch_objs(objs_view, tbl@) == Some(
                                            views_of(out_objs@) + rest,
                                        ),
                                        None => patch_objs(objs_view, tbl@) is None,
                                    }),
                                decreases rem@.len(),
                            {
                                let ghost rem_pre = rem@;
                                let head = rem.remove(0);
                                proof {
                                    assert(rem@ =~= rem_pre.drop_first());
                                    assert(views_of(rem_pre)[0] == head@);
                                    assert(views_of(rem_pre).drop_first() =~= views_of(rem@)) by {
                                        lemma_views_of(rem_pre);
                                        lemma_views_of(rem@);
                                    }
                                    assert(views_of(rem_pre) == seq![head@] + views_of(rem@)) by {
                                        assert(views_of(rem_pre) =~= seq![head@] + views_of(
                                            rem@,
                                        ));
                                    }
                                }
                                match patch_entry_exec(head, &tbl) {
                                    Ok(o2) => {
                                        proof {
                                            let tail_res = patch_objs(views_of(rem@), tbl@);
                                            assert(patch_objs(views_of(rem_pre), tbl@) == (
                                            match tail_res {
                                                Some(rest) => Some(seq![o2@] + rest),
                                                None => None::<Seq<Val>>,
                                            }));
                                            crate::value::lemma_views_of_push(out_objs@, o2);
                                            if tail_res is Some {
                                                let rest2 = tail_res->Some_0;
                                                assert(views_of(out_objs@) + (seq![o2@] + rest2)
                                                    =~= views_of(out_objs@.push(o2)) + rest2);
                                            }
                                        }
                                        out_objs.push(o2);
                                    }
                                    Err(e) => {
                                        proof {
                                            assert(patch_objs(views_of(rem_pre), tbl@) is None);
                                        }
                                        return Err(e);
                                    }
                                }
                            }
                            proof {
                                assert(views_of(rem@).len() == 0) by {
                                    lemma_views_of(rem@);
                                }
                                assert(patch_objs(views_of(rem@), tbl@) == Some(
                                    Seq::<Val>::empty(),
                                ));
                                assert(views_of(out_objs@) + Seq::<Val>::empty() =~= views_of(
                                    out_objs@,
                                ));
                                assert(patch_objs(objs_view, tbl@) == Some(views_of(out_objs@)));
                            }
                            let ghost okey = ent.0;
                            let ghost out_snap = out_objs;
                            res.insert(oix, (ent.0, Value::Arr(out_objs)));
                            proof {
                                assert(res@ =~= pre.update(
                                    oix as int,
                                    (okey, Value::Arr(out_snap)),
                                ));
                                lemma_kvs_of_update(pre, oix as int, okey, Value::Arr(out_snap));
                                assert(okey@ == key_objs());
                                assert(res0 == kvs_of(pre));
                                assert(kvs_of(res@) == res0.update(
                                    oix as int,
                                    (key_objs(), Val::Arr(views_of(out_snap@))),
                                ));
                                assert(res0[oix as int].0 == key_objs());
                                assert forall|t: int| 0 <= t < oix implies (#[trigger] res0[
                                    t
                                ]).0 != key_objs() by {
                                    assert(res0[t] == (pre[t].0@, pre[t].1@));
                                }
                                lemma_dict_put_is_update(
                                    res0,
                                    key_objs(),
                                    Val::Arr(views_of(out_snap@)),
                                    oix as int,
                                );
                            }
                            Ok((Document { root: Value::Dict(res), big_endian }, tbl))
                        }
                        other => {
                            proof {
                                assert(!(other@ is Arr));
                            }
                            Err(Error::Schema)
                        }
                    }
                }
                None => Err(Error::Schema),
            }
        }
        other => {
            proof {
                assert(!(other@ is Dict));
            }
            Err(Error::Schema)
        }
    }
}

} // verus!
