use vstd::prelude::*;

verus! {

/// Mathematical model of one document node: a tagged value tree.
/// Floating-point fields are carried as raw bit patterns so the model
/// stays within the integers; keys are byte strings.
#[verifier::ext_equal]
pub enum Val {
    Null,
    Bool(bool),
    I32(i32),
    U32(u32),
    I64(i64),
    U64(u64),
    F32Bits(u32),
    F64Bits(u64),
    Str(Seq<u8>),
    Arr(Seq<Val>),
    Dict(Seq<(Seq<u8>, Val)>),
}

/// One parsed document node. Arrays and maps nest arbitrarily; a map keeps
/// its entries in insertion order and is looked up by first match.
#[derive(Debug, PartialEq)]
pub enum Value {
    Null,
    Bool(bool),
    I32(i32),
    U32(u32),
    I64(i64),
    U64(u64),
    F32Bits(u32),
    F64Bits(u64),
    Str(Vec<u8>),
    Arr(Vec<Value>),
    Dict(Vec<(Vec<u8>, Value)>),
}

/// The model that one node stands for.
pub open spec fn view_of(v: Value) -> Val
    decreases v,
{
    match v {
        Value::Null => Val::Null,
        Value::Bool(b) => Val::Bool(b),
        Value::I32(x) => Val::I32(x),
        Value::U32(x) => Val::U32(x),
        Value::I64(x) => Val::I64(x),
        Value::U64(x) => Val::U64(x),
        Value::F32Bits(x) => Val::F32Bits(x),
        Value::F64Bits(x) => Val::F64Bits(x),
        Value::Str(s) => Val::Str(s@),
        Value::Arr(items) => Val::Arr(views_of(items@)),
        Value::Dict(entries) => Val::Dict(kvs_of(entries@)),
    }
}

/// The models of a sequence of nodes, element by element.
pub open spec fn views_of(items: Seq<Value>) -> Seq<Val>
    decreases items,
{
    if items.len() == 0 {
        Seq::empty()
    } else {
        seq![view_of(items[0])] + views_of(items.drop_first())
    }
}

/// The models of a sequence of map entries, element by element.
pub open spec fn kvs_of(entries: Seq<(Vec<u8>, Value)>) -> Seq<(Seq<u8>, Val)>
    decreases entries,
{
    if entries.len() == 0 {
        Seq::empty()
    } else {
        seq![(entries[0].0@, view_of(entries[0].1))] + kvs_of(entries.drop_first())
    }
}

impl View for Value {
    type V = Val;

    open spec fn view(&self) -> Val {
        view_of(*self)
    }
}

/// `views_of` read off index by index.
pub proof fn lemma_views_of(items: Seq<Value>)
    ensures
        views_of(items).len() == items.len(),
        forall|i: int| 0 <= i < items.len() ==> views_of(items)[i] == #[trigger] items[i]@,
    decreases items,
{
    if items.len() > 0 {
        lemma_views_of(items.drop_first());
        assert forall|i: int| 0 <= i < items.len() implies views_of(items)[i] == #[trigger] items[i]@ by {
            if i > 0 {
                assert(items.drop_first()[i - 1] == items[i]);
            }
        }
    }
}

/// `kvs_of` read off index by index.
pub proof fn lemma_kvs_of(entries: Seq<(Vec<u8>, Value)>)
    ensures
        kvs_of(entries).len() == entries.len(),
        forall|i: int| 0 <= i < entries.len() ==> kvs_of(entries)[i]
            == (#[trigger] entries[i].0@, entries[i].1@),
    decreases entries,
{
    if entries.len() > 0 {
        lemma_kvs_of(entries.drop_first());
        assert forall|i: int| 0 <= i < entries.len() implies kvs_of(entries)[i]
            == (#[trigger] entries[i].0@, entries[i].1@) by {
            if i > 0 {
                assert(entries.drop_first()[i - 1] == entries[i]);
            }
        }
    }
}

/// Appending one node appends its model.
pub proof fn lemma_views_of_push(items: Seq<Value>, v: Value)
    ensures
        views_of(items.push(v)) == views_of(items) + seq![v@],
{
    lemma_views_of(items.push(v));
    lemma_views_of(items);
    assert forall|i: int| 0 <= i < items.len() + 1 implies views_of(items.push(v))[i]
        == (views_of(items) + seq![v@])[i] by {
        assert(views_of(items.push(v))[i] == items.push(v)[i]@);
        if i < items.len() {
            assert(items.push(v)[i] == items[i]);
            assert(views_of(items)[i] == items[i]@);
        } else {
            assert(items.push(v)[i] == v);
        }
    }
    assert(views_of(items.push(v)) =~= views_of(items) + seq![v@]);
}

/// Appending one entry appends its model.
pub proof fn lemma_kvs_of_push(entries: Seq<(Vec<u8>, Value)>, k: Vec<u8>, v: Value)
    ensures
        kvs_of(entries.push((k, v))) == kvs_of(entries) + seq![(k@, v@)],
{
    lemma_kvs_of(entries.push((k, v)));
    lemma_kvs_of(entries);
    assert forall|i: int| 0 <= i < entries.len() + 1 implies kvs_of(entries.push((k, v)))[i]
        == (kvs_of(entries) + seq![(k@, v@)])[i] by {
        assert(kvs_of(entries.push((k, v)))[i]
            == (entries.push((k, v))[i].0@, entries.push((k, v))[i].1@));
        if i < entries.len() {
            assert(entries.push((k, v))[i] == entries[i]);
            assert(kvs_of(entries)[i] == (entries[i].0@, entries[i].1@));
        } else {
            assert(entries.push((k, v))[i] == (k, v));
        }
    }
    assert(kvs_of(entries.push((k, v))) =~= kvs_of(entries) + seq![(k@, v@)]);
}

/// Nesting depth of a node: leaves are at depth zero, each array or map
/// level adds one.
pub open spec fn val_depth(v: Val) -> nat
    decreases v,
{
    match v {
        Val::Arr(items) => 1 + items_depth(items),
        Val::Dict(entries) => 1 + kvs_depth(entries),
        _ => 0,
    }
}

/// Greatest depth among a sequence of nodes.
pub open spec fn items_depth(items: Seq<Val>) -> nat
    decreases items,
{
    if items.len() == 0 {
        0
    } else {
        let h = val_depth(items[0]);
        let t = items_depth(items.drop_first());
        if h > t {
            h
        } else {
            t
        }
    }
}

/// Greatest depth among the values of a sequence of map entries.
pub open spec fn kvs_depth(entries: Seq<(Seq<u8>, Val)>) -> nat
    decreases entries,
{
    if entries.len() == 0 {
        0
    } else {
        let h = val_depth(entries[0].1);
        let t = kvs_depth(entries.drop_first());
        if h > t {
            h
        } else {
            t
        }
    }
}

/// The most nesting the codec accepts in one document.
pub const MAX_DEPTH: u32 = 64;

/// Well-formedness: every string, array and map is short enough for its
/// length to be written as one unsigned 32-bit count, and the tree does
/// not nest beyond `MAX_DEPTH`.
pub open spec fn val_wf(v: Val) -> bool {
    val_sized(v) && val_depth(v) <= MAX_DEPTH
}

/// The size side of well-formedness alone, checked level by level.
pub open spec fn val_sized(v: Val) -> bool
    decreases v,
{
    match v {
        Val::Str(s) => s.len() <= u32::MAX,
        Val::Arr(items) => items.len() <= u32::MAX && items_sized(items),
        Val::Dict(entries) => entries.len() <= u32::MAX && kvs_sized(entries),
        _ => true,
    }
}

pub open spec fn items_sized(items: Seq<Val>) -> bool
    decreases items,
{
    if items.len() == 0 {
        true
    } else {
        val_sized(items[0]) && items_sized(items.drop_first())
    }
}

/// Sized sequences are sized at every index.
pub proof fn lemma_items_sized_index(items: Seq<Val>)
    requires
        items_sized(items),
    ensures
        forall|i: int| 0 <= i < items.len() ==> val_sized(#[trigger] items[i]),
    decreases items,
{
    if items.len() > 0 {
        lemma_items_sized_index(items.drop_first());
        assert forall|i: int| 0 <= i < items.len() implies val_sized(#[trigger] items[i]) by {
            if i > 0 {
                assert(items.drop_first()[i - 1] == items[i]);
            }
        }
    }
}

/// Sized entry sequences are sized at every index.
pub proof fn lemma_kvs_sized_index(entries: Seq<(Seq<u8>, Val)>)
    requires
        kvs_sized(entries),
    ensures
        forall|i: int| 0 <= i < entries.len() ==> (#[trigger] entries[i]).0.len() <= u32::MAX
            && val_sized(entries[i].1),
    decreases entries,
{
    if entries.len() > 0 {
        lemma_kvs_sized_index(entries.drop_first());
        assert forall|i: int| 0 <= i < entries.len() implies (#[trigger] entries[i]).0.len()
            <= u32::MAX && val_sized(entries[i].1) by {
            if i > 0 {
                assert(entries.drop_first()[i - 1] == entries[i]);
            }
        }
    }
}

pub open spec fn kvs_sized(entries: Seq<(Seq<u8>, Val)>) -> bool
    decreases entries,
{
    if entries.len() == 0 {
        true
    } else {
        entries[0].0.len() <= u32::MAX && val_sized(entries[0].1)
            && kvs_sized(entries.drop_first())
    }
}

} // verus!
