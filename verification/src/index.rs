//! From items to the engine: which requests make an item's fields
//! searchable, which take them back, and which a whole request calls for.
//!
//! The engine cannot change what it holds of an item. So an item that comes
//! again is first taken back as the store knows it, and then projected anew.
//! The requests are worked out against the store as it stands; the store is
//! written only after the engine has taken them, so that a failure on the
//! way leaves at most a hit that no record answers to.

use vstd::prelude::*;
use vstd::string::*;
use crate::engine::{language_code, language_of, EngineOp, ObjectKey, OpView};
use crate::ident::{object_id, object_name, object_owner};
use crate::item::{Item, ItemView};
use crate::store::ItemStore;

verus! {

/// The object that stands for the field `field` of `item`.
pub open spec fn key_of(item: ItemView, field: Seq<char>) -> ObjectKey {
    ObjectKey {
        collection: item.collection,
        bucket: item.bucket,
        object: object_name(item.id, field),
    }
}

/// The language in which the fields of `item` are pushed: the one that its
/// locale names, if it has a locale and that names one.
pub open spec fn hint_of(item: ItemView) -> Option<Seq<char>> {
    match item.locale {
        Some(code) => language_of(code),
        None => None,
    }
}

/// The request that makes the field `field` of `item` searchable, where the
/// item's payload holds that field.
pub open spec fn projection(item: ItemView, hint: Option<Seq<char>>, field: Seq<char>) -> Option<
    OpView,
> {
    match item.value_of(field) {
        Some(text) => Some(OpView::Push { key: key_of(item, field), text, lang: hint }),
        None => None,
    }
}

/// One push for each name in `indexes` that the payload holds, in the order
/// of `indexes`, all with the language `hint`.
pub open spec fn pushes_with(item: ItemView, hint: Option<Seq<char>>) -> Seq<OpView> {
    item.indexes.filter_map(|field: Seq<char>| projection(item, hint, field))
}

/// The requests that make `item` searchable.
pub open spec fn projection_ops(item: ItemView) -> Seq<OpView> {
    pushes_with(item, hint_of(item))
}

/// The requests that take `item` out of the engine: one flush for each name
/// in `indexes`, whether the payload holds it or not.
pub open spec fn retraction_ops(item: ItemView) -> Seq<OpView> {
    item.indexes.map_values(|field: Seq<char>| OpView::Flush { key: key_of(item, field) })
}

/// The requests that take back what the engine holds of an earlier record,
/// if there is one.
pub open spec fn withdrawal_ops(prior: Option<ItemView>) -> Seq<OpView> {
    match prior {
        Some(earlier) => retraction_ops(earlier),
        None => Seq::empty(),
    }
}

/// The requests for one item that is indexed: what the engine holds of the
/// record that the store has under the same identifier is taken back, then
/// the item is projected.
pub open spec fn supersede_ops(prior: Option<ItemView>, item: ItemView) -> Seq<OpView> {
    withdrawal_ops(prior) + projection_ops(item)
}

/// The requests for a batch of items, item after item, each against the
/// store as it stood before the batch.
pub open spec fn index_plan(store: Map<u128, ItemView>, items: Seq<ItemView>) -> Seq<OpView> {
    items.map_values(|item: ItemView| supersede_ops(store.get(item.id), item)).flatten()
}

/// The requests that take a batch of identifiers out of the engine. An
/// identifier that the store does not know calls for none.
pub open spec fn deindex_plan(store: Map<u128, ItemView>, ids: Seq<u128>) -> Seq<OpView> {
    ids.map_values(|id: u128| withdrawal_ops(store.get(id))).flatten()
}

/// Whether a hit on any object that the requests are about is read back as
/// a hit on the item `id`.
pub open spec fn all_owned_by(ops: Seq<OpView>, id: u128) -> bool {
    forall|i: int| 0 <= i < ops.len() ==> object_owner((#[trigger] ops[i]).key().object) == Some(id)
}

/// The store after the records of a batch were put into it, one after the
/// other.
pub open spec fn stored(store: Map<u128, ItemView>, items: Seq<ItemView>) -> Map<u128, ItemView>
    decreases items.len(),
{
    if items.len() == 0 {
        store
    } else {
        stored(store, items.drop_last()).insert(items.last().id, items.last())
    }
}

/// The store after the records of a batch of identifiers were taken out.
pub open spec fn unstored(store: Map<u128, ItemView>, ids: Seq<u128>) -> Map<u128, ItemView> {
    store.remove_keys(ids.to_set())
}

/// A language hint that holds the same as `hint`.
fn copy_hint(hint: &Option<String>) -> (r: Option<String>)
    ensures
        r.deep_view() == hint.deep_view(),
{
    match hint {
        Some(code) => Some(code.clone()),
        None => None,
    }
}

/// The language in which the fields of `item` are pushed.
pub fn language_hint(item: &Item) -> (hint: Option<String>)
    ensures
        hint.deep_view() == hint_of(item@),
{
    match &item.locale {
        Some(code) => language_code(code.as_str()),
        None => None,
    }
}

/// The pushes that make `item` searchable, with a language that the caller
/// has settled.
pub fn pushes(item: &Item, hint: &Option<String>) -> (ops: Vec<EngineOp>)
    ensures
        ops.deep_view() == pushes_with(item@, hint.deep_view()),
        all_owned_by(ops.deep_view(), item.id),
{
    let mut ops: Vec<EngineOp> = Vec::new();
    let ghost project = |field: Seq<char>| projection(item@, hint.deep_view(), field);
    let mut i: usize = 0;
    while i < item.indexes.len()
        invariant
            i <= item.indexes.len(),
            project == (|field: Seq<char>| projection(item@, hint.deep_view(), field)),
            ops.deep_view() == item@.indexes.take(i as int).filter_map(project),
            all_owned_by(ops.deep_view(), item.id),
        decreases item.indexes.len() - i,
    {
        let field = &item.indexes[i];
        let ghost before = ops.deep_view();
        proof {
            assert(item@.indexes[i as int] == field@);
            item@.indexes.lemma_filter_map_take_succ(project, i as int);
        }
        match item.value_of(field.as_str()) {
            Some(value) => {
                let op = EngineOp::Push {
                    collection: item.collection.clone(),
                    bucket: item.bucket.clone(),
                    object: object_id(item.id, field.as_str()),
                    text: value.clone(),
                    lang: copy_hint(hint),
                };
                assert(Some(op@) == project(field@));
                ops.push(op);
                assert(ops.deep_view() =~= before + seq![op@]);
            },
            None => {},
        }
        i = i + 1;
    }
    assert(item@.indexes.take(i as int) =~= item@.indexes);
    ops
}

/// The requests that make `item` searchable: one push for each of its index
/// fields that its payload holds.
pub fn projections(item: &Item) -> (ops: Vec<EngineOp>)
    ensures
        ops.deep_view() == projection_ops(item@),
        all_owned_by(ops.deep_view(), item.id),
{
    let hint = language_hint(item);
    pushes(item, &hint)
}

/// The requests that take `item` out of the engine: one flush for each of
/// its index fields.
pub fn retractions(item: &Item) -> (ops: Vec<EngineOp>)
    ensures
        ops.deep_view() == retraction_ops(item@),
        all_owned_by(ops.deep_view(), item.id),
{
    let mut ops: Vec<EngineOp> = Vec::new();
    let mut i: usize = 0;
    while i < item.indexes.len()
        invariant
            i <= item.indexes.len(),
            ops.len() == i,
            forall|j: int|
                0 <= j < i ==> ops@[j]@ == (OpView::Flush {
                    key: key_of(item@, item@.indexes[j]),
                }),
            all_owned_by(ops.deep_view(), item.id),
        decreases item.indexes.len() - i,
    {
        let field = &item.indexes[i];
        let ghost before = ops.deep_view();
        assert(item@.indexes[i as int] == field@);
        let op = EngineOp::Flush {
            collection: item.collection.clone(),
            bucket: item.bucket.clone(),
            object: object_id(item.id, field.as_str()),
        };
        ops.push(op);
        assert(ops.deep_view() =~= before.push(op@));
        i = i + 1;
    }
    assert(ops.deep_view() =~= retraction_ops(item@));
    ops
}

/// The requests that take back what the engine holds of an earlier record.
pub fn withdrawals(prior: Option<&Item>) -> (ops: Vec<EngineOp>)
    ensures
        ops.deep_view() == withdrawal_ops(
            match prior {
                Some(earlier) => Some(earlier@),
                None => None,
            },
        ),
{
    match prior {
        Some(earlier) => retractions(earlier),
        None => {
            let ops: Vec<EngineOp> = Vec::new();
            assert(ops.deep_view() =~= Seq::<OpView>::empty());
            ops
        },
    }
}

/// Puts the requests of `more` behind those of `ops`.
fn extend(ops: &mut Vec<EngineOp>, more: Vec<EngineOp>)
    ensures
        final(ops).deep_view() == old(ops).deep_view() + more.deep_view(),
{
    let mut more = more;
    let ghost first = ops.deep_view();
    let ghost second = more.deep_view();
    ops.append(&mut more);
    assert(ops.deep_view() =~= first + second);
}

/// The requests that an index request calls for, in the order in which the
/// engine is to take them. Nothing is written: the store is read only.
pub fn plan_index(store: &ItemStore, items: &Vec<Item>) -> (ops: Vec<EngineOp>)
    ensures
        ops.deep_view() == index_plan(store@, items.deep_view()),
{
    let mut ops: Vec<EngineOp> = Vec::new();
    let ghost step = |item: ItemView| supersede_ops(store@.get(item.id), item);
    let mut i: usize = 0;
    assert(items.deep_view().take(0).map_values(step) =~= Seq::<Seq<OpView>>::empty());
    while i < items.len()
        invariant
            i <= items.len(),
            step == (|item: ItemView| supersede_ops(store@.get(item.id), item)),
            ops.deep_view() == items.deep_view().take(i as int).map_values(step).flatten(),
        decreases items.len() - i,
    {
        let item = &items[i];
        proof {
            let done = items.deep_view().take(i as int).map_values(step);
            assert(items.deep_view()[i as int] == item@);
            assert(items.deep_view().take(i as int + 1).map_values(step) =~= done.push(
                step(item@),
            ));
            done.lemma_flatten_push(step(item@));
        }
        let back = withdrawals(store.get(item.id));
        let ghost taken_back = back.deep_view();
        extend(&mut ops, back);
        let forth = projections(item);
        assert(taken_back + forth.deep_view() == step(item@));
        extend(&mut ops, forth);
        i = i + 1;
    }
    assert(items.deep_view().take(i as int) =~= items.deep_view());
    ops
}

/// The requests that a deindex request calls for. They are worked out
/// before the records leave the store, which alone knows the fields to take
/// back.
pub fn plan_deindex(store: &ItemStore, ids: &Vec<u128>) -> (ops: Vec<EngineOp>)
    ensures
        ops.deep_view() == deindex_plan(store@, ids@),
{
    let mut ops: Vec<EngineOp> = Vec::new();
    let ghost step = |id: u128| withdrawal_ops(store@.get(id));
    let mut i: usize = 0;
    assert(ids@.take(0).map_values(step) =~= Seq::<Seq<OpView>>::empty());
    while i < ids.len()
        invariant
            i <= ids.len(),
            step == (|id: u128| withdrawal_ops(store@.get(id))),
            ops.deep_view() == ids@.take(i as int).map_values(step).flatten(),
        decreases ids.len() - i,
    {
        let id = ids[i];
        proof {
            let done = ids@.take(i as int).map_values(step);
            assert(ids@.take(i as int + 1).map_values(step) =~= done.push(step(id)));
            done.lemma_flatten_push(step(id));
        }
        let back = withdrawals(store.get(id));
        extend(&mut ops, back);
        i = i + 1;
    }
    assert(ids@.take(i as int) =~= ids@);
    ops
}

/// Puts the records of a batch into the store, one after the other. This
/// is the second half of an index request, for after the engine has taken
/// the requests of `plan_index`.
pub fn store_items(store: &mut ItemStore, items: Vec<Item>)
    ensures
        final(store)@ == stored(old(store)@, items.deep_view()),
{
    let ghost given = items.deep_view();
    let ghost start = store@;
    proof {
        assert(given.take(0) =~= Seq::<ItemView>::empty());
    }
    for item in iter: items
        invariant
            iter.seq().len() == given.len(),
            forall|j: int| 0 <= j < given.len() ==> (#[trigger] iter.seq()[j])@ == given[j],
            store@ == stored(start, given.take(iter.index() as int)),
    {
        proof {
            let upto = given.take(iter.index() as int + 1);
            assert(upto.drop_last() =~= given.take(iter.index() as int));
            assert(upto.last() == item@);
        }
        store.put(item);
    }
    assert(given.take(given.len() as int) =~= given);
}

/// Takes the records of a batch of identifiers out of the store. This is
/// the second half of a deindex request.
pub fn drop_items(store: &mut ItemStore, ids: &Vec<u128>)
    ensures
        final(store)@ == unstored(old(store)@, ids@),
{
    let ghost start = store@;
    let mut i: usize = 0;
    assert(start.remove_keys(ids@.take(0).to_set()) =~= start);
    while i < ids.len()
        invariant
            i <= ids.len(),
            store@ == start.remove_keys(ids@.take(i as int).to_set()),
        decreases ids.len() - i,
    {
        proof {
            let before = ids@.take(i as int);
            let after = ids@.take(i as int + 1);
            assert(after =~= before.push(ids@[i as int]));
            assert forall|id: u128| after.to_set().contains(id) <==> (before.to_set().contains(id)
                || id == ids@[i as int]) by {
                if before.to_set().contains(id) {
                    let k = choose|k: int| 0 <= k < before.len() && before[k] == id;
                    assert(after[k] == id);
                }
                if id == ids@[i as int] {
                    assert(after[i as int] == id);
                }
                if after.to_set().contains(id) {
                    let k = choose|k: int| 0 <= k < after.len() && after[k] == id;
                    if k < i {
                        assert(before[k] == id);
                    }
                }
            }
            assert(start.remove_keys(after.to_set()) =~= start.remove_keys(
                before.to_set(),
            ).remove(ids@[i as int]));
        }
        store.delete(ids[i]);
        i = i + 1;
    }
    assert(ids@.take(i as int) =~= ids@);
}

} // verus!
