//! What holds of the gateway as a whole, stated over the model of the
//! engine and over the store as a map.
//!
//! A request is served in two halves: the engine takes the requests that
//! were planned against the store as it stood, then the store is written.
//! The laws below follow one item through such requests.

use vstd::prelude::*;
use crate::engine::{
    can_answer, held, lemma_pushed_is_held, lemma_run_concat, lemma_run_flushes,
    lemma_run_pushes, lemma_run_untouched, only_flushes, only_pushes, run, touches, ObjectKey,
    OpView,
};
use crate::ident::{
    id_text, lemma_id_text_injective, lemma_object_name_injective, lemma_owner_of_object_name,
    object_name, object_owner, owner_text, parsed_id,
};
use crate::index::{
    deindex_plan, hint_of, index_plan, key_of, projection, projection_ops, retraction_ops,
    stored, supersede_ops, unstored, withdrawal_ops,
};
use crate::item::ItemView;
use crate::query::{first_occurrences, lemma_first_occurrences, lemma_present, present, ranked};
use crate::scan::{first_index, lemma_first_index_bounds};
use crate::store::keyed;

verus! {

/// The plan for a batch of one item is the requests for that item.
pub proof fn lemma_index_plan_single(store: Map<u128, ItemView>, item: ItemView)
    ensures
        index_plan(store, seq![item]) == supersede_ops(store.get(item.id), item),
        stored(store, seq![item]) == store.insert(item.id, item),
{
    let step = |it: ItemView| supersede_ops(store.get(it.id), it);
    let parts = seq![item].map_values(step);
    assert(parts =~= seq![step(item)]);
    assert(parts.drop_first() =~= Seq::<Seq<OpView>>::empty());
    assert(parts.flatten() =~= step(item) + parts.drop_first().flatten());
    assert(parts.flatten() =~= step(item));
    assert(seq![item].drop_last() =~= Seq::<ItemView>::empty());
    assert(stored(store, seq![item]) =~= stored(store, seq![item].drop_last()).insert(
        item.id,
        item,
    ));
}

/// The plan for a batch of one identifier is the requests that take back
/// what the store holds under it.
pub proof fn lemma_deindex_plan_single(store: Map<u128, ItemView>, id: u128)
    ensures
        deindex_plan(store, seq![id]) == withdrawal_ops(store.get(id)),
        unstored(store, seq![id]) == store.remove(id),
{
    let step = |one: u128| withdrawal_ops(store.get(one));
    let parts = seq![id].map_values(step);
    assert(parts =~= seq![step(id)]);
    assert(parts.drop_first() =~= Seq::<Seq<OpView>>::empty());
    assert(parts.flatten() =~= step(id) + parts.drop_first().flatten());
    assert(parts.flatten() =~= step(id));
    assert(seq![id].to_set() =~= set![id]) by {
        assert forall|x: u128| seq![id].to_set().contains(x) <==> set![id].contains(x) by {
            if x == id {
                assert(seq![id][0] == x);
            }
        }
    }
    assert(store.remove_keys(set![id]) =~= store.remove(id));
}

/// Whether `op` is the push that makes one of the index fields of `item`
/// searchable, a field that the payload holds.
pub open spec fn projects(item: ItemView, op: OpView) -> bool {
    exists|field: Seq<char>|
        item.indexes.contains(field) && #[trigger] projection(item, hint_of(item), field) == Some(
            op,
        )
}

/// What the requests that make an item searchable are made of: pushes, each
/// to the object of an index field that the payload holds, with the value
/// of that field; and one for each such field.
pub proof fn lemma_projection_ops(item: ItemView)
    ensures
        only_pushes(projection_ops(item)),
        forall|i: int|
            0 <= i < projection_ops(item).len() ==> projects(
                item,
                #[trigger] projection_ops(item)[i],
            ),
        forall|field: Seq<char>|
            item.indexes.contains(field) && item.value_of(field) is Some ==> projection_ops(
                item,
            ).contains(#[trigger] projection(item, hint_of(item), field).unwrap()),
{
    let hint = hint_of(item);
    let project = |field: Seq<char>| projection(item, hint, field);
    let ops = projection_ops(item);
    assert forall|i: int| 0 <= i < ops.len() implies (#[trigger] ops[i]) is Push && projects(
        item,
        ops[i],
    ) by {
        assert(ops.contains(ops[i]));
        item.indexes.lemma_filter_map_contains(project, ops[i]);
        let field = choose|field: Seq<char>| #[trigger]
            item.indexes.contains(field) && project(field) == Some(ops[i]);
        assert(projection(item, hint, field) == Some(ops[i]));
    }
    assert forall|field: Seq<char>|
        item.indexes.contains(field) && item.value_of(field) is Some implies ops.contains(
        #[trigger] projection(item, hint, field).unwrap(),
    ) by {
        lemma_filter_map_holds(item.indexes, project, field);
    }
}

/// What a mapping makes of a member of a sequence is a member of what it
/// makes of the sequence.
proof fn lemma_filter_map_holds(
    s: Seq<Seq<char>>,
    f: spec_fn(Seq<char>) -> Option<OpView>,
    x: Seq<char>,
)
    requires
        s.contains(x),
        f(x) is Some,
    ensures
        s.filter_map(f).contains(f(x).unwrap()),
    decreases s.len(),
{
    let out = s.filter_map(f);
    let front = s.drop_last();
    let i = choose|i: int| 0 <= i < s.len() && s[i] == x;
    if i == s.len() - 1 {
        assert(out =~= front.filter_map(f) + seq![f(x).unwrap()]);
        assert(out[out.len() - 1] == f(x).unwrap());
    } else {
        assert(front[i] == x);
        lemma_filter_map_holds(front, f, x);
        let k = choose|k: int|
            0 <= k < front.filter_map(f).len() && front.filter_map(f)[k] == f(x).unwrap();
        assert(out[k] == f(x).unwrap());
    }
}

/// What the requests that take an item back are made of: flushes, one to
/// the object of each index field.
pub proof fn lemma_retraction_ops(item: ItemView)
    ensures
        only_flushes(retraction_ops(item)),
        forall|field: Seq<char>|
            item.indexes.contains(field) ==> touches(
                retraction_ops(item),
                #[trigger] key_of(item, field),
            ),
{
    let ops = retraction_ops(item);
    assert forall|field: Seq<char>| item.indexes.contains(field) implies touches(
        ops,
        #[trigger] key_of(item, field),
    ) by {
        let i = choose|i: int| 0 <= i < item.indexes.len() && item.indexes[i] == field;
        assert(ops[i].key() == key_of(item, field));
    }
}

/// A field that is declared to be searchable but that the payload does not
/// hold is never pushed: whatever the engine held under its object before
/// the item was projected, it holds after, and nothing more.
pub proof fn law_missing_field_contributes_nothing(
    engine: Map<ObjectKey, Seq<Seq<char>>>,
    item: ItemView,
    field: Seq<char>,
)
    requires
        item.value_of(field) is None,
    ensures
        !touches(projection_ops(item), key_of(item, field)),
        run(engine, projection_ops(item)).dom().contains(key_of(item, field))
            == engine.dom().contains(key_of(item, field)),
        held(run(engine, projection_ops(item)), key_of(item, field)) == held(
            engine,
            key_of(item, field),
        ),
        !run(Map::empty(), projection_ops(item)).dom().contains(key_of(item, field)),
{
    let ops = projection_ops(item);
    let key = key_of(item, field);
    lemma_projection_ops(item);
    assert forall|i: int| 0 <= i < ops.len() implies (#[trigger] ops[i]).key() != key by {
        assert(projects(item, ops[i]));
        let other = choose|other: Seq<char>|
            item.indexes.contains(other) && #[trigger] projection(item, hint_of(item), other)
                == Some(ops[i]);
        if ops[i].key() == key {
            lemma_object_name_injective(item.id, other, field);
        }
    }
    lemma_run_untouched(engine, ops, key);
    lemma_run_untouched(Map::empty(), ops, key);
}

/// An item that is indexed and at once deindexed has left the engine and
/// the store. The engine holds none of the objects that stood for its
/// fields, so no answer of the engine names one of them; and whatever the
/// engine answers, the item is not among the items that are given for it.
pub proof fn law_deindex_undoes_index(
    engine: Map<ObjectKey, Seq<Seq<char>>>,
    store: Map<u128, ItemView>,
    item: ItemView,
)
    requires
        keyed(store),
    ensures
        ({
            let indexed = run(engine, index_plan(store, seq![item]));
            let kept = stored(store, seq![item]);
            let left = run(indexed, deindex_plan(kept, seq![item.id]));
            let dropped = unstored(kept, seq![item.id]);
            &&& forall|field: Seq<char>|
                item.indexes.contains(field) ==> !left.dom().contains(
                    #[trigger] key_of(item, field),
                )
            &&& forall|hits: Seq<Seq<char>>, i: int, field: Seq<char>|
                can_answer(left, item.collection, item.bucket, hits) && 0 <= i < hits.len()
                    && item.indexes.contains(field) ==> #[trigger] hits[i] != (#[trigger] key_of(
                    item,
                    field,
                )).object
            &&& !dropped.dom().contains(item.id)
            &&& forall|ids: Seq<u128>, k: int|
                0 <= k < ranked(dropped, ids).len() ==> (#[trigger] ranked(dropped, ids)[k]).id
                    != item.id
        }),
{
    let indexed = run(engine, index_plan(store, seq![item]));
    let kept = stored(store, seq![item]);
    let left = run(indexed, deindex_plan(kept, seq![item.id]));
    let dropped = unstored(kept, seq![item.id]);
    lemma_index_plan_single(store, item);
    lemma_deindex_plan_single(kept, item.id);
    assert(kept.get(item.id) == Some(item));
    assert(deindex_plan(kept, seq![item.id]) == retraction_ops(item));
    lemma_retraction_ops(item);
    assert forall|field: Seq<char>| item.indexes.contains(field) implies !left.dom().contains(
        #[trigger] key_of(item, field),
    ) by {
        lemma_run_flushes(indexed, retraction_ops(item), key_of(item, field));
    }
    assert forall|hits: Seq<Seq<char>>, i: int, field: Seq<char>|
        can_answer(left, item.collection, item.bucket, hits) && 0 <= i < hits.len()
            && item.indexes.contains(field) implies #[trigger] hits[i] != (#[trigger] key_of(
        item,
        field,
    )).object by {
        let key = ObjectKey { collection: item.collection, bucket: item.bucket, object: hits[i] };
        assert(left.dom().contains(key));
        if hits[i] == key_of(item, field).object {
            assert(key == key_of(item, field));
        }
    }
    assert(keyed(dropped));
    assert forall|ids: Seq<u128>, k: int| 0 <= k < ranked(dropped, ids).len() implies (
    #[trigger] ranked(dropped, ids)[k]).id != item.id by {
        lemma_first_occurrences(ids);
        lemma_present(dropped, first_occurrences(ids));
    }
}

/// An item that is indexed again supersedes what the engine held of it.
/// Under every object of the record that the store held, the engine holds
/// after the request only what the new record projects there: nothing of
/// the old values is left. And every value of the new record that is to be
/// searchable is held under the object of its field.
pub proof fn law_reindex_supersedes(
    engine: Map<ObjectKey, Seq<Seq<char>>>,
    store: Map<u128, ItemView>,
    earlier: ItemView,
    item: ItemView,
)
    requires
        store.get(item.id) == Some(earlier),
    ensures
        ({
            let after = run(engine, index_plan(store, seq![item]));
            let fresh = run(Map::empty(), projection_ops(item));
            &&& forall|field: Seq<char>|
                earlier.indexes.contains(field) ==> held(after, #[trigger] key_of(earlier, field))
                    == held(fresh, key_of(earlier, field)) && after.dom().contains(
                    key_of(earlier, field),
                ) == fresh.dom().contains(key_of(earlier, field))
            &&& forall|field: Seq<char>|
                item.indexes.contains(field) && item.value_of(field) is Some ==> after.dom().contains(
                    #[trigger] key_of(item, field),
                ) && held(after, key_of(item, field)).contains(item.value_of(field).unwrap())
        }),
{
    let back = retraction_ops(earlier);
    let forth = projection_ops(item);
    let after = run(engine, index_plan(store, seq![item]));
    let fresh = run(Map::empty(), forth);
    let cleared = run(engine, back);
    lemma_index_plan_single(store, item);
    lemma_run_concat(engine, back, forth);
    assert(after == run(cleared, forth));
    lemma_retraction_ops(earlier);
    lemma_projection_ops(item);
    assert forall|field: Seq<char>| earlier.indexes.contains(field) implies held(
        after,
        #[trigger] key_of(earlier, field),
    ) == held(fresh, key_of(earlier, field)) && after.dom().contains(key_of(earlier, field))
        == fresh.dom().contains(key_of(earlier, field)) by {
        let key = key_of(earlier, field);
        lemma_run_flushes(engine, back, key);
        lemma_run_pushes(cleared, forth, key);
        assert(Seq::<Seq<char>>::empty() + held(fresh, key) =~= held(fresh, key));
    }
    assert forall|field: Seq<char>|
        item.indexes.contains(field) && item.value_of(field) is Some implies after.dom().contains(
        #[trigger] key_of(item, field),
    ) && held(after, key_of(item, field)).contains(item.value_of(field).unwrap()) by {
        let op = projection(item, hint_of(item), field).unwrap();
        assert(forth.contains(op));
        let i = choose|i: int| 0 <= i < forth.len() && forth[i] == op;
        lemma_pushed_is_held(cleared, forth, i);
    }
}

/// Parts that are all empty make an empty whole.
proof fn lemma_flatten_of_empties(parts: Seq<Seq<OpView>>)
    requires
        forall|i: int| 0 <= i < parts.len() ==> (#[trigger] parts[i]).len() == 0,
    ensures
        parts.flatten() == Seq::<OpView>::empty(),
    decreases parts.len(),
{
    if parts.len() > 0 {
        let rest = parts.drop_first();
        assert forall|i: int| 0 <= i < rest.len() implies (#[trigger] rest[i]).len() == 0 by {
            assert(rest[i] == parts[i + 1]);
        }
        lemma_flatten_of_empties(rest);
        assert(parts[0].len() == 0);
        assert(parts.flatten() =~= parts.first() + rest.flatten());
        assert(parts.flatten() =~= Seq::<OpView>::empty());
    }
}

/// To deindex identifiers whose items have no field that was to be
/// searchable, or that the store does not know, asks nothing of the engine.
pub proof fn law_deindex_unindexed_spares_engine(
    engine: Map<ObjectKey, Seq<Seq<char>>>,
    store: Map<u128, ItemView>,
    ids: Seq<u128>,
)
    requires
        forall|i: int|
            0 <= i < ids.len() && store.dom().contains(#[trigger] ids[i]) ==> store[ids[i]].indexes.len()
                == 0,
    ensures
        deindex_plan(store, ids) == Seq::<OpView>::empty(),
        run(engine, deindex_plan(store, ids)) == engine,
{
    let step = |id: u128| withdrawal_ops(store.get(id));
    let parts = ids.map_values(step);
    assert forall|i: int| 0 <= i < parts.len() implies (#[trigger] parts[i]).len() == 0 by {
        assert(parts[i] == withdrawal_ops(store.get(ids[i])));
    }
    lemma_flatten_of_empties(parts);
}

/// To deindex identifiers that the store does not know changes nothing: the
/// engine is asked nothing, and the store stays as it is.
pub proof fn law_deindex_unknown_is_noop(
    engine: Map<ObjectKey, Seq<Seq<char>>>,
    store: Map<u128, ItemView>,
    ids: Seq<u128>,
)
    requires
        forall|i: int| 0 <= i < ids.len() ==> !store.dom().contains(#[trigger] ids[i]),
    ensures
        deindex_plan(store, ids) == Seq::<OpView>::empty(),
        run(engine, deindex_plan(store, ids)) == engine,
        unstored(store, ids) == store,
{
    law_deindex_unindexed_spares_engine(engine, store, ids);
    assert(store.remove_keys(ids.to_set()) =~= store);
}

/// The name of an object tells the item and the field that it stands for:
/// two names are the same only where both are. And what stands before the
/// first underscore of a name is the text of the item's identifier, so that
/// a hit is read back as that text is.
pub proof fn law_object_name_identifies(a: u128, f: Seq<char>, b: u128, g: Seq<char>)
    ensures
        object_name(a, f) == object_name(b, g) ==> a == b && f == g,
        owner_text(object_name(a, f)) == id_text(a),
        object_owner(object_name(a, f)) == parsed_id(id_text(a)),
        object_name(a, f).skip(37) == f,
{
    lemma_owner_of_object_name(a, f);
    lemma_owner_of_object_name(b, g);
    if object_name(a, f) == object_name(b, g) {
        lemma_id_text_injective(a, b);
        lemma_object_name_injective(a, f, g);
    }
    assert(object_name(a, f).skip(37) =~= f);
}

/// The items given for a ranked list of identifiers are the records that
/// the store holds of them, each once, in the order in which the list first
/// names them: an item whose best hit ranks before another's stands before
/// it.
pub proof fn law_hydration_keeps_rank(store: Map<u128, ItemView>, ids: Seq<u128>)
    requires
        keyed(store),
    ensures
        forall|k: int|
            0 <= k < ranked(store, ids).len() ==> ids.contains(
                (#[trigger] ranked(store, ids)[k]).id,
            ) && store.get(ranked(store, ids)[k].id) == Some(ranked(store, ids)[k]),
        forall|id: u128|
            ids.contains(id) && store.dom().contains(id) ==> ranked(store, ids).contains(
                #[trigger] store[id],
            ),
        forall|i: int, j: int|
            0 <= i < j < ranked(store, ids).len() ==> first_index(
                ids,
                (#[trigger] ranked(store, ids)[i]).id,
            ) < first_index(ids, (#[trigger] ranked(store, ids)[j]).id),
        forall|i: int, j: int|
            0 <= i < j < ranked(store, ids).len() ==> (#[trigger] ranked(store, ids)[i]).id != (
            #[trigger] ranked(store, ids)[j]).id,
{
    let firsts = first_occurrences(ids);
    let out = ranked(store, ids);
    lemma_first_occurrences(ids);
    lemma_present(store, firsts);
    assert(out == present(store, firsts));
    assert forall|i: int, j: int| 0 <= i < j < out.len() implies first_index(
        ids,
        (#[trigger] out[i]).id,
    ) < first_index(ids, (#[trigger] out[j]).id) by {
        let a = out[i].id;
        let b = out[j].id;
        let p = first_index(firsts, a);
        let q = first_index(firsts, b);
        assert(p < q);
        lemma_first_index_bounds(firsts, a);
        lemma_first_index_bounds(firsts, b);
        assert(firsts.contains(a));
        assert(firsts.contains(b));
        if p == firsts.len() {
            let w = choose|w: int| 0 <= w < firsts.len() && firsts[w] == a;
            assert(firsts[w] != a);
        }
        if q == firsts.len() {
            let w = choose|w: int| 0 <= w < firsts.len() && firsts[w] == b;
            assert(firsts[w] != b);
        }
        assert(firsts[p] == a);
        assert(firsts[q] == b);
    }
}

} // verus!
