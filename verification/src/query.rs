//! From the engine back to items: what a search or a completion asks of the
//! engine, and how the hits it ranks become stored items again.
//!
//! A hit names an object, and so a field of an item. An item that matched
//! through several fields is named several times: it is given once, where it
//! was first named. A hit whose item the store does not hold is passed over,
//! for store and engine may have drifted apart. A completion is answered
//! with the words as the engine gives them; nothing is looked up for it.

use vstd::prelude::*;
use vstd::string::*;
use crate::fault::Fault;
use crate::ident::{decode_object_id, object_owner};
use crate::item::{Item, ItemView, SearchForm, SuggestForm};
use crate::scan::{first_index, lemma_first_index_bounds, lemma_first_index_is};
use crate::store::{keyed, ItemStore};

verus! {

/// What the engine is asked when items are searched. Each of the two limits
/// is passed on as it came: a missing `limit` leaves the cap to the engine,
/// a missing `offset` starts at the best hit.
#[derive(Debug, Clone, PartialEq, Eq)]
pub struct EngineQuery {
    pub collection: String,
    pub bucket: String,
    pub terms: String,
    pub limit: Option<usize>,
    pub offset: Option<usize>,
}

/// What the engine is asked when the beginning of a word is completed.
#[derive(Debug, Clone, PartialEq, Eq)]
pub struct EngineSuggest {
    pub collection: String,
    pub bucket: String,
    pub word: String,
    pub limit: Option<usize>,
}

/// The query that a search form stands for: its text as it is, in its
/// collection and bucket.
pub fn search_query(form: &SearchForm) -> (query: EngineQuery)
    ensures
        query.collection@ == form.collection@,
        query.bucket@ == form.bucket@,
        query.terms@ == form.query@,
        query.limit == form.limit,
        query.offset == form.offset,
{
    EngineQuery {
        collection: form.collection.clone(),
        bucket: form.bucket.clone(),
        terms: form.query.clone(),
        limit: form.limit,
        offset: form.offset,
    }
}

/// The request that a suggest form stands for.
pub fn suggest_query(form: &SuggestForm) -> (query: EngineSuggest)
    ensures
        query.collection@ == form.collection@,
        query.bucket@ == form.bucket@,
        query.word@ == form.query@,
        query.limit == form.limit,
{
    EngineSuggest {
        collection: form.collection.clone(),
        bucket: form.bucket.clone(),
        word: form.query.clone(),
        limit: form.limit,
    }
}

/// Whether every hit names an object that belongs to an item.
pub open spec fn decodable(hits: Seq<Seq<char>>) -> bool {
    forall|i: int| 0 <= i < hits.len() ==> object_owner(#[trigger] hits[i]) is Some
}

/// The items that the hits belong to, hit by hit.
pub open spec fn decoded(hits: Seq<Seq<char>>) -> Seq<u128> {
    hits.map_values(|hit: Seq<char>| object_owner(hit).unwrap())
}

/// The identifiers of `ids` in their order, each only where it stands first.
pub open spec fn first_occurrences(ids: Seq<u128>) -> Seq<u128>
    decreases ids.len(),
{
    if ids.len() == 0 {
        Seq::empty()
    } else {
        let front = first_occurrences(ids.drop_last());
        if front.contains(ids.last()) {
            front
        } else {
            front.push(ids.last())
        }
    }
}

/// The records of those of `ids` that the store holds, in the order of `ids`.
pub open spec fn present(store: Map<u128, ItemView>, ids: Seq<u128>) -> Seq<ItemView> {
    ids.filter_map(|id: u128| store.get(id))
}

/// The items that a ranked list of identifiers is answered with.
pub open spec fn ranked(store: Map<u128, ItemView>, ids: Seq<u128>) -> Seq<ItemView> {
    present(store, first_occurrences(ids))
}

/// `first_occurrences` holds what `ids` holds, nothing twice, and in the
/// order in which `ids` first names it.
pub proof fn lemma_first_occurrences(ids: Seq<u128>)
    ensures
        forall|id: u128| first_occurrences(ids).contains(id) <==> ids.contains(id),
        first_occurrences(ids).no_duplicates(),
        forall|i: int, j: int|
            0 <= i < j < first_occurrences(ids).len() ==> first_index(
                ids,
                #[trigger] first_occurrences(ids)[i],
            ) < first_index(ids, #[trigger] first_occurrences(ids)[j]),
    decreases ids.len(),
{
    let out = first_occurrences(ids);
    if ids.len() > 0 {
        let prefix = ids.drop_last();
        let front = first_occurrences(prefix);
        let last = ids.last();
        lemma_first_occurrences(prefix);
        assert forall|id: u128| out.contains(id) <==> ids.contains(id) by {
            if out.contains(id) {
                let k = choose|k: int| 0 <= k < out.len() && out[k] == id;
                if k < front.len() {
                    assert(front[k] == id);
                    assert(first_occurrences(prefix).contains(id));
                    assert(prefix.contains(id));
                    let p = choose|p: int| 0 <= p < prefix.len() && prefix[p] == id;
                    assert(ids[p] == id);
                } else {
                    assert(ids[ids.len() - 1] == id);
                }
            }
            if ids.contains(id) {
                let p = choose|p: int| 0 <= p < ids.len() && ids[p] == id;
                if p < prefix.len() {
                    assert(prefix[p] == id);
                    assert(prefix.contains(id));
                    assert(first_occurrences(prefix).contains(id));
                    let k = choose|k: int| 0 <= k < front.len() && front[k] == id;
                    assert(out[k] == id);
                } else if front.contains(id) {
                } else {
                    assert(out[out.len() - 1] == id);
                }
            }
        }
        assert forall|k: int| 0 <= k < front.len() implies first_index(ids, #[trigger] front[k])
            == first_index(prefix, front[k]) && first_index(prefix, front[k]) < prefix.len() by {
            let id = front[k];
            assert(front.contains(id));
            assert(prefix.contains(id));
            lemma_first_index_bounds(prefix, id);
            let n = first_index(prefix, id);
            if n == prefix.len() {
                let p = choose|p: int| 0 <= p < prefix.len() && prefix[p] == id;
                assert(prefix[p] != id);
            }
            assert forall|q: int| 0 <= q < n implies ids[q] != id by {
                assert(prefix[q] != id);
            }
            assert(ids[n] == prefix[n]);
            lemma_first_index_is(ids, id, n);
        }
        if !front.contains(last) {
            assert forall|q: int| 0 <= q < prefix.len() implies ids[q] != last by {
                assert(prefix[q] == ids[q]);
                if prefix[q] == last {
                    assert(prefix.contains(last));
                }
            }
            lemma_first_index_is(ids, last, ids.len() - 1);
            assert forall|i: int, j: int| 0 <= i < j < out.len() implies out[i] != out[j] by {
                if j == front.len() {
                    assert(front[i] == out[i]);
                    assert(front.contains(out[i]));
                }
            }
        }
        assert forall|i: int, j: int| 0 <= i < j < out.len() implies first_index(
            ids,
            #[trigger] out[i],
        ) < first_index(ids, #[trigger] out[j]) by {
            assert(out[i] == front[i]);
            if j < front.len() {
                assert(out[j] == front[j]);
            }
        }
    }
}

/// What `present` gives is what the store holds under the identifiers it
/// was given, in their order.
pub proof fn lemma_present(store: Map<u128, ItemView>, ids: Seq<u128>)
    requires
        keyed(store),
        ids.no_duplicates(),
    ensures
        forall|k: int|
            0 <= k < present(store, ids).len() ==> ids.contains(
                (#[trigger] present(store, ids)[k]).id,
            ) && store.get(present(store, ids)[k].id) == Some(present(store, ids)[k]),
        forall|id: u128|
            ids.contains(id) && store.dom().contains(id) ==> present(store, ids).contains(
                #[trigger] store[id],
            ),
        forall|i: int, j: int|
            0 <= i < j < present(store, ids).len() ==> first_index(
                ids,
                (#[trigger] present(store, ids)[i]).id,
            ) < first_index(ids, (#[trigger] present(store, ids)[j]).id),
    decreases ids.len(),
{
    let out = present(store, ids);
    if ids.len() > 0 {
        let prefix = ids.drop_last();
        let front = present(store, prefix);
        let last = ids.last();
        lemma_present(store, prefix);
        assert(out =~= match store.get(last) {
            Some(item) => front + seq![item],
            None => front,
        });
        assert forall|k: int| 0 <= k < front.len() implies ids.contains((#[trigger] front[k]).id)
            && first_index(ids, front[k].id) < prefix.len() by {
            let id = front[k].id;
            assert(prefix.contains(id));
            let p = choose|p: int| 0 <= p < prefix.len() && prefix[p] == id;
            assert(ids[p] == id);
            lemma_first_index_bounds(prefix, id);
            let n = first_index(prefix, id);
            if n == prefix.len() {
                assert(prefix[p] != id);
            }
            assert forall|q: int| 0 <= q < n implies ids[q] != id by {
                assert(prefix[q] != id);
            }
            assert(ids[n] == prefix[n]);
            lemma_first_index_is(ids, id, n);
        }
        assert forall|q: int| 0 <= q < prefix.len() implies ids[q] != last by {
            assert(ids[q] != ids[ids.len() - 1]);
        }
        lemma_first_index_is(ids, last, ids.len() - 1);
        assert forall|k: int| 0 <= k < out.len() implies ids.contains((#[trigger] out[k]).id)
            && store.get(out[k].id) == Some(out[k]) by {
            if k < front.len() {
                assert(out[k] == front[k]);
            } else {
                assert(out[k] == store[last]);
                assert(ids[ids.len() - 1] == last);
            }
        }
        assert forall|id: u128| ids.contains(id) && store.dom().contains(id) implies out.contains(
            #[trigger] store[id],
        ) by {
            let p = choose|p: int| 0 <= p < ids.len() && ids[p] == id;
            if p < prefix.len() {
                assert(prefix[p] == id);
                assert(prefix.contains(id));
                assert(front.contains(store[id]));
                let k = choose|k: int| 0 <= k < front.len() && front[k] == store[id];
                assert(out[k] == store[id]);
            } else {
                assert(out[out.len() - 1] == store[id]);
            }
        }
        assert forall|i: int, j: int| 0 <= i < j < out.len() implies first_index(
            ids,
            (#[trigger] out[i]).id,
        ) < first_index(ids, (#[trigger] out[j]).id) by {
            assert(out[i] == front[i]);
            if j < front.len() {
                assert(out[j] == front[j]);
                let a = front[i].id;
                let b = front[j].id;
                lemma_first_index_bounds(prefix, a);
                lemma_first_index_bounds(prefix, b);
                lemma_same_first_index(ids, a);
                lemma_same_first_index(ids, b);
            } else {
                assert(out[j] == store[last]);
            }
        }
    }
}

/// A value that stands before the end of a sequence is first met at the
/// same place once the end is left off.
proof fn lemma_same_first_index(ids: Seq<u128>, id: u128)
    requires
        ids.len() > 0,
        ids.drop_last().contains(id),
    ensures
        first_index(ids, id) == first_index(ids.drop_last(), id),
{
    let prefix = ids.drop_last();
    lemma_first_index_bounds(prefix, id);
    let n = first_index(prefix, id);
    let p = choose|p: int| 0 <= p < prefix.len() && prefix[p] == id;
    if n == prefix.len() {
        assert(prefix[p] != id);
    }
    assert forall|q: int| 0 <= q < n implies ids[q] != id by {
        assert(prefix[q] != id);
    }
    assert(ids[n] == prefix[n]);
    lemma_first_index_is(ids, id, n);
}

/// The items that the hits belong to, hit by hit. One hit that names no
/// item makes the whole answer a fault of the engine.
pub fn decode_hits(hits: &Vec<String>) -> (r: Result<Vec<u128>, Fault>)
    ensures
        r is Ok <==> decodable(hits.deep_view()),
        r matches Ok(ids) ==> ids@ == decoded(hits.deep_view()),
        r matches Err(fault) ==> fault == Fault::EngineFault,
{
    let mut ids: Vec<u128> = Vec::new();
    let mut i: usize = 0;
    while i < hits.len()
        invariant
            i <= hits.len(),
            ids.len() == i,
            forall|j: int| 0 <= j < i ==> object_owner(#[trigger] hits.deep_view()[j]) == Some(ids@[j]),
        decreases hits.len() - i,
    {
        assert(hits.deep_view()[i as int] == hits@[i as int]@);
        match decode_object_id(hits[i].as_str()) {
            Ok(id) => {
                ids.push(id);
            },
            Err(fault) => {
                assert(object_owner(hits.deep_view()[i as int]) is None);
                return Err(fault);
            },
        }
        i = i + 1;
    }
    assert(ids@ =~= decoded(hits.deep_view()));
    Ok(ids)
}

/// Whether `id` is among `ids`.
fn holds(ids: &Vec<u128>, id: u128) -> (r: bool)
    ensures
        r == ids@.contains(id),
{
    let mut i: usize = 0;
    while i < ids.len()
        invariant
            i <= ids.len(),
            forall|j: int| 0 <= j < i ==> ids@[j] != id,
        decreases ids.len() - i,
    {
        if ids[i] == id {
            return true;
        }
        i = i + 1;
    }
    false
}

/// The identifiers of `ids` in their order, each only where it stands first.
pub fn dedup_first(ids: &Vec<u128>) -> (out: Vec<u128>)
    ensures
        out@ == first_occurrences(ids@),
{
    let mut out: Vec<u128> = Vec::new();
    let mut i: usize = 0;
    assert(ids@.take(0) =~= Seq::<u128>::empty());
    while i < ids.len()
        invariant
            i <= ids.len(),
            out@ == first_occurrences(ids@.take(i as int)),
        decreases ids.len() - i,
    {
        proof {
            let upto = ids@.take(i as int + 1);
            assert(upto.drop_last() =~= ids@.take(i as int));
            assert(upto.last() == ids@[i as int]);
        }
        if !holds(&out, ids[i]) {
            out.push(ids[i]);
        }
        i = i + 1;
    }
    assert(ids@.take(i as int) =~= ids@);
    out
}

/// The items that a ranked list of identifiers is answered with: each item
/// once, at the place of its best hit, and none that the store does not
/// hold.
pub fn hydrate(store: &ItemStore, ids: &Vec<u128>) -> (items: Vec<Item>)
    ensures
        items.deep_view() == ranked(store@, ids@),
{
    let firsts = dedup_first(ids);
    let mut items: Vec<Item> = Vec::new();
    let ghost lookup = |id: u128| store@.get(id);
    let mut i: usize = 0;
    assert(firsts@.take(0) =~= Seq::<u128>::empty());
    assert(items.deep_view() =~= Seq::<ItemView>::empty());
    while i < firsts.len()
        invariant
            i <= firsts.len(),
            lookup == (|id: u128| store@.get(id)),
            items.deep_view() == firsts@.take(i as int).filter_map(lookup),
        decreases firsts.len() - i,
    {
        let ghost before = items.deep_view();
        proof {
            firsts@.lemma_filter_map_take_succ(lookup, i as int);
        }
        match store.get(firsts[i]) {
            Some(item) => {
                let copy = item.duplicate();
                items.push(copy);
                assert(items.deep_view() =~= before + seq![item@]);
            },
            None => {},
        }
        i = i + 1;
    }
    assert(firsts@.take(i as int) =~= firsts@);
    items
}

/// The answer to a search: the items that the engine's hits belong to, in
/// the engine's order.
pub fn resolve_hits(store: &ItemStore, hits: &Vec<String>) -> (r: Result<Vec<Item>, Fault>)
    ensures
        r is Ok <==> decodable(hits.deep_view()),
        r matches Ok(items) ==> items.deep_view() == ranked(store@, decoded(hits.deep_view())),
        r matches Err(fault) ==> fault == Fault::EngineFault,
{
    match decode_hits(hits) {
        Ok(ids) => Ok(hydrate(store, &ids)),
        Err(fault) => Err(fault),
    }
}

} // verus!
