//! The catalog of items, keyed by identifier.
//!
//! The records are kept in ascending order of their identifiers, and an
//! identifier is looked up by bisection.

use vstd::prelude::*;
use crate::fault::Fault;
use crate::item::{Item, ItemView};

verus! {

/// No record comes before one with a smaller identifier, and no identifier
/// stands twice.
pub open spec fn ascending(s: Seq<ItemView>) -> bool {
    forall|i: int, j: int| 0 <= i < j < s.len() ==> s[i].id < s[j].id
}

/// Whether a record of `id` stands in `s`.
pub open spec fn listed(s: Seq<ItemView>, id: u128) -> bool {
    exists|i: int| 0 <= i < s.len() && (#[trigger] s[i]).id == id
}

/// A place of `s` at which a record of `id` stands.
pub open spec fn place_of(s: Seq<ItemView>, id: u128) -> int {
    choose|i: int| 0 <= i < s.len() && (#[trigger] s[i]).id == id
}

/// The records of `s`, each under its identifier.
pub open spec fn as_catalog(s: Seq<ItemView>) -> Map<u128, ItemView> {
    Map::new(|id: u128| listed(s, id), |id: u128| s[place_of(s, id)])
}

/// Every record stands under its own identifier.
pub open spec fn keyed(store: Map<u128, ItemView>) -> bool {
    forall|id: u128| store.dom().contains(id) ==> (#[trigger] store[id]).id == id
}

/// What a store holds after the records of `s` were put into an empty one,
/// one after the other: of two records with one identifier the later stays.
pub open spec fn loaded(s: Seq<ItemView>) -> Map<u128, ItemView>
    decreases s.len(),
{
    if s.len() == 0 {
        Map::empty()
    } else {
        loaded(s.drop_last()).insert(s.last().id, s.last())
    }
}

/// The records that were read, where all of them could be: `None` stands
/// for a record that could not be decoded.
pub open spec fn all_read(records: Seq<Option<Item>>) -> bool {
    forall|i: int| 0 <= i < records.len() ==> (#[trigger] records[i]) is Some
}

/// The records behind a sequence of readings that all succeeded.
pub open spec fn readings(records: Seq<Option<Item>>) -> Seq<ItemView> {
    Seq::new(records.len(), |i: int| records[i]->0@)
}

/// In records that ascend, a record is found at its own place, and the
/// catalog holds it under its identifier.
proof fn lemma_place(s: Seq<ItemView>, i: int)
    requires
        ascending(s),
        0 <= i < s.len(),
    ensures
        listed(s, s[i].id),
        place_of(s, s[i].id) == i,
        as_catalog(s).dom().contains(s[i].id),
        as_catalog(s)[s[i].id] == s[i],
{
    let id = s[i].id;
    assert(listed(s, id));
    let p = place_of(s, id);
    assert(0 <= p < s.len() && s[p].id == id);
    if p < i {
        assert(s[p].id < s[i].id);
    } else if i < p {
        assert(s[i].id < s[p].id);
    }
}

/// A record that is put between the smaller and the larger identifiers
/// keeps the order, and adds itself to the catalog.
proof fn lemma_insert(s: Seq<ItemView>, p: int, x: ItemView)
    requires
        ascending(s),
        0 <= p <= s.len(),
        forall|j: int| 0 <= j < p ==> s[j].id < x.id,
        forall|j: int| p <= j < s.len() ==> x.id < s[j].id,
    ensures
        ascending(s.insert(p, x)),
        as_catalog(s.insert(p, x)) == as_catalog(s).insert(x.id, x),
{
    let t = s.insert(p, x);
    assert(ascending(t));
    assert forall|id: u128| as_catalog(t).dom().contains(id) <==> as_catalog(s).insert(
        x.id,
        x,
    ).dom().contains(id) by {
        if listed(t, id) {
            let i = place_of(t, id);
            if i < p {
                assert(s[i].id == id);
            } else if i > p {
                assert(s[i - 1].id == id);
            }
        }
        if listed(s, id) {
            let i = place_of(s, id);
            if i < p {
                assert(t[i].id == id);
            } else {
                assert(t[i + 1].id == id);
            }
        }
        if id == x.id {
            assert(t[p].id == id);
        }
    }
    assert forall|id: u128| as_catalog(t).dom().contains(id) implies as_catalog(t)[id]
        == as_catalog(s).insert(x.id, x)[id] by {
        let i = place_of(t, id);
        lemma_place(t, i);
        if i < p {
            lemma_place(s, i);
        } else if i > p {
            lemma_place(s, i - 1);
        }
    }
    assert(as_catalog(t) =~= as_catalog(s).insert(x.id, x));
}

/// A record that is taken out leaves the order as it is, and the catalog
/// without its identifier.
proof fn lemma_remove(s: Seq<ItemView>, p: int)
    requires
        ascending(s),
        0 <= p < s.len(),
    ensures
        ascending(s.remove(p)),
        as_catalog(s.remove(p)) == as_catalog(s).remove(s[p].id),
{
    let t = s.remove(p);
    let gone = s[p].id;
    assert(ascending(t));
    assert forall|id: u128| as_catalog(t).dom().contains(id) <==> as_catalog(s).remove(
        gone,
    ).dom().contains(id) by {
        if listed(t, id) {
            let i = place_of(t, id);
            if i < p {
                assert(s[i].id == id);
                assert(s[i].id < s[p].id);
            } else {
                assert(s[i + 1].id == id);
                assert(s[p].id < s[i + 1].id);
            }
        }
        if listed(s, id) && id != gone {
            let i = place_of(s, id);
            if i < p {
                assert(t[i].id == id);
            } else {
                assert(t[i - 1].id == id);
            }
        }
    }
    assert forall|id: u128| as_catalog(t).dom().contains(id) implies as_catalog(t)[id]
        == as_catalog(s).remove(gone)[id] by {
        let i = place_of(t, id);
        lemma_place(t, i);
        if i < p {
            lemma_place(s, i);
        } else {
            lemma_place(s, i + 1);
        }
    }
    assert(as_catalog(t) =~= as_catalog(s).remove(gone));
}

/// An identifier that falls between two neighbours is not in the catalog.
proof fn lemma_absent(s: Seq<ItemView>, p: int, id: u128)
    requires
        ascending(s),
        0 <= p <= s.len(),
        forall|j: int| 0 <= j < p ==> s[j].id < id,
        forall|j: int| p <= j < s.len() ==> id < s[j].id,
    ensures
        !as_catalog(s).dom().contains(id),
{
    if listed(s, id) {
        let i = place_of(s, id);
        if i < p {
            assert(s[i].id < id);
        } else {
            assert(id < s[i].id);
        }
    }
}

/// Records that ascend are as many as the identifiers of their catalog.
proof fn lemma_catalog_size(s: Seq<ItemView>)
    requires
        ascending(s),
    ensures
        as_catalog(s).dom().finite(),
        as_catalog(s).dom().len() == s.len(),
    decreases s.len(),
{
    if s.len() == 0 {
        assert(as_catalog(s).dom() =~= Set::<u128>::empty());
    } else {
        let front = s.drop_last();
        let last = s.last();
        assert(ascending(front));
        lemma_catalog_size(front);
        assert forall|j: int| 0 <= j < front.len() implies front[j].id < last.id by {
            assert(front[j] == s[j]);
        }
        lemma_absent(front, front.len() as int, last.id);
        lemma_insert(front, front.len() as int, last);
        assert(front.insert(front.len() as int, last) =~= s);
        assert(as_catalog(s).dom() =~= as_catalog(front).dom().insert(last.id));
    }
}

/// The catalog: at most one record for an identifier.
pub struct ItemStore {
    items: Vec<Item>,
}

impl View for ItemStore {
    type V = Map<u128, ItemView>;

    closed spec fn view(&self) -> Map<u128, ItemView> {
        as_catalog(self.items.deep_view())
    }
}

impl ItemStore {
    /// The records ascend, at every moment.
    #[verifier::type_invariant]
    spec fn in_order(&self) -> bool {
        ascending(self.items.deep_view())
    }

    /// The records in the order in which a scan meets them.
    pub closed spec fn records(&self) -> Seq<ItemView> {
        self.items.deep_view()
    }

    /// A store without records.
    pub fn new() -> (store: ItemStore)
        ensures
            store@ == Map::<u128, ItemView>::empty(),
            store.records() == Seq::<ItemView>::empty(),
    {
        let store = ItemStore { items: Vec::new() };
        assert(store@ =~= Map::<u128, ItemView>::empty());
        assert(store.records() =~= Seq::<ItemView>::empty());
        store
    }

    /// Every record of a store stands under its own identifier.
    pub proof fn lemma_keyed(&self)
        ensures
            keyed(self@),
    {
        let s = self.items.deep_view();
        assert forall|id: u128| self@.dom().contains(id) implies (#[trigger] self@[id]).id == id by {
            assert(listed(s, id));
        }
    }

    /// The first place whose record has an identifier not below `id`, and
    /// whether that record is the one of `id`.
    fn locate(&self, id: u128) -> (r: (usize, bool))
        ensures
            r.0 <= self.items.len(),
            forall|j: int| 0 <= j < r.0 ==> self.items.deep_view()[j].id < id,
            forall|j: int| r.0 <= j < self.items.len() ==> id <= self.items.deep_view()[j].id,
            r.1 == (r.0 < self.items.len() && self.items.deep_view()[r.0 as int].id == id),
    {
        proof {
            use_type_invariant(self);
        }
        let mut low: usize = 0;
        let mut high: usize = self.items.len();
        while low < high
            invariant
                low <= high <= self.items.len(),
                ascending(self.items.deep_view()),
                forall|j: int| 0 <= j < low ==> self.items.deep_view()[j].id < id,
                forall|j: int| high <= j < self.items.len() ==> id <= self.items.deep_view()[j].id,
            decreases high - low,
        {
            let mid = low + (high - low) / 2;
            assert(self.items.deep_view()[mid as int].id == self.items[mid as int].id);
            if self.items[mid].id < id {
                low = mid + 1;
            } else {
                high = mid;
            }
        }
        let found = low < self.items.len() && self.items[low].id == id;
        (low, found)
    }

    /// How many records the store holds.
    pub fn len(&self) -> (n: usize)
        ensures
            n == self.records().len(),
            self@.dom().finite(),
            n == self@.dom().len(),
    {
        proof {
            use_type_invariant(self);
            lemma_catalog_size(self.items.deep_view());
        }
        self.items.len()
    }

    /// Whether the store holds a record of `id`.
    pub fn contains(&self, id: u128) -> (r: bool)
        ensures
            r == self@.dom().contains(id),
    {
        self.get(id).is_some()
    }

    /// The record of `id`, if the store holds one. That it holds none is no
    /// fault.
    pub fn get(&self, id: u128) -> (r: Option<&Item>)
        ensures
            match r {
                Some(item) => self@.dom().contains(id) && self@[id] == item@,
                None => !self@.dom().contains(id),
            },
    {
        proof {
            use_type_invariant(self);
        }
        let (at, found) = self.locate(id);
        if found {
            proof {
                lemma_place(self.items.deep_view(), at as int);
            }
            Some(&self.items[at])
        } else {
            proof {
                lemma_absent(self.items.deep_view(), at as int, id);
            }
            None
        }
    }

    /// Stores `item` under its identifier, in place of the record that was
    /// there.
    pub fn put(&mut self, item: Item)
        ensures
            final(self)@ == old(self)@.insert(item.id, item@),
    {
        proof {
            use_type_invariant(&*self);
        }
        let (at, found) = self.locate(item.id);
        let ghost before = self.items.deep_view();
        let mut items: Vec<Item> = Vec::new();
        std::mem::swap(&mut items, &mut self.items);
        if found {
            items.remove(at);
            proof {
                assert(items.deep_view() =~= before.remove(at as int));
                lemma_remove(before, at as int);
            }
        }
        let ghost middle = items.deep_view();
        let ghost added = item@;
        items.insert(at, item);
        proof {
            assert(items.deep_view() =~= middle.insert(at as int, added));
            lemma_insert(middle, at as int, added);
            assert(as_catalog(before).remove(added.id).insert(added.id, added) =~= as_catalog(
                before,
            ).insert(added.id, added));
        }
        self.items = items;
    }

    /// Takes the record of `id` out of the store. Where there is none, the
    /// store stays as it is.
    pub fn delete(&mut self, id: u128)
        ensures
            final(self)@ == old(self)@.remove(id),
    {
        proof {
            use_type_invariant(&*self);
        }
        let (at, found) = self.locate(id);
        let ghost before = self.items.deep_view();
        if found {
            let mut items: Vec<Item> = Vec::new();
            std::mem::swap(&mut items, &mut self.items);
            items.remove(at);
            proof {
                assert(items.deep_view() =~= before.remove(at as int));
                lemma_remove(before, at as int);
            }
            self.items = items;
        } else {
            proof {
                lemma_absent(before, at as int, id);
                assert(as_catalog(before).remove(id) =~= as_catalog(before));
            }
        }
    }

    /// All records, in ascending order of their identifiers.
    pub fn scan_all(&self) -> (all: Vec<Item>)
        ensures
            all.deep_view() == self.records(),
            ascending(self.records()),
            self@ == as_catalog(self.records()),
    {
        proof {
            use_type_invariant(self);
        }
        let mut all: Vec<Item> = Vec::new();
        let mut i: usize = 0;
        while i < self.items.len()
            invariant
                i <= self.items.len(),
                all.len() == i,
                forall|j: int| 0 <= j < i ==> all@[j]@ == self.items@[j]@,
            decreases self.items.len() - i,
        {
            all.push(self.items[i].duplicate());
            i = i + 1;
        }
        assert(all.deep_view() =~= self.items.deep_view());
        all
    }

    /// The store that holds what was read from where the records are kept,
    /// in the order of reading. One record that could not be decoded makes
    /// the whole reading a fault of the store.
    pub fn from_records(records: Vec<Option<Item>>) -> (r: Result<ItemStore, Fault>)
        ensures
            r is Ok <==> all_read(records@),
            r matches Ok(store) ==> store@ == loaded(readings(records@)),
            r matches Err(fault) ==> fault == Fault::StoreFault,
    {
        let mut store = ItemStore::new();
        let ghost given = records@;
        let mut pending = records;
        let mut i: usize = 0;
        let n = pending.len();
        while i < n
            invariant
                i <= n,
                given == records@,
                n == given.len(),
                pending@.len() == n,
                forall|j: int| i <= j < n ==> pending@[j] == given[j],
                forall|j: int| 0 <= j < i ==> (#[trigger] given[j]) is Some,
                store@ == loaded(readings(given).take(i as int)),
            decreases n - i,
        {
            let mut slot: Option<Item> = None;
            std::mem::swap(&mut slot, &mut pending[i]);
            match slot {
                Some(item) => {
                    proof {
                        let s = readings(given).take(i as int + 1);
                        assert(s.drop_last() =~= readings(given).take(i as int));
                        assert(s.last() == item@);
                    }
                    store.put(item);
                },
                None => {
                    assert(given[i as int] is None);
                    return Err(Fault::StoreFault);
                },
            }
            i = i + 1;
        }
        assert(readings(given).take(n as int) =~= readings(given));
        Ok(store)
    }
}

} // verus!
