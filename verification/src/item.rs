//! Items, and the forms in which requests name them.

use vstd::prelude::*;
use vstd::string::*;
use crate::fault::Fault;
use crate::scan::same_text;

verus! {

/// One entry of an item's payload: the name of a field, and its value as
/// compact JSON text. That text is what the engine is given to search.
#[derive(Debug, Clone, PartialEq, Eq)]
pub struct Field {
    pub name: String,
    pub value: String,
}

/// A field, as contracts speak of it.
pub struct FieldView {
    pub name: Seq<char>,
    pub value: Seq<char>,
}

impl View for Field {
    type V = FieldView;

    open spec fn view(&self) -> FieldView {
        FieldView { name: self.name@, value: self.value@ }
    }
}

impl DeepView for Field {
    type V = FieldView;

    open spec fn deep_view(&self) -> FieldView {
        self@
    }
}

/// The unit of storage and search.
///
/// `indexes` names the fields that are to be searchable. A name in it that
/// `data` does not hold is passed over. Where `data` holds a name twice, the
/// first entry counts.
#[derive(Debug, Clone, PartialEq, Eq)]
pub struct Item {
    pub id: u128,
    pub collection: String,
    pub bucket: String,
    pub data: Vec<Field>,
    pub indexes: Vec<String>,
    pub locale: Option<String>,
}

/// An item, as contracts speak of it.
pub struct ItemView {
    pub id: u128,
    pub collection: Seq<char>,
    pub bucket: Seq<char>,
    pub data: Seq<FieldView>,
    pub indexes: Seq<Seq<char>>,
    pub locale: Option<Seq<char>>,
}

impl View for Item {
    type V = ItemView;

    open spec fn view(&self) -> ItemView {
        ItemView {
            id: self.id,
            collection: self.collection@,
            bucket: self.bucket@,
            data: self.data.deep_view(),
            indexes: self.indexes.deep_view(),
            locale: self.locale.deep_view(),
        }
    }
}

impl DeepView for Item {
    type V = ItemView;

    open spec fn deep_view(&self) -> ItemView {
        self@
    }
}

/// The value of the first field called `name`, if there is one.
pub open spec fn value_in(data: Seq<FieldView>, name: Seq<char>) -> Option<Seq<char>>
    decreases data.len(),
{
    if data.len() == 0 {
        None
    } else if data[0].name == name {
        Some(data[0].value)
    } else {
        value_in(data.drop_first(), name)
    }
}

impl ItemView {
    /// Both parts of the namespace are there.
    pub open spec fn well_formed(self) -> bool {
        self.collection.len() > 0 && self.bucket.len() > 0
    }

    /// The value of the field `name`, if the payload holds it.
    pub open spec fn value_of(self, name: Seq<char>) -> Option<Seq<char>> {
        value_in(self.data, name)
    }
}

/// A field that `data` holds is found, with the value of its first entry.
pub proof fn lemma_value_in_skip(data: Seq<FieldView>, name: Seq<char>, k: int)
    requires
        0 <= k <= data.len(),
        forall|j: int| 0 <= j < k ==> data[j].name != name,
    ensures
        value_in(data, name) == value_in(data.skip(k), name),
    decreases k,
{
    if k == 0 {
        assert(data.skip(0) =~= data);
    } else {
        lemma_value_in_skip(data.drop_first(), name, k - 1);
        assert(data.drop_first().skip(k - 1) =~= data.skip(k));
    }
}

/// Strings that hold the same as those of `v`.
fn copy_strings(v: &Vec<String>) -> (r: Vec<String>)
    ensures
        r.deep_view() == v.deep_view(),
{
    let mut r: Vec<String> = Vec::new();
    let mut i: usize = 0;
    while i < v.len()
        invariant
            i <= v.len(),
            r.len() == i,
            forall|j: int| 0 <= j < i ==> r@[j]@ == v@[j]@,
        decreases v.len() - i,
    {
        r.push(v[i].clone());
        i = i + 1;
    }
    assert(r.deep_view() =~= v.deep_view());
    r
}

/// Fields that hold the same as those of `v`.
fn copy_fields(v: &Vec<Field>) -> (r: Vec<Field>)
    ensures
        r.deep_view() == v.deep_view(),
{
    let mut r: Vec<Field> = Vec::new();
    let mut i: usize = 0;
    while i < v.len()
        invariant
            i <= v.len(),
            r.len() == i,
            forall|j: int| 0 <= j < i ==> r@[j]@ == v@[j]@,
        decreases v.len() - i,
    {
        r.push(Field { name: v[i].name.clone(), value: v[i].value.clone() });
        i = i + 1;
    }
    assert(r.deep_view() =~= v.deep_view());
    r
}

impl Item {
    /// Whether both parts of the namespace are there.
    pub fn is_well_formed(&self) -> (r: bool)
        ensures
            r == self@.well_formed(),
    {
        !self.collection.as_str().is_empty() && !self.bucket.as_str().is_empty()
    }

    /// The value of the field `name`, if the payload holds it.
    pub fn value_of(&self, name: &str) -> (r: Option<&String>)
        ensures
            match r {
                Some(value) => self@.value_of(name@) == Some(value@),
                None => self@.value_of(name@) is None,
            },
    {
        let mut i: usize = 0;
        while i < self.data.len()
            invariant
                i <= self.data.len(),
                forall|j: int| 0 <= j < i ==> self@.data[j].name != name@,
            decreases self.data.len() - i,
        {
            if same_text(self.data[i].name.as_str(), name) {
                proof {
                    lemma_value_in_skip(self@.data, name@, i as int);
                    assert(self@.data.skip(i as int)[0] == self@.data[i as int]);
                }
                return Some(&self.data[i].value);
            }
            i = i + 1;
        }
        proof {
            lemma_value_in_skip(self@.data, name@, i as int);
        }
        None
    }

    /// An item that holds the same as this one.
    pub fn duplicate(&self) -> (r: Item)
        ensures
            r@ == self@,
    {
        let locale = match &self.locale {
            Some(code) => Some(code.clone()),
            None => None,
        };
        Item {
            id: self.id,
            collection: self.collection.clone(),
            bucket: self.bucket.clone(),
            data: copy_fields(&self.data),
            indexes: copy_strings(&self.indexes),
            locale,
        }
    }
}

/// A request to store items and make them searchable.
#[derive(Debug, Clone)]
pub struct IndexForm {
    pub items: Vec<Item>,
}

/// A request to take items out of the engine and out of the store.
#[derive(Debug, Clone)]
pub struct DeindexForm {
    pub ids: Vec<u128>,
}

/// A search: the terms, where to look, and two limits that stand each for
/// itself. Without `limit` the engine's own cap holds; without `offset` the
/// answer starts at the best hit.
#[derive(Debug, Clone)]
pub struct SearchForm {
    pub query: String,
    pub collection: String,
    pub bucket: String,
    pub limit: Option<usize>,
    pub offset: Option<usize>,
}

/// A request to complete the beginning of a word.
#[derive(Debug, Clone)]
pub struct SuggestForm {
    pub query: String,
    pub collection: String,
    pub bucket: String,
    pub limit: Option<usize>,
}

impl IndexForm {
    /// Whether every item of the form names its collection and its bucket.
    pub open spec fn acceptable(items: Seq<ItemView>) -> bool {
        forall|i: int| 0 <= i < items.len() ==> (#[trigger] items[i]).well_formed()
    }

    /// Refuses the form as a whole where one of its items lacks a part of
    /// its namespace.
    pub fn validate(&self) -> (r: Result<(), Fault>)
        ensures
            r is Ok <==> Self::acceptable(self.items.deep_view()),
            r matches Err(fault) ==> fault == Fault::BadRequest,
    {
        let mut i: usize = 0;
        while i < self.items.len()
            invariant
                i <= self.items.len(),
                forall|j: int| 0 <= j < i ==> (#[trigger] self.items.deep_view()[j]).well_formed(),
            decreases self.items.len() - i,
        {
            if !self.items[i].is_well_formed() {
                assert(!self.items.deep_view()[i as int].well_formed());
                return Err(Fault::BadRequest);
            }
            i = i + 1;
        }
        Ok(())
    }
}

} // verus!
