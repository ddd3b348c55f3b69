//! What the gateway asks of the search engine, and a model of what the
//! engine then holds.
//!
//! The engine keeps objects, each in a collection and a bucket and under a
//! name. Text is pushed to an object; an object is flushed as a whole. The
//! engine has no way to change what an object holds but these two.

use vstd::prelude::*;
use vstd::string::*;

verus! {

/// One request to the engine that changes what it holds.
#[derive(Debug, Clone, PartialEq, Eq)]
pub enum EngineOp {
    /// Add `text` to what can be searched for under `object`, with the
    /// language it is written in where that is known.
    Push { collection: String, bucket: String, object: String, text: String, lang: Option<String> },
    /// Forget all that was pushed to `object`.
    Flush { collection: String, bucket: String, object: String },
}

/// Where an object of the engine is found.
pub struct ObjectKey {
    pub collection: Seq<char>,
    pub bucket: Seq<char>,
    pub object: Seq<char>,
}

/// A request to the engine, as contracts speak of it.
pub enum OpView {
    Push { key: ObjectKey, text: Seq<char>, lang: Option<Seq<char>> },
    Flush { key: ObjectKey },
}

impl View for EngineOp {
    type V = OpView;

    open spec fn view(&self) -> OpView {
        match self {
            EngineOp::Push { collection, bucket, object, text, lang } => OpView::Push {
                key: ObjectKey { collection: collection@, bucket: bucket@, object: object@ },
                text: text@,
                lang: lang.deep_view(),
            },
            EngineOp::Flush { collection, bucket, object } => OpView::Flush {
                key: ObjectKey { collection: collection@, bucket: bucket@, object: object@ },
            },
        }
    }
}

impl DeepView for EngineOp {
    type V = OpView;

    open spec fn deep_view(&self) -> OpView {
        self@
    }
}

impl OpView {
    /// The object that the request is about.
    pub open spec fn key(self) -> ObjectKey {
        match self {
            OpView::Push { key, .. } => key,
            OpView::Flush { key } => key,
        }
    }
}

/// The texts that the engine holds under `key`, in the order in which they
/// were pushed; none where it holds no such object.
pub open spec fn held(engine: Map<ObjectKey, Seq<Seq<char>>>, key: ObjectKey) -> Seq<Seq<char>> {
    if engine.dom().contains(key) {
        engine[key]
    } else {
        Seq::empty()
    }
}

/// What the engine holds after one request.
pub open spec fn apply(engine: Map<ObjectKey, Seq<Seq<char>>>, op: OpView) -> Map<
    ObjectKey,
    Seq<Seq<char>>,
> {
    match op {
        OpView::Push { key, text, .. } => engine.insert(key, held(engine, key).push(text)),
        OpView::Flush { key } => engine.remove(key),
    }
}

/// What the engine holds after a run of requests, the first one first.
pub open spec fn run(engine: Map<ObjectKey, Seq<Seq<char>>>, ops: Seq<OpView>) -> Map<
    ObjectKey,
    Seq<Seq<char>>,
>
    decreases ops.len(),
{
    if ops.len() == 0 {
        engine
    } else {
        apply(run(engine, ops.drop_last()), ops.last())
    }
}

/// Whether the engine, holding `engine`, can answer a query in `collection`
/// and `bucket` with `hits`: it names only objects that it holds there.
/// Which of them it names, and in what order, is the engine's own business.
pub open spec fn can_answer(
    engine: Map<ObjectKey, Seq<Seq<char>>>,
    collection: Seq<char>,
    bucket: Seq<char>,
    hits: Seq<Seq<char>>,
) -> bool {
    forall|i: int|
        0 <= i < hits.len() ==> engine.dom().contains(
            ObjectKey { collection, bucket, object: #[trigger] hits[i] },
        )
}

/// Two runs, one after the other, are one run.
pub proof fn lemma_run_concat(engine: Map<ObjectKey, Seq<Seq<char>>>, a: Seq<OpView>, b: Seq<OpView>)
    ensures
        run(engine, a + b) == run(run(engine, a), b),
    decreases b.len(),
{
    if b.len() == 0 {
        assert(a + b =~= a);
    } else {
        assert((a + b).drop_last() =~= a + b.drop_last());
        assert((a + b).last() == b.last());
        lemma_run_concat(engine, a, b.drop_last());
    }
}

/// A run leaves alone every object that none of its requests is about.
pub proof fn lemma_run_untouched(engine: Map<ObjectKey, Seq<Seq<char>>>, ops: Seq<OpView>, key: ObjectKey)
    requires
        forall|i: int| 0 <= i < ops.len() ==> (#[trigger] ops[i]).key() != key,
    ensures
        run(engine, ops).dom().contains(key) == engine.dom().contains(key),
        held(run(engine, ops), key) == held(engine, key),
    decreases ops.len(),
{
    if ops.len() > 0 {
        let front = ops.drop_last();
        assert forall|i: int| 0 <= i < front.len() implies (#[trigger] front[i]).key() != key by {
            assert(front[i] == ops[i]);
        }
        lemma_run_untouched(engine, front, key);
        assert(ops.last() == ops[ops.len() - 1]);
    }
}

/// Whether one of the requests is about the object `key`.
pub open spec fn touches(ops: Seq<OpView>, key: ObjectKey) -> bool {
    exists|i: int| 0 <= i < ops.len() && (#[trigger] ops[i]).key() == key
}

/// Whether all the requests are flushes.
pub open spec fn only_flushes(ops: Seq<OpView>) -> bool {
    forall|i: int| 0 <= i < ops.len() ==> (#[trigger] ops[i]) is Flush
}

/// Whether all the requests are pushes.
pub open spec fn only_pushes(ops: Seq<OpView>) -> bool {
    forall|i: int| 0 <= i < ops.len() ==> (#[trigger] ops[i]) is Push
}

/// After a run of flushes the engine holds no object that one of them was
/// about.
pub proof fn lemma_run_flushes(engine: Map<ObjectKey, Seq<Seq<char>>>, ops: Seq<OpView>, key: ObjectKey)
    requires
        only_flushes(ops),
        touches(ops, key),
    ensures
        !run(engine, ops).dom().contains(key),
        held(run(engine, ops), key) == Seq::<Seq<char>>::empty(),
    decreases ops.len(),
{
    let front = ops.drop_last();
    let last = ops.last();
    assert(last == ops[ops.len() - 1]);
    if last.key() != key {
        let i = choose|i: int| 0 <= i < ops.len() && (#[trigger] ops[i]).key() == key;
        assert(front[i] == ops[i]);
        assert forall|j: int| 0 <= j < front.len() implies (#[trigger] front[j]) is Flush by {
            assert(front[j] == ops[j]);
        }
        lemma_run_flushes(engine, front, key);
    }
}

/// After a run of pushes an object holds what it held, and then what the
/// run alone would have left under it.
pub proof fn lemma_run_pushes(engine: Map<ObjectKey, Seq<Seq<char>>>, ops: Seq<OpView>, key: ObjectKey)
    requires
        only_pushes(ops),
    ensures
        held(run(engine, ops), key) == held(engine, key) + held(run(Map::empty(), ops), key),
        run(engine, ops).dom().contains(key) == (engine.dom().contains(key) || touches(ops, key)),
        run(Map::empty(), ops).dom().contains(key) == touches(ops, key),
    decreases ops.len(),
{
    let none = Map::<ObjectKey, Seq<Seq<char>>>::empty();
    if ops.len() == 0 {
        assert(held(engine, key) + held(none, key) =~= held(engine, key));
    } else {
        let front = ops.drop_last();
        let last = ops.last();
        assert(last == ops[ops.len() - 1]);
        assert forall|j: int| 0 <= j < front.len() implies (#[trigger] front[j]) is Push by {
            assert(front[j] == ops[j]);
        }
        lemma_run_pushes(engine, front, key);
        if touches(front, key) {
            let i = choose|i: int| 0 <= i < front.len() && (#[trigger] front[i]).key() == key;
            assert(ops[i] == front[i]);
        }
        if touches(ops, key) && last.key() != key {
            let i = choose|i: int| 0 <= i < ops.len() && (#[trigger] ops[i]).key() == key;
            assert(front[i] == ops[i]);
        }
        if last.key() == key {
            let text = last->Push_text;
            assert(held(run(engine, ops), key) =~= held(run(engine, front), key).push(text));
            assert(held(run(none, ops), key) =~= held(run(none, front), key).push(text));
            assert(held(run(engine, ops), key) =~= held(engine, key) + held(run(none, ops), key));
        }
    }
}

/// A text that a run of pushes pushes to an object is held under it after
/// the run.
pub proof fn lemma_pushed_is_held(engine: Map<ObjectKey, Seq<Seq<char>>>, ops: Seq<OpView>, i: int)
    requires
        only_pushes(ops),
        0 <= i < ops.len(),
    ensures
        run(engine, ops).dom().contains(ops[i].key()),
        held(run(engine, ops), ops[i].key()).contains(ops[i]->Push_text),
    decreases ops.len(),
{
    let front = ops.drop_last();
    let last = ops.last();
    let key = ops[i].key();
    let text = ops[i]->Push_text;
    assert(last == ops[ops.len() - 1]);
    let before = held(run(engine, front), last.key());
    if i == ops.len() - 1 {
        assert(before.push(text)[before.len() as int] == text);
    } else {
        assert forall|j: int| 0 <= j < front.len() implies (#[trigger] front[j]) is Push by {
            assert(front[j] == ops[j]);
        }
        assert(front[i] == ops[i]);
        lemma_pushed_is_held(engine, front, i);
        if last.key() == key {
            let k = choose|k: int| 0 <= k < before.len() && before[k] == text;
            assert(before.push(last->Push_text)[k] == text);
        }
    }
}

/// The spelling of a language's code that the engine is given, where the
/// code names a language that is known; `None` where it names none.
pub uninterp spec fn language_of(code: Seq<char>) -> Option<Seq<char>>;

/// `sonic_channel::Lang::from_code`, the language handed back as its code
/// (`Lang::code`). The contract gives that code the name `language_of`:
/// the same locale always gives the same language, or none. Which locales
/// name a language it does not say.
#[verifier::external_body]
pub(crate) fn language_code(code: &str) -> (r: Option<String>)
    ensures
        r.deep_view() == language_of(code@),
{
    match sonic_channel::Lang::from_code(code) {
        Some(lang) => Some(lang.code().to_string()),
        None => None,
    }
}

} // verus!
