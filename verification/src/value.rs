//! The values that the library's functions read and build.

use vstd::prelude::*;

verus! {

/// A value of the language as the library sees it; a number is held as the
/// decimal text that stands for it.
#[derive(Debug, PartialEq)]
pub enum Value {
    Number(String),
    String(String),
    Boolean(bool),
    Null,
    List(Vec<Value>),
    Dict(Vec<Entry>),
    Function { name: String },
    NativeFunction { name: String },
    Class { name: String },
    Instance { class_name: String, fields: Vec<Entry> },
}

/// A dictionary entry.
#[derive(Debug, PartialEq)]
pub struct Entry {
    pub key: String,
    pub value: Value,
}

/// The mathematical model of a `Value`.
pub enum SpecValue {
    Number(Seq<char>),
    String(Seq<char>),
    Boolean(bool),
    Null,
    List(Seq<SpecValue>),
    Dict(Seq<(Seq<char>, SpecValue)>),
    Function(Seq<char>),
    NativeFunction(Seq<char>),
    Class(Seq<char>),
    Instance(Seq<char>, Seq<(Seq<char>, SpecValue)>),
}

/// The models of dictionary entries: each key's characters with the model
/// of its value.
pub open spec fn entries_view(es: Seq<Entry>) -> Seq<(Seq<char>, SpecValue)>
    decreases es,
{
    if es.len() == 0 {
        Seq::empty()
    } else {
        entries_view(es.subrange(0, es.len() - 1)).push((es[es.len() - 1].key@, model(es[es.len() - 1].value)))
    }
}

/// The model of a value.
pub open spec fn model(v: Value) -> SpecValue
    decreases v,
{
    match v {
        Value::Number(t) => SpecValue::Number(t@),
        Value::String(t) => SpecValue::String(t@),
        Value::Boolean(b) => SpecValue::Boolean(b),
        Value::Null => SpecValue::Null,
        Value::List(items) => SpecValue::List(
            Seq::new(items.len() as nat, |i: int| if 0 <= i < items.len() { model(items[i]) } else { SpecValue::Null }),
        ),
        Value::Dict(entries) => SpecValue::Dict(entries_view(entries@)),
        Value::Function { name } => SpecValue::Function(name@),
        Value::NativeFunction { name } => SpecValue::NativeFunction(name@),
        Value::Class { name } => SpecValue::Class(name@),
        Value::Instance { class_name, fields } => SpecValue::Instance(class_name@, entries_view(fields@)),
    }
}

/// The models of a list's items.
pub open spec fn items_view(items: Seq<Value>) -> Seq<SpecValue> {
    Seq::new(items.len(), |i: int| model(items[i]))
}

/// No key occurs twice in `entries`.
pub open spec fn distinct_keys(entries: Seq<(Seq<char>, SpecValue)>) -> bool {
    forall|i: int, j: int|
        0 <= i < entries.len() && 0 <= j < entries.len() && i != j ==> entries[i].0 != entries[j].0
}

/// Every dictionary in `v`, at any depth, has distinct keys, as the maps of
/// the language do.
pub open spec fn well_keyed(v: SpecValue) -> bool
    decreases v,
{
    match v {
        SpecValue::List(items) => forall|i: int| 0 <= i < items.len() ==> well_keyed(#[trigger] items[i]),
        SpecValue::Dict(entries) => {
            &&& distinct_keys(entries)
            &&& forall|i: int| 0 <= i < entries.len() ==> well_keyed(#[trigger] entries[i].1)
        },
        SpecValue::Instance(_, fields) => {
            &&& distinct_keys(fields)
            &&& forall|i: int| 0 <= i < fields.len() ==> well_keyed(#[trigger] fields[i].1)
        },
        _ => true,
    }
}

impl View for Value {
    type V = SpecValue;

    open spec fn view(&self) -> SpecValue {
        model(*self)
    }
}


/// The models of entries hold, in order, each entry's key and the model of
/// its value.
pub proof fn lemma_entries_view(es: Seq<Entry>)
    ensures
        entries_view(es).len() == es.len(),
        forall|i: int| 0 <= i < es.len() ==> #[trigger] entries_view(es)[i] == (es[i].key@, model(es[i].value)),
    decreases es.len(),
{
    if es.len() > 0 {
        let init = es.subrange(0, es.len() - 1);
        lemma_entries_view(init);
        assert forall|i: int| 0 <= i < es.len() implies #[trigger] entries_view(es)[i] == (es[i].key@, model(es[i].value)) by {
            if i < es.len() - 1 {
                assert(init[i] == es[i]);
            }
        }
    }
}

/// The model of a list is the list of its items' models.
pub proof fn lemma_list_view(items: Vec<Value>)
    ensures
        model(Value::List(items)) == SpecValue::List(items_view(items@)),
{
    assert(model(Value::List(items))->List_0 =~= items_view(items@));
}

/// The models of entries after one is replaced.
pub proof fn lemma_entries_view_update(es: Seq<Entry>, i: int, x: Entry)
    requires
        0 <= i < es.len(),
    ensures
        entries_view(es.update(i, x)) == entries_view(es).update(i, (x.key@, model(x.value))),
{
    lemma_entries_view(es);
    lemma_entries_view(es.update(i, x));
    assert(entries_view(es.update(i, x)) =~= entries_view(es).update(i, (x.key@, model(x.value))));
}

/// The models of entries after one is added.
pub proof fn lemma_entries_view_push(es: Seq<Entry>, x: Entry)
    ensures
        entries_view(es.push(x)) == entries_view(es).push((x.key@, model(x.value))),
{
    lemma_entries_view(es);
    lemma_entries_view(es.push(x));
    assert(entries_view(es.push(x)) =~= entries_view(es).push((x.key@, model(x.value))));
}

/// What `well_keyed` asks of a list, a dictionary and an instance.
proof fn lemma_well_keyed_unfold(x: Seq<SpecValue>, es: Seq<(Seq<char>, SpecValue)>, name: Seq<char>)
    ensures
        well_keyed(SpecValue::List(x)) == (forall|i: int| 0 <= i < x.len() ==> well_keyed(#[trigger] x[i])),
        well_keyed(SpecValue::Dict(es)) == (distinct_keys(es) && forall|i: int|
            0 <= i < es.len() ==> well_keyed(#[trigger] es[i].1)),
        well_keyed(SpecValue::Instance(name, es)) == (distinct_keys(es) && forall|i: int|
            0 <= i < es.len() ==> well_keyed(#[trigger] es[i].1)),
{
    reveal_with_fuel(well_keyed, 2);
    let l = SpecValue::List(x);
    if well_keyed(l) {
        assert forall|i: int| 0 <= i < x.len() implies well_keyed(#[trigger] x[i]) by {}
    }
    if forall|i: int| 0 <= i < x.len() ==> well_keyed(#[trigger] x[i]) {
        assert(well_keyed(l));
    }
}

/// Whether the values of `items` are all well-keyed.
fn items_well_keyed(items: &Vec<Value>) -> (r: bool)
    ensures
        r == (forall|i: int| 0 <= i < items@.len() ==> well_keyed(#[trigger] items_view(items@)[i])),
    decreases items,
{
    let n = items.len();
    for i in 0..n
        invariant
            n == items@.len(),
            forall|j: int| 0 <= j < i ==> well_keyed(#[trigger] items_view(items@)[j]),
    {
        if !is_well_keyed(&items[i]) {
            assert(items_view(items@)[i as int] == items@[i as int]@);
            return false;
        }
    }
    true
}

/// Whether the keys of `entries` are distinct and their values well-keyed.
fn entries_well_keyed(entries: &Vec<Entry>) -> (r: bool)
    ensures
        r == (distinct_keys(entries_view(entries@)) && forall|i: int|
            0 <= i < entries@.len() ==> well_keyed(#[trigger] entries_view(entries@)[i].1)),
    decreases entries,
{
    let ghost ev = entries_view(entries@);
    proof {
        lemma_entries_view(entries@);
    }
    let n = entries.len();
    for i in 0..n
        invariant
            n == entries@.len(),
            ev == entries_view(entries@),
            ev.len() == n,
            forall|j: int| 0 <= j < n ==> #[trigger] ev[j] == (entries@[j].key@, model(entries@[j].value)),
            forall|a: int, b: int| 0 <= a < i && 0 <= b < i && a != b ==> ev[a].0 != ev[b].0,
            forall|j: int| 0 <= j < i ==> well_keyed(#[trigger] ev[j].1),
    {
        if !is_well_keyed(&entries[i].value) {
            assert(ev[i as int].1 == entries@[i as int].value@);
            return false;
        }
        for j in 0..i
            invariant
                n == entries@.len(),
                i < n,
                ev == entries_view(entries@),
                ev.len() == n,
                forall|q: int| 0 <= q < n ==> #[trigger] ev[q] == (entries@[q].key@, model(entries@[q].value)),
                forall|q: int| 0 <= q < j ==> ev[q].0 != ev[i as int].0,
        {
            if entries[j].key == entries[i].key {
                assert(ev[j as int].0 == ev[i as int].0);
                assert(!distinct_keys(ev));
                return false;
            }
        }
    }
    true
}

/// Whether every dictionary in `v`, at any depth, has distinct keys.
pub fn is_well_keyed(v: &Value) -> (r: bool)
    ensures
        r == well_keyed(v@),
    decreases v,
{
    match v {
        Value::List(items) => {
            proof {
                lemma_list_view(*items);
            }
            assert(v@ == SpecValue::List(items_view(items@)));
            let ghost iv = items_view(items@);
            proof {
                lemma_well_keyed_unfold(iv, Seq::empty(), Seq::empty());
            }
            let all = items_well_keyed(items);
            assert(iv.len() == items@.len());
            assert(all == well_keyed(SpecValue::List(iv)));
            assert(all == well_keyed(v@));
            return all;
        },
        Value::Dict(entries) => {
            proof {
                lemma_well_keyed_unfold(Seq::empty(), entries_view(entries@), Seq::empty());
                lemma_entries_view(entries@);
            }
            assert(v@ == SpecValue::Dict(entries_view(entries@)));
            let res = entries_well_keyed(entries);
            assert(res == well_keyed(v@));
            return res;
        },
        Value::Instance { class_name, fields } => {
            proof {
                lemma_well_keyed_unfold(Seq::empty(), entries_view(fields@), class_name@);
                lemma_entries_view(fields@);
            }
            assert(v@ == SpecValue::Instance(class_name@, entries_view(fields@)));
            let res = entries_well_keyed(fields);
            assert(res == well_keyed(v@));
            return res;
        },
        _ => {
            assert(!(v@ is List) && !(v@ is Dict) && !(v@ is Instance));
            true
        },
    }
}

} // verus!
