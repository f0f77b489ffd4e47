//! The data that flows through filters: values, the values that can serve as
//! keys, and what both look like as plain data.

pub mod array;
pub mod display;
pub mod equality;
pub mod hash;
pub mod object;
pub mod widening;

pub use self::array::Array;
pub use self::hash::HashItem;
pub use self::object::Object;

use self::array::lemma_item_decreases;
use self::object::lemma_entry_decreases;
use vstd::prelude::*;

verus! {

/// A value of the language.
#[derive(Debug)]
pub enum Value {
    /// A raised exception: its name and what is known about it.
    Exception(String, Object<HashableValue, Value>),
    Null,
    Boolean(bool),
    Number(i64),
    String(String),
    Array(Array<Value>),
    Object(Object<HashableValue, Value>),
    /// A function; what it does is not part of the value model.
    Function,
}

/// A value that can serve as the key of an object: any value that holds no
/// function in a key or an item.
#[derive(Debug)]
pub enum HashableValue {
    /// A raised exception: its name and what is known about it.
    Exception(String, Object<HashableValue, Value>),
    Null,
    Boolean(bool),
    Number(i64),
    String(String),
    Array(Array<HashableValue>),
    Object(Object<HashableValue, HashableValue>),
}

/// A value as plain data.
pub enum ValueView {
    Exception(Seq<char>, Seq<(HashableView, ValueView)>),
    Null,
    Boolean(bool),
    Number(i64),
    String(Seq<char>),
    Array(Seq<ValueView>),
    Object(Seq<(HashableView, ValueView)>),
    Function,
}

/// A hashable value as plain data.
pub enum HashableView {
    Exception(Seq<char>, Seq<(HashableView, ValueView)>),
    Null,
    Boolean(bool),
    Number(i64),
    String(Seq<char>),
    Array(Seq<HashableView>),
    Object(Seq<(HashableView, HashableView)>),
}

/// The plain-data form of a value.
pub open spec fn value_view(value: Value) -> ValueView
    decreases value,
    via value_view_decreases
{
    match value {
        Value::Exception(name, meta) => ValueView::Exception(
            name@,
            Seq::new(
                meta@.len(),
                |i: int|
                    if 0 <= i < meta@.len() {
                        (hashable_view(meta@[i].0), value_view(meta@[i].1))
                    } else {
                        (HashableView::Null, ValueView::Null)
                    },
            ),
        ),
        Value::Null => ValueView::Null,
        Value::Boolean(b) => ValueView::Boolean(b),
        Value::Number(n) => ValueView::Number(n),
        Value::String(s) => ValueView::String(s@),
        Value::Array(items) => ValueView::Array(
            Seq::new(
                items@.len(),
                |i: int|
                    if 0 <= i < items@.len() {
                        value_view(items@[i])
                    } else {
                        ValueView::Null
                    },
            ),
        ),
        Value::Object(entries) => ValueView::Object(
            Seq::new(
                entries@.len(),
                |i: int|
                    if 0 <= i < entries@.len() {
                        (hashable_view(entries@[i].0), value_view(entries@[i].1))
                    } else {
                        (HashableView::Null, ValueView::Null)
                    },
            ),
        ),
        Value::Function => ValueView::Function,
    }
}

/// The plain-data form of a hashable value.
pub open spec fn hashable_view(value: HashableValue) -> HashableView
    decreases value,
    via hashable_view_decreases
{
    match value {
        HashableValue::Exception(name, meta) => HashableView::Exception(
            name@,
            Seq::new(
                meta@.len(),
                |i: int|
                    if 0 <= i < meta@.len() {
                        (hashable_view(meta@[i].0), value_view(meta@[i].1))
                    } else {
                        (HashableView::Null, ValueView::Null)
                    },
            ),
        ),
        HashableValue::Null => HashableView::Null,
        HashableValue::Boolean(b) => HashableView::Boolean(b),
        HashableValue::Number(n) => HashableView::Number(n),
        HashableValue::String(s) => HashableView::String(s@),
        HashableValue::Array(items) => HashableView::Array(
            Seq::new(
                items@.len(),
                |i: int|
                    if 0 <= i < items@.len() {
                        hashable_view(items@[i])
                    } else {
                        HashableView::Null
                    },
            ),
        ),
        HashableValue::Object(entries) => HashableView::Object(
            Seq::new(
                entries@.len(),
                |i: int|
                    if 0 <= i < entries@.len() {
                        (hashable_view(entries@[i].0), hashable_view(entries@[i].1))
                    } else {
                        (HashableView::Null, HashableView::Null)
                    },
            ),
        ),
    }
}

#[via_fn]
proof fn value_view_decreases(value: Value) {
    match value {
        Value::Exception(name, meta) => {
            assert forall|i: int| 0 <= i < meta@.len() implies decreases_to!(value => meta@[i].0) && decreases_to!(value => meta@[i].1) by {
                lemma_entry_decreases(meta, i);
            }
        },
        Value::Array(items) => {
            assert forall|i: int| 0 <= i < items@.len() implies decreases_to!(value => items@[i]) by {
                lemma_item_decreases(items, i);
            }
        },
        Value::Object(entries) => {
            assert forall|i: int| 0 <= i < entries@.len() implies decreases_to!(value => entries@[i].0) && decreases_to!(value => entries@[i].1) by {
                lemma_entry_decreases(entries, i);
            }
        },
        _ => {},
    }
}

#[via_fn]
proof fn hashable_view_decreases(value: HashableValue) {
    match value {
        HashableValue::Exception(name, meta) => {
            assert forall|i: int| 0 <= i < meta@.len() implies decreases_to!(value => meta@[i].0) && decreases_to!(value => meta@[i].1) by {
                lemma_entry_decreases(meta, i);
            }
        },
        HashableValue::Array(items) => {
            assert forall|i: int| 0 <= i < items@.len() implies decreases_to!(value => items@[i]) by {
                lemma_item_decreases(items, i);
            }
        },
        HashableValue::Object(entries) => {
            assert forall|i: int| 0 <= i < entries@.len() implies decreases_to!(value => entries@[i].0) && decreases_to!(value => entries@[i].1) by {
                lemma_entry_decreases(entries, i);
            }
        },
        _ => {},
    }
}

impl View for Value {
    type V = ValueView;

    open spec fn view(&self) -> ValueView {
        value_view(*self)
    }
}

impl View for HashableValue {
    type V = HashableView;

    open spec fn view(&self) -> HashableView {
        hashable_view(*self)
    }
}


/// The views of a list of values, one by one.
pub open spec fn value_items(items: Seq<Value>) -> Seq<ValueView> {
    Seq::new(items.len(), |i: int| items[i]@)
}

/// The views of a list of hashable values, one by one.
pub open spec fn hashable_items(items: Seq<HashableValue>) -> Seq<HashableView> {
    Seq::new(items.len(), |i: int| items[i]@)
}

/// The entries with the view of each key and, for each value, what `of_value`
/// makes of it.
pub open spec fn keyed_views<V, W>(entries: Seq<(HashableValue, V)>, of_value: spec_fn(V) -> W) -> Seq<
    (HashableView, W),
> {
    Seq::new(entries.len(), |i: int| (entries[i].0@, of_value(entries[i].1)))
}

/// Taking the view of a value, as a function.
pub open spec fn view_of_value() -> spec_fn(Value) -> ValueView {
    |value: Value| value@
}

/// Taking the view of a hashable value, as a function.
pub open spec fn view_of_hashable() -> spec_fn(HashableValue) -> HashableView {
    |value: HashableValue| value@
}

/// The views of a list of entries whose values are values.
pub open spec fn value_entries(entries: Seq<(HashableValue, Value)>) -> Seq<(HashableView, ValueView)> {
    keyed_views(entries, view_of_value())
}

/// The views of a list of entries whose values are hashable values.
pub open spec fn hashable_entries(entries: Seq<(HashableValue, HashableValue)>) -> Seq<
    (HashableView, HashableView),
> {
    keyed_views(entries, view_of_hashable())
}

/// The view of a value, with the views of what it holds written as lists.
pub proof fn lemma_value_view(value: Value)
    ensures
        value matches Value::Exception(name, meta) ==> value@ == ValueView::Exception(name@, value_entries(meta@)),
        value matches Value::Array(items) ==> value@ == ValueView::Array(value_items(items@)),
        value matches Value::Object(entries) ==> value@ == ValueView::Object(value_entries(entries@)),
{
    match value {
        Value::Exception(name, meta) => {
            assert(value@->Exception_1 =~= value_entries(meta@));
        },
        Value::Array(items) => {
            assert(value@->Array_0 =~= value_items(items@));
        },
        Value::Object(entries) => {
            assert(value@->Object_0 =~= value_entries(entries@));
        },
        _ => {},
    }
}

/// The view of a hashable value, with the views of what it holds written as
/// lists.
pub proof fn lemma_hashable_view(value: HashableValue)
    ensures
        value matches HashableValue::Exception(name, meta) ==> value@ == HashableView::Exception(
            name@,
            value_entries(meta@),
        ),
        value matches HashableValue::Array(items) ==> value@ == HashableView::Array(hashable_items(items@)),
        value matches HashableValue::Object(entries) ==> value@ == HashableView::Object(hashable_entries(entries@)),
{
    match value {
        HashableValue::Exception(name, meta) => {
            assert(value@->Exception_1 =~= value_entries(meta@));
        },
        HashableValue::Array(items) => {
            assert(value@->Array_0 =~= hashable_items(items@));
        },
        HashableValue::Object(entries) => {
            assert(value@->Object_0 =~= hashable_entries(entries@));
        },
        _ => {},
    }
}


/// A copy of `value` that shares nothing with it.
fn copy_value(value: &Value) -> (copy: Value)
    ensures
        copy@ == value@,
    decreases value,
{
    proof {
        lemma_value_view(*value);
    }
    let copy = match value {
        Value::Exception(name, meta) => Value::Exception(name.clone(), copy_value_entries(meta)),
        Value::Null => Value::Null,
        Value::Boolean(b) => Value::Boolean(*b),
        Value::Number(n) => Value::Number(*n),
        Value::String(s) => Value::String(s.clone()),
        Value::Array(items) => {
            let mut copies: Vec<Value> = Vec::new();
            let mut i: usize = 0;
            while i < items.len()
                invariant
                    i <= items@.len(),
                    value == Value::Array(*items),
                    value_items(copies@) == value_items(items@).take(i as int),
                decreases items@.len() - i,
            {
                proof {
                    lemma_item_decreases(*items, i as int);
                    assert(decreases_to!(value => value->Array_0));
                }
                let item = items.get(i).unwrap();
                let ghost before = value_items(copies@);
                copies.push(copy_value(item));
                assert(value_items(copies@) =~= before.push(item@));
                i += 1;
            }
            assert(value_items(items@).take(i as int) =~= value_items(items@));
            Value::Array(Array::from(copies))
        },
        Value::Object(entries) => Value::Object(copy_value_entries(entries)),
        Value::Function => Value::Function,
    };
    proof {
        lemma_value_view(copy);
    }
    copy
}

/// A copy of an object, entry for entry.
fn copy_value_entries(entries: &Object<HashableValue, Value>) -> (copy: Object<HashableValue, Value>)
    ensures
        value_entries(copy@) == value_entries(entries@),
    decreases entries,
{
    let mut copies: Vec<(HashableValue, Value)> = Vec::new();
    let mut i: usize = 0;
    while i < entries.len()
        invariant
            i <= entries@.len(),
            value_entries(copies@) == value_entries(entries@).take(i as int),
        decreases entries@.len() - i,
    {
        proof {
            lemma_entry_decreases(*entries, i as int);
        }
        let (key, value) = entries.get_idx(i).unwrap();
        copies.push((copy_hashable(key), copy_value(value)));
        assert(value_entries(entries@).take(i as int + 1) =~= value_entries(entries@).take(i as int).push(
            (key@, value@),
        ));
        i += 1;
    }
    Object::with_entries(copies)
}

/// A copy of `value` that shares nothing with it.
fn copy_hashable(value: &HashableValue) -> (copy: HashableValue)
    ensures
        copy@ == value@,
    decreases value,
{
    proof {
        lemma_hashable_view(*value);
    }
    let copy = match value {
        HashableValue::Exception(name, meta) => HashableValue::Exception(name.clone(), copy_value_entries(meta)),
        HashableValue::Null => HashableValue::Null,
        HashableValue::Boolean(b) => HashableValue::Boolean(*b),
        HashableValue::Number(n) => HashableValue::Number(*n),
        HashableValue::String(s) => HashableValue::String(s.clone()),
        HashableValue::Array(items) => {
            let mut copies: Vec<HashableValue> = Vec::new();
            let mut i: usize = 0;
            while i < items.len()
                invariant
                    i <= items@.len(),
                    value == HashableValue::Array(*items),
                    hashable_items(copies@) == hashable_items(items@).take(i as int),
                decreases items@.len() - i,
            {
                proof {
                    lemma_item_decreases(*items, i as int);
                    assert(decreases_to!(value => value->Array_0));
                }
                let item = items.get(i).unwrap();
                copies.push(copy_hashable(item));
                assert(hashable_items(items@).take(i as int + 1) =~= hashable_items(items@).take(i as int).push(
                    item@,
                ));
                i += 1;
            }
            assert(hashable_items(items@).take(i as int) =~= hashable_items(items@));
            HashableValue::Array(Array::from(copies))
        },
        HashableValue::Object(entries) => {
            let mut copies: Vec<(HashableValue, HashableValue)> = Vec::new();
            let mut i: usize = 0;
            while i < entries.len()
                invariant
                    i <= entries@.len(),
                    value == HashableValue::Object(*entries),
                    hashable_entries(copies@) == hashable_entries(entries@).take(i as int),
                decreases entries@.len() - i,
            {
                proof {
                    lemma_entry_decreases(*entries, i as int);
                    assert(decreases_to!(value => value->Object_0));
                }
                let (key, held) = entries.get_idx(i).unwrap();
                copies.push((copy_hashable(key), copy_hashable(held)));
                assert(hashable_entries(entries@).take(i as int + 1) =~= hashable_entries(entries@).take(
                    i as int,
                ).push((key@, held@)));
                i += 1;
            }
            assert(hashable_entries(entries@).take(i as int) =~= hashable_entries(entries@));
            HashableValue::Object(Object::with_entries(copies))
        },
    };
    proof {
        lemma_hashable_view(copy);
    }
    copy
}

impl Clone for Value {
    /// A copy that shares nothing with the value it was made from.
    fn clone(&self) -> (copy: Value)
        ensures
            copy@ == self@,
    {
        copy_value(self)
    }
}

impl Clone for HashableValue {
    /// A copy that shares nothing with the value it was made from.
    fn clone(&self) -> (copy: HashableValue)
        ensures
            copy@ == self@,
    {
        copy_hashable(self)
    }
}

} // verus!
