//! From hashable values to values: widening, and that it loses nothing.

use crate::lang::value::array::lemma_item_decreases;
use crate::lang::value::array::Array;
use crate::lang::value::display::lemma_shown_entries_step;
use crate::lang::value::display::lemma_shown_hashable_entries_step;
use crate::lang::value::display::lemma_shown_hashable_items_step;
use crate::lang::value::display::lemma_shown_items_step;
use crate::lang::value::display::shown;
use crate::lang::value::display::shown_entries;
use crate::lang::value::display::shown_hashable;
use crate::lang::value::display::shown_hashable_entries;
use crate::lang::value::display::shown_hashable_items;
use crate::lang::value::display::shown_items;
use crate::lang::value::equality::hashable_same;
use crate::lang::value::equality::keys_differ;
use crate::lang::value::hashable_entries;
use crate::lang::value::hashable_items;
use crate::lang::value::keyed_views;
use crate::lang::value::lemma_hashable_view;
use crate::lang::value::lemma_value_view;
use crate::lang::value::object::distinct_keys;
use crate::lang::value::object::equal_to;
use crate::lang::value::object::first_where;
use crate::lang::value::object::inserted;
use crate::lang::value::object::inserted_all;
use crate::lang::value::object::lemma_entry_decreases;
use crate::lang::value::object::lemma_first_where;
use crate::lang::value::object::lemma_first_where_is;
use crate::lang::value::object::Object;
use crate::lang::value::value_entries;
use crate::lang::value::value_items;
use crate::lang::value::view_of_value;
use crate::lang::value::HashableValue;
use crate::lang::value::HashableView;
use crate::lang::value::Value;
use crate::lang::value::ValueView;
use vstd::prelude::*;

verus! {

/// The keys that equal `key`, each asked as the left side of the comparison.
pub open spec fn key_equal_to(key: HashableView) -> spec_fn(HashableView) -> bool {
    |entry: HashableView| hashable_same(entry, key)
}

/// The entries after `value` has been entered under `key`: where an entry has
/// an equal key, it keeps its key and its place and gets the new value;
/// otherwise the new entry goes behind all others.
pub open spec fn entered<W>(entries: Seq<(HashableView, W)>, key: HashableView, value: W) -> Seq<
    (HashableView, W),
> {
    match first_where(entries, key_equal_to(key)) {
        Some(place) => entries.update(place, (entries[place].0, value)),
        None => entries.push((key, value)),
    }
}

/// The entries after the pairs of `pairs` have been entered one after another.
pub open spec fn entered_all<W>(start: Seq<(HashableView, W)>, pairs: Seq<(HashableView, W)>) -> Seq<
    (HashableView, W),
>
    decreases pairs.len(),
{
    if pairs.len() == 0 {
        start
    } else {
        entered(entered_all(start, pairs.drop_last()), pairs.last().0, pairs.last().1)
    }
}

/// Entering a pair into an object and taking views gives what entering the
/// pair's views into the object's views gives.
pub proof fn lemma_inserted_views<V, W>(
    entries: Seq<(HashableValue, V)>,
    key: HashableValue,
    value: V,
    of_value: spec_fn(V) -> W,
)
    ensures
        keyed_views(inserted(entries, key, value), of_value) == entered(
            keyed_views(entries, of_value),
            key@,
            of_value(value),
        ),
{
    let views = keyed_views(entries, of_value);
    lemma_first_where(entries, equal_to(key));
    lemma_first_where(views, key_equal_to(key@));
    match first_where(entries, equal_to(key)) {
        Some(place) => {
            lemma_first_where_is(views, key_equal_to(key@), place);
        },
        None => {},
    }
}

/// The same for a list of pairs entered one after another.
pub proof fn lemma_inserted_all_views<V, W>(
    start: Seq<(HashableValue, V)>,
    pairs: Seq<(HashableValue, V)>,
    of_value: spec_fn(V) -> W,
)
    ensures
        keyed_views(inserted_all(start, pairs), of_value) == entered_all(
            keyed_views(start, of_value),
            keyed_views(pairs, of_value),
        ),
    decreases pairs.len(),
{
    if pairs.len() > 0 {
        lemma_inserted_all_views(start, pairs.drop_last(), of_value);
        lemma_inserted_views(inserted_all(start, pairs.drop_last()), pairs.last().0, pairs.last().1, of_value);
        assert(keyed_views(pairs, of_value).drop_last() =~= keyed_views(pairs.drop_last(), of_value));
    }
}

/// The value that a hashable value widens to. Items of arrays and values of
/// objects are widened in their turn; the entries of an object, and what is
/// known about an exception, are entered one after another into a new object.
pub open spec fn widened(value: HashableView) -> ValueView
    decreases value,
{
    match value {
        HashableView::Exception(name, meta) => ValueView::Exception(
            name,
            entered_all(Seq::<(HashableView, ValueView)>::empty(), meta),
        ),
        HashableView::Null => ValueView::Null,
        HashableView::Boolean(b) => ValueView::Boolean(b),
        HashableView::Number(n) => ValueView::Number(n),
        HashableView::String(s) => ValueView::String(s),
        HashableView::Array(items) => ValueView::Array(widened_items(items)),
        HashableView::Object(entries) => ValueView::Object(
            entered_all(Seq::<(HashableView, ValueView)>::empty(), widened_entries(entries)),
        ),
    }
}

/// The items with every one widened.
pub open spec fn widened_items(items: Seq<HashableView>) -> Seq<ValueView>
    decreases items,
{
    Seq::new(
        items.len(),
        |i: int|
            if 0 <= i < items.len() {
                widened(items[i])
            } else {
                ValueView::Null
            },
    )
}

/// The entries with every value widened.
pub open spec fn widened_entries(entries: Seq<(HashableView, HashableView)>) -> Seq<(HashableView, ValueView)>
    decreases entries,
{
    Seq::new(
        entries.len(),
        |i: int|
            if 0 <= i < entries.len() {
                (entries[i].0, widened(entries[i].1))
            } else {
                (HashableView::Null, ValueView::Null)
            },
    )
}

/// Widens a hashable value.
fn widen(value: &HashableValue) -> (wide: Value)
    ensures
        wide@ == widened(value@),
    decreases value,
{
    proof {
        lemma_hashable_view(*value);
    }
    let wide = match value {
        HashableValue::Exception(name, meta) => {
            let mut pairs: Vec<(HashableValue, Value)> = Vec::new();
            let mut i: usize = 0;
            while i < meta.len()
                invariant
                    i <= meta@.len(),
                    value_entries(pairs@) == value_entries(meta@).take(i as int),
                decreases meta@.len() - i,
            {
                let (key, held) = meta.get_idx(i).unwrap();
                pairs.push((key.clone(), held.clone()));
                assert(value_entries(meta@).take(i as int + 1) =~= value_entries(meta@).take(i as int).push(
                    (key@, held@),
                ));
                i += 1;
            }
            assert(value_entries(meta@).take(i as int) =~= value_entries(meta@));
            proof {
                lemma_inserted_all_views(Seq::<(HashableValue, Value)>::empty(), pairs@, view_of_value());
                assert(keyed_views(Seq::<(HashableValue, Value)>::empty(), view_of_value()) =~= Seq::<
                    (HashableView, ValueView),
                >::empty());
            }
            let object = Object::from_pairs(pairs);
            let wide = Value::Exception(name.clone(), object);
            proof {
                lemma_value_view(wide);
            }
            wide
        },
        HashableValue::Null => Value::Null,
        HashableValue::Boolean(b) => Value::Boolean(*b),
        HashableValue::Number(n) => Value::Number(*n),
        HashableValue::String(s) => Value::String(s.clone()),
        HashableValue::Array(items) => {
            let ghost narrow = hashable_items(items@);
            let mut wide_items: Vec<Value> = Vec::new();
            let mut i: usize = 0;
            while i < items.len()
                invariant
                    i <= items@.len(),
                    value == HashableValue::Array(*items),
                    narrow == hashable_items(items@),
                    wide_items@.len() == i,
                    forall|j: int| 0 <= j < i ==> (#[trigger] wide_items@[j])@ == widened(narrow[j]),
                decreases items@.len() - i,
            {
                proof {
                    lemma_item_decreases(*items, i as int);
                    assert(decreases_to!(value => value->Array_0));
                }
                let item = items.get(i).unwrap();
                wide_items.push(widen(item));
                i += 1;
            }
            assert(value_items(wide_items@) =~= widened_items(narrow));
            let wide = Value::Array(Array::from(wide_items));
            proof {
                lemma_value_view(wide);
            }
            wide
        },
        HashableValue::Object(entries) => {
            let ghost narrow = hashable_entries(entries@);
            let mut pairs: Vec<(HashableValue, Value)> = Vec::new();
            let mut i: usize = 0;
            while i < entries.len()
                invariant
                    i <= entries@.len(),
                    value == HashableValue::Object(*entries),
                    narrow == hashable_entries(entries@),
                    pairs@.len() == i,
                    forall|j: int|
                        0 <= j < i ==> (#[trigger] pairs@[j]).0@ == narrow[j].0 && pairs@[j].1@ == widened(
                            narrow[j].1,
                        ),
                decreases entries@.len() - i,
            {
                proof {
                    lemma_entry_decreases(*entries, i as int);
                    assert(decreases_to!(value => value->Object_0));
                }
                let (key, held) = entries.get_idx(i).unwrap();
                pairs.push((key.clone(), widen(held)));
                i += 1;
            }
            proof {
                lemma_inserted_all_views(Seq::<(HashableValue, Value)>::empty(), pairs@, view_of_value());
                assert(keyed_views(Seq::<(HashableValue, Value)>::empty(), view_of_value()) =~= Seq::<
                    (HashableView, ValueView),
                >::empty());
                assert(value_entries(pairs@) =~= widened_entries(narrow));
            }
            let object = Object::from_pairs(pairs);
            let wide = Value::Object(object);
            proof {
                lemma_value_view(wide);
            }
            wide
        },
    };
    proof {
        lemma_value_view(wide);
    }
    wide
}

impl From<HashableValue> for Value {
    /// The value that `v` widens to.
    fn from(v: HashableValue) -> (wide: Value)
        ensures
            wide@ == widened(v@),
    {
        widen(&v)
    }
}

/// What `from` gives is said by its own contract, on the level of views.
impl vstd::std_specs::convert::FromSpecImpl<HashableValue> for Value {
    open spec fn obeys_from_spec() -> bool {
        false
    }

    open spec fn from_spec(v: HashableValue) -> Value {
        arbitrary()
    }
}

impl<'a> From<&'a HashableValue> for Value {
    /// The value that `v` widens to.
    fn from(v: &'a HashableValue) -> (wide: Value)
        ensures
            wide@ == widened(v@),
    {
        widen(v)
    }
}

/// What `from` gives is said by its own contract, on the level of views.
impl<'a> vstd::std_specs::convert::FromSpecImpl<&'a HashableValue> for Value {
    open spec fn obeys_from_spec() -> bool {
        false
    }

    open spec fn from_spec(v: &'a HashableValue) -> Value {
        arbitrary()
    }
}

/// Whether every object that the value is built from, and what is known about
/// an exception, has keys that differ from one another. Every value that is
/// built by entering pairs into objects is of this kind.
pub open spec fn hashable_well_formed(value: HashableView) -> bool
    decreases value,
{
    match value {
        HashableView::Exception(_, meta) => keys_differ(meta),
        HashableView::Array(items) => forall|i: int| 0 <= i < items.len() ==> hashable_well_formed(#[trigger] items[i]),
        HashableView::Object(entries) => {
            &&& keys_differ(entries)
            &&& forall|i: int| 0 <= i < entries.len() ==> hashable_well_formed((#[trigger] entries[i]).1)
        },
        _ => true,
    }
}

/// The hashable value that a value narrows to: the same content, if the value
/// holds no function in an item of an array or a value of an object.
pub open spec fn narrowed(value: ValueView) -> Option<HashableView>
    decreases value,
{
    match value {
        ValueView::Exception(name, meta) => Some(HashableView::Exception(name, meta)),
        ValueView::Null => Some(HashableView::Null),
        ValueView::Boolean(b) => Some(HashableView::Boolean(b)),
        ValueView::Number(n) => Some(HashableView::Number(n)),
        ValueView::String(s) => Some(HashableView::String(s)),
        ValueView::Array(items) => if forall|i: int| 0 <= i < items.len() ==> narrowed(#[trigger] items[i]) is Some {
            Some(
                HashableView::Array(
                    Seq::new(
                        items.len(),
                        |i: int|
                            if 0 <= i < items.len() {
                                narrowed(items[i])->Some_0
                            } else {
                                HashableView::Null
                            },
                    ),
                ),
            )
        } else {
            None
        },
        ValueView::Object(entries) => if forall|i: int|
            0 <= i < entries.len() ==> narrowed((#[trigger] entries[i]).1) is Some {
            Some(
                HashableView::Object(
                    Seq::new(
                        entries.len(),
                        |i: int|
                            if 0 <= i < entries.len() {
                                (entries[i].0, narrowed(entries[i].1)->Some_0)
                            } else {
                                (HashableView::Null, HashableView::Null)
                            },
                    ),
                ),
            )
        } else {
            None
        },
        ValueView::Function => None,
    }
}

/// The keys of an object differ exactly when the views of its keys do.
pub proof fn lemma_distinct_keys_by_view<V, W>(entries: Seq<(HashableValue, V)>, of_value: spec_fn(V) -> W)
    ensures
        distinct_keys(entries) == keys_differ(keyed_views(entries, of_value)),
{
    let views = keyed_views(entries, of_value);
    if keys_differ(views) {
        assert forall|i: int, j: int| 0 <= i < j < entries.len() implies !equal_to((#[trigger] entries[j]).0)(
            (#[trigger] entries[i]).0,
        ) by {
            assert(!hashable_same(views[i].0, views[j].0));
        }
    }
}

/// Entering pairs whose keys differ into an empty object gives exactly those
/// pairs, in their order.
pub proof fn lemma_entering_distinct_keys<W>(entries: Seq<(HashableView, W)>)
    requires
        keys_differ(entries),
    ensures
        entered_all(Seq::<(HashableView, W)>::empty(), entries) == entries,
    decreases entries.len(),
{
    if entries.len() > 0 {
        let front = entries.drop_last();
        lemma_entering_distinct_keys(front);
        lemma_first_where(front, key_equal_to(entries.last().0));
    }
}

/// Widening reproduces the content of every well-formed hashable value:
/// narrowing the widened value gives the value back, the entries of every
/// object in their order.
pub proof fn lemma_widening_keeps_content(value: HashableView)
    requires
        hashable_well_formed(value),
    ensures
        narrowed(widened(value)) == Some(value),
    decreases value,
{
    match value {
        HashableView::Exception(name, meta) => {
            lemma_entering_distinct_keys(meta);
        },
        HashableView::Array(items) => {
            let wide = widened_items(items);
            assert forall|i: int| 0 <= i < wide.len() implies narrowed(#[trigger] wide[i]) == Some(items[i]) by {
                lemma_widening_keeps_content(items[i]);
            }
            assert(narrowed(widened(value))->Some_0->Array_0 =~= items);
        },
        HashableView::Object(entries) => {
            let wide = widened_entries(entries);
            lemma_entering_distinct_keys(wide);
            assert forall|i: int| 0 <= i < wide.len() implies narrowed((#[trigger] wide[i]).1) == Some(
                entries[i].1,
            ) by {
                lemma_widening_keeps_content(entries[i].1);
            }
            assert(narrowed(widened(value))->Some_0->Object_0 =~= entries);
        },
        _ => {},
    }
}

/// A well-formed hashable value is shown as the value that it widens to.
pub proof fn lemma_widening_keeps_text(value: HashableView)
    requires
        hashable_well_formed(value),
    ensures
        shown(widened(value)) == shown_hashable(value),
    decreases value, 1nat,
{
    match value {
        HashableView::Exception(name, meta) => {
            lemma_entering_distinct_keys(meta);
        },
        HashableView::Array(items) => {
            lemma_widened_items_text(items, items.len() as int);
            assert(items.take(items.len() as int) =~= items);
            assert(widened_items(items).take(items.len() as int) =~= widened_items(items));
        },
        HashableView::Object(entries) => {
            let wide = widened_entries(entries);
            lemma_entering_distinct_keys(wide);
            lemma_widened_entries_text(entries, entries.len() as int);
            assert(entries.take(entries.len() as int) =~= entries);
            assert(wide.take(entries.len() as int) =~= wide);
        },
        _ => {},
    }
}

/// The first `count` items of a list of well-formed values are shown as the
/// values that they widen to.
proof fn lemma_widened_items_text(items: Seq<HashableView>, count: int)
    requires
        0 <= count <= items.len(),
        forall|i: int| 0 <= i < items.len() ==> hashable_well_formed(#[trigger] items[i]),
    ensures
        shown_items(widened_items(items).take(count)) == shown_hashable_items(items.take(count)),
    decreases items, 0nat, count,
{
    if count > 0 {
        lemma_widened_items_text(items, count - 1);
        lemma_widening_keeps_text(items[count - 1]);
        lemma_shown_items_step(widened_items(items), count - 1);
        lemma_shown_hashable_items_step(items, count - 1);
    }
}

/// The first `count` entries of a list with well-formed values are shown as
/// the entries that they widen to.
proof fn lemma_widened_entries_text(entries: Seq<(HashableView, HashableView)>, count: int)
    requires
        0 <= count <= entries.len(),
        forall|i: int| 0 <= i < entries.len() ==> hashable_well_formed((#[trigger] entries[i]).1),
    ensures
        shown_entries(widened_entries(entries).take(count)) == shown_hashable_entries(entries.take(count)),
    decreases entries, 0nat, count,
{
    if count > 0 {
        lemma_widened_entries_text(entries, count - 1);
        lemma_widening_keeps_text(entries[count - 1].1);
        lemma_shown_entries_step(widened_entries(entries), count - 1);
        lemma_shown_hashable_entries_step(entries, count - 1);
    }
}

} // verus!
