//! What a hashable value feeds to a hasher.

use crate::lang::value::array::feed_item;
use crate::lang::value::array::lemma_item_decreases;
use crate::lang::value::equality::hashable_same;
use crate::lang::value::lemma_hashable_view;
use crate::lang::value::HashableValue;
use crate::lang::value::HashableView;
use vstd::prelude::*;

verus! {

/// One piece of what a hashable value feeds to a hasher.
#[derive(Debug, Hash)]
pub enum HashItem {
    /// Which kind of value follows.
    Tag(u8),
    Boolean(bool),
    Number(i64),
    Text(String),
}

/// A piece of hash material as plain data.
pub enum HashItemView {
    Tag(u8),
    Boolean(bool),
    Number(i64),
    Text(Seq<char>),
}

impl View for HashItem {
    type V = HashItemView;

    open spec fn view(&self) -> HashItemView {
        match self {
            HashItem::Tag(tag) => HashItemView::Tag(*tag),
            HashItem::Boolean(b) => HashItemView::Boolean(*b),
            HashItem::Number(n) => HashItemView::Number(*n),
            HashItem::Text(text) => HashItemView::Text(text@),
        }
    }
}

/// The views of a list of hash items, one by one.
pub open spec fn hash_item_views(items: Seq<HashItem>) -> Seq<HashItemView> {
    Seq::new(items.len(), |i: int| items[i]@)
}

/// What a hashable value feeds to a hasher: a tag for its kind, and behind it
/// the name of an exception, the boolean, the number or the string. Of an
/// array only the first item goes in, and of an object nothing, so that a hash
/// never walks a long value. Equal values feed the same.
pub open spec fn hash_material(value: HashableView) -> Seq<HashItemView>
    decreases value,
{
    match value {
        HashableView::Exception(name, _) => seq![HashItemView::Tag(0), HashItemView::Text(name)],
        HashableView::Null => seq![HashItemView::Tag(1)],
        HashableView::Boolean(b) => seq![HashItemView::Tag(2), HashItemView::Boolean(b)],
        HashableView::Number(n) => seq![HashItemView::Tag(3), HashItemView::Number(n)],
        HashableView::String(s) => seq![HashItemView::Tag(4), HashItemView::Text(s)],
        HashableView::Array(items) => seq![HashItemView::Tag(5)] + (if items.len() > 0 {
            hash_material(items[0])
        } else {
            Seq::empty()
        }),
        HashableView::Object(_) => seq![HashItemView::Tag(6)],
    }
}

/// Puts what `value` feeds to a hasher behind `out`.
fn feed_hash(out: &mut Vec<HashItem>, value: &HashableValue)
    ensures
        hash_item_views(final(out)@) == hash_item_views(old(out)@) + hash_material(value@),
    decreases value,
{
    proof {
        lemma_hashable_view(*value);
    }
    match value {
        HashableValue::Exception(name, _) => {
            out.push(HashItem::Tag(0));
            out.push(HashItem::Text(name.clone()));
        },
        HashableValue::Null => {
            out.push(HashItem::Tag(1));
        },
        HashableValue::Boolean(b) => {
            out.push(HashItem::Tag(2));
            out.push(HashItem::Boolean(*b));
        },
        HashableValue::Number(n) => {
            out.push(HashItem::Tag(3));
            out.push(HashItem::Number(*n));
        },
        HashableValue::String(s) => {
            out.push(HashItem::Tag(4));
            out.push(HashItem::Text(s.clone()));
        },
        HashableValue::Array(items) => {
            out.push(HashItem::Tag(5));
            match items.hash_prefix() {
                Some(first) => {
                    proof {
                        lemma_item_decreases(*items, 0);
                    }
                    feed_hash(out, first);
                },
                None => {},
            }
        },
        HashableValue::Object(_) => {
            out.push(HashItem::Tag(6));
        },
    }
}

impl HashableValue {
    /// What the value feeds to a hasher.
    pub fn hash_items(&self) -> (items: Vec<HashItem>)
        ensures
            hash_item_views(items@) == hash_material(self@),
    {
        let mut items: Vec<HashItem> = Vec::new();
        feed_hash(&mut items, self);
        items
    }
}

impl std::hash::Hash for HashableValue {
    /// Feeds the value's hash items to the hasher, and nothing else.
    fn hash<H: std::hash::Hasher>(&self, state: &mut H) {
        let items = self.hash_items();
        feed_item(&items, state);
    }
}

/// Equal values feed the same to a hasher.
pub proof fn lemma_equal_values_hash_alike(left: HashableView, right: HashableView)
    requires
        hashable_same(left, right),
    ensures
        hash_material(left) == hash_material(right),
    decreases left,
{
    match (left, right) {
        (HashableView::Array(l), HashableView::Array(r)) => {
            if l.len() > 0 {
                lemma_equal_values_hash_alike(l[0], r[0]);
            }
        },
        _ => {},
    }
}

} // verus!
