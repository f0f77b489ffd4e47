//! Equality of hashable values: what it is, that it is an equivalence on
//! well-formed values, and that two objects are equal exactly when they hold
//! the same pairs, in whatever order.

use crate::lang::value::array::lemma_item_decreases;
use crate::lang::value::object::eq_is_equivalence_among;
use crate::lang::value::object::first_where;
use crate::lang::value::object::lemma_entry_decreases;
use crate::lang::value::object::lemma_first_where;
use crate::lang::value::object::lemma_first_where_is;
use crate::lang::value::HashableValue;
use crate::lang::value::HashableView;
use vstd::prelude::*;
use vstd::std_specs::cmp::PartialEqSpecImpl;

verus! {

/// The keys that `key` equals.
pub open spec fn same_key_as(key: HashableView) -> spec_fn(HashableView) -> bool
    decreases key, 1nat,
{
    |entry: HashableView| hashable_same(key, entry)
}

/// Whether two hashable values are equal. Exceptions are equal when their names
/// are; arrays, when they have equal items at every place; objects, when they
/// have the same number of entries and every entry of the left one meets, under
/// the first equal key of the right one, an equal value. The order of an
/// object's entries plays no part.
pub open spec fn hashable_same(left: HashableView, right: HashableView) -> bool
    decreases left, 0nat,
{
    match (left, right) {
        (HashableView::Exception(l, _), HashableView::Exception(r, _)) => l == r,
        (HashableView::Null, HashableView::Null) => true,
        (HashableView::Boolean(l), HashableView::Boolean(r)) => l == r,
        (HashableView::Number(l), HashableView::Number(r)) => l == r,
        (HashableView::String(l), HashableView::String(r)) => l == r,
        (HashableView::Array(l), HashableView::Array(r)) => {
            &&& l.len() == r.len()
            &&& forall|i: int| #![trigger l[i]] 0 <= i < l.len() ==> hashable_same(l[i], r[i])
        },
        (HashableView::Object(l), HashableView::Object(r)) => {
            &&& l.len() == r.len()
            &&& forall|i: int|
                #![trigger l[i]]
                0 <= i < l.len() ==> match first_where(r, same_key_as(l[i].0)) {
                    Some(place) => hashable_same(l[i].1, r[place].1),
                    None => false,
                }
        },
        _ => false,
    }
}

/// Whether two hashable values are equal.
fn hashable_equal(left: &HashableValue, right: &HashableValue) -> (same: bool)
    ensures
        same == hashable_same(left@, right@),
    decreases left,
{
    match (left, right) {
        (HashableValue::Exception(l, _), HashableValue::Exception(r, _)) => *l == *r,
        (HashableValue::Null, HashableValue::Null) => true,
        (HashableValue::Boolean(l), HashableValue::Boolean(r)) => *l == *r,
        (HashableValue::Number(l), HashableValue::Number(r)) => *l == *r,
        (HashableValue::String(l), HashableValue::String(r)) => *l == *r,
        (HashableValue::Array(l), HashableValue::Array(r)) => {
            if l.len() != r.len() {
                return false;
            }
            let ghost lv = left@->Array_0;
            let ghost rv = right@->Array_0;
            let mut i: usize = 0;
            while i < l.len()
                invariant
                    i <= l@.len(),
                    l@.len() == r@.len(),
                    left == HashableValue::Array(*l),
                    right == HashableValue::Array(*r),
                    lv == left@->Array_0,
                    rv == right@->Array_0,
                    forall|j: int| #![trigger lv[j]] 0 <= j < i ==> hashable_same(lv[j], rv[j]),
                decreases l@.len() - i,
            {
                proof {
                    lemma_item_decreases(*l, i as int);
                }
                let li = l.get(i).unwrap();
                let ri = r.get(i).unwrap();
                if !hashable_equal(li, ri) {
                    assert(!hashable_same(lv[i as int], rv[i as int]));
                    return false;
                }
                i += 1;
            }
            true
        },
        (HashableValue::Object(l), HashableValue::Object(r)) => {
            if l.len() != r.len() {
                return false;
            }
            let ghost lv = left@->Object_0;
            let ghost rv = right@->Object_0;
            let mut i: usize = 0;
            while i < l.len()
                invariant
                    i <= l@.len(),
                    l@.len() == r@.len(),
                    left == HashableValue::Object(*l),
                    right == HashableValue::Object(*r),
                    lv == left@->Object_0,
                    rv == right@->Object_0,
                    lv.len() == l@.len(),
                    rv.len() == r@.len(),
                    forall|j: int|
                        #![trigger lv[j]]
                        0 <= j < i ==> match first_where(rv, same_key_as(lv[j].0)) {
                            Some(place) => hashable_same(lv[j].1, rv[place].1),
                            None => false,
                        },
                decreases l@.len() - i,
            {
                proof {
                    lemma_entry_decreases(*l, i as int);
                }
                let (lk, lval) = l.get_idx(i).unwrap();
                let ghost wanted = same_key_as(lv[i as int].0);
                let mut j: usize = 0;
                let mut partner: Option<usize> = None;
                while j < r.len() && partner.is_none()
                    invariant
                        j <= r@.len(),
                        i < l@.len(),
                        lk@ == lv[i as int].0,
                        right == HashableValue::Object(*r),
                        rv == right@->Object_0,
                        wanted == same_key_as(lv[i as int].0),
                        left == HashableValue::Object(*l),
                        *lk == l@[i as int].0,
                        lv.len() == l@.len(),
                        rv.len() == r@.len(),
                        partner is None ==> forall|m: int| 0 <= m < j ==> !wanted((#[trigger] rv[m]).0),
                        partner matches Some(place) ==> {
                            &&& place < r@.len()
                            &&& wanted(rv[place as int].0)
                            &&& forall|m: int| 0 <= m < place ==> !wanted((#[trigger] rv[m]).0)
                        },
                    decreases r@.len() - j + (if partner is None {
                        1nat
                    } else {
                        0nat
                    }),
                {
                    let (rk, _) = r.get_idx(j).unwrap();
                    proof {
                        lemma_entry_decreases(*l, i as int);
                        assert(decreases_to!(left => left->Object_0));
                    }
                    if hashable_equal(lk, rk) {
                        partner = Some(j);
                    } else {
                        j += 1;
                    }
                }
                proof {
                    lemma_first_where(rv, wanted);
                }
                let covered = match partner {
                    Some(place) => {
                        let (_, rval) = r.get_idx(place).unwrap();
                        hashable_equal(lval, rval)
                    },
                    None => false,
                };
                if !covered {
                    return false;
                }
                i += 1;
            }
            true
        },
        _ => false,
    }
}

impl PartialEq for HashableValue {
    fn eq(&self, other: &HashableValue) -> (same: bool) {
        hashable_equal(self, other)
    }
}

impl PartialEqSpecImpl for HashableValue {
    open spec fn obeys_eq_spec() -> bool {
        true
    }

    open spec fn eq_spec(&self, other: &HashableValue) -> bool {
        hashable_same(self@, other@)
    }
}

impl Eq for HashableValue {

}

/// No key of the list equals a key behind it.
pub open spec fn keys_differ<W>(entries: Seq<(HashableView, W)>) -> bool {
    forall|i: int, j: int|
        0 <= i < j < entries.len() ==> !hashable_same((#[trigger] entries[i]).0, (#[trigger] entries[j]).0)
}


/// How deep arrays and objects are nested in a value.
pub open spec fn height(value: HashableView) -> nat
    decreases value,
{
    match value {
        HashableView::Array(items) => 1 + items_height(items),
        HashableView::Object(entries) => 1 + entries_height(entries),
        _ => 0,
    }
}

/// The greatest height among the items of a list.
pub open spec fn items_height(items: Seq<HashableView>) -> nat
    decreases items,
{
    if items.len() == 0 {
        0
    } else {
        let front = items_height(items.drop_last());
        let last = height(items.last());
        if front > last {
            front
        } else {
            last
        }
    }
}

/// The greatest height among the keys and values of a list of entries.
pub open spec fn entries_height(entries: Seq<(HashableView, HashableView)>) -> nat
    decreases entries,
{
    if entries.len() == 0 {
        0
    } else {
        let front = entries_height(entries.drop_last());
        let key = height(entries.last().0);
        let value = height(entries.last().1);
        if front >= key && front >= value {
            front
        } else if key >= value {
            key
        } else {
            value
        }
    }
}

proof fn lemma_item_height(items: Seq<HashableView>, place: int)
    requires
        0 <= place < items.len(),
    ensures
        height(items[place]) <= items_height(items),
    decreases items.len(),
{
    if place < items.len() - 1 {
        lemma_item_height(items.drop_last(), place);
    }
}

proof fn lemma_entry_height(entries: Seq<(HashableView, HashableView)>, place: int)
    requires
        0 <= place < entries.len(),
    ensures
        height(entries[place].0) <= entries_height(entries),
        height(entries[place].1) <= entries_height(entries),
    decreases entries.len(),
{
    if place < entries.len() - 1 {
        lemma_entry_height(entries.drop_last(), place);
    }
}

/// Whether the keys of every object in the value differ from one another, in
/// keys, values and items at every depth. Every value that is built by entering
/// pairs into objects is of this kind.
pub open spec fn keys_differ_throughout(value: HashableView) -> bool
    decreases value,
{
    match value {
        HashableView::Array(items) => forall|i: int|
            0 <= i < items.len() ==> keys_differ_throughout(#[trigger] items[i]),
        HashableView::Object(entries) => {
            &&& keys_differ(entries)
            &&& forall|i: int|
                0 <= i < entries.len() ==> keys_differ_throughout((#[trigger] entries[i]).0)
                    && keys_differ_throughout(entries[i].1)
        },
        _ => true,
    }
}

/// A value whose keys differ throughout and that is nested no deeper than
/// `depth`.
pub open spec fn within(value: HashableView, depth: nat) -> bool {
    keys_differ_throughout(value) && height(value) <= depth
}

/// The value equals itself.
pub open spec fn reflexive_at(x: HashableView) -> bool {
    hashable_same(x, x)
}

/// If the first value equals the second, the second equals the first.
pub open spec fn symmetric_at(x: HashableView, y: HashableView) -> bool {
    hashable_same(x, y) ==> hashable_same(y, x)
}

/// If the first value equals the second and the second the third, the first
/// equals the third.
pub open spec fn transitive_at(x: HashableView, y: HashableView, z: HashableView) -> bool {
    hashable_same(x, y) && hashable_same(y, z) ==> hashable_same(x, z)
}

/// Equality is an equivalence among the values within `depth`.
pub open spec fn equivalence_within(depth: nat) -> bool {
    &&& forall|x: HashableView| within(x, depth) ==> #[trigger] reflexive_at(x)
    &&& forall|x: HashableView, y: HashableView|
        within(x, depth) && within(y, depth) ==> #[trigger] symmetric_at(x, y)
    &&& forall|x: HashableView, y: HashableView, z: HashableView|
        within(x, depth) && within(y, depth) && within(z, depth) ==> #[trigger] transitive_at(x, y, z)
}

/// The parts of an array or an object within `depth` are within one less.
proof fn lemma_parts_within(value: HashableView, depth: nat)
    requires
        within(value, depth),
    ensures
        value matches HashableView::Array(items) ==> depth > 0 && forall|i: int|
            0 <= i < items.len() ==> within(#[trigger] items[i], (depth - 1) as nat),
        value matches HashableView::Object(entries) ==> depth > 0 && keys_differ(entries) && forall|i: int|
            0 <= i < entries.len() ==> within((#[trigger] entries[i]).0, (depth - 1) as nat) && within(
                entries[i].1,
                (depth - 1) as nat,
            ),
{
    match value {
        HashableView::Array(items) => {
            assert forall|i: int| 0 <= i < items.len() implies within(#[trigger] items[i], (depth - 1) as nat) by {
                lemma_item_height(items, i);
            }
        },
        HashableView::Object(entries) => {
            assert forall|i: int| 0 <= i < entries.len() implies within(
                (#[trigger] entries[i]).0,
                (depth - 1) as nat,
            ) && within(entries[i].1, (depth - 1) as nat) by {
                lemma_entry_height(entries, i);
            }
        },
        _ => {},
    }
}

/// The place in `right` of the partner of the entry at `place` of `left`: the
/// first entry of `right` with a key that the left key equals.
pub open spec fn partner(
    left: Seq<(HashableView, HashableView)>,
    right: Seq<(HashableView, HashableView)>,
    place: int,
) -> int {
    first_where(right, same_key_as(left[place].0))->Some_0
}

/// What it means for every entry of `left` to have a partner in `right` with an
/// equal value.
proof fn lemma_partners(
    left: Seq<(HashableView, HashableView)>,
    right: Seq<(HashableView, HashableView)>,
    place: int,
)
    requires
        hashable_same(HashableView::Object(left), HashableView::Object(right)),
        0 <= place < left.len(),
    ensures
        left.len() == right.len(),
        first_where(right, same_key_as(left[place].0)) is Some,
        0 <= partner(left, right, place) < right.len(),
        hashable_same(left[place].0, right[partner(left, right, place)].0),
        hashable_same(left[place].1, right[partner(left, right, place)].1),
{
    lemma_first_where(right, same_key_as(left[place].0));
}

/// Whether `to` sends one of the first `count` numbers to `target`.
pub open spec fn reached(count: nat, to: spec_fn(int) -> int, target: int) -> bool {
    exists|i: int| 0 <= i < count && #[trigger] to(i) == target
}

/// A function from the first `count` numbers into the first `count` numbers
/// that sends no two numbers to the same one reaches every one of them.
pub proof fn lemma_injective_reaches_all(count: nat, to: spec_fn(int) -> int)
    requires
        forall|i: int| 0 <= i < count ==> 0 <= #[trigger] to(i) < count,
        forall|i: int, j: int| 0 <= i < j < count ==> #[trigger] to(i) != #[trigger] to(j),
    ensures
        forall|target: int| 0 <= target < count ==> #[trigger] reached(count, to, target),
    decreases count,
{
    if count > 0 {
        let last = count - 1;
        let taken = to(last);
        let shifted = |i: int|
            if to(i) < taken {
                to(i)
            } else {
                to(i) - 1
            };
        lemma_injective_reaches_all(last as nat, shifted);
        assert forall|target: int| 0 <= target < count implies #[trigger] reached(count, to, target) by {
            if target != taken {
                let below = if target < taken {
                    target
                } else {
                    target - 1
                };
                assert(reached(last as nat, shifted, below));
            }
        }
    }
}

/// Within one depth more, every value equals itself.
proof fn lemma_reflexive_step(x: HashableView, depth: nat)
    requires
        within(x, depth),
        depth > 0 ==> equivalence_within((depth - 1) as nat),
    ensures
        hashable_same(x, x),
{
    lemma_parts_within(x, depth);
    match x {
        HashableView::Array(items) => {
            assert forall|i: int| #![trigger items[i]] 0 <= i < items.len() implies hashable_same(
                items[i],
                items[i],
            ) by {
                assert(reflexive_at(items[i]));
            }
        },
        HashableView::Object(entries) => {
            assert forall|i: int| #![trigger entries[i]] 0 <= i < entries.len() implies match first_where(
                entries,
                same_key_as(entries[i].0),
            ) {
                Some(place) => hashable_same(entries[i].1, entries[place].1),
                None => false,
            } by {
                assert(reflexive_at(entries[i].0));
                assert(reflexive_at(entries[i].1));
                lemma_first_where(entries, same_key_as(entries[i].0));
                let place = first_where(entries, same_key_as(entries[i].0))->Some_0;
                if place < i {
                    assert(symmetric_at(entries[i].0, entries[place].0));
                }
            }
        },
        _ => {},
    }
}

/// Within one depth more, equality can be turned around.
proof fn lemma_symmetric_step(x: HashableView, y: HashableView, depth: nat)
    requires
        within(x, depth),
        within(y, depth),
        depth > 0 ==> equivalence_within((depth - 1) as nat),
        hashable_same(x, y),
    ensures
        hashable_same(y, x),
{
    lemma_parts_within(x, depth);
    lemma_parts_within(y, depth);
    match (x, y) {
        (HashableView::Array(l), HashableView::Array(r)) => {
            assert forall|i: int| #![trigger r[i]] 0 <= i < r.len() implies hashable_same(r[i], l[i]) by {
                assert(symmetric_at(l[i], r[i]));
            }
        },
        (HashableView::Object(l), HashableView::Object(r)) => {
            let count = l.len();
            let to = |i: int| partner(l, r, i);
            assert forall|i: int| 0 <= i < count implies 0 <= #[trigger] to(i) < count by {
                lemma_partners(l, r, i);
            }
            assert forall|i: int, j: int| 0 <= i < j < count implies #[trigger] to(i) != #[trigger] to(j) by {
                lemma_partners(l, r, i);
                lemma_partners(l, r, j);
                if to(i) == to(j) {
                    let shared = r[to(i)].0;
                    assert(symmetric_at(l[j].0, shared));
                    assert(transitive_at(l[i].0, shared, l[j].0));
                }
            }
            lemma_injective_reaches_all(count, to);
            assert forall|j: int| #![trigger r[j]] 0 <= j < r.len() implies match first_where(
                l,
                same_key_as(r[j].0),
            ) {
                Some(place) => hashable_same(r[j].1, l[place].1),
                None => false,
            } by {
                assert(reached(count, to, j));
                let i = choose|i: int| 0 <= i < count && #[trigger] to(i) == j;
                lemma_partners(l, r, i);
                assert(symmetric_at(l[i].0, r[j].0));
                assert(symmetric_at(l[i].1, r[j].1));
                assert forall|m: int| 0 <= m < i implies !same_key_as(r[j].0)((#[trigger] l[m]).0) by {
                    if hashable_same(r[j].0, l[m].0) {
                        assert(symmetric_at(r[j].0, l[m].0));
                        assert(transitive_at(l[m].0, r[j].0, l[i].0));
                    }
                }
                lemma_first_where_is(l, same_key_as(r[j].0), i);
            }
        },
        _ => {},
    }
}

/// Within one depth more, equality carries over a value in the middle.
proof fn lemma_transitive_step(x: HashableView, y: HashableView, z: HashableView, depth: nat)
    requires
        within(x, depth),
        within(y, depth),
        within(z, depth),
        depth > 0 ==> equivalence_within((depth - 1) as nat),
        hashable_same(x, y),
        hashable_same(y, z),
    ensures
        hashable_same(x, z),
{
    lemma_parts_within(x, depth);
    lemma_parts_within(y, depth);
    lemma_parts_within(z, depth);
    match (x, y, z) {
        (HashableView::Array(a), HashableView::Array(b), HashableView::Array(c)) => {
            assert forall|i: int| #![trigger a[i]] 0 <= i < a.len() implies hashable_same(a[i], c[i]) by {
                assert(transitive_at(a[i], b[i], c[i]));
            }
        },
        (HashableView::Object(a), HashableView::Object(b), HashableView::Object(c)) => {
            assert forall|i: int| #![trigger a[i]] 0 <= i < a.len() implies match first_where(
                c,
                same_key_as(a[i].0),
            ) {
                Some(place) => hashable_same(a[i].1, c[place].1),
                None => false,
            } by {
                lemma_partners(a, b, i);
                let j = partner(a, b, i);
                lemma_partners(b, c, j);
                let k = partner(b, c, j);
                assert(transitive_at(a[i].0, b[j].0, c[k].0));
                assert(transitive_at(a[i].1, b[j].1, c[k].1));
                lemma_first_where(c, same_key_as(a[i].0));
                let place = first_where(c, same_key_as(a[i].0))->Some_0;
                if place < k {
                    assert(symmetric_at(a[i].0, c[place].0));
                    assert(transitive_at(c[place].0, a[i].0, c[k].0));
                }
            }
        },
        _ => {},
    }
}

/// Equality is an equivalence among the values within any depth.
pub proof fn lemma_equivalence(depth: nat)
    ensures
        equivalence_within(depth),
    decreases depth,
{
    if depth > 0 {
        lemma_equivalence((depth - 1) as nat);
    }
    assert forall|x: HashableView| within(x, depth) implies #[trigger] reflexive_at(x) by {
        lemma_reflexive_step(x, depth);
    }
    assert forall|x: HashableView, y: HashableView| within(x, depth) && within(y, depth) implies #[trigger] symmetric_at(
        x,
        y,
    ) by {
        if hashable_same(x, y) {
            lemma_symmetric_step(x, y, depth);
        }
    }
    assert forall|x: HashableView, y: HashableView, z: HashableView|
        within(x, depth) && within(y, depth) && within(z, depth) implies #[trigger] transitive_at(x, y, z) by {
        if hashable_same(x, y) && hashable_same(y, z) {
            lemma_transitive_step(x, y, z, depth);
        }
    }
}

/// A depth that three values are within.
pub open spec fn common_depth(x: HashableView, y: HashableView, z: HashableView) -> nat {
    height(x) + height(y) + height(z)
}

/// A value whose keys differ throughout equals itself.
pub proof fn lemma_same_is_reflexive(x: HashableView)
    requires
        keys_differ_throughout(x),
    ensures
        hashable_same(x, x),
{
    lemma_equivalence(height(x));
    assert(reflexive_at(x));
}

/// Among values whose keys differ throughout, equality can be turned around.
pub proof fn lemma_same_is_symmetric(x: HashableView, y: HashableView)
    requires
        keys_differ_throughout(x),
        keys_differ_throughout(y),
        hashable_same(x, y),
    ensures
        hashable_same(y, x),
{
    lemma_equivalence(common_depth(x, y, y));
    assert(symmetric_at(x, y));
}

/// Among values whose keys differ throughout, equality carries over a value in
/// the middle.
pub proof fn lemma_same_is_transitive(x: HashableView, y: HashableView, z: HashableView)
    requires
        keys_differ_throughout(x),
        keys_differ_throughout(y),
        keys_differ_throughout(z),
        hashable_same(x, y),
        hashable_same(y, z),
    ensures
        hashable_same(x, z),
{
    lemma_equivalence(common_depth(x, y, z));
    assert(transitive_at(x, y, z));
}

/// A function from the first `count` numbers into the first `room` numbers
/// that sends no two numbers to the same one needs `room` to be at least
/// `count`.
pub proof fn lemma_injective_fits(count: nat, room: nat, to: spec_fn(int) -> int)
    requires
        forall|i: int| 0 <= i < count ==> 0 <= #[trigger] to(i) < room,
        forall|i: int, j: int| 0 <= i < j < count ==> #[trigger] to(i) != #[trigger] to(j),
    ensures
        count <= room,
    decreases count,
{
    if count > 0 {
        let last = count - 1;
        let taken = to(last);
        let shifted = |i: int|
            if to(i) < taken {
                to(i)
            } else {
                to(i) - 1
            };
        lemma_injective_fits(last as nat, (room - 1) as nat, shifted);
    }
}

/// Whether the entry at `place` of `entries` is the pair of `key` and `value`,
/// up to equality.
pub open spec fn pair_at(
    entries: Seq<(HashableView, HashableView)>,
    place: int,
    key: HashableView,
    value: HashableView,
) -> bool {
    0 <= place < entries.len() && hashable_same(key, entries[place].0) && hashable_same(value, entries[place].1)
}

/// Whether `entries` holds the pair of `key` and `value`, up to equality.
pub open spec fn holds_pair(entries: Seq<(HashableView, HashableView)>, key: HashableView, value: HashableView) -> bool {
    exists|place: int| #[trigger] pair_at(entries, place, key, value)
}

/// Whether `right` holds every pair of `left`, up to equality.
pub open spec fn holds_pairs_of(
    right: Seq<(HashableView, HashableView)>,
    left: Seq<(HashableView, HashableView)>,
) -> bool {
    forall|i: int| 0 <= i < left.len() ==> holds_pair(right, (#[trigger] left[i]).0, left[i].1)
}

/// If `right` holds every pair of `left` and the keys of `left` differ, `right`
/// has at least as many entries, and every entry of `left` has its partner in
/// `right`.
proof fn lemma_pairs_held(left: Seq<(HashableView, HashableView)>, right: Seq<(HashableView, HashableView)>)
    requires
        keys_differ_throughout(HashableView::Object(left)),
        keys_differ_throughout(HashableView::Object(right)),
        holds_pairs_of(right, left),
    ensures
        left.len() <= right.len(),
        forall|i: int|
            #![trigger left[i]]
            0 <= i < left.len() ==> match first_where(right, same_key_as(left[i].0)) {
                Some(place) => hashable_same(left[i].1, right[place].1),
                None => false,
            },
{
    let to = |i: int| choose|place: int| #[trigger] pair_at(right, place, left[i].0, left[i].1);
    assert forall|i: int, j: int| 0 <= i < j < left.len() implies #[trigger] to(i) != #[trigger] to(j) by {
        if to(i) == to(j) {
            let shared = right[to(i)].0;
            lemma_same_is_symmetric(left[j].0, shared);
            lemma_same_is_transitive(left[i].0, shared, left[j].0);
        }
    }
    lemma_injective_fits(left.len(), right.len(), to);
    assert forall|i: int| #![trigger left[i]] 0 <= i < left.len() implies match first_where(
        right,
        same_key_as(left[i].0),
    ) {
        Some(place) => hashable_same(left[i].1, right[place].1),
        None => false,
    } by {
        let held = to(i);
        lemma_first_where(right, same_key_as(left[i].0));
        let place = first_where(right, same_key_as(left[i].0))->Some_0;
        if place < held {
            lemma_same_is_symmetric(left[i].0, right[place].0);
            lemma_same_is_transitive(right[place].0, left[i].0, right[held].0);
        }
    }
}

/// Two objects whose keys differ throughout are equal exactly when each holds
/// every pair of the other, up to equality of keys and of values. The order of
/// the entries plays no part.
pub proof fn lemma_objects_equal_iff_same_pairs(
    left: Seq<(HashableView, HashableView)>,
    right: Seq<(HashableView, HashableView)>,
)
    requires
        keys_differ_throughout(HashableView::Object(left)),
        keys_differ_throughout(HashableView::Object(right)),
    ensures
        hashable_same(HashableView::Object(left), HashableView::Object(right)) <==> holds_pairs_of(right, left)
            && holds_pairs_of(left, right),
{
    if hashable_same(HashableView::Object(left), HashableView::Object(right)) {
        lemma_same_is_symmetric(HashableView::Object(left), HashableView::Object(right));
        assert forall|i: int| 0 <= i < left.len() implies holds_pair(right, (#[trigger] left[i]).0, left[i].1) by {
            lemma_partners(left, right, i);
            assert(pair_at(right, partner(left, right, i), left[i].0, left[i].1));
        }
        assert forall|i: int| 0 <= i < right.len() implies holds_pair(left, (#[trigger] right[i]).0, right[i].1) by {
            lemma_partners(right, left, i);
            assert(pair_at(left, partner(right, left, i), right[i].0, right[i].1));
        }
    }
    if holds_pairs_of(right, left) && holds_pairs_of(left, right) {
        lemma_pairs_held(left, right);
        lemma_pairs_held(right, left);
    }
}

/// Two objects with the same entries in another order are equal, though they
/// hand their entries out in different orders.
pub proof fn lemma_objects_equal_in_any_order(
    left: Seq<(HashableView, HashableView)>,
    right: Seq<(HashableView, HashableView)>,
)
    requires
        keys_differ_throughout(HashableView::Object(left)),
        keys_differ_throughout(HashableView::Object(right)),
        forall|i: int| 0 <= i < left.len() ==> right.contains(#[trigger] left[i]),
        forall|i: int| 0 <= i < right.len() ==> left.contains(#[trigger] right[i]),
    ensures
        hashable_same(HashableView::Object(left), HashableView::Object(right)),
        hashable_same(HashableView::Object(right), HashableView::Object(left)),
{
    assert forall|i: int| 0 <= i < left.len() implies holds_pair(right, (#[trigger] left[i]).0, left[i].1) by {
        let place = choose|place: int| 0 <= place < right.len() && right[place] == left[i];
        lemma_same_is_reflexive(left[i].0);
        lemma_same_is_reflexive(left[i].1);
        assert(pair_at(right, place, left[i].0, left[i].1));
    }
    assert forall|i: int| 0 <= i < right.len() implies holds_pair(left, (#[trigger] right[i]).0, right[i].1) by {
        let place = choose|place: int| 0 <= place < left.len() && left[place] == right[i];
        lemma_same_is_reflexive(right[i].0);
        lemma_same_is_reflexive(right[i].1);
        assert(pair_at(left, place, right[i].0, right[i].1));
    }
    lemma_objects_equal_iff_same_pairs(left, right);
    lemma_objects_equal_iff_same_pairs(right, left);
}

/// The hashable values whose keys differ throughout.
pub open spec fn keys_differing() -> spec_fn(HashableValue) -> bool {
    |value: HashableValue| keys_differ_throughout(value@)
}

/// `==` on hashable values is an equivalence among the values whose keys
/// differ throughout, so that what holds of objects over any keys and values
/// with such an equality holds of objects of hashable values.
pub proof fn lemma_hashable_equality_is_equivalence()
    ensures
        eq_is_equivalence_among(keys_differing()),
{
    assert forall|x: HashableValue| keys_differing()(x) implies hashable_same(x@, x@) by {
        lemma_same_is_reflexive(x@);
    }
    assert forall|x: HashableValue, y: HashableValue|
        keys_differing()(x) && keys_differing()(y) && hashable_same(x@, y@) implies #[trigger] hashable_same(
            y@,
            x@,
        ) by {
        lemma_same_is_symmetric(x@, y@);
    }
    assert forall|x: HashableValue, y: HashableValue, z: HashableValue|
        keys_differing()(x) && keys_differing()(y) && keys_differing()(z) && #[trigger] hashable_same(x@, y@)
            && #[trigger] hashable_same(y@, z@) implies hashable_same(x@, z@) by {
        lemma_same_is_transitive(x@, y@, z@);
    }
}

} // verus!
