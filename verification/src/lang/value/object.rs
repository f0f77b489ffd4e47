//! Key/value objects that remember the order in which their keys came.

use crate::lang::value::equality::lemma_injective_fits;
use crate::lang::value::equality::lemma_injective_reaches_all;
use crate::lang::value::equality::reached;
use vstd::prelude::*;
use vstd::std_specs::cmp::PartialEqSpec;
use vstd::std_specs::cmp::PartialEqSpecImpl;

verus! {

/// The place of the first entry whose key satisfies `wanted`, if there is one.
pub open spec fn first_where<K, V>(entries: Seq<(K, V)>, wanted: spec_fn(K) -> bool) -> Option<int>
    decreases entries.len(),
{
    if entries.len() == 0 {
        None
    } else {
        match first_where(entries.drop_last(), wanted) {
            Some(place) => Some(place),
            None => if wanted(entries.last().0) {
                Some(entries.len() - 1)
            } else {
                None
            },
        }
    }
}

/// `first_where` gives the lowest place whose key is wanted, and `None` exactly
/// when no key is.
pub proof fn lemma_first_where<K, V>(entries: Seq<(K, V)>, wanted: spec_fn(K) -> bool)
    ensures
        match first_where(entries, wanted) {
            Some(place) => {
                &&& 0 <= place < entries.len()
                &&& wanted(entries[place].0)
                &&& forall|j: int| 0 <= j < place ==> !wanted((#[trigger] entries[j]).0)
            },
            None => forall|j: int| 0 <= j < entries.len() ==> !wanted((#[trigger] entries[j]).0),
        },
    decreases entries.len(),
{
    if entries.len() > 0 {
        lemma_first_where(entries.drop_last(), wanted);
        match first_where(entries.drop_last(), wanted) {
            Some(place) => {
                assert forall|j: int| 0 <= j < place implies !wanted((#[trigger] entries[j]).0) by {
                    assert(entries.drop_last()[j] == entries[j]);
                }
            },
            None => {
                assert forall|j: int| 0 <= j < entries.len() - 1 implies !wanted((#[trigger] entries[j]).0) by {
                    assert(entries.drop_last()[j] == entries[j]);
                }
            },
        }
    }
}

/// A place whose key is wanted, with no wanted key before it, is the place that
/// `first_where` gives.
pub proof fn lemma_first_where_is<K, V>(entries: Seq<(K, V)>, wanted: spec_fn(K) -> bool, place: int)
    requires
        0 <= place < entries.len(),
        wanted(entries[place].0),
        forall|j: int| 0 <= j < place ==> !wanted((#[trigger] entries[j]).0),
    ensures
        first_where(entries, wanted) == Some(place),
{
    lemma_first_where(entries, wanted);
}

/// The keys that equal `key`, each asked as the left side of `==`.
pub open spec fn equal_to<K: PartialEq>(key: K) -> spec_fn(K) -> bool {
    |entry: K| entry.eq_spec(&key)
}

/// The keys that `key` equals, with `key` as the left side of `==`.
pub open spec fn equalled_by<K: PartialEq>(key: K) -> spec_fn(K) -> bool {
    |entry: K| key.eq_spec(&entry)
}

/// No key of the list equals a key behind it.
pub open spec fn distinct_keys<K: PartialEq, V>(entries: Seq<(K, V)>) -> bool {
    forall|i: int, j: int|
        0 <= i < j < entries.len() ==> !(#[trigger] entries[i]).0.eq_spec(&(#[trigger] entries[j]).0)
}

/// The entries after `value` has been entered under `key`: where an entry has
/// an equal key, it keeps its key and its place and gets the new value;
/// otherwise the new entry goes behind all others.
pub open spec fn inserted<K: PartialEq, V>(entries: Seq<(K, V)>, key: K, value: V) -> Seq<(K, V)> {
    match first_where(entries, equal_to(key)) {
        Some(place) => entries.update(place, (entries[place].0, value)),
        None => entries.push((key, value)),
    }
}

/// Whether `after` is `before` with the value at `place` replaced: the entry
/// there held `was` and now holds `value` under its old key, and every other
/// entry, the number of entries and their order are as they were.
pub open spec fn replaced_at<K, V>(before: Seq<(K, V)>, after: Seq<(K, V)>, place: int, was: V, value: V) -> bool {
    &&& 0 <= place < before.len()
    &&& before[place].1 == was
    &&& after == before.update(place, (before[place].0, value))
}

/// Whether `after` is `before` with the value at some place replaced, the old
/// value being `was` and the new one `value`.
pub open spec fn replaced_somewhere<K, V>(before: Seq<(K, V)>, after: Seq<(K, V)>, was: V, value: V) -> bool {
    exists|place: int| #[trigger] replaced_at(before, after, place, was, value)
}

/// The value that entering something under `key` replaces, if any.
pub open spec fn replaced_by_insert<K: PartialEq, V>(entries: Seq<(K, V)>, key: K) -> Option<V> {
    match first_where(entries, equal_to(key)) {
        Some(place) => Some(entries[place].1),
        None => None,
    }
}

/// The entries of an object that the pairs of `pairs` are entered into one
/// after another, starting from the entries `start`.
pub open spec fn inserted_all<K: PartialEq, V>(start: Seq<(K, V)>, pairs: Seq<(K, V)>) -> Seq<(K, V)>
    decreases pairs.len(),
{
    if pairs.len() == 0 {
        start
    } else {
        inserted(inserted_all(start, pairs.drop_last()), pairs.last().0, pairs.last().1)
    }
}

/// Entering a pair keeps the keys distinct.
pub proof fn lemma_inserted_distinct<K: PartialEq, V>(entries: Seq<(K, V)>, key: K, value: V)
    requires
        distinct_keys(entries),
    ensures
        distinct_keys(inserted(entries, key, value)),
{
    lemma_first_where(entries, equal_to(key));
    let after = inserted(entries, key, value);
    assert forall|i: int, j: int| 0 <= i < j < after.len() implies !(#[trigger] after[i]).0.eq_spec(
        &(#[trigger] after[j]).0,
    ) by {}
}

/// Entering a value under a key that is present changes nothing but the value
/// of the first entry with that key: the number of entries, every key and every
/// place stay as they were.
pub proof fn lemma_insert_present_key_keeps_place<K: PartialEq, V>(
    entries: Seq<(K, V)>,
    key: K,
    value: V,
    place: int,
)
    requires
        first_where(entries, equal_to(key)) == Some(place),
    ensures
        0 <= place < entries.len(),
        inserted(entries, key, value).len() == entries.len(),
        inserted(entries, key, value)[place] == (entries[place].0, value),
        forall|i: int|
            0 <= i < entries.len() ==> (#[trigger] inserted(entries, key, value)[i]).0 == entries[i].0,
        forall|i: int|
            0 <= i < entries.len() && i != place ==> #[trigger] inserted(entries, key, value)[i] == entries[i],
        replaced_by_insert(entries, key) == Some(entries[place].1),
{
    lemma_first_where(entries, equal_to(key));
}

/// Entering a value under a key that is not present puts the new entry behind
/// all others and leaves them as they were.
pub proof fn lemma_insert_new_key_appends<K: PartialEq, V>(entries: Seq<(K, V)>, key: K, value: V)
    requires
        first_where(entries, equal_to(key)) is None,
    ensures
        inserted(entries, key, value) == entries.push((key, value)),
        replaced_by_insert(entries, key) is None,
{
}

/// A mapping from keys to values that keeps its entries in the order in which
/// their keys were first entered. Its view is the list of entries in that
/// order.
#[derive(Debug)]
pub struct Object<K, V> {
    buffer: Vec<(K, V)>,
}

impl<K, V> View for Object<K, V> {
    type V = Seq<(K, V)>;

    closed spec fn view(&self) -> Seq<(K, V)> {
        self.buffer@
    }
}

impl<K, V> Object<K, V> {
    /// The object without entries.
    pub fn new() -> (object: Object<K, V>)
        ensures
            object@ == Seq::<(K, V)>::empty(),
    {
        Object { buffer: Vec::new() }
    }

    /// The entry at place `idx` of the insertion order, or `None` behind the
    /// end.
    pub fn get_idx(&self, idx: usize) -> (entry: Option<(&K, &V)>)
        ensures
            idx < self@.len() ==> entry == Some((&self@[idx as int].0, &self@[idx as int].1)),
            idx >= self@.len() ==> entry is None,
    {
        if self.buffer.len() > idx {
            let pair = &self.buffer[idx];
            Some((&pair.0, &pair.1))
        } else {
            None
        }
    }

    /// An iterator over the entries in insertion order.
    pub fn iter(&self) -> (iter: Iter<'_, K, V>)
        ensures
            iter.object() == self,
            iter.position() == 0,
    {
        Iter { object: self, index: 0 }
    }

    /// An iterator that hands the entries out in insertion order.
    pub fn into_iter(self) -> (iter: IntoIter<K, V>)
        ensures
            iter@ == self@,
    {
        IntoIter { buffer: self.buffer }
    }

    /// The entries in insertion order, as a vector.
    pub fn into_pairs(self) -> (pairs: Vec<(K, V)>)
        ensures
            pairs@ == self@,
    {
        self.buffer
    }

    /// The number of entries.
    pub fn len(&self) -> (count: usize)
        ensures
            count == self@.len(),
    {
        self.buffer.len()
    }
}

/// An entry of an object, its key and its value are smaller than the object.
pub proof fn lemma_entry_decreases<K, V>(object: Object<K, V>, place: int)
    requires
        0 <= place < object@.len(),
    ensures
        decreases_to!(object => object@[place]),
        decreases_to!(object => object@[place].0),
        decreases_to!(object => object@[place].1),
{
}

impl<K, V> Object<K, V> {
    /// The object with exactly the entries of `entries`, in their order. Only
    /// this crate hands entries in without entering them one by one.
    pub(crate) fn with_entries(entries: Vec<(K, V)>) -> (object: Object<K, V>)
        ensures
            object@ == entries@,
    {
        Object { buffer: entries }
    }
}

impl<K: PartialEq, V> Object<K, V> {
    /// No key of the object equals a key that was entered after it.
    pub open spec fn well_formed(&self) -> bool {
        distinct_keys(self@)
    }

    /// Enters `v` under `k`. If a key equal to `k` is present, its entry keeps
    /// its place and its key, takes the new value and the old value is
    /// returned; otherwise the new entry goes to the end.
    ///
    /// Whatever `==` on the keys does, a value that is returned was replaced at
    /// its place with nothing else changed, and where none is returned the new
    /// entry stands behind the others. Which of the two happens is said where
    /// `==` on the keys obeys its specification.
    pub fn insert(&mut self, k: K, v: V) -> (replaced: Option<V>)
        ensures
            replaced matches Some(was) ==> replaced_somewhere(old(self)@, final(self)@, was, v),
            replaced is None ==> final(self)@ == old(self)@.push((k, v)),
            K::obeys_eq_spec() ==> final(self)@ == inserted(old(self)@, k, v),
            K::obeys_eq_spec() ==> replaced == replaced_by_insert(old(self)@, k),
            K::obeys_eq_spec() && old(self).well_formed() ==> final(self).well_formed(),
    {
        let ghost entries = self.buffer@;
        let mut i: usize = 0;
        while i < self.buffer.len()
            invariant
                i <= entries.len(),
                self.buffer@ == entries,
                entries == old(self)@,
                K::obeys_eq_spec() ==> forall|j: int| 0 <= j < i ==> !equal_to(k)((#[trigger] entries[j]).0),
            decreases entries.len() - i,
        {
            if self.buffer[i].0 == k {
                proof {
                    if K::obeys_eq_spec() {
                        lemma_first_where_is(entries, equal_to(k), i as int);
                        if old(self).well_formed() {
                            lemma_inserted_distinct(entries, k, v);
                        }
                    }
                }
                let (key, old_value) = self.buffer.remove(i);
                self.buffer.insert(i, (key, v));
                assert(self.buffer@ =~= entries.update(i as int, (entries[i as int].0, v)));
                assert(replaced_at(old(self)@, self@, i as int, old_value, v));
                return Some(old_value);
            }
            i += 1;
        }
        proof {
            lemma_first_where(entries, equal_to(k));
            if old(self).well_formed() {
                lemma_inserted_distinct(entries, k, v);
            }
        }
        self.buffer.push((k, v));
        None
    }

    /// The object that the pairs of `pairs` are entered into one after another.
    pub fn from_pairs(pairs: Vec<(K, V)>) -> (object: Object<K, V>)
        ensures
            K::obeys_eq_spec() ==> object@ == inserted_all(Seq::<(K, V)>::empty(), pairs@),
            K::obeys_eq_spec() ==> object.well_formed(),
    {
        let mut source = IntoIter { buffer: pairs };
        let mut object: Object<K, V> = Object::new();
        loop
            invariant
                source@.len() <= pairs@.len(),
                source@ == pairs@.skip(pairs@.len() - source@.len()),
                K::obeys_eq_spec() ==> object@ == inserted_all(
                    Seq::<(K, V)>::empty(),
                    pairs@.take(pairs@.len() - source@.len()),
                ),
                K::obeys_eq_spec() ==> object.well_formed(),
            ensures
                source@.len() == 0,
            decreases source@.len(),
        {
            let ghost done = pairs@.len() - source@.len();
            match source.next() {
                None => {
                    break ;
                },
                Some((k, v)) => {
                    object.insert(k, v);
                    assert(pairs@.take(done + 1).drop_last() =~= pairs@.take(done));
                },
            }
        }
        object
    }
}

impl<K: Clone, V: Clone> Clone for Object<K, V> {
    /// An object with as many entries that holds a clone of every entry at its
    /// place.
    fn clone(&self) -> (copy: Object<K, V>)
        ensures
            copy@.len() == self@.len(),
            forall|i: int| 0 <= i < self@.len() ==> cloned::<(K, V)>(#[trigger] self@[i], copy@[i]),
    {
        Object { buffer: self.buffer.clone() }
    }
}

impl<K, V> Default for Object<K, V> {
    /// The object without entries.
    fn default() -> (object: Object<K, V>)
        ensures
            object@ == Seq::<(K, V)>::empty(),
    {
        Object { buffer: Vec::new() }
    }
}

/// Whether every entry of `left` has a partner in `right`: the first entry of
/// `right` whose key the left key equals holds a value that equals the left
/// value.
pub open spec fn entries_covered<K: PartialEq, V: PartialEq>(left: Seq<(K, V)>, right: Seq<(K, V)>) -> bool {
    forall|i: int| 0 <= i < left.len() ==> entry_covered(#[trigger] left[i], right)
}

/// Whether the first entry of `right` whose key the key of `entry` equals holds
/// a value that equals the value of `entry`.
pub open spec fn entry_covered<K: PartialEq, V: PartialEq>(entry: (K, V), right: Seq<(K, V)>) -> bool {
    match first_where(right, equalled_by(entry.0)) {
        Some(place) => right[place].1.eq_spec(&entry.1),
        None => false,
    }
}

/// What `==` on objects means: as many entries on either side, and every
/// entry of `left` covered by `right`.
pub open spec fn equal_entries<K: PartialEq, V: PartialEq>(left: Seq<(K, V)>, right: Seq<(K, V)>) -> bool {
    &&& left.len() == right.len()
    &&& entries_covered(left, right)
}

impl<K: PartialEq, V: PartialEq> PartialEq for Object<K, V> {
    /// Two objects are equal when they have the same number of entries and
    /// every entry of the first has a partner in the second, whatever the order
    /// of the entries.
    fn eq(&self, other: &Object<K, V>) -> (same: bool) {
        if self.buffer.len() != other.buffer.len() {
            return false;
        }
        let mut i: usize = 0;
        while i < self.buffer.len()
            invariant
                i <= self.buffer@.len(),
                self.buffer@.len() == other.buffer@.len(),
                K::obeys_eq_spec() && V::obeys_eq_spec() ==> forall|j: int|
                    0 <= j < i ==> entry_covered(#[trigger] self.buffer@[j], other.buffer@),
            decreases self.buffer@.len() - i,
        {
            let mut j: usize = 0;
            let mut partner: Option<usize> = None;
            while j < other.buffer.len() && partner.is_none()
                invariant
                    j <= other.buffer@.len(),
                    i < self.buffer@.len(),
                    K::obeys_eq_spec() && partner is None ==> forall|m: int|
                        0 <= m < j ==> !equalled_by(self.buffer@[i as int].0)((#[trigger] other.buffer@[m]).0),
                    K::obeys_eq_spec() ==> (partner matches Some(place) ==> {
                        &&& place < other.buffer@.len()
                        &&& equalled_by(self.buffer@[i as int].0)(other.buffer@[place as int].0)
                        &&& forall|m: int|
                            0 <= m < place ==> !equalled_by(self.buffer@[i as int].0)(
                                (#[trigger] other.buffer@[m]).0,
                            )
                    }),
                    partner matches Some(place) ==> place < other.buffer@.len(),
                decreases other.buffer@.len() - j + (if partner is None { 1nat } else { 0nat }),
            {
                if self.buffer[i].0 == other.buffer[j].0 {
                    partner = Some(j);
                } else {
                    j += 1;
                }
            }
            proof {
                lemma_first_where(other.buffer@, equalled_by(self.buffer@[i as int].0));
            }
            let covered = match partner {
                Some(place) => other.buffer[place].1 == self.buffer[i].1,
                None => false,
            };
            if !covered {
                return false;
            }
            i += 1;
        }
        true
    }
}

impl<K: PartialEq, V: PartialEq> PartialEqSpecImpl for Object<K, V> {
    open spec fn obeys_eq_spec() -> bool {
        K::obeys_eq_spec() && V::obeys_eq_spec()
    }

    open spec fn eq_spec(&self, other: &Object<K, V>) -> bool {
        equal_entries(self@, other@)
    }
}

impl<K: Eq, V: Eq> Eq for Object<K, V> {

}

impl<K: std::hash::Hash, V: std::hash::Hash> std::hash::Hash for Object<K, V> {
    /// Feeds nothing to the hasher: equal objects may hold their entries in
    /// different orders, and no entry is read for a hash.
    fn hash<H: std::hash::Hasher>(&self, state: &mut H)
        ensures
            *final(state) == *old(state),
    {
    }
}

/// Hands out the entries of an object one by one. Its view is what is still to
/// come.
pub struct IntoIter<K, V> {
    buffer: Vec<(K, V)>,
}

impl<K, V> View for IntoIter<K, V> {
    type V = Seq<(K, V)>;

    closed spec fn view(&self) -> Seq<(K, V)> {
        self.buffer@
    }
}

impl<K, V> IntoIter<K, V> {
    /// The next entry, or `None` when all have been handed out.
    pub fn next(&mut self) -> (entry: Option<(K, V)>)
        ensures
            old(self)@.len() > 0 ==> entry == Some(old(self)@[0]) && final(self)@ == old(self)@.drop_first(),
            old(self)@.len() == 0 ==> entry is None && final(self)@ == old(self)@,
    {
        if self.buffer.len() > 0 {
            let entry = self.buffer.remove(0);
            Some(entry)
        } else {
            None
        }
    }
}

/// Walks over references to the entries of an object.
pub struct Iter<'a, K: 'a, V: 'a> {
    object: &'a Object<K, V>,
    index: usize,
}

impl<'a, K, V> Iter<'a, K, V> {
    /// The object that is walked over.
    pub closed spec fn object(&self) -> &'a Object<K, V> {
        self.object
    }

    /// The place of the entry that comes next.
    pub closed spec fn position(&self) -> nat {
        self.index as nat
    }

    /// The next entry, or `None` behind the last one.
    pub fn next(&mut self) -> (entry: Option<(&'a K, &'a V)>)
        ensures
            final(self).object() == old(self).object(),
            old(self).position() < old(self).object()@.len() ==> {
                &&& entry == Some(
                    (
                        &old(self).object()@[old(self).position() as int].0,
                        &old(self).object()@[old(self).position() as int].1,
                    ),
                )
                &&& final(self).position() == old(self).position() + 1
            },
            old(self).position() >= old(self).object()@.len() ==> {
                &&& entry is None
                &&& final(self).position() == old(self).position()
            },
    {
        if self.index < self.object.len() {
            let entry = self.object.get_idx(self.index);
            self.index += 1;
            entry
        } else {
            None
        }
    }
}

// ---------------------------------------------------------------------------
// Equal objects hold the same pairs
// ---------------------------------------------------------------------------

/// Whether `==` on `T` is an equivalence among the values that `among` holds
/// of: each equals itself, equality can be turned around, and it carries over a
/// value in the middle.
pub open spec fn eq_is_equivalence_among<T: PartialEq>(among: spec_fn(T) -> bool) -> bool {
    &&& forall|x: T| among(x) ==> #[trigger] x.eq_spec(&x)
    &&& forall|x: T, y: T| among(x) && among(y) && #[trigger] x.eq_spec(&y) ==> y.eq_spec(&x)
    &&& forall|x: T, y: T, z: T|
        among(x) && among(y) && among(z) && #[trigger] x.eq_spec(&y) && #[trigger] y.eq_spec(&z) ==> x.eq_spec(&z)
}

/// Whether `keys` holds of every key of the list and `values` of every value.
pub open spec fn entries_among<K, V>(entries: Seq<(K, V)>, keys: spec_fn(K) -> bool, values: spec_fn(V) -> bool) -> bool {
    forall|i: int| 0 <= i < entries.len() ==> keys((#[trigger] entries[i]).0) && values(entries[i].1)
}

/// Whether the entry at `place` of `entries` is the pair of `key` and `value`,
/// up to equality.
pub open spec fn entry_at<K: PartialEq, V: PartialEq>(entries: Seq<(K, V)>, place: int, key: K, value: V) -> bool {
    0 <= place < entries.len() && key.eq_spec(&entries[place].0) && value.eq_spec(&entries[place].1)
}

/// Whether `entries` holds the pair of `key` and `value`, up to equality.
pub open spec fn has_entry<K: PartialEq, V: PartialEq>(entries: Seq<(K, V)>, key: K, value: V) -> bool {
    exists|place: int| #[trigger] entry_at(entries, place, key, value)
}

/// Whether `right` holds every pair of `left`, up to equality.
pub open spec fn has_entries_of<K: PartialEq, V: PartialEq>(right: Seq<(K, V)>, left: Seq<(K, V)>) -> bool {
    forall|i: int| 0 <= i < left.len() ==> has_entry(right, (#[trigger] left[i]).0, left[i].1)
}

/// If `right` holds every pair of `left` and the keys of each differ, `right`
/// has at least as many entries, and every entry of `left` is covered by
/// `right`.
proof fn lemma_entries_held<K: PartialEq, V: PartialEq>(
    left: Seq<(K, V)>,
    right: Seq<(K, V)>,
    keys: spec_fn(K) -> bool,
    values: spec_fn(V) -> bool,
)
    requires
        eq_is_equivalence_among(keys),
        eq_is_equivalence_among(values),
        entries_among(left, keys, values),
        entries_among(right, keys, values),
        distinct_keys(left),
        distinct_keys(right),
        has_entries_of(right, left),
    ensures
        left.len() <= right.len(),
        entries_covered(left, right),
{
    let to = |i: int| choose|place: int| #[trigger] entry_at(right, place, left[i].0, left[i].1);
    assert forall|i: int| 0 <= i < left.len() implies entry_at(right, #[trigger] to(i), left[i].0, left[i].1) by {
        assert(has_entry(right, left[i].0, left[i].1));
    }
    assert forall|i: int, j: int| 0 <= i < j < left.len() implies #[trigger] to(i) != #[trigger] to(j) by {
        assert(entry_at(right, to(i), left[i].0, left[i].1));
        assert(entry_at(right, to(j), left[j].0, left[j].1));
        if to(i) == to(j) {
            let shared = right[to(i)];
            assert(keys(left[i].0) && keys(left[j].0) && keys(shared.0));
            assert(shared.0.eq_spec(&left[j].0));
            assert(left[i].0.eq_spec(&left[j].0));
        }
    }
    assert forall|i: int| 0 <= i < left.len() implies 0 <= #[trigger] to(i) < right.len() by {
        assert(entry_at(right, to(i), left[i].0, left[i].1));
    }
    lemma_injective_fits(left.len(), right.len(), to);
    assert forall|i: int| 0 <= i < left.len() implies entry_covered(#[trigger] left[i], right) by {
        let held = to(i);
        assert(entry_at(right, held, left[i].0, left[i].1));
        assert(equalled_by(left[i].0)(right[held].0));
        lemma_first_where(right, equalled_by(left[i].0));
        let place = first_where(right, equalled_by(left[i].0))->Some_0;
        assert(keys(left[i].0) && keys(right[held].0) && keys(right[place].0));
        assert(values(left[i].1) && values(right[held].1));
        if place < held {
            assert(left[i].0.eq_spec(&right[place].0));
            assert(right[place].0.eq_spec(&left[i].0));
            assert(right[place].0.eq_spec(&right[held].0));
        }
        assert(right[held].1.eq_spec(&left[i].1));
    }
}

/// If two lists of entries with differing keys have the same length and
/// `right` covers every entry of `left`, each holds every pair of the other.
proof fn lemma_covered_entries_are_held<K: PartialEq, V: PartialEq>(
    left: Seq<(K, V)>,
    right: Seq<(K, V)>,
    keys: spec_fn(K) -> bool,
    values: spec_fn(V) -> bool,
)
    requires
        eq_is_equivalence_among(keys),
        eq_is_equivalence_among(values),
        entries_among(left, keys, values),
        entries_among(right, keys, values),
        distinct_keys(left),
        distinct_keys(right),
    ensures
        equal_entries(left, right) ==> has_entries_of(right, left) && has_entries_of(left, right),
{
    if equal_entries(left, right) {
        let to = |i: int| first_where(right, equalled_by(left[i].0))->Some_0;
        assert forall|i: int| 0 <= i < left.len() implies 0 <= #[trigger] to(i) < right.len() && entry_at(
            right,
            to(i),
            left[i].0,
            left[i].1,
        ) by {
            assert(entry_covered(left[i], right));
            lemma_first_where(right, equalled_by(left[i].0));
            assert(values(left[i].1) && values(right[to(i)].1));
            assert(right[to(i)].1.eq_spec(&left[i].1));
        }
        assert forall|i: int| 0 <= i < left.len() implies has_entry(right, (#[trigger] left[i]).0, left[i].1) by {
            assert(entry_at(right, to(i), left[i].0, left[i].1));
        }
        assert forall|i: int, j: int| 0 <= i < j < left.len() implies #[trigger] to(i) != #[trigger] to(j) by {
            assert(entry_at(right, to(i), left[i].0, left[i].1));
            assert(entry_at(right, to(j), left[j].0, left[j].1));
            if to(i) == to(j) {
                let shared = right[to(i)];
                assert(keys(left[i].0) && keys(left[j].0) && keys(shared.0));
                assert(shared.0.eq_spec(&left[j].0));
                assert(left[i].0.eq_spec(&left[j].0));
            }
        }
        lemma_injective_reaches_all(left.len(), to);
        assert forall|j: int| 0 <= j < right.len() implies has_entry(left, (#[trigger] right[j]).0, right[j].1) by {
            assert(reached(left.len(), to, j));
            let i = choose|i: int| 0 <= i < left.len() && #[trigger] to(i) == j;
            assert(entry_at(right, to(i), left[i].0, left[i].1));
            assert(keys(left[i].0) && keys(right[j].0));
            assert(values(left[i].1) && values(right[j].1));
            assert(right[j].0.eq_spec(&left[i].0));
            assert(right[j].1.eq_spec(&left[i].1));
            assert(entry_at(left, i, right[j].0, right[j].1));
        }
    }
}

/// Two objects whose keys differ are equal (`equal_entries`, which is what `==`
/// on objects means) exactly when each holds every pair of the other, up to
/// equality of keys and of values; and the equality of objects can be turned
/// around. The order of the entries plays no part. This holds for every type
/// of keys and of values on which `==` is an equivalence, at least among the
/// keys and the values of the two objects: `keys` and `values` say among
/// which.
pub proof fn lemma_equal_objects_hold_the_same_pairs<K: PartialEq, V: PartialEq>(
    left: Object<K, V>,
    right: Object<K, V>,
    keys: spec_fn(K) -> bool,
    values: spec_fn(V) -> bool,
)
    requires
        eq_is_equivalence_among(keys),
        eq_is_equivalence_among(values),
        entries_among(left@, keys, values),
        entries_among(right@, keys, values),
        left.well_formed(),
        right.well_formed(),
    ensures
        equal_entries(left@, right@) <==> has_entries_of(right@, left@) && has_entries_of(left@, right@),
        equal_entries(left@, right@) <==> equal_entries(right@, left@),
{
    lemma_covered_entries_are_held(left@, right@, keys, values);
    lemma_covered_entries_are_held(right@, left@, keys, values);
    if has_entries_of(right@, left@) && has_entries_of(left@, right@) {
        lemma_entries_held(left@, right@, keys, values);
        lemma_entries_held(right@, left@, keys, values);
    }
}

/// Two objects with the same entries in another order are equal, though they
/// hand their entries out in different orders.
pub proof fn lemma_reordered_objects_are_equal<K: PartialEq, V: PartialEq>(
    left: Object<K, V>,
    right: Object<K, V>,
    keys: spec_fn(K) -> bool,
    values: spec_fn(V) -> bool,
)
    requires
        eq_is_equivalence_among(keys),
        eq_is_equivalence_among(values),
        entries_among(left@, keys, values),
        entries_among(right@, keys, values),
        left.well_formed(),
        right.well_formed(),
        forall|i: int| 0 <= i < left@.len() ==> right@.contains(#[trigger] left@[i]),
        forall|i: int| 0 <= i < right@.len() ==> left@.contains(#[trigger] right@[i]),
    ensures
        equal_entries(left@, right@),
        equal_entries(right@, left@),
{
    assert forall|i: int| 0 <= i < left@.len() implies has_entry(right@, (#[trigger] left@[i]).0, left@[i].1) by {
        assert(right@.contains(left@[i]));
        let place = choose|place: int| 0 <= place < right@.len() && right@[place] == left@[i];
        assert(keys(left@[i].0) && values(left@[i].1));
        assert(entry_at(right@, place, left@[i].0, left@[i].1));
    }
    assert forall|i: int| 0 <= i < right@.len() implies has_entry(left@, (#[trigger] right@[i]).0, right@[i].1) by {
        assert(left@.contains(right@[i]));
        let place = choose|place: int| 0 <= place < left@.len() && left@[place] == right@[i];
        assert(keys(right@[i].0) && values(right@[i].1));
        assert(entry_at(left@, place, right@[i].0, right@[i].1));
    }
    lemma_equal_objects_hold_the_same_pairs(left, right, keys, values);
}

} // verus!
