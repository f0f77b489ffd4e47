use jqsh::lang::value::array::Array;
use jqsh::lang::value::object::Object;
use jqsh::lang::value::{HashItem, HashableValue, Value};
use jqsh::util::Labeled;
use std::collections::hash_map::DefaultHasher;
use std::collections::HashMap;
use std::hash::{Hash, Hasher};

fn text(s: &str) -> HashableValue {
    HashableValue::String(s.to_string())
}

fn number_object(pairs: &[(&str, i64)]) -> Object<HashableValue, HashableValue> {
    let mut object = Object::new();
    for (key, value) in pairs {
        object.insert(text(key), HashableValue::Number(*value));
    }
    object
}

fn hash_of<T: Hash>(value: &T) -> u64 {
    let mut hasher = DefaultHasher::new();
    value.hash(&mut hasher);
    hasher.finish()
}

#[test]
fn test_values() {
    let mut array_map: HashMap<Array<HashableValue>, &str> = HashMap::new();
    array_map.insert(Array::from(vec![HashableValue::Boolean(false), HashableValue::Null]), "test 1");
    array_map.insert(Array::new(), "test 2");
    assert_eq!(array_map.len(), 2);
    assert_eq!(
        array_map.get(&Array::from(vec![HashableValue::Boolean(false), HashableValue::Null])),
        Some(&"test 1")
    );
    assert_eq!(array_map.get(&Array::new()), Some(&"test 2"));
    assert_eq!(array_map.get(&Array::from(vec![HashableValue::Boolean(false)])), None);
}

#[test]
fn array_get_and_len() {
    let array = Array::from(vec![10, 20, 30]);
    assert_eq!(array.len(), 3);
    assert_eq!(array.get(0), Some(&10));
    assert_eq!(array.get(2), Some(&30));
    assert_eq!(array.get(3), None);
    let empty: Array<u8> = Array::new();
    assert_eq!(empty.len(), 0);
    assert_eq!(empty.get(0), None);
    let also_empty: Array<u8> = Array::default();
    assert_eq!(also_empty.len(), 0);
}

#[test]
fn array_iterators_walk_in_order_and_stop() {
    let mut array = Array::from(vec!['a', 'b']);
    array.push('c');
    let mut iter = array.iter();
    assert_eq!(iter.next(), Some(&'a'));
    assert_eq!(iter.next(), Some(&'b'));
    assert_eq!(iter.next(), Some(&'c'));
    assert_eq!(iter.next(), None);
    assert_eq!(iter.next(), None);
    let mut owned = array.into_iter();
    assert_eq!(owned.next(), Some('a'));
    assert_eq!(owned.next(), Some('b'));
    assert_eq!(owned.next(), Some('c'));
    assert_eq!(owned.next(), None);
}

#[test]
fn array_equality_is_by_place() {
    assert!(Array::from(vec![1, 2]) == Array::from(vec![1, 2]));
    assert!(Array::from(vec![1, 2]) != Array::from(vec![2, 1]));
    assert!(Array::from(vec![1, 2]) != Array::from(vec![1]));
    assert!(Array::<u8>::new() == Array::new());
}

#[test]
fn array_hash_feeds_exactly_the_first_item() {
    assert_eq!(hash_of(&Array::from(vec![7u8, 1, 2])), hash_of(&7u8));
    assert_eq!(hash_of(&Array::from(vec!["a", "b"])), hash_of(&"a"));
    assert_eq!(hash_of(&Array::<u8>::new()), DefaultHasher::new().finish());
    let nested = Array::from(vec![HashableValue::Number(3), HashableValue::Null]);
    assert_eq!(hash_of(&nested), hash_of(&HashableValue::Number(3)));
}

#[test]
fn hashable_value_hash_feeds_its_hash_items() {
    let value = HashableValue::Array(Array::from(vec![text("first"), text("unseen")]));
    assert_eq!(hash_of(&value), hash_of(&value.hash_items()));
    let other = HashableValue::Array(Array::from(vec![text("first"), HashableValue::Null, HashableValue::Null]));
    assert_eq!(hash_of(&value), hash_of(&other));
    assert_ne!(hash_of(&value), hash_of(&HashableValue::Array(Array::new())));
}

#[test]
fn array_hash_takes_in_the_first_item_only() {
    assert_eq!(hash_of(&Array::from(vec![7, 1, 2])), hash_of(&Array::from(vec![7, 9])));
    assert_eq!(Array::from(vec![7, 1, 2]).hash_prefix(), Some(&7));
    assert_eq!(Array::<u8>::new().hash_prefix(), None);
    assert_ne!(hash_of(&Array::from(vec![7u8])), hash_of(&Array::<u8>::new()));
}

#[test]
fn object_insert_appends_new_keys() {
    let mut object: Object<HashableValue, Value> = Object::default();
    assert_eq!(object.len(), 0);
    assert!(object.get_idx(0).is_none());
    assert!(object.insert(text("a"), Value::Number(1)).is_none());
    assert!(object.insert(text("b"), Value::Number(2)).is_none());
    assert_eq!(object.len(), 2);
    let (key, value) = object.get_idx(1).unwrap();
    assert!(*key == text("b"));
    assert!(matches!(value, Value::Number(2)));
    assert!(object.get_idx(2).is_none());
}

#[test]
fn object_insert_of_a_present_key_replaces_in_place() {
    let mut object = number_object(&[("a", 1), ("b", 2), ("c", 3)]);
    let replaced = object.insert(text("a"), HashableValue::Number(10));
    assert!(replaced == Some(HashableValue::Number(1)));
    assert_eq!(object.len(), 3);
    let (key, value) = object.get_idx(0).unwrap();
    assert!(*key == text("a"));
    assert!(*value == HashableValue::Number(10));
    let (key, value) = object.get_idx(1).unwrap();
    assert!(*key == text("b"));
    assert!(*value == HashableValue::Number(2));
    assert_eq!(HashableValue::Object(object).to_string(), "{\"a\": 10, \"b\": 2, \"c\": 3}");
}

#[test]
fn objects_are_equal_whatever_the_order_but_iterate_in_their_own() {
    let forward = number_object(&[("a", 1), ("b", 2)]);
    let backward = number_object(&[("b", 2), ("a", 1)]);
    assert!(forward == backward);
    assert!(backward == forward);
    let mut first = forward.iter();
    let mut second = backward.iter();
    assert!(*first.next().unwrap().0 == text("a"));
    assert!(*second.next().unwrap().0 == text("b"));
    assert!(*first.next().unwrap().0 == text("b"));
    assert!(*second.next().unwrap().0 == text("a"));
    assert!(first.next().is_none());
    assert!(second.next().is_none());
    assert!(HashableValue::Object(forward) == HashableValue::Object(backward));
}

#[test]
fn objects_with_other_pairs_differ() {
    let base = number_object(&[("a", 1), ("b", 2)]);
    assert!(base != number_object(&[("a", 1), ("b", 3)]));
    assert!(base != number_object(&[("a", 1), ("c", 2)]));
    assert!(base != number_object(&[("a", 1)]));
    assert!(base != number_object(&[("a", 1), ("b", 2), ("c", 3)]));
    assert!(number_object(&[]) == number_object(&[]));
}

#[test]
fn object_from_pairs_enters_them_one_by_one() {
    let object = Object::from_pairs(vec![
        (text("x"), 1),
        (text("y"), 2),
        (text("x"), 3),
    ]);
    assert_eq!(object.len(), 2);
    let (key, value) = object.get_idx(0).unwrap();
    assert!(*key == text("x"));
    assert_eq!(*value, 3);
    let pairs = object.into_pairs();
    assert_eq!(pairs.len(), 2);
    assert!(pairs[1].0 == text("y"));
    assert_eq!(pairs[1].1, 2);
}

#[test]
fn object_into_iter_hands_out_in_insertion_order() {
    let mut source = number_object(&[("k", 1), ("j", 2)]).into_iter();
    assert!(source.next() == Some((text("k"), HashableValue::Number(1))));
    assert!(source.next() == Some((text("j"), HashableValue::Number(2))));
    assert!(source.next().is_none());
    assert!(source.next().is_none());
}

#[test]
fn hashable_equality_by_kind() {
    assert!(HashableValue::Null == HashableValue::Null);
    assert!(HashableValue::Null != HashableValue::Boolean(false));
    assert!(HashableValue::Boolean(true) == HashableValue::Boolean(true));
    assert!(HashableValue::Boolean(true) != HashableValue::Boolean(false));
    assert!(HashableValue::Number(3) == HashableValue::Number(3));
    assert!(HashableValue::Number(3) != HashableValue::Number(-3));
    assert!(text("a") == text("a"));
    assert!(text("a") != text("b"));
    assert!(text("1") != HashableValue::Number(1));
    let nested = |n: i64| HashableValue::Array(Array::from(vec![HashableValue::Number(n), text("t")]));
    assert!(nested(1) == nested(1));
    assert!(nested(1) != nested(2));
    assert!(nested(1) != HashableValue::Array(Array::from(vec![HashableValue::Number(1)])));
}

#[test]
fn exceptions_are_equal_when_their_names_are() {
    let mut meta: Object<HashableValue, Value> = Object::new();
    meta.insert(text("line"), Value::Number(3));
    let with_meta = HashableValue::Exception("oops".to_string(), meta);
    let without = HashableValue::Exception("oops".to_string(), Object::new());
    let other = HashableValue::Exception("other".to_string(), Object::new());
    assert!(with_meta == without);
    assert!(with_meta != other);
    assert_eq!(hash_of(&with_meta), hash_of(&without));
}

#[test]
fn equal_values_hash_alike() {
    let forward = HashableValue::Object(number_object(&[("a", 1), ("b", 2)]));
    let backward = HashableValue::Object(number_object(&[("b", 2), ("a", 1)]));
    assert_eq!(hash_of(&forward), hash_of(&backward));
    assert_eq!(hash_of(&text("a")), hash_of(&text("a")));
    assert_ne!(hash_of(&text("a")), hash_of(&text("b")));
    assert_ne!(hash_of(&HashableValue::Number(1)), hash_of(&HashableValue::Number(2)));
    assert_ne!(hash_of(&HashableValue::Null), hash_of(&HashableValue::Boolean(false)));
}

#[test]
fn hash_items_hold_a_bounded_prefix() {
    let long = HashableValue::Array(Array::from(vec![
        HashableValue::Array(Array::from(vec![HashableValue::Number(5), text("unseen")])),
        text("unseen too"),
    ]));
    let items = long.hash_items();
    assert_eq!(items.len(), 4);
    assert!(matches!(items[0], HashItem::Tag(5)));
    assert!(matches!(items[1], HashItem::Tag(5)));
    assert!(matches!(items[2], HashItem::Tag(3)));
    assert!(matches!(items[3], HashItem::Number(5)));
    let empty = HashableValue::Array(Array::new()).hash_items();
    assert_eq!(empty.len(), 1);
    let named = HashableValue::Exception("e".to_string(), Object::new()).hash_items();
    assert!(matches!(named[0], HashItem::Tag(0)));
    assert!(matches!(&named[1], HashItem::Text(name) if name == "e"));
    assert!(matches!(HashableValue::Null.hash_items()[0], HashItem::Tag(1)));
    assert!(matches!(HashableValue::Boolean(true).hash_items()[1], HashItem::Boolean(true)));
    assert!(matches!(&text("s").hash_items()[1], HashItem::Text(s) if s == "s"));
    assert!(matches!(HashableValue::Object(number_object(&[("a", 1)])).hash_items()[0], HashItem::Tag(6)));
    assert_eq!(HashableValue::Object(number_object(&[("a", 1)])).hash_items().len(), 1);
}

#[test]
fn display_of_scalars() {
    assert_eq!(Value::Null.to_string(), "null");
    assert_eq!(Value::Boolean(true).to_string(), "true");
    assert_eq!(Value::Boolean(false).to_string(), "false");
    assert_eq!(Value::Function.to_string(), "def (...)");
    assert_eq!(Value::String("plain".to_string()).to_string(), "\"plain\"");
    assert_eq!(Value::String("a \"b\"\n\\".to_string()).to_string(), "\"a \\\"b\\\"\\n\\\\\"");
    assert_eq!(Value::String(String::new()).to_string(), "\"\"");
}

#[test]
fn display_of_numbers() {
    assert_eq!(Value::Number(0).to_string(), "0");
    assert_eq!(Value::Number(7).to_string(), "7");
    assert_eq!(Value::Number(10).to_string(), "10");
    assert_eq!(Value::Number(-1).to_string(), "-1");
    assert_eq!(Value::Number(1234567890).to_string(), "1234567890");
    assert_eq!(Value::Number(i64::MAX).to_string(), "9223372036854775807");
    assert_eq!(Value::Number(i64::MIN).to_string(), "-9223372036854775808");
    assert_eq!(HashableValue::Number(-305).to_string(), "-305");
}

#[test]
fn display_of_arrays_and_objects() {
    let array = Value::Array(Array::from(vec![Value::Number(1), Value::Null, Value::String("x".to_string())]));
    assert_eq!(array.to_string(), "[1, null, \"x\"]");
    assert_eq!(Value::Array(Array::new()).to_string(), "[]");
    let mut object: Object<HashableValue, Value> = Object::new();
    assert_eq!(Value::Object(object.clone()).to_string(), "{}");
    object.insert(text("b"), Value::Boolean(true));
    object.insert(HashableValue::Number(2), array);
    object.insert(HashableValue::Null, Value::Function);
    assert_eq!(
        Value::Object(object).to_string(),
        "{\"b\": true, 2: [1, null, \"x\"], null: def (...)}"
    );
}

#[test]
fn display_of_exceptions() {
    let mut meta: Object<HashableValue, Value> = Object::new();
    assert_eq!(Value::Exception("syntax".to_string(), meta.clone()).to_string(), "raise \"syntax\"");
    meta.insert(text("line"), Value::Number(3));
    meta.insert(text("near"), Value::String("@".to_string()));
    assert_eq!(
        Value::Exception("syntax".to_string(), meta.clone()).to_string(),
        "raise \"syntax\" {\"line\": 3, \"near\": \"@\"}"
    );
    assert_eq!(
        HashableValue::Exception("syntax".to_string(), meta).to_string(),
        "raise \"syntax\" {\"line\": 3, \"near\": \"@\"}"
    );
}

#[test]
fn display_of_hashable_values() {
    let nested = HashableValue::Array(Array::from(vec![
        HashableValue::Object(number_object(&[("z", 26), ("a", 1)])),
        HashableValue::Boolean(false),
    ]));
    assert_eq!(nested.to_string(), "[{\"z\": 26, \"a\": 1}, false]");
    assert_eq!(HashableValue::Null.to_string(), "null");
    assert_eq!(text("q").to_string(), "\"q\"");
}

#[test]
fn widening_keeps_content_and_order() {
    let mut meta: Object<HashableValue, Value> = Object::new();
    meta.insert(text("why"), Value::Function);
    let samples = vec![
        HashableValue::Null,
        HashableValue::Boolean(true),
        HashableValue::Number(-12),
        text("s"),
        HashableValue::Exception("e".to_string(), meta),
        HashableValue::Array(Array::from(vec![HashableValue::Number(1), text("two")])),
        HashableValue::Object(number_object(&[("z", 1), ("y", 2), ("x", 3)])),
    ];
    for sample in samples {
        let shown = sample.to_string();
        assert_eq!(Value::from(&sample).to_string(), shown);
        assert_eq!(Value::from(sample).to_string(), shown);
    }
}

#[test]
fn widening_gives_values_of_the_same_kind() {
    assert!(matches!(Value::from(HashableValue::Null), Value::Null));
    assert!(matches!(Value::from(HashableValue::Boolean(true)), Value::Boolean(true)));
    assert!(matches!(Value::from(HashableValue::Number(4)), Value::Number(4)));
    assert!(matches!(Value::from(text("t")), Value::String(s) if s == "t"));
    match Value::from(HashableValue::Object(number_object(&[("z", 1), ("a", 2)]))) {
        Value::Object(object) => {
            assert_eq!(object.len(), 2);
            let (key, value) = object.get_idx(0).unwrap();
            assert!(*key == text("z"));
            assert!(matches!(value, Value::Number(1)));
            let (key, value) = object.get_idx(1).unwrap();
            assert!(*key == text("a"));
            assert!(matches!(value, Value::Number(2)));
        }
        other => panic!("unexpected value {:?}", other),
    }
    match Value::from(HashableValue::Array(Array::from(vec![HashableValue::Null, text("u")]))) {
        Value::Array(array) => {
            assert_eq!(array.len(), 2);
            assert!(matches!(array.get(0), Some(Value::Null)));
            assert!(matches!(array.get(1), Some(Value::String(s)) if s == "u"));
        }
        other => panic!("unexpected value {:?}", other),
    }
}

#[test]
fn clones_are_deep_and_equal() {
    let first = HashableValue::Object(number_object(&[("a", 1), ("b", 2)]));
    let copy = first.clone();
    assert!(copy == first);
    assert_eq!(copy.to_string(), first.to_string());
    let value = Value::Array(Array::from(vec![Value::Function, Value::String("s".to_string())]));
    assert_eq!(value.clone().to_string(), "[def (...), \"s\"]");
}

#[test]
fn labeled_keeps_label_and_value() {
    let mut labeled = Labeled::new("answer", 42);
    assert_eq!(labeled.label().as_str(), "answer");
    assert_eq!(*labeled.get(), 42);
    labeled.set(43);
    assert_eq!(*labeled.get(), 43);
    assert_eq!(labeled.label().as_str(), "answer");
    assert_eq!(labeled.into_inner(), 43);
    let unlabeled = Labeled::from('x');
    assert_eq!(unlabeled.label().as_str(), "");
    assert_eq!(*unlabeled.get(), 'x');
}

#[test]
fn object_equality_over_plain_keys_ignores_order_both_ways() {
    let forward = Object::from_pairs(vec![(1u8, 'a'), (2, 'b'), (3, 'c')]);
    let backward = Object::from_pairs(vec![(3u8, 'c'), (1, 'a'), (2, 'b')]);
    let other = Object::from_pairs(vec![(3u8, 'c'), (1, 'a'), (2, 'x')]);
    assert!(forward == backward);
    assert!(backward == forward);
    assert!(forward != other);
    assert!(other != forward);
    assert_eq!(hash_of(&forward), hash_of(&backward));
    assert_eq!(hash_of(&forward), DefaultHasher::new().finish());
}

#[test]
fn object_insert_says_what_it_replaced() {
    let mut object = Object::from_pairs(vec![(1u8, 'a'), (2, 'b')]);
    assert_eq!(object.insert(2, 'z'), Some('b'));
    assert_eq!(object.insert(3, 'c'), None);
    assert_eq!(object.into_pairs(), vec![(1, 'a'), (2, 'z'), (3, 'c')]);
}
