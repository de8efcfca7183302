use std::collections::{HashMap, HashSet};

use itf_trace::bigint::is_literal;
use itf_trace::decode::{decode, decode_bigint, decode_node, DecodeError, Shape, Slot};
use itf_trace::itf::Itf;
use itf_trace::json::Json;
use itf_trace::value::{member, pair_member, Decoded};
use num_bigint::BigInt;

fn tagged(tag: &str, payload: Json) -> Json {
    Json::Object(vec![(tag.to_string(), payload)])
}

fn ints(ns: &[i64]) -> Json {
    Json::Array(ns.iter().map(|n| Json::Int(*n)).collect())
}

fn text(s: &str) -> Json {
    Json::Str(s.to_string())
}

fn big(s: &str) -> Json {
    tagged("#bigint", text(s))
}

fn int_set(d: &Decoded) -> HashSet<i64> {
    match d {
        Decoded::SetOf(items) => items
            .iter()
            .map(|e| match e {
                Decoded::Int(n) => *n,
                other => panic!("not an integer: {:?}", other),
            })
            .collect(),
        other => panic!("not a set: {:?}", other),
    }
}

fn string_int_map(d: &Decoded) -> HashMap<String, i64> {
    match d {
        Decoded::MapOf(pairs) => pairs
            .iter()
            .map(|p| match p {
                (Decoded::Str(k), Decoded::Int(v)) => (k.clone(), *v),
                other => panic!("not a string and an integer: {:?}", other),
            })
            .collect(),
        other => panic!("not a map: {:?}", other),
    }
}

fn big_value(d: &Decoded) -> BigInt {
    match d {
        Decoded::BigInt(b) => b.clone(),
        other => panic!("not a big integer: {:?}", other),
    }
}

fn set_of(shape: Shape) -> Shape {
    Shape::SetOf(Box::new(shape))
}

fn map_of(key: Shape, val: Shape) -> Shape {
    Shape::MapOf(Box::new(key), Box::new(val))
}

fn at(index: usize, slot: Slot, cause: DecodeError) -> DecodeError {
    DecodeError::At { index, slot, cause: Box::new(cause) }
}

#[test]
fn deserialize_set() {
    let json = tagged("#set", ints(&[1, 2, 3, 4]));

    let set = decode(&json, &set_of(Shape::Int)).unwrap();
    let elems = [1_i64, 2, 3, 4].into_iter().collect::<HashSet<_>>();

    assert_eq!(int_set(&set.0), elems);
}

#[test]
fn deserialize_map() {
    let json = tagged(
        "#map",
        Json::Array(vec![
            Json::Array(vec![text("hello"), Json::Int(1)]),
            Json::Array(vec![text("world"), Json::Int(2)]),
        ]),
    );

    let map = decode(&json, &map_of(Shape::Str, Shape::Int)).unwrap();
    let elems = [("hello".to_string(), 1), ("world".to_string(), 2)]
        .into_iter()
        .collect::<HashMap<_, _>>();

    assert_eq!(string_int_map(&map.0), elems);
}

#[test]
fn deserialize_bigint_int() {
    let json = Json::Int(1024);

    let bigint = decode(&json, &Shape::BigInt).unwrap();
    assert_eq!(big_value(&bigint.0), BigInt::from(1024));
}

#[test]
fn deserialize_bigint() {
    let json = big("1234567891011121314151617181920");

    let bigint = decode(&json, &Shape::BigInt).unwrap();
    assert_eq!(
        big_value(&bigint.0),
        "1234567891011121314151617181920".parse::<BigInt>().unwrap()
    );
}

#[test]
fn deserialize_tuple() {
    let json = tagged(
        "#tup",
        Json::Array(vec![
            big("1234567891011121314151617181920"),
            Json::Int(1234),
            text("Hello world"),
            Json::Bool(true),
        ]),
    );
    let shape = Shape::Tuple(vec![Shape::BigInt, Shape::Int, Shape::Str, Shape::Bool]);

    let tuple = decode(&json, &shape).unwrap();

    match tuple.value() {
        Decoded::Tuple(items) => {
            assert_eq!(items.len(), 4);
            assert_eq!(
                big_value(&items[0]),
                "1234567891011121314151617181920".parse::<BigInt>().unwrap()
            );
            assert!(matches!(&items[1], Decoded::Int(1234)));
            assert!(matches!(&items[2], Decoded::Str(s) if s == "Hello world"));
            assert!(matches!(&items[3], Decoded::Bool(true)));
        }
        other => panic!("not a tuple: {:?}", other),
    }
}

#[test]
fn set_collapses_duplicates() {
    let json = tagged("#set", ints(&[1, 2, 2, 3, 4]));
    let set = decode(&json, &set_of(Shape::Int)).unwrap();
    match &set.0 {
        Decoded::SetOf(items) => assert_eq!(items.len(), 4),
        other => panic!("not a set: {:?}", other),
    }
    assert_eq!(int_set(&set.0), [1_i64, 2, 3, 4].into_iter().collect::<HashSet<_>>());
}

#[test]
fn set_keeps_first_occurrences_in_order() {
    let json = tagged("#set", ints(&[3, 1, 3, 2, 1]));
    let set = decode(&json, &set_of(Shape::Int)).unwrap();
    match set.value() {
        Decoded::SetOf(items) => {
            assert_eq!(items.len(), 3);
            assert!(matches!(items[0], Decoded::Int(3)));
            assert!(matches!(items[1], Decoded::Int(1)));
            assert!(matches!(items[2], Decoded::Int(2)));
        }
        other => panic!("not a set: {:?}", other),
    }
}

#[test]
fn set_order_does_not_matter() {
    let shape = set_of(Shape::Int);
    let a = decode(&tagged("#set", ints(&[1, 2, 2, 3, 4])), &shape).unwrap();
    let b = decode(&tagged("#set", ints(&[4, 3, 2, 1, 2])), &shape).unwrap();
    assert!(a.0.same_as(&b.0));
    assert!(b.0.same_as(&a.0));
    let c = decode(&tagged("#set", ints(&[4, 3, 2, 1, 5])), &shape).unwrap();
    assert!(!a.0.same_as(&c.0));
}

#[test]
fn empty_set_and_map_decode() {
    let set = decode(&tagged("#set", ints(&[])), &set_of(Shape::Int)).unwrap();
    assert!(matches!(&set.0, Decoded::SetOf(items) if items.is_empty()));
    let map = decode(&tagged("#map", ints(&[])), &map_of(Shape::Str, Shape::Int)).unwrap();
    assert!(matches!(&map.0, Decoded::MapOf(pairs) if pairs.is_empty()));
}

#[test]
fn map_last_write_wins() {
    let json = tagged(
        "#map",
        Json::Array(vec![
            Json::Array(vec![text("k"), Json::Int(1)]),
            Json::Array(vec![text("k"), Json::Int(2)]),
        ]),
    );
    let map = decode(&json, &map_of(Shape::Str, Shape::Int)).unwrap();
    match &map.0 {
        Decoded::MapOf(pairs) => {
            assert_eq!(pairs.len(), 1);
            assert!(matches!(&pairs[0], (Decoded::Str(k), Decoded::Int(2)) if k == "k"));
        }
        other => panic!("not a map: {:?}", other),
    }
}

#[test]
fn map_overwrite_keeps_the_place_of_the_key() {
    let json = tagged(
        "#map",
        Json::Array(vec![
            Json::Array(vec![Json::Int(1), Json::Int(10)]),
            Json::Array(vec![Json::Int(2), Json::Int(20)]),
            Json::Array(vec![Json::Int(1), Json::Int(30)]),
        ]),
    );
    let map = decode(&json, &map_of(Shape::Int, Shape::Int)).unwrap();
    match &map.0 {
        Decoded::MapOf(pairs) => {
            assert_eq!(pairs.len(), 2);
            assert!(matches!(&pairs[0], (Decoded::Int(1), Decoded::Int(30))));
            assert!(matches!(&pairs[1], (Decoded::Int(2), Decoded::Int(20))));
        }
        other => panic!("not a map: {:?}", other),
    }
}

#[test]
fn tuple_of_wrong_length_is_an_arity_mismatch() {
    let json = tagged("#tup", ints(&[1, 2]));
    let shape = Shape::Tuple(vec![Shape::Int, Shape::Int, Shape::Int]);
    assert_eq!(
        decode(&json, &shape).unwrap_err(),
        DecodeError::ArityMismatch { expected: 3, found: 2 }
    );
}

#[test]
fn missing_tag_is_a_shape_mismatch() {
    let json = tagged("foo", ints(&[]));
    assert_eq!(decode(&json, &set_of(Shape::Int)).unwrap_err(), DecodeError::ShapeMismatch);
    assert_eq!(
        decode(&json, &map_of(Shape::Int, Shape::Int)).unwrap_err(),
        DecodeError::ShapeMismatch
    );
    assert_eq!(decode(&json, &Shape::Tuple(vec![])).unwrap_err(), DecodeError::ShapeMismatch);
    assert_eq!(decode(&json, &Shape::BigInt).unwrap_err(), DecodeError::ShapeMismatch);
}

#[test]
fn extra_key_beside_the_tag_is_a_shape_mismatch() {
    let json = Json::Object(vec![
        ("#set".to_string(), ints(&[1])),
        ("other".to_string(), Json::Null),
    ]);
    assert_eq!(decode(&json, &set_of(Shape::Int)).unwrap_err(), DecodeError::ShapeMismatch);
    let empty = Json::Object(vec![]);
    assert_eq!(decode(&empty, &set_of(Shape::Int)).unwrap_err(), DecodeError::ShapeMismatch);
}

#[test]
fn payload_that_is_no_array_is_a_shape_mismatch() {
    let json = tagged("#set", Json::Int(1));
    assert_eq!(decode(&json, &set_of(Shape::Int)).unwrap_err(), DecodeError::ShapeMismatch);
    assert_eq!(decode(&ints(&[1]), &set_of(Shape::Int)).unwrap_err(), DecodeError::ShapeMismatch);
    let wrong_tag = tagged("#map", ints(&[]));
    assert_eq!(decode(&wrong_tag, &set_of(Shape::Int)).unwrap_err(), DecodeError::ShapeMismatch);
}

#[test]
fn scalars_decode_directly() {
    assert!(matches!(decode(&Json::Int(-7), &Shape::Int).unwrap().0, Decoded::Int(-7)));
    assert!(matches!(decode(&Json::Bool(false), &Shape::Bool).unwrap().0, Decoded::Bool(false)));
    assert!(matches!(decode(&text("a"), &Shape::Str).unwrap().0, Decoded::Str(s) if s == "a"));
}

#[test]
fn scalar_of_another_kind_is_a_type_mismatch() {
    assert_eq!(decode(&text("1"), &Shape::Int).unwrap_err(), DecodeError::TypeMismatch);
    assert_eq!(decode(&Json::Int(1), &Shape::Bool).unwrap_err(), DecodeError::TypeMismatch);
    assert_eq!(decode(&Json::Null, &Shape::Str).unwrap_err(), DecodeError::TypeMismatch);
    assert_eq!(decode(&Json::OtherNumber, &Shape::Int).unwrap_err(), DecodeError::TypeMismatch);
}

#[test]
fn bigint_number_and_literal_agree() {
    for n in [0_i64, 7, -7, 1024, i64::MAX, i64::MIN] {
        let a = decode(&Json::Int(n), &Shape::BigInt).unwrap();
        let b = decode(&big(&n.to_string()), &Shape::BigInt).unwrap();
        assert!(a.0.same_as(&b.0));
        assert_eq!(big_value(&a.0), BigInt::from(n));
        assert_eq!(big_value(&b.0), BigInt::from(n));
    }
}

#[test]
fn bigint_literal_with_leading_zeros() {
    let d = decode_bigint(&big("-0042")).unwrap();
    assert_eq!(big_value(&d), BigInt::from(-42));
    let zero = decode_bigint(&big("-0")).unwrap();
    assert_eq!(big_value(&zero), BigInt::from(0));
}

#[test]
fn malformed_bigint_literals() {
    for s in ["", "-", "12a", "+5", "1_000", " 1", "--1", "1.0", "0x10", "١٢"] {
        assert_eq!(
            decode(&big(s), &Shape::BigInt).unwrap_err(),
            DecodeError::MalformedBigInt,
            "{:?}",
            s
        );
    }
}

#[test]
fn bigint_of_another_kind_is_a_shape_mismatch() {
    assert_eq!(decode(&text("12"), &Shape::BigInt).unwrap_err(), DecodeError::ShapeMismatch);
    assert_eq!(
        decode(&tagged("#bigint", Json::Int(12)), &Shape::BigInt).unwrap_err(),
        DecodeError::ShapeMismatch
    );
    assert_eq!(decode(&Json::OtherNumber, &Shape::BigInt).unwrap_err(), DecodeError::ShapeMismatch);
}

#[test]
fn literal_grammar() {
    assert!(is_literal("0"));
    assert!(is_literal("-1"));
    assert!(is_literal("1234567891011121314151617181920"));
    assert!(!is_literal(""));
    assert!(!is_literal("-"));
    assert!(!is_literal("1-"));
    assert!(!is_literal("+1"));
    assert!(!is_literal("1 "));
}

#[test]
fn nested_failure_names_its_position() {
    let json = tagged("#set", Json::Array(vec![Json::Int(1), text("x"), Json::Bool(true)]));
    assert_eq!(
        decode(&json, &set_of(Shape::Int)).unwrap_err(),
        at(1, Slot::Item, DecodeError::TypeMismatch)
    );
    let tup = tagged("#tup", Json::Array(vec![Json::Int(1), big("x")]));
    assert_eq!(
        decode(&tup, &Shape::Tuple(vec![Shape::Int, Shape::BigInt])).unwrap_err(),
        at(1, Slot::Item, DecodeError::MalformedBigInt)
    );
}

#[test]
fn map_failures_name_key_or_value() {
    let shape = map_of(Shape::Str, Shape::Int);
    let bad_key = tagged("#map", Json::Array(vec![Json::Array(vec![Json::Int(1), Json::Int(1)])]));
    assert_eq!(
        decode(&bad_key, &shape).unwrap_err(),
        at(0, Slot::Key, DecodeError::TypeMismatch)
    );
    let bad_val = tagged(
        "#map",
        Json::Array(vec![
            Json::Array(vec![text("a"), Json::Int(1)]),
            Json::Array(vec![text("b"), text("c")]),
        ]),
    );
    assert_eq!(
        decode(&bad_val, &shape).unwrap_err(),
        at(1, Slot::Val, DecodeError::TypeMismatch)
    );
}

#[test]
fn map_pair_of_wrong_length() {
    let shape = map_of(Shape::Str, Shape::Int);
    let three = tagged(
        "#map",
        Json::Array(vec![Json::Array(vec![text("a"), Json::Int(1), Json::Int(2)])]),
    );
    assert_eq!(
        decode(&three, &shape).unwrap_err(),
        at(0, Slot::Item, DecodeError::ArityMismatch { expected: 2, found: 3 })
    );
    let no_pair = tagged("#map", Json::Array(vec![text("a")]));
    assert_eq!(
        decode(&no_pair, &shape).unwrap_err(),
        at(0, Slot::Item, DecodeError::ShapeMismatch)
    );
}

#[test]
fn first_failure_in_document_order_is_reported() {
    let json = tagged("#tup", Json::Array(vec![text("x"), text("y")]));
    assert_eq!(
        decode(&json, &Shape::Tuple(vec![Shape::Int, Shape::Int])).unwrap_err(),
        at(0, Slot::Item, DecodeError::TypeMismatch)
    );
}

#[test]
fn nested_containers_decode() {
    let inner_map = |k: i64, v: &str| {
        tagged("#map", Json::Array(vec![Json::Array(vec![Json::Int(k), text(v)])]))
    };
    let tuple = |k: i64, v: &str| tagged("#tup", Json::Array(vec![inner_map(k, v), Json::Bool(true)]));
    let json = tagged("#set", Json::Array(vec![tuple(1, "a"), tuple(2, "b"), tuple(1, "a")]));
    let shape = set_of(Shape::Tuple(vec![map_of(Shape::Int, Shape::Str), Shape::Bool]));
    let set = decode(&json, &shape).unwrap();
    match &set.0 {
        Decoded::SetOf(items) => assert_eq!(items.len(), 2),
        other => panic!("not a set: {:?}", other),
    }
    let deep = tagged("#set", Json::Array(vec![tuple(1, "a"), tagged("#tup", ints(&[1]))]));
    assert_eq!(
        decode(&deep, &shape).unwrap_err(),
        at(1, Slot::Item, DecodeError::ArityMismatch { expected: 2, found: 1 })
    );
}

#[test]
fn sets_inside_sets_are_equal_whatever_their_order() {
    let json = tagged(
        "#set",
        Json::Array(vec![tagged("#set", ints(&[1, 2])), tagged("#set", ints(&[2, 1]))]),
    );
    let set = decode(&json, &set_of(set_of(Shape::Int))).unwrap();
    match &set.0 {
        Decoded::SetOf(items) => assert_eq!(items.len(), 1),
        other => panic!("not a set: {:?}", other),
    }
}

#[test]
fn decoded_equality() {
    let a = Decoded::MapOf(vec![
        (Decoded::Int(1), Decoded::Bool(true)),
        (Decoded::Int(2), Decoded::Bool(false)),
    ]);
    let b = Decoded::MapOf(vec![
        (Decoded::Int(2), Decoded::Bool(false)),
        (Decoded::Int(1), Decoded::Bool(true)),
    ]);
    let c = Decoded::MapOf(vec![
        (Decoded::Int(2), Decoded::Bool(true)),
        (Decoded::Int(1), Decoded::Bool(true)),
    ]);
    assert!(a.same_as(&b));
    assert!(!a.same_as(&c));
    assert!(!Decoded::Int(1).same_as(&Decoded::BigInt(BigInt::from(1))));
    assert!(Decoded::BigInt(BigInt::from(5)).same_as(&Decoded::BigInt(BigInt::from(5))));
    assert!(!Decoded::BigInt(BigInt::from(5)).same_as(&Decoded::BigInt(BigInt::from(-5))));
    let t = Decoded::Tuple(vec![Decoded::Int(1), Decoded::Int(2)]);
    let u = Decoded::Tuple(vec![Decoded::Int(2), Decoded::Int(1)]);
    assert!(!t.same_as(&u));
    assert!(member(&vec![Decoded::Int(1), Decoded::Int(2)], &Decoded::Int(2)));
    assert!(!member(&vec![Decoded::Int(1), Decoded::Int(2)], &Decoded::Int(3)));
    let pairs = vec![(Decoded::Int(1), Decoded::Int(2))];
    assert!(pair_member(&pairs, &(Decoded::Int(1), Decoded::Int(2))));
    assert!(!pair_member(&pairs, &(Decoded::Int(1), Decoded::Int(3))));
}

#[test]
fn decoding_twice_gives_equal_values() {
    let json = tagged(
        "#tup",
        Json::Array(vec![big("-99999999999999999999"), tagged("#set", ints(&[2, 1, 2]))]),
    );
    let shape = Shape::Tuple(vec![Shape::BigInt, set_of(Shape::Int)]);
    let a = decode_node(&json, &shape).unwrap();
    let b = decode_node(&json, &shape).unwrap();
    assert!(a.same_as(&b));
}

#[test]
fn tagged_payloads() {
    let json = tagged("#set", ints(&[1, 2]));
    assert_eq!(json.tagged_items("#set").map(|v| v.len()), Some(2));
    assert!(json.tagged_items("#map").is_none());
    assert!(json.tagged_str("#set").is_none());
    assert_eq!(big("12").tagged_str("#bigint").map(|s| s.as_str()), Some("12"));
}

#[test]
fn wrapper_hands_the_value_out() {
    let w = Itf::new(5_i64);
    assert_eq!(*w.get(), 5);
    assert_eq!(w.value(), 5);
    let v: Itf<String> = Itf::from("x".to_string());
    assert_eq!(v.value(), "x".to_string());
    assert_eq!(Itf(3_u8), Itf::new(3_u8));
}
