//! The decoder: from a JSON value and the shape asked for to a decoded value.

use vstd::prelude::*;
use crate::bigint::{
    bigint_from_i64,
    bigint_from_literal,
    decimal_value,
    is_decimal_literal,
    is_literal,
};
use crate::itf::Itf;
use crate::json::{tagged_array, tagged_string, Json};
use crate::laws::{lemma_decoded_is_well_formed, well_formed};
use crate::value::{member, occurs, pairs_of, same, values_of, Decoded, Value};

verus! {

/// The shape that a JSON value is decoded against.
#[derive(Debug)]
pub enum Shape {
    /// An integer of the signed 64-bit range.
    Int,
    Bool,
    Str,
    /// An integer of any size.
    BigInt,
    /// A set, with the shape of its elements.
    SetOf(Box<Shape>),
    /// A map, with the shapes of its keys and of its values.
    MapOf(Box<Shape>, Box<Shape>),
    /// A tuple, with the shape of each position.
    Tuple(Vec<Shape>),
}

/// Where in an array a nested failure lies.
#[derive(Clone, Copy, Debug, PartialEq, Eq, Structural)]
pub enum Slot {
    /// The item itself: an element of a set or of a tuple, or a pair of a map.
    Item,
    /// The key of a pair of a map.
    Key,
    /// The value of a pair of a map.
    Val,
}

/// Why a JSON value does not decode against a shape.
#[derive(Debug, PartialEq, Eq)]
pub enum DecodeError {
    /// A scalar was asked for and the JSON value is of another kind.
    TypeMismatch,
    /// The JSON value is not the tagged object that the shape asks for.
    ShapeMismatch,
    /// A tuple, or a pair of a map, has another length than asked for.
    ArityMismatch { expected: usize, found: usize },
    /// The string under `#bigint` is no decimal integer literal.
    MalformedBigInt,
    /// The item at `index` of the array under the tag failed with `cause`.
    At { index: usize, slot: Slot, cause: Box<DecodeError> },
}

/// What decoding `node` as an integer of any size gives: a JSON integer
/// stands for itself, and `{"#bigint": s}` for the integer that the decimal
/// literal `s` denotes.
pub open spec fn decode_bigint_spec(node: Json) -> Result<Value, DecodeError> {
    match node {
        Json::Int(n) => Ok(Value::Big(n as int)),
        _ => match tagged_string(node, "#bigint"@) {
            Some(s) => if is_decimal_literal(s) {
                Ok(Value::Big(decimal_value(s)))
            } else {
                Err(DecodeError::MalformedBigInt)
            },
            None => Err(DecodeError::ShapeMismatch),
        },
    }
}

/// The first index of `pairs`, from `from` on, whose key is equal to `k`.
pub open spec fn find_key(pairs: Seq<(Value, Value)>, k: Value, from: int) -> Option<int>
    decreases pairs.len() - from,
{
    if from < 0 || from >= pairs.len() {
        None
    } else if same(k, pairs[from].0) {
        Some(from)
    } else {
        find_key(pairs, k, from + 1)
    }
}

/// `acc` with `v` added, unless it holds an equal value already.
pub open spec fn with_element(acc: Seq<Value>, v: Value) -> Seq<Value> {
    if occurs(acc, v) {
        acc
    } else {
        acc.push(v)
    }
}

/// `acc` with `k` mapped to `v`: the pair that holds an equal key gets the
/// new value, and without such a pair `(k, v)` comes last.
pub open spec fn with_pair(acc: Seq<(Value, Value)>, k: Value, v: Value) -> Seq<(Value, Value)> {
    match find_key(acc, k, 0) {
        Some(j) => acc.update(j, (acc[j].0, v)),
        None => acc.push((k, v)),
    }
}

/// A nested failure: `cause`, at `index` of the array.
pub open spec fn nested(index: nat, slot: Slot, cause: DecodeError) -> DecodeError {
    DecodeError::At { index: index as usize, slot, cause: Box::new(cause) }
}

/// What decoding `node` against `shape` gives: the value, or the first
/// failure in the order of the document.
pub open spec fn decode_spec(node: Json, shape: Shape) -> Result<Value, DecodeError>
    decreases shape, 1nat, 0nat,
{
    match shape {
        Shape::Int => match node {
            Json::Int(n) => Ok(Value::Int(n as int)),
            _ => Err(DecodeError::TypeMismatch),
        },
        Shape::Bool => match node {
            Json::Bool(b) => Ok(Value::Bool(b)),
            _ => Err(DecodeError::TypeMismatch),
        },
        Shape::Str => match node {
            Json::Str(s) => Ok(Value::Str(s@)),
            _ => Err(DecodeError::TypeMismatch),
        },
        Shape::BigInt => decode_bigint_spec(node),
        Shape::SetOf(_) => match tagged_array(node, "#set"@) {
            Some(items) => match decode_set(items, shape, items.len()) {
                Ok(acc) => Ok(Value::SetOf(acc)),
                Err(e) => Err(e),
            },
            None => Err(DecodeError::ShapeMismatch),
        },
        Shape::MapOf(_, _) => match tagged_array(node, "#map"@) {
            Some(items) => match decode_map(items, shape, items.len()) {
                Ok(acc) => Ok(Value::MapOf(acc)),
                Err(e) => Err(e),
            },
            None => Err(DecodeError::ShapeMismatch),
        },
        Shape::Tuple(shapes) => match tagged_array(node, "#tup"@) {
            Some(items) => if items.len() != shapes@.len() {
                Err(
                    DecodeError::ArityMismatch {
                        expected: shapes@.len() as usize,
                        found: items.len() as usize,
                    },
                )
            } else {
                match decode_tuple(items, shape, items.len()) {
                    Ok(acc) => Ok(Value::Tuple(acc)),
                    Err(e) => Err(e),
                }
            },
            None => Err(DecodeError::ShapeMismatch),
        },
    }
}

/// The set built from the first `n` of `items`, each decoded against the
/// element shape of `shape`.
pub open spec fn decode_set(items: Seq<Json>, shape: Shape, n: nat) -> Result<
    Seq<Value>,
    DecodeError,
>
    decreases shape, 0nat, n,
{
    if n == 0 || n > items.len() || !(shape is SetOf) {
        Ok(Seq::empty())
    } else {
        match decode_set(items, shape, (n - 1) as nat) {
            Err(e) => Err(e),
            Ok(acc) => match decode_spec(items[n - 1], *shape->SetOf_0) {
                Err(e) => Err(nested((n - 1) as nat, Slot::Item, e)),
                Ok(v) => Ok(with_element(acc, v)),
            },
        }
    }
}

/// The map built from the first `n` of `items`, each a pair whose key and
/// value are decoded against the key and value shapes of `shape`.
pub open spec fn decode_map(items: Seq<Json>, shape: Shape, n: nat) -> Result<
    Seq<(Value, Value)>,
    DecodeError,
>
    decreases shape, 0nat, n,
{
    if n == 0 || n > items.len() || !(shape is MapOf) {
        Ok(Seq::empty())
    } else {
        match decode_map(items, shape, (n - 1) as nat) {
            Err(e) => Err(e),
            Ok(acc) => match items[n - 1] {
                Json::Array(pair) => if pair@.len() != 2 {
                    Err(
                        nested(
                            (n - 1) as nat,
                            Slot::Item,
                            DecodeError::ArityMismatch { expected: 2, found: pair@.len() as usize },
                        ),
                    )
                } else {
                    match decode_spec(pair@[0], *shape->MapOf_0) {
                        Err(e) => Err(nested((n - 1) as nat, Slot::Key, e)),
                        Ok(k) => match decode_spec(pair@[1], *shape->MapOf_1) {
                            Err(e) => Err(nested((n - 1) as nat, Slot::Val, e)),
                            Ok(v) => Ok(with_pair(acc, k, v)),
                        },
                    }
                },
                _ => Err(nested((n - 1) as nat, Slot::Item, DecodeError::ShapeMismatch)),
            },
        }
    }
}

/// The first `n` positions of a tuple, each of `items` decoded against the
/// shape of its position in `shape`.
pub open spec fn decode_tuple(items: Seq<Json>, shape: Shape, n: nat) -> Result<
    Seq<Value>,
    DecodeError,
>
    decreases shape, 0nat, n,
{
    if n == 0 || n > items.len() || !(shape is Tuple) || n > shape->Tuple_0@.len() {
        Ok(Seq::empty())
    } else {
        match decode_tuple(items, shape, (n - 1) as nat) {
            Err(e) => Err(e),
            Ok(acc) => match decode_spec(items[n - 1], shape->Tuple_0@[n - 1]) {
                Err(e) => Err(nested((n - 1) as nat, Slot::Item, e)),
                Ok(v) => Ok(acc.push(v)),
            },
        }
    }
}

/// Once a prefix of the items has failed, the failure is that of every
/// longer prefix.
proof fn lemma_set_failure_stays(items: Seq<Json>, shape: Shape, n: nat, m: nat)
    requires
        n <= m <= items.len(),
        decode_set(items, shape, n) is Err,
    ensures
        decode_set(items, shape, m) == decode_set(items, shape, n),
    decreases m - n,
{
    if n < m {
        lemma_set_failure_stays(items, shape, n, (m - 1) as nat);
    }
}

/// Once a prefix of the items has failed, the failure is that of every
/// longer prefix.
proof fn lemma_map_failure_stays(items: Seq<Json>, shape: Shape, n: nat, m: nat)
    requires
        n <= m <= items.len(),
        decode_map(items, shape, n) is Err,
    ensures
        decode_map(items, shape, m) == decode_map(items, shape, n),
    decreases m - n,
{
    if n < m {
        lemma_map_failure_stays(items, shape, n, (m - 1) as nat);
    }
}

/// Once a prefix of the items has failed, the failure is that of every
/// longer prefix.
proof fn lemma_tuple_failure_stays(items: Seq<Json>, shape: Shape, n: nat, m: nat)
    requires
        n <= m <= items.len(),
        shape is Tuple ==> m <= shape->Tuple_0@.len(),
        decode_tuple(items, shape, n) is Err,
    ensures
        decode_tuple(items, shape, m) == decode_tuple(items, shape, n),
    decreases m - n,
{
    if n < m {
        lemma_tuple_failure_stays(items, shape, n, (m - 1) as nat);
    }
}

/// The index of the pair of `pairs` whose key is equal to `k`.
fn key_position(pairs: &Vec<(Decoded, Decoded)>, k: &Decoded) -> (r: Option<usize>)
    ensures
        match r {
            Some(j) => find_key(pairs_of(pairs@), k@, 0) == Some(j as int) && j < pairs.len(),
            None => find_key(pairs_of(pairs@), k@, 0) is None,
        },
{
    let mut j: usize = 0;
    while j < pairs.len()
        invariant
            j <= pairs.len(),
            find_key(pairs_of(pairs@), k@, 0) == find_key(pairs_of(pairs@), k@, j as int),
        decreases pairs.len() - j,
    {
        if k.same_as(&pairs[j].0) {
            return Some(j);
        }
        j += 1;
    }
    None
}

/// Adds `d` to the elements of a set, unless an equal one is there.
fn add_element(out: &mut Vec<Decoded>, d: Decoded)
    ensures
        values_of(final(out)@) == with_element(values_of(old(out)@), d@),
{
    if !member(out, &d) {
        out.push(d);
        assert(values_of(out@) =~= values_of(old(out)@).push(d@));
    }
}

/// Maps `k` to `v` in the pairs of a map.
fn add_pair(out: &mut Vec<(Decoded, Decoded)>, k: Decoded, v: Decoded)
    ensures
        pairs_of(final(out)@) == with_pair(pairs_of(old(out)@), k@, v@),
{
    match key_position(out, &k) {
        Some(j) => {
            let (k0, _) = out.remove(j);
            out.insert(j, (k0, v));
            assert(pairs_of(out@) =~= pairs_of(old(out)@).update(
                j as int,
                (pairs_of(old(out)@)[j as int].0, v@),
            ));
        },
        None => {
            out.push((k, v));
            assert(pairs_of(out@) =~= pairs_of(old(out)@).push((k@, v@)));
        },
    }
}

/// Decodes an integer of any size: a JSON integer, or the decimal literal
/// under `#bigint`.
pub fn decode_bigint(node: &Json) -> (r: Result<Decoded, DecodeError>)
    ensures
        match r {
            Ok(d) => decode_bigint_spec(*node) == Ok::<Value, DecodeError>(d@),
            Err(e) => decode_bigint_spec(*node) == Err::<Value, DecodeError>(e),
        },
{
    match node {
        Json::Int(n) => Ok(Decoded::BigInt(bigint_from_i64(*n))),
        _ => match node.tagged_str("#bigint") {
            Some(s) => {
                if is_literal(s.as_str()) {
                    match bigint_from_literal(s.as_str()) {
                        Some(b) => Ok(Decoded::BigInt(b)),
                        None => Err(DecodeError::MalformedBigInt),
                    }
                } else {
                    Err(DecodeError::MalformedBigInt)
                }
            },
            None => Err(DecodeError::ShapeMismatch),
        },
    }
}

/// Decodes `node` against `shape`.
pub fn decode_node(node: &Json, shape: &Shape) -> (r: Result<Decoded, DecodeError>)
    ensures
        match r {
            Ok(d) => decode_spec(*node, *shape) == Ok::<Value, DecodeError>(d@),
            Err(e) => decode_spec(*node, *shape) == Err::<Value, DecodeError>(e),
        },
    decreases shape,
{
    match shape {
        Shape::Int => match node {
            Json::Int(n) => Ok(Decoded::Int(*n)),
            _ => Err(DecodeError::TypeMismatch),
        },
        Shape::Bool => match node {
            Json::Bool(b) => Ok(Decoded::Bool(*b)),
            _ => Err(DecodeError::TypeMismatch),
        },
        Shape::Str => match node {
            Json::Str(s) => Ok(Decoded::Str(s.clone())),
            _ => Err(DecodeError::TypeMismatch),
        },
        Shape::BigInt => decode_bigint(node),
        Shape::SetOf(elem) => match node.tagged_items("#set") {
            Some(items) => {
                let mut out: Vec<Decoded> = Vec::new();
                let mut i: usize = 0;
                assert(values_of(out@) =~= Seq::<Value>::empty());
                while i < items.len()
                    invariant
                        i <= items.len(),
                        shape is SetOf,
                        tagged_array(*node, "#set"@) == Some(items@),
                        shape->SetOf_0 == *elem,
                        decode_set(items@, *shape, i as nat) == Ok::<Seq<Value>, DecodeError>(
                            values_of(out@),
                        ),
                    decreases items.len() - i,
                {
                    proof {
                        assert(decreases_to!(*shape => shape->SetOf_0));
                    }
                    match decode_node(&items[i], elem) {
                        Ok(d) => {
                            add_element(&mut out, d);
                        },
                        Err(e) => {
                            proof {
                                lemma_set_failure_stays(
                                    items@,
                                    *shape,
                                    (i + 1) as nat,
                                    items@.len(),
                                );
                            }
                            return Err(
                                DecodeError::At { index: i, slot: Slot::Item, cause: Box::new(e) },
                            );
                        },
                    }
                    i += 1;
                }
                Ok(Decoded::SetOf(out))
            },
            None => Err(DecodeError::ShapeMismatch),
        },
        Shape::MapOf(key, val) => match node.tagged_items("#map") {
            Some(items) => {
                let mut out: Vec<(Decoded, Decoded)> = Vec::new();
                let mut i: usize = 0;
                assert(pairs_of(out@) =~= Seq::<(Value, Value)>::empty());
                while i < items.len()
                    invariant
                        i <= items.len(),
                        shape is MapOf,
                        tagged_array(*node, "#map"@) == Some(items@),
                        shape->MapOf_0 == *key,
                        shape->MapOf_1 == *val,
                        decode_map(items@, *shape, i as nat) == Ok::<
                            Seq<(Value, Value)>,
                            DecodeError,
                        >(pairs_of(out@)),
                    decreases items.len() - i,
                {
                    proof {
                        assert(decreases_to!(*shape => shape->MapOf_0));
                        assert(decreases_to!(*shape => shape->MapOf_1));
                    }
                    let outcome = match &items[i] {
                        Json::Array(pair) => {
                            if pair.len() != 2 {
                                Err(
                                    DecodeError::At {
                                        index: i,
                                        slot: Slot::Item,
                                        cause: Box::new(
                                            DecodeError::ArityMismatch {
                                                expected: 2,
                                                found: pair.len(),
                                            },
                                        ),
                                    },
                                )
                            } else {
                                match decode_node(&pair[0], key) {
                                    Ok(k) => match decode_node(&pair[1], val) {
                                        Ok(v) => Ok((k, v)),
                                        Err(e) => Err(
                                            DecodeError::At {
                                                index: i,
                                                slot: Slot::Val,
                                                cause: Box::new(e),
                                            },
                                        ),
                                    },
                                    Err(e) => Err(
                                        DecodeError::At {
                                            index: i,
                                            slot: Slot::Key,
                                            cause: Box::new(e),
                                        },
                                    ),
                                }
                            }
                        },
                        _ => Err(
                            DecodeError::At {
                                index: i,
                                slot: Slot::Item,
                                cause: Box::new(DecodeError::ShapeMismatch),
                            },
                        ),
                    };
                    match outcome {
                        Ok((k, v)) => {
                            add_pair(&mut out, k, v);
                        },
                        Err(e) => {
                            proof {
                                lemma_map_failure_stays(
                                    items@,
                                    *shape,
                                    (i + 1) as nat,
                                    items@.len(),
                                );
                            }
                            return Err(e);
                        },
                    }
                    i += 1;
                }
                Ok(Decoded::MapOf(out))
            },
            None => Err(DecodeError::ShapeMismatch),
        },
        Shape::Tuple(shapes) => match node.tagged_items("#tup") {
            Some(items) => {
                if items.len() != shapes.len() {
                    return Err(
                        DecodeError::ArityMismatch { expected: shapes.len(), found: items.len() },
                    );
                }
                let mut out: Vec<Decoded> = Vec::new();
                let mut i: usize = 0;
                assert(values_of(out@) =~= Seq::<Value>::empty());
                while i < items.len()
                    invariant
                        i <= items.len(),
                        items.len() == shapes.len(),
                        shape is Tuple,
                        tagged_array(*node, "#tup"@) == Some(items@),
                        shape->Tuple_0 == *shapes,
                        decode_tuple(items@, *shape, i as nat) == Ok::<Seq<Value>, DecodeError>(
                            values_of(out@),
                        ),
                    decreases items.len() - i,
                {
                    proof {
                        assert(decreases_to!(*shape => shape->Tuple_0));
                        assert(decreases_to!(*shapes => shapes@));
                        assert(decreases_to!(shapes@ => shapes@[i as int]));
                    }
                    match decode_node(&items[i], &shapes[i]) {
                        Ok(d) => {
                            let ghost before = out@;
                            out.push(d);
                            assert(values_of(out@) =~= values_of(before).push(d@));
                        },
                        Err(e) => {
                            proof {
                                lemma_tuple_failure_stays(
                                    items@,
                                    *shape,
                                    (i + 1) as nat,
                                    items@.len(),
                                );
                            }
                            return Err(
                                DecodeError::At { index: i, slot: Slot::Item, cause: Box::new(e) },
                            );
                        },
                    }
                    i += 1;
                }
                Ok(Decoded::Tuple(out))
            },
            None => Err(DecodeError::ShapeMismatch),
        },
    }
}

/// Decodes `node` against `shape`, and marks what comes out as decoded. The
/// result is the value that `decode_spec` gives, or its failure.
pub fn decode(node: &Json, shape: &Shape) -> (r: Result<Itf<Decoded>, DecodeError>)
    ensures
        match r {
            Ok(d) => decode_spec(*node, *shape) == Ok::<Value, DecodeError>(d.0@) && well_formed(
                d.0@,
            ),
            Err(e) => decode_spec(*node, *shape) == Err::<Value, DecodeError>(e),
        },
{
    match decode_node(node, shape) {
        Ok(d) => {
            proof {
                lemma_decoded_is_well_formed(*node, *shape);
            }
            Ok(Itf::new(d))
        },
        Err(e) => Err(e),
    }
}

} // verus!
