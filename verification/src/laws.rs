//! What holds of every decoding: the laws of the decoder, proved from its
//! definition.

use vstd::prelude::*;
use crate::bigint::{decimal_text, lemma_decimal_text};
use crate::decode::{
    decode_map,
    decode_set,
    decode_spec,
    decode_tuple,
    find_key,
    with_element,
    with_pair,
    DecodeError,
    Shape,
};
use crate::json::{tagged_array, tagged_string, Json};
use crate::value::{
    has_equal_of,
    lemma_same_reflexive,
    lemma_same_sets,
    lemma_same_symmetric,
    occurs,
    same,
    Decoded,
    Value,
};

verus! {

/// A JSON integer and the tagged object that holds its decimal literal decode
/// to the same big integer.
pub proof fn lemma_bigint_encodings_agree(n: i64, node: Json)
    requires
        tagged_string(node, "#bigint"@) == Some(decimal_text(n as int)),
    ensures
        decode_spec(node, Shape::BigInt) == decode_spec(Json::Int(n), Shape::BigInt),
        decode_spec(node, Shape::BigInt) == Ok::<Value, DecodeError>(Value::Big(n as int)),
{
    lemma_decimal_text(n as int);
}

/// The tag that a shape asks for: none for the scalars.
pub open spec fn tag_of(shape: Shape) -> Option<Seq<char>> {
    match shape {
        Shape::BigInt => Some("#bigint"@),
        Shape::SetOf(_) => Some("#set"@),
        Shape::MapOf(_, _) => Some("#map"@),
        Shape::Tuple(_) => Some("#tup"@),
        _ => None,
    }
}

/// An object without the one key that the shape asks for is a shape
/// mismatch: no shape decodes it to an empty or default value.
pub proof fn lemma_missing_tag_is_shape_mismatch(node: Json, shape: Shape)
    requires
        tag_of(shape) is Some,
        node matches Json::Object(members) && !(members@.len() == 1 && members@[0].0@ == tag_of(
            shape,
        )->0),
    ensures
        decode_spec(node, shape) == Err::<Value, DecodeError>(DecodeError::ShapeMismatch),
{
}

/// A tuple whose array has another length than the shape has positions is an
/// arity mismatch that reports both lengths.
pub proof fn lemma_tuple_arity(node: Json, shape: Shape, items: Seq<Json>)
    requires
        shape is Tuple,
        tagged_array(node, "#tup"@) == Some(items),
        items.len() != shape->Tuple_0@.len(),
    ensures
        decode_spec(node, shape) == Err::<Value, DecodeError>(
            DecodeError::ArityMismatch {
                expected: shape->Tuple_0@.len() as usize,
                found: items.len() as usize,
            },
        ),
{
}

/// Decoding is a function of the document and the shape: what two decodings
/// of one document give is decoded-equal.
pub proof fn lemma_decode_deterministic(node: Json, shape: Shape, a: Decoded, b: Decoded)
    requires
        decode_spec(node, shape) == Ok::<Value, DecodeError>(a@),
        decode_spec(node, shape) == Ok::<Value, DecodeError>(b@),
    ensures
        a@ == b@,
        same(a@, b@),
{
    lemma_same_reflexive(a@);
}

/// The elements of a sequence are pairwise unequal: none is equal to one
/// before it.
pub open spec fn each_once(acc: Seq<Value>) -> bool {
    forall|i: int, j: int| 0 <= i < j < acc.len() ==> !same(#[trigger] acc[j], #[trigger] acc[i])
}

/// The keys of a sequence of pairs are pairwise unequal.
pub open spec fn each_key_once(acc: Seq<(Value, Value)>) -> bool {
    forall|i: int, j: int|
        0 <= i < j < acc.len() ==> !same((#[trigger] acc[j]).0, (#[trigger] acc[i]).0)
}

/// A set decoded from the first `n` items of an array holds no element twice,
/// and holds an equal of what each of those items decodes to: duplicates
/// collapse, and nothing is lost.
pub proof fn lemma_set_holds_each_once(items: Seq<Json>, shape: Shape, n: nat)
    requires
        shape is SetOf,
        n <= items.len(),
        decode_set(items, shape, n) is Ok,
    ensures
        decode_set(items, shape, n)->Ok_0.len() <= n,
        each_once(decode_set(items, shape, n)->Ok_0),
        forall|i: int|
            0 <= i < n ==> decode_spec(#[trigger] items[i], *shape->SetOf_0) is Ok && occurs(
                decode_set(items, shape, n)->Ok_0,
                decode_spec(items[i], *shape->SetOf_0)->Ok_0,
            ),
    decreases n,
{
    if n > 0 {
        let m = (n - 1) as nat;
        lemma_set_holds_each_once(items, shape, m);
        let prev = decode_set(items, shape, m)->Ok_0;
        let v = decode_spec(items[n - 1], *shape->SetOf_0)->Ok_0;
        let acc = decode_set(items, shape, n)->Ok_0;
        assert(acc == with_element(prev, v));
        lemma_same_reflexive(v);
        if occurs(prev, v) {
        } else {
            assert(acc == prev.push(v));
            assert(same(v, acc[acc.len() - 1]));
            assert forall|i: int| 0 <= i < n implies occurs(
                acc,
                decode_spec(#[trigger] items[i], *shape->SetOf_0)->Ok_0,
            ) by {
                if i < m {
                    let x = decode_spec(items[i], *shape->SetOf_0)->Ok_0;
                    assert(occurs(prev, x));
                    let j = choose|j: int| 0 <= j < prev.len() && same(x, #[trigger] prev[j]);
                    assert(same(x, acc[j]));
                }
            }
        }
    }
}

/// Whether `v` is what one of the first `n` of `items` decodes to against
/// `elem`.
pub open spec fn decoded_from(items: Seq<Json>, elem: Shape, n: nat, v: Value) -> bool {
    exists|i: int|
        0 <= i < n && i < items.len() && decode_spec(#[trigger] items[i], elem) == Ok::<
            Value,
            DecodeError,
        >(v)
}

/// Each element of a set decoded from the first `n` items of an array is
/// what one of those items decodes to.
pub proof fn lemma_set_holds_only_items(items: Seq<Json>, shape: Shape, n: nat)
    requires
        shape is SetOf,
        n <= items.len(),
        decode_set(items, shape, n) is Ok,
    ensures
        forall|k: int|
            0 <= k < decode_set(items, shape, n)->Ok_0.len() ==> decoded_from(
                items,
                *shape->SetOf_0,
                n,
                #[trigger] decode_set(items, shape, n)->Ok_0[k],
            ),
    decreases n,
{
    if n > 0 {
        let m = (n - 1) as nat;
        lemma_set_holds_only_items(items, shape, m);
        let elem = *shape->SetOf_0;
        let prev = decode_set(items, shape, m)->Ok_0;
        let v = decode_spec(items[n - 1], elem)->Ok_0;
        let acc = decode_set(items, shape, n)->Ok_0;
        assert(acc == with_element(prev, v));
        assert forall|k: int| 0 <= k < acc.len() implies decoded_from(
            items,
            elem,
            n,
            #[trigger] acc[k],
        ) by {
            if k < prev.len() {
                assert(acc[k] == prev[k]);
                assert(decoded_from(items, elem, m, prev[k]));
                let i = choose|i: int|
                    0 <= i < m && i < items.len() && decode_spec(#[trigger] items[i], elem) == Ok::<
                        Value,
                        DecodeError,
                    >(prev[k]);
                assert(decode_spec(items[i], elem) == Ok::<Value, DecodeError>(acc[k]));
            } else {
                assert(acc[k] == v);
                assert(decode_spec(items[n - 1], elem) == Ok::<Value, DecodeError>(acc[k]));
            }
        }
    }
}

/// Where each of the first `n` items of an array decodes, the set of them
/// does.
pub proof fn lemma_set_decodes_when_items_do(items: Seq<Json>, shape: Shape, n: nat)
    requires
        shape is SetOf,
        n <= items.len(),
        forall|i: int| 0 <= i < n ==> decode_spec(#[trigger] items[i], *shape->SetOf_0) is Ok,
    ensures
        decode_set(items, shape, n) is Ok,
    decreases n,
{
    if n > 0 {
        lemma_set_decodes_when_items_do(items, shape, (n - 1) as nat);
        assert(decode_spec(items[n - 1], *shape->SetOf_0) is Ok);
    }
}

/// Where each item of `xs` is an item of `ys`, each element of the set
/// decoded from `xs` has an equal in the set decoded from `ys`.
pub proof fn lemma_set_follows_items(xs: Seq<Json>, ys: Seq<Json>, shape: Shape)
    requires
        shape is SetOf,
        forall|i: int| 0 <= i < xs.len() ==> ys.contains(#[trigger] xs[i]),
        decode_set(xs, shape, xs.len()) is Ok,
        decode_set(ys, shape, ys.len()) is Ok,
    ensures
        forall|k: int|
            0 <= k < decode_set(xs, shape, xs.len())->Ok_0.len() ==> occurs(
                decode_set(ys, shape, ys.len())->Ok_0,
                #[trigger] decode_set(xs, shape, xs.len())->Ok_0[k],
            ),
{
    let elem = *shape->SetOf_0;
    let sa = decode_set(xs, shape, xs.len())->Ok_0;
    let sb = decode_set(ys, shape, ys.len())->Ok_0;
    lemma_set_holds_only_items(xs, shape, xs.len());
    lemma_set_holds_each_once(ys, shape, ys.len());
    assert forall|k: int| 0 <= k < sa.len() implies occurs(sb, #[trigger] sa[k]) by {
        assert(decoded_from(xs, elem, xs.len(), sa[k]));
        let i = choose|i: int|
            0 <= i < xs.len() && i < xs.len() && decode_spec(#[trigger] xs[i], elem) == Ok::<
                Value,
                DecodeError,
            >(sa[k]);
        assert(ys.contains(xs[i]));
        let j = choose|j: int| 0 <= j < ys.len() && ys[j] == xs[i];
        assert(occurs(sb, decode_spec(ys[j], elem)->Ok_0));
    }
}

/// Where two arrays hold the same items and the one decodes as a set, the
/// other decodes to an equal set.
pub proof fn lemma_sets_of_same_items(xs: Seq<Json>, ys: Seq<Json>, shape: Shape)
    requires
        shape is SetOf,
        forall|i: int| 0 <= i < xs.len() ==> ys.contains(#[trigger] xs[i]),
        forall|j: int| 0 <= j < ys.len() ==> xs.contains(#[trigger] ys[j]),
        decode_set(xs, shape, xs.len()) is Ok,
    ensures
        decode_set(ys, shape, ys.len()) is Ok,
        same(
            Value::SetOf(decode_set(xs, shape, xs.len())->Ok_0),
            Value::SetOf(decode_set(ys, shape, ys.len())->Ok_0),
        ),
{
    let elem = *shape->SetOf_0;
    lemma_set_holds_each_once(xs, shape, xs.len());
    assert forall|j: int| 0 <= j < ys.len() implies decode_spec(#[trigger] ys[j], elem) is Ok by {
        assert(xs.contains(ys[j]));
        let i = choose|i: int| 0 <= i < xs.len() && xs[i] == ys[j];
        assert(decode_spec(xs[i], elem) is Ok);
    }
    lemma_set_decodes_when_items_do(ys, shape, ys.len());
    let sa = decode_set(xs, shape, xs.len())->Ok_0;
    let sb = decode_set(ys, shape, ys.len())->Ok_0;
    lemma_set_follows_items(xs, ys, shape);
    lemma_set_follows_items(ys, xs, shape);
    assert forall|k: int| 0 <= k < sb.len() implies has_equal_of(sa, #[trigger] sb[k]) by {
        assert(occurs(sa, sb[k]));
        let m = choose|m: int| 0 <= m < sa.len() && same(sb[k], #[trigger] sa[m]);
        lemma_same_symmetric(sb[k], sa[m]);
    }
    lemma_same_sets(sa, sb);
}

/// The order of the array, and how often an item stands in it, do not matter
/// to the set: where the arrays of two documents hold the same items, and the
/// one decodes, the other decodes to an equal set.
pub proof fn lemma_set_order_does_not_matter(a: Json, b: Json, shape: Shape)
    requires
        shape is SetOf,
        tagged_array(a, "#set"@) is Some,
        tagged_array(b, "#set"@) is Some,
        forall|i: int|
            0 <= i < tagged_array(a, "#set"@)->0.len() ==> tagged_array(b, "#set"@)->0.contains(
                #[trigger] tagged_array(a, "#set"@)->0[i],
            ),
        forall|j: int|
            0 <= j < tagged_array(b, "#set"@)->0.len() ==> tagged_array(a, "#set"@)->0.contains(
                #[trigger] tagged_array(b, "#set"@)->0[j],
            ),
        decode_spec(a, shape) is Ok,
    ensures
        decode_spec(b, shape) is Ok,
        same(decode_spec(a, shape)->Ok_0, decode_spec(b, shape)->Ok_0),
{
    lemma_sets_of_same_items(tagged_array(a, "#set"@)->0, tagged_array(b, "#set"@)->0, shape);
}

/// What `find_key` finds is the first pair with an equal key, and it finds
/// none only where there is none.
pub proof fn lemma_find_key(pairs: Seq<(Value, Value)>, k: Value, from: int)
    requires
        0 <= from,
    ensures
        match find_key(pairs, k, from) {
            Some(j) => from <= j < pairs.len() && same(k, pairs[j].0),
            None => forall|j: int| from <= j < pairs.len() ==> !same(k, (#[trigger] pairs[j]).0),
        },
    decreases pairs.len() - from,
{
    if from < pairs.len() && !same(k, pairs[from].0) {
        lemma_find_key(pairs, k, from + 1);
    }
}

/// Last write wins: after `k` is mapped to `v`, a pair with a key equal to
/// `k` holds `v`; no pair is added where the key was there; and keys that were
/// pairwise unequal stay so.
pub proof fn lemma_last_write_wins(acc: Seq<(Value, Value)>, k: Value, v: Value)
    ensures
        exists|j: int|
            0 <= j < with_pair(acc, k, v).len() && same(k, (#[trigger] with_pair(acc, k, v)[j]).0)
                && with_pair(acc, k, v)[j].1 == v,
        find_key(acc, k, 0) is Some ==> with_pair(acc, k, v).len() == acc.len(),
        find_key(acc, k, 0) is None ==> with_pair(acc, k, v).len() == acc.len() + 1,
        each_key_once(acc) ==> each_key_once(with_pair(acc, k, v)),
{
    lemma_find_key(acc, k, 0);
    lemma_same_reflexive(k);
    let out = with_pair(acc, k, v);
    match find_key(acc, k, 0) {
        Some(j) => {
            assert(same(k, out[j].0) && out[j].1 == v);
            assert forall|i: int| 0 <= i < out.len() implies (#[trigger] out[i]).0 == acc[i].0 by {}
        },
        None => {
            assert(same(k, out[out.len() - 1].0) && out[out.len() - 1].1 == v);
            assert forall|i: int| 0 <= i < acc.len() implies #[trigger] out[i] == acc[i] by {}
        },
    }
}

/// A map decoded from the first `n` pairs of an array holds no key twice.
pub proof fn lemma_map_holds_each_key_once(items: Seq<Json>, shape: Shape, n: nat)
    requires
        shape is MapOf,
        n <= items.len(),
        decode_map(items, shape, n) is Ok,
    ensures
        decode_map(items, shape, n)->Ok_0.len() <= n,
        each_key_once(decode_map(items, shape, n)->Ok_0),
    decreases n,
{
    if n > 0 {
        let m = (n - 1) as nat;
        lemma_map_holds_each_key_once(items, shape, m);
        let prev = decode_map(items, shape, m)->Ok_0;
        let pair = items[n - 1]->Array_0@;
        let k = decode_spec(pair[0], *shape->MapOf_0)->Ok_0;
        let v = decode_spec(pair[1], *shape->MapOf_1)->Ok_0;
        assert(decode_map(items, shape, n)->Ok_0 == with_pair(prev, k, v));
        lemma_last_write_wins(prev, k, v);
    }
}

/// A pair is well formed when its key and its value are.
pub open spec fn pair_well_formed(p: (Value, Value)) -> bool
    decreases p, 0nat,
{
    well_formed(p.0) && well_formed(p.1)
}

/// A value is well formed when no set in it holds an element twice and no
/// map in it a key twice.
pub open spec fn well_formed(v: Value) -> bool
    decreases v, 1nat,
{
    match v {
        Value::SetOf(xs) => each_once(xs) && forall|i: int|
            0 <= i < xs.len() ==> well_formed(#[trigger] xs[i]),
        Value::MapOf(xs) => each_key_once(xs) && forall|i: int|
            0 <= i < xs.len() ==> pair_well_formed(#[trigger] xs[i]),
        Value::Tuple(xs) => forall|i: int| 0 <= i < xs.len() ==> well_formed(#[trigger] xs[i]),
        _ => true,
    }
}

/// The elements of a set decoded from the first `n` items are well formed.
pub proof fn lemma_set_elements_well_formed(items: Seq<Json>, shape: Shape, n: nat)
    requires
        shape is SetOf,
        n <= items.len(),
        decode_set(items, shape, n) is Ok,
    ensures
        forall|k: int|
            0 <= k < decode_set(items, shape, n)->Ok_0.len() ==> well_formed(
                #[trigger] decode_set(items, shape, n)->Ok_0[k],
            ),
    decreases shape, 0nat, n,
{
    if n > 0 {
        let m = (n - 1) as nat;
        lemma_set_elements_well_formed(items, shape, m);
        lemma_decoded_is_well_formed(items[n - 1], *shape->SetOf_0);
        let prev = decode_set(items, shape, m)->Ok_0;
        let v = decode_spec(items[n - 1], *shape->SetOf_0)->Ok_0;
        let acc = decode_set(items, shape, n)->Ok_0;
        assert(acc == with_element(prev, v));
        assert forall|k: int| 0 <= k < acc.len() implies well_formed(#[trigger] acc[k]) by {
            if k < prev.len() {
                assert(acc[k] == prev[k]);
            }
        }
    }
}

/// The pairs of a map decoded from the first `n` items are well formed.
pub proof fn lemma_map_pairs_well_formed(items: Seq<Json>, shape: Shape, n: nat)
    requires
        shape is MapOf,
        n <= items.len(),
        decode_map(items, shape, n) is Ok,
    ensures
        forall|k: int|
            0 <= k < decode_map(items, shape, n)->Ok_0.len() ==> pair_well_formed(
                #[trigger] decode_map(items, shape, n)->Ok_0[k],
            ),
    decreases shape, 0nat, n,
{
    if n > 0 {
        let m = (n - 1) as nat;
        lemma_map_pairs_well_formed(items, shape, m);
        let pair = items[n - 1]->Array_0@;
        lemma_decoded_is_well_formed(pair[0], *shape->MapOf_0);
        lemma_decoded_is_well_formed(pair[1], *shape->MapOf_1);
        let prev = decode_map(items, shape, m)->Ok_0;
        let k = decode_spec(pair[0], *shape->MapOf_0)->Ok_0;
        let v = decode_spec(pair[1], *shape->MapOf_1)->Ok_0;
        let acc = decode_map(items, shape, n)->Ok_0;
        assert(acc == with_pair(prev, k, v));
        lemma_find_key(prev, k, 0);
        assert forall|i: int| 0 <= i < acc.len() implies pair_well_formed(#[trigger] acc[i]) by {
            match find_key(prev, k, 0) {
                Some(j) => {
                    if i == j {
                        assert(pair_well_formed(prev[j]));
                        assert(acc[i] == (prev[j].0, v));
                    } else {
                        assert(acc[i] == prev[i]);
                    }
                },
                None => {
                    if i < prev.len() {
                        assert(acc[i] == prev[i]);
                    } else {
                        assert(acc[i] == (k, v));
                    }
                },
            }
        }
    }
}

/// The first `n` positions of a decoded tuple are well formed.
pub proof fn lemma_tuple_positions_well_formed(items: Seq<Json>, shape: Shape, n: nat)
    requires
        shape is Tuple,
        n <= items.len(),
        n <= shape->Tuple_0@.len(),
        decode_tuple(items, shape, n) is Ok,
    ensures
        decode_tuple(items, shape, n)->Ok_0.len() == n,
        forall|k: int|
            0 <= k < n ==> well_formed(#[trigger] decode_tuple(items, shape, n)->Ok_0[k]),
    decreases shape, 0nat, n,
{
    if n > 0 {
        let m = (n - 1) as nat;
        lemma_tuple_positions_well_formed(items, shape, m);
        lemma_decoded_is_well_formed(items[n - 1], shape->Tuple_0@[n - 1]);
        let prev = decode_tuple(items, shape, m)->Ok_0;
        let acc = decode_tuple(items, shape, n)->Ok_0;
        assert forall|k: int| 0 <= k < n implies well_formed(#[trigger] acc[k]) by {
            if k < m {
                assert(acc[k] == prev[k]);
            }
        }
    }
}

/// What decodes is well formed: whatever the document repeats, no set that
/// comes out of it holds an element twice, and no map a key twice.
pub proof fn lemma_decoded_is_well_formed(node: Json, shape: Shape)
    requires
        decode_spec(node, shape) is Ok,
    ensures
        well_formed(decode_spec(node, shape)->Ok_0),
    decreases shape, 1nat, 0nat,
{
    match shape {
        Shape::SetOf(_) => {
            let items = tagged_array(node, "#set"@)->0;
            lemma_set_elements_well_formed(items, shape, items.len());
            lemma_set_holds_each_once(items, shape, items.len());
        },
        Shape::MapOf(_, _) => {
            let items = tagged_array(node, "#map"@)->0;
            lemma_map_pairs_well_formed(items, shape, items.len());
            lemma_map_holds_each_key_once(items, shape, items.len());
        },
        Shape::Tuple(_) => {
            let items = tagged_array(node, "#tup"@)->0;
            lemma_tuple_positions_well_formed(items, shape, items.len());
        },
        _ => {},
    }
}

} // verus!
