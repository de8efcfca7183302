//! Decoded values, their mathematical model, and decoded equality.

use vstd::prelude::*;
use num_bigint::BigInt;
use crate::bigint::{bigint_eq, bigint_value};

verus! {

/// What a decoded value denotes.
pub enum Value {
    Int(int),
    Bool(bool),
    Str(Seq<char>),
    Big(int),
    /// The elements of a set, each once, in the order in which they first
    /// came.
    SetOf(Seq<Value>),
    /// The pairs of a map, each key once, in the order in which the keys
    /// first came.
    MapOf(Seq<(Value, Value)>),
    Tuple(Seq<Value>),
}

/// A decoded value.
#[derive(Debug)]
pub enum Decoded {
    Int(i64),
    Bool(bool),
    Str(String),
    BigInt(BigInt),
    SetOf(Vec<Decoded>),
    MapOf(Vec<(Decoded, Decoded)>),
    Tuple(Vec<Decoded>),
}

/// What each of a sequence of decoded values denotes.
pub open spec fn values_of(items: Seq<Decoded>) -> Seq<Value>
    decreases items,
{
    Seq::new(
        items.len(),
        |i: int|
            if 0 <= i < items.len() {
                items[i]@
            } else {
                Value::Bool(false)
            },
    )
}

/// What each of a sequence of decoded pairs denotes.
pub open spec fn pairs_of(items: Seq<(Decoded, Decoded)>) -> Seq<(Value, Value)>
    decreases items,
{
    Seq::new(
        items.len(),
        |i: int|
            if 0 <= i < items.len() {
                (items[i].0@, items[i].1@)
            } else {
                (Value::Bool(false), Value::Bool(false))
            },
    )
}

impl View for Decoded {
    type V = Value;

    open spec fn view(&self) -> Value
        decreases self,
    {
        match self {
            Decoded::Int(n) => Value::Int(*n as int),
            Decoded::Bool(b) => Value::Bool(*b),
            Decoded::Str(s) => Value::Str(s@),
            Decoded::BigInt(b) => Value::Big(bigint_value(*b)),
            Decoded::SetOf(items) => Value::SetOf(values_of(items@)),
            Decoded::MapOf(pairs) => Value::MapOf(pairs_of(pairs@)),
            Decoded::Tuple(items) => Value::Tuple(values_of(items@)),
        }
    }
}

/// Decoded equality. Scalars are equal when they are the same; tuples when
/// they agree position by position; sets when each element of the one has an
/// equal in the other, both ways; maps likewise, by their pairs.
pub open spec fn same(a: Value, b: Value) -> bool
    decreases a, 0nat,
{
    match (a, b) {
        (Value::Int(x), Value::Int(y)) => x == y,
        (Value::Bool(x), Value::Bool(y)) => x == y,
        (Value::Str(x), Value::Str(y)) => x == y,
        (Value::Big(x), Value::Big(y)) => x == y,
        (Value::Tuple(xs), Value::Tuple(ys)) => xs.len() == ys.len() && forall|i: int|
            0 <= i < xs.len() ==> same(xs[i], #[trigger] ys[i]),
        (Value::SetOf(xs), Value::SetOf(ys)) => (forall|i: int|
            0 <= i < xs.len() ==> occurs(ys, #[trigger] xs[i])) && (forall|j: int|
            0 <= j < ys.len() ==> has_equal_of(xs, #[trigger] ys[j])),
        (Value::MapOf(xs), Value::MapOf(ys)) => (forall|i: int|
            0 <= i < xs.len() ==> pair_occurs(ys, #[trigger] xs[i])) && (forall|j: int|
            0 <= j < ys.len() ==> has_pair_equal_of(xs, #[trigger] ys[j])),
        _ => false,
    }
}

/// Whether `items` holds a value that `v` is equal to.
pub open spec fn occurs(items: Seq<Value>, v: Value) -> bool
    decreases v, 1nat,
{
    exists|j: int| 0 <= j < items.len() && same(v, #[trigger] items[j])
}

/// Whether `items` holds a value that is equal to `v`.
pub open spec fn has_equal_of(items: Seq<Value>, v: Value) -> bool
    decreases items, 1nat,
{
    exists|i: int| 0 <= i < items.len() && same(#[trigger] items[i], v)
}

/// Two pairs are equal when their keys are and their values are.
pub open spec fn pair_same(p: (Value, Value), q: (Value, Value)) -> bool
    decreases p, 1nat,
{
    same(p.0, q.0) && same(p.1, q.1)
}

/// Whether `pairs` holds a pair that `p` is equal to.
pub open spec fn pair_occurs(pairs: Seq<(Value, Value)>, p: (Value, Value)) -> bool
    decreases p, 2nat,
{
    exists|j: int| 0 <= j < pairs.len() && pair_same(p, #[trigger] pairs[j])
}

/// Whether `pairs` holds a pair that is equal to `q`.
pub open spec fn has_pair_equal_of(pairs: Seq<(Value, Value)>, q: (Value, Value)) -> bool
    decreases pairs, 2nat,
{
    exists|i: int| 0 <= i < pairs.len() && pair_same(#[trigger] pairs[i], q)
}

/// Two sets are equal exactly when each element of either has an equal in
/// the other.
pub proof fn lemma_same_sets(xs: Seq<Value>, ys: Seq<Value>)
    ensures
        same(Value::SetOf(xs), Value::SetOf(ys)) == ((forall|i: int|
            0 <= i < xs.len() ==> occurs(ys, #[trigger] xs[i])) && (forall|j: int|
            0 <= j < ys.len() ==> has_equal_of(xs, #[trigger] ys[j]))),
{
    let a = Value::SetOf(xs);
    let b = Value::SetOf(ys);
    if same(a, b) {
        assert forall|i: int| 0 <= i < xs.len() implies occurs(ys, #[trigger] xs[i]) by {
            assert(occurs(b->SetOf_0, a->SetOf_0[i]));
        }
        assert forall|j: int| 0 <= j < ys.len() implies has_equal_of(xs, #[trigger] ys[j]) by {
            assert(has_equal_of(a->SetOf_0, b->SetOf_0[j]));
        }
    }
}

/// Two maps are equal exactly when each pair of either has an equal in the
/// other.
pub proof fn lemma_same_maps(xs: Seq<(Value, Value)>, ys: Seq<(Value, Value)>)
    ensures
        same(Value::MapOf(xs), Value::MapOf(ys)) == ((forall|i: int|
            0 <= i < xs.len() ==> pair_occurs(ys, #[trigger] xs[i])) && (forall|j: int|
            0 <= j < ys.len() ==> has_pair_equal_of(xs, #[trigger] ys[j]))),
{
    let a = Value::MapOf(xs);
    let b = Value::MapOf(ys);
    if same(a, b) {
        assert forall|i: int| 0 <= i < xs.len() implies pair_occurs(ys, #[trigger] xs[i]) by {
            assert(pair_occurs(b->MapOf_0, a->MapOf_0[i]));
        }
        assert forall|j: int| 0 <= j < ys.len() implies has_pair_equal_of(
            xs,
            #[trigger] ys[j],
        ) by {
            assert(has_pair_equal_of(a->MapOf_0, b->MapOf_0[j]));
        }
    }
}

/// Every value is equal to itself.
pub proof fn lemma_same_reflexive(v: Value)
    ensures
        same(v, v),
    decreases v,
{
    match v {
        Value::Tuple(xs) => {
            assert forall|i: int| 0 <= i < xs.len() implies same(xs[i], #[trigger] xs[i]) by {
                lemma_same_reflexive(xs[i]);
            }
        },
        Value::SetOf(xs) => {
            assert forall|i: int| 0 <= i < xs.len() implies occurs(xs, #[trigger] xs[i])
                && has_equal_of(xs, xs[i]) by {
                lemma_same_reflexive(xs[i]);
            }
        },
        Value::MapOf(xs) => {
            assert forall|i: int| 0 <= i < xs.len() implies pair_occurs(xs, #[trigger] xs[i])
                && has_pair_equal_of(xs, xs[i]) by {
                let p = xs[i];
                assert(decreases_to!(xs => p));
                assert(decreases_to!(p => p.0));
                assert(decreases_to!(p => p.1));
                lemma_same_reflexive(p.0);
                lemma_same_reflexive(p.1);
                assert(pair_same(p, xs[i]));
            }
        },
        _ => {},
    }
}

/// Decoded equality does not depend on which side a value stands.
pub proof fn lemma_same_symmetric(a: Value, b: Value)
    requires
        same(a, b),
    ensures
        same(b, a),
    decreases a,
{
    match (a, b) {
        (Value::Tuple(xs), Value::Tuple(ys)) => {
            assert forall|i: int| 0 <= i < ys.len() implies same(ys[i], #[trigger] xs[i]) by {
                lemma_same_symmetric(xs[i], ys[i]);
            }
        },
        (Value::SetOf(xs), Value::SetOf(ys)) => {
            assert forall|j: int| 0 <= j < ys.len() implies occurs(xs, #[trigger] ys[j]) by {
                assert(has_equal_of(xs, ys[j]));
                let i = choose|i: int| 0 <= i < xs.len() && same(#[trigger] xs[i], ys[j]);
                lemma_same_symmetric(xs[i], ys[j]);
            }
            assert forall|i: int| 0 <= i < xs.len() implies has_equal_of(ys, #[trigger] xs[i]) by {
                assert(occurs(ys, xs[i]));
                let j = choose|j: int| 0 <= j < ys.len() && same(xs[i], #[trigger] ys[j]);
                lemma_same_symmetric(xs[i], ys[j]);
            }
        },
        (Value::MapOf(xs), Value::MapOf(ys)) => {
            assert forall|j: int| 0 <= j < ys.len() implies pair_occurs(xs, #[trigger] ys[j]) by {
                assert(has_pair_equal_of(xs, ys[j]));
                let i = choose|i: int| 0 <= i < xs.len() && pair_same(#[trigger] xs[i], ys[j]);
                let p = xs[i];
                assert(decreases_to!(xs => p));
                assert(decreases_to!(p => p.0));
                assert(decreases_to!(p => p.1));
                lemma_same_symmetric(p.0, ys[j].0);
                lemma_same_symmetric(p.1, ys[j].1);
                assert(pair_same(ys[j], xs[i]));
            }
            assert forall|i: int| 0 <= i < xs.len() implies has_pair_equal_of(
                ys,
                #[trigger] xs[i],
            ) by {
                assert(pair_occurs(ys, xs[i]));
                let j = choose|j: int| 0 <= j < ys.len() && pair_same(xs[i], #[trigger] ys[j]);
                let p = xs[i];
                assert(decreases_to!(xs => p));
                assert(decreases_to!(p => p.0));
                assert(decreases_to!(p => p.1));
                lemma_same_symmetric(p.0, ys[j].0);
                lemma_same_symmetric(p.1, ys[j].1);
                assert(pair_same(ys[j], xs[i]));
            }
        },
        _ => {},
    }
}

/// Values equal to the same value are equal to one another.
pub proof fn lemma_same_transitive(a: Value, b: Value, c: Value)
    requires
        same(a, b),
        same(b, c),
    ensures
        same(a, c),
    decreases a,
{
    match (a, b, c) {
        (Value::Tuple(xs), Value::Tuple(ys), Value::Tuple(zs)) => {
            assert forall|i: int| 0 <= i < xs.len() implies same(xs[i], #[trigger] zs[i]) by {
                assert(same(xs[i], ys[i]));
                assert(same(ys[i], zs[i]));
                lemma_same_transitive(xs[i], ys[i], zs[i]);
            }
        },
        (Value::SetOf(xs), Value::SetOf(ys), Value::SetOf(zs)) => {
            assert forall|i: int| 0 <= i < xs.len() implies occurs(zs, #[trigger] xs[i]) by {
                assert(occurs(ys, xs[i]));
                let j = choose|j: int| 0 <= j < ys.len() && same(xs[i], #[trigger] ys[j]);
                assert(occurs(zs, ys[j]));
                let k = choose|k: int| 0 <= k < zs.len() && same(ys[j], #[trigger] zs[k]);
                lemma_same_transitive(xs[i], ys[j], zs[k]);
            }
            assert forall|k: int| 0 <= k < zs.len() implies has_equal_of(xs, #[trigger] zs[k]) by {
                assert(has_equal_of(ys, zs[k]));
                let j = choose|j: int| 0 <= j < ys.len() && same(#[trigger] ys[j], zs[k]);
                assert(has_equal_of(xs, ys[j]));
                let i = choose|i: int| 0 <= i < xs.len() && same(#[trigger] xs[i], ys[j]);
                lemma_same_transitive(xs[i], ys[j], zs[k]);
            }
        },
        (Value::MapOf(xs), Value::MapOf(ys), Value::MapOf(zs)) => {
            assert forall|i: int| 0 <= i < xs.len() implies pair_occurs(zs, #[trigger] xs[i]) by {
                assert(pair_occurs(ys, xs[i]));
                let j = choose|j: int| 0 <= j < ys.len() && pair_same(xs[i], #[trigger] ys[j]);
                assert(pair_occurs(zs, ys[j]));
                let k = choose|k: int| 0 <= k < zs.len() && pair_same(ys[j], #[trigger] zs[k]);
                let p = xs[i];
                assert(decreases_to!(xs => p));
                assert(decreases_to!(p => p.0));
                assert(decreases_to!(p => p.1));
                lemma_same_transitive(p.0, ys[j].0, zs[k].0);
                lemma_same_transitive(p.1, ys[j].1, zs[k].1);
                assert(pair_same(xs[i], zs[k]));
            }
            assert forall|k: int| 0 <= k < zs.len() implies has_pair_equal_of(
                xs,
                #[trigger] zs[k],
            ) by {
                assert(has_pair_equal_of(ys, zs[k]));
                let j = choose|j: int| 0 <= j < ys.len() && pair_same(#[trigger] ys[j], zs[k]);
                assert(has_pair_equal_of(xs, ys[j]));
                let i = choose|i: int| 0 <= i < xs.len() && pair_same(#[trigger] xs[i], ys[j]);
                let p = xs[i];
                assert(decreases_to!(xs => p));
                assert(decreases_to!(p => p.0));
                assert(decreases_to!(p => p.1));
                lemma_same_transitive(p.0, ys[j].0, zs[k].0);
                lemma_same_transitive(p.1, ys[j].1, zs[k].1);
                assert(pair_same(xs[i], zs[k]));
            }
        },
        _ => {},
    }
}

/// Whether `items` holds a value that `x` is equal to.
pub fn member(items: &Vec<Decoded>, x: &Decoded) -> (r: bool)
    ensures
        r == occurs(values_of(items@), x@),
    decreases x, 1nat,
{
    let mut j: usize = 0;
    while j < items.len()
        invariant
            j <= items.len(),
            forall|k: int| 0 <= k < j ==> !same(x@, #[trigger] values_of(items@)[k]),
        decreases items.len() - j,
    {
        proof {
            assert(decreases_to!(*items => items@));
            assert(decreases_to!(items@ => items@[j as int]));
        }
        if x.same_as(&items[j]) {
            assert(same(x@, values_of(items@)[j as int]));
            return true;
        }
        j += 1;
    }
    false
}

/// Whether `items` holds a value that is equal to `y`.
fn has_equal(items: &Vec<Decoded>, y: &Decoded) -> (r: bool)
    ensures
        r == has_equal_of(values_of(items@), y@),
    decreases items, 1nat,
{
    let mut j: usize = 0;
    while j < items.len()
        invariant
            j <= items.len(),
            forall|k: int| 0 <= k < j ==> !same(#[trigger] values_of(items@)[k], y@),
        decreases items.len() - j,
    {
        proof {
            assert(decreases_to!(*items => items@));
            assert(decreases_to!(items@ => items@[j as int]));
        }
        if items[j].same_as(y) {
            assert(same(values_of(items@)[j as int], y@));
            return true;
        }
        j += 1;
    }
    false
}

/// Whether the keys of `p` and `q` are equal and their values are.
fn pair_same_as(p: &(Decoded, Decoded), q: &(Decoded, Decoded)) -> (r: bool)
    ensures
        r == pair_same((p.0@, p.1@), (q.0@, q.1@)),
    decreases p, 1nat,
{
    p.0.same_as(&q.0) && p.1.same_as(&q.1)
}

/// Whether `pairs` holds a pair that `p` is equal to.
pub fn pair_member(pairs: &Vec<(Decoded, Decoded)>, p: &(Decoded, Decoded)) -> (r: bool)
    ensures
        r == pair_occurs(pairs_of(pairs@), (p.0@, p.1@)),
    decreases p, 2nat,
{
    let mut j: usize = 0;
    while j < pairs.len()
        invariant
            j <= pairs.len(),
            forall|k: int| 0 <= k < j ==> !pair_same((p.0@, p.1@), #[trigger] pairs_of(pairs@)[k]),
        decreases pairs.len() - j,
    {
        proof {
            assert(decreases_to!(*pairs => pairs@));
            assert(decreases_to!(pairs@ => pairs@[j as int]));
        }
        if pair_same_as(p, &pairs[j]) {
            assert(pair_same((p.0@, p.1@), pairs_of(pairs@)[j as int]));
            return true;
        }
        j += 1;
    }
    false
}

/// Whether `pairs` holds a pair that is equal to `q`.
fn has_pair(pairs: &Vec<(Decoded, Decoded)>, q: &(Decoded, Decoded)) -> (r: bool)
    ensures
        r == has_pair_equal_of(pairs_of(pairs@), (q.0@, q.1@)),
    decreases pairs, 2nat,
{
    let mut j: usize = 0;
    while j < pairs.len()
        invariant
            j <= pairs.len(),
            forall|k: int| 0 <= k < j ==> !pair_same(#[trigger] pairs_of(pairs@)[k], (q.0@, q.1@)),
        decreases pairs.len() - j,
    {
        proof {
            assert(decreases_to!(*pairs => pairs@));
            assert(decreases_to!(pairs@ => pairs@[j as int]));
        }
        if pair_same_as(&pairs[j], q) {
            assert(pair_same(pairs_of(pairs@)[j as int], (q.0@, q.1@)));
            return true;
        }
        j += 1;
    }
    false
}

/// Whether each of `xs` is equal to one of `ys`.
fn all_occur(xs: &Vec<Decoded>, ys: &Vec<Decoded>) -> (r: bool)
    ensures
        r == (forall|i: int| 0 <= i < xs@.len() ==> occurs(values_of(ys@), #[trigger] values_of(xs@)[i])),
    decreases xs, 3nat,
{
    let mut j: usize = 0;
    while j < xs.len()
        invariant
            j <= xs.len(),
            forall|k: int| 0 <= k < j ==> occurs(values_of(ys@), #[trigger] values_of(xs@)[k]),
        decreases xs.len() - j,
    {
        proof {
            assert(decreases_to!(*xs => xs@));
            assert(decreases_to!(xs@ => xs@[j as int]));
        }
        if !member(ys, &xs[j]) {
            assert(!occurs(values_of(ys@), values_of(xs@)[j as int]));
            return false;
        }
        j += 1;
    }
    true
}

/// Whether each pair of `xs` is equal to one of `ys`.
fn all_pairs_occur(xs: &Vec<(Decoded, Decoded)>, ys: &Vec<(Decoded, Decoded)>) -> (r: bool)
    ensures
        r == (forall|i: int| 0 <= i < xs@.len() ==> pair_occurs(pairs_of(ys@), #[trigger] pairs_of(xs@)[i])),
    decreases xs, 3nat,
{
    let mut j: usize = 0;
    while j < xs.len()
        invariant
            j <= xs.len(),
            forall|k: int| 0 <= k < j ==> pair_occurs(pairs_of(ys@), #[trigger] pairs_of(xs@)[k]),
        decreases xs.len() - j,
    {
        proof {
            assert(decreases_to!(*xs => xs@));
            assert(decreases_to!(xs@ => xs@[j as int]));
        }
        if !pair_member(ys, &xs[j]) {
            assert(!pair_occurs(pairs_of(ys@), pairs_of(xs@)[j as int]));
            return false;
        }
        j += 1;
    }
    true
}

/// Whether each of `ys` has an equal among `xs`.
fn all_have_equal(xs: &Vec<Decoded>, ys: &Vec<Decoded>) -> (r: bool)
    ensures
        r == (forall|j: int| 0 <= j < ys@.len() ==> has_equal_of(values_of(xs@), #[trigger] values_of(ys@)[j])),
    decreases xs, 3nat,
{
    let mut j: usize = 0;
    while j < ys.len()
        invariant
            j <= ys.len(),
            forall|k: int| 0 <= k < j ==> has_equal_of(values_of(xs@), #[trigger] values_of(ys@)[k]),
        decreases ys.len() - j,
    {
        if !has_equal(xs, &ys[j]) {
            assert(!has_equal_of(values_of(xs@), values_of(ys@)[j as int]));
            return false;
        }
        j += 1;
    }
    true
}

/// Whether each pair of `ys` has an equal among `xs`.
fn all_pairs_have_equal(xs: &Vec<(Decoded, Decoded)>, ys: &Vec<(Decoded, Decoded)>) -> (r: bool)
    ensures
        r == (forall|j: int| 0 <= j < ys@.len() ==> has_pair_equal_of(pairs_of(xs@), #[trigger] pairs_of(ys@)[j])),
    decreases xs, 3nat,
{
    let mut j: usize = 0;
    while j < ys.len()
        invariant
            j <= ys.len(),
            forall|k: int| 0 <= k < j ==> has_pair_equal_of(pairs_of(xs@), #[trigger] pairs_of(ys@)[k]),
        decreases ys.len() - j,
    {
        if !has_pair(xs, &ys[j]) {
            assert(!has_pair_equal_of(pairs_of(xs@), pairs_of(ys@)[j as int]));
            return false;
        }
        j += 1;
    }
    true
}

/// Whether `xs` and `ys` are as long and agree position by position.
fn all_same(xs: &Vec<Decoded>, ys: &Vec<Decoded>) -> (r: bool)
    ensures
        r == (xs@.len() == ys@.len() && forall|i: int|
            0 <= i < xs@.len() ==> same(values_of(xs@)[i], #[trigger] values_of(ys@)[i])),
    decreases xs, 3nat,
{
    if xs.len() != ys.len() {
        return false;
    }
    let mut j: usize = 0;
    while j < xs.len()
        invariant
            j <= xs.len(),
            xs.len() == ys.len(),
            forall|k: int| 0 <= k < j ==> same(values_of(xs@)[k], #[trigger] values_of(ys@)[k]),
        decreases xs.len() - j,
    {
        proof {
            assert(decreases_to!(*xs => xs@));
            assert(decreases_to!(xs@ => xs@[j as int]));
        }
        if !xs[j].same_as(&ys[j]) {
            assert(!same(values_of(xs@)[j as int], values_of(ys@)[j as int]));
            return false;
        }
        j += 1;
    }
    true
}

impl Decoded {
    /// Decoded equality of `self` and `other`.
    pub fn same_as(&self, other: &Decoded) -> (r: bool)
        ensures
            r == same(self@, other@),
        decreases self, 0nat,
    {
        match self {
            Decoded::Int(x) => match other {
                Decoded::Int(y) => *x == *y,
                _ => false,
            },
            Decoded::Bool(x) => match other {
                Decoded::Bool(y) => *x == *y,
                _ => false,
            },
            Decoded::Str(x) => match other {
                Decoded::Str(y) => *x == *y,
                _ => false,
            },
            Decoded::BigInt(x) => match other {
                Decoded::BigInt(y) => bigint_eq(x, y),
                _ => false,
            },
            Decoded::Tuple(xs) => match other {
                Decoded::Tuple(ys) => {
                    assert(self@ == Value::Tuple(values_of(xs@)));
                    assert(other@ == Value::Tuple(values_of(ys@)));
                    assert(values_of(xs@).len() == xs@.len());
                    assert(values_of(ys@).len() == ys@.len());
                    all_same(xs, ys)
                },
                _ => false,
            },
            Decoded::SetOf(xs) => match other {
                Decoded::SetOf(ys) => {
                    assert(self@ == Value::SetOf(values_of(xs@)));
                    assert(other@ == Value::SetOf(values_of(ys@)));
                    assert(values_of(xs@).len() == xs@.len());
                    assert(values_of(ys@).len() == ys@.len());
                    let forth = all_occur(xs, ys);
                    let back = all_have_equal(xs, ys);
                    proof {
                        lemma_same_sets(values_of(xs@), values_of(ys@));
                    }
                    forth && back
                },
                _ => false,
            },
            Decoded::MapOf(xs) => match other {
                Decoded::MapOf(ys) => {
                    assert(self@ == Value::MapOf(pairs_of(xs@)));
                    assert(other@ == Value::MapOf(pairs_of(ys@)));
                    assert(pairs_of(xs@).len() == xs@.len());
                    assert(pairs_of(ys@).len() == ys@.len());
                    let forth = all_pairs_occur(xs, ys);
                    let back = all_pairs_have_equal(xs, ys);
                    proof {
                        lemma_same_maps(pairs_of(xs@), pairs_of(ys@));
                    }
                    forth && back
                },
                _ => false,
            },
        }
    }
}

} // verus!
