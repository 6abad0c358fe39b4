use vstd::prelude::*;

use crate::path::{find_entry, find_key, lemma_find_key};
use crate::value::{entry_models, item_models, lemma_entry_models, lemma_item_models, Model, Value};

verus! {

/// Whether a float bit pattern is positive or negative zero.
pub open spec fn is_zero_bits(bits: u64) -> bool {
    bits as int % 0x8000_0000_0000_0000 == 0
}

/// Structural equality of two models. Floats compare by bit pattern, but
/// positive and negative zero are equal. Arrays compare element by element.
/// Objects compare as mappings: the same keys, and under each key the
/// values that a lookup finds are equal, whatever the order of the entries.
pub open spec fn equiv(a: Model, b: Model) -> bool
    decreases a,
{
    match (a, b) {
        (Model::Float(x), Model::Float(y)) => x == y || (is_zero_bits(x) && is_zero_bits(y)),
        (Model::Array(x), Model::Array(y)) => x.len() == y.len() && forall|i: int|
            0 <= i < x.len() ==> equiv(#[trigger] x[i], y[i]),
        (Model::Object(x), Model::Object(y)) => (forall|i: int|
            0 <= i < x.len() ==> (#[trigger] find_key(y, x[i].0)) is Some) && (forall|j: int|
            0 <= j < y.len() ==> (#[trigger] find_key(x, y[j].0)) is Some) && forall|i: int|
            0 <= i < x.len() && find_key(x, x[i].0) == Some(i) ==> equiv(
                (#[trigger] x[i]).1,
                y[find_key(y, x[i].0)->Some_0].1,
            ),
        _ => a == b,
    }
}

/// Every value is structurally equal to itself, so a deep copy, whose model
/// is that of its source, is equal to it.
pub proof fn lemma_equiv_reflexive(m: Model)
    ensures
        equiv(m, m),
    decreases m,
{
    match m {
        Model::Array(x) => {
            assert forall|i: int| 0 <= i < x.len() implies equiv(#[trigger] x[i], x[i]) by {
                lemma_equiv_reflexive(x[i]);
            }
        },
        Model::Object(x) => {
            assert forall|i: int| 0 <= i < x.len() implies (#[trigger] find_key(x, x[i].0)) is Some by {
                lemma_find_key(x, x[i].0);
            }
            assert forall|i: int|
                0 <= i < x.len() && find_key(x, x[i].0) == Some(i) implies equiv(
                (#[trigger] x[i]).1,
                x[find_key(x, x[i].0)->Some_0].1,
            ) by {
                lemma_equiv_reflexive(x[i].1);
            }
        },
        _ => {},
    }
}

fn bytes_equal(a: &Vec<u8>, b: &Vec<u8>) -> (r: bool)
    ensures
        r == (a@ == b@),
{
    if a.len() != b.len() {
        return false;
    }
    let mut i: usize = 0;
    while i < a.len()
        invariant
            i <= a@.len(),
            a@.len() == b@.len(),
            forall|k: int| 0 <= k < i ==> a@[k] == b@[k],
        decreases a@.len() - i,
    {
        if a[i] != b[i] {
            return false;
        }
        i += 1;
    }
    assert(a@ =~= b@);
    true
}

/// Whether two values are structurally equal.
#[verifier::loop_isolation(false)]
pub fn equal(a: &Value, b: &Value) -> (r: bool)
    ensures
        r == equiv(a@, b@),
    decreases a,
{
    match (a, b) {
        (Value::Null, Value::Null) => true,
        (Value::Boolean(x), Value::Boolean(y)) => *x == *y,
        (Value::Integer(x), Value::Integer(y)) => *x == *y,
        (Value::Float(x), Value::Float(y)) => {
            *x == *y || (*x % 0x8000_0000_0000_0000 == 0 && *y % 0x8000_0000_0000_0000 == 0)
        },
        (Value::Bytes(x), Value::Bytes(y)) => bytes_equal(x, y),
        (Value::Timestamp(s1, n1), Value::Timestamp(s2, n2)) => *s1 == *s2 && *n1 == *n2,
        (Value::Regex(x), Value::Regex(y)) => *x == *y,
        (Value::Array(x), Value::Array(y)) => {
            let ghost xm = item_models(x@);
            let ghost ym = item_models(y@);
            proof {
                lemma_item_models(x@);
                lemma_item_models(y@);
            }
            if x.len() != y.len() {
                return false;
            }
            let mut i: usize = 0;
            while i < x.len()
                invariant
                    i <= x@.len(),
                    forall|k: int| 0 <= k < i ==> equiv(#[trigger] xm[k], ym[k]),
                decreases x@.len() - i,
            {
                proof {
                    broadcast use vstd::std_specs::vec::axiom_vec_index_decreases;
                    assert(decreases_to!(*x => x[i as int]));
                }
                if !equal(&x[i], &y[i]) {
                    assert(!equiv(xm[i as int], ym[i as int]));
                    return false;
                }
                i += 1;
            }
            true
        },
        (Value::Object(x), Value::Object(y)) => {
            let ghost xm = entry_models(x@);
            let ghost ym = entry_models(y@);
            proof {
                lemma_entry_models(x@);
                lemma_entry_models(y@);
            }
            let mut i: usize = 0;
            while i < x.len()
                invariant
                    i <= x@.len(),
                    forall|k: int| 0 <= k < i ==> (#[trigger] find_key(ym, xm[k].0)) is Some,
                    forall|k: int|
                        0 <= k < i && find_key(xm, xm[k].0) == Some(k) ==> equiv(
                            (#[trigger] xm[k]).1,
                            ym[find_key(ym, xm[k].0)->Some_0].1,
                        ),
                decreases x@.len() - i,
            {
                assert(xm[i as int] == (x@[i as int].0@, x@[i as int].1@));
                match find_entry(y, &x[i].0) {
                    None => {
                        assert(find_key(ym, xm[i as int].0) is None);
                        return false;
                    },
                    Some(j) => {
                        proof {
                            lemma_find_key(ym, xm[i as int].0);
                        }
                        match find_entry(x, &x[i].0) {
                            Some(f) => {
                                if f == i {
                                    proof {
                                        broadcast use vstd::std_specs::vec::axiom_vec_index_decreases;
                                        assert(decreases_to!(*x => x[i as int]));
                                        assert(ym[j as int] == (y@[j as int].0@, y@[j as int].1@));
                                    }
                                    if !equal(&x[i].1, &y[j].1) {
                                        return false;
                                    }
                                }
                            },
                            None => {},
                        }
                    },
                }
                i += 1;
            }
            let mut j: usize = 0;
            while j < y.len()
                invariant
                    j <= y@.len(),
                    forall|k: int| 0 <= k < j ==> (#[trigger] find_key(xm, ym[k].0)) is Some,
                decreases y@.len() - j,
            {
                assert(ym[j as int] == (y@[j as int].0@, y@[j as int].1@));
                match find_entry(x, &y[j].0) {
                    None => {
                        assert(find_key(xm, ym[j as int].0) is None);
                        return false;
                    },
                    Some(_) => {},
                }
                j += 1;
            }
            true
        },
        _ => {
            assert(a@ != b@);
            false
        },
    }
}

impl PartialEq for Value {
    fn eq(&self, other: &Value) -> (r: bool) {
        equal(self, other)
    }
}

impl vstd::std_specs::cmp::PartialEqSpecImpl for Value {
    open spec fn obeys_eq_spec() -> bool {
        true
    }

    open spec fn eq_spec(&self, other: &Value) -> bool {
        equiv(self@, other@)
    }
}

} // verus!
