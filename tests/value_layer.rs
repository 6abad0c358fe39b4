use vrl_value::path::Segment;
use vrl_value::shared_value::{NodeStore, SharedValue};
use vrl_value::value::{Kind, Value, ValueError};

fn field(name: &str) -> Segment {
    Segment::Field(name.to_string())
}

fn object(entries: Vec<(&str, Value)>) -> Value {
    Value::Object(entries.into_iter().map(|(k, v)| (k.to_string(), v)).collect())
}

fn is_integer_value(v: &Value, expected: i64) -> bool {
    matches!(v, Value::Integer(i) if *i == expected)
}

fn sample_tree() -> Value {
    object(vec![
        ("a", Value::Integer(1)),
        (
            "list",
            Value::Array(vec![Value::Integer(10), Value::Integer(20), Value::Integer(30)]),
        ),
        ("text", Value::Bytes(b"hello".to_vec())),
    ])
}

fn same(a: &Value, b: &Value) -> bool {
    match (a, b) {
        (Value::Null, Value::Null) => true,
        (Value::Boolean(x), Value::Boolean(y)) => x == y,
        (Value::Integer(x), Value::Integer(y)) => x == y,
        (Value::Float(x), Value::Float(y)) => x == y,
        (Value::Bytes(x), Value::Bytes(y)) => x == y,
        (Value::Timestamp(s1, n1), Value::Timestamp(s2, n2)) => s1 == s2 && n1 == n2,
        (Value::Regex(x), Value::Regex(y)) => x == y,
        (Value::Array(x), Value::Array(y)) => {
            x.len() == y.len() && x.iter().zip(y.iter()).all(|(p, q)| same(p, q))
        }
        (Value::Object(x), Value::Object(y)) => {
            x.len() == y.len()
                && x.iter().zip(y.iter()).all(|(p, q)| p.0 == q.0 && same(&p.1, &q.1))
        }
        _ => false,
    }
}

#[test]
fn kind_predicates() {
    let v = sample_tree();
    assert!(v.is_object());
    assert!(!v.is_array());
    assert!(Value::Null.is_null());
    assert!(Value::Boolean(true).is_boolean());
    assert!(Value::Integer(3).is_integer());
    assert!(Value::Bytes(vec![]).is_bytes());
    assert!(Value::Timestamp(1385053862, 0).is_timestamp());
    assert!(Value::Regex("a+".to_string()).is_regex());
    assert!(Value::Array(vec![]).is_array());
    assert!(!Value::Null.is_integer());
}

#[test]
fn integer_coercion() {
    assert_eq!(Value::Integer(42).try_integer(), Ok(42));
    assert_eq!(Value::Boolean(true).try_integer(), Ok(1));
    assert_eq!(Value::Boolean(false).try_integer(), Ok(0));
    assert_eq!(
        Value::Bytes(b"42".to_vec()).try_integer(),
        Err(ValueError::TypeMismatch { expected: Kind::Integer, actual: Kind::Bytes })
    );
}

#[test]
fn boolean_coercion() {
    assert_eq!(Value::Boolean(true).try_boolean(), Ok(true));
    assert_eq!(
        Value::Integer(1).try_boolean(),
        Err(ValueError::TypeMismatch { expected: Kind::Boolean, actual: Kind::Integer })
    );
}

#[test]
fn float_bits_reject_nan() {
    assert_eq!(Value::from_float_bits(f64::NAN.to_bits()).err(), Some(ValueError::InvalidValue));
    let v = Value::from_float_bits(2001.1002f64.to_bits()).unwrap();
    match v {
        Value::Float(bits) => assert_eq!(f64::from_bits(bits), 2001.1002),
        _ => panic!("expected a float"),
    }
    assert!(Value::from_float_bits(f64::INFINITY.to_bits()).is_ok());
}

#[test]
fn deep_clone_is_equal_and_independent() {
    let source = sample_tree();
    let mut copy = source.deep_clone();
    assert!(same(&copy, &source));
    copy.insert(&[field("list"), Segment::Index(0)], Value::Integer(99)).unwrap();
    let read = source.get(&[field("list"), Segment::Index(0)]).unwrap().unwrap();
    assert!(is_integer_value(read, 10));
    assert!(!same(&copy, &source));
}

#[test]
fn read_after_write() {
    let mut v = sample_tree();
    let path = [field("new"), field("deep"), Segment::Index(2)];
    v.insert(&path, Value::Integer(5)).unwrap();
    assert!(is_integer_value(v.get(&path).unwrap().unwrap(), 5));
    let filler = v.get(&[field("new"), field("deep"), Segment::Index(0)]).unwrap().unwrap();
    assert!(filler.is_null());
    let arr = v.get(&[field("new"), field("deep")]).unwrap().unwrap();
    match arr {
        Value::Array(items) => assert_eq!(items.len(), 3),
        _ => panic!("expected an array"),
    }
}

#[test]
fn overwrite_existing_field() {
    let mut v = sample_tree();
    v.insert(&[field("a")], Value::Boolean(true)).unwrap();
    assert_eq!(v.get(&[field("a")]).unwrap().unwrap().try_boolean(), Ok(true));
}

#[test]
fn missing_field_reads_absent() {
    let v = sample_tree();
    assert!(v.get(&[field("nope")]).unwrap().is_none());
    assert!(v.get(&[field("nope"), Segment::Index(3)]).unwrap().is_none());
}

#[test]
fn negative_index_reads_from_end() {
    let v = sample_tree();
    let last = v.get(&[field("list"), Segment::Index(-1)]).unwrap().unwrap();
    let by_len = v.get(&[field("list"), Segment::Index(2)]).unwrap().unwrap();
    assert!(is_integer_value(last, 30));
    assert!(same(last, by_len));
    let first = v.get(&[field("list"), Segment::Index(-3)]).unwrap().unwrap();
    assert!(is_integer_value(first, 10));
}

#[test]
fn negative_index_on_empty_array() {
    let v = Value::Array(vec![]);
    assert_eq!(v.get(&[Segment::Index(-1)]).err(), Some(ValueError::OutOfBounds));
    let w = sample_tree();
    assert_eq!(w.get(&[field("list"), Segment::Index(3)]).err(), Some(ValueError::OutOfBounds));
    assert_eq!(w.get(&[field("list"), Segment::Index(-4)]).err(), Some(ValueError::OutOfBounds));
}

#[test]
fn type_mismatch_on_path() {
    let mut v = sample_tree();
    assert_eq!(
        v.get(&[field("a"), field("b")]).err(),
        Some(ValueError::TypeMismatch { expected: Kind::Object, actual: Kind::Integer })
    );
    assert_eq!(
        v.get(&[field("text"), Segment::Index(0)]).err(),
        Some(ValueError::TypeMismatch { expected: Kind::Array, actual: Kind::Bytes })
    );
    assert_eq!(
        v.insert(&[field("a"), Segment::Index(0)], Value::Null),
        Err(ValueError::TypeMismatch { expected: Kind::Array, actual: Kind::Integer })
    );
    assert!(is_integer_value(v.get(&[field("a")]).unwrap().unwrap(), 1));
}

#[test]
fn remove_then_read_is_absent() {
    let mut v = sample_tree();
    let removed = v.remove(&[field("a")]).unwrap().unwrap();
    assert!(is_integer_value(&removed, 1));
    assert!(v.get(&[field("a")]).unwrap().is_none());
    assert!(v.get(&[field("text")]).unwrap().unwrap().is_bytes());
}

#[test]
fn remove_drops_every_entry_with_the_key() {
    let mut v = object(vec![("k", Value::Integer(1)), ("x", Value::Null), ("k", Value::Integer(2))]);
    let removed = v.remove(&[field("k")]).unwrap().unwrap();
    assert!(is_integer_value(&removed, 1));
    assert!(v.get(&[field("k")]).unwrap().is_none());
    match v {
        Value::Object(entries) => assert_eq!(entries.len(), 1),
        _ => panic!("expected an object"),
    }
}

#[test]
fn remove_array_element() {
    let mut v = sample_tree();
    let removed = v.remove(&[field("list"), Segment::Index(-1)]).unwrap().unwrap();
    assert!(is_integer_value(&removed, 30));
    assert_eq!(v.remove(&[field("list"), Segment::Index(5)]).err(), Some(ValueError::OutOfBounds));
    let arr = v.get(&[field("list")]).unwrap().unwrap();
    match arr {
        Value::Array(items) => assert_eq!(items.len(), 2),
        _ => panic!("expected an array"),
    }
}

#[test]
fn remove_missing_and_mismatch() {
    let mut v = sample_tree();
    assert!(v.remove(&[field("none"), field("deeper")]).unwrap().is_none());
    assert_eq!(
        v.remove(&[field("a"), field("b")]).err(),
        Some(ValueError::TypeMismatch { expected: Kind::Object, actual: Kind::Integer })
    );
    assert!(same(&v, &sample_tree()));
}

#[test]
fn set_returns_previous() {
    let mut v = sample_tree();
    let previous = v.set(&[field("list"), Segment::Index(1)], Value::Boolean(true)).unwrap();
    assert!(is_integer_value(&previous.unwrap(), 20));
    assert!(v.set(&[field("fresh")], Value::Integer(3)).unwrap().is_none());
    assert!(is_integer_value(v.get(&[field("fresh")]).unwrap().unwrap(), 3));
}

#[test]
fn object_equality_ignores_order() {
    let a = object(vec![("x", Value::Integer(1)), ("y", Value::Bytes(b"b".to_vec()))]);
    let b = object(vec![("y", Value::Bytes(b"b".to_vec())), ("x", Value::Integer(1))]);
    assert!(a == b);
    let c = object(vec![("x", Value::Integer(1)), ("y", Value::Bytes(b"c".to_vec()))]);
    assert!(a != c);
    let d = object(vec![("x", Value::Integer(1))]);
    assert!(a != d);
    assert!(d != a);
}

#[test]
fn array_equality_keeps_order() {
    let a = Value::Array(vec![Value::Integer(1), Value::Integer(2)]);
    let b = Value::Array(vec![Value::Integer(2), Value::Integer(1)]);
    assert!(a != b);
    assert!(a == a.deep_clone());
    assert!(Value::Integer(1) != Value::Boolean(true));
}

#[test]
fn deep_clone_equals_source() {
    let v = sample_tree();
    assert!(v.deep_clone() == v);
}

#[test]
fn shared_deep_clone_is_independent() {
    let mut store = NodeStore::new();
    let a = SharedValue::new(&mut store, sample_tree());
    let b = a.deep_clone(&mut store);
    assert!(a.equals(&b, &store));
    b.replace(&mut store, Value::Null).unwrap();
    assert!(a.is_object(&store));
    assert!(b.is_null(&store));
}

#[test]
fn shared_null() {
    let mut store = NodeStore::new();
    let v = SharedValue::null(&mut store);
    assert!(v.is_null(&store));
    assert!(!v.is_borrowed(&store));
    assert_eq!(
        v.try_integer(&store),
        Err(ValueError::TypeMismatch { expected: Kind::Integer, actual: Kind::Null })
    );
}

#[test]
fn shared_coercions_and_predicates() {
    let mut store = NodeStore::new();
    let v = SharedValue::new(&mut store, Value::Boolean(true));
    assert_eq!(v.try_integer(&store), Ok(1));
    assert_eq!(v.try_boolean(&store), Ok(true));
    assert!(v.is_boolean(&store));
    assert!(!v.is_bytes(&store) && !v.is_float(&store) && !v.is_integer(&store));
    assert!(!v.is_regex(&store) && !v.is_array(&store) && !v.is_object(&store));
    assert!(!v.is_timestamp(&store) && !v.is_null(&store));
}

#[test]
fn second_mutable_access_fails() {
    let mut store = NodeStore::new();
    let v = SharedValue::new(&mut store, Value::Integer(5));
    let w = v.share(&mut store);
    let content = v.begin_access(&mut store).unwrap();
    assert!(v.is_borrowed(&store));
    assert!(w.is_borrowed(&store));
    assert_eq!(w.begin_access(&mut store).err(), Some(ValueError::ReentrancyViolation));
    assert_eq!(v.begin_access(&mut store).err(), Some(ValueError::ReentrancyViolation));
    assert_eq!(w.borrow(&store).err(), Some(ValueError::ReentrancyViolation));
    assert_eq!(w.replace(&mut store, Value::Null).err(), Some(ValueError::ReentrancyViolation));
    assert!(is_integer_value(&content, 5));
    v.end_access(&mut store, Value::Integer(6));
    assert!(!w.is_borrowed(&store));
    assert_eq!(w.try_integer(&store), Ok(6));
}

#[test]
fn borrow_mut_is_one_scoped_access() {
    let mut store = NodeStore::new();
    let a = SharedValue::new(&mut store, Value::Integer(1));
    let b = a.share(&mut store);
    b.borrow_mut(&mut store, |v| match v {
        Value::Integer(i) => Value::Integer(i + 1),
        other => other,
    })
    .unwrap();
    assert!(!a.is_borrowed(&store));
    assert_eq!(a.try_integer(&store), Ok(2));
    assert_eq!(b.try_integer(&store), Ok(2));
}

#[test]
fn replace_is_seen_by_every_handle() {
    let mut store = NodeStore::new();
    let v = SharedValue::new(&mut store, Value::Integer(7));
    let w = v.share(&mut store);
    let previous = v.replace(&mut store, Value::Boolean(false)).unwrap();
    assert!(is_integer_value(&previous, 7));
    assert_eq!(w.try_boolean(&store), Ok(false));
}

#[test]
fn swap_exchanges_node_contents() {
    let mut store = NodeStore::new();
    let a = SharedValue::new(&mut store, Value::Integer(1));
    let b = SharedValue::new(&mut store, Value::Bytes(b"x".to_vec()));
    let a2 = a.share(&mut store);
    a.swap(&b, &mut store).unwrap();
    assert_eq!(a.swap(&a2, &mut store), Err(ValueError::ReentrancyViolation));
    assert!(a.is_bytes(&store));
    assert!(a2.is_bytes(&store));
    assert_eq!(b.try_integer(&store), Ok(1));
    let _content = a.begin_access(&mut store).unwrap();
    assert_eq!(a.swap(&b, &mut store), Err(ValueError::ReentrancyViolation));
}

#[test]
fn extraction_sole_and_shared() {
    let mut store = NodeStore::new();
    let sole = SharedValue::new(&mut store, sample_tree());
    let v = sole.into_value(&mut store);
    assert!(v == sample_tree());

    let a = SharedValue::new(&mut store, sample_tree());
    let b = a.share(&mut store);
    let mut extracted = b.into_value(&mut store);
    assert!(extracted == sample_tree());
    extracted.insert(&[field("a")], Value::Null).unwrap();
    assert!(a.borrow(&store).unwrap() == &sample_tree());
}

#[test]
fn shared_equality_is_structural() {
    let mut store = NodeStore::new();
    let a = SharedValue::new(&mut store, sample_tree());
    let b = SharedValue::new(&mut store, sample_tree());
    assert!(a.equals(&b, &store));
    let c = SharedValue::null(&mut store);
    assert!(!a.equals(&c, &store));
}

#[test]
fn write_negative_index_out_of_bounds() {
    let mut v = Value::Array(vec![]);
    assert_eq!(v.insert(&[Segment::Index(-1)], Value::Integer(1)), Err(ValueError::OutOfBounds));
    v.insert(&[Segment::Index(1)], Value::Integer(1)).unwrap();
    v.insert(&[Segment::Index(-2)], Value::Integer(0)).unwrap();
    assert!(is_integer_value(v.get(&[Segment::Index(0)]).unwrap().unwrap(), 0));
    let mut w = sample_tree();
    assert_eq!(
        w.insert(&[field("fresh"), Segment::Index(-1)], Value::Null),
        Err(ValueError::OutOfBounds)
    );
}

#[test]
fn write_through_null_is_a_mismatch() {
    let mut v = object(vec![("n", Value::Null)]);
    assert_eq!(
        v.insert(&[field("n"), field("k")], Value::Integer(1)),
        Err(ValueError::TypeMismatch { expected: Kind::Object, actual: Kind::Null })
    );
    assert_eq!(
        v.insert(&[field("n"), Segment::Index(0)], Value::Integer(1)),
        Err(ValueError::TypeMismatch { expected: Kind::Array, actual: Kind::Null })
    );
    assert!(v.get(&[field("n")]).unwrap().unwrap().is_null());
}

#[test]
fn signed_zeros_are_equal() {
    let pos = Value::Float(0.0f64.to_bits());
    let neg = Value::Float((-0.0f64).to_bits());
    assert!(pos == neg);
    assert!(Value::Float(1.0f64.to_bits()) != Value::Float((-1.0f64).to_bits()));
}

#[test]
fn scoped_access_ends_with_the_call() {
    let mut store = NodeStore::new();
    let a = SharedValue::new(&mut store, Value::Integer(1));
    a.borrow_mut(&mut store, |_| Value::Integer(5)).unwrap();
    assert!(!a.is_borrowed(&store));
    a.borrow_mut(&mut store, |v| v).unwrap();
    assert_eq!(a.try_integer(&store), Ok(5));
    let _open = a.begin_access(&mut store).unwrap();
    assert_eq!(a.borrow_mut(&mut store, |v| v), Err(ValueError::ReentrancyViolation));
}

#[test]
fn handle_counts() {
    let mut store = NodeStore::new();
    let a = SharedValue::new(&mut store, sample_tree());
    let b = a.share(&mut store);
    assert_eq!(a.handle_count(&store), 2);
    b.give_up(&mut store);
    assert_eq!(a.handle_count(&store), 1);
    let keep = a.share(&mut store);
    let v = a.into_value(&mut store);
    assert!(v == sample_tree());
    assert_eq!(keep.handle_count(&store), 1);
    assert!(keep.is_object(&store));
    let w = keep.into_value(&mut store);
    assert!(w == sample_tree());
}
