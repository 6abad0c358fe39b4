use vstd::prelude::*;

verus! {

/// The variant of a value, used to report type mismatches.
#[derive(Clone, Copy, Debug, PartialEq, Eq, Structural)]
pub enum Kind {
    Null,
    Boolean,
    Integer,
    Float,
    Bytes,
    Timestamp,
    Regex,
    Array,
    Object,
}

/// The errors produced by the value layer.
#[derive(Clone, Copy, Debug, PartialEq, Eq, Structural)]
pub enum ValueError {
    /// A second mutable access was attempted while one was outstanding.
    ReentrancyViolation,
    /// An operation was applied to a variant that does not support it.
    TypeMismatch { expected: Kind, actual: Kind },
    /// An array index resolved outside the array.
    OutOfBounds,
    /// A value was built from an invalid representation (a NaN float).
    InvalidValue,
}

/// A dynamically typed, recursively nested value.
///
/// A float is held by its IEEE 754 bit pattern and is never NaN. A timestamp
/// is a UTC instant: whole seconds since the epoch and nanoseconds. A regex
/// is held by its pattern. An object keeps its entries in insertion order.
#[derive(Debug)]
pub enum Value {
    Null,
    Boolean(bool),
    Integer(i64),
    Float(u64),
    Bytes(Vec<u8>),
    Timestamp(i64, u32),
    Regex(String),
    Array(Vec<Value>),
    Object(Vec<(String, Value)>),
}

/// The mathematical model of a value tree.
pub enum Model {
    Null,
    Boolean(bool),
    Integer(i64),
    Float(u64),
    Bytes(Seq<u8>),
    Timestamp(i64, u32),
    Regex(Seq<char>),
    Array(Seq<Model>),
    Object(Seq<(Seq<char>, Model)>),
}

pub open spec fn kind_of(m: Model) -> Kind {
    match m {
        Model::Null => Kind::Null,
        Model::Boolean(_) => Kind::Boolean,
        Model::Integer(_) => Kind::Integer,
        Model::Float(_) => Kind::Float,
        Model::Bytes(_) => Kind::Bytes,
        Model::Timestamp(_, _) => Kind::Timestamp,
        Model::Regex(_) => Kind::Regex,
        Model::Array(_) => Kind::Array,
        Model::Object(_) => Kind::Object,
    }
}

/// Whether a 64-bit pattern encodes a NaN: all exponent bits set and a
/// non-zero mantissa.
pub open spec fn is_nan_bits(bits: u64) -> bool {
    (bits as int / 0x10_0000_0000_0000) % 0x800 == 0x7ff && bits as int % 0x10_0000_0000_0000 != 0
}

/// No two entries share a key.
pub open spec fn keys_unique(entries: Seq<(Seq<char>, Model)>) -> bool {
    forall|i: int, j: int|
        0 <= i < entries.len() && 0 <= j < entries.len() && i != j ==> entries[i].0 != entries[j].0
}

/// A well-formed tree: no float is NaN, a timestamp's nanoseconds stay
/// below one second, and no object repeats a key.
pub open spec fn model_wf(m: Model) -> bool
    decreases m,
{
    match m {
        Model::Float(bits) => !is_nan_bits(bits),
        Model::Timestamp(_, nanos) => nanos < 1_000_000_000,
        Model::Array(items) => forall|i: int| 0 <= i < items.len() ==> model_wf(#[trigger] items[i]),
        Model::Object(entries) => keys_unique(entries) && forall|i: int|
            0 <= i < entries.len() ==> model_wf((#[trigger] entries[i]).1),
        _ => true,
    }
}

/// The widening of a value to an integer: an integer as is, a boolean as 1 or 0.
pub open spec fn integer_of(m: Model) -> Result<i64, ValueError> {
    match m {
        Model::Integer(i) => Ok(i),
        Model::Boolean(b) => Ok(if b { 1i64 } else { 0i64 }),
        _ => Err(ValueError::TypeMismatch { expected: Kind::Integer, actual: kind_of(m) }),
    }
}

/// The coercion of a value to a boolean: only a boolean converts.
pub open spec fn boolean_of(m: Model) -> Result<bool, ValueError> {
    match m {
        Model::Boolean(b) => Ok(b),
        _ => Err(ValueError::TypeMismatch { expected: Kind::Boolean, actual: kind_of(m) }),
    }
}

/// The models of a sequence of values, element by element.
pub open spec fn item_models(items: Seq<Value>) -> Seq<Model>
    decreases items,
{
    if items.len() == 0 {
        Seq::empty()
    } else {
        item_models(items.drop_last()).push(items.last()@)
    }
}

/// The models of a sequence of object entries, entry by entry.
pub open spec fn entry_models(entries: Seq<(String, Value)>) -> Seq<(Seq<char>, Model)>
    decreases entries,
{
    if entries.len() == 0 {
        Seq::empty()
    } else {
        entry_models(entries.drop_last()).push((entries.last().0@, entries.last().1@))
    }
}

pub proof fn lemma_item_models(items: Seq<Value>)
    ensures
        item_models(items).len() == items.len(),
        forall|i: int| 0 <= i < items.len() ==> #[trigger] item_models(items)[i] == items[i]@,
    decreases items.len(),
{
    reveal_with_fuel(item_models, 1);
    if items.len() > 0 {
        let init = items.drop_last();
        lemma_item_models(init);
        assert(item_models(items) == item_models(init).push(items.last()@));
        assert forall|i: int| 0 <= i < items.len() implies #[trigger] item_models(items)[i]
            == items[i]@ by {
            if i < init.len() {
                assert(items[i] == init[i]);
            }
        }
    }
}

pub proof fn lemma_entry_models(entries: Seq<(String, Value)>)
    ensures
        entry_models(entries).len() == entries.len(),
        forall|i: int|
            0 <= i < entries.len() ==> #[trigger] entry_models(entries)[i] == (
                entries[i].0@,
                entries[i].1@,
            ),
    decreases entries.len(),
{
    reveal_with_fuel(entry_models, 1);
    if entries.len() > 0 {
        let init = entries.drop_last();
        lemma_entry_models(init);
        assert(entry_models(entries) == entry_models(init).push(
            (entries.last().0@, entries.last().1@),
        ));
        assert forall|i: int| 0 <= i < entries.len() implies #[trigger] entry_models(entries)[i]
            == (entries[i].0@, entries[i].1@) by {
            if i < init.len() {
                assert(entries[i] == init[i]);
            }
        }
    }
}

impl View for Value {
    type V = Model;

    open spec fn view(&self) -> Model
        decreases self,
    {
        match self {
            Value::Null => Model::Null,
            Value::Boolean(b) => Model::Boolean(*b),
            Value::Integer(i) => Model::Integer(*i),
            Value::Float(b) => Model::Float(*b),
            Value::Bytes(b) => Model::Bytes(b@),
            Value::Timestamp(s, n) => Model::Timestamp(*s, *n),
            Value::Regex(p) => Model::Regex(p@),
            Value::Array(items) => Model::Array(item_models(items@)),
            Value::Object(entries) => Model::Object(entry_models(entries@)),
        }
    }
}

impl Value {
    pub open spec fn kind(&self) -> Kind {
        kind_of(self@)
    }

    /// Builds a float value from its bit pattern; a NaN pattern is refused.
    pub fn from_float_bits(bits: u64) -> (r: Result<Value, ValueError>)
        ensures
            is_nan_bits(bits) ==> r == Err::<Value, ValueError>(ValueError::InvalidValue),
            !is_nan_bits(bits) ==> (r matches Ok(v) && v@ == Model::Float(bits) && model_wf(v@)),
    {
        let exponent: u64 = (bits / 0x10_0000_0000_0000) % 0x800;
        let mantissa: u64 = bits % 0x10_0000_0000_0000;
        if exponent == 0x7ff && mantissa != 0 {
            Err(ValueError::InvalidValue)
        } else {
            Ok(Value::Float(bits))
        }
    }

    pub fn value_kind(&self) -> (r: Kind)
        ensures
            r == self.kind(),
    {
        match self {
            Value::Null => Kind::Null,
            Value::Boolean(_) => Kind::Boolean,
            Value::Integer(_) => Kind::Integer,
            Value::Float(_) => Kind::Float,
            Value::Bytes(_) => Kind::Bytes,
            Value::Timestamp(_, _) => Kind::Timestamp,
            Value::Regex(_) => Kind::Regex,
            Value::Array(_) => Kind::Array,
            Value::Object(_) => Kind::Object,
        }
    }

    pub fn is_object(&self) -> (r: bool)
        ensures
            r == (self.kind() == Kind::Object),
    {
        matches!(self, Value::Object(_))
    }

    pub fn is_array(&self) -> (r: bool)
        ensures
            r == (self.kind() == Kind::Array),
    {
        matches!(self, Value::Array(_))
    }

    pub fn is_integer(&self) -> (r: bool)
        ensures
            r == (self.kind() == Kind::Integer),
    {
        matches!(self, Value::Integer(_))
    }

    pub fn is_float(&self) -> (r: bool)
        ensures
            r == (self.kind() == Kind::Float),
    {
        matches!(self, Value::Float(_))
    }

    pub fn is_boolean(&self) -> (r: bool)
        ensures
            r == (self.kind() == Kind::Boolean),
    {
        matches!(self, Value::Boolean(_))
    }

    pub fn is_bytes(&self) -> (r: bool)
        ensures
            r == (self.kind() == Kind::Bytes),
    {
        matches!(self, Value::Bytes(_))
    }

    pub fn is_timestamp(&self) -> (r: bool)
        ensures
            r == (self.kind() == Kind::Timestamp),
    {
        matches!(self, Value::Timestamp(_, _))
    }

    pub fn is_regex(&self) -> (r: bool)
        ensures
            r == (self.kind() == Kind::Regex),
    {
        matches!(self, Value::Regex(_))
    }

    pub fn is_null(&self) -> (r: bool)
        ensures
            r == (self.kind() == Kind::Null),
    {
        matches!(self, Value::Null)
    }

    pub fn try_integer(&self) -> (r: Result<i64, ValueError>)
        ensures
            r == integer_of(self@),
    {
        match self {
            Value::Integer(i) => Ok(*i),
            Value::Boolean(b) => Ok(if *b { 1 } else { 0 }),
            _ => Err(ValueError::TypeMismatch { expected: Kind::Integer, actual: self.value_kind() }),
        }
    }

    pub fn try_boolean(&self) -> (r: Result<bool, ValueError>)
        ensures
            r == boolean_of(self@),
    {
        match self {
            Value::Boolean(b) => Ok(*b),
            _ => Err(ValueError::TypeMismatch { expected: Kind::Boolean, actual: self.value_kind() }),
        }
    }
}

impl Value {
    /// Rebuilds the whole tree: arrays and objects get fresh storage at
    /// every level, scalars are copied.
    #[verifier::loop_isolation(false)]
    pub fn deep_clone(&self) -> (r: Value)
        ensures
            r@ == self@,
        decreases self,
    {
        match self {
            Value::Null => Value::Null,
            Value::Boolean(b) => Value::Boolean(*b),
            Value::Integer(i) => Value::Integer(*i),
            Value::Float(b) => Value::Float(*b),
            Value::Bytes(bytes) => {
                let mut out: Vec<u8> = Vec::new();
                let mut i: usize = 0;
                while i < bytes.len()
                    invariant
                        i <= bytes@.len(),
                        out@ == bytes@.subrange(0, i as int),
                    decreases bytes@.len() - i,
                {
                    out.push(bytes[i]);
                    i += 1;
                }
                assert(out@ == bytes@);
                Value::Bytes(out)
            },
            Value::Timestamp(secs, nanos) => Value::Timestamp(*secs, *nanos),
            Value::Regex(pattern) => Value::Regex(pattern.clone()),
            Value::Array(items) => {
                let mut out: Vec<Value> = Vec::new();
                let mut i: usize = 0;
                while i < items.len()
                    invariant
                        i <= items@.len(),
                        out@.len() == i,
                        forall|j: int| 0 <= j < i ==> #[trigger] out@[j]@ == items@[j]@,
                    decreases items@.len() - i,
                {
                    proof {
                        broadcast use vstd::std_specs::vec::axiom_vec_index_decreases;
                        assert(decreases_to!(*items => items[i as int]));
                        assert(decreases_to!(*self => items[i as int]));
                    }
                    let item = items[i].deep_clone();
                    out.push(item);
                    i += 1;
                }
                proof {
                    lemma_item_models(out@);
                    lemma_item_models(items@);
                    assert(item_models(out@) =~= item_models(items@));
                }
                Value::Array(out)
            },
            Value::Object(entries) => {
                let mut out: Vec<(String, Value)> = Vec::new();
                let mut i: usize = 0;
                while i < entries.len()
                    invariant
                        i <= entries@.len(),
                        out@.len() == i,
                        forall|j: int|
                            0 <= j < i ==> (#[trigger] out@[j]).0@ == entries@[j].0@ && out@[j].1@
                                == entries@[j].1@,
                    decreases entries@.len() - i,
                {
                    proof {
                        broadcast use vstd::std_specs::vec::axiom_vec_index_decreases;
                        assert(decreases_to!(*entries => entries[i as int]));
                        assert(decreases_to!(*self => entries[i as int].1));
                    }
                    let key = entries[i].0.clone();
                    let item = entries[i].1.deep_clone();
                    out.push((key, item));
                    i += 1;
                }
                proof {
                    lemma_entry_models(out@);
                    lemma_entry_models(entries@);
                    assert(entry_models(out@) =~= entry_models(entries@));
                }
                Value::Object(out)
            },
        }
    }
}

} // verus!
