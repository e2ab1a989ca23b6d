use vstd::prelude::*;

verus! {

/// One element of the wire protocol.
#[derive(PartialEq, Debug)]
pub enum Value {
    SimpleString(String),
    BulkString(String),
    Array(Vec<Value>),
}

/// The mathematical counterpart of `Value`: strings become character sequences.
pub enum SpecValue {
    Simple(Seq<char>),
    Bulk(Seq<char>),
    Array(Seq<SpecValue>),
}

/// The abstract value of an element.
pub open spec fn value_view(v: &Value) -> SpecValue
    decreases v,
{
    match v {
        Value::SimpleString(s) => SpecValue::Simple(s@),
        Value::BulkString(s) => SpecValue::Bulk(s@),
        Value::Array(items) => SpecValue::Array(
            Seq::new(
                items.len() as nat,
                |i: int|
                    if 0 <= i < items.len() {
                        value_view(&items[i])
                    } else {
                        SpecValue::Simple(Seq::empty())
                    },
            ),
        ),
    }
}

/// The abstract values of a sequence of elements.
pub open spec fn values_view(items: Seq<Value>) -> Seq<SpecValue> {
    Seq::new(items.len(), |i: int| value_view(&items[i]))
}

/// A deep copy of an element.
pub fn copy_value(v: &Value) -> (r: Value)
    ensures
        r@ == v@,
    decreases v,
{
    match v {
        Value::SimpleString(s) => Value::SimpleString(s.clone()),
        Value::BulkString(s) => Value::BulkString(s.clone()),
        Value::Array(items) => {
            let mut copies: Vec<Value> = Vec::new();
            let mut i: usize = 0;
            assert(decreases_to!(v => items));
            while i < items.len()
                invariant
                    i <= items@.len(),
                    copies@.len() == i,
                    *v == Value::Array(*items),
                    decreases_to!(v => items),
                    forall|j: int| 0 <= j < i ==> #[trigger] value_view(&copies@[j]) == value_view(&items@[j]),
                decreases items@.len() - i,
            {
                proof {
                    vstd::std_specs::vec::axiom_vec_index_decreases(*items, i as int);
                    assert(decreases_to!(v => items[i as int]));
                }
                copies.push(copy_value(&items[i]));
                i = i + 1;
            }
            let r = Value::Array(copies);
            assert(r@ == v@) by {
                assert(values_view(copies@) =~= r@->Array_0);
                assert(values_view(items@) =~= v@->Array_0);
                assert(values_view(copies@) =~= values_view(items@));
            }
            r
        },
    }
}

impl Clone for Value {
    fn clone(&self) -> Value {
        copy_value(self)
    }
}

impl View for Value {
    type V = SpecValue;

    open spec fn view(&self) -> SpecValue {
        value_view(self)
    }
}

/// The text of a string-typed element; `None` for an array.
pub open spec fn text_of(v: SpecValue) -> Option<Seq<char>> {
    match v {
        SpecValue::Simple(s) => Some(s),
        SpecValue::Bulk(s) => Some(s),
        SpecValue::Array(_) => None,
    }
}

/// Why a decoded element is not a command.
#[derive(Clone, Copy, PartialEq, Eq, Debug, Structural)]
pub enum CommandError {
    /// The root element is not an array.
    NotAnArray,
    /// The array has no elements.
    Empty,
    /// An element of the array is not a string.
    NotAString,
}

/// What a command element holds: its name and its arguments, or why it is not one.
pub open spec fn spec_command(v: SpecValue) -> Result<(Seq<char>, Seq<SpecValue>), CommandError> {
    match v {
        SpecValue::Array(items) => if items.len() == 0 {
            Err(CommandError::Empty)
        } else if exists|i: int| 0 <= i < items.len() && text_of(#[trigger] items[i]) is None {
            Err(CommandError::NotAString)
        } else {
            Ok((text_of(items[0])->0, items.drop_first()))
        },
        _ => Err(CommandError::NotAnArray),
    }
}

/// The text of a simple or bulk string; `None` for an array.
pub fn extract_string(value: &Value) -> (r: Option<String>)
    ensures
        r is Some <==> text_of(value@) is Some,
        r matches Some(s) ==> s@ == text_of(value@)->0,
{
    match value {
        Value::SimpleString(x) => Some(x.clone()),
        Value::BulkString(x) => Some(x.clone()),
        Value::Array(_) => None,
    }
}

/// Splits a command element into its name and its arguments.
pub fn get_command(val: Value) -> (r: Result<(String, Vec<Value>), CommandError>)
    ensures
        match spec_command(val@) {
            Ok((name, args)) => r matches Ok((n, rest)) && n@ == name && values_view(rest@) == args,
            Err(e) => r == Err::<(String, Vec<Value>), CommandError>(e),
        },
{
    match val {
        Value::Array(v) => {
            let ghost items = v@;
            assert(values_view(items) =~= val@->Array_0);
            assert(val@ == SpecValue::Array(values_view(items)));
            if v.len() == 0 {
                return Err(CommandError::Empty);
            }
            let mut i: usize = 0;
            while i < v.len()
                invariant
                    v@ == items,
                    val@ == SpecValue::Array(values_view(items)),
                    forall|j: int| 0 <= j < i ==> text_of(#[trigger] values_view(items)[j]) is Some,
                decreases v.len() - i,
            {
                match &v[i] {
                    Value::Array(_) => {
                        assert(text_of(values_view(items)[i as int]) is None);
                        return Err(CommandError::NotAString);
                    },
                    _ => {},
                }
                i = i + 1;
            }
            let mut rest = v;
            let first = rest.remove(0);
            assert(values_view(rest@) =~= values_view(items).drop_first());
            match first {
                Value::SimpleString(x) => Ok((x, rest)),
                Value::BulkString(x) => Ok((x, rest)),
                Value::Array(_) => {
                    assert(text_of(values_view(items)[0]) is None);
                    Err(CommandError::NotAString)
                },
            }
        },
        _ => Err(CommandError::NotAnArray),
    }
}

} // verus!
