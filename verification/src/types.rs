//! Primitive SQL datatypes and values.

use vstd::prelude::*;

verus! {

/// A primitive datatype.
#[derive(Clone, Copy, Debug, PartialEq, Eq, Structural)]
pub enum DataType {
    Boolean,
    Integer,
    String,
}

/// A SQL value.
#[derive(Debug)]
pub enum Value {
    Null,
    Boolean(bool),
    Integer(i64),
    String(String),
}

/// Value equality: nulls match nulls, strings compare by their characters.
pub open spec fn val_eq(a: Value, b: Value) -> bool {
    match (a, b) {
        (Value::Null, Value::Null) => true,
        (Value::Boolean(x), Value::Boolean(y)) => x == y,
        (Value::Integer(x), Value::Integer(y)) => x == y,
        (Value::String(x), Value::String(y)) => x@ == y@,
        _ => false,
    }
}

impl Value {
    /// The value's datatype; a null has none.
    pub open spec fn datatype_spec(&self) -> Option<DataType> {
        match self {
            Value::Null => None,
            Value::Boolean(_) => Some(DataType::Boolean),
            Value::Integer(_) => Some(DataType::Integer),
            Value::String(_) => Some(DataType::String),
        }
    }

    /// Returns the value's datatype, or none for a null.
    pub fn datatype(&self) -> (r: Option<DataType>)
        ensures
            r == self.datatype_spec(),
    {
        match self {
            Value::Null => None,
            Value::Boolean(_) => Some(DataType::Boolean),
            Value::Integer(_) => Some(DataType::Integer),
            Value::String(_) => Some(DataType::String),
        }
    }

    /// Whether two values are equal; strings compare by contents.
    pub fn value_eq(&self, other: &Value) -> (r: bool)
        ensures
            r == val_eq(*self, *other),
    {
        match (self, other) {
            (Value::Null, Value::Null) => true,
            (Value::Boolean(x), Value::Boolean(y)) => *x == *y,
            (Value::Integer(x), Value::Integer(y)) => *x == *y,
            (Value::String(x), Value::String(y)) => *x == *y,
            _ => false,
        }
    }
}

impl Clone for Value {
    fn clone(&self) -> (r: Value)
        ensures
            r == *self,
    {
        match self {
            Value::Null => Value::Null,
            Value::Boolean(b) => Value::Boolean(*b),
            Value::Integer(i) => Value::Integer(*i),
            Value::String(s) => Value::String(s.clone()),
        }
    }
}

/// A row of values.
pub type Row = Vec<Value>;

/// An expression over row fields, evaluated by the engine's executor.
#[derive(Debug)]
pub enum Expression {
    Constant(Value),
    Field(usize, Option<String>),
    And(Box<Expression>, Box<Expression>),
    Or(Box<Expression>, Box<Expression>),
    Not(Box<Expression>),
    Equal(Box<Expression>, Box<Expression>),
}

} // verus!
