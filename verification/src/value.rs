//! The values the format can carry, and the shapes a decoder is asked for.

use vstd::prelude::*;

verus! {

/// A value that can be put on the wire.
#[derive(Debug, PartialEq, Eq)]
pub enum Value {
    /// Written as the word `True` or `False`.
    Bool(bool),
    /// An integer, written in base ten.
    I8(i8),
    I16(i16),
    I32(i32),
    I64(i64),
    U8(u8),
    U16(u16),
    U32(u32),
    U64(u64),
    /// Written as the string of this one character.
    Char(char),
    /// Text, written as its UTF-8 bytes.
    Str(String),
    /// Named fields, in the order in which they are written.
    Struct(Vec<Field>),
    /// Elements inside one frame.
    Sequence(Vec<Value>),
}

/// One named field of a struct.
#[derive(Debug, PartialEq, Eq)]
pub struct Field {
    pub key: String,
    pub value: Value,
}

/// What a decoder is asked to read. The wire carries no types: the caller
/// names the shape, and a struct's shape names its fields in wire order.
#[derive(Debug, PartialEq, Eq)]
pub enum Shape {
    Bool,
    I8,
    I16,
    I32,
    I64,
    U8,
    U16,
    U32,
    U64,
    Char,
    Str,
    Struct(Vec<FieldShape>),
    Sequence(Box<Shape>),
}

/// One named field of a struct's shape.
#[derive(Debug, PartialEq, Eq)]
pub struct FieldShape {
    pub key: String,
    pub shape: Shape,
}

/// The mathematical value that a `Value` stands for.
pub enum SpecValue {
    Bool(bool),
    I8(i8),
    I16(i16),
    I32(i32),
    I64(i64),
    U8(u8),
    U16(u16),
    U32(u32),
    U64(u64),
    Char(char),
    Str(Seq<char>),
    Struct(Seq<SpecField>),
    Sequence(Seq<SpecValue>),
}

/// The mathematical field that a `Field` stands for.
pub struct SpecField {
    pub key: Seq<char>,
    pub value: SpecValue,
}

/// The mathematical shape that a `Shape` stands for.
pub enum SpecShape {
    Bool,
    I8,
    I16,
    I32,
    I64,
    U8,
    U16,
    U32,
    U64,
    Char,
    Str,
    Struct(Seq<SpecFieldShape>),
    Sequence(Box<SpecShape>),
}

/// The mathematical field shape that a `FieldShape` stands for.
pub struct SpecFieldShape {
    pub key: Seq<char>,
    pub shape: SpecShape,
}

/// The model of a value.
pub open spec fn value_view(v: Value) -> SpecValue
    decreases v,
{
    match v {
        Value::Bool(b) => SpecValue::Bool(b),
        Value::I8(i) => SpecValue::I8(i),
        Value::I16(i) => SpecValue::I16(i),
        Value::I32(i) => SpecValue::I32(i),
        Value::I64(i) => SpecValue::I64(i),
        Value::U8(i) => SpecValue::U8(i),
        Value::U16(i) => SpecValue::U16(i),
        Value::U32(i) => SpecValue::U32(i),
        Value::U64(i) => SpecValue::U64(i),
        Value::Char(c) => SpecValue::Char(c),
        Value::Str(s) => SpecValue::Str(s@),
        Value::Struct(fields) => SpecValue::Struct(
            Seq::new(
                fields@.len(),
                |i: int|
                    if 0 <= i < fields@.len() {
                        SpecField { key: fields@[i].key@, value: value_view(fields@[i].value) }
                    } else {
                        arbitrary()
                    },
            ),
        ),
        Value::Sequence(items) => SpecValue::Sequence(
            Seq::new(
                items@.len(),
                |i: int|
                    if 0 <= i < items@.len() {
                        value_view(items@[i])
                    } else {
                        arbitrary()
                    },
            ),
        ),
    }
}

/// The model of a shape.
pub open spec fn shape_view(s: Shape) -> SpecShape
    decreases s,
{
    match s {
        Shape::Bool => SpecShape::Bool,
        Shape::I8 => SpecShape::I8,
        Shape::I16 => SpecShape::I16,
        Shape::I32 => SpecShape::I32,
        Shape::I64 => SpecShape::I64,
        Shape::U8 => SpecShape::U8,
        Shape::U16 => SpecShape::U16,
        Shape::U32 => SpecShape::U32,
        Shape::U64 => SpecShape::U64,
        Shape::Char => SpecShape::Char,
        Shape::Str => SpecShape::Str,
        Shape::Struct(fields) => SpecShape::Struct(
            Seq::new(
                fields@.len(),
                |i: int|
                    if 0 <= i < fields@.len() {
                        SpecFieldShape { key: fields@[i].key@, shape: shape_view(fields@[i].shape) }
                    } else {
                        arbitrary()
                    },
            ),
        ),
        Shape::Sequence(element) => SpecShape::Sequence(Box::new(shape_view(*element))),
    }
}

impl View for Value {
    type V = SpecValue;

    open spec fn view(&self) -> SpecValue {
        value_view(*self)
    }
}

impl View for Field {
    type V = SpecField;

    open spec fn view(&self) -> SpecField {
        SpecField { key: self.key@, value: self.value@ }
    }
}

impl View for Shape {
    type V = SpecShape;

    open spec fn view(&self) -> SpecShape {
        shape_view(*self)
    }
}

impl View for FieldShape {
    type V = SpecFieldShape;

    open spec fn view(&self) -> SpecFieldShape {
        SpecFieldShape { key: self.key@, shape: self.shape@ }
    }
}

/// Whether a value has the given shape: the same kind, a struct's keys in
/// the declared order, and every element of a sequence of the element shape.
pub open spec fn conforms(v: SpecValue, s: SpecShape) -> bool
    decreases v, 0nat,
{
    match (v, s) {
        (SpecValue::Bool(_), SpecShape::Bool) => true,
        (SpecValue::I8(_), SpecShape::I8) => true,
        (SpecValue::I16(_), SpecShape::I16) => true,
        (SpecValue::I32(_), SpecShape::I32) => true,
        (SpecValue::I64(_), SpecShape::I64) => true,
        (SpecValue::U8(_), SpecShape::U8) => true,
        (SpecValue::U16(_), SpecShape::U16) => true,
        (SpecValue::U32(_), SpecShape::U32) => true,
        (SpecValue::U64(_), SpecShape::U64) => true,
        (SpecValue::Char(_), SpecShape::Char) => true,
        (SpecValue::Str(_), SpecShape::Str) => true,
        (SpecValue::Struct(fields), SpecShape::Struct(shapes)) => fields.len() == shapes.len()
            && forall|i: int|
            0 <= i < fields.len() ==> fields[i].key == shapes[i].key && conforms(
                (#[trigger] fields[i]).value,
                shapes[i].shape,
            ),
        (SpecValue::Sequence(items), SpecShape::Sequence(element)) => forall|i: int|
            0 <= i < items.len() ==> conforms(#[trigger] items[i], *element),
        _ => false,
    }
}

} // verus!
