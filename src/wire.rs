use vstd::prelude::*;


verus! {

// The framing bytes. They are mutually distinct, and none of them can
// occur inside well-formed UTF-8 (which never holds 0xF5..=0xFF).
pub const STRING_DELIMITER: u8 = 0xFF;
pub const BYTE_DELIMITER: u8 = 0xFE;
pub const UNIT: u8 = 0xFD;
pub const SEQ_DELIMITER: u8 = 0xFC;
pub const SEQ_VALUE_DELIMITER: u8 = 0xFB;
pub const MAP_DELIMITER: u8 = 0xFA;
pub const MAP_KEY_DELIMITER: u8 = 0xF9;
pub const MAP_VALUE_DELIMITER: u8 = 0xF8;
pub const MAP_VALUE_SEPARATOR: u8 = 0xF7;
pub const ENUM_DELIMITER: u8 = 0xF6;

/// The fixed-width primitives. Floats travel as their IEEE-754 bit patterns.
#[derive(Debug, Clone, Copy, PartialEq, Eq, Structural)]
pub enum IntKind {
    U8,
    U16,
    U32,
    U64,
    I8,
    I16,
    I32,
    I64,
    F32,
    F64,
}

pub open spec fn kind_width(k: IntKind) -> nat {
    match k {
        IntKind::U8 | IntKind::I8 => 1,
        IntKind::U16 | IntKind::I16 => 2,
        IntKind::U32 | IntKind::I32 | IntKind::F32 => 4,
        IntKind::U64 | IntKind::I64 | IntKind::F64 => 8,
    }
}

/// The schema that both sides must agree on: what a decoder expects to read.
#[derive(Debug)]
pub enum Shape {
    Bool,
    Int(IntKind),
    Char,
    Str,
    Bytes,
    Unit,
    Opt(Box<Shape>),
    /// A sequence (a `Vec`, a tuple or a tuple struct).
    Sequence(ListShape),
    /// A map with the given key shape; a struct is a map with string keys.
    Mapping(Box<Shape>, ListShape),
    /// One entry per variant: `None` for a unit variant, else its payload.
    Enum(Vec<Option<Shape>>),
}

/// The shapes of the items of a sequence, or of the values of a map.
#[derive(Debug)]
pub enum ListShape {
    /// Any number of items of one shape.
    Repeat(Box<Shape>),
    /// Exactly one item per listed shape, in this order.
    Fixed(Vec<Shape>),
}

pub open spec fn in_range(ls: ListShape, i: nat) -> bool {
    match ls {
        ListShape::Repeat(_) => true,
        ListShape::Fixed(fs) => i < fs@.len(),
    }
}

pub open spec fn item_shape(ls: ListShape, i: nat) -> Shape {
    match ls {
        ListShape::Repeat(s) => *s,
        ListShape::Fixed(fs) => fs@[i as int],
    }
}

/// A value of the data model.
#[derive(Debug)]
pub enum Value {
    Bool(bool),
    U8(u8),
    U16(u16),
    U32(u32),
    U64(u64),
    I8(i8),
    I16(i16),
    I32(i32),
    I64(i64),
    /// An `f32`, held as `f32::to_bits`.
    F32(u32),
    /// An `f64`, held as `f64::to_bits`.
    F64(u64),
    Char(char),
    Str(String),
    /// A byte buffer. Payloads are not escaped: a buffer holding
    /// `BYTE_DELIMITER` does not decode back to itself.
    Bytes(Vec<u8>),
    Unit,
    /// An optional. A present value carries no marker: one whose encoding
    /// starts with the `UNIT` byte (a unit, an absent optional, a `u8` equal
    /// to `UNIT`) decodes back as absent.
    Opt(Option<Box<Value>>),
    /// A sequence. Its first item's encoding must not start with
    /// `SEQ_DELIMITER` (as a nested sequence's does), or the sequence reads as
    /// empty.
    Sequence(Vec<Value>),
    Mapping(Vec<(Value, Value)>),
    /// A variant index and, unless it is a unit variant, its payload.
    Enum(u32, Option<Box<Value>>),
}

/// The mathematical model of a `Value`: integers are held as their unsigned
/// bit pattern (two's complement for signed kinds), characters as their code.
pub enum Val {
    Bool(bool),
    Int(IntKind, nat),
    Char(nat),
    Str(Seq<char>),
    Bytes(Seq<u8>),
    Unit,
    Opt(Option<Box<Val>>),
    Sequence(Seq<Val>),
    Mapping(Seq<(Val, Val)>),
    Enum(nat, Option<Box<Val>>),
}

/// `256` to the power `w`.
pub open spec fn radix(w: nat) -> nat
    decreases w,
{
    if w == 0 {
        1
    } else {
        256 * radix((w - 1) as nat)
    }
}

/// Two's complement bit pattern of `x` on `w` bytes.
pub open spec fn twos(x: int, w: nat) -> nat {
    if x < 0 {
        (x + radix(w)) as nat
    } else {
        x as nat
    }
}

/// The code of a character.
pub open spec fn char_code(c: char) -> nat {
    (c as u32) as nat
}

pub open spec fn value_view(v: Value) -> Val
    decreases v,
{
    match v {
        Value::Bool(b) => Val::Bool(b),
        Value::U8(x) => Val::Int(IntKind::U8, x as nat),
        Value::U16(x) => Val::Int(IntKind::U16, x as nat),
        Value::U32(x) => Val::Int(IntKind::U32, x as nat),
        Value::U64(x) => Val::Int(IntKind::U64, x as nat),
        Value::I8(x) => Val::Int(IntKind::I8, twos(x as int, 1)),
        Value::I16(x) => Val::Int(IntKind::I16, twos(x as int, 2)),
        Value::I32(x) => Val::Int(IntKind::I32, twos(x as int, 4)),
        Value::I64(x) => Val::Int(IntKind::I64, twos(x as int, 8)),
        Value::F32(x) => Val::Int(IntKind::F32, x as nat),
        Value::F64(x) => Val::Int(IntKind::F64, x as nat),
        Value::Char(c) => Val::Char(char_code(c)),
        Value::Str(s) => Val::Str(s@),
        Value::Bytes(b) => Val::Bytes(b@),
        Value::Unit => Val::Unit,
        Value::Opt(o) => match o {
            None => Val::Opt(None),
            Some(x) => Val::Opt(Some(Box::new(value_view(*x)))),
        },
        Value::Sequence(items) => Val::Sequence(values_view(items@)),
        Value::Mapping(entries) => Val::Mapping(entries_view(entries@)),
        Value::Enum(i, p) => match p {
            None => Val::Enum(i as nat, None),
            Some(x) => Val::Enum(i as nat, Some(Box::new(value_view(*x)))),
        },
    }
}

pub open spec fn values_view(xs: Seq<Value>) -> Seq<Val>
    decreases xs,
{
    if xs.len() == 0 {
        Seq::empty()
    } else {
        seq![value_view(xs[0])] + values_view(xs.drop_first())
    }
}

pub open spec fn entries_view(es: Seq<(Value, Value)>) -> Seq<(Val, Val)>
    decreases es,
{
    if es.len() == 0 {
        Seq::empty()
    } else {
        seq![(value_view(es[0].0), value_view(es[0].1))] + entries_view(es.drop_first())
    }
}

pub proof fn lemma_char_view(c: char)
    ensures
        value_view(Value::Char(c)) == Val::Char(char_code(c)),
{
}

impl View for Value {
    type V = Val;

    open spec fn view(&self) -> Val {
        value_view(*self)
    }
}

} // verus!
