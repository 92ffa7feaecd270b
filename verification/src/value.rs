//! Field values, their stored form, and the default of each kind.
//!
//! A scalar is stored as the little-endian bytes of an unsigned number, its
//! raw form. Signed integers are stored in two's complement, a `bool` as 0 or
//! 1, a `char` as its code point, and a floating-point number as its IEEE 754
//! bit pattern, which is also how this library holds it.

use crate::kind::{ElementKind, Kind, ScalarType};
use vstd::prelude::*;

verus! {

/// 256 to the power of `width`, for the four widths a scalar can have.
pub open spec fn radix(width: nat) -> nat {
    if width == 1 {
        0x100
    } else if width == 2 {
        0x1_0000
    } else if width == 4 {
        0x1_0000_0000
    } else {
        0x1_0000_0000_0000_0000
    }
}

/// Whether `code` is a Unicode scalar value: a code point that is no
/// surrogate.
pub open spec fn is_char_code(code: nat) -> bool {
    code <= 0xD7FF || 0xE000 <= code <= 0x10FFFF
}

/// The two's complement form of `v` in `width` bytes.
pub open spec fn twos_complement(v: int, width: nat) -> nat {
    if v >= 0 {
        v as nat
    } else {
        (v + radix(width)) as nat
    }
}

/// The signed number whose two's complement form in `width` bytes is `raw`.
pub open spec fn signed_of(raw: nat, width: nat) -> int {
    if 2 * raw < radix(width) {
        raw as int
    } else {
        raw - radix(width)
    }
}

/// A scalar value. `F32` and `F64` hold the bit pattern of the number.
#[derive(Clone, Copy, Debug, PartialEq, Eq, Structural)]
pub enum Scalar {
    U8(u8),
    I8(i8),
    U16(u16),
    I16(i16),
    U32(u32),
    I32(i32),
    U64(u64),
    I64(i64),
    F32(u32),
    F64(u64),
    Bool(bool),
    Char(char),
}

impl Scalar {
    /// The type of this scalar.
    pub open spec fn scalar_type(self) -> ScalarType {
        match self {
            Scalar::U8(_) => ScalarType::U8,
            Scalar::I8(_) => ScalarType::I8,
            Scalar::U16(_) => ScalarType::U16,
            Scalar::I16(_) => ScalarType::I16,
            Scalar::U32(_) => ScalarType::U32,
            Scalar::I32(_) => ScalarType::I32,
            Scalar::U64(_) => ScalarType::U64,
            Scalar::I64(_) => ScalarType::I64,
            Scalar::F32(_) => ScalarType::F32,
            Scalar::F64(_) => ScalarType::F64,
            Scalar::Bool(_) => ScalarType::Bool,
            Scalar::Char(_) => ScalarType::Char,
        }
    }

    /// The raw form: the unsigned number whose little-endian bytes are stored.
    pub open spec fn raw(self) -> nat {
        match self {
            Scalar::U8(v) => v as nat,
            Scalar::I8(v) => twos_complement(v as int, 1),
            Scalar::U16(v) => v as nat,
            Scalar::I16(v) => twos_complement(v as int, 2),
            Scalar::U32(v) => v as nat,
            Scalar::I32(v) => twos_complement(v as int, 4),
            Scalar::U64(v) => v as nat,
            Scalar::I64(v) => twos_complement(v as int, 8),
            Scalar::F32(bits) => bits as nat,
            Scalar::F64(bits) => bits as nat,
            Scalar::Bool(v) => if v {
                1
            } else {
                0
            },
            Scalar::Char(c) => c as nat,
        }
    }

    /// The scalar of type `t` that a raw form stands for. Every raw form
    /// below `radix(t.width())` stands for one, except that a `Char` needs a
    /// Unicode scalar value. A `Bool` is true for every raw form but 0.
    pub open spec fn of_raw(t: ScalarType, raw: nat) -> Option<Scalar> {
        match t {
            ScalarType::U8 => Some(Scalar::U8(raw as u8)),
            ScalarType::I8 => Some(Scalar::I8(signed_of(raw, 1) as i8)),
            ScalarType::U16 => Some(Scalar::U16(raw as u16)),
            ScalarType::I16 => Some(Scalar::I16(signed_of(raw, 2) as i16)),
            ScalarType::U32 => Some(Scalar::U32(raw as u32)),
            ScalarType::I32 => Some(Scalar::I32(signed_of(raw, 4) as i32)),
            ScalarType::U64 => Some(Scalar::U64(raw as u64)),
            ScalarType::I64 => Some(Scalar::I64(signed_of(raw, 8) as i64)),
            ScalarType::F32 => Some(Scalar::F32(raw as u32)),
            ScalarType::F64 => Some(Scalar::F64(raw as u64)),
            ScalarType::Bool => Some(Scalar::Bool(raw != 0)),
            ScalarType::Char => if is_char_code(raw) {
                Some(Scalar::Char(raw as char))
            } else {
                None
            },
        }
    }

    /// The default of a scalar type: the number 0, `false`, the character
    /// with code point 0.
    pub open spec fn zero(t: ScalarType) -> Scalar {
        match t {
            ScalarType::U8 => Scalar::U8(0),
            ScalarType::I8 => Scalar::I8(0),
            ScalarType::U16 => Scalar::U16(0),
            ScalarType::I16 => Scalar::I16(0),
            ScalarType::U32 => Scalar::U32(0),
            ScalarType::I32 => Scalar::I32(0),
            ScalarType::U64 => Scalar::U64(0),
            ScalarType::I64 => Scalar::I64(0),
            ScalarType::F32 => Scalar::F32(0),
            ScalarType::F64 => Scalar::F64(0),
            ScalarType::Bool => Scalar::Bool(false),
            ScalarType::Char => Scalar::Char(0 as char),
        }
    }

    /// Whether this scalar compares equal to the default of its type. For a
    /// floating-point number that is the comparison of numbers, under which
    /// negative zero equals zero; for every other type it is identity.
    pub open spec fn is_default(self) -> bool {
        match self {
            Scalar::F32(bits) => bits == 0 || bits == 0x8000_0000u32,
            Scalar::F64(bits) => bits == 0 || bits == 0x8000_0000_0000_0000u64,
            _ => self == Scalar::zero(self.scalar_type()),
        }
    }

    /// Computes [`Scalar::scalar_type`].
    pub fn kind(&self) -> (t: ScalarType)
        ensures
            t == self.scalar_type(),
    {
        match self {
            Scalar::U8(_) => ScalarType::U8,
            Scalar::I8(_) => ScalarType::I8,
            Scalar::U16(_) => ScalarType::U16,
            Scalar::I16(_) => ScalarType::I16,
            Scalar::U32(_) => ScalarType::U32,
            Scalar::I32(_) => ScalarType::I32,
            Scalar::U64(_) => ScalarType::U64,
            Scalar::I64(_) => ScalarType::I64,
            Scalar::F32(_) => ScalarType::F32,
            Scalar::F64(_) => ScalarType::F64,
            Scalar::Bool(_) => ScalarType::Bool,
            Scalar::Char(_) => ScalarType::Char,
        }
    }

    /// Computes [`Scalar::raw`].
    pub fn to_raw(&self) -> (raw: u64)
        ensures
            raw == self.raw(),
            raw < radix(self.scalar_type().width()),
    {
        match self {
            Scalar::U8(v) => *v as u64,
            Scalar::I8(v) => if *v >= 0 {
                *v as u64
            } else {
                (*v as i64 + 0x100) as u64
            },
            Scalar::U16(v) => *v as u64,
            Scalar::I16(v) => if *v >= 0 {
                *v as u64
            } else {
                (*v as i64 + 0x1_0000) as u64
            },
            Scalar::U32(v) => *v as u64,
            Scalar::I32(v) => if *v >= 0 {
                *v as u64
            } else {
                (*v as i64 + 0x1_0000_0000) as u64
            },
            Scalar::U64(v) => *v,
            Scalar::I64(v) => if *v >= 0 {
                *v as u64
            } else {
                (*v as i128 + 0x1_0000_0000_0000_0000) as u64
            },
            Scalar::F32(bits) => *bits as u64,
            Scalar::F64(bits) => *bits,
            Scalar::Bool(v) => if *v {
                1
            } else {
                0
            },
            Scalar::Char(c) => *c as u64,
        }
    }

    /// Computes [`Scalar::of_raw`].
    pub fn from_raw(t: ScalarType, raw: u64) -> (found: Option<Scalar>)
        requires
            raw < radix(t.width()),
        ensures
            found == Scalar::of_raw(t, raw as nat),
    {
        match t {
            ScalarType::U8 => Some(Scalar::U8(raw as u8)),
            ScalarType::I8 => Some(
                Scalar::I8(
                    if raw < 0x80 {
                        raw as i8
                    } else {
                        (raw as i64 - 0x100) as i8
                    },
                ),
            ),
            ScalarType::U16 => Some(Scalar::U16(raw as u16)),
            ScalarType::I16 => Some(
                Scalar::I16(
                    if raw < 0x8000 {
                        raw as i16
                    } else {
                        (raw as i64 - 0x1_0000) as i16
                    },
                ),
            ),
            ScalarType::U32 => Some(Scalar::U32(raw as u32)),
            ScalarType::I32 => Some(
                Scalar::I32(
                    if raw < 0x8000_0000 {
                        raw as i32
                    } else {
                        (raw as i64 - 0x1_0000_0000) as i32
                    },
                ),
            ),
            ScalarType::U64 => Some(Scalar::U64(raw)),
            ScalarType::I64 => Some(
                Scalar::I64(
                    if raw < 0x8000_0000_0000_0000 {
                        raw as i64
                    } else {
                        (raw as i128 - 0x1_0000_0000_0000_0000) as i64
                    },
                ),
            ),
            ScalarType::F32 => Some(Scalar::F32(raw as u32)),
            ScalarType::F64 => Some(Scalar::F64(raw)),
            ScalarType::Bool => Some(Scalar::Bool(raw != 0)),
            ScalarType::Char => match char_from_code(raw as u32) {
                Some(c) => Some(Scalar::Char(c)),
                None => None,
            },
        }
    }

    /// Computes [`Scalar::zero`].
    pub fn default_of(t: ScalarType) -> (z: Scalar)
        ensures
            z == Scalar::zero(t),
    {
        match t {
            ScalarType::U8 => Scalar::U8(0),
            ScalarType::I8 => Scalar::I8(0),
            ScalarType::U16 => Scalar::U16(0),
            ScalarType::I16 => Scalar::I16(0),
            ScalarType::U32 => Scalar::U32(0),
            ScalarType::I32 => Scalar::I32(0),
            ScalarType::U64 => Scalar::U64(0),
            ScalarType::I64 => Scalar::I64(0),
            ScalarType::F32 => Scalar::F32(0),
            ScalarType::F64 => Scalar::F64(0),
            ScalarType::Bool => Scalar::Bool(false),
            ScalarType::Char => Scalar::Char('\0'),
        }
    }

    /// Computes [`Scalar::is_default`].
    pub fn equals_default(&self) -> (d: bool)
        ensures
            d == self.is_default(),
    {
        match self {
            Scalar::U8(v) => *v == 0,
            Scalar::I8(v) => *v == 0,
            Scalar::U16(v) => *v == 0,
            Scalar::I16(v) => *v == 0,
            Scalar::U32(v) => *v == 0,
            Scalar::I32(v) => *v == 0,
            Scalar::U64(v) => *v == 0,
            Scalar::I64(v) => *v == 0,
            Scalar::F32(bits) => *bits == 0 || *bits == 0x8000_0000u32,
            Scalar::F64(bits) => *bits == 0 || *bits == 0x8000_0000_0000_0000u64,
            Scalar::Bool(v) => !*v,
            Scalar::Char(c) => *c == '\0',
        }
    }
}

/// The character with a given code point: `char::from_u32` of the standard
/// library, which returns a character exactly for the Unicode scalar values
/// and `None` for surrogates and for numbers above `0x10FFFF`.
#[verifier::external_body]
fn char_from_code(code: u32) -> (found: Option<char>)
    ensures
        found == if is_char_code(code as nat) {
            Some(code as char)
        } else {
            None
        },
{
    char::from_u32(code)
}

/// Reading back the raw form of a scalar gives the scalar.
pub proof fn lemma_raw_round_trip(s: Scalar)
    ensures
        s.raw() < radix(s.scalar_type().width()),
        Scalar::of_raw(s.scalar_type(), s.raw()) == Some(s),
{
    match s {
        Scalar::Char(c) => {
            assert(is_char_code(c as nat));
            assert((c as nat) as char == c);
        },
        _ => {},
    }
}

/// One scalar or one text: what an optional holds and what a sequence is
/// made of.
#[derive(Debug, PartialEq, Eq)]
pub enum Item {
    Scalar(Scalar),
    Text(String),
}

/// The mathematical content of an [`Item`].
pub enum ItemView {
    Scalar(Scalar),
    Text(Seq<char>),
}

impl View for Item {
    type V = ItemView;

    open spec fn view(&self) -> ItemView {
        match self {
            Item::Scalar(s) => ItemView::Scalar(*s),
            Item::Text(t) => ItemView::Text(t@),
        }
    }
}

impl ItemView {
    /// Whether the item is of the element kind `e`.
    pub open spec fn conforms(self, e: ElementKind) -> bool {
        match self {
            ItemView::Scalar(s) => e == ElementKind::Scalar(s.scalar_type()),
            ItemView::Text(_) => e == ElementKind::Text,
        }
    }

    /// The default of an element kind: the zero of a scalar type, the empty
    /// text.
    pub open spec fn zero(e: ElementKind) -> ItemView {
        match e {
            ElementKind::Scalar(t) => ItemView::Scalar(Scalar::zero(t)),
            ElementKind::Text => ItemView::Text(Seq::empty()),
        }
    }
}

/// Whether every item is of the element kind `e`.
pub open spec fn all_conform(items: Seq<ItemView>, e: ElementKind) -> bool {
    forall|i: int| 0 <= i < items.len() ==> (#[trigger] items[i]).conforms(e)
}

/// The value of one field.
#[derive(Debug, PartialEq, Eq)]
pub enum Value {
    /// The value of a scalar or text field.
    Single(Item),
    /// The value of a sequence field.
    Sequence(Vec<Item>),
    /// The value of an optional field.
    Optional(Option<Item>),
}

/// The mathematical content of a [`Value`].
pub enum ValueView {
    Single(ItemView),
    Sequence(Seq<ItemView>),
    Optional(Option<ItemView>),
}

/// The contents of a list of items.
pub open spec fn items_view(items: Seq<Item>) -> Seq<ItemView> {
    Seq::new(items.len(), |i: int| items[i]@)
}

impl View for Value {
    type V = ValueView;

    open spec fn view(&self) -> ValueView {
        match self {
            Value::Single(item) => ValueView::Single(item@),
            Value::Sequence(items) => ValueView::Sequence(items_view(items@)),
            Value::Optional(None) => ValueView::Optional(None),
            Value::Optional(Some(item)) => ValueView::Optional(Some(item@)),
        }
    }
}

impl ValueView {
    /// Whether the value is one that a field of kind `k` can have.
    pub open spec fn conforms(self, k: Kind) -> bool {
        match (k, self) {
            (Kind::Scalar(t), ValueView::Single(item)) => item.conforms(ElementKind::Scalar(t)),
            (Kind::Text, ValueView::Single(item)) => item.conforms(ElementKind::Text),
            (Kind::Sequence(e), ValueView::Sequence(items)) => all_conform(items, e),
            (Kind::Optional(e), ValueView::Optional(Some(item))) => item.conforms(e),
            (Kind::Optional(e), ValueView::Optional(None)) => true,
            _ => false,
        }
    }

    /// The default of a kind: zero, `false`, the character with code point
    /// 0, the empty text, the empty sequence, and for an optional no value.
    pub open spec fn default_of(k: Kind) -> ValueView {
        match k {
            Kind::Scalar(t) => ValueView::Single(ItemView::Scalar(Scalar::zero(t))),
            Kind::Text => ValueView::Single(ItemView::Text(Seq::empty())),
            Kind::Sequence(_) => ValueView::Sequence(Seq::empty()),
            Kind::Optional(_) => ValueView::Optional(None),
        }
    }
}

/// The contents of the values of a record, in declaration order.
pub open spec fn values_view(values: Seq<Value>) -> Seq<ValueView> {
    Seq::new(values.len(), |i: int| values[i]@)
}

/// The default value of a field of kind `k`.
pub fn default_value(k: Kind) -> (v: Value)
    ensures
        v@ == ValueView::default_of(k),
        v@.conforms(k),
{
    match k {
        Kind::Scalar(t) => Value::Single(Item::Scalar(Scalar::default_of(t))),
        Kind::Text => Value::Single(Item::Text(String::new())),
        Kind::Sequence(_) => {
            let items: Vec<Item> = Vec::new();
            assert(items_view(items@) =~= Seq::empty());
            Value::Sequence(items)
        },
        Kind::Optional(_) => Value::Optional(None),
    }
}

impl Clone for Item {
    fn clone(&self) -> (copy: Item)
        ensures
            copy@ == self@,
    {
        match self {
            Item::Scalar(s) => Item::Scalar(*s),
            Item::Text(t) => Item::Text(t.clone()),
        }
    }
}

/// A copy of a list of items.
pub fn clone_items(items: &Vec<Item>) -> (copy: Vec<Item>)
    ensures
        items_view(copy@) == items_view(items@),
{
    let mut copy: Vec<Item> = Vec::new();
    let mut i: usize = 0;
    while i < items.len()
        invariant
            i <= items@.len(),
            copy@.len() == i,
            forall|j: int| 0 <= j < i ==> copy@[j]@ == items@[j]@,
        decreases items@.len() - i,
    {
        copy.push(items[i].clone());
        i += 1;
    }
    assert(items_view(copy@) =~= items_view(items@));
    copy
}

impl Clone for Value {
    fn clone(&self) -> (copy: Value)
        ensures
            copy@ == self@,
    {
        match self {
            Value::Single(item) => Value::Single(item.clone()),
            Value::Sequence(items) => Value::Sequence(clone_items(items)),
            Value::Optional(None) => Value::Optional(None),
            Value::Optional(Some(item)) => Value::Optional(Some(item.clone())),
        }
    }
}

} // verus!
