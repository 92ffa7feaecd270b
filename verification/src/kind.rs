//! The closed set of field kinds and the classification of type text.

use crate::text::str_eq;
use vstd::prelude::*;
use vstd::string::StringExecFns;

verus! {

/// A fixed-size scalar type.
#[derive(Clone, Copy, Debug, PartialEq, Eq, Structural)]
pub enum ScalarType {
    U8,
    I8,
    U16,
    I16,
    U32,
    I32,
    U64,
    I64,
    F32,
    F64,
    Bool,
    Char,
}

impl ScalarType {
    /// The number of bytes a value of this type occupies in a table or in a
    /// sequence. A `Char` is stored as its code point, four bytes wide.
    pub open spec fn width(self) -> nat {
        match self {
            ScalarType::U8 | ScalarType::I8 | ScalarType::Bool => 1,
            ScalarType::U16 | ScalarType::I16 => 2,
            ScalarType::U32 | ScalarType::I32 | ScalarType::F32 | ScalarType::Char => 4,
            ScalarType::U64 | ScalarType::I64 | ScalarType::F64 => 8,
        }
    }

    /// Computes [`ScalarType::width`].
    pub fn byte_width(self) -> (w: usize)
        ensures
            w == self.width(),
    {
        match self {
            ScalarType::U8 | ScalarType::I8 | ScalarType::Bool => 1,
            ScalarType::U16 | ScalarType::I16 => 2,
            ScalarType::U32 | ScalarType::I32 | ScalarType::F32 | ScalarType::Char => 4,
            ScalarType::U64 | ScalarType::I64 | ScalarType::F64 => 8,
        }
    }
}

impl ScalarType {
    /// The type text by which a field declares this scalar.
    pub open spec fn name(self) -> Seq<char> {
        match self {
            ScalarType::U8 => "u8"@,
            ScalarType::I8 => "i8"@,
            ScalarType::U16 => "u16"@,
            ScalarType::I16 => "i16"@,
            ScalarType::U32 => "u32"@,
            ScalarType::I32 => "i32"@,
            ScalarType::U64 => "u64"@,
            ScalarType::I64 => "i64"@,
            ScalarType::F32 => "f32"@,
            ScalarType::F64 => "f64"@,
            ScalarType::Bool => "bool"@,
            ScalarType::Char => "char"@,
        }
    }

    /// The position of this scalar in the fixed enumeration of all twelve.
    pub open spec fn ordinal(self) -> nat {
        match self {
            ScalarType::U8 => 0,
            ScalarType::I8 => 1,
            ScalarType::U16 => 2,
            ScalarType::I16 => 3,
            ScalarType::U32 => 4,
            ScalarType::I32 => 5,
            ScalarType::U64 => 6,
            ScalarType::I64 => 7,
            ScalarType::F32 => 8,
            ScalarType::F64 => 9,
            ScalarType::Bool => 10,
            ScalarType::Char => 11,
        }
    }

    /// Computes [`ScalarType::name`].
    pub fn name_str(self) -> (s: &'static str)
        ensures
            s@ == self.name(),
    {
        match self {
            ScalarType::U8 => "u8",
            ScalarType::I8 => "i8",
            ScalarType::U16 => "u16",
            ScalarType::I16 => "i16",
            ScalarType::U32 => "u32",
            ScalarType::I32 => "i32",
            ScalarType::U64 => "u64",
            ScalarType::I64 => "i64",
            ScalarType::F32 => "f32",
            ScalarType::F64 => "f64",
            ScalarType::Bool => "bool",
            ScalarType::Char => "char",
        }
    }

    /// The scalar at a position of the enumeration: the inverse of
    /// [`ScalarType::ordinal`].
    pub fn at(i: usize) -> (s: ScalarType)
        requires
            i < 12,
        ensures
            s.ordinal() == i,
    {
        match i {
        0 => ScalarType::U8,
        1 => ScalarType::I8,
        2 => ScalarType::U16,
        3 => ScalarType::I16,
        4 => ScalarType::U32,
        5 => ScalarType::I32,
        6 => ScalarType::U64,
        7 => ScalarType::I64,
        8 => ScalarType::F32,
        9 => ScalarType::F64,
        10 => ScalarType::Bool,
            _ => ScalarType::Char,
        }
    }
}

/// What an optional field or a sequence can hold: a scalar or a text.
#[derive(Clone, Copy, Debug, PartialEq, Eq, Structural)]
pub enum ElementKind {
    Scalar(ScalarType),
    Text,
}

impl ElementKind {
    /// The type text of the element.
    pub open spec fn name(self) -> Seq<char> {
        match self {
            ElementKind::Scalar(s) => s.name(),
            ElementKind::Text => "String"@,
        }
    }

    /// The position of this element kind in the enumeration of all thirteen:
    /// the scalars in their order, then text.
    pub open spec fn ordinal(self) -> nat {
        match self {
            ElementKind::Scalar(s) => s.ordinal(),
            ElementKind::Text => 12,
        }
    }

    /// Computes [`ElementKind::name`].
    pub fn name_str(self) -> (s: &'static str)
        ensures
            s@ == self.name(),
    {
        match self {
            ElementKind::Scalar(s) => s.name_str(),
            ElementKind::Text => "String",
        }
    }

    /// The element kind at a position of the enumeration.
    pub fn at(i: usize) -> (e: ElementKind)
        requires
            i < 13,
        ensures
            e.ordinal() == i,
    {
        if i < 12 {
            ElementKind::Scalar(ScalarType::at(i))
        } else {
            ElementKind::Text
        }
    }
}

/// The kind of a field: what its declared type means for the table.
#[derive(Clone, Copy, Debug, PartialEq, Eq, Structural)]
pub enum Kind {
    /// A fixed-size scalar stored inline in the table.
    Scalar(ScalarType),
    /// A string stored out of line.
    Text,
    /// A sequence of scalars or of texts, stored out of line. Sequences do
    /// not nest and hold no optional elements.
    Sequence(ElementKind),
    /// A scalar or a text that may be absent.
    Optional(ElementKind),
}

impl Kind {
    /// The flattened type text that declares a field of this kind: the
    /// segments of the type path written one after the other, such as
    /// `Optionu8` for an optional `u8`.
    pub open spec fn type_text(self) -> Seq<char> {
        match self {
            Kind::Scalar(s) => s.name(),
            Kind::Text => "String"@,
            Kind::Sequence(e) => "Vec"@ + e.name(),
            Kind::Optional(e) => "Option"@ + e.name(),
        }
    }
}

/// The scalar that a type text names, if any.
pub fn scalar_from_name(text: &str) -> (found: Option<ScalarType>)
    ensures
        match found {
            Some(s) => text@ == s.name(),
            None => forall|s: ScalarType| text@ != s.name(),
        },
{
    if str_eq(text, "u8") {
        Some(ScalarType::U8)
    } else if str_eq(text, "i8") {
        Some(ScalarType::I8)
    } else if str_eq(text, "u16") {
        Some(ScalarType::U16)
    } else if str_eq(text, "i16") {
        Some(ScalarType::I16)
    } else if str_eq(text, "u32") {
        Some(ScalarType::U32)
    } else if str_eq(text, "i32") {
        Some(ScalarType::I32)
    } else if str_eq(text, "u64") {
        Some(ScalarType::U64)
    } else if str_eq(text, "i64") {
        Some(ScalarType::I64)
    } else if str_eq(text, "f32") {
        Some(ScalarType::F32)
    } else if str_eq(text, "f64") {
        Some(ScalarType::F64)
    } else if str_eq(text, "bool") {
        Some(ScalarType::Bool)
    } else if str_eq(text, "char") {
        Some(ScalarType::Char)
    } else {
        None
    }
}

/// The element kind that a type text names, if any.
pub fn element_from_name(text: &str) -> (found: Option<ElementKind>)
    ensures
        match found {
            Some(e) => text@ == e.name(),
            None => forall|e: ElementKind| text@ != e.name(),
        },
{
    match scalar_from_name(text) {
        Some(s) => Some(ElementKind::Scalar(s)),
        None => {
            if str_eq(text, "String") {
                Some(ElementKind::Text)
            } else {
                None
            }
        },
    }
}

/// Classifies a flattened type text.
///
/// The kinds form a closed set: the result is the kind whose type text is
/// `text`, and `None` when no kind has that text. Nothing falls back to a
/// default kind.
pub fn classify(text: &str) -> (found: Option<Kind>)
    ensures
        match found {
            Some(k) => text@ == k.type_text(),
            None => forall|k: Kind| text@ != k.type_text(),
        },
{
    match element_from_name(text) {
        Some(ElementKind::Scalar(s)) => {
            return Some(Kind::Scalar(s));
        },
        Some(ElementKind::Text) => {
            return Some(Kind::Text);
        },
        None => {},
    }
    let mut i: usize = 0;
    while i < 13
        invariant
            i <= 13,
            forall|e: ElementKind| text@ != e.name(),
            forall|e: ElementKind| e.ordinal() < i ==> text@ != "Vec"@ + e.name(),
            forall|e: ElementKind| e.ordinal() < i ==> text@ != "Option"@ + e.name(),
        decreases 13 - i,
    {
        let e = ElementKind::at(i);
        proof {
            lemma_ordinal_injective();
        }
        let sequence = String::from_str("Vec").concat(e.name_str());
        if str_eq(text, sequence.as_str()) {
            return Some(Kind::Sequence(e));
        }
        let optional = String::from_str("Option").concat(e.name_str());
        if str_eq(text, optional.as_str()) {
            return Some(Kind::Optional(e));
        }
        i += 1;
    }
    assert forall|k: Kind| text@ != k.type_text() by {
        match k {
            Kind::Scalar(s) => {
                assert(ElementKind::Scalar(s).name() == s.name());
            },
            Kind::Text => {
                assert(ElementKind::Text.name() == "String"@);
            },
            Kind::Sequence(e) => {
                assert(e.ordinal() < 13);
            },
            Kind::Optional(e) => {
                assert(e.ordinal() < 13);
            },
        }
    }
    None
}

/// Two element kinds at the same position of the enumeration are the same.
pub proof fn lemma_ordinal_injective()
    ensures
        forall|a: ElementKind, b: ElementKind| a.ordinal() == b.ordinal() ==> a == b,
{
}

/// The thirteen element names are pairwise different, and none begins with
/// the first letter of `Vec` or of `Option`.
pub proof fn lemma_names_distinct()
    ensures
        forall|a: ElementKind, b: ElementKind| a.name() == b.name() ==> a == b,
        forall|e: ElementKind| #[trigger]
            e.name().len() >= 2 && e.name()[0] != 'V' && e.name()[0] != 'O',
{
    reveal_strlit("u8");
    reveal_strlit("i8");
    reveal_strlit("u16");
    reveal_strlit("i16");
    reveal_strlit("u32");
    reveal_strlit("i32");
    reveal_strlit("u64");
    reveal_strlit("i64");
    reveal_strlit("f32");
    reveal_strlit("f64");
    reveal_strlit("bool");
    reveal_strlit("char");
    reveal_strlit("String");
    assert forall|a: ElementKind, b: ElementKind| a.name() == b.name() implies a == b by {
        if a != b {
            assert(a.name().len() != b.name().len() || a.name()[0] != b.name()[0]
                || a.name()[1] != b.name()[1] || a.name()[2] != b.name()[2]);
        }
    }
}

/// No two kinds share a type text: classification has one answer at most.
pub proof fn lemma_type_text_injective(a: Kind, b: Kind)
    requires
        a.type_text() == b.type_text(),
    ensures
        a == b,
{
    lemma_names_distinct();
    reveal_strlit("Vec");
    reveal_strlit("Option");
    reveal_strlit("String");
    let plain = |k: Kind|
        match k {
            Kind::Scalar(s) => ElementKind::Scalar(s),
            _ => ElementKind::Text,
        };
    match (a, b) {
        (Kind::Sequence(x), Kind::Sequence(y)) => {
            assert(x.name() =~= a.type_text().subrange(3, a.type_text().len() as int));
            assert(y.name() =~= b.type_text().subrange(3, b.type_text().len() as int));
        },
        (Kind::Optional(x), Kind::Optional(y)) => {
            assert(x.name() =~= a.type_text().subrange(6, a.type_text().len() as int));
            assert(y.name() =~= b.type_text().subrange(6, b.type_text().len() as int));
        },
        (Kind::Sequence(x), Kind::Optional(y)) => {
            assert(a.type_text()[0] == 'V');
            assert(b.type_text()[0] == 'O');
        },
        (Kind::Optional(x), Kind::Sequence(y)) => {
            assert(a.type_text()[0] == 'O');
            assert(b.type_text()[0] == 'V');
        },
        (Kind::Sequence(x), _) => {
            assert(a.type_text()[0] == 'V');
            assert(b.type_text() == plain(b).name());
        },
        (Kind::Optional(x), _) => {
            assert(a.type_text()[0] == 'O');
            assert(b.type_text() == plain(b).name());
        },
        (_, Kind::Sequence(y)) => {
            assert(b.type_text()[0] == 'V');
            assert(a.type_text() == plain(a).name());
        },
        (_, Kind::Optional(y)) => {
            assert(b.type_text()[0] == 'O');
            assert(a.type_text() == plain(a).name());
        },
        _ => {
            assert(a.type_text() == plain(a).name());
            assert(b.type_text() == plain(b).name());
            assert(plain(a) == plain(b));
        },
    }
}

} // verus!
