//! Reading the values of a record back from a buffer.
//!
//! Decoding never fails. A field whose slot is absent, whose bytes lie
//! outside the buffer, or whose content is malformed has the default of its
//! kind.

use crate::kind::{ElementKind, Kind};
use crate::layout::{
    bytes_at, extends, find_root, find_slot, lemma_bytes_shift, lemma_le_value_bound,
    lemma_pow256_values, lemma_target_shift, lemma_uint_shift, lemma_uints_shift, read_bytes,
    read_target, read_uint, read_uints, root_position, slot_position, target_at, uint_at, uints_at,
};
use crate::plan::{slot_of, Plan};
use crate::value::{
    default_value, items_view, values_view, Item, ItemView, Scalar, Value, ValueView,
};
use vstd::prelude::*;
use vstd::utf8::{decode_utf8, valid_utf8};

verus! {

/// The scalars of type `t` that a list of raw forms stands for. A raw form
/// that stands for none, which only an invalid code point of a `Char` is,
/// is left out.
pub open spec fn scalars_of(t: crate::kind::ScalarType, raws: Seq<nat>) -> Seq<ItemView>
    decreases raws.len(),
{
    if raws.len() == 0 {
        Seq::empty()
    } else {
        match Scalar::of_raw(t, raws[0]) {
            Some(s) => seq![ItemView::Scalar(s)] + scalars_of(t, raws.drop_first()),
            None => scalars_of(t, raws.drop_first()),
        }
    }
}

/// The item stored at `pos`: a scalar in place, a text behind an offset.
/// `None` when its bytes lie outside the buffer, the code point of a
/// `Char` is invalid, or the bytes of a text are no UTF-8.
pub open spec fn item_at(buf: Seq<u8>, pos: int, e: ElementKind) -> Option<ItemView> {
    match e {
        ElementKind::Scalar(t) => match uint_at(buf, pos, t.width()) {
            Some(raw) => match Scalar::of_raw(t, raw) {
                Some(s) => Some(ItemView::Scalar(s)),
                None => None,
            },
            None => None,
        },
        ElementKind::Text => match target_at(buf, pos) {
            Some(at) => match bytes_at(buf, at) {
                Some(bytes) => if valid_utf8(bytes) {
                    Some(ItemView::Text(decode_utf8(bytes)))
                } else {
                    None
                },
                None => None,
            },
            None => None,
        },
    }
}

/// Whether each of the `len` references from `first` on leads to a text
/// that can be read.
pub open spec fn texts_readable(buf: Seq<u8>, first: int, len: nat) -> bool {
    forall|i: int| 0 <= i < len ==> (#[trigger] element_at(buf, first, i)) is Some
}

/// The text behind the `i`-th of the references that start at `first`.
pub open spec fn element_at(buf: Seq<u8>, first: int, i: int) -> Option<ItemView> {
    item_at(buf, first + 4 * i, ElementKind::Text)
}

/// The items of the array at `pos`. An array of scalars drops the elements
/// that stand for no scalar; an array of texts is `None` as a whole when
/// one of its texts cannot be read.
pub open spec fn sequence_at(buf: Seq<u8>, pos: int, e: ElementKind) -> Option<Seq<ItemView>> {
    match e {
        ElementKind::Scalar(t) => match uints_at(buf, pos, t.width()) {
            Some(raws) => Some(scalars_of(t, raws)),
            None => None,
        },
        ElementKind::Text => match uint_at(buf, pos, 4) {
            Some(len) => if pos + 4 + 4 * len <= buf.len() && texts_readable(buf, pos + 4, len) {
                Some(Seq::new(len, |i: int| element_at(buf, pos + 4, i).unwrap()))
            } else {
                None
            },
            None => None,
        },
    }
}

/// The position of a slot of the table at `table`, if there is a table.
pub open spec fn field_position(buf: Seq<u8>, table: Option<int>, slot: nat) -> Option<int> {
    match table {
        Some(t) => slot_position(buf, t, slot),
        None => None,
    }
}

/// The value that the cell at `pos` holds for a field of kind `k`, or
/// `None` when it cannot be read. The cell of an optional always reads: as
/// no value, when its item cannot be read.
pub open spec fn cell_value(buf: Seq<u8>, pos: int, k: Kind) -> Option<ValueView> {
    match k {
        Kind::Scalar(t) => match item_at(buf, pos, ElementKind::Scalar(t)) {
            Some(item) => Some(ValueView::Single(item)),
            None => None,
        },
        Kind::Text => match item_at(buf, pos, ElementKind::Text) {
            Some(item) => Some(ValueView::Single(item)),
            None => None,
        },
        Kind::Optional(e) => Some(ValueView::Optional(item_at(buf, pos, e))),
        Kind::Sequence(e) => match target_at(buf, pos) {
            Some(at) => match sequence_at(buf, at, e) {
                Some(items) => Some(ValueView::Sequence(items)),
                None => None,
            },
            None => None,
        },
    }
}

/// The value of the field of kind `k` in slot `slot`: what its cell holds,
/// and the default of the kind when the slot is absent or the cell cannot
/// be read.
pub open spec fn field_value(buf: Seq<u8>, table: Option<int>, slot: nat, k: Kind) -> ValueView {
    match field_position(buf, table, slot) {
        Some(pos) => match cell_value(buf, pos, k) {
            Some(v) => v,
            None => ValueView::default_of(k),
        },
        None => ValueView::default_of(k),
    }
}

/// The values of a record with fields of the given kinds, as the buffer
/// holds them.
pub open spec fn decoded(buf: Seq<u8>, kinds: Seq<Kind>) -> Seq<ValueView> {
    Seq::new(
        kinds.len(),
        |i: int| field_value(buf, root_position(buf), slot_of(i as nat), kinds[i]),
    )
}

/// The text that a list of bytes encodes: `String::from_utf8` of the
/// standard library, which returns the string exactly when the bytes are
/// valid UTF-8.
#[verifier::external_body]
fn text_from_utf8(bytes: Vec<u8>) -> (found: Option<String>)
    ensures
        match found {
            Some(text) => valid_utf8(bytes@) && text@ == decode_utf8(bytes@),
            None => !valid_utf8(bytes@),
        },
{
    match String::from_utf8(bytes) {
        Ok(text) => Some(text),
        Err(_) => None,
    }
}

/// Reads the item at `pos`.
pub fn read_item(buf: &[u8], pos: usize, e: ElementKind) -> (found: Option<Item>)
    ensures
        match found {
            Some(item) => item_at(buf@, pos as int, e) == Some(item@),
            None => item_at(buf@, pos as int, e) is None,
        },
{
    match e {
        ElementKind::Scalar(t) => {
            let width = t.byte_width();
            match read_uint(buf, pos, width) {
                None => None,
                Some(raw) => {
                    proof {
                        lemma_le_value_bound(buf@.subrange(pos as int, pos + width));
                        lemma_pow256_values();
                    }
                    match Scalar::from_raw(t, raw) {
                        Some(s) => Some(Item::Scalar(s)),
                        None => None,
                    }
                },
            }
        },
        ElementKind::Text => {
            let at = match read_target(buf, pos) {
                None => {
                    return None;
                },
                Some(at) => at,
            };
            let bytes = match read_bytes(buf, at) {
                None => {
                    return None;
                },
                Some(bytes) => bytes,
            };
            match text_from_utf8(bytes) {
                Some(text) => Some(Item::Text(text)),
                None => None,
            }
        },
    }
}

/// Reads the items of the array at `pos`.
pub fn read_sequence(buf: &[u8], pos: usize, e: ElementKind) -> (found: Option<Vec<Item>>)
    ensures
        match found {
            Some(items) => sequence_at(buf@, pos as int, e) == Some(items_view(items@)),
            None => sequence_at(buf@, pos as int, e) is None,
        },
{
    match e {
        ElementKind::Scalar(t) => {
            let width = t.byte_width();
            let raws = match read_uints(buf, pos, width) {
                None => {
                    return None;
                },
                Some(raws) => raws,
            };
            let ghost all = Seq::new(raws@.len(), |i: int| raws@[i] as nat);
            let mut items: Vec<Item> = Vec::new();
            let mut i: usize = 0;
            proof {
                lemma_pow256_values();
                assert(all.subrange(0, all.len() as int) =~= all);
                assert(items_view(items@) + scalars_of(t, all) =~= scalars_of(t, all));
            }
            while i < raws.len()
                invariant
                    i <= raws@.len(),
                    all == Seq::new(raws@.len(), |i: int| raws@[i] as nat),
                    forall|j: int| 0 <= j < raws@.len() ==> raws@[j] < crate::value::radix(t.width()),
                    items_view(items@) + scalars_of(t, all.subrange(i as int, all.len() as int))
                        == scalars_of(t, all),
                decreases raws@.len() - i,
            {
                let ghost before = items_view(items@);
                let ghost tail = all.subrange(i as int, all.len() as int);
                proof {
                    assert(tail.drop_first() =~= all.subrange(i + 1, all.len() as int));
                    assert(tail[0] == raws@[i as int] as nat);
                }
                match Scalar::from_raw(t, raws[i]) {
                    Some(s) => {
                        items.push(Item::Scalar(s));
                        assert(items_view(items@) =~= before + seq![ItemView::Scalar(s)]);
                        assert(before + (seq![ItemView::Scalar(s)] + scalars_of(
                            t,
                            tail.drop_first(),
                        )) =~= items_view(items@) + scalars_of(t, tail.drop_first()));
                    },
                    None => {},
                }
                i += 1;
            }
            proof {
                assert(all.subrange(i as int, all.len() as int) =~= Seq::empty());
                assert(items_view(items@) + Seq::<ItemView>::empty() =~= items_view(items@));
            }
            Some(items)
        },
        ElementKind::Text => {
            let len = match read_uint(buf, pos, 4) {
                None => {
                    return None;
                },
                Some(len) => len,
            };
            if len > ((buf.len() - pos - 4) / 4) as u64 {
                return None;
            }
            let count: usize = len as usize;
            let mut items: Vec<Item> = Vec::new();
            let mut i: usize = 0;
            while i < count
                invariant
                    i <= count,
                    e == ElementKind::Text,
                    count == len,
                    uint_at(buf@, pos as int, 4) == Some(len as nat),
                    pos + 4 + 4 * count <= buf@.len() <= usize::MAX,
                    items@.len() == i,
                    forall|j: int|
                        0 <= j < i ==> (#[trigger] element_at(buf@, pos + 4, j)) == Some(
                            items@[j]@,
                        ),
                decreases count - i,
            {
                match read_item(buf, pos + 4 + 4 * i, ElementKind::Text) {
                    None => {
                        assert(element_at(buf@, pos + 4, i as int) is None);
                        return None;
                    },
                    Some(item) => {
                        items.push(item);
                    },
                }
                i += 1;
            }
            assert(items_view(items@) =~= Seq::new(
                len as nat,
                |i: int| element_at(buf@, pos + 4, i).unwrap(),
            ));
            Some(items)
        },
    }
}

/// Reads the field of kind `k` in slot `slot` of the table at `table`.
pub fn read_field(buf: &[u8], table: Option<usize>, slot: u16, k: Kind) -> (v: Value)
    ensures
        v@ == field_value(
            buf@,
            match table {
                Some(t) => Some(t as int),
                None => None,
            },
            slot as nat,
            k,
        ),
{
    let pos = match table {
        None => {
            return default_value(k);
        },
        Some(t) => match find_slot(buf, t, slot) {
            None => {
                return default_value(k);
            },
            Some(pos) => pos,
        },
    };
    match k {
        Kind::Scalar(t) => match read_item(buf, pos, ElementKind::Scalar(t)) {
            Some(item) => Value::Single(item),
            None => default_value(k),
        },
        Kind::Text => match read_item(buf, pos, ElementKind::Text) {
            Some(item) => Value::Single(item),
            None => default_value(k),
        },
        Kind::Optional(e) => Value::Optional(read_item(buf, pos, e)),
        Kind::Sequence(e) => {
            let at = match read_target(buf, pos) {
                None => {
                    return default_value(k);
                },
                Some(at) => at,
            };
            match read_sequence(buf, at, e) {
                Some(items) => Value::Sequence(items),
                None => default_value(k),
            }
        },
    }
}

/// Decodes the values of a record from a buffer, in declaration order.
pub fn decode(plan: &Plan, buf: &[u8]) -> (values: Vec<Value>)
    requires
        plan.wf(),
    ensures
        values_view(values@) == decoded(buf@, plan.kinds()),
{
    let table = find_root(buf);
    let ghost root = root_position(buf@);
    let mut values: Vec<Value> = Vec::new();
    let mut i: usize = 0;
    while i < plan.fields.len()
        invariant
            plan.wf(),
            i <= plan.fields@.len(),
            root == root_position(buf@),
            match table {
                Some(t) => root == Some(t as int),
                None => root is None,
            },
            values@.len() == i,
            forall|j: int|
                0 <= j < i ==> values@[j]@ == field_value(
                    buf@,
                    root,
                    slot_of(j as nat),
                    plan.fields@[j].kind,
                ),
        decreases plan.fields@.len() - i,
    {
        let field = &plan.fields[i];
        let v = read_field(buf, table, field.slot, field.kind);
        values.push(v);
        i += 1;
    }
    assert(values_view(values@) =~= decoded(buf@, plan.kinds()));
    values
}

/// The values of a record whose fields all have the default of their
/// kind.
pub open spec fn defaults(kinds: Seq<Kind>) -> Seq<ValueView> {
    Seq::new(kinds.len(), |i: int| ValueView::default_of(kinds[i]))
}

/// A fresh record: every field has the default of its kind.
pub fn new_object(plan: &Plan) -> (values: Vec<Value>)
    ensures
        values_view(values@) == defaults(plan.kinds()),
        crate::encode::conform(plan.kinds(), values_view(values@)),
{
    let mut values: Vec<Value> = Vec::new();
    let mut i: usize = 0;
    while i < plan.fields.len()
        invariant
            i <= plan.fields@.len(),
            values@.len() == i,
            forall|j: int|
                0 <= j < i ==> (#[trigger] values@[j])@ == ValueView::default_of(
                    plan.fields@[j].kind,
                ) && values@[j]@.conforms(plan.fields@[j].kind),
        decreases plan.fields@.len() - i,
    {
        values.push(default_value(plan.fields[i].kind));
        i += 1;
    }
    assert(values_view(values@) =~= defaults(plan.kinds()));
    assert forall|i: int| 0 <= i < plan.kinds().len() implies (#[trigger] values_view(
        values@,
    )[i]).conforms(plan.kinds()[i]) by {
        assert(values@[i]@.conforms(plan.fields@[i].kind));
    }
    values
}

/// An item reads the same with bytes put in front of the buffer.
pub proof fn lemma_item_shift(later: Seq<u8>, earlier: Seq<u8>, pos: int, e: ElementKind)
    requires
        extends(later, earlier),
        0 <= pos,
    ensures
        item_at(later, later.len() - earlier.len() + pos, e) == item_at(earlier, pos, e),
{
    match e {
        ElementKind::Scalar(t) => {
            lemma_uint_shift(later, earlier, pos, t.width());
        },
        ElementKind::Text => {
            lemma_target_shift(later, earlier, pos);
            match target_at(earlier, pos) {
                Some(at) => {
                    lemma_bytes_shift(later, earlier, at);
                },
                None => {},
            }
        },
    }
}

/// An array reads the same with bytes put in front of the buffer.
pub proof fn lemma_sequence_shift(later: Seq<u8>, earlier: Seq<u8>, pos: int, e: ElementKind)
    requires
        extends(later, earlier),
        0 <= pos,
    ensures
        sequence_at(later, later.len() - earlier.len() + pos, e) == sequence_at(earlier, pos, e),
{
    let d = later.len() - earlier.len();
    match e {
        ElementKind::Scalar(t) => {
            lemma_uints_shift(later, earlier, pos, t.width());
        },
        ElementKind::Text => {
            lemma_uint_shift(later, earlier, pos, 4);
            match uint_at(earlier, pos, 4) {
                Some(len) => {
                    assert forall|i: int| 0 <= i < len implies #[trigger] element_at(
                        later,
                        d + pos + 4,
                        i,
                    ) == element_at(earlier, pos + 4, i) by {
                        lemma_item_shift(later, earlier, pos + 4 + 4 * i, e);
                    }
                    if pos + 4 + 4 * len <= earlier.len() {
                        if texts_readable(earlier, pos + 4, len) {
                            assert forall|i: int| 0 <= i < len implies (#[trigger] element_at(
                                later,
                                d + pos + 4,
                                i,
                            )) is Some by {
                                assert(element_at(earlier, pos + 4, i) is Some);
                            }
                            assert(sequence_at(later, d + pos, e).unwrap() =~= sequence_at(
                                earlier,
                                pos,
                                e,
                            ).unwrap());
                        } else {
                            let i = choose|i: int|
                                0 <= i < len && !(#[trigger] element_at(earlier, pos + 4, i)
                                    is Some);
                            assert(element_at(later, d + pos + 4, i) is None);
                        }
                    }
                },
                None => {},
            }
        },
    }
}

/// A cell reads the same with bytes put in front of the buffer.
pub proof fn lemma_cell_shift(later: Seq<u8>, earlier: Seq<u8>, pos: int, k: Kind)
    requires
        extends(later, earlier),
        0 <= pos,
    ensures
        cell_value(later, later.len() - earlier.len() + pos, k) == cell_value(earlier, pos, k),
{
    match k {
        Kind::Scalar(t) => {
            lemma_item_shift(later, earlier, pos, ElementKind::Scalar(t));
        },
        Kind::Text => {
            lemma_item_shift(later, earlier, pos, ElementKind::Text);
        },
        Kind::Optional(e) => {
            lemma_item_shift(later, earlier, pos, e);
        },
        Kind::Sequence(e) => {
            lemma_target_shift(later, earlier, pos);
            match target_at(earlier, pos) {
                Some(at) => {
                    lemma_sequence_shift(later, earlier, at, e);
                },
                None => {},
            }
        },
    }
}

} // verus!
