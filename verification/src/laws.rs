//! What holds of every record: decoding an encoded record gives its values
//! back, a slot is present exactly when its field is written, and slots
//! follow the declaration.

use crate::decode::{
    cell_value, decoded, element_at, field_position, field_value, item_at, lemma_cell_shift,
    lemma_sequence_shift, scalars_of, sequence_at, texts_readable,
};
use crate::encode::{
    closed, commit, commit_all, conform, create_texts, encoded, indirect, indirect_all, is_written,
    raws_of, text_bytes,
};
use crate::image::{committed, FieldLoc, Image, MAX_BUFFER_SIZE};
use crate::kind::{ElementKind, Kind, ScalarType};
use crate::layout::{
    bytes_at, extends, lemma_bytes_shift, lemma_extends_refl, lemma_extends_trans,
    lemma_pow256_values, lemma_slot_shift, root_position, target_at,
};
use crate::plan::{commits_before, is_commit_order, slot_of, Plan, MAX_FIELDS};
use crate::stored::{
    lemma_create_bytes, lemma_create_bytes_size, lemma_create_targets, lemma_create_targets_size,
    lemma_create_uints, lemma_create_uints_size, lemma_end_table, lemma_finish,
    lemma_push_slot_target, lemma_push_slot_uint, reference_at,
};
use crate::value::{all_conform, lemma_raw_round_trip, ItemView, Scalar, ValueView};
use vstd::prelude::*;
use vstd::utf8::{encode_utf8_decode_utf8, encode_utf8_valid_utf8};

verus! {

/// Whether the buffer holds, at the handle `h`, the bytes of the text
/// `item`.
pub open spec fn text_stored(data: Seq<u8>, h: nat, item: ItemView) -> bool {
    h <= data.len() && bytes_at(data, data.len() - h) == Some(text_bytes(item))
}

/// Whether the buffer holds, at the handle `h`, the object of a field of
/// kind `k` with the value `v`.
pub open spec fn object_stored(data: Seq<u8>, h: nat, k: Kind, v: ValueView) -> bool {
    match (k, v) {
        (Kind::Text, ValueView::Single(item)) => text_stored(data, h, item),
        (Kind::Optional(ElementKind::Text), ValueView::Optional(Some(item))) => text_stored(
            data,
            h,
            item,
        ),
        (Kind::Sequence(e), ValueView::Sequence(items)) => h <= data.len() && sequence_at(
            data,
            data.len() - h,
            e,
        ) == Some(items),
        _ => false,
    }
}

/// Whether a field of kind `k` with the value `v` has an object outside
/// the table: a text or a sequence, unless it is an optional without a
/// value.
pub open spec fn has_object(k: Kind, v: ValueView) -> bool {
    match (k, v) {
        (Kind::Text, _) => true,
        (Kind::Sequence(_), _) => true,
        (Kind::Optional(ElementKind::Text), ValueView::Optional(Some(_))) => true,
        _ => false,
    }
}

/// Whether `handle` is what the first phase owes a field: the handle of
/// its object, and none for a field without an object.
pub open spec fn handle_ok(data: Seq<u8>, handle: Option<nat>, k: Kind, v: ValueView) -> bool {
    match handle {
        Some(h) => object_stored(data, h, k, v),
        None => !has_object(k, v),
    }
}

/// Whether the cell at the handle `off` reads as the value `v`.
pub open spec fn cell_stored(data: Seq<u8>, off: nat, k: Kind, v: ValueView) -> bool {
    off <= data.len() && cell_value(data, data.len() - off, k) == Some(v)
}

/// A stored text stays stored when bytes are put in front.
pub proof fn lemma_text_stable(later: Seq<u8>, earlier: Seq<u8>, h: nat, item: ItemView)
    requires
        extends(later, earlier),
        text_stored(earlier, h, item),
    ensures
        text_stored(later, h, item),
{
    lemma_bytes_shift(later, earlier, earlier.len() - h);
}

/// A stored object stays stored when bytes are put in front.
pub proof fn lemma_object_stable(later: Seq<u8>, earlier: Seq<u8>, h: nat, k: Kind, v: ValueView)
    requires
        extends(later, earlier),
        object_stored(earlier, h, k, v),
    ensures
        object_stored(later, h, k, v),
{
    match (k, v) {
        (Kind::Text, ValueView::Single(item)) => {
            lemma_text_stable(later, earlier, h, item);
        },
        (Kind::Optional(ElementKind::Text), ValueView::Optional(Some(item))) => {
            lemma_text_stable(later, earlier, h, item);
        },
        (Kind::Sequence(e), ValueView::Sequence(items)) => {
            lemma_sequence_shift(later, earlier, earlier.len() - h, e);
        },
        _ => {},
    }
}

/// A stored cell stays stored when bytes are put in front.
pub proof fn lemma_cell_stable(later: Seq<u8>, earlier: Seq<u8>, off: nat, k: Kind, v: ValueView)
    requires
        extends(later, earlier),
        cell_stored(earlier, off, k, v),
    ensures
        cell_stored(later, off, k, v),
{
    lemma_cell_shift(later, earlier, earlier.len() - off, k);
}

/// Scalars of one type read back from their raw forms.
pub proof fn lemma_scalars_round_trip(t: ScalarType, items: Seq<ItemView>)
    requires
        all_conform(items, ElementKind::Scalar(t)),
    ensures
        scalars_of(t, raws_of(items)) == items,
        forall|i: int|
            0 <= i < items.len() ==> (#[trigger] raws_of(items)[i]) < crate::layout::pow256(
                t.width(),
            ),
    decreases items.len(),
{
    lemma_pow256_values();
    assert forall|i: int| 0 <= i < items.len() implies (#[trigger] raws_of(items)[i])
        < crate::layout::pow256(t.width()) by {
        assert(items[i].conforms(ElementKind::Scalar(t)));
        match items[i] {
            ItemView::Scalar(s) => {
                lemma_raw_round_trip(s);
            },
            ItemView::Text(_) => {},
        }
    }
    if items.len() > 0 {
        let rest = items.drop_first();
        assert(all_conform(rest, ElementKind::Scalar(t))) by {
            assert forall|i: int| 0 <= i < rest.len() implies (#[trigger] rest[i]).conforms(
                ElementKind::Scalar(t),
            ) by {
                assert(items[i + 1].conforms(ElementKind::Scalar(t)));
            }
        }
        lemma_scalars_round_trip(t, rest);
        assert(raws_of(items).drop_first() =~= raws_of(rest));
        assert(items[0].conforms(ElementKind::Scalar(t)));
        match items[0] {
            ItemView::Scalar(s) => {
                lemma_raw_round_trip(s);
                assert(seq![ItemView::Scalar(s)] + rest =~= items);
            },
            ItemView::Text(_) => {},
        }
    } else {
        assert(scalars_of(t, raws_of(items)) =~= items);
    }
}

/// A reference to a stored text reads as the text.
pub proof fn lemma_text_item(data: Seq<u8>, pos: int, h: nat, item: ItemView)
    requires
        text_stored(data, h, item),
        item is Text,
        target_at(data, pos) == Some(data.len() - h),
    ensures
        item_at(data, pos, ElementKind::Text) == Some(item),
{
    let t = item->Text_0;
    encode_utf8_valid_utf8(t);
    encode_utf8_decode_utf8(t);
}

/// Writing texts one by one stores them all.
pub proof fn lemma_create_texts(
    st: Image,
    items: Seq<ItemView>,
    i: nat,
    handles: Seq<nat>,
    fin: Image,
    hs: Seq<nat>,
)
    requires
        st.used() <= MAX_BUFFER_SIZE,
        i <= items.len(),
        handles.len() == i,
        forall|j: int| 0 <= j < i ==> #[trigger] text_stored(st.data, handles[j], items[j]),
        create_texts(st, items, i, handles) == Some((fin, hs)),
    ensures
        fin.follows(st),
        fin.fields == st.fields,
        fin.used() <= MAX_BUFFER_SIZE,
        hs.len() == items.len(),
        forall|j: int| 0 <= j < items.len() ==> #[trigger] text_stored(fin.data, hs[j], items[j]),
    decreases items.len() - i,
{
    if i >= items.len() {
        lemma_extends_refl(st.data);
    } else {
        let bytes = text_bytes(items[i as int]);
        let next = st.create_bytes(bytes);
        lemma_create_bytes_size(st, bytes);
        lemma_create_bytes(st, bytes);
        let more = handles.push(next.used());
        assert forall|j: int| 0 <= j < i + 1 implies #[trigger] text_stored(
            next.data,
            more[j],
            items[j],
        ) by {
            if j < i {
                assert(text_stored(st.data, handles[j], items[j]));
                lemma_text_stable(next.data, st.data, handles[j], items[j]);
            }
        }
        lemma_create_texts(next, items, i + 1, more, fin, hs);
        lemma_extends_trans(fin.data, next.data, st.data);
    }
}

/// An array of references to stored texts reads as the texts.
pub proof fn lemma_texts_array(mid: Image, items: Seq<ItemView>, hs: Seq<nat>)
    requires
        all_conform(items, ElementKind::Text),
        hs.len() == items.len(),
        forall|j: int| 0 <= j < items.len() ==> #[trigger] text_stored(mid.data, hs[j], items[j]),
        mid.create_targets(hs).used() <= MAX_BUFFER_SIZE,
    ensures
        mid.create_targets(hs).follows(mid),
        mid.create_targets(hs).fields == mid.fields,
        sequence_at(mid.create_targets(hs).data, 0, ElementKind::Text) == Some(items),
{
    let r = mid.create_targets(hs);
    lemma_create_targets_size(mid, hs);
    assert forall|i: int| 0 <= i < hs.len() implies hs[i] <= mid.used() by {
        assert(text_stored(mid.data, hs[i], items[i]));
    }
    lemma_create_targets(mid, hs);
    assert forall|i: int| 0 <= i < items.len() implies #[trigger] element_at(r.data, 4, i) == Some(
        items[i],
    ) by {
        assert(text_stored(mid.data, hs[i], items[i]));
        lemma_text_stable(r.data, mid.data, hs[i], items[i]);
        assert(reference_at(r.data, 4, i) == Some(r.used() - hs[i]));
        assert(items[i].conforms(ElementKind::Text));
        lemma_text_item(r.data, 4 + 4 * i, hs[i], items[i]);
    }
    assert(texts_readable(r.data, 4, items.len()));
    assert(sequence_at(r.data, 0, ElementKind::Text).unwrap() =~= items);
}

/// The first phase stores the object of a field and gives its handle.
pub proof fn lemma_indirect(st: Image, k: Kind, v: ValueView, next: Image, handle: Option<nat>)
    requires
        st.used() <= MAX_BUFFER_SIZE,
        v.conforms(k),
        indirect(st, k, v) == Some((next, handle)),
    ensures
        next.follows(st),
        next.fields == st.fields,
        next.used() <= MAX_BUFFER_SIZE,
        handle_ok(next.data, handle, k, v),
{
    reveal(indirect);
    lemma_extends_refl(st.data);
    match (k, v) {
        (Kind::Text, ValueView::Single(item)) => {
            lemma_create_bytes_size(st, text_bytes(item));
            lemma_create_bytes(st, text_bytes(item));
        },
        (Kind::Optional(ElementKind::Text), ValueView::Optional(Some(item))) => {
            lemma_create_bytes_size(st, text_bytes(item));
            lemma_create_bytes(st, text_bytes(item));
        },
        (Kind::Sequence(ElementKind::Scalar(t)), ValueView::Sequence(items)) => {
            lemma_scalars_round_trip(t, items);
            lemma_create_uints_size(st, raws_of(items), t.width());
            lemma_create_uints(st, raws_of(items), t.width());
        },
        (Kind::Sequence(ElementKind::Text), ValueView::Sequence(items)) => {
            let made = create_texts(st, items, 0, Seq::empty()).unwrap();
            lemma_create_texts(st, items, 0, Seq::empty(), made.0, made.1);
            lemma_texts_array(made.0, items, made.1);
            lemma_extends_trans(next.data, made.0.data, st.data);
        },
        _ => {},
    }
}

/// The first phase stores the objects of all fields.
pub proof fn lemma_indirect_all(
    st: Image,
    kinds: Seq<Kind>,
    values: Seq<ValueView>,
    i: nat,
    handles: Seq<Option<nat>>,
    fin: Image,
    hs: Seq<Option<nat>>,
)
    requires
        st.used() <= MAX_BUFFER_SIZE,
        conform(kinds, values),
        i <= kinds.len(),
        handles.len() == i,
        forall|f: int|
            0 <= f < i ==> #[trigger] handle_ok(st.data, handles[f], kinds[f], values[f]),
        indirect_all(st, kinds, values, i, handles) == Some((fin, hs)),
    ensures
        fin.follows(st),
        fin.fields == st.fields,
        fin.used() <= MAX_BUFFER_SIZE,
        hs.len() == kinds.len(),
        forall|f: int|
            0 <= f < kinds.len() ==> #[trigger] handle_ok(fin.data, hs[f], kinds[f], values[f]),
    decreases kinds.len() - i,
{
    if i >= kinds.len() {
        lemma_extends_refl(st.data);
    } else {
        let step = indirect(st, kinds[i as int], values[i as int]).unwrap();
        let next = step.0;
        assert(values[i as int].conforms(kinds[i as int]));
        lemma_indirect(st, kinds[i as int], values[i as int], next, step.1);
        let more = handles.push(step.1);
        assert forall|f: int| 0 <= f < i + 1 implies #[trigger] handle_ok(
            next.data,
            more[f],
            kinds[f],
            values[f],
        ) by {
            if f < i {
                assert(handle_ok(st.data, handles[f], kinds[f], values[f]));
                if handles[f] is Some {
                    lemma_object_stable(
                        next.data,
                        st.data,
                        handles[f].unwrap(),
                        kinds[f],
                        values[f],
                    );
                }
            }
        }
        lemma_indirect_all(next, kinds, values, i + 1, more, fin, hs);
        lemma_extends_trans(fin.data, next.data, st.data);
    }
}

/// Committing one more field changes the entry of its slot only.
pub proof fn lemma_committed_push(fields: Seq<FieldLoc>, f: FieldLoc, slot: nat)
    ensures
        committed(fields.push(f), slot) == if f.slot == slot {
            Some(f.off as nat)
        } else {
            committed(fields, slot)
        },
{
    assert(fields.push(f).drop_last() =~= fields);
}

/// The second phase commits a written field to its slot, where its cell
/// reads as its value, and leaves an unwritten field out.
pub proof fn lemma_commit(
    st: Image,
    slot: u16,
    k: Kind,
    v: ValueView,
    handle: Option<nat>,
    next: Image,
)
    requires
        st.used() <= MAX_BUFFER_SIZE,
        st.table_ok(),
        4 <= slot <= 0xFFFC,
        slot % 2 == 0,
        v.conforms(k),
        handle_ok(st.data, handle, k, v),
        commit(st, slot, k, v, handle) == Some(next),
    ensures
        next.follows(st),
        next.table_ok(),
        next.used() <= MAX_BUFFER_SIZE,
        is_written(k, v) ==> next.fields == st.fields.push(
            FieldLoc { slot, off: next.used() as u32 },
        ) && cell_stored(next.data, next.used(), k, v),
        !is_written(k, v) ==> next == st,
{
    reveal(commit);
    lemma_pow256_values();
    lemma_extends_refl(st.data);
    match (k, v) {
        (Kind::Scalar(t), ValueView::Single(ItemView::Scalar(s))) => {
            lemma_raw_round_trip(s);
            if !s.is_default() {
                lemma_push_slot_uint(st, slot, s.raw(), t.width());
            }
        },
        (
            Kind::Optional(ElementKind::Scalar(t)),
            ValueView::Optional(Some(ItemView::Scalar(s))),
        ) => {
            lemma_raw_round_trip(s);
            lemma_push_slot_uint(st, slot, s.raw(), t.width());
        },
        _ => {
            match handle {
                Some(h) => {
                    lemma_push_slot_target(st, slot, h);
                    lemma_object_stable(next.data, st.data, h, k, v);
                    match (k, v) {
                        (Kind::Text, ValueView::Single(item)) => {
                            lemma_text_item(next.data, 0, h, item);
                        },
                        (
                            Kind::Optional(ElementKind::Text),
                            ValueView::Optional(Some(item)),
                        ) => {
                            lemma_text_item(next.data, 0, h, item);
                        },
                        _ => {},
                    }
                },
                None => {},
            }
        },
    }
    if is_written(k, v) {
        assert(next.table_ok()) by {
            assert forall|j: int| 0 <= j < next.fields.len() implies {
                &&& 4 <= (#[trigger] next.fields[j]).slot <= 0xFFFC
                &&& next.fields[j].slot % 2 == 0
                &&& next.table_start < next.fields[j].off <= next.used()
            } by {
                if j < st.fields.len() {
                    assert(next.fields[j] == st.fields[j]);
                }
            }
        }
    }
}

/// Whether the slot of the field `f` is as it must be once the first `j`
/// fields of the commit order are committed: it holds the field's value
/// exactly when the field is among those and is written.
pub open spec fn field_state(
    st: Image,
    kinds: Seq<Kind>,
    values: Seq<ValueView>,
    order: Seq<usize>,
    j: int,
    f: int,
) -> bool {
    let done = order.take(j).contains(f as usize);
    match committed(st.fields, slot_of(f as nat)) {
        Some(off) => done && is_written(kinds[f], values[f]) && cell_stored(
            st.data,
            off,
            kinds[f],
            values[f],
        ),
        None => !(done && is_written(kinds[f], values[f])),
    }
}

/// Whether the table under construction is as it must be once the first
/// `j` fields of the commit order are committed.
pub open spec fn table_state(
    st: Image,
    kinds: Seq<Kind>,
    values: Seq<ValueView>,
    handles: Seq<Option<nat>>,
    order: Seq<usize>,
    j: int,
) -> bool {
    &&& st.table_ok()
    &&& st.used() <= MAX_BUFFER_SIZE
    &&& forall|f: int|
        0 <= f < kinds.len() ==> #[trigger] handle_ok(st.data, handles[f], kinds[f], values[f])
    &&& forall|f: int| 0 <= f < kinds.len() ==> #[trigger] field_state(st, kinds, values, order, j, f)
}

/// A list holds, up to and with its `j`-th entry, what it holds before it
/// and that entry.
pub proof fn lemma_take_contains(order: Seq<usize>, j: int, g: usize)
    requires
        0 <= j < order.len(),
    ensures
        order.take(j + 1).contains(g) <==> order.take(j).contains(g) || order[j] == g,
{
    let more = order.take(j + 1);
    let less = order.take(j);
    if more.contains(g) {
        let a = choose|a: int| 0 <= a < more.len() && more[a] == g;
        if a < j {
            assert(less[a] == g);
        }
    }
    if less.contains(g) {
        let a = choose|a: int| 0 <= a < less.len() && less[a] == g;
        assert(more[a] == g);
    }
    if order[j] == g {
        assert(more[j] == g);
    }
}

/// The second phase leaves every written field committed and no other.
pub proof fn lemma_commit_all(
    st: Image,
    kinds: Seq<Kind>,
    values: Seq<ValueView>,
    handles: Seq<Option<nat>>,
    order: Seq<usize>,
    j: nat,
    fin: Image,
)
    requires
        kinds.len() <= MAX_FIELDS,
        conform(kinds, values),
        is_commit_order(kinds, order),
        handles.len() == kinds.len(),
        j <= order.len(),
        table_state(st, kinds, values, handles, order, j as int),
        commit_all(st, kinds, values, handles, order, j) == Some(fin),
    ensures
        table_state(fin, kinds, values, handles, order, order.len() as int),
        fin.follows(st),
    decreases order.len() - j,
{
    if j >= order.len() {
        lemma_extends_refl(st.data);
    } else {
        let f = order[j as int] as int;
        let slot = slot_of(f as nat) as u16;
        let next = commit(st, slot, kinds[f], values[f], handles[f]).unwrap();
        assert(values[f].conforms(kinds[f]));
        assert(handle_ok(st.data, handles[f], kinds[f], values[f]));
        lemma_commit(st, slot, kinds[f], values[f], handles[f], next);
        assert(!order.take(j as int).contains(f as usize)) by {
            let before = order.take(j as int);
            if before.contains(f as usize) {
                let a = choose|a: int| 0 <= a < before.len() && before[a] == f as usize;
                assert(order[a] == before[a]);
                assert(commits_before(kinds, order[a] as int, order[j as int] as int));
            }
        }
        assert(field_state(st, kinds, values, order, j as int, f));
        assert forall|g: int| 0 <= g < kinds.len() implies #[trigger] field_state(
            next,
            kinds,
            values,
            order,
            j as int + 1,
            g,
        ) by {
            lemma_take_contains(order, j as int, g as usize);
            assert(field_state(st, kinds, values, order, j as int, g));
            if is_written(kinds[f], values[f]) {
                lemma_committed_push(
                    st.fields,
                    FieldLoc { slot, off: next.used() as u32 },
                    slot_of(g as nat),
                );
            }
            if g != f {
                match committed(st.fields, slot_of(g as nat)) {
                    Some(off) => {
                        lemma_cell_stable(next.data, st.data, off, kinds[g], values[g]);
                    },
                    None => {},
                }
            }
        }
        assert forall|g: int| 0 <= g < kinds.len() implies #[trigger] handle_ok(
            next.data,
            handles[g],
            kinds[g],
            values[g],
        ) by {
            assert(handle_ok(st.data, handles[g], kinds[g], values[g]));
            if handles[g] is Some {
                lemma_object_stable(next.data, st.data, handles[g].unwrap(), kinds[g], values[g]);
            }
        }
        lemma_commit_all(next, kinds, values, handles, order, j + 1, fin);
        lemma_extends_trans(fin.data, next.data, st.data);
    }
}

/// What decoding gives for a field of kind `k` that was encoded with the
/// value `v`: the value where the field is written, the default of the
/// kind where it is not.
pub open spec fn expected(k: Kind, v: ValueView) -> ValueView {
    if is_written(k, v) {
        v
    } else {
        ValueView::default_of(k)
    }
}

/// In an encoded record the slot of a field is present exactly when the
/// field is written, and the field decodes to its value, or to the default
/// of its kind when it is not written.
pub proof fn lemma_field_round_trip(
    kinds: Seq<Kind>,
    values: Seq<ValueView>,
    order: Seq<usize>,
    bytes: Seq<u8>,
    f: int,
)
    requires
        kinds.len() <= MAX_FIELDS,
        conform(kinds, values),
        is_commit_order(kinds, order),
        encoded(kinds, values, order) == Some(bytes),
        0 <= f < kinds.len(),
    ensures
        field_position(bytes, root_position(bytes), slot_of(f as nat)) is Some <==> is_written(
            kinds[f],
            values[f],
        ),
        field_value(bytes, root_position(bytes), slot_of(f as nat), kinds[f]) == expected(
            kinds[f],
            values[f],
        ),
{
    let first = indirect_all(Image::empty(), kinds, values, 0, Seq::empty()).unwrap();
    let written = first.0;
    let handles = first.1;
    lemma_indirect_all(Image::empty(), kinds, values, 0, Seq::empty(), written, handles);
    let start = written.start_table();
    assert(table_state(start, kinds, values, handles, order, 0)) by {
        assert forall|g: int| 0 <= g < kinds.len() implies #[trigger] field_state(
            start,
            kinds,
            values,
            order,
            0,
            g,
        ) by {
            assert(order.take(0) =~= Seq::empty());
        }
    }
    let st = commit_all(start, kinds, values, handles, order, 0).unwrap();
    lemma_commit_all(start, kinds, values, handles, order, 0, st);
    assert(field_state(st, kinds, values, order, order.len() as int, f));
    assert(order.take(order.len() as int) =~= order);
    assert(order.contains(f as usize));
    reveal(closed);
    let table = st.table_handle();
    let ended = st.end_table();
    let slot = slot_of(f as nat);
    lemma_end_table(st, slot);
    lemma_finish(ended, table);
    assert(bytes == ended.finish(table).data);
    let len = crate::image::vtable_len(st.fields);
    lemma_slot_shift(bytes, ended.data, len as int, slot);
    lemma_extends_trans(bytes, ended.data, st.data);
    match committed(st.fields, slot) {
        Some(off) => {
            lemma_cell_stable(bytes, st.data, off, kinds[f], values[f]);
        },
        None => {},
    }
}

/// Whether a value is a floating-point negative zero: the one scalar that
/// equals the default of its type without being it.
pub open spec fn is_negative_zero(v: ValueView) -> bool {
    v == ValueView::Single(ItemView::Scalar(Scalar::F32(0x8000_0000u32))) || v
        == ValueView::Single(ItemView::Scalar(Scalar::F64(0x8000_0000_0000_0000u64)))
}

/// What a value is after encoding and decoding: itself, but for a
/// floating-point negative zero, which comes back as zero.
pub open spec fn canonical(k: Kind, v: ValueView) -> ValueView {
    if k is Scalar && is_negative_zero(v) {
        ValueView::default_of(k)
    } else {
        v
    }
}

/// What decoding gives for a field is the canonical form of its value.
pub proof fn lemma_expected_is_canonical(k: Kind, v: ValueView)
    requires
        v.conforms(k),
    ensures
        expected(k, v) == canonical(k, v),
{
}

/// Decoding an encoded record gives its values back, each in its canonical
/// form: all of them unchanged, where none is a floating-point negative
/// zero.
pub proof fn law_record_round_trip(plan: Plan, values: Seq<ValueView>, bytes: Seq<u8>)
    requires
        plan.wf(),
        conform(plan.kinds(), values),
        encoded(plan.kinds(), values, plan.commit_order@) == Some(bytes),
    ensures
        decoded(bytes, plan.kinds()) == Seq::new(
            values.len(),
            |i: int| canonical(plan.kinds()[i], values[i]),
        ),
        (forall|i: int| 0 <= i < values.len() ==> !is_negative_zero(#[trigger] values[i]))
            ==> decoded(bytes, plan.kinds()) == values,
{
    let kinds = plan.kinds();
    let back = Seq::new(values.len(), |i: int| canonical(kinds[i], values[i]));
    assert forall|i: int| 0 <= i < kinds.len() implies decoded(bytes, kinds)[i] == back[i] by {
        lemma_field_round_trip(kinds, values, plan.commit_order@, bytes, i);
        assert(values[i].conforms(kinds[i]));
        lemma_expected_is_canonical(kinds[i], values[i]);
    }
    assert(decoded(bytes, kinds) =~= back);
    if forall|i: int| 0 <= i < values.len() ==> !is_negative_zero(#[trigger] values[i]) {
        assert(back =~= values);
    }
}

/// A required scalar survives encoding and decoding, whatever its type and
/// value. The one exception is a floating-point negative zero, which equals
/// the default and so is omitted.
pub proof fn law_scalar_round_trip(plan: Plan, values: Seq<ValueView>, bytes: Seq<u8>, i: int)
    requires
        plan.wf(),
        conform(plan.kinds(), values),
        encoded(plan.kinds(), values, plan.commit_order@) == Some(bytes),
        0 <= i < plan.kinds().len(),
        plan.kinds()[i] is Scalar,
        !is_negative_zero(values[i]),
    ensures
        decoded(bytes, plan.kinds())[i] == values[i],
{
    lemma_field_round_trip(plan.kinds(), values, plan.commit_order@, bytes, i);
    assert(values[i].conforms(plan.kinds()[i]));
}

/// A floating-point negative zero decodes as zero.
pub proof fn law_negative_zero_decodes_as_zero(
    plan: Plan,
    values: Seq<ValueView>,
    bytes: Seq<u8>,
    i: int,
)
    requires
        plan.wf(),
        conform(plan.kinds(), values),
        encoded(plan.kinds(), values, plan.commit_order@) == Some(bytes),
        0 <= i < plan.kinds().len(),
        plan.kinds()[i] is Scalar,
        is_negative_zero(values[i]),
    ensures
        decoded(bytes, plan.kinds())[i] == ValueView::default_of(plan.kinds()[i]),
{
    lemma_field_round_trip(plan.kinds(), values, plan.commit_order@, bytes, i);
    assert(values[i].conforms(plan.kinds()[i]));
}

/// A required scalar that equals the default of its type has no slot in
/// the encoded buffer, and decodes to the default.
pub proof fn law_default_is_omitted(plan: Plan, values: Seq<ValueView>, bytes: Seq<u8>, i: int)
    requires
        plan.wf(),
        conform(plan.kinds(), values),
        encoded(plan.kinds(), values, plan.commit_order@) == Some(bytes),
        0 <= i < plan.kinds().len(),
        plan.kinds()[i] is Scalar,
        values[i] matches ValueView::Single(ItemView::Scalar(s)) && s.is_default(),
    ensures
        field_position(bytes, root_position(bytes), slot_of(i as nat)) is None,
        decoded(bytes, plan.kinds())[i] == ValueView::default_of(plan.kinds()[i]),
{
    lemma_field_round_trip(plan.kinds(), values, plan.commit_order@, bytes, i);
}

/// An optional survives encoding and decoding. Without a value it has no
/// slot; with a value it has one, also when the value is the default of
/// its type.
pub proof fn law_optional_round_trip(plan: Plan, values: Seq<ValueView>, bytes: Seq<u8>, i: int)
    requires
        plan.wf(),
        conform(plan.kinds(), values),
        encoded(plan.kinds(), values, plan.commit_order@) == Some(bytes),
        0 <= i < plan.kinds().len(),
        plan.kinds()[i] is Optional,
    ensures
        field_position(bytes, root_position(bytes), slot_of(i as nat)) is None <==> values[i]
            == ValueView::Optional(None),
        decoded(bytes, plan.kinds())[i] == values[i],
{
    lemma_field_round_trip(plan.kinds(), values, plan.commit_order@, bytes, i);
    assert(values[i].conforms(plan.kinds()[i]));
}

/// A required text or sequence always has a slot, also when it is empty,
/// and survives encoding and decoding.
pub proof fn law_text_and_sequence_are_written(
    plan: Plan,
    values: Seq<ValueView>,
    bytes: Seq<u8>,
    i: int,
)
    requires
        plan.wf(),
        conform(plan.kinds(), values),
        encoded(plan.kinds(), values, plan.commit_order@) == Some(bytes),
        0 <= i < plan.kinds().len(),
        plan.kinds()[i] is Text || plan.kinds()[i] is Sequence,
    ensures
        field_position(bytes, root_position(bytes), slot_of(i as nat)) is Some,
        decoded(bytes, plan.kinds())[i] == values[i],
{
    lemma_field_round_trip(plan.kinds(), values, plan.commit_order@, bytes, i);
}

/// The slot of a field is four more than twice its declaration index,
/// whatever its kind and its place in the commit order. So slots grow with
/// the declaration and none is used twice.
pub proof fn law_slots_follow_declaration(plan: Plan, i: int, j: int)
    requires
        plan.wf(),
        0 <= i < j < plan.fields@.len(),
    ensures
        plan.fields@[i].slot == 4 + 2 * i,
        plan.fields@[j].slot == 4 + 2 * j,
        plan.fields@[i].slot < plan.fields@[j].slot,
{
}

/// A buffer without a readable root table, such as an empty one, decodes
/// to the defaults.
pub proof fn law_rootless_buffer_decodes_to_defaults(buf: Seq<u8>, kinds: Seq<Kind>)
    requires
        buf.len() < 4,
    ensures
        decoded(buf, kinds) == crate::decode::defaults(kinds),
{
    assert(decoded(buf, kinds) =~= crate::decode::defaults(kinds));
}

/// Fields of the same kinds have one commit order only.
pub proof fn law_commit_order_is_unique(kinds: Seq<Kind>, a: Seq<usize>, b: Seq<usize>)
    requires
        is_commit_order(kinds, a),
        is_commit_order(kinds, b),
    ensures
        a == b,
{
    assert forall|i: int| 0 <= i < a.len() implies a[i] == b[i] by {
        lemma_same_position(kinds, a, b, i);
    }
    assert(a =~= b);
}

/// Two commit orders of the same kinds agree at every position.
pub proof fn lemma_same_position(kinds: Seq<Kind>, a: Seq<usize>, b: Seq<usize>, i: int)
    requires
        is_commit_order(kinds, a),
        is_commit_order(kinds, b),
        0 <= i < a.len(),
    ensures
        a[i] == b[i],
    decreases i,
{
    // the entries before `i` agree
    assert forall|j: int| 0 <= j < i implies a[j] == b[j] by {
        lemma_same_position(kinds, a, b, j);
    }
    if a[i] != b[i] {
        // each of the two entries stands in the other order, behind `i`
        assert(b.contains(a[i]));
        let p = choose|p: int| 0 <= p < b.len() && b[p] == a[i];
        assert(a.contains(b[i]));
        let q = choose|q: int| 0 <= q < a.len() && a[q] == b[i];
        if p < i {
            assert(a[p] == b[p]);
            assert(commits_before(kinds, a[p] as int, a[i] as int));
        }
        if q < i {
            assert(a[q] == b[q]);
            assert(commits_before(kinds, b[q] as int, b[i] as int));
        }
        assert(commits_before(kinds, b[i] as int, b[p] as int));
        assert(commits_before(kinds, a[i] as int, a[q] as int));
    }
}

/// A field is written according to the omission rule of its kind, and has
/// an object outside the table exactly when it is written and stored
/// indirectly.
pub proof fn law_written_by_omission_rule(k: Kind, v: ValueView)
    requires
        v.conforms(k),
    ensures
        is_written(k, v) == match k.omission() {
            crate::plan::Omission::WhenDefault => !(v matches ValueView::Single(
                ItemView::Scalar(s),
            ) && s.is_default()),
            crate::plan::Omission::WhenAbsent => v != ValueView::Optional(None),
            crate::plan::Omission::Never => true,
        },
        has_object(k, v) == (k.storage() == crate::plan::Storage::Indirect && is_written(k, v)),
{
}

} // verus!
