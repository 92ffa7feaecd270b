//! How much room a record needs, and that a record which needs no more
//! than a buffer has is encoded.

use crate::encode::{
    closed, commit, commit_all, conform, create_texts, encoded, indirect, indirect_all, raws_of,
    text_bytes,
};
use crate::image::{padding, vtable_len, Image, MAX_BUFFER_SIZE};
use crate::kind::{ElementKind, Kind};
use crate::layout::lemma_le_bytes_len;
use crate::plan::{slot_of, Plan};
use crate::stored::{lemma_padding, lemma_vtable_len_below, slots_below};
use crate::value::{ItemView, ValueView};
use vstd::prelude::*;

verus! {

/// The most bytes that writing a text takes: its bytes, the zero byte
/// behind them, their count, and padding.
pub open spec fn text_room(item: ItemView) -> nat {
    text_bytes(item).len() + 8
}

/// The most bytes that writing the texts of `items` from the `i`-th on
/// takes.
pub open spec fn texts_room(items: Seq<ItemView>, i: nat) -> nat
    decreases items.len() - i,
{
    if i >= items.len() {
        0
    } else {
        text_room(items[i as int]) + texts_room(items, i + 1)
    }
}

/// The most bytes that the object of a field takes outside the table.
pub open spec fn object_room(k: Kind, v: ValueView) -> nat {
    match (k, v) {
        (Kind::Text, ValueView::Single(item)) => text_room(item),
        (Kind::Optional(ElementKind::Text), ValueView::Optional(Some(item))) => text_room(item),
        (Kind::Sequence(ElementKind::Scalar(t)), ValueView::Sequence(items)) => items.len()
            * t.width() + 11,
        (Kind::Sequence(ElementKind::Text), ValueView::Sequence(items)) => texts_room(items, 0) + 4
            * items.len() + 7,
        _ => 0,
    }
}

/// The most bytes that the objects of the fields from the `i`-th on take.
pub open spec fn objects_room(kinds: Seq<Kind>, values: Seq<ValueView>, i: nat) -> nat
    decreases kinds.len() - i,
{
    if i >= kinds.len() {
        0
    } else {
        object_room(kinds[i as int], values[i as int]) + objects_room(kinds, values, i + 1)
    }
}

impl Image {
    /// Whether the widest alignment asked for is the width of a scalar, or
    /// none was asked for yet.
    pub open spec fn align_ok(self) -> bool {
        self.min_align == 0 || self.min_align == 1 || self.min_align == 2 || self.min_align == 4
            || self.min_align == 8
    }
}

/// Aligning takes less than the alignment.
pub proof fn lemma_aligned_room(st: Image, len: nat, align: nat)
    requires
        st.align_ok(),
        align == 1 || align == 2 || align == 4 || align == 8,
    ensures
        st.aligned(len, align).used() < st.used() + align,
        st.aligned(len, align).align_ok(),
        st.aligned(len, align).fields == st.fields,
        st.aligned(len, align).table_start == st.table_start,
{
    lemma_padding(st.used() + len, align);
}

/// A number takes less than twice its width.
pub proof fn lemma_push_uint_room(st: Image, raw: nat, width: nat)
    requires
        st.align_ok(),
        width == 1 || width == 2 || width == 4 || width == 8,
    ensures
        st.push_uint(raw, width).used() < st.used() + 2 * width,
        st.push_uint(raw, width).align_ok(),
        st.push_uint(raw, width).fields == st.fields,
        st.push_uint(raw, width).table_start == st.table_start,
{
    reveal(Image::push_uint);
    lemma_aligned_room(st, width, width);
    lemma_le_bytes_len(raw, width);
}

/// A byte string takes no more than [`text_room`] says.
pub proof fn lemma_create_bytes_room(st: Image, bytes: Seq<u8>)
    requires
        st.align_ok(),
    ensures
        st.create_bytes(bytes).used() <= st.used() + bytes.len() + 8,
        st.create_bytes(bytes).align_ok(),
        st.create_bytes(bytes).fields == st.fields,
        st.create_bytes(bytes).table_start == st.table_start,
{
    reveal(Image::create_bytes);
    let a = st.aligned(bytes.len() + 1, 4);
    lemma_aligned_room(st, bytes.len() + 1, 4);
    lemma_padding(st.used() + bytes.len() + 1, 4);
    let b = a.push_uint(0, 1);
    assert(b.used() == a.used() + 1 && b.align_ok() && b.fields == a.fields && b.table_start
        == a.table_start) by {
        reveal(Image::push_uint);
        lemma_aligned_room(a, 1, 1);
        lemma_le_bytes_len(0, 1);
    }
    let c = b.with_front(bytes);
    let d = c.push_uint(bytes.len(), 4);
    assert(d.used() == c.used() + 4 && d.align_ok() && d.fields == c.fields && d.table_start
        == c.table_start) by {
        reveal(Image::push_uint);
        lemma_aligned_room(c, 4, 4);
        lemma_le_bytes_len(bytes.len(), 4);
        assert(padding(c.used() + 4, 4) == 0);
    }
}

/// An array takes its elements, its count and padding.
pub proof fn lemma_array_room(st: Image, front: Seq<u8>, wide: nat, count: nat)
    requires
        st.align_ok(),
        wide == 4 || wide == 8,
    ensures
        st.aligned(front.len(), wide).with_front(front).push_uint(count, 4).used() <= st.used()
            + front.len() + wide + 3,
        st.aligned(front.len(), wide).with_front(front).push_uint(count, 4).align_ok(),
        st.aligned(front.len(), wide).with_front(front).push_uint(count, 4).fields == st.fields,
        st.aligned(front.len(), wide).with_front(front).push_uint(count, 4).table_start
            == st.table_start,
{
    reveal(Image::push_uint);
    let a = st.aligned(front.len(), wide);
    lemma_aligned_room(st, front.len(), wide);
    lemma_padding(st.used() + front.len(), wide);
    let b = a.with_front(front);
    assert((a.used() + front.len()) % 4 == 0);
    assert(padding(b.used() + 4, 4) == 0);
    lemma_aligned_room(b, 4, 4);
    lemma_le_bytes_len(count, 4);
}

/// An array of numbers takes no more than [`object_room`] says.
pub proof fn lemma_create_uints_room(st: Image, items: Seq<nat>, width: nat)
    requires
        st.align_ok(),
        width == 1 || width == 2 || width == 4 || width == 8,
    ensures
        st.create_uints(items, width).used() <= st.used() + items.len() * width + 11,
        st.create_uints(items, width).align_ok(),
        st.create_uints(items, width).fields == st.fields,
        st.create_uints(items, width).table_start == st.table_start,
{
    let wide: nat = if width > 4 {
        width
    } else {
        4
    };
    let front = crate::image::packed(items, width);
    crate::builder::lemma_packed_len(items, width);
    assert(st.create_uints(items, width) == st.aligned(items.len() * width, wide).with_front(
        front,
    ).push_uint(items.len(), 4)) by {
        reveal(Image::create_uints);
    }
    lemma_array_room(st, front, wide, items.len());
}

/// An array of references takes no more than [`object_room`] says.
pub proof fn lemma_create_targets_room(st: Image, handles: Seq<nat>)
    requires
        st.align_ok(),
    ensures
        st.create_targets(handles).used() <= st.used() + 4 * handles.len() + 7,
        st.create_targets(handles).align_ok(),
        st.create_targets(handles).fields == st.fields,
        st.create_targets(handles).table_start == st.table_start,
{
    let base = st.aligned(4 * handles.len(), 4);
    let front = crate::image::packed(crate::image::distances(handles, base.used()), 4);
    crate::builder::lemma_packed_len(crate::image::distances(handles, base.used()), 4);
    assert(st.create_targets(handles) == base.with_front(front).push_uint(handles.len(), 4))
        by {
        reveal(Image::create_targets);
    }
    lemma_array_room(st, front, 4, handles.len());
}

/// Texts that have room are written.
pub proof fn lemma_create_texts_fit(st: Image, items: Seq<ItemView>, i: nat, handles: Seq<nat>)
    requires
        st.align_ok(),
        i <= items.len(),
        st.used() + texts_room(items, i) <= MAX_BUFFER_SIZE,
    ensures
        create_texts(st, items, i, handles) matches Some(made) && {
            &&& made.0.used() <= st.used() + texts_room(items, i)
            &&& made.0.align_ok()
            &&& made.0.fields == st.fields
            &&& made.0.table_start == st.table_start
            &&& made.1.len() == handles.len() + items.len() - i
        },
    decreases items.len() - i,
{
    if i < items.len() {
        let next = st.create_bytes(text_bytes(items[i as int]));
        lemma_create_bytes_room(st, text_bytes(items[i as int]));
        lemma_create_texts_fit(next, items, i + 1, handles.push(next.used()));
    }
}

/// The object of a field that has room is written.
pub proof fn lemma_indirect_fit(st: Image, k: Kind, v: ValueView)
    requires
        st.align_ok(),
        st.used() + object_room(k, v) <= MAX_BUFFER_SIZE,
    ensures
        indirect(st, k, v) matches Some(made) && {
            &&& made.0.used() <= st.used() + object_room(k, v)
            &&& made.0.align_ok()
            &&& made.0.fields == st.fields
            &&& made.0.table_start == st.table_start
        },
{
    reveal(indirect);
    match (k, v) {
        (Kind::Text, ValueView::Single(item)) => {
            lemma_create_bytes_room(st, text_bytes(item));
        },
        (Kind::Optional(ElementKind::Text), ValueView::Optional(Some(item))) => {
            lemma_create_bytes_room(st, text_bytes(item));
        },
        (Kind::Sequence(ElementKind::Scalar(t)), ValueView::Sequence(items)) => {
            lemma_create_uints_room(st, raws_of(items), t.width());
        },
        (Kind::Sequence(ElementKind::Text), ValueView::Sequence(items)) => {
            lemma_create_texts_fit(st, items, 0, Seq::empty());
            let made = create_texts(st, items, 0, Seq::empty()).unwrap();
            lemma_create_targets_room(made.0, made.1);
        },
        _ => {},
    }
}

/// The objects of fields that have room are written.
pub proof fn lemma_indirect_all_fit(
    st: Image,
    kinds: Seq<Kind>,
    values: Seq<ValueView>,
    i: nat,
    handles: Seq<Option<nat>>,
)
    requires
        st.align_ok(),
        i <= kinds.len(),
        st.used() + objects_room(kinds, values, i) <= MAX_BUFFER_SIZE,
    ensures
        indirect_all(st, kinds, values, i, handles) matches Some(made) && {
            &&& made.0.used() <= st.used() + objects_room(kinds, values, i)
            &&& made.0.align_ok()
            &&& made.0.fields == st.fields
            &&& made.0.table_start == st.table_start
        },
    decreases kinds.len() - i,
{
    if i < kinds.len() {
        lemma_indirect_fit(st, kinds[i as int], values[i as int]);
        let step = indirect(st, kinds[i as int], values[i as int]).unwrap();
        lemma_indirect_all_fit(step.0, kinds, values, i + 1, handles.push(step.1));
    }
}

/// A field is committed where fifteen bytes are left: at most eight for
/// the value and seven for padding.
pub proof fn lemma_commit_fit(
    st: Image,
    slot: u16,
    k: Kind,
    v: ValueView,
    handle: Option<nat>,
    bound: nat,
)
    requires
        st.align_ok(),
        st.used() + 15 <= MAX_BUFFER_SIZE,
        slots_below(st.fields, bound),
        slot <= bound,
    ensures
        commit(st, slot, k, v, handle) matches Some(next) && {
            &&& next.used() <= st.used() + 15
            &&& next.align_ok()
            &&& next.table_start == st.table_start
            &&& slots_below(next.fields, bound)
        },
{
    reveal(commit);
    reveal(Image::push_slot_uint);
    reveal(Image::push_slot_target);
    match (k, v) {
        (Kind::Scalar(t), ValueView::Single(ItemView::Scalar(s))) => {
            lemma_push_uint_room(st, s.raw(), t.width());
        },
        (
            Kind::Optional(ElementKind::Scalar(t)),
            ValueView::Optional(Some(ItemView::Scalar(s))),
        ) => {
            lemma_push_uint_room(st, s.raw(), t.width());
        },
        _ => {
            lemma_aligned_room(st, 4, 4);
            let base = st.aligned(4, 4);
            match handle {
                Some(h) => {
                    lemma_le_bytes_len((base.used() + 4 - h) as nat, 4);
                },
                None => {},
            }
        },
    }
    let next = commit(st, slot, k, v, handle).unwrap();
    assert forall|j: int| 0 <= j < next.fields.len() implies (#[trigger] next.fields[j]).slot
        <= bound by {
        if j < st.fields.len() {
            assert(next.fields[j] == st.fields[j]);
        }
    }
}

/// The fields are committed where fifteen bytes are left for each.
pub proof fn lemma_commit_all_fit(
    st: Image,
    kinds: Seq<Kind>,
    values: Seq<ValueView>,
    handles: Seq<Option<nat>>,
    order: Seq<usize>,
    j: nat,
)
    requires
        st.align_ok(),
        j <= order.len(),
        order.len() == kinds.len(),
        kinds.len() <= 4000,
        forall|a: int| 0 <= a < order.len() ==> (#[trigger] order[a]) < kinds.len(),
        st.used() + 15 * (order.len() - j) <= MAX_BUFFER_SIZE,
        slots_below(st.fields, 2 * kinds.len() + 2),
    ensures
        commit_all(st, kinds, values, handles, order, j) matches Some(fin) && {
            &&& fin.used() <= st.used() + 15 * (order.len() - j)
            &&& fin.align_ok()
            &&& fin.table_start == st.table_start
            &&& slots_below(fin.fields, 2 * kinds.len() + 2)
        },
    decreases order.len() - j,
{
    if j < order.len() {
        let f = order[j as int] as int;
        let slot = slot_of(f as nat) as u16;
        lemma_commit_fit(st, slot, kinds[f], values[f], handles[f], 2 * kinds.len() + 2);
        let next = commit(st, slot, kinds[f], values[f], handles[f]).unwrap();
        lemma_commit_all_fit(next, kinds, values, handles, order, j + 1);
    }
}

/// A record of at most 4000 fields is encoded where the room that its
/// texts and sequences need, and thirty-two bytes more than seventeen for
/// each field, is no more than a buffer has.
pub proof fn law_record_with_room_is_encoded(plan: Plan, values: Seq<ValueView>)
    requires
        plan.wf(),
        conform(plan.kinds(), values),
        plan.kinds().len() <= 4000,
        objects_room(plan.kinds(), values, 0) + 17 * plan.kinds().len() + 32 <= MAX_BUFFER_SIZE,
    ensures
        encoded(plan.kinds(), values, plan.commit_order@) is Some,
{
    let kinds = plan.kinds();
    let order = plan.commit_order@;
    let n = kinds.len();
    lemma_indirect_all_fit(Image::empty(), kinds, values, 0, Seq::empty());
    let first = indirect_all(Image::empty(), kinds, values, 0, Seq::empty()).unwrap();
    let start = first.0.start_table();
    lemma_commit_all_fit(start, kinds, values, first.1, order, 0);
    let st = commit_all(start, kinds, values, first.1, order, 0).unwrap();
    reveal(closed);
    reveal(Image::end_table);
    reveal(Image::finish);
    lemma_aligned_room(st, 4, 4);
    let base = st.aligned(4, 4);
    lemma_vtable_len_below(st.fields, 2 * n + 2);
    let words = crate::image::vtable_words(st.fields, st.table_handle(), st.table_start);
    crate::builder::lemma_packed_len(words, 2);
    lemma_le_bytes_len(vtable_len(st.fields), 4);
    let ended = st.end_table();
    assert(ended.used() <= st.used() + 7 + 2 * n + 4);
    assert(ended.min_align == 4 || ended.min_align == 8);
    lemma_aligned_room(ended, 4, ended.min_align);
    let padded = ended.aligned(4, ended.min_align);
    lemma_aligned_room(padded, 4, 4);
    let last = padded.aligned(4, 4);
    lemma_le_bytes_len((last.used() + 4 - st.table_handle()) as nat, 4);
}

} // verus!
