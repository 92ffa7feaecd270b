//! What each step of building leaves in the buffer, as a reader finds it.

use crate::image::{
    committed, distances, packed, padding, vtable_len, vtable_words, zeros, FieldLoc, Image,
    MAX_TABLE_SIZE,
};
use crate::layout::{
    bytes_at, extends, le_bytes, lemma_front_extends, lemma_le_bytes_len, lemma_le_round_trip,
    lemma_pow256_table, pow256, root_position, slot_position, target_at, uint_at, uints_at,
};
use crate::value::signed_of;
use vstd::prelude::*;

verus! {

/// A number written in front reads back.
pub proof fn lemma_le_front(raw: nat, width: nat, rest: Seq<u8>)
    requires
        raw < pow256(width),
    ensures
        uint_at(le_bytes(raw, width) + rest, 0, width) == Some(raw),
{
    lemma_le_round_trip(raw, width);
    assert((le_bytes(raw, width) + rest).subrange(0, width as int) =~= le_bytes(raw, width));
}

/// Padding fills up to the next multiple of the alignment.
pub proof fn lemma_padding(used: nat, align: nat)
    requires
        align == 1 || align == 2 || align == 4 || align == 8,
    ensures
        padding(used, align) < align,
        (used + padding(used, align)) % align == 0,
{
}

/// The `i`-th number of a packed list lies at `i * width`.
pub proof fn lemma_packed_range(items: Seq<nat>, width: nat, i: int)
    requires
        0 <= i < items.len(),
        width >= 1,
    ensures
        packed(items, width).len() == items.len() * width,
        0 <= i * width,
        i * width + width <= items.len() * width,
        packed(items, width).subrange(i * width, i * width + width) == le_bytes(items[i], width),
    decreases items.len(),
{
    crate::builder::lemma_packed_len(items, width);
    crate::builder::lemma_packed_len(items.drop_first(), width);
    lemma_le_bytes_len(items[0], width);
    assert(0 <= i * width && i * width + width <= items.len() * width) by (nonlinear_arith)
        requires
            0 <= i < items.len(),
            width >= 1,
    ;
    let head = le_bytes(items[0], width);
    let tail = packed(items.drop_first(), width);
    if i == 0 {
        assert((head + tail).subrange(0, width as int) =~= head);
    } else {
        lemma_packed_range(items.drop_first(), width, i - 1);
        assert((i - 1) * width == i * width - width) by (nonlinear_arith);
        assert((head + tail).subrange(i * width, i * width + width) =~= tail.subrange(
            (i - 1) * width,
            (i - 1) * width + width,
        ));
    }
}

impl Image {
    /// Whether this image came from `earlier` by writing in front, within
    /// the same table.
    pub open spec fn follows(self, earlier: Image) -> bool {
        &&& extends(self.data, earlier.data)
        &&& self.table_start == earlier.table_start
    }
}

/// Aligning writes in front and leaves the number of bytes in use, with
/// `len` more, a multiple of the alignment.
pub proof fn lemma_aligned(st: Image, len: nat, align: nat)
    requires
        align == 1 || align == 2 || align == 4 || align == 8,
    ensures
        st.aligned(len, align).follows(st),
        st.aligned(len, align).fields == st.fields,
        (st.aligned(len, align).used() + len) % align == 0,
        st.aligned(len, align).used() < st.used() + align,
        st.aligned(len, align).min_align >= align,
        st.aligned(len, align).min_align >= st.min_align,
{
    lemma_padding(st.used() + len, align);
    lemma_front_extends(zeros(padding(st.used() + len, align)), st.data);
}

/// What [`Image::push_uint`] leaves: the number, at the front.
pub proof fn lemma_push_uint(st: Image, raw: nat, width: nat)
    requires
        width == 1 || width == 2 || width == 4 || width == 8,
        raw < pow256(width),
    ensures
        st.push_uint(raw, width).follows(st),
        st.push_uint(raw, width).fields == st.fields,
        st.push_uint(raw, width).used() >= st.used() + width,
        st.push_uint(raw, width).min_align >= width,
        st.push_uint(raw, width).min_align >= st.min_align,
        uint_at(st.push_uint(raw, width).data, 0, width) == Some(raw),
{
    reveal(Image::push_uint);
    let base = st.aligned(width, width);
    lemma_aligned(st, width, width);
    lemma_le_bytes_len(raw, width);
    lemma_le_front(raw, width, base.data);
    lemma_front_extends(le_bytes(raw, width), base.data);
    crate::layout::lemma_extends_trans(st.push_uint(raw, width).data, base.data, st.data);
}

/// What [`Image::create_bytes`] leaves: the byte string, at the front.
pub proof fn lemma_create_bytes(st: Image, bytes: Seq<u8>)
    requires
        bytes.len() < 0x1_0000_0000,
    ensures
        st.create_bytes(bytes).follows(st),
        st.create_bytes(bytes).fields == st.fields,
        st.create_bytes(bytes).used() > st.used(),
        bytes_at(st.create_bytes(bytes).data, 0) == Some(bytes),
{
    reveal(Image::create_bytes);
    reveal(Image::push_uint);
    lemma_pow256_table();
    let a = st.aligned(bytes.len() + 1, 4);
    lemma_aligned(st, bytes.len() + 1, 4);
    let b = a.aligned(1, 1);
    lemma_aligned(a, 1, 1);
    let c = b.with_front(le_bytes(0, 1));
    lemma_le_bytes_len(0, 1);
    let d = c.with_front(bytes);
    let e = d.aligned(4, 4);
    lemma_aligned(d, 4, 4);
    assert(padding(d.used() + 4, 4) == 0);
    assert(e.data =~= d.data);
    let f = e.with_front(le_bytes(bytes.len(), 4));
    lemma_le_bytes_len(bytes.len(), 4);
    assert(f == st.create_bytes(bytes));
    lemma_le_front(bytes.len(), 4, e.data);
    assert(f.data.subrange(4, 4 + bytes.len() as int) =~= bytes);
    lemma_front_extends(le_bytes(bytes.len(), 4) + bytes + le_bytes(0, 1) + zeros(0), a.data);
    assert(f.data =~= le_bytes(bytes.len(), 4) + bytes + le_bytes(0, 1) + zeros(0) + a.data);
    crate::layout::lemma_extends_trans(f.data, a.data, st.data);
}

/// An array written in front reads back.
pub proof fn lemma_array_front(items: Seq<nat>, width: nat, rest: Seq<u8>)
    requires
        width >= 1,
        items.len() < 0x1_0000_0000,
        forall|i: int| 0 <= i < items.len() ==> items[i] < pow256(width),
    ensures
        uints_at(le_bytes(items.len(), 4) + packed(items, width) + rest, 0, width) == Some(items),
{
    lemma_pow256_table();
    let data = le_bytes(items.len(), 4) + packed(items, width) + rest;
    lemma_le_bytes_len(items.len(), 4);
    crate::builder::lemma_packed_len(items, width);
    lemma_le_front(items.len(), 4, packed(items, width) + rest);
    assert(data =~= le_bytes(items.len(), 4) + (packed(items, width) + rest));
    let read = uints_at(data, 0, width).unwrap();
    assert forall|i: int| 0 <= i < items.len() implies read[i] == items[i] by {
        lemma_packed_range(items, width, i);
        assert(data.subrange(4 + i * width, 4 + i * width + width) =~= packed(
            items,
            width,
        ).subrange(i * width, i * width + width));
        lemma_le_round_trip(items[i], width);
    }
    assert(read =~= items);
}

/// How an array is laid out: `front`, of `size` bytes, behind its count and
/// in front of the aligned image.
pub proof fn lemma_array_image(st: Image, front: Seq<u8>, size: nat, wide: nat, count: nat)
    requires
        wide == 4 || wide == 8,
        front.len() == size,
        count < 0x1_0000_0000,
    ensures
        ({
            let base = st.aligned(size, wide);
            let r = base.with_front(front).push_uint(count, 4);
            &&& r.data == le_bytes(count, 4) + front + base.data
            &&& r.follows(st)
            &&& r.fields == st.fields
            &&& r.used() > st.used()
            &&& r.used() == base.used() + size + 4
        }),
{
    reveal(Image::push_uint);
    let a = st.aligned(size, wide);
    lemma_aligned(st, size, wide);
    let b = a.with_front(front);
    assert((a.used() + size) % 4 == 0);
    let c = b.aligned(4, 4);
    assert(padding(b.used() + 4, 4) == 0);
    assert(c.data =~= b.data);
    let r = c.with_front(le_bytes(count, 4));
    lemma_le_bytes_len(count, 4);
    lemma_front_extends(le_bytes(count, 4) + front, a.data);
    assert(r.data =~= le_bytes(count, 4) + front + a.data);
    crate::layout::lemma_extends_trans(r.data, a.data, st.data);
}

/// What [`Image::create_uints`] leaves: the array, at the front.
pub proof fn lemma_create_uints(st: Image, items: Seq<nat>, width: nat)
    requires
        width == 1 || width == 2 || width == 4 || width == 8,
        items.len() < 0x1_0000_0000,
        forall|i: int| 0 <= i < items.len() ==> items[i] < pow256(width),
    ensures
        st.create_uints(items, width).follows(st),
        st.create_uints(items, width).fields == st.fields,
        st.create_uints(items, width).used() > st.used(),
        uints_at(st.create_uints(items, width).data, 0, width) == Some(items),
{
    let wide: nat = if width > 4 {
        width
    } else {
        4
    };
    let size: nat = items.len() * width;
    let front = packed(items, width);
    let base = st.aligned(size, wide);
    assert(st.create_uints(items, width) == base.with_front(front).push_uint(items.len(), 4))
        by {
        reveal(Image::create_uints);
    }
    crate::builder::lemma_packed_len(items, width);
    lemma_array_image(st, front, size, wide, items.len());
    lemma_array_front(items, width, base.data);
}

/// Where the `i`-th of the references that start at `first` points.
pub open spec fn reference_at(buf: Seq<u8>, first: int, i: int) -> Option<int> {
    target_at(buf, first + 4 * i)
}

/// What [`Image::create_targets`] leaves: the array of references, at the
/// front, each pointing at the object with its handle.
pub proof fn lemma_create_targets(st: Image, handles: Seq<nat>)
    requires
        handles.len() < 0x1_0000_0000,
        forall|i: int| 0 <= i < handles.len() ==> handles[i] <= st.used(),
        st.create_targets(handles).used() < 0x1_0000_0000,
    ensures
        st.create_targets(handles).follows(st),
        st.create_targets(handles).fields == st.fields,
        st.create_targets(handles).used() > st.used(),
        uint_at(st.create_targets(handles).data, 0, 4) == Some(handles.len()),
        4 + 4 * handles.len() <= st.create_targets(handles).used(),
        forall|i: int|
            0 <= i < handles.len() ==> #[trigger] reference_at(
                st.create_targets(handles).data,
                4,
                i,
            ) == Some(st.create_targets(handles).used() - handles[i]),
{
    lemma_pow256_table();
    let n = handles.len();
    let base = st.aligned(4 * n, 4);
    lemma_aligned(st, 4 * n, 4);
    let items = distances(handles, base.used());
    let front = packed(items, 4);
    let r = st.create_targets(handles);
    assert(r == base.with_front(front).push_uint(n, 4)) by {
        reveal(Image::create_targets);
    }
    crate::builder::lemma_packed_len(items, 4);
    lemma_array_image(st, front, 4 * n, 4, n);
    lemma_le_bytes_len(n, 4);
    lemma_le_front(n, 4, front + base.data);
    assert(r.data =~= le_bytes(n, 4) + (front + base.data));
    assert forall|i: int| 0 <= i < n implies #[trigger] reference_at(r.data, 4, i) == Some(
        r.used() - handles[i],
    ) by {
        lemma_packed_range(items, 4, i);
        assert(r.data.subrange(4 + 4 * i, 4 + 4 * i + 4) =~= packed(items, 4).subrange(
            i * 4,
            i * 4 + 4,
        ));
        lemma_le_round_trip(items[i], 4);
    }
}

/// What [`Image::push_slot_uint`] leaves: the number at the front, and its
/// place among the committed fields.
pub proof fn lemma_push_slot_uint(st: Image, slot: u16, raw: nat, width: nat)
    requires
        width == 1 || width == 2 || width == 4 || width == 8,
        raw < pow256(width),
    ensures
        st.push_slot_uint(slot, raw, width).follows(st),
        st.push_slot_uint(slot, raw, width).used() > st.used(),
        st.push_slot_uint(slot, raw, width).fields == st.fields.push(
            FieldLoc { slot, off: st.push_slot_uint(slot, raw, width).used() as u32 },
        ),
        uint_at(st.push_slot_uint(slot, raw, width).data, 0, width) == Some(raw),
{
    reveal(Image::push_slot_uint);
    lemma_push_uint(st, raw, width);
}

/// What [`Image::push_slot_target`] leaves: a reference at the front that
/// points at the object with the handle, and its place among the
/// committed fields.
pub proof fn lemma_push_slot_target(st: Image, slot: u16, handle: nat)
    requires
        handle <= st.used(),
        st.push_slot_target(slot, handle).used() < 0x1_0000_0000,
    ensures
        st.push_slot_target(slot, handle).follows(st),
        st.push_slot_target(slot, handle).used() > st.used(),
        st.push_slot_target(slot, handle).fields == st.fields.push(
            FieldLoc { slot, off: st.push_slot_target(slot, handle).used() as u32 },
        ),
        target_at(st.push_slot_target(slot, handle).data, 0) == Some(
            st.push_slot_target(slot, handle).used() - handle,
        ),
{
    reveal(Image::push_slot_target);
    lemma_pow256_table();
    let base = st.aligned(4, 4);
    lemma_aligned(st, 4, 4);
    let distance = (base.used() + 4 - handle) as nat;
    lemma_le_bytes_len(distance, 4);
    lemma_le_front(distance, 4, base.data);
    let r = st.push_slot_target(slot, handle);
    lemma_front_extends(le_bytes(distance, 4), base.data);
    crate::layout::lemma_extends_trans(r.data, base.data, st.data);
}

/// What [`Image::finish`] leaves: the offset of the root at the front.
pub proof fn lemma_finish(st: Image, root: nat)
    requires
        root <= st.used(),
        st.finish(root).used() < 0x1_0000_0000,
    ensures
        extends(st.finish(root).data, st.data),
        root_position(st.finish(root).data) == Some(st.finish(root).used() - root),
{
    reveal(Image::finish);
    lemma_pow256_table();
    let a = st.aligned(4, st.min_align);
    lemma_front_extends(zeros(padding(st.used() + 4, st.min_align)), st.data);
    let base = a.aligned(4, 4);
    lemma_front_extends(zeros(padding(a.used() + 4, 4)), a.data);
    let distance = (base.used() + 4 - root) as nat;
    lemma_le_bytes_len(distance, 4);
    lemma_le_front(distance, 4, base.data);
    let r = st.finish(root);
    lemma_front_extends(le_bytes(distance, 4), base.data);
    crate::layout::lemma_extends_trans(base.data, a.data, st.data);
    crate::layout::lemma_extends_trans(r.data, base.data, st.data);
}

/// A committed handle is the handle of one of the fields, in its slot.
pub proof fn lemma_committed_is_field(fields: Seq<FieldLoc>, slot: nat)
    requires
        committed(fields, slot) is Some,
    ensures
        exists|j: int|
            0 <= j < fields.len() && (#[trigger] fields[j]).slot == slot && fields[j].off
                == committed(fields, slot).unwrap(),
        slot + 2 <= vtable_len(fields),
    decreases fields.len(),
{
    if fields.last().slot == slot {
        assert(fields[fields.len() - 1].slot == slot);
    } else {
        lemma_committed_is_field(fields.drop_last(), slot);
        let j = choose|j: int|
            0 <= j < fields.drop_last().len() && (#[trigger] fields.drop_last()[j]).slot == slot
                && fields.drop_last()[j].off == committed(fields.drop_last(), slot).unwrap();
        assert(fields[j] == fields.drop_last()[j]);
    }
}

/// What [`Image::end_table`] leaves: the vtable at the front and the table
/// behind it, in which each committed field is found where its handle
/// says, and no other.
pub proof fn lemma_end_table(st: Image, slot: nat)
    requires
        st.table_ok(),
        st.table_handle() - st.table_start <= MAX_TABLE_SIZE,
        slot % 2 == 0,
        4 <= slot <= 0xFFFC,
    ensures
        extends(st.end_table().data, st.data),
        st.end_table().min_align >= 4,
        st.end_table().min_align >= st.min_align,
        st.end_table().used() == st.table_handle() + vtable_len(st.fields),
        uint_at(st.end_table().data, vtable_len(st.fields) as int, 4) == Some(
            vtable_len(st.fields),
        ),
        vtable_len(st.fields) <= 0xFFFE,
        slot_position(st.end_table().data, vtable_len(st.fields) as int, slot) == match committed(
            st.fields,
            slot,
        ) {
            Some(off) => Some(st.end_table().used() - off),
            None => None,
        },
{
    reveal(Image::end_table);
    lemma_pow256_table();
    let base = st.aligned(4, 4);
    lemma_aligned(st, 4, 4);
    let table = base.used() + 4;
    let len = vtable_len(st.fields);
    let words = vtable_words(st.fields, table, st.table_start);
    let front = packed(words, 2);
    let back = le_bytes(len, 4);
    let r = st.end_table();
    crate::builder::lemma_vtable_len_even(st.fields);
    lemma_vtable_len_below(st.fields, 0xFFFC);
    crate::builder::lemma_packed_len(words, 2);
    lemma_le_bytes_len(len, 4);
    assert(r.data == front + (back + base.data));
    // the offset back to the vtable
    lemma_le_front(len, 4, base.data);
    lemma_front_extends(front, back + base.data);
    crate::layout::lemma_uint_shift(r.data, back + base.data, 0, 4);
    // the length of the vtable
    lemma_packed_range(words, 2, 0);
    assert(r.data.subrange(0, 2) =~= front.subrange(0, 2));
    lemma_le_round_trip(len, 2);
    assert(uint_at(r.data, 0, 2) == Some(len));
    assert(signed_of(len, 4) == len);
    // the entry of the slot
    if slot + 2 <= len {
        let k = (slot / 2) as int;
        lemma_packed_range(words, 2, k);
        assert(r.data.subrange(slot as int, slot as int + 2) =~= front.subrange(k * 2, k * 2 + 2));
        match committed(st.fields, slot) {
            Some(off) => {
                lemma_committed_is_field(st.fields, slot);
                lemma_le_round_trip((table - off) as nat, 2);
            },
            None => {
                lemma_le_round_trip(0, 2);
            },
        }
    } else {
        if committed(st.fields, slot) is Some {
            lemma_committed_is_field(st.fields, slot);
        }
    }
    lemma_front_extends(front + back, base.data);
    assert(r.data =~= front + back + base.data);
    crate::layout::lemma_extends_trans(r.data, base.data, st.data);
}

/// Whether every committed field lies in a slot up to `bound`.
pub open spec fn slots_below(fields: Seq<FieldLoc>, bound: nat) -> bool {
    forall|j: int| 0 <= j < fields.len() ==> (#[trigger] fields[j]).slot <= bound
}

/// The vtable ends with the highest slot.
pub proof fn lemma_vtable_len_below(fields: Seq<FieldLoc>, bound: nat)
    requires
        slots_below(fields, bound),
        bound >= 2,
    ensures
        vtable_len(fields) <= bound + 2,
    decreases fields.len(),
{
    if fields.len() > 0 {
        assert(slots_below(fields.drop_last(), bound)) by {
            assert forall|j: int| 0 <= j < fields.drop_last().len() implies (
            #[trigger] fields.drop_last()[j]).slot <= bound by {
                assert(fields.drop_last()[j] == fields[j]);
            }
        }
        lemma_vtable_len_below(fields.drop_last(), bound);
        assert(fields[fields.len() - 1].slot <= bound);
    }
}

/// A byte string takes more room than its bytes.
pub proof fn lemma_create_bytes_size(st: Image, bytes: Seq<u8>)
    ensures
        st.create_bytes(bytes).used() > st.used() + bytes.len(),
{
    reveal(Image::create_bytes);
    reveal(Image::push_uint);
    lemma_le_bytes_len(0, 1);
    lemma_le_bytes_len(bytes.len(), 4);
}

/// An array of numbers takes more room than its count.
pub proof fn lemma_create_uints_size(st: Image, items: Seq<nat>, width: nat)
    requires
        width >= 1,
    ensures
        st.create_uints(items, width).used() > st.used() + items.len(),
{
    reveal(Image::create_uints);
    reveal(Image::push_uint);
    crate::builder::lemma_packed_len(items, width);
    lemma_le_bytes_len(items.len(), 4);
    assert(items.len() * width >= items.len()) by (nonlinear_arith)
        requires
            width >= 1,
    ;
}

/// An array of references takes more room than its count.
pub proof fn lemma_create_targets_size(st: Image, handles: Seq<nat>)
    ensures
        st.create_targets(handles).used() > st.used() + handles.len(),
{
    reveal(Image::create_targets);
    reveal(Image::push_uint);
    let base = st.aligned(4 * handles.len(), 4);
    crate::builder::lemma_packed_len(distances(handles, base.used()), 4);
    lemma_le_bytes_len(handles.len(), 4);
}

} // verus!
