//! The builder that writes a buffer back to front.

use crate::image::{
    committed, distances, packed, padding, vtable_len, vtable_words, zeros, FieldLoc, Image,
    MAX_BUFFER_SIZE, MAX_TABLE_SIZE,
};
use crate::layout::{le_bytes, lemma_le_bytes_len};
use vstd::prelude::*;

verus! {

/// `s` read from its end.
pub open spec fn mirror(s: Seq<u8>) -> Seq<u8> {
    Seq::new(s.len(), |i: int| s[s.len() - 1 - i])
}

/// Computes [`padding`] for an alignment of 1, 2, 4 or 8.
pub fn padding_for(used: u64, align: u64) -> (pad: u64)
    requires
        align == 1 || align == 2 || align == 4 || align == 8,
    ensures
        pad == padding(used as nat, align as nat),
        pad < align,
{
    (align - used % align) % align
}

/// A buffer under construction. Its bytes are held last byte first, so that
/// writing in front appends.
pub struct TableBuilder {
    rev: Vec<u8>,
    min_align: usize,
    fields: Vec<FieldLoc>,
    table_start: usize,
}

impl View for TableBuilder {
    type V = Image;

    closed spec fn view(&self) -> Image {
        Image {
            data: mirror(self.rev@),
            min_align: self.min_align as nat,
            fields: self.fields@,
            table_start: self.table_start as nat,
        }
    }
}

impl TableBuilder {
    /// The builder holds no more than the largest buffer, and has aligned to
    /// widths of scalars only.
    pub closed spec fn wf(&self) -> bool {
        &&& self.rev@.len() <= MAX_BUFFER_SIZE
        &&& self.table_start <= MAX_BUFFER_SIZE
        &&& (self.min_align == 0 || self.min_align == 1 || self.min_align == 2 || self.min_align
            == 4 || self.min_align == 8)
    }

    /// What well-formedness says of the model.
    pub proof fn lemma_wf(&self)
        requires
            self.wf(),
        ensures
            self@.used() <= MAX_BUFFER_SIZE,
            self@.table_start <= MAX_BUFFER_SIZE,
            self@.min_align == 0 || self@.min_align == 1 || self@.min_align == 2
                || self@.min_align == 4 || self@.min_align == 8,
    {
    }

    /// An empty builder.
    pub fn new() -> (b: TableBuilder)
        ensures
            b.wf(),
            b@ == Image::empty(),
    {
        let b = TableBuilder { rev: Vec::new(), min_align: 0, fields: Vec::new(), table_start: 0 };
        assert(b@.data =~= Seq::empty());
        b
    }

    /// Empties the builder, so that it can be used again.
    pub fn reset(&mut self)
        ensures
            final(self).wf(),
            final(self)@ == Image::empty(),
    {
        self.rev.clear();
        self.fields.clear();
        self.min_align = 0;
        self.table_start = 0;
        assert(self@.data =~= Seq::empty());
        assert(self@.fields =~= Seq::empty());
    }

    /// The number of bytes in use.
    pub fn used(&self) -> (n: usize)
        requires
            self.wf(),
        ensures
            n == self@.used(),
            n <= MAX_BUFFER_SIZE,
    {
        self.rev.len()
    }

    /// Whether `extra` more bytes fit.
    pub fn has_room(&self, extra: u64) -> (fits: bool)
        requires
            self.wf(),
        ensures
            fits == (self@.used() + extra <= MAX_BUFFER_SIZE),
    {
        extra <= (MAX_BUFFER_SIZE - self.rev.len()) as u64
    }

    /// Writes one byte in front.
    fn front_byte(&mut self, b: u8)
        requires
            old(self).wf(),
            old(self)@.used() < MAX_BUFFER_SIZE,
        ensures
            final(self).wf(),
            final(self)@ == old(self)@.with_front(seq![b]),
    {
        self.rev.push(b);
        assert(mirror(self.rev@) =~= seq![b] + mirror(old(self).rev@));
    }

    /// Writes the bytes of a slice in front.
    pub fn front_slice(&mut self, bytes: &[u8])
        requires
            old(self).wf(),
            old(self)@.used() + bytes@.len() <= MAX_BUFFER_SIZE,
        ensures
            final(self).wf(),
            final(self)@ == old(self)@.with_front(bytes@),
    {
        let n = bytes.len();
        let mut i: usize = n;
        assert(bytes@.subrange(n as int, n as int) + old(self)@.data =~= old(self)@.data);
        while i > 0
            invariant
                n == bytes@.len(),
                i <= n,
                self.wf(),
                old(self)@.used() + n <= MAX_BUFFER_SIZE,
                self@ == old(self)@.with_front(bytes@.subrange(i as int, n as int)),
            decreases i,
        {
            i -= 1;
            self.front_byte(bytes[i]);
            assert(seq![bytes@[i as int]] + (bytes@.subrange(i + 1, n as int) + old(self)@.data)
                =~= bytes@.subrange(i as int, n as int) + old(self)@.data);
        }
        assert(bytes@.subrange(0, n as int) =~= bytes@);
    }

    /// Writes `n` zero bytes in front.
    fn front_zeros(&mut self, n: usize)
        requires
            old(self).wf(),
            old(self)@.used() + n <= MAX_BUFFER_SIZE,
        ensures
            final(self).wf(),
            final(self)@ == old(self)@.with_front(zeros(n as nat)),
    {
        let mut i: usize = 0;
        assert(zeros(0) + old(self)@.data =~= old(self)@.data);
        while i < n
            invariant
                i <= n,
                self.wf(),
                old(self)@.used() + n <= MAX_BUFFER_SIZE,
                self@ == old(self)@.with_front(zeros(i as nat)),
            decreases n - i,
        {
            self.front_byte(0);
            i += 1;
            assert(seq![0u8] + (zeros((i - 1) as nat) + old(self)@.data) =~= zeros(i as nat)
                + old(self)@.data);
        }
    }

    /// Pads as [`Image::aligned`] does.
    pub fn align(&mut self, len: u64, align: usize)
        requires
            old(self).wf(),
            align == 1 || align == 2 || align == 4 || align == 8,
            len <= 2 * MAX_BUFFER_SIZE,
            old(self)@.aligned(len as nat, align as nat).used() <= MAX_BUFFER_SIZE,
        ensures
            final(self).wf(),
            final(self)@ == old(self)@.aligned(len as nat, align as nat),
    {
        let pad = padding_for(self.rev.len() as u64 + len, align as u64);
        self.front_zeros(pad as usize);
        if align > self.min_align {
            self.min_align = align;
        }
    }
}

/// The `width` low bytes of `raw`, in little-endian order.
pub fn uint_bytes(raw: u64, width: usize) -> (bytes: Vec<u8>)
    requires
        width <= 8,
    ensures
        bytes@ == le_bytes(raw as nat, width as nat),
{
    let mut bytes: Vec<u8> = Vec::new();
    let mut rest: u64 = raw;
    let mut i: usize = 0;
    assert(bytes@ + le_bytes(rest as nat, width as nat) =~= le_bytes(raw as nat, width as nat));
    while i < width
        invariant
            i <= width,
            bytes@.len() == i,
            bytes@ + le_bytes(rest as nat, (width - i) as nat) == le_bytes(
                raw as nat,
                width as nat,
            ),
        decreases width - i,
    {
        let ghost before = bytes@;
        bytes.push((rest % 256) as u8);
        assert(before + (seq![(rest % 256) as u8] + le_bytes(
            (rest / 256) as nat,
            (width - i - 1) as nat,
        )) =~= bytes@ + le_bytes((rest / 256) as nat, (width - i - 1) as nat));
        rest = rest / 256;
        i += 1;
    }
    assert(bytes@ + le_bytes(rest as nat, 0) =~= bytes@);
    bytes
}

/// The numbers of `items`, each as `width` little-endian bytes, one after
/// the other.
pub fn packed_bytes(items: &Vec<u64>, width: usize) -> (bytes: Vec<u8>)
    requires
        1 <= width <= 8,
    ensures
        bytes@ == packed(Seq::new(items@.len(), |i: int| items@[i] as nat), width as nat),
        bytes@.len() == items@.len() * width,
{
    let ghost all = Seq::new(items@.len(), |i: int| items@[i] as nat);
    let mut bytes: Vec<u8> = Vec::new();
    let mut i: usize = 0;
    assert(all.subrange(0, all.len() as int) =~= all);
    assert(bytes@ + packed(all, width as nat) =~= packed(all, width as nat));
    while i < items.len()
        invariant
            1 <= width <= 8,
            i <= items@.len(),
            all == Seq::new(items@.len(), |i: int| items@[i] as nat),
            bytes@.len() == i * width,
            bytes@ + packed(all.subrange(i as int, all.len() as int), width as nat) == packed(
                all,
                width as nat,
            ),
        decreases items@.len() - i,
    {
        let ghost before = bytes@;
        let ghost tail = all.subrange(i as int, all.len() as int);
        let mut one = uint_bytes(items[i], width);
        proof {
            crate::layout::lemma_le_bytes_len(items@[i as int] as nat, width as nat);
            assert(tail.drop_first() =~= all.subrange(i + 1, all.len() as int));
            assert(tail[0] == items@[i as int] as nat);
            assert((i + 1) * width == i * width + width) by (nonlinear_arith);
        }
        bytes.append(&mut one);
        assert(before + (le_bytes(tail[0], width as nat) + packed(
            tail.drop_first(),
            width as nat,
        )) =~= bytes@ + packed(tail.drop_first(), width as nat));
        i += 1;
    }
    assert(all.subrange(i as int, all.len() as int) =~= Seq::empty());
    assert(bytes@ + packed(Seq::empty(), width as nat) =~= bytes@);
    bytes
}

/// A list of numbers, as the model counts them.
pub open spec fn as_nats(items: Seq<u64>) -> Seq<nat> {
    Seq::new(items.len(), |i: int| items[i] as nat)
}

/// A list of handles, as the model counts them.
pub open spec fn handle_nats(handles: Seq<u32>) -> Seq<nat> {
    Seq::new(handles.len(), |i: int| handles[i] as nat)
}

/// Computes [`vtable_len`].
pub fn vtable_len_of(fields: &Vec<FieldLoc>) -> (len: usize)
    requires
        forall|j: int| 0 <= j < fields@.len() ==> fields@[j].slot <= 0xFFFC,
    ensures
        len == vtable_len(fields@),
        4 <= len <= 0xFFFE,
{
    let mut len: usize = 4;
    let mut j: usize = 0;
    assert(fields@.take(0) =~= Seq::empty());
    while j < fields.len()
        invariant
            j <= fields@.len(),
            forall|j: int| 0 <= j < fields@.len() ==> fields@[j].slot <= 0xFFFC,
            len == vtable_len(fields@.take(j as int)),
            4 <= len <= 0xFFFE,
        decreases fields@.len() - j,
    {
        assert(fields@.take(j + 1).drop_last() =~= fields@.take(j as int));
        let end: usize = fields[j].slot as usize + 2;
        if end > len {
            len = end;
        }
        j += 1;
    }
    assert(fields@.take(j as int) =~= fields@);
    len
}

/// Computes [`vtable_words`].
pub fn vtable_words_of(fields: &Vec<FieldLoc>, table: u32, start: u32) -> (words: Vec<u64>)
    requires
        start <= table,
        forall|j: int|
            0 <= j < fields@.len() ==> 4 <= (#[trigger] fields@[j]).slot <= 0xFFFC
                && fields@[j].slot % 2 == 0 && fields@[j].off <= table,
    ensures
        as_nats(words@) == vtable_words(fields@, table as nat, start as nat),
        words@.len() * 2 == vtable_len(fields@),
{
    let len = vtable_len_of(fields);
    let count: usize = len / 2;
    proof {
        lemma_vtable_len_even(fields@);
    }
    let mut words: Vec<u64> = Vec::new();
    let mut k: usize = 0;
    while k < count
        invariant
            k <= count,
            words@.len() == k,
            forall|i: int| 0 <= i < k ==> words@[i] == 0,
        decreases count - k,
    {
        words.push(0);
        k += 1;
    }
    words.set(0, len as u64);
    words.set(1, (table - start) as u64);
    let mut j: usize = 0;
    assert(fields@.take(0) =~= Seq::empty());
    while j < fields.len()
        invariant
            j <= fields@.len(),
            start <= table,
            len == vtable_len(fields@),
            count * 2 == len,
            words@.len() == count,
            forall|j: int|
                0 <= j < fields@.len() ==> 4 <= (#[trigger] fields@[j]).slot <= 0xFFFC
                    && fields@[j].slot % 2 == 0 && fields@[j].off <= table,
            words@[0] == len,
            words@[1] == table - start,
            forall|i: int|
                2 <= i < count ==> words@[i] as nat == match committed(
                    fields@.take(j as int),
                    (2 * i) as nat,
                ) {
                    Some(off) => (table - off) as nat,
                    None => 0,
                },
        decreases fields@.len() - j,
    {
        assert(fields@.take(j + 1).drop_last() =~= fields@.take(j as int));
        proof {
            lemma_vtable_len_covers(fields@, j as int);
        }
        let f = fields[j];
        words.set((f.slot / 2) as usize, (table - f.off) as u64);
        j += 1;
    }
    assert(fields@.take(j as int) =~= fields@);
    assert(as_nats(words@) =~= vtable_words(fields@, table as nat, start as nat));
    words
}

/// With even slots the vtable has an even length.
pub proof fn lemma_vtable_len_even(fields: Seq<FieldLoc>)
    requires
        forall|j: int| 0 <= j < fields.len() ==> (#[trigger] fields[j]).slot % 2 == 0,
    ensures
        vtable_len(fields) % 2 == 0,
        vtable_len(fields) >= 4,
    decreases fields.len(),
{
    if fields.len() > 0 {
        lemma_vtable_len_even(fields.drop_last());
    }
}

/// The vtable reaches to the end of every committed slot.
pub proof fn lemma_vtable_len_covers(fields: Seq<FieldLoc>, j: int)
    requires
        0 <= j < fields.len(),
    ensures
        fields[j].slot + 2 <= vtable_len(fields),
    decreases fields.len(),
{
    if j < fields.len() - 1 {
        lemma_vtable_len_covers(fields.drop_last(), j);
    }
}

impl TableBuilder {
    /// Writes a number as [`Image::push_uint`] does, if the result fits.
    pub fn push_uint(&mut self, raw: u64, width: usize) -> (ok: bool)
        requires
            old(self).wf(),
            width == 1 || width == 2 || width == 4 || width == 8,
        ensures
            final(self)@.used() >= old(self)@.used(),
            final(self)@.fields == old(self)@.fields,
            final(self)@.table_start == old(self)@.table_start,
            final(self).wf(),
            ok == (old(self)@.push_uint(raw as nat, width as nat).used() <= MAX_BUFFER_SIZE),
            ok ==> final(self)@ == old(self)@.push_uint(raw as nat, width as nat),
            !ok ==> final(self)@ == old(self)@,
    {
        proof {
            reveal(Image::push_uint);
        }
        proof {
            lemma_le_bytes_len(raw as nat, width as nat);
        }
        let pad = padding_for(self.rev.len() as u64 + width as u64, width as u64);
        if !self.has_room(pad + width as u64) {
            return false;
        }
        self.align(width as u64, width);
        let bytes = uint_bytes(raw, width);
        self.front_slice(bytes.as_slice());
        true
    }

    /// Writes a byte string as [`Image::create_bytes`] does, if the result
    /// fits, and returns its handle.
    pub fn create_bytes(&mut self, bytes: &[u8]) -> (handle: Option<u32>)
        requires
            old(self).wf(),
        ensures
            final(self)@.used() >= old(self)@.used(),
            final(self)@.fields == old(self)@.fields,
            final(self)@.table_start == old(self)@.table_start,
            final(self).wf(),
            match handle {
                Some(h) => final(self)@ == old(self)@.create_bytes(bytes@) && h == final(self)@.used(),
                None => old(self)@.create_bytes(bytes@).used() > MAX_BUFFER_SIZE && final(self)@
                    == old(self)@,
            },
    {
        proof {
            reveal(Image::push_uint);
            reveal(Image::create_bytes);
        }
        proof {
            lemma_le_bytes_len(0, 1);
            lemma_le_bytes_len(bytes@.len(), 4);
        }
        let len = bytes.len();
        if len > MAX_BUFFER_SIZE {
            return None;
        }
        let used: u64 = self.rev.len() as u64;
        let pad: u64 = padding_for(used + len as u64 + 1, 4);
        let body: u64 = used + pad + 1 + len as u64;
        let pad_len: u64 = padding_for(body + 4, 4);
        if body + pad_len + 4 > MAX_BUFFER_SIZE as u64 {
            return None;
        }
        self.align(len as u64 + 1, 4);
        let ended = self.push_uint(0, 1);
        assert(ended);
        self.front_slice(bytes);
        let counted = self.push_uint(len as u64, 4);
        assert(counted);
        Some(self.rev.len() as u32)
    }

    /// Writes an array of numbers as [`Image::create_uints`] does, if the
    /// result fits, and returns its handle.
    pub fn create_uints(&mut self, items: &Vec<u64>, width: usize) -> (handle: Option<u32>)
        requires
            old(self).wf(),
            width == 1 || width == 2 || width == 4 || width == 8,
        ensures
            final(self)@.used() >= old(self)@.used(),
            final(self)@.fields == old(self)@.fields,
            final(self)@.table_start == old(self)@.table_start,
            final(self).wf(),
            match handle {
                Some(h) => final(self)@ == old(self)@.create_uints(
                    as_nats(items@),
                    width as nat,
                ) && h == final(self)@.used(),
                None => old(self)@.create_uints(as_nats(items@), width as nat).used()
                    > MAX_BUFFER_SIZE && final(self)@ == old(self)@,
            },
    {
        proof {
            reveal(Image::push_uint);
            reveal(Image::create_uints);
        }
        let count = items.len();
        proof {
            lemma_le_bytes_len(count as nat, 4);
            lemma_packed_len(as_nats(items@), width as nat);
        }
        if count > MAX_BUFFER_SIZE / width {
            assert(count * width > MAX_BUFFER_SIZE) by (nonlinear_arith)
                requires
                    count > MAX_BUFFER_SIZE / width,
                    width >= 1,
            ;
            return None;
        }
        assert(count * width <= MAX_BUFFER_SIZE) by (nonlinear_arith)
            requires
                count <= MAX_BUFFER_SIZE / width,
                width >= 1,
        ;
        let size: u64 = (count * width) as u64;
        let used: u64 = self.rev.len() as u64;
        let wide: usize = if width > 4 {
            width
        } else {
            4
        };
        let pad: u64 = padding_for(used + size, wide as u64);
        let body: u64 = used + pad + size;
        let pad_len: u64 = padding_for(body + 4, 4);
        if body + pad_len + 4 > MAX_BUFFER_SIZE as u64 {
            return None;
        }
        self.align(size, wide);
        let bytes = packed_bytes(items, width);
        self.front_slice(bytes.as_slice());
        let counted = self.push_uint(count as u64, 4);
        assert(counted);
        Some(self.rev.len() as u32)
    }

    /// Writes an array of references as [`Image::create_targets`] does, if
    /// the result fits, and returns its handle.
    pub fn create_targets(&mut self, handles: &Vec<u32>) -> (handle: Option<u32>)
        requires
            old(self).wf(),
            forall|i: int| 0 <= i < handles@.len() ==> handles@[i] <= old(self)@.used(),
        ensures
            final(self)@.used() >= old(self)@.used(),
            final(self)@.fields == old(self)@.fields,
            final(self)@.table_start == old(self)@.table_start,
            final(self).wf(),
            match handle {
                Some(h) => final(self)@ == old(self)@.create_targets(handle_nats(handles@))
                    && h == final(self)@.used(),
                None => old(self)@.create_targets(handle_nats(handles@)).used()
                    > MAX_BUFFER_SIZE && final(self)@ == old(self)@,
            },
    {
        proof {
            reveal(Image::push_uint);
            reveal(Image::create_targets);
        }
        let ghost targets = handle_nats(handles@);
        let count = handles.len();
        proof {
            lemma_le_bytes_len(count as nat, 4);
        }
        if count > MAX_BUFFER_SIZE / 4 {
            proof {
                lemma_packed_len(
                    distances(targets, old(self)@.aligned(4 * targets.len(), 4).used()),
                    4,
                );
            }
            return None;
        }
        let size: u64 = (count * 4) as u64;
        let used: u64 = self.rev.len() as u64;
        let pad: u64 = padding_for(used + size, 4);
        let tail: u64 = used + pad;
        let body: u64 = tail + size;
        let pad_len: u64 = padding_for(body + 4, 4);
        proof {
            lemma_packed_len(distances(targets, tail as nat), 4);
        }
        if body + pad_len + 4 > MAX_BUFFER_SIZE as u64 {
            return None;
        }
        let mut offsets: Vec<u64> = Vec::new();
        let mut i: usize = 0;
        while i < count
            invariant
                i <= count,
                count == handles@.len(),
                count <= MAX_BUFFER_SIZE / 4,
                tail <= MAX_BUFFER_SIZE,
                targets == handle_nats(handles@),
                forall|i: int| 0 <= i < handles@.len() ==> handles@[i] <= tail,
                offsets@.len() == i,
                forall|j: int|
                    0 <= j < i ==> offsets@[j] as nat == distances(targets, tail as nat)[j],
            decreases count - i,
        {
            offsets.push(tail + 4 * (count - i) as u64 - handles[i] as u64);
            i += 1;
        }
        assert(as_nats(offsets@) =~= distances(targets, tail as nat));
        self.align(size, 4);
        let bytes = packed_bytes(&offsets, 4);
        self.front_slice(bytes.as_slice());
        let counted = self.push_uint(count as u64, 4);
        assert(counted);
        Some(self.rev.len() as u32)
    }

    /// Opens a table.
    pub fn start_table(&mut self)
        requires
            old(self).wf(),
        ensures
            final(self).wf(),
            final(self)@ == old(self)@.start_table(),
    {
        self.fields.clear();
        self.table_start = self.rev.len();
        assert(self@.fields =~= Seq::empty());
    }

    /// Commits a number to a slot as [`Image::push_slot_uint`] does, if the
    /// result fits.
    pub fn push_slot_uint(&mut self, slot: u16, raw: u64, width: usize) -> (ok: bool)
        requires
            old(self).wf(),
            width == 1 || width == 2 || width == 4 || width == 8,
        ensures
            final(self)@.used() >= old(self)@.used(),
            old(self)@.table_ok() && 4 <= slot <= 0xFFFC && slot % 2 == 0 ==> final(self)@.table_ok(),
            final(self).wf(),
            ok == (old(self)@.push_slot_uint(slot, raw as nat, width as nat).used()
                <= MAX_BUFFER_SIZE),
            ok ==> final(self)@ == old(self)@.push_slot_uint(slot, raw as nat, width as nat),
            !ok ==> final(self)@ == old(self)@,
    {
        proof {
            reveal(Image::push_uint);
            reveal(Image::push_slot_uint);
        }
        if !self.push_uint(raw, width) {
            return false;
        }
        self.fields.push(FieldLoc { slot, off: self.rev.len() as u32 });
        true
    }

    /// Commits a reference to a slot as [`Image::push_slot_target`] does,
    /// if the result fits.
    pub fn push_slot_target(&mut self, slot: u16, handle: u32) -> (ok: bool)
        requires
            old(self).wf(),
            handle <= old(self)@.used(),
        ensures
            final(self)@.used() >= old(self)@.used(),
            old(self)@.table_ok() && 4 <= slot <= 0xFFFC && slot % 2 == 0 ==> final(self)@.table_ok(),
            final(self).wf(),
            ok == (old(self)@.push_slot_target(slot, handle as nat).used() <= MAX_BUFFER_SIZE),
            ok ==> final(self)@ == old(self)@.push_slot_target(slot, handle as nat),
            !ok ==> final(self)@ == old(self)@,
    {
        proof {
            reveal(Image::push_slot_target);
        }
        let used: u64 = self.rev.len() as u64;
        let pad: u64 = padding_for(used + 4, 4);
        proof {
            lemma_le_bytes_len((used + pad + 4 - handle) as nat, 4);
        }
        if used + pad + 4 > MAX_BUFFER_SIZE as u64 {
            return false;
        }
        self.align(4, 4);
        let bytes = uint_bytes(used + pad + 4 - handle as u64, 4);
        self.front_slice(bytes.as_slice());
        self.fields.push(FieldLoc { slot, off: self.rev.len() as u32 });
        true
    }

    /// Closes the table as [`Image::end_table`] does and returns its
    /// handle, if the buffer fits and the table is no longer than a vtable
    /// can say.
    pub fn end_table(&mut self) -> (handle: Option<u32>)
        requires
            old(self).wf(),
            old(self)@.table_ok(),
        ensures
            handle matches Some(h) ==> h <= final(self)@.used() && final(self)@.min_align >= 4
                && old(self)@.table_handle() - old(self)@.table_start <= MAX_TABLE_SIZE,
            final(self).wf(),
            match handle {
                Some(h) => final(self)@ == old(self)@.end_table() && h == old(self)@.table_handle(),
                None => {
                    &&& old(self)@.end_table().used() > MAX_BUFFER_SIZE || old(self)@.table_handle()
                        - old(self)@.table_start > MAX_TABLE_SIZE
                    &&& final(self)@ == old(self)@
                },
            },
    {
        proof {
            reveal(Image::end_table);
        }
        let used: u64 = self.rev.len() as u64;
        let pad: u64 = padding_for(used + 4, 4);
        let table: u64 = used + pad + 4;
        assert forall|j: int| 0 <= j < self.fields@.len() implies {
            &&& 4 <= (#[trigger] self.fields@[j]).slot <= 0xFFFC
            &&& self.fields@[j].slot % 2 == 0
            &&& self.fields@[j].off <= used
        } by {
            assert(self.fields@[j] == self@.fields[j]);
        }
        let len = vtable_len_of(&self.fields);
        proof {
            lemma_le_bytes_len(len as nat, 4);
            lemma_vtable_len_even(self.fields@);
            lemma_packed_len(
                vtable_words(self.fields@, table as nat, self.table_start as nat),
                2,
            );
        }
        if table + len as u64 > MAX_BUFFER_SIZE as u64 {
            return None;
        }
        if table - self.table_start as u64 > MAX_TABLE_SIZE as u64 {
            return None;
        }
        let words = vtable_words_of(&self.fields, table as u32, self.table_start as u32);
        self.align(4, 4);
        let back = uint_bytes(len as u64, 4);
        self.front_slice(back.as_slice());
        let bytes = packed_bytes(&words, 2);
        self.front_slice(bytes.as_slice());
        self.fields.clear();
        assert(self@.fields =~= Seq::empty());
        assert(self@.data =~= old(self)@.end_table().data);
        Some(table as u32)
    }

    /// Finishes the buffer as [`Image::finish`] does, if the result fits.
    pub fn finish(&mut self, root: u32) -> (ok: bool)
        requires
            old(self).wf(),
            root <= old(self)@.used(),
            old(self)@.min_align >= 1,
        ensures
            final(self).wf(),
            ok == (old(self)@.finish(root as nat).used() <= MAX_BUFFER_SIZE),
            ok ==> final(self)@ == old(self)@.finish(root as nat),
            !ok ==> final(self)@ == old(self)@,
    {
        proof {
            reveal(Image::finish);
        }
        let used: u64 = self.rev.len() as u64;
        let first: u64 = padding_for(used + 4, self.min_align as u64);
        let second: u64 = padding_for(used + first + 4, 4);
        let base: u64 = used + first + second;
        proof {
            lemma_le_bytes_len((base + 4 - root) as nat, 4);
        }
        if base + 4 > MAX_BUFFER_SIZE as u64 {
            return false;
        }
        let widest = self.min_align;
        self.align(4, widest);
        self.align(4, 4);
        let bytes = uint_bytes(base + 4 - root as u64, 4);
        self.front_slice(bytes.as_slice());
        true
    }

    /// The bytes of the buffer, first byte first.
    pub fn finished_data(&self) -> (bytes: Vec<u8>)
        requires
            self.wf(),
        ensures
            bytes@ == self@.data,
    {
        let n = self.rev.len();
        let mut bytes: Vec<u8> = Vec::new();
        let mut i: usize = n;
        while i > 0
            invariant
                n == self.rev@.len(),
                i <= n,
                bytes@.len() == n - i,
                forall|j: int| 0 <= j < n - i ==> bytes@[j] == self.rev@[n - 1 - j],
            decreases i,
        {
            i -= 1;
            bytes.push(self.rev[i]);
        }
        assert(bytes@ =~= mirror(self.rev@));
        bytes
    }
}

/// The length of [`packed`].
pub proof fn lemma_packed_len(items: Seq<nat>, width: nat)
    ensures
        packed(items, width).len() == items.len() * width,
    decreases items.len(),
{
    if items.len() > 0 {
        lemma_packed_len(items.drop_first(), width);
        lemma_le_bytes_len(items[0], width);
        assert(items.len() * width == (items.len() - 1) * width + width) by (nonlinear_arith);
    } else {
        assert(0 * width == 0);
    }
}

} // verus!
