//! The bytes that building a table produces, as a mathematical model.
//!
//! A buffer is built back to front: every step puts bytes in front of what
//! is there. A finished object is named by its handle: the number of bytes
//! in use once it was written, which is its distance from the end of the
//! buffer and never changes afterwards.

use crate::layout::le_bytes;
use vstd::prelude::*;

verus! {

/// The largest buffer that is built, in bytes.
pub const MAX_BUFFER_SIZE: usize = 0x7FFF_FFFF;

/// The largest table, in bytes, that a vtable can describe.
pub const MAX_TABLE_SIZE: usize = 0xFFFF;

/// Where a committed field lies: its slot and the handle of its bytes.
#[derive(Clone, Copy, Debug, PartialEq, Eq, Structural)]
pub struct FieldLoc {
    pub slot: u16,
    pub off: u32,
}

/// The number of zero bytes that bring `used` up to a multiple of `align`.
pub open spec fn padding(used: nat, align: nat) -> nat {
    if align == 0 {
        0
    } else {
        ((align - used % align) % (align as int)) as nat
    }
}

/// `n` zero bytes.
pub open spec fn zeros(n: nat) -> Seq<u8> {
    Seq::new(n, |i: int| 0u8)
}

/// The numbers of `items`, each as `width` little-endian bytes, one after
/// the other.
pub open spec fn packed(items: Seq<nat>, width: nat) -> Seq<u8>
    decreases items.len(),
{
    if items.len() == 0 {
        Seq::empty()
    } else {
        le_bytes(items[0], width) + packed(items.drop_first(), width)
    }
}

/// The offsets stored in an array of references whose last byte lies at
/// distance `tail` from the end of the buffer: each is the distance from the
/// element to the object with the handle `handles[i]`.
pub open spec fn distances(handles: Seq<nat>, tail: nat) -> Seq<nat> {
    Seq::new(
        handles.len(),
        |i: int| (tail + 4 * (handles.len() - i) - handles[i]) as nat,
    )
}

/// The length in bytes of the vtable for the committed fields: it reaches
/// to the end of the highest slot, and holds its two leading numbers at
/// least.
pub open spec fn vtable_len(fields: Seq<FieldLoc>) -> nat
    decreases fields.len(),
{
    if fields.len() == 0 {
        4
    } else {
        let rest = vtable_len(fields.drop_last());
        if fields.last().slot + 2 > rest {
            (fields.last().slot + 2) as nat
        } else {
            rest
        }
    }
}

/// The handle of the field committed to `slot`, if one was. Where a slot
/// was committed twice the later commit counts.
pub open spec fn committed(fields: Seq<FieldLoc>, slot: nat) -> Option<nat>
    decreases fields.len(),
{
    if fields.len() == 0 {
        None
    } else if fields.last().slot == slot {
        Some(fields.last().off as nat)
    } else {
        committed(fields.drop_last(), slot)
    }
}

/// The `k`-th 2-byte number of the vtable of a table that starts at the
/// handle `table` and ends at the handle `start`.
pub open spec fn vtable_word(fields: Seq<FieldLoc>, table: nat, start: nat, k: nat) -> nat {
    if k == 0 {
        vtable_len(fields)
    } else if k == 1 {
        (table - start) as nat
    } else {
        match committed(fields, 2 * k) {
            Some(off) => (table - off) as nat,
            None => 0,
        }
    }
}

/// The 2-byte numbers of the vtable.
pub open spec fn vtable_words(fields: Seq<FieldLoc>, table: nat, start: nat) -> Seq<nat> {
    Seq::new(vtable_len(fields) / 2, |k: int| vtable_word(fields, table, start, k as nat))
}

/// A buffer under construction.
pub struct Image {
    /// The bytes in use. The first is the one written last.
    pub data: Seq<u8>,
    /// The widest alignment asked for so far.
    pub min_align: nat,
    /// The fields committed to the table under construction.
    pub fields: Seq<FieldLoc>,
    /// The number of bytes in use when the table was started.
    pub table_start: nat,
}

impl Image {
    /// The buffer before anything is written.
    pub open spec fn empty() -> Image {
        Image { data: Seq::empty(), min_align: 0, fields: Seq::empty(), table_start: 0 }
    }

    /// The number of bytes in use.
    pub open spec fn used(self) -> nat {
        self.data.len()
    }

    /// Puts `bytes` in front.
    pub open spec fn with_front(self, bytes: Seq<u8>) -> Image {
        Image { data: bytes + self.data, ..self }
    }

    /// Pads with zero bytes so that, once `len` more bytes are written, the
    /// number of bytes in use is a multiple of `align`.
    pub open spec fn aligned(self, len: nat, align: nat) -> Image {
        Image {
            data: zeros(padding(self.used() + len, align)) + self.data,
            min_align: if align > self.min_align {
                align
            } else {
                self.min_align
            },
            ..self
        }
    }

    /// Writes a number of `width` bytes, aligned to its width.
    #[verifier::opaque]
    pub open spec fn push_uint(self, raw: nat, width: nat) -> Image {
        self.aligned(width, width).with_front(le_bytes(raw, width))
    }

    /// Writes a byte string: its length, its bytes, and a zero byte. The
    /// handle of the string is the number of bytes then in use.
    #[verifier::opaque]
    pub open spec fn create_bytes(self, bytes: Seq<u8>) -> Image {
        self.aligned(bytes.len() + 1, 4).push_uint(0, 1).with_front(bytes).push_uint(
            bytes.len(),
            4,
        )
    }

    /// Writes an array of numbers of `width` bytes each, behind its length.
    #[verifier::opaque]
    pub open spec fn create_uints(self, items: Seq<nat>, width: nat) -> Image {
        self.aligned(
            items.len() * width,
            if width > 4 {
                width
            } else {
                4
            },
        ).with_front(packed(items, width)).push_uint(items.len(), 4)
    }

    /// Writes an array of references to the objects with the given handles,
    /// behind its length.
    #[verifier::opaque]
    pub open spec fn create_targets(self, handles: Seq<nat>) -> Image {
        let base = self.aligned(4 * handles.len(), 4);
        base.with_front(packed(distances(handles, base.used()), 4)).push_uint(handles.len(), 4)
    }

    /// Whether the table under construction can be closed: it starts inside
    /// the buffer, and each committed field lies inside the buffer, in an
    /// even slot behind the two lengths of the vtable.
    pub open spec fn table_ok(self) -> bool {
        &&& self.table_start <= self.used()
        &&& forall|j: int|
            0 <= j < self.fields.len() ==> 4 <= (#[trigger] self.fields[j]).slot <= 0xFFFC
                && self.fields[j].slot % 2 == 0 && self.table_start < self.fields[j].off
                <= self.used()
    }

    /// Opens a table.
    pub open spec fn start_table(self) -> Image {
        Image { fields: Seq::empty(), table_start: self.used(), ..self }
    }

    /// Commits a number of `width` bytes to `slot`.
    #[verifier::opaque]
    pub open spec fn push_slot_uint(self, slot: u16, raw: nat, width: nat) -> Image {
        let pushed = self.push_uint(raw, width);
        Image {
            fields: self.fields.push(FieldLoc { slot, off: pushed.used() as u32 }),
            ..pushed
        }
    }

    /// Commits a reference to the object with the handle `handle` to `slot`.
    #[verifier::opaque]
    pub open spec fn push_slot_target(self, slot: u16, handle: nat) -> Image {
        let base = self.aligned(4, 4);
        let pushed = base.with_front(le_bytes((base.used() + 4 - handle) as nat, 4));
        Image {
            fields: self.fields.push(FieldLoc { slot, off: pushed.used() as u32 }),
            ..pushed
        }
    }

    /// The handle of the table that `end_table` closes.
    pub open spec fn table_handle(self) -> nat {
        self.aligned(4, 4).used() + 4
    }

    /// Closes the table: writes the offset to the vtable, which starts the
    /// table, and the vtable in front of it.
    #[verifier::opaque]
    pub open spec fn end_table(self) -> Image {
        let base = self.aligned(4, 4);
        let table = base.used() + 4;
        Image {
            data: packed(vtable_words(self.fields, table, self.table_start), 2) + (le_bytes(
                vtable_len(self.fields),
                4,
            ) + base.data),
            fields: Seq::empty(),
            ..base
        }
    }

    /// Finishes the buffer: pads it to the widest alignment and writes the
    /// offset of the root object in front.
    #[verifier::opaque]
    pub open spec fn finish(self, root: nat) -> Image {
        let base = self.aligned(4, self.min_align).aligned(4, 4);
        base.with_front(le_bytes((base.used() + 4 - root) as nat, 4))
    }
}

} // verus!
