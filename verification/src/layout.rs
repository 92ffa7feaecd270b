//! The binary table layout, as a reader sees it.
//!
//! A buffer starts with the 4-byte offset of the root table. A table starts
//! with a signed 4-byte offset back to its vtable. The vtable is a list of
//! 2-byte numbers: its own length in bytes, the length of the table, and for
//! each slot the distance from the table's start to the field, or 0 when the
//! field is absent. A text or a sequence is stored outside the table; the
//! field holds the unsigned 4-byte distance to it. All numbers are
//! little-endian.
//!
//! Reading is lenient: what lies outside the buffer is absent.

use crate::value::{radix, signed_of};
use vstd::prelude::*;

verus! {

/// The number that a sequence of bytes spells in little-endian order.
pub open spec fn le_value(bytes: Seq<u8>) -> nat
    decreases bytes.len(),
{
    if bytes.len() == 0 {
        0
    } else {
        bytes[0] as nat + 256 * le_value(bytes.drop_first())
    }
}

/// The `width` low bytes of `raw`, in little-endian order.
pub open spec fn le_bytes(raw: nat, width: nat) -> Seq<u8>
    decreases width,
{
    if width == 0 {
        Seq::empty()
    } else {
        seq![(raw % 256) as u8] + le_bytes(raw / 256, (width - 1) as nat)
    }
}

/// 256 to the power of `n`.
pub open spec fn pow256(n: nat) -> nat
    decreases n,
{
    if n == 0 {
        1
    } else {
        256 * pow256((n - 1) as nat)
    }
}

/// The unsigned number stored in the `width` bytes at `pos`, if they lie
/// inside the buffer.
pub open spec fn uint_at(buf: Seq<u8>, pos: int, width: nat) -> Option<nat> {
    if 0 <= pos && pos + width <= buf.len() {
        Some(le_value(buf.subrange(pos, pos + width)))
    } else {
        None
    }
}

/// The position that the unsigned 4-byte offset at `pos` points to, if it
/// lies inside the buffer or at its end.
pub open spec fn target_at(buf: Seq<u8>, pos: int) -> Option<int> {
    match uint_at(buf, pos, 4) {
        Some(distance) => if pos + distance <= buf.len() {
            Some(pos + distance)
        } else {
            None
        },
        None => None,
    }
}

/// The bytes of the length-prefixed byte string at `pos`, if it lies inside
/// the buffer.
pub open spec fn bytes_at(buf: Seq<u8>, pos: int) -> Option<Seq<u8>> {
    match uint_at(buf, pos, 4) {
        Some(len) => if pos + 4 + len <= buf.len() {
            Some(buf.subrange(pos + 4, pos + 4 + len))
        } else {
            None
        },
        None => None,
    }
}

/// The numbers of the length-prefixed array at `pos` whose elements are
/// `width` bytes wide, if the array lies inside the buffer.
pub open spec fn uints_at(buf: Seq<u8>, pos: int, width: nat) -> Option<Seq<nat>> {
    match uint_at(buf, pos, 4) {
        Some(len) => if pos + 4 + len * width <= buf.len() {
            Some(
                Seq::new(
                    len,
                    |i: int| le_value(buf.subrange(pos + 4 + i * width, pos + 4 + i * width + width)),
                ),
            )
        } else {
            None
        },
        None => None,
    }
}

/// The position of the field in slot `slot` of the table at `table`, or
/// `None` when the field is absent, lies outside the buffer, or the table
/// cannot be read.
pub open spec fn slot_position(buf: Seq<u8>, table: int, slot: nat) -> Option<int> {
    match uint_at(buf, table, 4) {
        None => None,
        Some(back) => {
            let vtable = table - signed_of(back, 4);
            match uint_at(buf, vtable, 2) {
                None => None,
                Some(vtable_len) => if slot + 2 > vtable_len {
                    None
                } else {
                    match uint_at(buf, vtable + slot, 2) {
                        None => None,
                        Some(distance) => if distance == 0 || table + distance > buf.len() {
                            None
                        } else {
                            Some(table + distance)
                        },
                    }
                },
            }
        },
    }
}

/// The position of the root table of a buffer.
pub open spec fn root_position(buf: Seq<u8>) -> Option<int> {
    target_at(buf, 0)
}

/// `pow256` at the four widths of a scalar.
pub proof fn lemma_pow256_values()
    ensures
        pow256(1) == radix(1),
        pow256(2) == radix(2),
        pow256(4) == radix(4),
        pow256(8) == radix(8),
{
    reveal_with_fuel(pow256, 9);
}

/// A number spelled by `n` bytes is below `pow256(n)`.
pub proof fn lemma_le_value_bound(bytes: Seq<u8>)
    ensures
        le_value(bytes) < pow256(bytes.len()),
    decreases bytes.len(),
{
    if bytes.len() > 0 {
        lemma_le_value_bound(bytes.drop_first());
    }
}

/// The bytes of a number spell that number.
pub proof fn lemma_le_round_trip(raw: nat, width: nat)
    requires
        raw < pow256(width),
    ensures
        le_bytes(raw, width).len() == width,
        le_value(le_bytes(raw, width)) == raw,
    decreases width,
{
    if width > 0 {
        lemma_le_round_trip(raw / 256, (width - 1) as nat);
        assert(le_bytes(raw, width).drop_first() =~= le_bytes(raw / 256, (width - 1) as nat));
    }
}

/// The length of `le_bytes`.
pub proof fn lemma_le_bytes_len(raw: nat, width: nat)
    ensures
        le_bytes(raw, width).len() == width,
    decreases width,
{
    if width > 0 {
        lemma_le_bytes_len(raw / 256, (width - 1) as nat);
    }
}

/// The first eight powers of 256.
pub proof fn lemma_pow256_table()
    ensures
        pow256(0) == 1,
        pow256(1) == 0x100,
        pow256(2) == 0x1_0000,
        pow256(3) == 0x100_0000,
        pow256(4) == 0x1_0000_0000,
        pow256(5) == 0x100_0000_0000,
        pow256(6) == 0x1_0000_0000_0000,
        pow256(7) == 0x100_0000_0000_0000,
        pow256(8) == 0x1_0000_0000_0000_0000,
{
    reveal_with_fuel(pow256, 9);
}

/// Taking one more byte in front multiplies what follows by 256.
pub proof fn lemma_le_value_step(buf: Seq<u8>, from: int, to: int)
    requires
        0 <= from < to <= buf.len(),
    ensures
        le_value(buf.subrange(from, to)) == buf[from] as nat + 256 * le_value(
            buf.subrange(from + 1, to),
        ),
{
    assert(buf.subrange(from, to).drop_first() =~= buf.subrange(from + 1, to));
}

/// Reads the unsigned little-endian number in the `width` bytes at `pos`.
pub fn read_uint(buf: &[u8], pos: usize, width: usize) -> (found: Option<u64>)
    requires
        1 <= width <= 8,
    ensures
        match found {
            Some(v) => uint_at(buf@, pos as int, width as nat) == Some(v as nat),
            None => uint_at(buf@, pos as int, width as nat) is None,
        },
{
    if pos > buf.len() || buf.len() - pos < width {
        return None;
    }
    let mut acc: u64 = 0;
    let mut i: usize = width;
    proof {
        lemma_pow256_table();
    }
    while i > 0
        invariant
            1 <= width <= 8,
            pos + width <= buf@.len() <= usize::MAX,
            i <= width,
            acc as nat == le_value(buf@.subrange(pos + i, pos + width)),
            acc < pow256((width - i) as nat),
        decreases i,
    {
        proof {
            lemma_pow256_table();
            lemma_le_value_step(buf@, pos + i - 1, pos + width);
        }
        i -= 1;
        acc = acc * 256 + buf[pos + i] as u64;
    }
    Some(acc)
}

/// Follows the unsigned 4-byte offset at `pos`.
pub fn read_target(buf: &[u8], pos: usize) -> (found: Option<usize>)
    ensures
        match found {
            Some(t) => target_at(buf@, pos as int) == Some(t as int) && t <= buf@.len(),
            None => target_at(buf@, pos as int) is None,
        },
{
    match read_uint(buf, pos, 4) {
        None => None,
        Some(distance) => {
            proof {
                lemma_le_value_bound(buf@.subrange(pos as int, pos + 4));
                lemma_pow256_table();
            }
            if distance > (buf.len() - pos) as u64 {
                None
            } else {
                Some(pos + distance as usize)
            }
        },
    }
}

/// Copies the length-prefixed byte string at `pos`.
pub fn read_bytes(buf: &[u8], pos: usize) -> (found: Option<Vec<u8>>)
    ensures
        match found {
            Some(bytes) => bytes_at(buf@, pos as int) == Some(bytes@),
            None => bytes_at(buf@, pos as int) is None,
        },
{
    match read_uint(buf, pos, 4) {
        None => None,
        Some(len) => {
            if len > (buf.len() - pos - 4) as u64 {
                return None;
            }
            let start: usize = pos + 4;
            let end: usize = start + len as usize;
            let mut bytes: Vec<u8> = Vec::new();
            let mut i: usize = start;
            while i < end
                invariant
                    start <= i <= end <= buf@.len(),
                    bytes@ == buf@.subrange(start as int, i as int),
                decreases end - i,
            {
                bytes.push(buf[i]);
                i += 1;
                assert(bytes@ =~= buf@.subrange(start as int, i as int));
            }
            Some(bytes)
        },
    }
}

/// Reads the length-prefixed array at `pos` whose elements are `width`
/// bytes wide.
pub fn read_uints(buf: &[u8], pos: usize, width: usize) -> (found: Option<Vec<u64>>)
    requires
        1 <= width <= 8,
    ensures
        match found {
            Some(v) => uints_at(buf@, pos as int, width as nat) == Some(
                Seq::new(v@.len(), |i: int| v@[i] as nat),
            ) && forall|i: int| 0 <= i < v@.len() ==> v@[i] < pow256(width as nat),
            None => uints_at(buf@, pos as int, width as nat) is None,
        },
{
    match read_uint(buf, pos, 4) {
        None => None,
        Some(len) => {
            proof {
                lemma_le_value_bound(buf@.subrange(pos as int, pos + 4));
                lemma_pow256_table();
            }
            let room: u64 = (buf.len() - pos - 4) as u64;
            if len > room / (width as u64) {
                assert(len * width > room) by (nonlinear_arith)
                    requires
                        len > room / (width as u64),
                        width >= 1,
                ;
                return None;
            }
            assert(len * width <= room) by (nonlinear_arith)
                requires
                    len <= room / (width as u64),
                    width >= 1,
            ;
            let count: usize = len as usize;
            let start: usize = pos + 4;
            let mut out: Vec<u64> = Vec::new();
            let mut i: usize = 0;
            let mut at: usize = start;
            while i < count
                invariant
                    1 <= width <= 8,
                    i <= count,
                    start == pos + 4,
                    start + count * width <= buf@.len() <= usize::MAX,
                    at as int == start + i * width,
                    out@.len() == i,
                    forall|j: int|
                        0 <= j < i ==> out@[j] as nat == le_value(
                            #[trigger] buf@.subrange(start + j * width, start + j * width + width),
                        ),
                    forall|j: int| 0 <= j < i ==> out@[j] < pow256(width as nat),
                decreases count - i,
            {
                assert(i * width + width <= count * width && (i + 1) * width == i * width + width)
                    by (nonlinear_arith)
                    requires
                        i < count,
                        width >= 1,
                ;
                let v = read_uint(buf, at, width);
                proof {
                    lemma_le_value_bound(buf@.subrange(at as int, at + width));
                }
                out.push(v.unwrap());
                i += 1;
                at += width;
            }
            assert(Seq::new(out@.len(), |i: int| out@[i] as nat) =~= Seq::new(
                len as nat,
                |i: int|
                    le_value(buf@.subrange(pos + 4 + i * width, pos + 4 + i * width + width)),
            ));
            Some(out)
        },
    }
}

/// Finds the field in slot `slot` of the table at `table`.
pub fn find_slot(buf: &[u8], table: usize, slot: u16) -> (found: Option<usize>)
    ensures
        match found {
            Some(p) => slot_position(buf@, table as int, slot as nat) == Some(p as int) && p
                <= buf@.len(),
            None => slot_position(buf@, table as int, slot as nat) is None,
        },
{
    let back = match read_uint(buf, table, 4) {
        None => {
            return None;
        },
        Some(raw) => raw,
    };
    proof {
        lemma_le_value_bound(buf@.subrange(table as int, table + 4));
        lemma_pow256_table();
    }
    let vtable: usize = if back < 0x8000_0000 {
        if back > table as u64 {
            return None;
        }
        table - back as usize
    } else {
        let forward: u64 = 0x1_0000_0000 - back;
        if forward > (buf.len() - table) as u64 {
            return None;
        }
        table + forward as usize
    };
    let vtable_len = match read_uint(buf, vtable, 2) {
        None => {
            return None;
        },
        Some(n) => n,
    };
    proof {
        lemma_le_value_bound(buf@.subrange(vtable as int, vtable + 2));
    }
    if slot as u64 + 2 > vtable_len {
        return None;
    }
    if slot as usize > buf.len() - vtable {
        return None;
    }
    let at: usize = vtable + slot as usize;
    match read_uint(buf, at, 2) {
        None => None,
        Some(distance) => {
            proof {
                lemma_le_value_bound(buf@.subrange(at as int, at + 2));
            }
            if distance == 0 || distance > (buf.len() - table) as u64 {
                None
            } else {
                Some(table + distance as usize)
            }
        },
    }
}

/// Finds the root table of a buffer.
pub fn find_root(buf: &[u8]) -> (found: Option<usize>)
    ensures
        match found {
            Some(t) => root_position(buf@) == Some(t as int) && t <= buf@.len(),
            None => root_position(buf@) is None,
        },
{
    read_target(buf, 0)
}

/// Whether `later` is `earlier` with bytes put in front.
pub open spec fn extends(later: Seq<u8>, earlier: Seq<u8>) -> bool {
    later.len() >= earlier.len() && later.subrange(
        later.len() - earlier.len(),
        later.len() as int,
    ) == earlier
}

/// Putting bytes in front extends.
pub proof fn lemma_front_extends(front: Seq<u8>, earlier: Seq<u8>)
    ensures
        extends(front + earlier, earlier),
{
    let later = front + earlier;
    assert(later.subrange(later.len() - earlier.len(), later.len() as int) =~= earlier);
}

/// Every buffer extends itself.
pub proof fn lemma_extends_refl(a: Seq<u8>)
    ensures
        extends(a, a),
{
    assert(a.subrange(0, a.len() as int) =~= a);
}

/// Extending is transitive.
pub proof fn lemma_extends_trans(a: Seq<u8>, b: Seq<u8>, c: Seq<u8>)
    requires
        extends(a, b),
        extends(b, c),
    ensures
        extends(a, c),
{
    let ab = a.len() - b.len();
    let bc = b.len() - c.len();
    assert(a.subrange(a.len() - c.len(), a.len() as int) =~= a.subrange(
        ab,
        a.len() as int,
    ).subrange(bc, b.len() as int));
}

/// A range of the earlier buffer lies, shifted, in the later one.
pub proof fn lemma_extends_range(later: Seq<u8>, earlier: Seq<u8>, from: int, to: int)
    requires
        extends(later, earlier),
        0 <= from <= to <= earlier.len(),
    ensures
        later.subrange(later.len() - earlier.len() + from, later.len() - earlier.len() + to)
            == earlier.subrange(from, to),
{
    let d = later.len() - earlier.len();
    assert(later.subrange(d + from, d + to) =~= later.subrange(d, later.len() as int).subrange(
        from,
        to,
    ));
}

/// What is read forward from a position does not depend on the bytes in
/// front of it.
pub proof fn lemma_uint_shift(later: Seq<u8>, earlier: Seq<u8>, pos: int, width: nat)
    requires
        extends(later, earlier),
        0 <= pos,
    ensures
        uint_at(later, later.len() - earlier.len() + pos, width) == uint_at(earlier, pos, width),
{
    if pos + width <= earlier.len() {
        lemma_extends_range(later, earlier, pos, pos + width);
    }
}

/// See [`lemma_uint_shift`].
pub proof fn lemma_target_shift(later: Seq<u8>, earlier: Seq<u8>, pos: int)
    requires
        extends(later, earlier),
        0 <= pos,
    ensures
        target_at(later, later.len() - earlier.len() + pos) == match target_at(earlier, pos) {
            Some(t) => Some(later.len() - earlier.len() + t),
            None => None,
        },
{
    lemma_uint_shift(later, earlier, pos, 4);
}

/// See [`lemma_uint_shift`].
pub proof fn lemma_bytes_shift(later: Seq<u8>, earlier: Seq<u8>, pos: int)
    requires
        extends(later, earlier),
        0 <= pos,
    ensures
        bytes_at(later, later.len() - earlier.len() + pos) == bytes_at(earlier, pos),
{
    lemma_uint_shift(later, earlier, pos, 4);
    match uint_at(earlier, pos, 4) {
        Some(len) => {
            if pos + 4 + len <= earlier.len() {
                lemma_extends_range(later, earlier, pos + 4, pos + 4 + len);
            }
        },
        None => {},
    }
}

/// See [`lemma_uint_shift`].
pub proof fn lemma_uints_shift(later: Seq<u8>, earlier: Seq<u8>, pos: int, width: nat)
    requires
        extends(later, earlier),
        0 <= pos,
        width >= 1,
    ensures
        uints_at(later, later.len() - earlier.len() + pos, width) == uints_at(earlier, pos, width),
{
    let d = later.len() - earlier.len();
    lemma_uint_shift(later, earlier, pos, 4);
    match uint_at(earlier, pos, 4) {
        Some(len) => {
            if pos + 4 + len * width <= earlier.len() {
                let a = uints_at(later, d + pos, width).unwrap();
                let b = uints_at(earlier, pos, width).unwrap();
                assert forall|i: int| 0 <= i < len implies a[i] == b[i] by {
                    assert(0 <= i * width && i * width + width <= len * width)
                        by (nonlinear_arith)
                        requires
                            0 <= i < len,
                            width >= 1,
                    ;
                    lemma_extends_range(
                        later,
                        earlier,
                        pos + 4 + i * width,
                        pos + 4 + i * width + width,
                    );
                }
                assert(a =~= b);
            }
        },
        None => {},
    }
}

/// A table reads the same with bytes in front, as long as its vtable lies
/// in the earlier buffer.
pub proof fn lemma_slot_shift(later: Seq<u8>, earlier: Seq<u8>, table: int, slot: nat)
    requires
        extends(later, earlier),
        0 <= table,
        uint_at(earlier, table, 4) matches Some(back) && table - signed_of(back, 4) >= 0,
    ensures
        slot_position(later, later.len() - earlier.len() + table, slot) == match slot_position(
            earlier,
            table,
            slot,
        ) {
            Some(p) => Some(later.len() - earlier.len() + p),
            None => None,
        },
{
    lemma_uint_shift(later, earlier, table, 4);
    let back = uint_at(earlier, table, 4).unwrap();
    let vtable = table - signed_of(back, 4);
    lemma_uint_shift(later, earlier, vtable, 2);
    lemma_uint_shift(later, earlier, vtable + slot, 2);
}

} // verus!
