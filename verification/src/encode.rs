//! Writing the values of a record into a buffer.
//!
//! Encoding has two phases. First every text and sequence that is present
//! is written, in declaration order, and its handle kept. Then the table is
//! opened and the fields are committed in commit order: a scalar in place,
//! a text or a sequence as a reference to what the first phase wrote.

use crate::builder::{as_nats, handle_nats, TableBuilder};
use crate::image::{Image, MAX_BUFFER_SIZE, MAX_TABLE_SIZE};
use crate::kind::{ElementKind, Kind};
use crate::plan::{slot_of, Plan};
use crate::value::{items_view, values_view, Item, ItemView, Scalar, Value, ValueView};
use vstd::prelude::*;
use vstd::utf8::encode_utf8;

verus! {

/// Why no buffer was made.
#[derive(Debug, PartialEq, Eq)]
pub enum EncodeError {
    /// The values are not those of the plan's record: their number differs
    /// from the number of fields, or one is not of its field's kind.
    Mismatch,
    /// The buffer would be longer than [`MAX_BUFFER_SIZE`], or the table
    /// longer than [`MAX_TABLE_SIZE`].
    TooLarge,
}

/// Whether `values` are the values of a record with fields of the given
/// kinds.
pub open spec fn conform(kinds: Seq<Kind>, values: Seq<ValueView>) -> bool {
    &&& values.len() == kinds.len()
    &&& forall|i: int| 0 <= i < kinds.len() ==> (#[trigger] values[i]).conforms(kinds[i])
}

/// The image, if it is no longer than a buffer may be.
pub open spec fn fits(st: Image) -> Option<Image> {
    if st.used() <= MAX_BUFFER_SIZE {
        Some(st)
    } else {
        None
    }
}

/// The raw forms of a list of scalars.
pub open spec fn raws_of(items: Seq<ItemView>) -> Seq<nat> {
    Seq::new(
        items.len(),
        |i: int|
            match items[i] {
                ItemView::Scalar(s) => s.raw(),
                ItemView::Text(_) => 0,
            },
    )
}

/// The UTF-8 bytes of a text.
pub open spec fn text_bytes(item: ItemView) -> Seq<u8> {
    match item {
        ItemView::Text(t) => encode_utf8(t),
        ItemView::Scalar(_) => Seq::empty(),
    }
}

/// Writes the texts of `items` from the `i`-th on, each as a byte string,
/// and adds their handles to `handles`.
pub open spec fn create_texts(st: Image, items: Seq<ItemView>, i: nat, handles: Seq<nat>) -> Option<
    (Image, Seq<nat>),
>
    decreases items.len() - i,
{
    if i >= items.len() {
        Some((st, handles))
    } else {
        match fits(st.create_bytes(text_bytes(items[i as int]))) {
            None => None,
            Some(next) => create_texts(next, items, i + 1, handles.push(next.used())),
        }
    }
}

/// The first phase for one field: writes the object of a text or a
/// sequence and gives its handle. A scalar and an optional without a value
/// write nothing.
#[verifier::opaque]
pub open spec fn indirect(st: Image, k: Kind, v: ValueView) -> Option<(Image, Option<nat>)> {
    match (k, v) {
        (Kind::Text, ValueView::Single(item)) => match fits(st.create_bytes(text_bytes(item))) {
            Some(next) => Some((next, Some(next.used()))),
            None => None,
        },
        (Kind::Optional(ElementKind::Text), ValueView::Optional(Some(item))) => match fits(
            st.create_bytes(text_bytes(item)),
        ) {
            Some(next) => Some((next, Some(next.used()))),
            None => None,
        },
        (Kind::Sequence(ElementKind::Scalar(t)), ValueView::Sequence(items)) => match fits(
            st.create_uints(raws_of(items), t.width()),
        ) {
            Some(next) => Some((next, Some(next.used()))),
            None => None,
        },
        (Kind::Sequence(ElementKind::Text), ValueView::Sequence(items)) => match create_texts(
            st,
            items,
            0,
            Seq::empty(),
        ) {
            Some((mid, handles)) => match fits(mid.create_targets(handles)) {
                Some(next) => Some((next, Some(next.used()))),
                None => None,
            },
            None => None,
        },
        _ => Some((st, None)),
    }
}

/// The first phase for the fields from the `i`-th on, in declaration order.
pub open spec fn indirect_all(
    st: Image,
    kinds: Seq<Kind>,
    values: Seq<ValueView>,
    i: nat,
    handles: Seq<Option<nat>>,
) -> Option<(Image, Seq<Option<nat>>)>
    decreases kinds.len() - i,
{
    if i >= kinds.len() {
        Some((st, handles))
    } else {
        match indirect(st, kinds[i as int], values[i as int]) {
            None => None,
            Some((next, handle)) => indirect_all(next, kinds, values, i + 1, handles.push(handle)),
        }
    }
}

/// Whether a field of kind `k` with the value `v` gets a slot. A required
/// scalar gets none when it equals its default, an optional when it has no
/// value. A required text or sequence always gets one, also when empty.
pub open spec fn is_written(k: Kind, v: ValueView) -> bool {
    match (k, v) {
        (Kind::Scalar(_), ValueView::Single(ItemView::Scalar(s))) => !s.is_default(),
        (Kind::Optional(_), ValueView::Optional(held)) => held is Some,
        (Kind::Text, _) => true,
        (Kind::Sequence(_), _) => true,
        _ => false,
    }
}

/// The second phase for one field: commits its value to its slot, if it
/// gets one.
#[verifier::opaque]
pub open spec fn commit(st: Image, slot: u16, k: Kind, v: ValueView, handle: Option<nat>) -> Option<
    Image,
> {
    match (k, v) {
        (Kind::Scalar(t), ValueView::Single(ItemView::Scalar(s))) => if s.is_default() {
            Some(st)
        } else {
            fits(st.push_slot_uint(slot, s.raw(), t.width()))
        },
        (
            Kind::Optional(ElementKind::Scalar(t)),
            ValueView::Optional(Some(ItemView::Scalar(s))),
        ) => fits(st.push_slot_uint(slot, s.raw(), t.width())),
        _ => match handle {
            Some(h) => fits(st.push_slot_target(slot, h)),
            None => Some(st),
        },
    }
}

/// The second phase for the fields from the `j`-th of the commit order on.
pub open spec fn commit_all(
    st: Image,
    kinds: Seq<Kind>,
    values: Seq<ValueView>,
    handles: Seq<Option<nat>>,
    order: Seq<usize>,
    j: nat,
) -> Option<Image>
    decreases order.len() - j,
{
    if j >= order.len() {
        Some(st)
    } else {
        let f = order[j as int] as int;
        match commit(st, slot_of(f as nat) as u16, kinds[f], values[f], handles[f]) {
            None => None,
            Some(next) => commit_all(next, kinds, values, handles, order, j + 1),
        }
    }
}

/// Closes the table and finishes the buffer with the table as its root.
#[verifier::opaque]
pub open spec fn closed(st: Image) -> Option<Seq<u8>> {
    if st.table_handle() - st.table_start > MAX_TABLE_SIZE {
        None
    } else {
        match fits(st.end_table()) {
            None => None,
            Some(ended) => match fits(ended.finish(st.table_handle())) {
                None => None,
                Some(done) => Some(done.data),
            },
        }
    }
}

/// The buffer that encoding makes of the values of a record, or `None`
/// where a step would pass the limits of a buffer.
pub open spec fn encoded(kinds: Seq<Kind>, values: Seq<ValueView>, order: Seq<usize>) -> Option<
    Seq<u8>,
> {
    match indirect_all(Image::empty(), kinds, values, 0, Seq::empty()) {
        None => None,
        Some((written, handles)) => match commit_all(
            written.start_table(),
            kinds,
            values,
            handles,
            order,
            0,
        ) {
            None => None,
            Some(committed) => closed(committed),
        },
    }
}

/// The handles of the first phase, as the model counts them.
pub open spec fn handles_view(handles: Seq<Option<u32>>) -> Seq<Option<nat>> {
    Seq::new(
        handles.len(),
        |i: int|
            match handles[i] {
                Some(h) => Some(h as nat),
                None => None,
            },
    )
}

/// Whether an item is of the element kind `e`.
pub fn item_conforms(item: &Item, e: ElementKind) -> (ok: bool)
    ensures
        ok == item@.conforms(e),
{
    match item {
        Item::Scalar(s) => match e {
            ElementKind::Scalar(t) => s.kind() == t,
            ElementKind::Text => false,
        },
        Item::Text(_) => match e {
            ElementKind::Scalar(_) => false,
            ElementKind::Text => true,
        },
    }
}

/// Whether a value is one that a field of kind `k` can have.
pub fn value_conforms(v: &Value, k: Kind) -> (ok: bool)
    ensures
        ok == v@.conforms(k),
{
    match k {
        Kind::Scalar(t) => match v {
            Value::Single(item) => item_conforms(item, ElementKind::Scalar(t)),
            _ => false,
        },
        Kind::Text => match v {
            Value::Single(item) => item_conforms(item, ElementKind::Text),
            _ => false,
        },
        Kind::Optional(e) => match v {
            Value::Optional(None) => true,
            Value::Optional(Some(item)) => item_conforms(item, e),
            _ => false,
        },
        Kind::Sequence(e) => match v {
            Value::Sequence(items) => {
                let mut i: usize = 0;
                while i < items.len()
                    invariant
                        i <= items@.len(),
                        k == Kind::Sequence(e),
                        v@ == ValueView::Sequence(items_view(items@)),
                        forall|j: int|
                            0 <= j < i ==> (#[trigger] items_view(items@)[j]).conforms(e),
                    decreases items@.len() - i,
                {
                    if !item_conforms(&items[i], e) {
                        proof {
                            let views = items_view(items@);
                            assert(views.len() == items@.len());
                            assert(!views[i as int].conforms(e));
                            assert(!v@.conforms(k));
                        }
                        return false;
                    }
                    i += 1;
                }
                true
            },
            _ => false,
        },
    }
}

/// Whether the values are those of the plan's record.
pub fn values_conform(plan: &Plan, values: &Vec<Value>) -> (ok: bool)
    ensures
        ok == conform(plan.kinds(), values_view(values@)),
{
    if values.len() != plan.fields.len() {
        return false;
    }
    let mut i: usize = 0;
    while i < values.len()
        invariant
            i <= values@.len(),
            values@.len() == plan.fields@.len(),
            forall|j: int|
                0 <= j < i ==> (#[trigger] values_view(values@)[j]).conforms(plan.kinds()[j]),
        decreases values@.len() - i,
    {
        if !value_conforms(&values[i], plan.fields[i].kind) {
            assert(!values_view(values@)[i as int].conforms(plan.kinds()[i as int]));
            return false;
        }
        i += 1;
    }
    true
}

/// Computes [`raws_of`].
pub fn item_raws(items: &Vec<Item>) -> (raws: Vec<u64>)
    ensures
        as_nats(raws@) == raws_of(items_view(items@)),
{
    let mut raws: Vec<u64> = Vec::new();
    let mut i: usize = 0;
    while i < items.len()
        invariant
            i <= items@.len(),
            raws@.len() == i,
            forall|j: int| 0 <= j < i ==> raws@[j] as nat == raws_of(items_view(items@))[j],
        decreases items@.len() - i,
    {
        let raw = match &items[i] {
            Item::Scalar(s) => s.to_raw(),
            Item::Text(_) => 0,
        };
        raws.push(raw);
        i += 1;
    }
    assert(as_nats(raws@) =~= raws_of(items_view(items@)));
    raws
}

/// Writes `items`, which are texts, each as a byte string, and returns
/// their handles; `None` where the buffer would grow too long.
pub fn write_texts(b: &mut TableBuilder, items: &Vec<Item>) -> (handles: Option<Vec<u32>>)
    requires
        old(b).wf(),
        crate::value::all_conform(items_view(items@), ElementKind::Text),
    ensures
        final(b).wf(),
        final(b)@.fields == old(b)@.fields,
        final(b)@.table_start == old(b)@.table_start,
        final(b)@.used() >= old(b)@.used(),
        match handles {
            Some(h) => create_texts(old(b)@, items_view(items@), 0, Seq::empty()) == Some(
                (final(b)@, handle_nats(h@)),
            ) && forall|i: int| 0 <= i < h@.len() ==> h@[i] <= final(b)@.used(),
            None => create_texts(old(b)@, items_view(items@), 0, Seq::empty()) is None,
        },
{
    let ghost views = items_view(items@);
    let mut handles: Vec<u32> = Vec::new();
    let mut i: usize = 0;
    assert(handle_nats(handles@) =~= Seq::<nat>::empty());
    while i < items.len()
        invariant
            i <= items@.len(),
            b.wf(),
            views == items_view(items@),
            crate::value::all_conform(views, ElementKind::Text),
            b@.fields == old(b)@.fields,
            b@.table_start == old(b)@.table_start,
            b@.used() >= old(b)@.used(),
            forall|j: int| 0 <= j < handles@.len() ==> handles@[j] <= b@.used(),
            create_texts(b@, views, i as nat, handle_nats(handles@))
                == create_texts(old(b)@, views, 0, Seq::empty()),
        decreases items@.len() - i,
    {
        let ghost before = handle_nats(handles@);
        proof {
            assert(views[i as int] == items@[i as int]@);
            assert(views[i as int].conforms(ElementKind::Text));
        }
        let made = match &items[i] {
            Item::Text(t) => b.create_bytes(t.as_str().as_bytes()),
            Item::Scalar(_) => None,
        };
        proof {
            b.lemma_wf();
        }
        match made {
            None => {
                return None;
            },
            Some(h) => {
                handles.push(h);
                assert(handle_nats(handles@) =~= before.push(
                    h as nat,
                ));
            },
        }
        i += 1;
    }
    Some(handles)
}

/// The first phase for one field, whose value is of its kind; `None`
/// where the buffer would grow too long.
pub fn indirect_field(b: &mut TableBuilder, k: Kind, v: &Value) -> (made: Option<Option<u32>>)
    requires
        old(b).wf(),
        v@.conforms(k),
    ensures
        final(b).wf(),
        final(b)@.fields == old(b)@.fields,
        final(b)@.table_start == old(b)@.table_start,
        final(b)@.used() >= old(b)@.used(),
        match made {
            Some(handle) => indirect(old(b)@, k, v@) == Some(
                (
                    final(b)@,
                    match handle {
                        Some(h) => Some(h as nat),
                        None => None,
                    },
                ),
            ) && (handle matches Some(h) ==> h <= final(b)@.used()),
            None => indirect(old(b)@, k, v@) is None,
        },
{
    proof {
        reveal(indirect);
    }
    let made = match (k, v) {
        (Kind::Text, Value::Single(Item::Text(t))) => {
            match b.create_bytes(t.as_str().as_bytes()) {
                Some(h) => Some(Some(h)),
                None => None,
            }
        },
        (Kind::Optional(ElementKind::Text), Value::Optional(Some(Item::Text(t)))) => {
            match b.create_bytes(t.as_str().as_bytes()) {
                Some(h) => Some(Some(h)),
                None => None,
            }
        },
        (Kind::Sequence(ElementKind::Scalar(t)), Value::Sequence(items)) => {
            let raws = item_raws(items);
            match b.create_uints(&raws, t.byte_width()) {
                Some(h) => Some(Some(h)),
                None => None,
            }
        },
        (Kind::Sequence(ElementKind::Text), Value::Sequence(items)) => {
            match write_texts(b, items) {
                None => None,
                Some(handles) => match b.create_targets(&handles) {
                    Some(h) => Some(Some(h)),
                    None => None,
                },
            }
        },
        _ => Some(None),
    };
    proof {
        b.lemma_wf();
    }
    made
}

/// The second phase for one field; `false` where the buffer would grow too
/// long.
pub fn commit_field(b: &mut TableBuilder, slot: u16, k: Kind, v: &Value, handle: Option<u32>) -> (ok:
    bool)
    requires
        old(b).wf(),
        old(b)@.table_ok(),
        4 <= slot <= 0xFFFC,
        slot % 2 == 0,
        handle matches Some(h) ==> h <= old(b)@.used(),
    ensures
        final(b).wf(),
        final(b)@.table_ok(),
        final(b)@.used() >= old(b)@.used(),
        match commit(
            old(b)@,
            slot,
            k,
            v@,
            match handle {
                Some(h) => Some(h as nat),
                None => None,
            },
        ) {
            Some(next) => ok && final(b)@ == next,
            None => !ok,
        },
{
    proof {
        reveal(commit);
        b.lemma_wf();
    }
    match (k, v) {
        (Kind::Scalar(t), Value::Single(Item::Scalar(s))) => {
            if s.equals_default() {
                true
            } else {
                b.push_slot_uint(slot, s.to_raw(), t.byte_width())
            }
        },
        (Kind::Optional(ElementKind::Scalar(t)), Value::Optional(Some(Item::Scalar(s)))) => {
            b.push_slot_uint(slot, s.to_raw(), t.byte_width())
        },
        _ => match handle {
            Some(h) => b.push_slot_target(slot, h),
            None => true,
        },
    }
}

/// Encodes the values of a record into a buffer of its own.
///
/// The values must be those of the plan's record, in declaration order.
/// The result is the buffer that [`encoded`] describes.
pub fn encode(plan: &Plan, values: &Vec<Value>) -> (made: Result<Vec<u8>, EncodeError>)
    requires
        plan.wf(),
    ensures
        match made {
            Ok(bytes) => conform(plan.kinds(), values_view(values@)) && encoded(
                plan.kinds(),
                values_view(values@),
                plan.commit_order@,
            ) == Some(bytes@),
            Err(EncodeError::Mismatch) => !conform(plan.kinds(), values_view(values@)),
            Err(EncodeError::TooLarge) => conform(plan.kinds(), values_view(values@)) && encoded(
                plan.kinds(),
                values_view(values@),
                plan.commit_order@,
            ) is None,
        },
{
    let mut builder = TableBuilder::new();
    match flatten(plan, values, &mut builder) {
        Ok(_) => Ok(builder.finished_data()),
        Err(error) => Err(error),
    }
}

/// Encodes the values of a record with a builder that the caller holds.
///
/// The builder is emptied first, whatever it held. On success it holds the
/// buffer that [`encoded`] describes; on failure what it holds is not
/// specified, and the next call empties it again.
pub fn flatten(plan: &Plan, values: &Vec<Value>, b: &mut TableBuilder) -> (made: Result<
    (),
    EncodeError,
>)
    requires
        plan.wf(),
    ensures
        final(b).wf(),
        match made {
            Ok(_) => conform(plan.kinds(), values_view(values@)) && encoded(
                plan.kinds(),
                values_view(values@),
                plan.commit_order@,
            ) == Some(final(b)@.data),
            Err(EncodeError::Mismatch) => !conform(plan.kinds(), values_view(values@)),
            Err(EncodeError::TooLarge) => conform(plan.kinds(), values_view(values@)) && encoded(
                plan.kinds(),
                values_view(values@),
                plan.commit_order@,
            ) is None,
        },
{
    b.reset();
    if !values_conform(plan, values) {
        return Err(EncodeError::Mismatch);
    }
    let ghost kinds = plan.kinds();
    let ghost views = values_view(values@);
    let ghost order = plan.commit_order@;
    let n = plan.fields.len();
    let mut handles: Vec<Option<u32>> = Vec::new();
    let mut i: usize = 0;
    assert(handles_view(handles@) =~= Seq::<Option<nat>>::empty());
    while i < n
        invariant
            i <= n,
            n == plan.fields@.len(),
            n == values@.len(),
            plan.wf(),
            kinds == plan.kinds(),
            views == values_view(values@),
            conform(kinds, views),
            b.wf(),
            handles@.len() == i,
            forall|j: int|
                0 <= j < i ==> ((#[trigger] handles@[j]) matches Some(h) ==> h <= b@.used()),
            indirect_all(b@, kinds, views, i as nat, handles_view(handles@)) == indirect_all(
                Image::empty(),
                kinds,
                views,
                0,
                Seq::empty(),
            ),
        decreases n - i,
    {
        let ghost before = handles_view(handles@);
        proof {
            assert(kinds[i as int] == plan.fields@[i as int].kind);
            assert(views[i as int] == values@[i as int]@);
            assert(views[i as int].conforms(kinds[i as int]));
        }
        let ghost st = b@;
        match indirect_field(b, plan.fields[i].kind, &values[i]) {
            None => {
                assert(indirect_all(st, kinds, views, i as nat, before) is None);
                return Err(EncodeError::TooLarge);
            },
            Some(handle) => {
                handles.push(handle);
                assert(handles_view(handles@) =~= before.push(
                    match handle {
                        Some(h) => Some(h as nat),
                        None => None,
                    },
                ));
            },
        }
        i += 1;
    }
    let ghost written = b@;
    let ghost hv = handles_view(handles@);
    assert(indirect_all(Image::empty(), kinds, views, 0, Seq::empty()) == Some((written, hv)));
    b.start_table();
    let mut j: usize = 0;
    proof {
        b.lemma_wf();
    }
    while j < n
        invariant
            j <= n,
            n == plan.fields@.len(),
            n == values@.len(),
            plan.wf(),
            kinds == plan.kinds(),
            views == values_view(values@),
            conform(kinds, views),
            order == plan.commit_order@,
            indirect_all(Image::empty(), kinds, views, 0, Seq::empty()) == Some((written, hv)),
            b.wf(),
            b@.table_ok(),
            handles@.len() == n,
            hv == handles_view(handles@),
            order.len() == n,
            forall|f: int|
                0 <= f < n ==> ((#[trigger] handles@[f]) matches Some(h) ==> h <= b@.used()),
            commit_all(b@, kinds, views, handles_view(handles@), order, j as nat) == commit_all(
                written.start_table(),
                kinds,
                views,
                handles_view(handles@),
                order,
                0,
            ),
        decreases n - j,
    {
        let f = plan.commit_order[j];
        let field = &plan.fields[f];
        proof {
            assert(order[j as int] < kinds.len());
            assert(kinds[f as int] == plan.fields@[f as int].kind);
            assert(views[f as int] == values@[f as int]@);
            assert(field.slot == slot_of(f as nat));
        }
        let ghost st = b@;
        proof {
            assert(hv[f as int] == match handles@[f as int] {
                Some(h) => Some(h as nat),
                None => None,
            });
        }
        if !commit_field(b, field.slot, field.kind, &values[f], handles[f]) {
            assert(commit_all(st, kinds, views, hv, order, j as nat) is None);
            return Err(EncodeError::TooLarge);
        }
        j += 1;
    }
    let ghost committed = b@;
    proof {
        reveal(closed);
        b.lemma_wf();
        assert(commit_all(written.start_table(), kinds, views, hv, order, 0) == Some(committed));
    }
    let table = match b.end_table() {
        None => {
            return Err(EncodeError::TooLarge);
        },
        Some(table) => table,
    };
    proof {
        b.lemma_wf();
    }
    if !b.finish(table) {
        return Err(EncodeError::TooLarge);
    }
    proof {
        b.lemma_wf();
    }
    Ok(())
}

} // verus!
