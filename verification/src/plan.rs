//! The plan of a record: the slot of each field and the order in which the
//! fields are committed to the table.

use crate::kind::{classify, ElementKind, Kind};
use vstd::prelude::*;
use vstd::string::StringExecFns;

verus! {

/// The most fields a record can have: the slot of the last must fit, with
/// the two bytes of its vtable entry, into a vtable of at most `0xFFFE`
/// bytes.
pub const MAX_FIELDS: usize = 32765;

/// The slot of the field declared at position `index`: slots 0 and 2 of a
/// vtable hold its two lengths, and every slot is two bytes wide.
pub open spec fn slot_of(index: nat) -> nat {
    4 + 2 * index
}

/// Computes [`slot_of`].
pub fn slot_at(index: usize) -> (slot: u16)
    requires
        index < MAX_FIELDS,
    ensures
        slot == slot_of(index as nat),
        4 <= slot <= 0xFFFC,
        slot % 2 == 0,
{
    (4 + 2 * index) as u16
}

impl Kind {
    /// The place of a kind in the commit order; lower commits first. Wide
    /// scalars come before sequences and texts, and those before the
    /// narrower scalars, widest first. An optional has the priority of what
    /// it holds.
    pub open spec fn priority(self) -> nat {
        match self {
            Kind::Sequence(_) => 2,
            Kind::Text | Kind::Optional(ElementKind::Text) => 4,
            Kind::Scalar(t) | Kind::Optional(ElementKind::Scalar(t)) => if t.width() == 8 {
                1
            } else if t.width() == 4 {
                5
            } else if t.width() == 2 {
                6
            } else {
                7
            },
        }
    }

    /// Computes [`Kind::priority`].
    pub fn sorting_priority(self) -> (p: usize)
        ensures
            p == self.priority(),
            1 <= p <= 7,
    {
        match self {
            Kind::Sequence(_) => 2,
            Kind::Text | Kind::Optional(ElementKind::Text) => 4,
            Kind::Scalar(t) | Kind::Optional(ElementKind::Scalar(t)) => {
                let w = t.byte_width();
                if w == 8 {
                    1
                } else if w == 4 {
                    5
                } else if w == 2 {
                    6
                } else {
                    7
                }
            },
        }
    }
}

/// Whether the field at `a` commits before the field at `b`: by priority,
/// and among equal priorities in declaration order.
pub open spec fn commits_before(kinds: Seq<Kind>, a: int, b: int) -> bool {
    kinds[a].priority() < kinds[b].priority() || (kinds[a].priority() == kinds[b].priority() && a
        < b)
}

/// Whether `order` is the commit order of fields of the given kinds: it
/// lists every field once, each before all that commit after it. There is
/// one such order: the stable sort of the declaration order by priority.
pub open spec fn is_commit_order(kinds: Seq<Kind>, order: Seq<usize>) -> bool {
    &&& order.len() == kinds.len()
    &&& forall|j: int| 0 <= j < order.len() ==> (#[trigger] order[j]) < kinds.len()
    &&& forall|f: usize| f < kinds.len() ==> order.contains(f)
    &&& forall|a: int, b: int|
        0 <= a < b < order.len() ==> commits_before(
            kinds,
            #[trigger] order[a] as int,
            #[trigger] order[b] as int,
        )
}

/// Whether `order` lists, each before all that commit after it, exactly the
/// fields of a priority below `p` and those of priority `p` declared before
/// `i`.
pub open spec fn is_partial_order(kinds: Seq<Kind>, order: Seq<usize>, p: nat, i: nat) -> bool {
    &&& forall|j: int|
        0 <= j < order.len() ==> (#[trigger] order[j]) < kinds.len() && (kinds[order[j] as int].priority()
            < p || (kinds[order[j] as int].priority() == p && order[j] < i))
    &&& forall|f: usize|
        f < kinds.len() && (kinds[f as int].priority() < p || (kinds[f as int].priority() == p && f
            < i)) ==> order.contains(f)
    &&& forall|a: int, b: int|
        0 <= a < b < order.len() ==> commits_before(
            kinds,
            #[trigger] order[a] as int,
            #[trigger] order[b] as int,
        )
}

/// The commit order of fields of the given kinds.
pub fn commit_order(kinds: &Vec<Kind>) -> (order: Vec<usize>)
    ensures
        is_commit_order(kinds@, order@),
{
    let n = kinds.len();
    let mut order: Vec<usize> = Vec::new();
    let mut p: usize = 1;
    while p <= 7
        invariant
            1 <= p <= 8,
            n == kinds@.len(),
            is_partial_order(kinds@, order@, p as nat, 0),
            order@.no_duplicates(),
        decreases 8 - p,
    {
        let mut i: usize = 0;
        while i < n
            invariant
                1 <= p <= 7,
                i <= n,
                n == kinds@.len(),
                is_partial_order(kinds@, order@, p as nat, i as nat),
                order@.no_duplicates(),
            decreases n - i,
        {
            if kinds[i].sorting_priority() == p {
                let ghost before = order@;
                order.push(i);
                proof {
                    assert forall|f: usize|
                        f < kinds@.len() && (kinds@[f as int].priority() < p || (kinds@[f as int].priority()
                            == p && f < i + 1)) implies order@.contains(f) by {
                        if f == i {
                            assert(order@[before.len() as int] == i);
                        } else {
                            assert(before.contains(f));
                            let j = choose|j: int| 0 <= j < before.len() && before[j] == f;
                            assert(order@[j] == f);
                        }
                    }
                    assert forall|a: int, b: int| 0 <= a < b < order@.len() implies commits_before(
                        kinds@,
                        #[trigger] order@[a] as int,
                        #[trigger] order@[b] as int,
                    ) by {
                        if b < before.len() {
                            assert(order@[a] == before[a] && order@[b] == before[b]);
                        } else {
                            assert(order@[a] == before[a]);
                        }
                    }
                    assert(!before.contains(i)) by {
                        if before.contains(i) {
                            let j = choose|j: int| 0 <= j < before.len() && before[j] == i;
                            assert(before[j] < i);
                        }
                    }
                }
            }
            i += 1;
        }
        p += 1;
    }
    proof {
        assert forall|f: usize| f < kinds@.len() implies order@.contains(f) by {
            assert(kinds@[f as int].priority() < 8);
        }
        lemma_complete_order_len(kinds@.len(), order@);
    }
    order
}

/// A list without repetition that holds every number below `n`, and no
/// other, has `n` entries.
pub proof fn lemma_complete_order_len(n: nat, order: Seq<usize>)
    requires
        n <= usize::MAX,
        order.no_duplicates(),
        forall|j: int| 0 <= j < order.len() ==> (#[trigger] order[j]) < n,
        forall|f: usize| f < n ==> order.contains(f),
    ensures
        order.len() == n,
{
    let below = Set::new(|v: usize| v < n);
    assert(order.to_set() =~= below) by {
        assert forall|v: usize| order.to_set().contains(v) <==> below.contains(v) by {
            if order.to_set().contains(v) {
                assert(order.contains(v));
            }
            if below.contains(v) {
                assert(order.contains(v));
            }
        }
    }
    order.unique_seq_to_set();
    lemma_below_len(n);
}

/// There are `n` numbers of type `usize` below `n`.
pub proof fn lemma_below_len(n: nat)
    requires
        n <= usize::MAX + 1,
    ensures
        Set::new(|v: usize| v < n).finite(),
        Set::new(|v: usize| v < n).len() == n,
    decreases n,
{
    let below = Set::new(|v: usize| v < n);
    if n == 0 {
        assert(below =~= Set::empty());
    } else {
        let lower = Set::new(|v: usize| v < n - 1);
        lemma_below_len((n - 1) as nat);
        assert(below =~= lower.insert((n - 1) as usize));
    }
}

/// One field as a record declares it: its name and its flattened type
/// text.
pub struct FieldDecl {
    pub name: String,
    pub type_text: String,
}

/// Why no plan was made.
#[derive(Debug)]
pub enum PlanError {
    /// The type text of a field names no kind.
    UnsupportedType { field: String, type_text: String },
    /// The record has more than [`MAX_FIELDS`] fields.
    TooManyFields,
}

/// A classified field with its place in the table.
#[derive(Debug)]
pub struct Field {
    pub name: String,
    pub kind: Kind,
    /// The position of the field in its record's declaration.
    pub declaration_index: usize,
    /// The slot of the field: `4 + 2 * declaration_index`.
    pub slot: u16,
    /// The priority of the field in the commit order.
    pub priority: usize,
}

/// The plan of a record: its fields in declaration order, and the order in
/// which an encoder commits them.
#[derive(Debug)]
pub struct Plan {
    pub name: String,
    pub fields: Vec<Field>,
    pub commit_order: Vec<usize>,
}

/// Whether some kind has the type text `text`.
pub open spec fn is_supported(text: Seq<char>) -> bool {
    exists|k: Kind| text == k.type_text()
}

impl Plan {
    /// The kinds of the fields, in declaration order.
    pub open spec fn kinds(&self) -> Seq<Kind> {
        Seq::new(self.fields@.len(), |i: int| self.fields@[i].kind)
    }

    /// A plan is well formed when each field holds the slot and the
    /// priority that its position and kind give it, and the commit order is
    /// the one of its kinds.
    pub open spec fn wf(&self) -> bool {
        &&& self.fields@.len() <= MAX_FIELDS
        &&& forall|i: int|
            0 <= i < self.fields@.len() ==> {
                &&& (#[trigger] self.fields@[i]).declaration_index == i
                &&& self.fields@[i].slot == slot_of(i as nat)
                &&& self.fields@[i].priority == self.fields@[i].kind.priority()
            }
        &&& is_commit_order(self.kinds(), self.commit_order@)
    }

    /// Classifies the fields of a record and plans its table.
    ///
    /// A record of more than [`MAX_FIELDS`] fields has no plan. Otherwise
    /// the first field whose type text names no kind fails the whole record,
    /// and is reported by its name and type text.
    pub fn assemble(name: &str, decls: &Vec<FieldDecl>) -> (made: Result<Plan, PlanError>)
        ensures
            match made {
                Ok(plan) => {
                    &&& plan.wf()
                    &&& plan.name@ == name@
                    &&& plan.fields@.len() == decls@.len()
                    &&& forall|i: int|
                        0 <= i < decls@.len() ==> (#[trigger] plan.fields@[i]).name@
                            == decls@[i].name@ && decls@[i].type_text@
                            == plan.fields@[i].kind.type_text()
                },
                Err(PlanError::TooManyFields) => decls@.len() > MAX_FIELDS,
                Err(PlanError::UnsupportedType { field, type_text }) => {
                    &&& decls@.len() <= MAX_FIELDS
                    &&& exists|i: int|
                        {
                            &&& 0 <= i < decls@.len()
                            &&& !is_supported(#[trigger] decls@[i].type_text@)
                            &&& forall|j: int|
                                0 <= j < i ==> is_supported(#[trigger] decls@[j].type_text@)
                            &&& field@ == decls@[i].name@
                            &&& type_text@ == decls@[i].type_text@
                        }
                },
            },
    {
        let n = decls.len();
        if n > MAX_FIELDS {
            return Err(PlanError::TooManyFields);
        }
        let mut fields: Vec<Field> = Vec::new();
        let mut kinds: Vec<Kind> = Vec::new();
        let mut i: usize = 0;
        while i < n
            invariant
                i <= n,
                n == decls@.len(),
                n <= MAX_FIELDS,
                fields@.len() == i,
                kinds@.len() == i,
                forall|j: int|
                    0 <= j < i ==> {
                        &&& (#[trigger] fields@[j]).declaration_index == j
                        &&& fields@[j].slot == slot_of(j as nat)
                        &&& fields@[j].priority == fields@[j].kind.priority()
                        &&& fields@[j].kind == kinds@[j]
                        &&& fields@[j].name@ == decls@[j].name@
                        &&& decls@[j].type_text@ == fields@[j].kind.type_text()
                    },
            decreases n - i,
        {
            let decl = &decls[i];
            match classify(decl.type_text.as_str()) {
                None => {
                    proof {
                        assert forall|j: int| 0 <= j < i implies is_supported(
                            #[trigger] decls@[j].type_text@,
                        ) by {
                            assert(decls@[j].type_text@ == fields@[j].kind.type_text());
                        }
                    }
                    return Err(
                        PlanError::UnsupportedType {
                            field: decl.name.clone(),
                            type_text: decl.type_text.clone(),
                        },
                    );
                },
                Some(kind) => {
                    fields.push(
                        Field {
                            name: decl.name.clone(),
                            kind,
                            declaration_index: i,
                            slot: slot_at(i),
                            priority: kind.sorting_priority(),
                        },
                    );
                    kinds.push(kind);
                },
            }
            i += 1;
        }
        let commit_order = commit_order(&kinds);
        let plan = Plan { name: String::from_str(name), fields, commit_order };
        assert(plan.kinds() =~= kinds@);
        Ok(plan)
    }

    /// The kinds of the fields, in declaration order.
    pub fn field_kinds(&self) -> (kinds: Vec<Kind>)
        ensures
            kinds@ == self.kinds(),
    {
        let mut kinds: Vec<Kind> = Vec::new();
        let mut i: usize = 0;
        while i < self.fields.len()
            invariant
                i <= self.fields@.len(),
                kinds@.len() == i,
                forall|j: int| 0 <= j < i ==> kinds@[j] == self.fields@[j].kind,
            decreases self.fields@.len() - i,
        {
            kinds.push(self.fields[i].kind);
            i += 1;
        }
        assert(kinds@ =~= self.kinds());
        kinds
    }
}

impl PlanError {
    /// What went wrong, in words. For an unsupported type that is `Not
    /// supported: ` and the type text.
    pub fn message(&self) -> (text: String)
        ensures
            match self {
                PlanError::UnsupportedType { field, type_text } => text@ == "Not supported: "@
                    + type_text@,
                PlanError::TooManyFields => text@ == "Too many fields"@,
            },
    {
        match self {
            PlanError::UnsupportedType { field, type_text } => String::from_str(
                "Not supported: ",
            ).concat(type_text.as_str()),
            PlanError::TooManyFields => String::from_str("Too many fields"),
        }
    }
}

/// Where the value of a field lies.
#[derive(Clone, Copy, Debug, PartialEq, Eq, Structural)]
pub enum Storage {
    /// In the table itself: a scalar.
    Inline,
    /// Outside the table, which holds a reference to it: a text or a
    /// sequence.
    Indirect,
}

/// When a field gets no slot.
#[derive(Clone, Copy, Debug, PartialEq, Eq, Structural)]
pub enum Omission {
    /// When the value equals the default of its type: a required scalar.
    WhenDefault,
    /// When there is no value: an optional.
    WhenAbsent,
    /// Never: a required text or sequence.
    Never,
}

impl Kind {
    /// Where the value of a field of this kind lies.
    pub open spec fn storage(self) -> Storage {
        match self {
            Kind::Scalar(_) | Kind::Optional(ElementKind::Scalar(_)) => Storage::Inline,
            _ => Storage::Indirect,
        }
    }

    /// When a field of this kind gets no slot.
    pub open spec fn omission(self) -> Omission {
        match self {
            Kind::Scalar(_) => Omission::WhenDefault,
            Kind::Optional(_) => Omission::WhenAbsent,
            _ => Omission::Never,
        }
    }

    /// Computes [`Kind::storage`].
    pub fn storage_class(self) -> (s: Storage)
        ensures
            s == self.storage(),
    {
        match self {
            Kind::Scalar(_) | Kind::Optional(ElementKind::Scalar(_)) => Storage::Inline,
            _ => Storage::Indirect,
        }
    }

    /// Computes [`Kind::omission`].
    pub fn omission_rule(self) -> (o: Omission)
        ensures
            o == self.omission(),
    {
        match self {
            Kind::Scalar(_) => Omission::WhenDefault,
            Kind::Optional(_) => Omission::WhenAbsent,
            _ => Omission::Never,
        }
    }
}

/// Whether two lists of field indices are the same.
fn same_order(a: &Vec<usize>, b: &Vec<usize>) -> (same: bool)
    ensures
        same == (a@ == b@),
{
    if a.len() != b.len() {
        return false;
    }
    let mut i: usize = 0;
    while i < a.len()
        invariant
            i <= a@.len(),
            a@.len() == b@.len(),
            forall|j: int| 0 <= j < i ==> a@[j] == b@[j],
        decreases a@.len() - i,
    {
        if a[i] != b[i] {
            return false;
        }
        i += 1;
    }
    assert(a@ =~= b@);
    true
}

impl Plan {
    /// Whether the plan is well formed. A plan that [`Plan::assemble`] made
    /// is; one put together by hand need not be.
    pub fn check(&self) -> (ok: bool)
        ensures
            ok == self.wf(),
    {
        let n = self.fields.len();
        if n > MAX_FIELDS {
            return false;
        }
        let mut i: usize = 0;
        while i < n
            invariant
                i <= n,
                n == self.fields@.len(),
                n <= MAX_FIELDS,
                forall|j: int|
                    0 <= j < i ==> {
                        &&& (#[trigger] self.fields@[j]).declaration_index == j
                        &&& self.fields@[j].slot == slot_of(j as nat)
                        &&& self.fields@[j].priority == self.fields@[j].kind.priority()
                    },
            decreases n - i,
        {
            let field = &self.fields[i];
            if field.declaration_index != i || field.slot != slot_at(i) || field.priority
                != field.kind.sorting_priority() {
                assert(!({
                    &&& self.fields@[i as int].declaration_index == i
                    &&& self.fields@[i as int].slot == slot_of(i as nat)
                    &&& self.fields@[i as int].priority == self.fields@[i as int].kind.priority()
                }));
                return false;
            }
            i += 1;
        }
        let kinds = self.field_kinds();
        let order = commit_order(&kinds);
        let same = same_order(&self.commit_order, &order);
        proof {
            if !same && is_commit_order(self.kinds(), self.commit_order@) {
                crate::laws::law_commit_order_is_unique(
                    self.kinds(),
                    self.commit_order@,
                    order@,
                );
            }
        }
        same
    }
}

} // verus!
