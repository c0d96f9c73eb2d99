use crate::changeset::{copy_bytes, NewTable, ObjectId, Op, StateChange, StateChangeSet, Value};
use crate::keyhash::prefixed_hex;
use crate::query::LogRow;
use vstd::prelude::*;

verus! {

/// The byte sequences of a sequence of identifiers.
pub open spec fn handle_views(hs: Seq<ObjectId>) -> Seq<Seq<u8>> {
    hs.map_values(|x: ObjectId| x@)
}

/// A value as plain data: declared type and payload.
pub struct ValueView {
    pub value_type: Seq<char>,
    pub value: Seq<u8>,
}

pub enum OpView {
    New(ValueView),
    Modify(ValueView),
    Delete,
}

pub struct ChangeView {
    pub handle: Seq<u8>,
    pub key: Seq<u8>,
    pub op: OpView,
}

pub open spec fn value_view(v: Value) -> ValueView {
    ValueView { value_type: v.value_type@, value: v.value@ }
}

pub open spec fn change_view(c: StateChange) -> ChangeView {
    ChangeView {
        handle: c.handle@,
        key: c.key@,
        op: match c.op {
            Op::New(v) => OpView::New(value_view(v)),
            Op::Modify(v) => OpView::Modify(value_view(v)),
            Op::Delete => OpView::Delete,
        },
    }
}

pub open spec fn change_views(cs: Seq<StateChange>) -> Seq<ChangeView> {
    cs.map_values(|c: StateChange| change_view(c))
}

fn copy_value(v: &Value) -> (r: Value)
    ensures
        value_view(r) == value_view(*v),
{
    Value { value_type: v.value_type.clone(), value: copy_bytes(&v.value) }
}

fn copy_change(c: &StateChange) -> (r: StateChange)
    ensures
        change_view(r) == change_view(*c),
{
    let op = match &c.op {
        Op::New(v) => Op::New(copy_value(v)),
        Op::Modify(v) => Op::Modify(copy_value(v)),
        Op::Delete => Op::Delete,
    };
    StateChange { handle: c.handle.copied(), key: copy_bytes(&c.key), op }
}

/// `s` with later repeats of an element left out.
pub open spec fn dedup(s: Seq<Seq<u8>>) -> Seq<Seq<u8>>
    decreases s.len(),
{
    if s.len() == 0 {
        Seq::empty()
    } else if dedup(s.drop_last()).contains(s.last()) {
        dedup(s.drop_last())
    } else {
        dedup(s.drop_last()).push(s.last())
    }
}

/// Every handle that a change set names: new tables, then changed tables, then removed tables.
pub open spec fn named_handles(cs: StateChangeSet) -> Seq<Seq<u8>> {
    cs.new_tables@.map_values(|t: NewTable| t.handle@) + cs.changes@.map_values(
        |c: StateChange| c.handle@,
    ) + cs.removed_tables@.map_values(|h: ObjectId| h@)
}

/// One group per table, in the order in which the change set first names it.
pub open spec fn group_handles(cs: StateChangeSet) -> Seq<Seq<u8>> {
    dedup(named_handles(cs))
}

/// Key type of `h` if the change set creates that table.
pub open spec fn declared_key_type(tables: Seq<NewTable>, h: Seq<u8>) -> Option<Seq<char>>
    decreases tables.len(),
{
    if tables.len() == 0 {
        None
    } else if tables[0].handle@ == h {
        Some(tables[0].key_type@)
    } else {
        declared_key_type(tables.skip(1), h)
    }
}

/// The entries of `h`, in the change set's order.
pub open spec fn changes_of(cs: Seq<ChangeView>, h: Seq<u8>) -> Seq<ChangeView>
    decreases cs.len(),
{
    if cs.len() == 0 {
        Seq::empty()
    } else if cs.last().handle == h {
        changes_of(cs.drop_last(), h).push(cs.last())
    } else {
        changes_of(cs.drop_last(), h)
    }
}

/// One record of the state-sync log: what one transaction did to one table.
#[derive(Debug)]
pub struct TableChangeSetRow {
    pub tx_order: u64,
    pub index: u64,
    pub table_handle: String,
    /// Key type, when the transaction creates the table.
    pub key_type: Option<String>,
    pub changes: Vec<StateChange>,
    pub removed: bool,
}

impl LogRow for TableChangeSetRow {
    open spec fn key_spec(&self) -> (u64, u64) {
        (self.tx_order, self.index)
    }

    /// The filter of the state-sync log is a table's canonical text.
    open spec fn passes_spec(&self, filter: Seq<char>) -> bool {
        self.table_handle@ == filter
    }

    fn key(&self) -> (r: (u64, u64)) {
        (self.tx_order, self.index)
    }

    fn passes(&self, filter: &String) -> (r: bool) {
        self.table_handle == *filter
    }

    open spec fn same_content(&self, other: Self) -> bool {
        &&& self.tx_order == other.tx_order
        &&& self.index == other.index
        &&& self.table_handle@ == other.table_handle@
        &&& self.key_type is Some == other.key_type is Some
        &&& self.key_type is Some ==> self.key_type->Some_0@ == other.key_type->Some_0@
        &&& change_views(self.changes@) == change_views(other.changes@)
        &&& self.removed == other.removed
    }

    fn duplicate(&self) -> (r: Self) {
        let key_type = match &self.key_type {
            Some(k) => Some(k.clone()),
            None => None,
        };
        let mut changes: Vec<StateChange> = Vec::new();
        let mut i: usize = 0;
        while i < self.changes.len()
            invariant
                i <= self.changes@.len(),
                changes@.len() == i,
                forall|j: int| 0 <= j < i ==> #[trigger] change_view(changes@[j]) == change_view(self.changes@[j]),
            decreases self.changes@.len() - i,
        {
            changes.push(copy_change(&self.changes[i]));
            i = i + 1;
        }
        assert(change_views(changes@) =~= change_views(self.changes@));
        TableChangeSetRow {
            tx_order: self.tx_order,
            index: self.index,
            table_handle: self.table_handle.clone(),
            key_type,
            changes,
            removed: self.removed,
        }
    }
}

/// The log record for the `g`-th group of `cs` in transaction `tx_order`.
pub open spec fn log_row_fits(r: TableChangeSetRow, tx_order: u64, g: int, cs: StateChangeSet) -> bool {
    let h = group_handles(cs)[g];
    &&& r.tx_order == tx_order
    &&& r.index == g
    &&& r.table_handle@ == prefixed_hex(h)
    &&& r.key_type is Some == declared_key_type(cs.new_tables@, h) is Some
    &&& r.key_type is Some ==> r.key_type->Some_0@ == declared_key_type(cs.new_tables@, h)->Some_0
    &&& change_views(r.changes@) == changes_of(change_views(cs.changes@), h)
    &&& r.removed == handle_views(cs.removed_tables@).contains(h)
}

fn find_key_type(tables: &Vec<NewTable>, h: &ObjectId) -> (r: Option<String>)
    ensures
        r is Some == declared_key_type(tables@, h@) is Some,
        r is Some ==> r->Some_0@ == declared_key_type(tables@, h@)->Some_0,
{
    let mut i: usize = 0;
    assert(tables@.skip(0) =~= tables@);
    while i < tables.len()
        invariant
            i <= tables@.len(),
            declared_key_type(tables@.skip(i as int), h@) == declared_key_type(tables@, h@),
        decreases tables@.len() - i,
    {
        assert(tables@.skip(i as int).skip(1) =~= tables@.skip(i + 1));
        if tables[i].handle.same_as(h) {
            return Some(tables[i].key_type.clone());
        }
        i = i + 1;
    }
    None
}

fn contains_handle(hs: &Vec<ObjectId>, h: &ObjectId) -> (r: bool)
    ensures
        r == handle_views(hs@).contains(h@),
{
    let mut i: usize = 0;
    while i < hs.len()
        invariant
            i <= hs@.len(),
            forall|j: int| 0 <= j < i ==> hs@[j]@ != h@,
        decreases hs@.len() - i,
    {
        if hs[i].same_as(h) {
            assert(handle_views(hs@)[i as int] == h@);
            return true;
        }
        i = i + 1;
    }
    assert forall|j: int| 0 <= j < hs@.len() implies #[trigger] handle_views(hs@)[j] != h@ by {
        assert(hs@[j]@ != h@);
    }
    false
}

fn push_if_new(hs: &mut Vec<ObjectId>, h: &ObjectId)
    ensures
        handle_views(final(hs)@) == if handle_views(old(hs)@).contains(h@) {
            handle_views(old(hs)@)
        } else {
            handle_views(old(hs)@).push(h@)
        },
{
    if !contains_handle(hs, h) {
        hs.push(h.copied());
        assert(handle_views(hs@) =~= handle_views(old(hs)@).push(h@));
    }
}

fn collect_handles(cs: &StateChangeSet) -> (r: Vec<ObjectId>)
    ensures
        handle_views(r@) == group_handles(*cs),
{
    let ghost all = named_handles(*cs);
    let nt = cs.new_tables.len();
    let nc = cs.changes.len();
    let mut hs: Vec<ObjectId> = Vec::new();
    let mut i: usize = 0;
    assert(all.take(0) =~= Seq::<Seq<u8>>::empty());
    while i < nt
        invariant
            nt == cs.new_tables@.len(),
            i <= nt,
            all == named_handles(*cs),
            handle_views(hs@) == dedup(all.take(i as int)),
        decreases nt - i,
    {
        assert(all.take(i + 1).drop_last() =~= all.take(i as int));
        assert(all[i as int] == cs.new_tables@[i as int].handle@);
        push_if_new(&mut hs, &cs.new_tables[i].handle);
        i = i + 1;
    }
    let mut i: usize = 0;
    while i < nc
        invariant
            nt == cs.new_tables@.len(),
            nc == cs.changes@.len(),
            i <= nc,
            all == named_handles(*cs),
            handle_views(hs@) == dedup(all.take(nt + i)),
        decreases nc - i,
    {
        assert(all.take(nt + i + 1).drop_last() =~= all.take(nt + i));
        assert(all[nt + i] == cs.changes@[i as int].handle@);
        push_if_new(&mut hs, &cs.changes[i].handle);
        i = i + 1;
    }
    let mut i: usize = 0;
    while i < cs.removed_tables.len()
        invariant
            nt == cs.new_tables@.len(),
            nc == cs.changes@.len(),
            i <= cs.removed_tables@.len(),
            all == named_handles(*cs),
            handle_views(hs@) == dedup(all.take(nt + nc + i)),
        decreases cs.removed_tables@.len() - i,
    {
        assert(all.take(nt + nc + i + 1).drop_last() =~= all.take(nt + nc + i));
        assert(all[nt + nc + i] == cs.removed_tables@[i as int]@);
        push_if_new(&mut hs, &cs.removed_tables[i]);
        i = i + 1;
    }
    assert(all.take(nt + nc + i) =~= all);
    hs
}

fn changes_for(changes: &Vec<StateChange>, h: &ObjectId) -> (r: Vec<StateChange>)
    ensures
        change_views(r@) == changes_of(change_views(changes@), h@),
{
    let mut r: Vec<StateChange> = Vec::new();
    let mut i: usize = 0;
    while i < changes.len()
        invariant
            i <= changes@.len(),
            change_views(r@) == changes_of(change_views(changes@.take(i as int)), h@),
        decreases changes@.len() - i,
    {
        assert(change_views(changes@.take(i + 1)).drop_last() =~= change_views(changes@.take(i as int)));
        assert(change_views(changes@.take(i + 1)).last() == change_view(changes@[i as int]));
        if changes[i].handle.same_as(h) {
            let c = copy_change(&changes[i]);
            r.push(c);
            assert(change_views(r@) =~= changes_of(change_views(changes@.take(i as int)), h@).push(change_view(changes@[i as int])));
        }
        i = i + 1;
    }
    assert(changes@.take(i as int) =~= changes@);
    r
}

/// Re-groups a change set per table for the state-sync log: one record per
/// table that the change set names, numbered in order, each with the table's
/// key type if it is new, its entries, and whether it is removed.
pub fn split_change_set(tx_order: u64, cs: &StateChangeSet) -> (r: Vec<TableChangeSetRow>)
    ensures
        r@.len() == group_handles(*cs).len(),
        forall|g: int| 0 <= g < r@.len() ==> log_row_fits(#[trigger] r@[g], tx_order, g, *cs),
{
    let hs = collect_handles(cs);
    let mut rows: Vec<TableChangeSetRow> = Vec::new();
    let mut g: usize = 0;
    while g < hs.len()
        invariant
            g <= hs@.len(),
            handle_views(hs@) == group_handles(*cs),
            rows@.len() == g,
            forall|j: int| 0 <= j < g ==> log_row_fits(#[trigger] rows@[j], tx_order, j, *cs),
        decreases hs@.len() - g,
    {
        let h = &hs[g];
        assert(group_handles(*cs)[g as int] == h@);
        let row = TableChangeSetRow {
            tx_order,
            index: g as u64,
            table_handle: h.to_string(),
            key_type: find_key_type(&cs.new_tables, h),
            changes: changes_for(&cs.changes, h),
            removed: contains_handle(&cs.removed_tables, h),
        };
        rows.push(row);
        g = g + 1;
    }
    rows
}

} // verus!
