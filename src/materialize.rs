use crate::changeset::{
    classify, is_global_handle, kind_of, IndexError, NewTable, ObjectId, Op, StateChange,
    StateChangeSet, Value, ValueKind, OBJECT_ID_LENGTH,
};
use crate::keyhash::{key_hash, prefixed_hex};
use crate::changeset::bytes_equal;
use vstd::prelude::*;
use vstd::string::*;

verus! {

/// One row of live global state.
#[derive(Debug)]
pub struct GlobalStateRow {
    pub object_id: String,
    pub value: String,
    pub object_type: String,
    pub key_type: String,
}

pub struct GlobalRowView {
    pub object_id: Seq<char>,
    pub value: Seq<char>,
    pub object_type: Seq<char>,
    pub key_type: Seq<char>,
}

impl View for GlobalStateRow {
    type V = GlobalRowView;

    open spec fn view(&self) -> GlobalRowView {
        GlobalRowView {
            object_id: self.object_id@,
            value: self.value@,
            object_type: self.object_type@,
            key_type: self.key_type@,
        }
    }
}

/// One row of live state inside an ordinary table.
#[derive(Debug)]
pub struct LeafStateRow {
    pub id: String,
    pub table_handle: String,
    pub key_hash: String,
    pub value: String,
    pub value_type: String,
}

pub struct LeafRowView {
    pub id: Seq<char>,
    pub table_handle: Seq<char>,
    pub key_hash: Seq<char>,
    pub value: Seq<char>,
    pub value_type: Seq<char>,
}

impl View for LeafStateRow {
    type V = LeafRowView;

    open spec fn view(&self) -> LeafRowView {
        LeafRowView {
            id: self.id@,
            table_handle: self.table_handle@,
            key_hash: self.key_hash@,
            value: self.value@,
            value_type: self.value_type@,
        }
    }
}

/// What one entry of a change set contributes to the live-state tables.
pub enum Outcome {
    NewGlobal(GlobalRowView),
    UpdateGlobal(GlobalRowView),
    RemoveGlobal(Seq<char>),
    NewLeaf(LeafRowView),
    UpdateLeaf(LeafRowView),
    RemoveLeaf(Seq<char>),
    Ignored,
}

/// Key type declared for `h` among the new tables; empty when none is.
pub open spec fn key_type_of(tables: Seq<NewTable>, h: Seq<u8>) -> Seq<char>
    decreases tables.len(),
{
    if tables.len() == 0 {
        Seq::empty()
    } else if tables[0].handle@ == h {
        tables[0].key_type@
    } else {
        key_type_of(tables.skip(1), h)
    }
}

/// Identifier of a leaf row: the table's canonical text followed by the key hash.
pub open spec fn leaf_id(h: Seq<u8>, key: Seq<u8>) -> Seq<char> {
    prefixed_hex(h) + prefixed_hex(key)
}

pub open spec fn global_row(
    key: Seq<u8>,
    v: Value,
    json: Seq<char>,
    tables: Seq<NewTable>,
) -> GlobalRowView {
    GlobalRowView {
        object_id: prefixed_hex(key),
        value: json,
        object_type: v.value_type@,
        key_type: if kind_of(v.value_type@) == ValueKind::TableObject {
            key_type_of(tables, key)
        } else {
            Seq::empty()
        },
    }
}

pub open spec fn leaf_row(h: Seq<u8>, key: Seq<u8>, v: Value, json: Seq<char>) -> LeafRowView {
    LeafRowView {
        id: leaf_id(h, key),
        table_handle: prefixed_hex(h),
        key_hash: prefixed_hex(key),
        value: json,
        value_type: v.value_type@,
    }
}

/// The outcome of one entry, given the JSON its value resolved to (`None`: resolution failed).
pub open spec fn outcome_of(c: StateChange, json: Option<String>, tables: Seq<NewTable>) -> Result<
    Outcome,
    IndexError,
> {
    if is_global_handle(c.handle@) {
        match c.op {
            Op::Delete => if c.key@.len() == OBJECT_ID_LENGTH {
                Ok(Outcome::RemoveGlobal(prefixed_hex(c.key@)))
            } else {
                Err(IndexError::Decode)
            },
            Op::New(v) | Op::Modify(v) => if kind_of(v.value_type@) == ValueKind::LeafValue {
                Ok(Outcome::Ignored)
            } else if c.key@.len() != OBJECT_ID_LENGTH {
                Err(IndexError::Decode)
            } else if json is None {
                Err(IndexError::Resolution)
            } else {
                let row = global_row(c.key@, v, json->Some_0@, tables);
                if c.op is New {
                    Ok(Outcome::NewGlobal(row))
                } else {
                    Ok(Outcome::UpdateGlobal(row))
                }
            },
        }
    } else {
        match c.op {
            Op::Delete => Ok(Outcome::RemoveLeaf(leaf_id(c.handle@, c.key@))),
            Op::New(v) | Op::Modify(v) => if json is None {
                Err(IndexError::Resolution)
            } else {
                let row = leaf_row(c.handle@, c.key@, v, json->Some_0@);
                if c.op is New {
                    Ok(Outcome::NewLeaf(row))
                } else {
                    Ok(Outcome::UpdateLeaf(row))
                }
            },
        }
    }
}

/// Outcomes of the first `n` entries, in order, or the error of the first entry that fails.
pub open spec fn outcomes(
    changes: Seq<StateChange>,
    resolved: Seq<Option<String>>,
    tables: Seq<NewTable>,
    n: nat,
) -> Result<Seq<Outcome>, IndexError>
    decreases n,
{
    if n == 0 {
        Ok(Seq::empty())
    } else {
        match outcomes(changes, resolved, tables, (n - 1) as nat) {
            Err(e) => Err(e),
            Ok(os) => match outcome_of(changes[n - 1], resolved[n - 1], tables) {
                Err(e) => Err(e),
                Ok(o) => Ok(os.push(o)),
            },
        }
    }
}

pub open spec fn new_globals(os: Seq<Outcome>) -> Seq<GlobalRowView>
    decreases os.len(),
{
    if os.len() == 0 {
        Seq::empty()
    } else {
        let r = new_globals(os.drop_last());
        match os.last() {
            Outcome::NewGlobal(row) => r.push(row),
            _ => r,
        }
    }
}

pub open spec fn updated_globals(os: Seq<Outcome>) -> Seq<GlobalRowView>
    decreases os.len(),
{
    if os.len() == 0 {
        Seq::empty()
    } else {
        let r = updated_globals(os.drop_last());
        match os.last() {
            Outcome::UpdateGlobal(row) => r.push(row),
            _ => r,
        }
    }
}

pub open spec fn removed_globals(os: Seq<Outcome>) -> Seq<Seq<char>>
    decreases os.len(),
{
    if os.len() == 0 {
        Seq::empty()
    } else {
        let r = removed_globals(os.drop_last());
        match os.last() {
            Outcome::RemoveGlobal(id) => r.push(id),
            _ => r,
        }
    }
}

pub open spec fn new_leaves(os: Seq<Outcome>) -> Seq<LeafRowView>
    decreases os.len(),
{
    if os.len() == 0 {
        Seq::empty()
    } else {
        let r = new_leaves(os.drop_last());
        match os.last() {
            Outcome::NewLeaf(row) => r.push(row),
            _ => r,
        }
    }
}

pub open spec fn updated_leaves(os: Seq<Outcome>) -> Seq<LeafRowView>
    decreases os.len(),
{
    if os.len() == 0 {
        Seq::empty()
    } else {
        let r = updated_leaves(os.drop_last());
        match os.last() {
            Outcome::UpdateLeaf(row) => r.push(row),
            _ => r,
        }
    }
}

pub open spec fn removed_leaves(os: Seq<Outcome>) -> Seq<Seq<char>>
    decreases os.len(),
{
    if os.len() == 0 {
        Seq::empty()
    } else {
        let r = removed_leaves(os.drop_last());
        match os.last() {
            Outcome::RemoveLeaf(id) => r.push(id),
            _ => r,
        }
    }
}

/// Canonical texts of a sequence of handles.
pub open spec fn handle_texts(hs: Seq<ObjectId>) -> Seq<Seq<char>> {
    hs.map_values(|h: ObjectId| prefixed_hex(h@))
}

/// The batches handed to the store for one change set, in the order they are written.
#[derive(Debug)]
pub struct IndexBatches {
    /// New then updated global rows: one upsert batch.
    pub global_upserts: Vec<GlobalStateRow>,
    /// Deleted objects, then the root objects of removed tables.
    pub global_removals: Vec<String>,
    /// New then updated leaf rows: one upsert batch.
    pub leaf_upserts: Vec<LeafStateRow>,
    pub leaf_removals: Vec<String>,
    /// Tables whose leaf rows are all removed.
    pub removed_table_handles: Vec<String>,
}

pub struct BatchesView {
    pub global_upserts: Seq<GlobalRowView>,
    pub global_removals: Seq<Seq<char>>,
    pub leaf_upserts: Seq<LeafRowView>,
    pub leaf_removals: Seq<Seq<char>>,
    pub removed_table_handles: Seq<Seq<char>>,
}

impl View for IndexBatches {
    type V = BatchesView;

    open spec fn view(&self) -> BatchesView {
        BatchesView {
            global_upserts: self.global_upserts@.map_values(|r: GlobalStateRow| r@),
            global_removals: self.global_removals@.map_values(|s: String| s@),
            leaf_upserts: self.leaf_upserts@.map_values(|r: LeafStateRow| r@),
            leaf_removals: self.leaf_removals@.map_values(|s: String| s@),
            removed_table_handles: self.removed_table_handles@.map_values(|s: String| s@),
        }
    }
}

/// The batches that a change set with entry outcomes `os` produces.
pub open spec fn batches_of(os: Seq<Outcome>, removed: Seq<ObjectId>) -> BatchesView {
    BatchesView {
        global_upserts: new_globals(os) + updated_globals(os),
        global_removals: removed_globals(os) + handle_texts(removed),
        leaf_upserts: new_leaves(os) + updated_leaves(os),
        leaf_removals: removed_leaves(os),
        removed_table_handles: handle_texts(removed),
    }
}

/// What a change set makes of the live-state tables: the batches, or the
/// error of the first entry that cannot be indexed.
pub open spec fn materialize_spec(
    cs: StateChangeSet,
    resolved: Seq<Option<String>>,
) -> Result<BatchesView, IndexError> {
    match outcomes(cs.changes@, resolved, cs.new_tables@, cs.changes@.len()) {
        Ok(os) => Ok(batches_of(os, cs.removed_tables@)),
        Err(e) => Err(e),
    }
}

} // verus!

verus! {

/// Once an entry fails, every longer prefix fails with the same error.
pub proof fn lemma_outcomes_error_sticks(
    changes: Seq<StateChange>,
    resolved: Seq<Option<String>>,
    tables: Seq<NewTable>,
    k: nat,
    m: nat,
)
    requires
        k <= m,
        outcomes(changes, resolved, tables, k) is Err,
    ensures
        outcomes(changes, resolved, tables, m) == outcomes(changes, resolved, tables, k),
    decreases m - k,
{
    if k < m {
        lemma_outcomes_error_sticks(changes, resolved, tables, k, (m - 1) as nat);
    }
}

fn lookup_key_type(tables: &Vec<NewTable>, h: &Vec<u8>) -> (r: String)
    ensures
        r@ == key_type_of(tables@, h@),
{
    let mut i: usize = 0;
    assert(tables@.skip(0) =~= tables@);
    while i < tables.len()
        invariant
            i <= tables@.len(),
            key_type_of(tables@.skip(i as int), h@) == key_type_of(tables@, h@),
        decreases tables@.len() - i,
    {
        assert(tables@.skip(i as int).skip(1) =~= tables@.skip(i + 1));
        if bytes_equal(&tables[i].handle.bytes, h) {
            return tables[i].key_type.clone();
        }
        i = i + 1;
    }
    String::new()
}

fn make_global_row(key: &Vec<u8>, v: &Value, json: &String, tables: &Vec<NewTable>) -> (r:
    GlobalStateRow)
    ensures
        r@ == global_row(key@, *v, json@, tables@),
{
    let key_type = if classify(&v.value_type) == ValueKind::TableObject {
        lookup_key_type(tables, key)
    } else {
        String::new()
    };
    GlobalStateRow {
        object_id: key_hash(key),
        value: json.clone(),
        object_type: v.value_type.clone(),
        key_type,
    }
}

fn make_leaf_row(h: &ObjectId, key: &Vec<u8>, v: &Value, json: &String) -> (r: LeafStateRow)
    ensures
        r@ == leaf_row(h@, key@, *v, json@),
{
    let table_handle = h.to_string();
    let kh = key_hash(key);
    let mut id = table_handle.clone();
    id.append(kh.as_str());
    LeafStateRow { id, table_handle, key_hash: kh, value: json.clone(), value_type: v.value_type.clone() }
}

/// Canonical texts of the given handles, in order.
fn handles_to_strings(hs: &Vec<ObjectId>) -> (r: Vec<String>)
    ensures
        r@.map_values(|s: String| s@) == handle_texts(hs@),
{
    let mut r: Vec<String> = Vec::new();
    let mut i: usize = 0;
    while i < hs.len()
        invariant
            i <= hs@.len(),
            r@.len() == i,
            forall|j: int| 0 <= j < i ==> #[trigger] r@[j]@ == prefixed_hex(hs@[j]@),
        decreases hs@.len() - i,
    {
        r.push(hs[i].to_string());
        i = i + 1;
    }
    assert(r@.map_values(|s: String| s@) =~= handle_texts(hs@));
    r
}

/// Turns one change set into the batches of rows to upsert and ids to delete.
///
/// `resolved[i]` is the JSON that the value of `cs.changes[i]` resolved to, or
/// `None` where resolution failed; it is read only for entries whose row needs it.
pub fn materialize(cs: &StateChangeSet, resolved: &Vec<Option<String>>) -> (r: Result<
    IndexBatches,
    IndexError,
>)
    requires
        resolved@.len() == cs.changes@.len(),
    ensures
        match (r, materialize_spec(*cs, resolved@)) {
            (Ok(b), Ok(bv)) => b@ == bv,
            (Err(e), Err(ev)) => e == ev,
            _ => false,
        },
{
    let ghost changes = cs.changes@;
    let ghost tables = cs.new_tables@;
    let mut new_global: Vec<GlobalStateRow> = Vec::new();
    let mut update_global: Vec<GlobalStateRow> = Vec::new();
    let mut remove_global: Vec<String> = Vec::new();
    let mut new_leaf: Vec<LeafStateRow> = Vec::new();
    let mut update_leaf: Vec<LeafStateRow> = Vec::new();
    let mut remove_leaf: Vec<String> = Vec::new();
    let mut i: usize = 0;
    while i < cs.changes.len()
        invariant
            i <= changes.len(),
            changes == cs.changes@,
            tables == cs.new_tables@,
            resolved@.len() == changes.len(),
            outcomes(changes, resolved@, tables, i as nat) is Ok,
            new_global@.map_values(|r: GlobalStateRow| r@) == new_globals(
                outcomes(changes, resolved@, tables, i as nat)->Ok_0,
            ),
            update_global@.map_values(|r: GlobalStateRow| r@) == updated_globals(
                outcomes(changes, resolved@, tables, i as nat)->Ok_0,
            ),
            remove_global@.map_values(|s: String| s@) == removed_globals(
                outcomes(changes, resolved@, tables, i as nat)->Ok_0,
            ),
            new_leaf@.map_values(|r: LeafStateRow| r@) == new_leaves(
                outcomes(changes, resolved@, tables, i as nat)->Ok_0,
            ),
            update_leaf@.map_values(|r: LeafStateRow| r@) == updated_leaves(
                outcomes(changes, resolved@, tables, i as nat)->Ok_0,
            ),
            remove_leaf@.map_values(|s: String| s@) == removed_leaves(
                outcomes(changes, resolved@, tables, i as nat)->Ok_0,
            ),
        decreases changes.len() - i,
    {
        let c = &cs.changes[i];
        let ghost os = outcomes(changes, resolved@, tables, i as nat)->Ok_0;
        let ghost out = outcome_of(changes[i as int], resolved@[i as int], tables);
        proof {
            if out is Err {
                assert(outcomes(changes, resolved@, tables, (i + 1) as nat) == Err::<
                    Seq<Outcome>,
                    IndexError,
                >(out->Err_0));
                lemma_outcomes_error_sticks(
                    changes,
                    resolved@,
                    tables,
                    (i + 1) as nat,
                    changes.len(),
                );
            }
        }
        let ghost next = os.push(out->Ok_0);
        proof {
            assert(next.drop_last() =~= os);
        }
        if c.handle.is_global() {
            match &c.op {
                Op::Delete => {
                    if c.key.len() != OBJECT_ID_LENGTH {
                        return Err(IndexError::Decode);
                    }
                    remove_global.push(key_hash(&c.key));
                },
                Op::New(v) | Op::Modify(v) => {
                    if classify(&v.value_type) != ValueKind::LeafValue {
                        if c.key.len() != OBJECT_ID_LENGTH {
                            return Err(IndexError::Decode);
                        }
                        match &resolved[i] {
                            None => {
                                return Err(IndexError::Resolution);
                            },
                            Some(json) => {
                                let row = make_global_row(&c.key, v, json, &cs.new_tables);
                                if matches!(c.op, Op::New(_)) {
                                    new_global.push(row);
                                } else {
                                    update_global.push(row);
                                }
                            },
                        }
                    }
                },
            }
        } else {
            match &c.op {
                Op::Delete => {
                    let mut id = c.handle.to_string();
                    let kh = key_hash(&c.key);
                    id.append(kh.as_str());
                    remove_leaf.push(id);
                },
                Op::New(v) | Op::Modify(v) => {
                    match &resolved[i] {
                        None => {
                            return Err(IndexError::Resolution);
                        },
                        Some(json) => {
                            let row = make_leaf_row(&c.handle, &c.key, v, json);
                            if matches!(c.op, Op::New(_)) {
                                new_leaf.push(row);
                            } else {
                                update_leaf.push(row);
                            }
                        },
                    }
                },
            }
        }
        i = i + 1;
        proof {
            assert(outcomes(changes, resolved@, tables, i as nat) == Ok::<
                Seq<Outcome>,
                IndexError,
            >(next));
            assert(new_global@.map_values(|r: GlobalStateRow| r@) =~= new_globals(next));
            assert(update_global@.map_values(|r: GlobalStateRow| r@) =~= updated_globals(next));
            assert(remove_global@.map_values(|s: String| s@) =~= removed_globals(next));
            assert(new_leaf@.map_values(|r: LeafStateRow| r@) =~= new_leaves(next));
            assert(update_leaf@.map_values(|r: LeafStateRow| r@) =~= updated_leaves(next));
            assert(remove_leaf@.map_values(|s: String| s@) =~= removed_leaves(next));
        }
    }
    let ghost os = outcomes(changes, resolved@, tables, i as nat)->Ok_0;
    let removed = handles_to_strings(&cs.removed_tables);
    let mut removed_for_global = handles_to_strings(&cs.removed_tables);
    new_global.append(&mut update_global);
    remove_global.append(&mut removed_for_global);
    new_leaf.append(&mut update_leaf);
    let b = IndexBatches {
        global_upserts: new_global,
        global_removals: remove_global,
        leaf_upserts: new_leaf,
        leaf_removals: remove_leaf,
        removed_table_handles: removed,
    };
    proof {
        let bv = batches_of(os, cs.removed_tables@);
        assert(b@.global_upserts =~= bv.global_upserts);
        assert(b@.global_removals =~= bv.global_removals);
        assert(b@.leaf_upserts =~= bv.leaf_upserts);
    }
    Ok(b)
}

} // verus!
