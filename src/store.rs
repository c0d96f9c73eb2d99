use crate::materialize::{
    BatchesView, GlobalRowView, GlobalStateRow, IndexBatches, LeafRowView, LeafStateRow,
};
use crate::changelog::TableChangeSetRow;
use crate::projector::{EventRow, TransactionRow};
use crate::query::log_sorted;
use crate::txlog::{replace_tx, rows_of_tx, write_tx};
use vstd::prelude::*;

verus! {

/// The character sequences of a vector of strings.
pub open spec fn texts(v: Seq<String>) -> Seq<Seq<char>> {
    v.map_values(|s: String| s@)
}

/// Live global state after writing `rows` in order: a later row replaces an earlier one with the same id.
pub open spec fn global_map(rows: Seq<GlobalRowView>) -> Map<Seq<char>, GlobalRowView>
    decreases rows.len(),
{
    if rows.len() == 0 {
        Map::empty()
    } else {
        global_map(rows.drop_last()).insert(rows.last().object_id, rows.last())
    }
}

/// Live leaf state after writing `rows` in order.
pub open spec fn leaf_map(rows: Seq<LeafRowView>) -> Map<Seq<char>, LeafRowView>
    decreases rows.len(),
{
    if rows.len() == 0 {
        Map::empty()
    } else {
        leaf_map(rows.drop_last()).insert(rows.last().id, rows.last())
    }
}

/// The stored live state: global rows by object id, leaf rows by composite id.
pub struct StoreModel {
    pub global: Map<Seq<char>, GlobalRowView>,
    pub leaf: Map<Seq<char>, LeafRowView>,
}

/// Leaf rows whose table is not among `handles`.
pub open spec fn without_tables(
    m: Map<Seq<char>, LeafRowView>,
    handles: Set<Seq<char>>,
) -> Map<Seq<char>, LeafRowView> {
    m.restrict(Set::new(|k: Seq<char>| m.contains_key(k) && !handles.contains(m[k].table_handle)))
}

/// The store after writing one change set's batches in the fixed order:
/// global upserts, global deletes, leaf upserts, leaf deletes, cascade by table.
pub open spec fn apply_spec(s: StoreModel, b: BatchesView) -> StoreModel {
    let g = s.global.union_prefer_right(global_map(b.global_upserts)).remove_keys(
        b.global_removals.to_set(),
    );
    let l = s.leaf.union_prefer_right(leaf_map(b.leaf_upserts)).remove_keys(
        b.leaf_removals.to_set(),
    );
    StoreModel { global: g, leaf: without_tables(l, b.removed_table_handles.to_set()) }
}

/// An in-memory index store: one row per live id in each family.
#[derive(Debug)]
pub struct MemoryStore {
    pub global_states: Vec<GlobalStateRow>,
    pub leaf_states: Vec<LeafStateRow>,
    /// The state-sync log, in key order.
    pub table_change_sets: Vec<TableChangeSetRow>,
    /// Indexed transactions, in key order.
    pub transactions: Vec<TransactionRow>,
    /// Indexed events, in key order.
    pub events: Vec<EventRow>,
}

impl MemoryStore {
    pub open spec fn wf(&self) -> bool {
        &&& distinct_global(self.global_states@.map_values(|r: GlobalStateRow| r@))
        &&& distinct_leaf(self.leaf_states@.map_values(|r: LeafStateRow| r@))
        &&& log_sorted(self.table_change_sets@)
        &&& log_sorted(self.transactions@)
        &&& log_sorted(self.events@)
    }

    pub open spec fn view(&self) -> StoreModel {
        StoreModel {
            global: global_map(self.global_states@.map_values(|r: GlobalStateRow| r@)),
            leaf: leaf_map(self.leaf_states@.map_values(|r: LeafStateRow| r@)),
        }
    }

    pub fn new() -> (r: MemoryStore)
        ensures
            r.wf(),
            r.view().global == Map::<Seq<char>, GlobalRowView>::empty(),
            r.view().leaf == Map::<Seq<char>, LeafRowView>::empty(),
            r.table_change_sets@.len() == 0,
            r.transactions@.len() == 0,
            r.events@.len() == 0,
    {
        MemoryStore {
            global_states: Vec::new(),
            leaf_states: Vec::new(),
            table_change_sets: Vec::new(),
            transactions: Vec::new(),
            events: Vec::new(),
        }
    }
}

} // verus!

verus! {

/// Global rows of `m` that `keep` accepts.
pub open spec fn global_kept(
    m: Map<Seq<char>, GlobalRowView>,
    keep: spec_fn(GlobalRowView) -> bool,
) -> Map<Seq<char>, GlobalRowView> {
    m.restrict(Set::new(|k: Seq<char>| m.contains_key(k) && keep(m[k])))
}

pub open spec fn distinct_global(rows: Seq<GlobalRowView>) -> bool {
    forall|i: int, j: int|
        0 <= i < rows.len() && 0 <= j < rows.len() && i != j ==> rows[i].object_id
            != rows[j].object_id
}

pub proof fn lemma_global_in_dom(s: Seq<GlobalRowView>)
    ensures
        forall|i: int| 0 <= i < s.len() ==> global_map(s).contains_key(#[trigger] s[i].object_id),
    decreases s.len(),
{
    if s.len() > 0 {
        lemma_global_in_dom(s.drop_last());
        assert forall|i: int| 0 <= i < s.len() implies global_map(s).contains_key(
            #[trigger] s[i].object_id,
        ) by {
            if i < s.len() - 1 {
                assert(s.drop_last()[i] == s[i]);
            }
        }
    }
}

proof fn lemma_global_keys(s: Seq<GlobalRowView>)
    ensures
        forall|k: Seq<char>| #[trigger] global_map(s).contains_key(k) ==> global_map(s)[k].object_id == k,
    decreases s.len(),
{
    if s.len() > 0 {
        lemma_global_keys(s.drop_last());
        assert forall|k: Seq<char>| #[trigger] global_map(s).contains_key(k) implies global_map(s)[k].object_id
            == k by {
            if k != s.last().object_id {
                assert(global_map(s.drop_last()).contains_key(k));
            }
        }
    }
}

pub proof fn lemma_global_dom_from(s: Seq<GlobalRowView>, k: Seq<char>)
    requires
        global_map(s).contains_key(k),
    ensures
        exists|i: int| 0 <= i < s.len() && s[i].object_id == k,
    decreases s.len(),
{
    if s.last().object_id != k {
        lemma_global_dom_from(s.drop_last(), k);
        let i = choose|i: int| 0 <= i < s.drop_last().len() && s.drop_last()[i].object_id == k;
        assert(s[i] == s.drop_last()[i]);
    }
}

/// Rows of `rows` that `keep` accepts, in order; ids stay distinct.
fn retain_global(rows: Vec<GlobalStateRow>, keep_ids: &Vec<String>, ghost_keep: Ghost<spec_fn(GlobalRowView) -> bool>) -> (r: Vec<GlobalStateRow>)
    requires
        distinct_global(rows@.map_values(|x: GlobalStateRow| x@)),
        forall|x: GlobalRowView| #[trigger] ghost_keep@(x) == !texts(keep_ids@).contains(x.object_id),
    ensures
        distinct_global(r@.map_values(|x: GlobalStateRow| x@)),
        global_map(r@.map_values(|x: GlobalStateRow| x@)) == global_kept(
            global_map(rows@.map_values(|x: GlobalStateRow| x@)),
            ghost_keep@,
        ),
{
    let ghost orig = rows@.map_values(|x: GlobalStateRow| x@);
    let ghost keep = ghost_keep@;
    let mut rows = rows;
    let mut kept: Vec<GlobalStateRow> = Vec::new();
    let ghost mut c: int = 0;
    assert(orig.take(0) =~= Seq::<GlobalRowView>::empty());
    assert(global_kept(Map::empty(), keep) =~= Map::empty());
    while rows.len() > 0
        invariant
            0 <= c <= orig.len(),
            rows@.map_values(|x: GlobalStateRow| x@) == orig.skip(c),
            distinct_global(orig),
            distinct_global(kept@.map_values(|x: GlobalStateRow| x@)),
            global_map(kept@.map_values(|x: GlobalStateRow| x@)) == global_kept(
                global_map(orig.take(c)),
                keep,
            ),
            forall|x: GlobalRowView| #[trigger] keep(x) == !texts(keep_ids@).contains(x.object_id),
        decreases rows@.len(),
    {
        proof {
            assert(orig.skip(c).len() == rows@.len());
            assert(c < orig.len());
            assert(rows@.map_values(|x: GlobalStateRow| x@)[0] == rows@[0]@);
        }
        let row = rows.remove(0);
        let ghost kv = kept@.map_values(|x: GlobalStateRow| x@);
        let ghost prev = orig.take(c);
        proof {
            assert(orig.skip(c)[0] == row@);
            assert(orig[c] == orig.skip(c)[0]);
            assert(orig.take(c + 1) =~= prev.push(row@));
            assert(orig.take(c + 1).drop_last() =~= prev);
            if global_map(prev).contains_key(row@.object_id) {
                lemma_global_dom_from(prev, row@.object_id);
                let i = choose|i: int| 0 <= i < prev.len() && prev[i].object_id == row@.object_id;
                assert(orig[i] == prev[i]);
                assert(orig[c] == row@);
            }
            assert(orig.skip(c).skip(1) =~= orig.skip(c + 1));
        }
        let mut found = false;
        let mut j: usize = 0;
        while j < keep_ids.len()
            invariant
                j <= keep_ids@.len(),
                found == exists|t: int| 0 <= t < j && keep_ids@[t]@ == row@.object_id,
            decreases keep_ids@.len() - j,
        {
            if keep_ids[j] == row.object_id {
                found = true;
            }
            j = j + 1;
        }
        proof {
            if found {
                let t = choose|t: int| 0 <= t < j && keep_ids@[t]@ == row@.object_id;
                assert(texts(keep_ids@)[t] == row@.object_id);
            } else {
                assert forall|t: int| 0 <= t < keep_ids@.len() implies #[trigger] texts(keep_ids@)[t] != row@.object_id by {
                    if texts(keep_ids@)[t] == row@.object_id {
                        assert(keep_ids@[t]@ == row@.object_id);
                    }
                }
            }
            assert(found == !keep(row@));
        }
        if !found {
            proof {
                lemma_global_in_dom(kv);
                assert forall|k: Seq<char>| global_map(kv).contains_key(k) implies global_map(prev).contains_key(k) by {
                    assert(global_kept(global_map(prev), keep).contains_key(k));
                }
            }
            kept.push(row);
            proof {
                let nk = kept@.map_values(|x: GlobalStateRow| x@);
                assert(nk.drop_last() =~= kv);
                assert forall|i: int, j: int| 0 <= i < nk.len() && 0 <= j < nk.len() && i != j implies nk[i].object_id != nk[j].object_id by {
                    if i < kv.len() && j < kv.len() {
                        assert(nk[i] == kv[i] && nk[j] == kv[j]);
                    } else if i < kv.len() {
                        assert(nk[i] == kv[i]);
                        assert(global_map(kv).contains_key(kv[i].object_id));
                    } else {
                        assert(nk[j] == kv[j]);
                        assert(global_map(kv).contains_key(kv[j].object_id));
                    }
                }
                assert(global_map(nk) =~= global_kept(global_map(orig.take(c + 1)), keep));
            }
        } else {
            proof {
                assert(global_map(kv) =~= global_kept(global_map(orig.take(c + 1)), keep));
            }
        }
        proof {
            c = c + 1;
        }
    }
    assert(orig.take(c) =~= orig);
    kept
}

} // verus!

verus! {

/// Leaf rows of `m` that `keep` accepts.
pub open spec fn leaf_kept(
    m: Map<Seq<char>, LeafRowView>,
    keep: spec_fn(LeafRowView) -> bool,
) -> Map<Seq<char>, LeafRowView> {
    m.restrict(Set::new(|k: Seq<char>| m.contains_key(k) && keep(m[k])))
}

pub open spec fn distinct_leaf(rows: Seq<LeafRowView>) -> bool {
    forall|i: int, j: int|
        0 <= i < rows.len() && 0 <= j < rows.len() && i != j ==> rows[i].id
            != rows[j].id
}

proof fn lemma_leaf_in_dom(s: Seq<LeafRowView>)
    ensures
        forall|i: int| 0 <= i < s.len() ==> leaf_map(s).contains_key(#[trigger] s[i].id),
    decreases s.len(),
{
    if s.len() > 0 {
        lemma_leaf_in_dom(s.drop_last());
        assert forall|i: int| 0 <= i < s.len() implies leaf_map(s).contains_key(
            #[trigger] s[i].id,
        ) by {
            if i < s.len() - 1 {
                assert(s.drop_last()[i] == s[i]);
            }
        }
    }
}

proof fn lemma_leaf_keys(s: Seq<LeafRowView>)
    ensures
        forall|k: Seq<char>| #[trigger] leaf_map(s).contains_key(k) ==> leaf_map(s)[k].id == k,
    decreases s.len(),
{
    if s.len() > 0 {
        lemma_leaf_keys(s.drop_last());
        assert forall|k: Seq<char>| #[trigger] leaf_map(s).contains_key(k) implies leaf_map(s)[k].id
            == k by {
            if k != s.last().id {
                assert(leaf_map(s.drop_last()).contains_key(k));
            }
        }
    }
}

proof fn lemma_leaf_dom_from(s: Seq<LeafRowView>, k: Seq<char>)
    requires
        leaf_map(s).contains_key(k),
    ensures
        exists|i: int| 0 <= i < s.len() && s[i].id == k,
    decreases s.len(),
{
    if s.last().id != k {
        lemma_leaf_dom_from(s.drop_last(), k);
        let i = choose|i: int| 0 <= i < s.drop_last().len() && s.drop_last()[i].id == k;
        assert(s[i] == s.drop_last()[i]);
    }
}

/// The text a leaf row is tested on: its table, or its id.
pub open spec fn leaf_text(x: LeafRowView, by_table: bool) -> Seq<char> {
    if by_table {
        x.table_handle
    } else {
        x.id
    }
}

/// Rows of `rows` that `keep` accepts, in order; ids stay distinct.
fn retain_leaf(rows: Vec<LeafStateRow>, keep_ids: &Vec<String>, by_table: bool, ghost_keep: Ghost<spec_fn(LeafRowView) -> bool>) -> (r: Vec<LeafStateRow>)
    requires
        distinct_leaf(rows@.map_values(|x: LeafStateRow| x@)),
        forall|x: LeafRowView| #[trigger] ghost_keep@(x) == !texts(keep_ids@).contains(leaf_text(x, by_table)),
    ensures
        distinct_leaf(r@.map_values(|x: LeafStateRow| x@)),
        leaf_map(r@.map_values(|x: LeafStateRow| x@)) == leaf_kept(
            leaf_map(rows@.map_values(|x: LeafStateRow| x@)),
            ghost_keep@,
        ),
{
    let ghost orig = rows@.map_values(|x: LeafStateRow| x@);
    let ghost keep = ghost_keep@;
    let mut rows = rows;
    let mut kept: Vec<LeafStateRow> = Vec::new();
    let ghost mut c: int = 0;
    assert(orig.take(0) =~= Seq::<LeafRowView>::empty());
    assert(leaf_kept(Map::empty(), keep) =~= Map::empty());
    while rows.len() > 0
        invariant
            0 <= c <= orig.len(),
            rows@.map_values(|x: LeafStateRow| x@) == orig.skip(c),
            distinct_leaf(orig),
            distinct_leaf(kept@.map_values(|x: LeafStateRow| x@)),
            leaf_map(kept@.map_values(|x: LeafStateRow| x@)) == leaf_kept(
                leaf_map(orig.take(c)),
                keep,
            ),
            forall|x: LeafRowView| #[trigger] keep(x) == !texts(keep_ids@).contains(leaf_text(x, by_table)),
        decreases rows@.len(),
    {
        proof {
            assert(orig.skip(c).len() == rows@.len());
            assert(c < orig.len());
            assert(rows@.map_values(|x: LeafStateRow| x@)[0] == rows@[0]@);
        }
        let row = rows.remove(0);
        let ghost kv = kept@.map_values(|x: LeafStateRow| x@);
        let ghost prev = orig.take(c);
        proof {
            assert(orig.skip(c)[0] == row@);
            assert(orig[c] == orig.skip(c)[0]);
            assert(orig.take(c + 1) =~= prev.push(row@));
            assert(orig.take(c + 1).drop_last() =~= prev);
            if leaf_map(prev).contains_key(row@.id) {
                lemma_leaf_dom_from(prev, row@.id);
                let i = choose|i: int| 0 <= i < prev.len() && prev[i].id == row@.id;
                assert(orig[i] == prev[i]);
                assert(orig[c] == row@);
            }
            assert(orig.skip(c).skip(1) =~= orig.skip(c + 1));
        }
        let mut found = false;
        let mut j: usize = 0;
        while j < keep_ids.len()
            invariant
                j <= keep_ids@.len(),
                found == exists|t: int| 0 <= t < j && keep_ids@[t]@ == leaf_text(row@, by_table),
            decreases keep_ids@.len() - j,
        {
            if keep_ids[j] == *(if by_table { &row.table_handle } else { &row.id }) {
                found = true;
            }
            j = j + 1;
        }
        proof {
            if found {
                let t = choose|t: int| 0 <= t < j && keep_ids@[t]@ == leaf_text(row@, by_table);
                assert(texts(keep_ids@)[t] == leaf_text(row@, by_table));
            } else {
                assert forall|t: int| 0 <= t < keep_ids@.len() implies #[trigger] texts(keep_ids@)[t] != leaf_text(row@, by_table) by {
                    if texts(keep_ids@)[t] == leaf_text(row@, by_table) {
                        assert(keep_ids@[t]@ == leaf_text(row@, by_table));
                    }
                }
            }
            assert(found == !keep(row@));
        }
        if !found {
            proof {
                lemma_leaf_in_dom(kv);
                assert forall|k: Seq<char>| leaf_map(kv).contains_key(k) implies leaf_map(prev).contains_key(k) by {
                    assert(leaf_kept(leaf_map(prev), keep).contains_key(k));
                }
            }
            kept.push(row);
            proof {
                let nk = kept@.map_values(|x: LeafStateRow| x@);
                assert(nk.drop_last() =~= kv);
                assert forall|i: int, j: int| 0 <= i < nk.len() && 0 <= j < nk.len() && i != j implies nk[i].id != nk[j].id by {
                    if i < kv.len() && j < kv.len() {
                        assert(nk[i] == kv[i] && nk[j] == kv[j]);
                    } else if i < kv.len() {
                        assert(nk[i] == kv[i]);
                        assert(leaf_map(kv).contains_key(kv[i].id));
                    } else {
                        assert(nk[j] == kv[j]);
                        assert(leaf_map(kv).contains_key(kv[j].id));
                    }
                }
                assert(leaf_map(nk) =~= leaf_kept(leaf_map(orig.take(c + 1)), keep));
            }
        } else {
            proof {
                assert(leaf_map(kv) =~= leaf_kept(leaf_map(orig.take(c + 1)), keep));
            }
        }
        proof {
            c = c + 1;
        }
    }
    assert(orig.take(c) =~= orig);
    kept
}

} // verus!

verus! {

proof fn lemma_union_push_global(
    m: Map<Seq<char>, GlobalRowView>,
    s: Seq<GlobalRowView>,
    r: GlobalRowView,
)
    ensures
        m.union_prefer_right(global_map(s.push(r))) == m.union_prefer_right(global_map(s)).insert(
            r.object_id,
            r,
        ),
{
    assert(s.push(r).drop_last() =~= s);
    assert(m.union_prefer_right(global_map(s.push(r))) =~= m.union_prefer_right(
        global_map(s),
    ).insert(r.object_id, r));
}

proof fn lemma_union_push_leaf(m: Map<Seq<char>, LeafRowView>, s: Seq<LeafRowView>, r: LeafRowView)
    ensures
        m.union_prefer_right(leaf_map(s.push(r))) == m.union_prefer_right(leaf_map(s)).insert(
            r.id,
            r,
        ),
{
    assert(s.push(r).drop_last() =~= s);
    assert(m.union_prefer_right(leaf_map(s.push(r))) =~= m.union_prefer_right(leaf_map(s)).insert(
        r.id,
        r,
    ));
}

impl MemoryStore {
    /// Writes `rows` in order; a row replaces the stored row with the same id.
    pub fn persist_or_update_global_states(&mut self, rows: Vec<GlobalStateRow>)
        requires
            old(self).wf(),
        ensures
            final(self).wf(),
            final(self).view().global == old(self).view().global.union_prefer_right(
                global_map(rows@.map_values(|x: GlobalStateRow| x@)),
            ),
            final(self).view().leaf == old(self).view().leaf,
            final(self).table_change_sets == old(self).table_change_sets,
            final(self).transactions == old(self).transactions,
            final(self).events == old(self).events,
    {
        let ghost incoming = rows@.map_values(|x: GlobalStateRow| x@);
        let ghost start = self.view().global;
        let mut rows = rows;
        let ghost mut c: int = 0;
        assert(incoming.take(0) =~= Seq::<GlobalRowView>::empty());
        assert(start.union_prefer_right(Map::empty()) =~= start);
        while rows.len() > 0
            invariant
                0 <= c <= incoming.len(),
                rows@.map_values(|x: GlobalStateRow| x@) == incoming.skip(c),
                self.wf(),
                self.view().global == start.union_prefer_right(global_map(incoming.take(c))),
                self.view().leaf == old(self).view().leaf,
                self.table_change_sets == old(self).table_change_sets,
                self.transactions == old(self).transactions,
                self.events == old(self).events,
            decreases rows@.len(),
        {
            proof {
                assert(incoming.skip(c).len() == rows@.len());
                assert(rows@.map_values(|x: GlobalStateRow| x@)[0] == rows@[0]@);
                assert(incoming[c] == incoming.skip(c)[0]);
            }
            let row = rows.remove(0);
            let ghost m_old = self.view().global;
            let mut current: Vec<GlobalStateRow> = Vec::new();
            std::mem::swap(&mut current, &mut self.global_states);
            assert(global_map(current@.map_values(|x: GlobalStateRow| x@)) == m_old);
            proof {
                lemma_global_keys(current@.map_values(|x: GlobalStateRow| x@));
            }
            let ids = vec![row.object_id.clone()];
            let ghost id = row@.object_id;
            let ghost keep = |x: GlobalRowView| x.object_id != id;
            proof {
                assert(texts(ids@) =~= seq![id]);
                assert forall|x: GlobalRowView| #[trigger] keep(x) == !texts(ids@).contains(
                    x.object_id,
                ) by {
                    if x.object_id == id {
                        assert(texts(ids@)[0] == id);
                    }
                }
            }
            let mut kept = retain_global(current, &ids, Ghost(keep));
            let ghost pre = kept@.map_values(|x: GlobalStateRow| x@);
            let ghost before = global_map(pre);
            proof {
                lemma_global_in_dom(pre);
                lemma_global_keys(pre);
            }
            kept.push(row);
            self.global_states = kept;
            proof {
                let nv = self.global_states@.map_values(|x: GlobalStateRow| x@);
                let kv = nv.drop_last();
                assert(kv =~= pre);
                assert(!before.contains_key(id));
                assert(nv[nv.len() - 1].object_id == id);
                assert forall|i: int, j: int|
                    0 <= i < nv.len() && 0 <= j < nv.len() && i != j implies nv[i].object_id
                    != nv[j].object_id by {
                    if i < kv.len() && j < kv.len() {
                        assert(nv[i] == kv[i] && nv[j] == kv[j]);
                    } else if i < kv.len() {
                        assert(nv[i] == kv[i]);
                        assert(global_map(kv).contains_key(kv[i].object_id));
                    } else {
                        assert(nv[j] == kv[j]);
                        assert(global_map(kv).contains_key(kv[j].object_id));
                    }
                }
                assert(global_map(nv) == before.insert(id, row@));
                assert forall|k: Seq<char>| k != id && #[trigger] m_old.contains_key(k) implies before.contains_key(k) by {
                    assert(keep(m_old[k]));
                }
                assert(before.insert(id, row@) =~= m_old.insert(id, row@));
                assert(incoming.take(c + 1) =~= incoming.take(c).push(row@));
                lemma_union_push_global(start, incoming.take(c), row@);
                assert(global_map(nv) =~= start.union_prefer_right(
                    global_map(incoming.take(c + 1)),
                ));
                assert(incoming.skip(c).skip(1) =~= incoming.skip(c + 1));
                c = c + 1;
            }
        }
        assert(incoming.take(c) =~= incoming);
    }

    /// Writes `rows` in order; a row replaces the stored row with the same id.
    pub fn persist_or_update_leaf_states(&mut self, rows: Vec<LeafStateRow>)
        requires
            old(self).wf(),
        ensures
            final(self).wf(),
            final(self).view().leaf == old(self).view().leaf.union_prefer_right(
                leaf_map(rows@.map_values(|x: LeafStateRow| x@)),
            ),
            final(self).view().global == old(self).view().global,
            final(self).table_change_sets == old(self).table_change_sets,
            final(self).transactions == old(self).transactions,
            final(self).events == old(self).events,
    {
        let ghost incoming = rows@.map_values(|x: LeafStateRow| x@);
        let ghost start = self.view().leaf;
        let mut rows = rows;
        let ghost mut c: int = 0;
        assert(incoming.take(0) =~= Seq::<LeafRowView>::empty());
        assert(start.union_prefer_right(Map::empty()) =~= start);
        while rows.len() > 0
            invariant
                0 <= c <= incoming.len(),
                rows@.map_values(|x: LeafStateRow| x@) == incoming.skip(c),
                self.wf(),
                self.view().leaf == start.union_prefer_right(leaf_map(incoming.take(c))),
                self.view().global == old(self).view().global,
                self.table_change_sets == old(self).table_change_sets,
                self.transactions == old(self).transactions,
                self.events == old(self).events,
            decreases rows@.len(),
        {
            proof {
                assert(incoming.skip(c).len() == rows@.len());
                assert(rows@.map_values(|x: LeafStateRow| x@)[0] == rows@[0]@);
                assert(incoming[c] == incoming.skip(c)[0]);
            }
            let row = rows.remove(0);
            let ghost m_old = self.view().leaf;
            let mut current: Vec<LeafStateRow> = Vec::new();
            std::mem::swap(&mut current, &mut self.leaf_states);
            assert(leaf_map(current@.map_values(|x: LeafStateRow| x@)) == m_old);
            proof {
                lemma_leaf_keys(current@.map_values(|x: LeafStateRow| x@));
            }
            let ids = vec![row.id.clone()];
            let ghost id = row@.id;
            let ghost keep = |x: LeafRowView| x.id != id;
            proof {
                assert(texts(ids@) =~= seq![id]);
                assert forall|x: LeafRowView| #[trigger] keep(x) == !texts(ids@).contains(
                    x.id,
                ) by {
                    if x.id == id {
                        assert(texts(ids@)[0] == id);
                    }
                }
            }
            let mut kept = retain_leaf(current, &ids, false, Ghost(keep));
            let ghost pre = kept@.map_values(|x: LeafStateRow| x@);
            let ghost before = leaf_map(pre);
            proof {
                lemma_leaf_in_dom(pre);
                lemma_leaf_keys(pre);
            }
            kept.push(row);
            self.leaf_states = kept;
            proof {
                let nv = self.leaf_states@.map_values(|x: LeafStateRow| x@);
                let kv = nv.drop_last();
                assert(kv =~= pre);
                assert(!before.contains_key(id));
                assert(nv[nv.len() - 1].id == id);
                assert forall|i: int, j: int|
                    0 <= i < nv.len() && 0 <= j < nv.len() && i != j implies nv[i].id
                    != nv[j].id by {
                    if i < kv.len() && j < kv.len() {
                        assert(nv[i] == kv[i] && nv[j] == kv[j]);
                    } else if i < kv.len() {
                        assert(nv[i] == kv[i]);
                        assert(leaf_map(kv).contains_key(kv[i].id));
                    } else {
                        assert(nv[j] == kv[j]);
                        assert(leaf_map(kv).contains_key(kv[j].id));
                    }
                }
                assert(leaf_map(nv) == before.insert(id, row@));
                assert forall|k: Seq<char>| k != id && #[trigger] m_old.contains_key(k) implies before.contains_key(k) by {
                    assert(keep(m_old[k]));
                }
                assert(before.insert(id, row@) =~= m_old.insert(id, row@));
                assert(incoming.take(c + 1) =~= incoming.take(c).push(row@));
                lemma_union_push_leaf(start, incoming.take(c), row@);
                assert(leaf_map(nv) =~= start.union_prefer_right(
                    leaf_map(incoming.take(c + 1)),
                ));
                assert(incoming.skip(c).skip(1) =~= incoming.skip(c + 1));
                c = c + 1;
            }
        }
        assert(incoming.take(c) =~= incoming);
    }

    /// Removes the global rows with the given ids; ids with no row are skipped.
    pub fn delete_global_states(&mut self, ids: &Vec<String>)
        requires
            old(self).wf(),
        ensures
            final(self).wf(),
            final(self).view().global == old(self).view().global.remove_keys(texts(ids@).to_set()),
            final(self).view().leaf == old(self).view().leaf,
            final(self).table_change_sets == old(self).table_change_sets,
            final(self).transactions == old(self).transactions,
            final(self).events == old(self).events,
    {
        let ghost m_old = self.view().global;
        let mut current: Vec<GlobalStateRow> = Vec::new();
        std::mem::swap(&mut current, &mut self.global_states);
        let ghost keep = |x: GlobalRowView| !texts(ids@).contains(x.object_id);
        proof {
            lemma_global_keys(current@.map_values(|x: GlobalStateRow| x@));
        }
        self.global_states = retain_global(current, ids, Ghost(keep));
        assert(self.view().global =~= m_old.remove_keys(texts(ids@).to_set()));
    }

    /// Removes the leaf rows with the given ids; ids with no row are skipped.
    pub fn delete_leaf_states(&mut self, ids: &Vec<String>)
        requires
            old(self).wf(),
        ensures
            final(self).wf(),
            final(self).view().leaf == old(self).view().leaf.remove_keys(texts(ids@).to_set()),
            final(self).view().global == old(self).view().global,
            final(self).table_change_sets == old(self).table_change_sets,
            final(self).transactions == old(self).transactions,
            final(self).events == old(self).events,
    {
        let ghost m_old = self.view().leaf;
        let mut current: Vec<LeafStateRow> = Vec::new();
        std::mem::swap(&mut current, &mut self.leaf_states);
        let ghost keep = |x: LeafRowView| !texts(ids@).contains(x.id);
        proof {
            lemma_leaf_keys(current@.map_values(|x: LeafStateRow| x@));
        }
        self.leaf_states = retain_leaf(current, ids, false, Ghost(keep));
        assert(self.view().leaf =~= m_old.remove_keys(texts(ids@).to_set()));
    }

    /// Removes every leaf row whose table is one of `handles`.
    pub fn delete_leaf_states_by_table_handle(&mut self, handles: &Vec<String>)
        requires
            old(self).wf(),
        ensures
            final(self).wf(),
            final(self).view().leaf == without_tables(old(self).view().leaf, texts(handles@).to_set()),
            final(self).view().global == old(self).view().global,
            final(self).table_change_sets == old(self).table_change_sets,
            final(self).transactions == old(self).transactions,
            final(self).events == old(self).events,
    {
        let ghost m_old = self.view().leaf;
        let mut current: Vec<LeafStateRow> = Vec::new();
        std::mem::swap(&mut current, &mut self.leaf_states);
        let ghost keep = |x: LeafRowView| !texts(handles@).contains(x.table_handle);
        self.leaf_states = retain_leaf(current, handles, true, Ghost(keep));
        assert(self.view().leaf =~= without_tables(m_old, texts(handles@).to_set()));
    }

    /// Writes one change set's batches in the fixed order: global upserts,
    /// global deletes, leaf upserts, leaf deletes, then the cascade by table.
    pub fn apply(&mut self, b: IndexBatches)
        requires
            old(self).wf(),
        ensures
            final(self).wf(),
            final(self).view() == apply_spec(old(self).view(), b@),
            final(self).table_change_sets == old(self).table_change_sets,
            final(self).transactions == old(self).transactions,
            final(self).events == old(self).events,
    {
        let ghost bv = b@;
        let IndexBatches {
            global_upserts,
            global_removals,
            leaf_upserts,
            leaf_removals,
            removed_table_handles,
        } = b;
        self.persist_or_update_global_states(global_upserts);
        self.delete_global_states(&global_removals);
        self.persist_or_update_leaf_states(leaf_upserts);
        self.delete_leaf_states(&leaf_removals);
        self.delete_leaf_states_by_table_handle(&removed_table_handles);
    }
}

} // verus!

verus! {

impl MemoryStore {
    /// Writes the state-sync records of transaction `tx_order`, replacing any
    /// written for it before.
    pub fn persist_table_change_sets(&mut self, tx_order: u64, rows: Vec<TableChangeSetRow>)
        requires
            old(self).wf(),
            rows_of_tx(rows@, tx_order),
        ensures
            final(self).wf(),
            final(self).view() == old(self).view(),
            final(self).table_change_sets@ == replace_tx(old(self).table_change_sets@, tx_order, rows@),
            final(self).transactions == old(self).transactions,
            final(self).events == old(self).events,
    {
        let mut log: Vec<TableChangeSetRow> = Vec::new();
        std::mem::swap(&mut log, &mut self.table_change_sets);
        self.table_change_sets = write_tx(log, tx_order, rows);
    }

    /// Writes the row of transaction `row.tx_order`, replacing any written for it before.
    pub fn persist_transactions(&mut self, rows: Vec<TransactionRow>, tx_order: u64)
        requires
            old(self).wf(),
            rows_of_tx(rows@, tx_order),
        ensures
            final(self).wf(),
            final(self).view() == old(self).view(),
            final(self).transactions@ == replace_tx(old(self).transactions@, tx_order, rows@),
            final(self).table_change_sets == old(self).table_change_sets,
            final(self).events == old(self).events,
    {
        let mut log: Vec<TransactionRow> = Vec::new();
        std::mem::swap(&mut log, &mut self.transactions);
        self.transactions = write_tx(log, tx_order, rows);
    }

    /// Writes the events of transaction `tx_order`, replacing any written for it before.
    pub fn persist_events(&mut self, rows: Vec<EventRow>, tx_order: u64)
        requires
            old(self).wf(),
            rows_of_tx(rows@, tx_order),
        ensures
            final(self).wf(),
            final(self).view() == old(self).view(),
            final(self).events@ == replace_tx(old(self).events@, tx_order, rows@),
            final(self).table_change_sets == old(self).table_change_sets,
            final(self).transactions == old(self).transactions,
    {
        let mut log: Vec<EventRow> = Vec::new();
        std::mem::swap(&mut log, &mut self.events);
        self.events = write_tx(log, tx_order, rows);
    }
}

} // verus!

verus! {

/// The live state of a store is finite in both families.
pub proof fn lemma_store_finite(global_rows: Seq<GlobalRowView>, leaf_rows: Seq<LeafRowView>)
    ensures
        global_map(global_rows).dom().finite(),
        leaf_map(leaf_rows).dom().finite(),
    decreases global_rows.len() + leaf_rows.len(),
{
    if global_rows.len() > 0 {
        lemma_store_finite(global_rows.drop_last(), leaf_rows);
    }
    if leaf_rows.len() > 0 {
        lemma_store_finite(global_rows, leaf_rows.drop_last());
    }
}

} // verus!
