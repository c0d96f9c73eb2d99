use crate::changeset::{is_global_handle, kind_of, IndexError, Op, StateChangeSet, ValueKind};
use crate::keyhash::prefixed_hex;
use crate::materialize::{
    materialize_spec, new_globals, new_leaves, outcome_of, outcomes, removed_globals,
    removed_leaves, updated_globals, updated_leaves, BatchesView, Outcome,
};
use crate::store::{apply_spec, StoreModel};
use vstd::prelude::*;

verus! {

/// For every table removed by a change set: after its batches are written,
/// the table's root object is gone from global state and no leaf row of the
/// table remains, whatever the change set did to the table's entries.
pub proof fn lemma_removed_tables_cascade(
    s: StoreModel,
    cs: StateChangeSet,
    resolved: Seq<Option<String>>,
    h: int,
)
    requires
        materialize_spec(cs, resolved) is Ok,
        0 <= h < cs.removed_tables@.len(),
    ensures
        ({
            let after = apply_spec(s, materialize_spec(cs, resolved)->Ok_0);
            let text = prefixed_hex(cs.removed_tables@[h]@);
            &&& !after.global.contains_key(text)
            &&& forall|k: Seq<char>| #[trigger]
                after.leaf.contains_key(k) ==> after.leaf[k].table_handle != text
        }),
{
    let b = materialize_spec(cs, resolved)->Ok_0;
    let text = prefixed_hex(cs.removed_tables@[h]@);
    let os = outcomes(cs.changes@, resolved, cs.new_tables@, cs.changes@.len())->Ok_0;
    let rem = removed_globals(os);
    let ht = cs.removed_tables@.map_values(|x: crate::changeset::ObjectId| prefixed_hex(x@));
    assert(b.removed_table_handles == ht);
    assert(ht[h] == text);
    assert(b.global_removals == rem + ht);
    assert(b.global_removals[rem.len() + h] == text);
    assert(b.global_removals.to_set().contains(text));
    assert(b.removed_table_handles.to_set().contains(text));
}

/// Writing the same batches twice in a row leaves the store as writing them once.
pub proof fn lemma_apply_idempotent(s: StoreModel, b: BatchesView)
    ensures
        apply_spec(apply_spec(s, b), b) == apply_spec(s, b),
{
    let once = apply_spec(s, b);
    let twice = apply_spec(once, b);
    assert(twice.global =~= once.global);
    let hs = b.removed_table_handles.to_set();
    let l1 = s.leaf.union_prefer_right(crate::store::leaf_map(b.leaf_upserts)).remove_keys(
        b.leaf_removals.to_set(),
    );
    let l2 = once.leaf.union_prefer_right(crate::store::leaf_map(b.leaf_upserts)).remove_keys(
        b.leaf_removals.to_set(),
    );
    assert forall|k: Seq<char>| #[trigger] l2.contains_key(k) && !hs.contains(l2[k].table_handle)
        implies l1.contains_key(k) && !hs.contains(l1[k].table_handle) && l1[k] == l2[k] by {}
    assert forall|k: Seq<char>| #[trigger] l1.contains_key(k) && !hs.contains(l1[k].table_handle)
        implies l2.contains_key(k) && l1[k] == l2[k] by {
        if !crate::store::leaf_map(b.leaf_upserts).contains_key(k) {
            assert(once.leaf.contains_key(k));
        }
    }
    assert(twice.leaf =~= once.leaf);
}

/// Replaying a change set right after it was applied changes nothing.
pub proof fn lemma_replay_idempotent(s: StoreModel, cs: StateChangeSet, resolved: Seq<Option<String>>)
    requires
        materialize_spec(cs, resolved) is Ok,
    ensures
        ({
            let b = materialize_spec(cs, resolved)->Ok_0;
            apply_spec(apply_spec(s, b), b) == apply_spec(s, b)
        }),
{
    lemma_apply_idempotent(s, materialize_spec(cs, resolved)->Ok_0);
}

} // verus!

verus! {

/// Number of entries that produce no row.
pub open spec fn ignored_count(os: Seq<Outcome>) -> nat
    decreases os.len(),
{
    if os.len() == 0 {
        0
    } else {
        ignored_count(os.drop_last()) + if os.last() is Ignored {
            1nat
        } else {
            0nat
        }
    }
}

/// The single outcome that an entry's table, operation and value type call for.
pub open spec fn outcome_fits(c: crate::changeset::StateChange, o: Outcome) -> bool {
    if is_global_handle(c.handle@) {
        match c.op {
            Op::Delete => o is RemoveGlobal,
            Op::New(v) => if kind_of(v.value_type@) == ValueKind::LeafValue {
                o is Ignored
            } else {
                o is NewGlobal
            },
            Op::Modify(v) => if kind_of(v.value_type@) == ValueKind::LeafValue {
                o is Ignored
            } else {
                o is UpdateGlobal
            },
        }
    } else {
        match c.op {
            Op::Delete => o is RemoveLeaf,
            Op::New(_) => o is NewLeaf,
            Op::Modify(_) => o is UpdateLeaf,
        }
    }
}

proof fn lemma_outcomes_pointwise(
    changes: Seq<crate::changeset::StateChange>,
    resolved: Seq<Option<String>>,
    tables: Seq<crate::changeset::NewTable>,
    n: nat,
)
    requires
        outcomes(changes, resolved, tables, n) is Ok,
    ensures
        outcomes(changes, resolved, tables, n)->Ok_0.len() == n,
        forall|i: int|
            0 <= i < n ==> outcome_of(changes[i], resolved[i], tables) == Ok::<Outcome, IndexError>(
                #[trigger] outcomes(changes, resolved, tables, n)->Ok_0[i],
            ),
    decreases n,
{
    if n > 0 {
        lemma_outcomes_pointwise(changes, resolved, tables, (n - 1) as nat);
        let prev = outcomes(changes, resolved, tables, (n - 1) as nat)->Ok_0;
        let os = outcomes(changes, resolved, tables, n)->Ok_0;
        assert forall|i: int| 0 <= i < n implies outcome_of(changes[i], resolved[i], tables)
            == Ok::<Outcome, IndexError>(#[trigger] os[i]) by {
            if i < n - 1 {
                assert(os[i] == prev[i]);
            }
        }
    }
}

proof fn lemma_outcome_counts(os: Seq<Outcome>)
    ensures
        new_globals(os).len() + updated_globals(os).len() + removed_globals(os).len()
            + new_leaves(os).len() + updated_leaves(os).len() + removed_leaves(os).len()
            + ignored_count(os) == os.len(),
    decreases os.len(),
{
    if os.len() > 0 {
        lemma_outcome_counts(os.drop_last());
    }
}

/// Every entry of an indexed change set gets exactly the outcome its table,
/// operation and value type call for, and each outcome lands in exactly one
/// batch: the six batch lists and the ignored entries together account for
/// every entry.
pub proof fn lemma_every_entry_classified(cs: StateChangeSet, resolved: Seq<Option<String>>)
    requires
        materialize_spec(cs, resolved) is Ok,
    ensures
        ({
            let os = outcomes(cs.changes@, resolved, cs.new_tables@, cs.changes@.len())->Ok_0;
            &&& os.len() == cs.changes@.len()
            &&& forall|i: int|
                0 <= i < os.len() ==> outcome_fits(cs.changes@[i], #[trigger] os[i])
            &&& new_globals(os).len() + updated_globals(os).len() + removed_globals(os).len()
                + new_leaves(os).len() + updated_leaves(os).len() + removed_leaves(os).len()
                + ignored_count(os) == cs.changes@.len()
        }),
{
    let n = cs.changes@.len();
    let os = outcomes(cs.changes@, resolved, cs.new_tables@, n)->Ok_0;
    lemma_outcomes_pointwise(cs.changes@, resolved, cs.new_tables@, n);
    lemma_outcome_counts(os);
    assert forall|i: int| 0 <= i < os.len() implies outcome_fits(cs.changes@[i], #[trigger] os[i]) by {
        assert(outcome_of(cs.changes@[i], resolved[i], cs.new_tables@) == Ok::<Outcome, IndexError>(os[i]));
    }
}

} // verus!

verus! {

/// Object ids of a sequence of global rows.
pub open spec fn row_ids(rows: Seq<crate::materialize::GlobalRowView>) -> Seq<Seq<char>> {
    rows.map_values(|r: crate::materialize::GlobalRowView| r.object_id)
}

/// With `k` creations of ids not yet stored, updates of stored ids, and `d`
/// deletions of distinct stored ids that no creation or update touches, and no
/// removed table, the number of live global rows grows by exactly `k - d`.
pub proof fn lemma_global_row_count(s: StoreModel, cs: StateChangeSet, resolved: Seq<Option<String>>)
    requires
        materialize_spec(cs, resolved) is Ok,
        s.global.dom().finite(),
        cs.removed_tables@.len() == 0,
        ({
            let os = outcomes(cs.changes@, resolved, cs.new_tables@, cs.changes@.len())->Ok_0;
            let news = row_ids(new_globals(os));
            let ups = row_ids(updated_globals(os));
            let dels = removed_globals(os);
            &&& news.no_duplicates()
            &&& forall|i: int| 0 <= i < news.len() ==> !s.global.contains_key(#[trigger] news[i])
            &&& forall|i: int| 0 <= i < ups.len() ==> s.global.contains_key(#[trigger] ups[i])
            &&& dels.no_duplicates()
            &&& forall|i: int| 0 <= i < dels.len() ==> s.global.contains_key(#[trigger] dels[i])
            &&& forall|i: int| 0 <= i < dels.len() ==> !news.contains(#[trigger] dels[i])
                && !ups.contains(dels[i])
        }),
    ensures
        ({
            let os = outcomes(cs.changes@, resolved, cs.new_tables@, cs.changes@.len())->Ok_0;
            apply_spec(s, materialize_spec(cs, resolved)->Ok_0).global.len() == s.global.len()
                + new_globals(os).len() - removed_globals(os).len()
        }),
{
    let os = outcomes(cs.changes@, resolved, cs.new_tables@, cs.changes@.len())->Ok_0;
    let b = materialize_spec(cs, resolved)->Ok_0;
    let rows = new_globals(os) + updated_globals(os);
    let news = row_ids(new_globals(os));
    let ups = row_ids(updated_globals(os));
    let dels = removed_globals(os);
    let u = crate::store::global_map(rows);
    crate::store::lemma_global_in_dom(rows);
    let g1 = s.global.union_prefer_right(u);
    let n_set = news.to_set();
    assert forall|k: Seq<char>| #[trigger] g1.dom().contains(k) <==> (s.global.dom() + n_set).contains(k) by {
        if u.contains_key(k) && !s.global.contains_key(k) {
            crate::store::lemma_global_dom_from(rows, k);
            let i = choose|i: int| 0 <= i < rows.len() && rows[i].object_id == k;
            if i < new_globals(os).len() {
                assert(news[i] == k);
            } else {
                assert(ups[i - new_globals(os).len()] == k);
            }
        }
        if n_set.contains(k) {
            let i = choose|i: int| 0 <= i < news.len() && news[i] == k;
            assert(rows[i].object_id == k);
        }
    }
    assert(g1.dom() =~= s.global.dom() + n_set);
    news.unique_seq_to_set();
    assert(s.global.dom().disjoint(n_set)) by {
        assert forall|k: Seq<char>| s.global.dom().contains(k) implies !n_set.contains(k) by {
            if n_set.contains(k) {
                let i = choose|i: int| 0 <= i < news.len() && news[i] == k;
            }
        }
    }
    vstd::set_lib::lemma_set_disjoint_lens(s.global.dom(), n_set);
    assert(b.global_removals =~= dels);
    let d_set = dels.to_set();
    dels.unique_seq_to_set();
    assert(g1.dom().intersect(d_set) =~= d_set) by {
        assert forall|k: Seq<char>| d_set.contains(k) implies g1.dom().contains(k) by {
            let i = choose|i: int| 0 <= i < dels.len() && dels[i] == k;
        }
    }
    vstd::set_lib::lemma_set_difference_len(g1.dom(), d_set);
    let g2 = g1.remove_keys(d_set);
    assert(g2.dom() =~= g1.dom().difference(d_set));
}

} // verus!

