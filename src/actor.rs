use crate::changelog::{group_handles, log_row_fits, split_change_set, TableChangeSetRow};
use crate::changeset::{IndexError, StateChangeSet};
use crate::materialize::{materialize, materialize_spec};
use crate::projector::{
    event_row_fits, project_events, project_transaction, EventData, EventRow, ExecutionInfo,
    TransactionRow, TxContext,
};
use crate::query::{key_lt, log_sorted, page, query_log_rows, row_key, LogRow};
use crate::store::{apply_spec, MemoryStore};
use crate::txlog::{lemma_older_prefix_len, older_prefix, other_txs};
use vstd::prelude::*;

verus! {

/// Handles the indexing messages of one shard, one at a time, against its store.
#[derive(Debug)]
pub struct IndexerActor {
    pub indexer_store: MemoryStore,
}

impl IndexerActor {
    pub fn new(indexer_store: MemoryStore) -> (r: IndexerActor)
        ensures
            r.indexer_store == indexer_store,
    {
        IndexerActor { indexer_store }
    }

    /// Indexes one change set of transaction `tx_order`: writes its live-state
    /// batches in the fixed order, then its records of the state-sync log. On
    /// an error nothing is written.
    ///
    /// `resolved[i]` is the JSON that the value of `cs.changes[i]` resolved to,
    /// or `None` where resolution failed.
    pub fn handle_states(
        &mut self,
        tx_order: u64,
        cs: &StateChangeSet,
        resolved: &Vec<Option<String>>,
    ) -> (r: Result<(), IndexError>)
        requires
            old(self).indexer_store.wf(),
            resolved@.len() == cs.changes@.len(),
        ensures
            final(self).indexer_store.wf(),
            r is Ok <==> materialize_spec(*cs, resolved@) is Ok,
            r is Err ==> r->Err_0 == materialize_spec(*cs, resolved@)->Err_0 && final(self).indexer_store
                == old(self).indexer_store,
            r is Ok ==> final(self).indexer_store.view() == apply_spec(
                old(self).indexer_store.view(),
                materialize_spec(*cs, resolved@)->Ok_0,
            ),
            r is Ok ==> ({
                let log = final(self).indexer_store.table_change_sets@;
                let o = other_txs(old(self).indexer_store.table_change_sets@, tx_order);
                let p = older_prefix(o, tx_order) as int;
                let n = group_handles(*cs).len() as int;
                &&& log.len() == o.len() + n
                &&& log.take(p) == o.take(p)
                &&& log.skip(p + n) == o.skip(p)
                &&& forall|g: int| 0 <= g < n ==> log_row_fits(#[trigger] log[p + g], tx_order, g, *cs)
            }),
            final(self).indexer_store.transactions == old(self).indexer_store.transactions,
            final(self).indexer_store.events == old(self).indexer_store.events,
    {
        match materialize(cs, resolved) {
            Err(e) => Err(e),
            Ok(b) => {
                self.indexer_store.apply(b);
                let rows = split_change_set(tx_order, cs);
                let ghost old_log = self.indexer_store.table_change_sets@;
                proof {
                    assert forall|i: int, j: int| 0 <= i < j < rows@.len() implies key_lt(
                        row_key(rows@[i]),
                        row_key(rows@[j]),
                    ) by {
                        assert(log_row_fits(rows@[i], tx_order, i, *cs));
                        assert(log_row_fits(rows@[j], tx_order, j, *cs));
                    }
                    assert forall|i: int| 0 <= i < rows@.len() implies row_key(#[trigger] rows@[i]).0 == tx_order by {
                        assert(log_row_fits(rows@[i], tx_order, i, *cs));
                    }
                }
                let ghost rv = rows@;
                self.indexer_store.persist_table_change_sets(tx_order, rows);
                proof {
                    let log = self.indexer_store.table_change_sets@;
                    let o = other_txs(old_log, tx_order);
                    let p = older_prefix(o, tx_order) as int;
                    let n = rv.len() as int;
                    lemma_older_prefix_len(o, tx_order);
                    assert(log.take(p) =~= o.take(p));
                    assert(log.skip(p + n) =~= o.skip(p));
                    assert forall|g: int| 0 <= g < n implies log_row_fits(#[trigger] log[p + g], tx_order, g, *cs) by {
                        assert(log[p + g] == rv[g]);
                    }
                }
                Ok(())
            },
        }
    }

    /// Copies of at most `limit` state-sync log records of `table` (or of every
    /// table), strictly beyond `cursor` in the requested direction.
    pub fn sync_states(
        &self,
        table: &Option<String>,
        cursor: Option<(u64, u64)>,
        limit: usize,
        descending_order: bool,
    ) -> (r: Vec<TableChangeSetRow>)
        ensures
            r@.len() == page(self.indexer_store.table_change_sets@, *table, cursor, limit as nat, descending_order).len(),
            forall|k: int| 0 <= k < r@.len() ==> {
                &&& row_key(#[trigger] r@[k]) == page(self.indexer_store.table_change_sets@, *table, cursor, limit as nat, descending_order)[k]
                &&& exists|j: int| 0 <= j < self.indexer_store.table_change_sets@.len() && r@[k].same_content(self.indexer_store.table_change_sets@[j])
            },
    {
        query_log_rows(&self.indexer_store.table_change_sets, table, cursor, limit, descending_order)
    }

    /// Indexes one transaction: one row, written in one batch.
    pub fn handle_transaction(&mut self, ctx: &TxContext, info: &ExecutionInfo, payload: &Vec<u8>)
        requires
            old(self).indexer_store.wf(),
        ensures
            final(self).indexer_store.wf(),
            final(self).indexer_store.view() == old(self).indexer_store.view(),
            final(self).indexer_store.table_change_sets == old(self).indexer_store.table_change_sets,
            final(self).indexer_store.events == old(self).indexer_store.events,
            ({
                let log = final(self).indexer_store.transactions@;
                let o = other_txs(old(self).indexer_store.transactions@, ctx.tx_order);
                let p = older_prefix(o, ctx.tx_order) as int;
                &&& log.len() == o.len() + 1
                &&& log.take(p) == o.take(p)
                &&& log.skip(p + 1) == o.skip(p)
                &&& log[p].tx_order == ctx.tx_order
                &&& log[p].tx_hash@ == ctx.tx_hash@
                &&& log[p].sender@ == ctx.sender@
                &&& log[p].created_at == ctx.created_at
                &&& log[p].status@ == info.status@
                &&& log[p].gas_used == info.gas_used
                &&& log[p].state_root@ == info.state_root@
                &&& log[p].payload@ == payload@
            }),
    {
        let row = project_transaction(ctx, info, payload);
        let ghost old_log = self.indexer_store.transactions@;
        let ghost rv = seq![row];
        let rows = vec![row];
        assert(rows@ =~= rv);
        self.indexer_store.persist_transactions(rows, ctx.tx_order);
        proof {
            let log = self.indexer_store.transactions@;
            let o = other_txs(old_log, ctx.tx_order);
            let p = older_prefix(o, ctx.tx_order) as int;
            lemma_older_prefix_len(o, ctx.tx_order);
            assert(log.take(p) =~= o.take(p));
            assert(log.skip(p + 1) =~= o.skip(p));
            assert(log[p] == rv[0]);
        }
    }

    /// Indexes the events of one transaction: one row each, in emission
    /// order, written in one batch.
    pub fn handle_events(&mut self, ctx: &TxContext, events: &Vec<EventData>)
        requires
            old(self).indexer_store.wf(),
        ensures
            final(self).indexer_store.wf(),
            final(self).indexer_store.view() == old(self).indexer_store.view(),
            final(self).indexer_store.table_change_sets == old(self).indexer_store.table_change_sets,
            final(self).indexer_store.transactions == old(self).indexer_store.transactions,
            ({
                let log = final(self).indexer_store.events@;
                let o = other_txs(old(self).indexer_store.events@, ctx.tx_order);
                let p = older_prefix(o, ctx.tx_order) as int;
                let n = events@.len() as int;
                &&& log.len() == o.len() + n
                &&& log.take(p) == o.take(p)
                &&& log.skip(p + n) == o.skip(p)
                &&& forall|i: int| 0 <= i < n ==> event_row_fits(#[trigger] log[p + i], *ctx, events@[i], i)
            }),
    {
        let rows = project_events(ctx, events);
        let ghost old_log = self.indexer_store.events@;
        let ghost rv = rows@;
        proof {
            assert forall|i: int, j: int| 0 <= i < j < rv.len() implies key_lt(
                row_key(rv[i]),
                row_key(rv[j]),
            ) by {
                assert(event_row_fits(rv[i], *ctx, events@[i], i));
                assert(event_row_fits(rv[j], *ctx, events@[j], j));
            }
            assert forall|i: int| 0 <= i < rv.len() implies row_key(#[trigger] rv[i]).0 == ctx.tx_order by {
                assert(event_row_fits(rv[i], *ctx, events@[i], i));
            }
        }
        self.indexer_store.persist_events(rows, ctx.tx_order);
        proof {
            let log = self.indexer_store.events@;
            let o = other_txs(old_log, ctx.tx_order);
            let p = older_prefix(o, ctx.tx_order) as int;
            let n = rv.len() as int;
            lemma_older_prefix_len(o, ctx.tx_order);
            assert(log.take(p) =~= o.take(p));
            assert(log.skip(p + n) =~= o.skip(p));
            assert forall|i: int| 0 <= i < n implies event_row_fits(#[trigger] log[p + i], *ctx, events@[i], i) by {
                assert(log[p + i] == rv[i]);
            }
        }
    }

    /// Copies of at most `limit` transactions of `sender` (or of every sender),
    /// strictly beyond `cursor` in the requested direction.
    pub fn query_transactions(
        &self,
        sender: &Option<String>,
        cursor: Option<(u64, u64)>,
        limit: usize,
        descending_order: bool,
    ) -> (r: Vec<TransactionRow>)
        ensures
            r@.len() == page(self.indexer_store.transactions@, *sender, cursor, limit as nat, descending_order).len(),
            forall|k: int| 0 <= k < r@.len() ==> {
                &&& row_key(#[trigger] r@[k]) == page(self.indexer_store.transactions@, *sender, cursor, limit as nat, descending_order)[k]
                &&& exists|j: int| 0 <= j < self.indexer_store.transactions@.len() && r@[k].same_content(self.indexer_store.transactions@[j])
            },
    {
        query_log_rows(&self.indexer_store.transactions, sender, cursor, limit, descending_order)
    }

    /// Copies of at most `limit` events of `event_type` (or of every type),
    /// strictly beyond `cursor` in the requested direction.
    pub fn query_events(
        &self,
        event_type: &Option<String>,
        cursor: Option<(u64, u64)>,
        limit: usize,
        descending_order: bool,
    ) -> (r: Vec<EventRow>)
        ensures
            r@.len() == page(self.indexer_store.events@, *event_type, cursor, limit as nat, descending_order).len(),
            forall|k: int| 0 <= k < r@.len() ==> {
                &&& row_key(#[trigger] r@[k]) == page(self.indexer_store.events@, *event_type, cursor, limit as nat, descending_order)[k]
                &&& exists|j: int| 0 <= j < self.indexer_store.events@.len() && r@[k].same_content(self.indexer_store.events@[j])
            },
    {
        query_log_rows(&self.indexer_store.events, event_type, cursor, limit, descending_order)
    }
}

} // verus!
