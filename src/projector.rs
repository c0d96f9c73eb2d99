use crate::changeset::copy_bytes;
use crate::query::LogRow;
use vstd::prelude::*;

verus! {

/// What a transaction shares with its events: its order, hash, sender and
/// the time it was sequenced.
#[derive(Debug)]
pub struct TxContext {
    pub tx_order: u64,
    pub tx_hash: String,
    pub sender: String,
    pub created_at: u64,
}

/// The outcome of executing a transaction.
#[derive(Debug)]
pub struct ExecutionInfo {
    pub status: String,
    pub gas_used: u64,
    pub state_root: String,
}

/// An event as emitted: its type and its payload.
#[derive(Debug)]
pub struct EventData {
    pub event_type: String,
    pub data: Vec<u8>,
}

/// One indexed transaction.
#[derive(Debug)]
pub struct TransactionRow {
    pub tx_order: u64,
    pub tx_hash: String,
    pub sender: String,
    pub created_at: u64,
    pub status: String,
    pub gas_used: u64,
    pub state_root: String,
    pub payload: Vec<u8>,
}

/// One indexed event: its position in the transaction and the shared context.
#[derive(Debug)]
pub struct EventRow {
    pub tx_order: u64,
    pub event_index: u64,
    pub tx_hash: String,
    pub sender: String,
    pub created_at: u64,
    pub event_type: String,
    pub data: Vec<u8>,
}

impl LogRow for TransactionRow {
    open spec fn key_spec(&self) -> (u64, u64) {
        (self.tx_order, 0)
    }

    /// Transactions are filtered by sender.
    open spec fn passes_spec(&self, filter: Seq<char>) -> bool {
        self.sender@ == filter
    }

    fn key(&self) -> (r: (u64, u64)) {
        (self.tx_order, 0)
    }

    fn passes(&self, filter: &String) -> (r: bool) {
        self.sender == *filter
    }

    open spec fn same_content(&self, other: Self) -> bool {
        &&& self.tx_order == other.tx_order
        &&& self.tx_hash@ == other.tx_hash@
        &&& self.sender@ == other.sender@
        &&& self.created_at == other.created_at
        &&& self.status@ == other.status@
        &&& self.gas_used == other.gas_used
        &&& self.state_root@ == other.state_root@
        &&& self.payload@ == other.payload@
    }

    fn duplicate(&self) -> (r: Self) {
        TransactionRow {
            tx_order: self.tx_order,
            tx_hash: self.tx_hash.clone(),
            sender: self.sender.clone(),
            created_at: self.created_at,
            status: self.status.clone(),
            gas_used: self.gas_used,
            state_root: self.state_root.clone(),
            payload: copy_bytes(&self.payload),
        }
    }
}

impl LogRow for EventRow {
    open spec fn key_spec(&self) -> (u64, u64) {
        (self.tx_order, self.event_index)
    }

    /// Events are filtered by type.
    open spec fn passes_spec(&self, filter: Seq<char>) -> bool {
        self.event_type@ == filter
    }

    fn key(&self) -> (r: (u64, u64)) {
        (self.tx_order, self.event_index)
    }

    fn passes(&self, filter: &String) -> (r: bool) {
        self.event_type == *filter
    }

    open spec fn same_content(&self, other: Self) -> bool {
        &&& self.tx_order == other.tx_order
        &&& self.event_index == other.event_index
        &&& self.tx_hash@ == other.tx_hash@
        &&& self.sender@ == other.sender@
        &&& self.created_at == other.created_at
        &&& self.event_type@ == other.event_type@
        &&& self.data@ == other.data@
    }

    fn duplicate(&self) -> (r: Self) {
        EventRow {
            tx_order: self.tx_order,
            event_index: self.event_index,
            tx_hash: self.tx_hash.clone(),
            sender: self.sender.clone(),
            created_at: self.created_at,
            event_type: self.event_type.clone(),
            data: copy_bytes(&self.data),
        }
    }
}

/// The row of one transaction: its context, its execution outcome and its raw payload.
pub fn project_transaction(ctx: &TxContext, info: &ExecutionInfo, payload: &Vec<u8>) -> (r:
    TransactionRow)
    ensures
        r.tx_order == ctx.tx_order,
        r.tx_hash@ == ctx.tx_hash@,
        r.sender@ == ctx.sender@,
        r.created_at == ctx.created_at,
        r.status@ == info.status@,
        r.gas_used == info.gas_used,
        r.state_root@ == info.state_root@,
        r.payload@ == payload@,
{
    TransactionRow {
        tx_order: ctx.tx_order,
        tx_hash: ctx.tx_hash.clone(),
        sender: ctx.sender.clone(),
        created_at: ctx.created_at,
        status: info.status.clone(),
        gas_used: info.gas_used,
        state_root: info.state_root.clone(),
        payload: copy_bytes(payload),
    }
}

/// Event row `i` is the `i`-th event together with the shared transaction context.
pub open spec fn event_row_fits(r: EventRow, ctx: TxContext, e: EventData, i: int) -> bool {
    &&& r.tx_order == ctx.tx_order
    &&& r.event_index == i
    &&& r.tx_hash@ == ctx.tx_hash@
    &&& r.sender@ == ctx.sender@
    &&& r.created_at == ctx.created_at
    &&& r.event_type@ == e.event_type@
    &&& r.data@ == e.data@
}

/// One row per event, in emission order; an event's index is its position.
pub fn project_events(ctx: &TxContext, events: &Vec<EventData>) -> (r: Vec<EventRow>)
    ensures
        r@.len() == events@.len(),
        forall|i: int| 0 <= i < r@.len() ==> event_row_fits(#[trigger] r@[i], *ctx, events@[i], i),
{
    let mut r: Vec<EventRow> = Vec::new();
    let mut i: usize = 0;
    while i < events.len()
        invariant
            i <= events@.len(),
            r@.len() == i,
            forall|j: int| 0 <= j < i ==> event_row_fits(#[trigger] r@[j], *ctx, events@[j], j),
        decreases events@.len() - i,
    {
        let e = &events[i];
        r.push(
            EventRow {
                tx_order: ctx.tx_order,
                event_index: i as u64,
                tx_hash: ctx.tx_hash.clone(),
                sender: ctx.sender.clone(),
                created_at: ctx.created_at,
                event_type: e.event_type.clone(),
                data: copy_bytes(&e.data),
            },
        );
        i = i + 1;
    }
    r
}

} // verus!
