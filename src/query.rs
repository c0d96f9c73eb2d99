use vstd::prelude::*;

verus! {

/// Position of a log record: transaction order, then index within the transaction.
pub open spec fn key_lt(a: (u64, u64), b: (u64, u64)) -> bool {
    a.0 < b.0 || (a.0 == b.0 && a.1 < b.1)
}

/// A record of an append-only log: a position key, and a filter it may pass.
pub trait LogRow: Sized {
    spec fn key_spec(&self) -> (u64, u64);

    spec fn passes_spec(&self, filter: Seq<char>) -> bool;

    fn key(&self) -> (r: (u64, u64))
        ensures
            r == self.key_spec(),
    ;

    fn passes(&self, filter: &String) -> (r: bool)
        ensures
            r == self.passes_spec(filter@),
    ;

    /// Two records hold the same content.
    spec fn same_content(&self, other: Self) -> bool;

    /// A copy of the record, with the same key.
    fn duplicate(&self) -> (r: Self)
        ensures
            r.same_content(*self),
            r.key_spec() == self.key_spec(),
    ;
}

pub open spec fn row_key<T: LogRow>(r: T) -> (u64, u64) {
    r.key_spec()
}

/// Keys strictly increase along the log.
pub open spec fn log_sorted<T: LogRow>(log: Seq<T>) -> bool {
    forall|i: int, j: int| 0 <= i < j < log.len() ==> key_lt(row_key(log[i]), row_key(log[j]))
}

pub open spec fn keys_sorted(ks: Seq<(u64, u64)>) -> bool {
    forall|i: int, j: int| 0 <= i < j < ks.len() ==> key_lt(ks[i], ks[j])
}

/// A record passes when no filter is given or it passes the given one.
pub open spec fn passes<T: LogRow>(r: T, table: Option<String>) -> bool {
    table is None || r.passes_spec(table->Some_0@)
}

/// Keys of the records that pass the filter, in log order.
pub open spec fn matching_keys<T: LogRow>(log: Seq<T>, table: Option<String>) -> Seq<(u64, u64)>
    decreases log.len(),
{
    if log.len() == 0 {
        Seq::empty()
    } else if passes(log.last(), table) {
        matching_keys(log.drop_last(), table).push(row_key(log.last()))
    } else {
        matching_keys(log.drop_last(), table)
    }
}

/// The keys of `ks` strictly beyond the cursor (all of them without one).
pub open spec fn beyond(ks: Seq<(u64, u64)>, cursor: Option<(u64, u64)>) -> Seq<(u64, u64)>
    decreases ks.len(),
{
    if ks.len() == 0 {
        Seq::empty()
    } else if cursor is None || key_lt(cursor->Some_0, ks.last()) {
        beyond(ks.drop_last(), cursor).push(ks.last())
    } else {
        beyond(ks.drop_last(), cursor)
    }
}

/// Keys of the records that pass the filter and lie strictly before the
/// cursor (all of them without one), from the end of the log backwards.
pub open spec fn before_desc<T: LogRow>(
    log: Seq<T>,
    table: Option<String>,
    cursor: Option<(u64, u64)>,
) -> Seq<(u64, u64)>
    decreases log.len(),
{
    if log.len() == 0 {
        Seq::empty()
    } else if passes(log[0], table) && (cursor is None || key_lt(row_key(log[0]), cursor->Some_0)) {
        before_desc(log.drop_first(), table, cursor).push(row_key(log[0]))
    } else {
        before_desc(log.drop_first(), table, cursor)
    }
}

pub open spec fn at_most(s: Seq<(u64, u64)>, limit: nat) -> Seq<(u64, u64)> {
    if s.len() <= limit {
        s
    } else {
        s.take(limit as int)
    }
}

/// One page of a query: at most `limit` keys strictly beyond the cursor, in
/// ascending order, or descending from the end when `descending` is set.
pub open spec fn page<T: LogRow>(
    log: Seq<T>,
    table: Option<String>,
    cursor: Option<(u64, u64)>,
    limit: nat,
    descending: bool,
) -> Seq<(u64, u64)> {
    if descending {
        at_most(before_desc(log, table, cursor), limit)
    } else {
        at_most(beyond(matching_keys(log, table), cursor), limit)
    }
}

/// `pos` gives, for each key of `keys`, the position in `log` of the record
/// with that key.
pub open spec fn positions_fit<T: LogRow>(log: Seq<T>, keys: Seq<(u64, u64)>, pos: Seq<usize>) -> bool {
    &&& pos.len() == keys.len()
    &&& forall|k: int| 0 <= k < pos.len() ==> #[trigger] pos[k] < log.len() && row_key(log[pos[k] as int]) == keys[k]
}

/// Keys of at most `limit` log records of `table` (or of every table) that
/// come strictly before `cursor`, newest first.
fn query_descending<T: LogRow>(
    log: &Vec<T>,
    table: &Option<String>,
    cursor: Option<(u64, u64)>,
    limit: usize,
) -> (out: (Vec<(u64, u64)>, Vec<usize>))
    ensures
        out.0@ == page(log@, *table, cursor, limit as nat, true),
        positions_fit(log@, out.0@, out.1@),
{
    let mut r: Vec<(u64, u64)> = Vec::new();
    let mut pos: Vec<usize> = Vec::new();
    let mut i: usize = log.len();
    assert(log@.skip(log@.len() as int) =~= Seq::<T>::empty());
    while i > 0
        invariant
            i <= log@.len(),
            positions_fit(log@, r@, pos@),
            r@ == at_most(before_desc(log@.skip(i as int), *table, cursor), limit as nat),
        decreases i,
    {
        i = i - 1;
        let ghost prev = before_desc(log@.skip(i + 1), *table, cursor);
        let row = &log[i];
        let pass = match table {
            None => true,
            Some(t) => row.passes(t),
        };
        let key = row.key();
        let before_cursor = match cursor {
            None => true,
            Some(c) => key.0 < c.0 || (key.0 == c.0 && key.1 < c.1),
        };
        proof {
            assert(log@.skip(i as int).drop_first() =~= log@.skip(i + 1));
            assert(log@.skip(i as int)[0] == log@[i as int]);
        }
        if pass && before_cursor && r.len() < limit {
            r.push(key);
            pos.push(i);
        }
        proof {
            let next = before_desc(log@.skip(i as int), *table, cursor);
            if pass && before_cursor {
                assert(next == prev.push(row_key(log@[i as int])));
                if prev.len() < limit {
                    assert(r@ =~= next);
                } else {
                    assert(next.take(limit as int) =~= prev.take(limit as int));
                }
            } else {
                assert(next == prev);
            }
        }
    }
    assert(log@.skip(0) =~= log@);
    (r, pos)
}

/// Keys of at most `limit` log records of `table` (or of every table) that
/// come strictly after `cursor`, in ascending order.
fn query_ascending<T: LogRow>(
    log: &Vec<T>,
    table: &Option<String>,
    cursor: Option<(u64, u64)>,
    limit: usize,
) -> (out: (Vec<(u64, u64)>, Vec<usize>))
    ensures
        out.0@ == page(log@, *table, cursor, limit as nat, false),
        positions_fit(log@, out.0@, out.1@),
{
    let mut r: Vec<(u64, u64)> = Vec::new();
    let mut pos: Vec<usize> = Vec::new();
    let mut i: usize = 0;
    while i < log.len()
        invariant
            i <= log@.len(),
            positions_fit(log@, r@, pos@),
            r@ == at_most(beyond(matching_keys(log@.take(i as int), *table), cursor), limit as nat),
        decreases log@.len() - i,
    {
        let ghost prev = beyond(matching_keys(log@.take(i as int), *table), cursor);
        let row = &log[i];
        let pass = match table {
            None => true,
            Some(t) => row.passes(t),
        };
        let key = row.key();
        let beyond_cursor = match cursor {
            None => true,
            Some(c) => c.0 < key.0 || (c.0 == key.0 && c.1 < key.1),
        };
        proof {
            assert(log@.take(i + 1).drop_last() =~= log@.take(i as int));
            assert(log@.take(i + 1).last() == log@[i as int]);
        }
        if pass && beyond_cursor && r.len() < limit {
            r.push(key);
            pos.push(i);
        }
        proof {
            let mk0 = matching_keys(log@.take(i as int), *table);
            let mk = matching_keys(log@.take(i + 1), *table);
            let rk = row_key(log@[i as int]);
            assert(pass == passes(log@[i as int], *table));
            assert(beyond_cursor == (cursor is None || key_lt(cursor->Some_0, rk)));
            if pass {
                assert(mk == mk0.push(rk));
                assert(mk.drop_last() =~= mk0);
            } else {
                assert(mk == mk0);
            }
            let next = beyond(mk, cursor);
            if pass && beyond_cursor {
                assert(next == prev.push(row_key(log@[i as int])));
                if prev.len() < limit {
                    assert(r@ =~= next);
                } else {
                    assert(next.take(limit as int) =~= prev.take(limit as int));
                }
            } else {
                assert(next == prev);
            }
        }
        i = i + 1;
    }
    assert(log@.take(i as int) =~= log@);
    (r, pos)
}

/// Keys of at most `limit` log records that pass `filter` (all of them
/// without one) and come strictly beyond `cursor`: ascending, or newest
/// first when `descending` is set.
pub fn query_log<T: LogRow>(
    log: &Vec<T>,
    filter: &Option<String>,
    cursor: Option<(u64, u64)>,
    limit: usize,
    descending: bool,
) -> (r: Vec<(u64, u64)>)
    ensures
        r@ == page(log@, *filter, cursor, limit as nat, descending),
{
    let (keys, _) = if descending {
        query_descending(log, filter, cursor, limit)
    } else {
        query_ascending(log, filter, cursor, limit)
    };
    keys
}

/// Copies of the log records of [`query_log`]'s page, in the page's order.
pub fn query_log_rows<T: LogRow>(
    log: &Vec<T>,
    filter: &Option<String>,
    cursor: Option<(u64, u64)>,
    limit: usize,
    descending: bool,
) -> (r: Vec<T>)
    ensures
        r@.len() == page(log@, *filter, cursor, limit as nat, descending).len(),
        forall|k: int| 0 <= k < r@.len() ==> {
            &&& row_key(#[trigger] r@[k]) == page(log@, *filter, cursor, limit as nat, descending)[k]
            &&& exists|j: int| 0 <= j < log@.len() && r@[k].same_content(log@[j])
        },
{
    let (keys, pos) = if descending {
        query_descending(log, filter, cursor, limit)
    } else {
        query_ascending(log, filter, cursor, limit)
    };
    let mut r: Vec<T> = Vec::new();
    let mut k: usize = 0;
    while k < pos.len()
        invariant
            positions_fit(log@, keys@, pos@),
            k <= pos@.len(),
            r@.len() == k,
            forall|m: int| 0 <= m < k ==> {
                &&& row_key(#[trigger] r@[m]) == keys@[m]
                &&& exists|j: int| 0 <= j < log@.len() && r@[m].same_content(log@[j])
            },
        decreases pos@.len() - k,
    {
        let p = pos[k];
        let row = log[p].duplicate();
        proof {
            assert(row_key(log@[p as int]) == keys@[k as int]);
        }
        r.push(row);
        k = k + 1;
    }
    r
}

proof fn lemma_matching_from_log<T: LogRow>(log: Seq<T>, table: Option<String>)
    ensures
        forall|i: int|
            0 <= i < matching_keys(log, table).len() ==> exists|j: int|
                0 <= j < log.len() && #[trigger] matching_keys(log, table)[i] == row_key(log[j]),
    decreases log.len(),
{
    if log.len() > 0 {
        lemma_matching_from_log(log.drop_last(), table);
        let m = matching_keys(log, table);
        let p = matching_keys(log.drop_last(), table);
        assert forall|i: int| 0 <= i < m.len() implies exists|j: int|
            0 <= j < log.len() && #[trigger] m[i] == row_key(log[j]) by {
            if i < p.len() {
                assert(m[i] == p[i]);
                let j = choose|j: int| 0 <= j < log.drop_last().len() && p[i] == row_key(log.drop_last()[j]);
                assert(log[j] == log.drop_last()[j]);
            } else {
                assert(m[i] == row_key(log[log.len() - 1]));
            }
        }
    }
}

proof fn lemma_matching_sorted<T: LogRow>(log: Seq<T>, table: Option<String>)
    requires
        log_sorted(log),
    ensures
        keys_sorted(matching_keys(log, table)),
    decreases log.len(),
{
    if log.len() > 0 {
        assert(log_sorted(log.drop_last()));
        lemma_matching_sorted(log.drop_last(), table);
        lemma_matching_from_log(log.drop_last(), table);
        let p = matching_keys(log.drop_last(), table);
        assert forall|i: int| 0 <= i < p.len() implies key_lt(p[i], row_key(log.last())) by {
            let j = choose|j: int| 0 <= j < log.drop_last().len() && p[i] == row_key(log.drop_last()[j]);
            assert(log.drop_last()[j] == log[j]);
        }
    }
}

proof fn lemma_beyond_prefix(ks: Seq<(u64, u64)>, c: Option<(u64, u64)>)
    requires
        keys_sorted(ks),
    ensures
        exists|j: int| 0 <= j <= ks.len() && beyond(ks, c) == ks.skip(j),
    decreases ks.len(),
{
    if ks.len() == 0 {
        assert(beyond(ks, c) =~= ks.skip(0));
    } else {
        let p = ks.drop_last();
        assert(keys_sorted(p));
        lemma_beyond_prefix(p, c);
        let j = choose|j: int| 0 <= j <= p.len() && beyond(p, c) == p.skip(j);
        if c is None || key_lt(c->Some_0, ks.last()) {
            assert(beyond(ks, c) =~= ks.skip(j));
        } else {
            // Everything up to the last key is at or before the cursor.
            assert forall|i: int| 0 <= i < p.len() implies !key_lt(c->Some_0, #[trigger] p[i]) by {
                assert(key_lt(ks[i], ks[ks.len() - 1]));
            }
            if j < p.len() {
                assert(beyond(p, c)[0] == p[j]);
                lemma_beyond_member(p, c, 0);
            }
            assert(beyond(ks, c) =~= ks.skip(ks.len() as int));
        }
    }
}

proof fn lemma_beyond_member(ks: Seq<(u64, u64)>, c: Option<(u64, u64)>, i: int)
    requires
        0 <= i < beyond(ks, c).len(),
    ensures
        c is None || key_lt(c->Some_0, beyond(ks, c)[i]),
    decreases ks.len(),
{
    if ks.len() > 0 {
        let p = beyond(ks.drop_last(), c);
        if i < p.len() {
            if c is None || key_lt(c->Some_0, ks.last()) {
                assert(beyond(ks, c)[i] == p[i]);
            }
            lemma_beyond_member(ks.drop_last(), c, i);
        }
    }
}

proof fn lemma_beyond_key(ks: Seq<(u64, u64)>, m: int)
    requires
        keys_sorted(ks),
        0 <= m < ks.len(),
    ensures
        beyond(ks, Some(ks[m])) == ks.skip(m + 1),
    decreases ks.len(),
{
    let p = ks.drop_last();
    if m == ks.len() - 1 {
        assert forall|i: int| 0 <= i < p.len() implies !key_lt(ks[m], #[trigger] p[i]) by {
            assert(key_lt(ks[i], ks[m]));
        }
        lemma_beyond_none(p, ks[m]);
        assert(beyond(ks, Some(ks[m])) =~= ks.skip(m + 1));
    } else {
        assert(keys_sorted(p));
        lemma_beyond_key(p, m);
        assert(p[m] == ks[m]);
        assert(key_lt(ks[m], ks.last()));
        assert(beyond(ks, Some(ks[m])) =~= ks.skip(m + 1));
    }
}

proof fn lemma_beyond_none(ks: Seq<(u64, u64)>, k: (u64, u64))
    requires
        forall|i: int| 0 <= i < ks.len() ==> !key_lt(k, #[trigger] ks[i]),
    ensures
        beyond(ks, Some(k)) == Seq::<(u64, u64)>::empty(),
    decreases ks.len(),
{
    if ks.len() > 0 {
        assert(!key_lt(k, ks[ks.len() - 1]));
        lemma_beyond_none(ks.drop_last(), k);
    }
}

/// On a sorted log, a full page followed by the page after its last key
/// gives the next rows with no gap and no overlap.
pub proof fn lemma_pagination_stable<T: LogRow>(
    log: Seq<T>,
    table: Option<String>,
    cursor: Option<(u64, u64)>,
    limit: nat,
)
    requires
        log_sorted(log),
        limit > 0,
        page(log, table, cursor, limit, false).len() == limit,
    ensures
        ({
            let first = page(log, table, cursor, limit, false);
            let all = beyond(matching_keys(log, table), cursor);
            &&& first == all.take(limit as int)
            &&& page(log, table, Some(first.last()), limit, false) == all.skip(limit as int).take(
                if all.len() - limit <= limit {
                    all.len() - limit
                } else {
                    limit as int
                },
            )
        }),
{
    let ks = matching_keys(log, table);
    lemma_matching_sorted(log, table);
    lemma_beyond_prefix(ks, cursor);
    let j = choose|j: int| 0 <= j <= ks.len() && beyond(ks, cursor) == ks.skip(j);
    let all = beyond(ks, cursor);
    let first = page(log, table, cursor, limit, false);
    if all.len() <= limit {
        assert(all.take(limit as int) =~= all);
    }
    assert(first.last() == ks[j + limit - 1]);
    lemma_beyond_key(ks, j + limit - 1);
    assert(ks.skip(j + limit) =~= all.skip(limit as int));
    let rest = all.skip(limit as int);
    if rest.len() <= limit {
        assert(rest.take(rest.len() as int) =~= rest);
    }
}

} // verus!
