use crate::query::{key_lt, log_sorted, row_key, LogRow};
use vstd::prelude::*;

verus! {

/// Log rows of transactions other than `t`, in order.
pub open spec fn other_txs<T: LogRow>(log: Seq<T>, t: u64) -> Seq<T>
    decreases log.len(),
{
    if log.len() == 0 {
        Seq::empty()
    } else if row_key(log.last()).0 == t {
        other_txs(log.drop_last(), t)
    } else {
        other_txs(log.drop_last(), t).push(log.last())
    }
}

/// Length of the leading run of rows of transactions before `t`.
pub open spec fn older_prefix<T: LogRow>(log: Seq<T>, t: u64) -> nat
    decreases log.len(),
{
    if log.len() == 0 || row_key(log[0]).0 >= t {
        0
    } else {
        1 + older_prefix(log.drop_first(), t)
    }
}

/// The log after the records of transaction `t` are written: earlier records
/// of `t` are dropped and `rows` stand where `t` belongs in key order.
pub open spec fn replace_tx<T: LogRow>(log: Seq<T>, t: u64, rows: Seq<T>) -> Seq<T> {
    let o = other_txs(log, t);
    let p = older_prefix(o, t) as int;
    o.take(p) + rows + o.skip(p)
}

pub proof fn lemma_older_prefix_len<T: LogRow>(log: Seq<T>, t: u64)
    ensures
        older_prefix(log, t) <= log.len(),
    decreases log.len(),
{
    if log.len() > 0 {
        lemma_older_prefix_len(log.drop_first(), t);
    }
}

/// The records of one transaction `t`, in increasing key order.
pub open spec fn rows_of_tx<T: LogRow>(rows: Seq<T>, t: u64) -> bool {
    &&& log_sorted(rows)
    &&& forall|i: int| 0 <= i < rows.len() ==> row_key(#[trigger] rows[i]).0 == t
}

pub proof fn lemma_other_txs_append<T: LogRow>(a: Seq<T>, b: Seq<T>, t: u64)
    ensures
        other_txs(a + b, t) == other_txs(a, t) + other_txs(b, t),
    decreases b.len(),
{
    if b.len() == 0 {
        assert(a + b =~= a);
        assert(other_txs(a, t) + other_txs(b, t) =~= other_txs(a, t));
    } else {
        assert((a + b).drop_last() =~= a + b.drop_last());
        lemma_other_txs_append(a, b.drop_last(), t);
        if row_key(b.last()).0 != t {
            assert(other_txs(a, t) + other_txs(b.drop_last(), t).push(b.last()) =~= (other_txs(
                a,
                t,
            ) + other_txs(b.drop_last(), t)).push(b.last()));
        }
    }
}

pub proof fn lemma_other_txs_none<T: LogRow>(a: Seq<T>, t: u64)
    requires
        forall|i: int| 0 <= i < a.len() ==> row_key(#[trigger] a[i]).0 == t,
    ensures
        other_txs(a, t) == Seq::<T>::empty(),
    decreases a.len(),
{
    if a.len() > 0 {
        lemma_other_txs_none(a.drop_last(), t);
    }
}

pub proof fn lemma_other_txs_keep<T: LogRow>(a: Seq<T>, t: u64)
    requires
        forall|i: int| 0 <= i < a.len() ==> row_key(#[trigger] a[i]).0 != t,
    ensures
        other_txs(a, t) == a,
    decreases a.len(),
{
    if a.len() > 0 {
        lemma_other_txs_keep(a.drop_last(), t);
        assert(a.drop_last().push(a.last()) =~= a);
    }
}

/// What `other_txs` keeps is sorted when the log is, and holds no row of `t`.
pub proof fn lemma_other_txs_sorted<T: LogRow>(log: Seq<T>, t: u64)
    requires
        log_sorted(log),
    ensures
        log_sorted(other_txs(log, t)),
        forall|i: int|
            0 <= i < other_txs(log, t).len() ==> row_key(#[trigger] other_txs(log, t)[i]).0 != t,
        forall|i: int|
            0 <= i < other_txs(log, t).len() ==> exists|j: int|
                0 <= j < log.len() && #[trigger] other_txs(log, t)[i] == log[j],
    decreases log.len(),
{
    if log.len() > 0 {
        let p = log.drop_last();
        assert(log_sorted(p));
        lemma_other_txs_sorted(p, t);
        let op = other_txs(p, t);
        let o = other_txs(log, t);
        assert forall|i: int| 0 <= i < op.len() implies exists|j: int|
            0 <= j < log.len() && #[trigger] op[i] == log[j] by {
            let j = choose|j: int| 0 <= j < p.len() && op[i] == p[j];
            assert(p[j] == log[j]);
        }
        if row_key(log.last()).0 != t {
            assert forall|i: int| 0 <= i < op.len() implies key_lt(
                row_key(op[i]),
                row_key(log.last()),
            ) by {
                let j = choose|j: int| 0 <= j < p.len() && op[i] == p[j];
                assert(p[j] == log[j]);
            }
            assert forall|i: int| 0 <= i < o.len() implies exists|j: int|
                0 <= j < log.len() && #[trigger] o[i] == log[j] by {
                if i < op.len() {
                    assert(o[i] == op[i]);
                } else {
                    assert(o[i] == log[log.len() - 1]);
                }
            }
            assert forall|i: int, j: int| 0 <= i < j < o.len() implies key_lt(
                row_key(o[i]),
                row_key(o[j]),
            ) by {
                if j < op.len() {
                    assert(o[i] == op[i] && o[j] == op[j]);
                } else {
                    assert(o[i] == op[i]);
                }
            }
            assert forall|i: int| 0 <= i < o.len() implies row_key(#[trigger] o[i]).0 != t by {
                if i < op.len() {
                    assert(o[i] == op[i]);
                }
            }
        }
    }
}

proof fn lemma_older_prefix_shape<T: LogRow>(o: Seq<T>, t: u64)
    requires
        log_sorted(o),
        forall|i: int| 0 <= i < o.len() ==> row_key(#[trigger] o[i]).0 != t,
    ensures
        older_prefix(o, t) <= o.len(),
        forall|i: int| 0 <= i < older_prefix(o, t) ==> row_key(#[trigger] o[i]).0 < t,
        forall|i: int| older_prefix(o, t) <= i < o.len() ==> row_key(#[trigger] o[i]).0 > t,
    decreases o.len(),
{
    if o.len() > 0 {
        let r = o.drop_first();
        assert(log_sorted(r)) by {
            assert forall|i: int, j: int| 0 <= i < j < r.len() implies key_lt(
                row_key(r[i]),
                row_key(r[j]),
            ) by {
                assert(r[i] == o[i + 1] && r[j] == o[j + 1]);
            }
        }
        assert forall|i: int| 0 <= i < r.len() implies row_key(#[trigger] r[i]).0 != t by {
            assert(r[i] == o[i + 1]);
        }
        lemma_older_prefix_shape(r, t);
        if row_key(o[0]).0 >= t {
            assert forall|i: int| 0 <= i < o.len() implies row_key(#[trigger] o[i]).0 > t by {
                if i > 0 {
                    assert(key_lt(row_key(o[0]), row_key(o[i])));
                }
            }
        } else {
            assert forall|i: int| 0 <= i < older_prefix(o, t) implies row_key(#[trigger] o[i]).0
                < t by {
                if i > 0 {
                    assert(o[i] == r[i - 1]);
                }
            }
            assert forall|i: int| older_prefix(o, t) <= i < o.len() implies row_key(
                #[trigger] o[i],
            ).0 > t by {
                assert(o[i] == r[i - 1]);
            }
        }
    }
}

/// The log after replacing transaction `t`'s records stays sorted.
pub proof fn lemma_replace_tx_sorted<T: LogRow>(log: Seq<T>, t: u64, rows: Seq<T>)
    requires
        log_sorted(log),
        rows_of_tx(rows, t),
    ensures
        log_sorted(replace_tx(log, t, rows)),
{
    let o = other_txs(log, t);
    lemma_other_txs_sorted(log, t);
    lemma_older_prefix_shape(o, t);
    let p = older_prefix(o, t) as int;
    let r = replace_tx(log, t, rows);
    let n = rows.len() as int;
    assert forall|i: int, j: int| 0 <= i < j < r.len() implies key_lt(
        row_key(r[i]),
        row_key(r[j]),
    ) by {
        if i < p {
            assert(r[i] == o[i]);
        } else if i < p + n {
            assert(r[i] == rows[i - p]);
        } else {
            assert(r[i] == o[i - n]);
        }
        if j < p {
            assert(r[j] == o[j]);
        } else if j < p + n {
            assert(r[j] == rows[j - p]);
        } else {
            assert(r[j] == o[j - n]);
        }
    }
}

/// Writing the same records of a transaction twice in a row leaves the log
/// as writing them once.
pub proof fn lemma_replace_tx_idempotent<T: LogRow>(log: Seq<T>, t: u64, rows: Seq<T>)
    requires
        log_sorted(log),
        rows_of_tx(rows, t),
    ensures
        replace_tx(replace_tx(log, t, rows), t, rows) == replace_tx(log, t, rows),
{
    let o = other_txs(log, t);
    lemma_other_txs_sorted(log, t);
    let p = older_prefix(o, t) as int;
    lemma_older_prefix_shape(o, t);
    let once = replace_tx(log, t, rows);
    assert(once == o.take(p) + rows + o.skip(p));
    lemma_other_txs_append(o.take(p) + rows, o.skip(p), t);
    lemma_other_txs_append(o.take(p), rows, t);
    lemma_other_txs_none(rows, t);
    assert forall|i: int| 0 <= i < o.take(p).len() implies row_key(#[trigger] o.take(p)[i]).0
        != t by {
        assert(o.take(p)[i] == o[i]);
    }
    assert forall|i: int| 0 <= i < o.skip(p).len() implies row_key(#[trigger] o.skip(p)[i]).0
        != t by {
        assert(o.skip(p)[i] == o[i + p]);
    }
    lemma_other_txs_keep(o.take(p), t);
    lemma_other_txs_keep(o.skip(p), t);
    assert(o.take(p) + Seq::<T>::empty() + o.skip(p) =~= o);
    assert(other_txs(once, t) == o);
}

/// Writes the records of transaction `t`: drops those written for it before
/// and puts `rows` where `t` belongs in key order.
pub fn write_tx<T: LogRow>(log: Vec<T>, t: u64, rows: Vec<T>) -> (r: Vec<T>)
    requires
        log_sorted(log@),
        rows_of_tx(rows@, t),
    ensures
        r@ == replace_tx(log@, t, rows@),
        log_sorted(r@),
{
    let ghost orig = log@;
    let ghost rv = rows@;
    let mut log = log;
    let mut kept: Vec<T> = Vec::new();
    let ghost mut c: int = 0;
    assert(orig.take(0) =~= Seq::<T>::empty());
    while log.len() > 0
        invariant
            0 <= c <= orig.len(),
            log@ == orig.skip(c),
            kept@ == other_txs(orig.take(c), t),
        decreases log@.len(),
    {
        proof {
            assert(orig[c] == orig.skip(c)[0]);
        }
        let row = log.remove(0);
        proof {
            assert(orig.take(c + 1).drop_last() =~= orig.take(c));
            assert(orig.take(c + 1).last() == row);
            assert(orig.skip(c).skip(1) =~= orig.skip(c + 1));
        }
        if row.key().0 != t {
            kept.push(row);
        }
        proof {
            c = c + 1;
        }
    }
    assert(orig.take(c) =~= orig);
    let ghost o = kept@;
    let mut p: usize = 0;
    assert(o.skip(0) =~= o);
    while p < kept.len() && kept[p].key().0 < t
        invariant
            kept@ == o,
            p <= o.len(),
            older_prefix(o.skip(p as int), t) + p == older_prefix(o, t),
        decreases o.len() - p,
    {
        assert(o.skip(p as int).drop_first() =~= o.skip(p + 1));
        assert(o.skip(p as int)[0] == o[p as int]);
        p = p + 1;
    }
    proof {
        if p < o.len() {
            assert(o.skip(p as int)[0] == o[p as int]);
        }
    }
    let mut tail = kept.split_off(p);
    let mut rows = rows;
    kept.append(&mut rows);
    kept.append(&mut tail);
    proof {
        assert(kept@ =~= replace_tx(orig, t, rv));
        lemma_replace_tx_sorted(orig, t, rv);
    }
    kept
}

} // verus!
