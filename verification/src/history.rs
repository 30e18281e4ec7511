//! The history of inferences: records, and which of them count as the latest.

use vstd::prelude::*;
use vstd::set_lib::{lemma_int_range, lemma_subset_equality, set_int_range};

verus! {

/// One inference as the history keeps it.
#[derive(Debug, Clone)]
pub struct HistoryRecord {
    pub id: u64,
    /// Seconds since the Unix epoch when the record was made.
    pub timestamp: u64,
    pub model: String,
    pub prompt: String,
    pub response: String,
    pub elapsed_ms: u64,
}

/// `SystemTime::now().duration_since(UNIX_EPOCH)` in milliseconds, or
/// nothing when the clock stands before the epoch. The reading depends on the
/// clock and is not stated; a duration's seconds fit in `u64`, which bounds it.
#[verifier::external_body]
fn unix_epoch_millis() -> (ms: Option<u128>)
    ensures
        ms matches Some(v) ==> v <= u64::MAX as u128 * 1000 + 999,
{
    match std::time::SystemTime::now().duration_since(std::time::UNIX_EPOCH) {
        Ok(d) => Some(d.as_millis()),
        Err(_) => None,
    }
}

/// Whole seconds since the Unix epoch (0 before it).
pub fn current_unix_timestamp() -> (t: u64) {
    match unix_epoch_millis() {
        Some(ms) => seconds_of_millis(ms),
        None => 0,
    }
}

/// An id for a new record: the milliseconds since the Unix epoch, wrapped to
/// 64 bits (0 before the epoch).
pub fn next_history_id() -> (id: u64) {
    match unix_epoch_millis() {
        Some(ms) => id_of_millis(ms),
        None => 0,
    }
}

/// The whole seconds in `ms` milliseconds.
pub fn seconds_of_millis(ms: u128) -> (t: u64)
    requires
        ms <= u64::MAX as u128 * 1000 + 999,
    ensures
        t == ms / 1000,
{
    (ms / 1000) as u64
}

/// The low 64 bits of `ms`.
pub fn id_of_millis(ms: u128) -> (id: u64)
    ensures
        id == ms % 0x1_0000_0000_0000_0000,
{
    assert(ms as u64 == ms % 0x1_0000_0000_0000_0000) by (bit_vector);
    ms as u64
}

impl HistoryRecord {
    /// A record stamped with the current time.
    pub fn new(id: u64, model: String, prompt: String, response: String, elapsed_ms: u64) -> (r: Self)
        ensures
            r.id == id,
            r.model == model,
            r.prompt == prompt,
            r.response == response,
            r.elapsed_ms == elapsed_ms,
    {
        Self { id, timestamp: current_unix_timestamp(), model, prompt, response, elapsed_ms }
    }

    /// A record with the given timestamp.
    pub fn with_timestamp(
        id: u64,
        timestamp: u64,
        model: String,
        prompt: String,
        response: String,
        elapsed_ms: u64,
    ) -> (r: Self)
        ensures
            r == (HistoryRecord { id, timestamp, model, prompt, response, elapsed_ms }),
    {
        Self { id, timestamp, model, prompt, response, elapsed_ms }
    }
}

/// Record `a` counts as newer than record `b`: a later timestamp, or the same
/// timestamp and a later place in the history.
pub open spec fn newer(rs: Seq<HistoryRecord>, a: int, b: int) -> bool {
    rs[a].timestamp > rs[b].timestamp || (rs[a].timestamp == rs[b].timestamp && a > b)
}

/// `order` lists each place of `rs` once, newest record first.
pub open spec fn newest_first(rs: Seq<HistoryRecord>, order: Seq<usize>) -> bool {
    &&& order.len() == rs.len()
    &&& forall|k: int| 0 <= k < order.len() ==> #[trigger] order[k] < rs.len()
    &&& order.no_duplicates()
    &&& forall|a: int, b: int| 0 <= a < b < order.len() ==> newer(rs, #[trigger] order[a] as int, #[trigger] order[b] as int)
}

/// The first `limit` records of `rs` in the order `order`.
pub open spec fn ordered_prefix(rs: Seq<HistoryRecord>, order: Seq<usize>, limit: usize) -> Seq<HistoryRecord> {
    let n = if limit < order.len() { limit as int } else { order.len() as int };
    order.take(n).map_values(|i: usize| rs[i as int])
}

/// The history file of the runtime.
pub struct HistoryStore {
    path: String,
}

impl HistoryStore {
    /// A history kept at `path`.
    pub fn new(path: String) -> (s: Self)
        ensures
            s.path_view() == path@,
    {
        Self { path }
    }

    /// Where the history is kept.
    pub closed spec fn path_view(&self) -> Seq<char> {
        self.path@
    }

    /// Where the history is kept.
    pub fn path(&self) -> (p: &str)
        ensures
            p@ == self.path_view(),
    {
        self.path.as_str()
    }

    /// Adds a record after the others.
    pub fn append(records: &mut Vec<HistoryRecord>, record: HistoryRecord)
        ensures
            final(records)@ == old(records)@.push(record),
    {
        records.push(record);
    }

    /// The latest `limit` records, newest first; of two records with the same
    /// timestamp, the later one in the history comes first.
    pub fn list(records: Vec<HistoryRecord>, limit: usize) -> (r: Vec<HistoryRecord>)
        ensures
            exists|order: Seq<usize>|
                newest_first(records@, order) && r@ == ordered_prefix(records@, order, limit),
    {
        let ghost rs = records@;
        let order = newest_first_order(&records);
        let n = if limit < order.len() { limit } else { order.len() };
        let mut pool = records;
        let mut out: Vec<HistoryRecord> = Vec::new();
        let mut k: usize = 0;
        while k < n
            invariant
                k <= n <= order.len(),
                n == (if limit < order.len() { limit as int } else { order.len() as int }),
                newest_first(rs, order@),
                pool@.len() == rs.len(),
                forall|i: int|
                    0 <= i < rs.len() && !order@.take(k as int).contains(i as usize) ==> #[trigger] pool@[i] == rs[i],
                out@ == order@.take(k as int).map_values(|i: usize| rs[i as int]),
            decreases n - k,
        {
            let i = order[k];
            let mut taken = HistoryRecord {
                id: 0,
                timestamp: 0,
                model: String::new(),
                prompt: String::new(),
                response: String::new(),
                elapsed_ms: 0,
            };
            proof {
                assert(!order@.take(k as int).contains(i)) by {
                    if order@.take(k as int).contains(i) {
                        let j = choose|j: int| 0 <= j < k && order@.take(k as int)[j] == i;
                        assert(order@[j] == order@[k as int]);
                    }
                }
            }
            pool.set_and_swap(i, &mut taken);
            out.push(taken);
            proof {
                assert(order@.take(k + 1) =~= order@.take(k as int).push(i));
                assert forall|x: int|
                    0 <= x < rs.len() && !order@.take(k + 1).contains(x as usize) implies #[trigger] pool@[x] == rs[x] by {
                    assert(order@.take(k + 1).push(i).len() > 0);
                    if x == i as int {
                        assert(order@.take(k + 1)[k as int] == i);
                    } else {
                        if order@.take(k as int).contains(x as usize) {
                            let j = choose|j: int| 0 <= j < k && order@.take(k as int)[j] == x as usize;
                            assert(order@.take(k + 1)[j] == x as usize);
                        }
                    }
                }
                assert(out@ =~= order@.take(k + 1).map_values(|i: usize| rs[i as int]));
            }
            k = k + 1;
        }
        assert(out@ == ordered_prefix(rs, order@, limit));
        out
    }
}

/// The places of `records`, newest record first.
fn newest_first_order(records: &Vec<HistoryRecord>) -> (order: Vec<usize>)
    ensures
        newest_first(records@, order@),
{
    let ghost rs = records@;
    let mut order: Vec<usize> = Vec::new();
    let mut i: usize = 0;
    while i < records.len()
        invariant
            i <= records.len(),
            rs == records@,
            order.len() == i,
            forall|k: int| 0 <= k < order.len() ==> #[trigger] order@[k] < i,
            order@.no_duplicates(),
            forall|a: int, b: int| 0 <= a < b < order.len() ==> newer(rs, #[trigger] order@[a] as int, #[trigger] order@[b] as int),
        decreases records.len() - i,
    {
        let t = records[i].timestamp;
        let mut p: usize = 0;
        while p < order.len() && records[order[p]].timestamp > t
            invariant
                p <= order.len(),
                rs == records@,
                forall|k: int| 0 <= k < order.len() ==> #[trigger] order@[k] < i,
                i < records.len(),
                t == rs[i as int].timestamp,
                forall|q: int| 0 <= q < p ==> rs[#[trigger] order@[q] as int].timestamp > t,
            decreases order.len() - p,
        {
            p = p + 1;
        }
        let ghost before = order@;
        order.insert(p, i);
        proof {
            assert(order@ =~= before.insert(p as int, i));
            assert forall|k: int| 0 <= k < order.len() implies #[trigger] order@[k] < i + 1 by {
                if k < p {
                    assert(order@[k] == before[k]);
                } else if k > p {
                    assert(order@[k] == before[k - 1]);
                }
            }
            assert forall|a: int, b: int| 0 <= a < order.len() && 0 <= b < order.len() && a != b implies order@[a] != order@[b] by {
                if a != p && b != p {
                    let a0 = if a < p { a } else { a - 1 };
                    let b0 = if b < p { b } else { b - 1 };
                    assert(order@[a] == before[a0]);
                    assert(order@[b] == before[b0]);
                } else if a == p {
                    let b0 = if b < p { b } else { b - 1 };
                    assert(order@[b] == before[b0]);
                } else {
                    let a0 = if a < p { a } else { a - 1 };
                    assert(order@[a] == before[a0]);
                }
            }
            assert forall|a: int, b: int| 0 <= a < b < order.len() implies newer(rs, #[trigger] order@[a] as int, #[trigger] order@[b] as int) by {
                if b < p {
                    assert(order@[a] == before[a] && order@[b] == before[b]);
                } else if a > p {
                    assert(order@[a] == before[a - 1] && order@[b] == before[b - 1]);
                } else if a < p && b == p {
                    assert(order@[a] == before[a]);
                } else if a < p && b > p {
                    assert(order@[a] == before[a] && order@[b] == before[b - 1]);
                } else {
                    // a == p < b: the new record is at least as late as the one at p
                    assert(order@[b] == before[b - 1]);
                    assert(before[b - 1] < i);
                    if b - 1 > p {
                        assert(newer(rs, before[p as int] as int, before[b - 1] as int));
                    }
                }
            }
        }
        i = i + 1;
    }
    order
}

/// The list holds the first `limit` records of the order (all of them when
/// there are fewer), with timestamps that never rise from one to the next.
pub proof fn lemma_list_newest_first(rs: Seq<HistoryRecord>, order: Seq<usize>, limit: usize)
    requires
        newest_first(rs, order),
    ensures
        ordered_prefix(rs, order, limit).len() == (if limit < rs.len() { limit as int } else { rs.len() as int }),
        forall|a: int, b: int|
            0 <= a < b < ordered_prefix(rs, order, limit).len() ==> (#[trigger] ordered_prefix(rs, order, limit)[a]).timestamp
                >= (#[trigger] ordered_prefix(rs, order, limit)[b]).timestamp,
{
    let out = ordered_prefix(rs, order, limit);
    assert forall|a: int, b: int| 0 <= a < b < out.len() implies (#[trigger] out[a]).timestamp >= (
    #[trigger] out[b]).timestamp by {
        assert(newer(rs, order[a] as int, order[b] as int));
    }
}

/// A newest-first order names every place of the history.
proof fn lemma_order_covers(rs: Seq<HistoryRecord>, order: Seq<usize>, x: int)
    requires
        newest_first(rs, order),
        0 <= x < rs.len(),
    ensures
        exists|k: int| 0 <= k < order.len() && order[k] as int == x,
{
    let ints = order.map_values(|i: usize| i as int);
    assert(ints.no_duplicates()) by {
        assert forall|a: int, b: int| 0 <= a < ints.len() && 0 <= b < ints.len() && a != b implies ints[a] != ints[b] by {
            assert(order[a] != order[b]);
        }
    }
    ints.unique_seq_to_set();
    lemma_int_range(0, rs.len() as int);
    assert(ints.to_set().subset_of(set_int_range(0, rs.len() as int))) by {
        assert forall|v: int| ints.to_set().contains(v) implies set_int_range(0, rs.len() as int).contains(v) by {
            let k = choose|k: int| 0 <= k < ints.len() && ints[k] == v;
            assert(order[k] < rs.len());
        }
    }
    lemma_subset_equality(ints.to_set(), set_int_range(0, rs.len() as int));
    assert(set_int_range(0, rs.len() as int).contains(x));
    assert(ints.to_set().contains(x));
    let k = choose|k: int| 0 <= k < ints.len() && ints[k] == x;
    assert(order[k] as int == x);
}

/// With a limit of at least the history's length, the list holds every record.
pub proof fn lemma_list_holds_all(rs: Seq<HistoryRecord>, order: Seq<usize>, limit: usize, x: int)
    requires
        newest_first(rs, order),
        limit >= rs.len(),
        0 <= x < rs.len(),
    ensures
        ordered_prefix(rs, order, limit).contains(rs[x]),
{
    lemma_order_covers(rs, order, x);
    let k = choose|k: int| 0 <= k < order.len() && order[k] as int == x;
    assert(ordered_prefix(rs, order, limit)[k] == rs[x]);
}

/// A record appended with a timestamp no earlier than any other comes first
/// in the list.
pub proof fn lemma_appended_first(rs: Seq<HistoryRecord>, r: HistoryRecord, order: Seq<usize>, limit: usize)
    requires
        newest_first(rs.push(r), order),
        limit >= 1,
        forall|i: int| 0 <= i < rs.len() ==> (#[trigger] rs[i]).timestamp <= r.timestamp,
    ensures
        ordered_prefix(rs.push(r), order, limit)[0] == r,
{
    let all = rs.push(r);
    let n = rs.len() as int;
    lemma_order_covers(all, order, n);
    let m = choose|m: int| 0 <= m < order.len() && order[m] as int == n;
    if m > 0 {
        assert(newer(all, order[0] as int, order[m] as int));
        assert(order[0] < all.len());
        assert(order[0] != order[m]);
        assert(all[order[0] as int] == rs[order[0] as int]);
    }
    assert(all[n] == r);
}

} // verus!
