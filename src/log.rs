//! The log as a sequence of records, and what replaying it gives.
use vstd::prelude::*;

use crate::record::{lemma_record_bytes_unique, record_bytes, record_fits, RecordView};

verus! {

/// The bytes of a log made of `recs`, in order.
pub open spec fn log_bytes(recs: Seq<RecordView>) -> Seq<u8>
    decreases recs.len(),
{
    if recs.len() == 0 {
        Seq::empty()
    } else {
        log_bytes(recs.drop_last()) + record_bytes(recs.last())
    }
}

/// Whether each record of `recs` carries, as its `db_key`, the offset at which
/// it stands in the log, and each can be read back.
pub open spec fn well_placed(recs: Seq<RecordView>) -> bool {
    forall|i: int|
        #![trigger recs[i].db_key]
        0 <= i < recs.len() ==> recs[i].db_key == log_bytes(recs.take(i)).len() && record_fits(
            recs[i],
        )
}

/// Whether `bytes` is a log: the bytes of well-placed records.
pub open spec fn is_log(bytes: Seq<u8>) -> bool {
    exists|recs: Seq<RecordView>| well_placed(recs) && log_bytes(recs) == bytes
}

/// The live record of each key after replaying `recs`: the latest write of
/// the key, unless a removal came after it.
pub open spec fn live_of(recs: Seq<RecordView>) -> Map<Seq<char>, RecordView>
    decreases recs.len(),
{
    if recs.len() == 0 {
        Map::empty()
    } else {
        let r = recs.last();
        match r.value {
            Some(_) => live_of(recs.drop_last()).insert(r.key, r),
            None => live_of(recs.drop_last()).remove(r.key),
        }
    }
}

/// The index after replaying `recs`: each live key to its record's offset.
pub open spec fn index_of(recs: Seq<RecordView>) -> Map<Seq<char>, u64> {
    live_of(recs).map_values(|r: RecordView| r.db_key)
}

/// The contents after replaying `recs`: each live key to its value.
pub open spec fn contents_of(recs: Seq<RecordView>) -> Map<Seq<char>, Seq<char>> {
    live_of(recs).map_values(|r: RecordView| r.value->0)
}

/// The stale count after replaying `recs`: one for each write that replaced a
/// live record, and one for each removal.
pub open spec fn stale_of(recs: Seq<RecordView>) -> nat
    decreases recs.len(),
{
    if recs.len() == 0 {
        0
    } else {
        let r = recs.last();
        let before = stale_of(recs.drop_last());
        match r.value {
            Some(_) => if live_of(recs.drop_last()).contains_key(r.key) {
                before + 1
            } else {
                before
            },
            None => before + 1,
        }
    }
}

/// Every record's encoding holds at least one byte.
pub proof fn lemma_record_bytes_nonempty(r: RecordView)
    ensures
        record_bytes(r).len() > 0,
{
    reveal(record_bytes);
}

/// A live record is a write of its own key, and one of the records replayed.
pub proof fn lemma_live(recs: Seq<RecordView>, k: Seq<char>)
    requires
        live_of(recs).contains_key(k),
    ensures
        live_of(recs)[k].key == k,
        live_of(recs)[k].value is Some,
        exists|j: int| 0 <= j < recs.len() && recs[j] == live_of(recs)[k],
    decreases recs.len(),
{
    let r = recs.last();
    let p = recs.drop_last();
    if r.key == k && r.value is Some {
        assert(recs[recs.len() - 1] == live_of(recs)[k]);
    } else {
        assert(live_of(p).contains_key(k));
        lemma_live(p, k);
        let j = choose|j: int| 0 <= j < p.len() && p[j] == live_of(p)[k];
        assert(recs[j] == live_of(recs)[k]);
    }
}

/// The log of the first `i + 1` records is that of the first `i` and the
/// `i`-th record.
pub proof fn lemma_log_take(recs: Seq<RecordView>, i: int)
    requires
        0 <= i < recs.len(),
    ensures
        log_bytes(recs.take(i + 1)) == log_bytes(recs.take(i)) + record_bytes(recs[i]),
{
    assert(recs.take(i + 1).drop_last() == recs.take(i));
}

/// A log splits into the log of its first `i` records and that of the rest.
pub proof fn lemma_log_split(recs: Seq<RecordView>, i: int)
    requires
        0 <= i <= recs.len(),
    ensures
        log_bytes(recs) == log_bytes(recs.take(i)) + log_bytes(recs.skip(i)),
    decreases recs.len(),
{
    if i == recs.len() {
        assert(recs.take(i) == recs);
        assert(recs.skip(i) == Seq::<RecordView>::empty());
    } else {
        let p = recs.drop_last();
        lemma_log_split(p, i);
        assert(p.take(i) == recs.take(i));
        assert(recs.skip(i).drop_last() == p.skip(i));
        assert(recs.skip(i).last() == recs.last());
    }
}

/// Appending a record written at the end of a well-placed log keeps it
/// well placed.
pub proof fn lemma_well_placed_push(recs: Seq<RecordView>, r: RecordView)
    requires
        well_placed(recs),
        r.db_key == log_bytes(recs).len(),
        record_fits(r),
    ensures
        well_placed(recs.push(r)),
        log_bytes(recs.push(r)) == log_bytes(recs) + record_bytes(r),
{
    let q = recs.push(r);
    assert(q.drop_last() == recs);
    assert forall|i: int| 0 <= i < q.len() implies #[trigger] q[i].db_key == log_bytes(
        q.take(i),
    ).len() && record_fits(q[i]) by {
        if i < recs.len() {
            assert(q.take(i) == recs.take(i));
            assert(recs[i] == q[i]);
        } else {
            assert(q.take(i) == recs);
        }
    }
}

/// Each record of a well-placed log can be read back.
pub proof fn lemma_placed_fit(recs: Seq<RecordView>)
    requires
        well_placed(recs),
    ensures
        forall|i: int| 0 <= i < recs.len() ==> record_fits(#[trigger] recs[i]),
{
    assert forall|i: int| 0 <= i < recs.len() implies record_fits(#[trigger] recs[i]) by {
        let d = recs[i].db_key;
        assert(d == log_bytes(recs.take(i)).len() && record_fits(recs[i]));
    }
}

/// Records whose encodings can be read back are fixed by the bytes of their log.
pub proof fn lemma_log_unique(r1: Seq<RecordView>, r2: Seq<RecordView>)
    requires
        forall|i: int| 0 <= i < r1.len() ==> record_fits(#[trigger] r1[i]),
        forall|i: int| 0 <= i < r2.len() ==> record_fits(#[trigger] r2[i]),
        log_bytes(r1) == log_bytes(r2),
    ensures
        r1 == r2,
    decreases r1.len(),
{
    if r1.len() == 0 || r2.len() == 0 {
        if r1.len() > 0 {
            lemma_log_split(r1, 1);
            lemma_log_take(r1, 0);
            lemma_record_bytes_nonempty(r1[0]);
        }
        if r2.len() > 0 {
            lemma_log_split(r2, 1);
            lemma_log_take(r2, 0);
            lemma_record_bytes_nonempty(r2[0]);
        }
        assert(r1 =~= r2);
    } else {
        lemma_log_split(r1, 1);
        lemma_log_take(r1, 0);
        lemma_log_split(r2, 1);
        lemma_log_take(r2, 0);
        assert(r1.take(0) == Seq::<RecordView>::empty());
        assert(r2.take(0) == Seq::<RecordView>::empty());
        assert(log_bytes(r1) == record_bytes(r1[0]) + log_bytes(r1.skip(1)));
        assert(log_bytes(r2) == record_bytes(r2[0]) + log_bytes(r2.skip(1)));
        lemma_record_bytes_unique(r1[0], log_bytes(r1.skip(1)), r2[0], log_bytes(r2.skip(1)));
        let t1 = r1.skip(1);
        let t2 = r2.skip(1);
        assert forall|i: int| 0 <= i < t1.len() implies record_fits(#[trigger] t1[i]) by {
            assert(t1[i] == r1[i + 1]);
        }
        assert forall|i: int| 0 <= i < t2.len() implies record_fits(#[trigger] t2[i]) by {
            assert(t2[i] == r2[i + 1]);
        }
        lemma_log_unique(t1, t2);
        assert(r1 =~= seq![r1[0]] + t1);
        assert(r2 =~= seq![r2[0]] + t2);
    }
}

/// In a well-placed log, each record's bytes stand at its offset.
pub proof fn lemma_record_in_log(recs: Seq<RecordView>, j: int)
    requires
        well_placed(recs),
        0 <= j < recs.len(),
    ensures
        recs[j].db_key + record_bytes(recs[j]).len() <= log_bytes(recs).len(),
        log_bytes(recs).subrange(
            recs[j].db_key as int,
            recs[j].db_key + record_bytes(recs[j]).len(),
        ) == record_bytes(recs[j]),
{
    lemma_log_split(recs, j + 1);
    lemma_log_take(recs, j);
    assert(recs[j].db_key == log_bytes(recs.take(j)).len());
    let a = log_bytes(recs.take(j));
    let b = record_bytes(recs[j]);
    let c = log_bytes(recs.skip(j + 1));
    assert(log_bytes(recs) == a + b + c);
    assert((a + b + c).subrange(a.len() as int, (a.len() + b.len()) as int) =~= b);
}

/// Offsets grow along a well-placed log.
pub proof fn lemma_offsets_grow(recs: Seq<RecordView>, i: int, j: int)
    requires
        well_placed(recs),
        0 <= i < j < recs.len(),
    ensures
        recs[i].db_key < recs[j].db_key,
{
    let t = recs.take(j);
    lemma_log_split(t, i + 1);
    lemma_log_take(t, i);
    lemma_record_bytes_nonempty(recs[i]);
    assert(t.take(i + 1) == recs.take(i + 1));
    assert(t.take(i) == recs.take(i));
    assert(t[i] == recs[i]);
    assert(recs[i].db_key == log_bytes(recs.take(i)).len());
    assert(recs[j].db_key == log_bytes(recs.take(j)).len());
}

/// The live keys of a log are finitely many.
pub proof fn lemma_live_finite(recs: Seq<RecordView>)
    ensures
        live_of(recs).dom().finite(),
    decreases recs.len(),
{
    if recs.len() > 0 {
        lemma_live_finite(recs.drop_last());
    }
}

/// Replaying one record more: a write puts its offset in the index and
/// counts one stale record where it replaces a live one; a removal drops its
/// key and counts one stale record.
pub proof fn lemma_replay_one_more(recs: Seq<RecordView>, r: RecordView)
    ensures
        index_of(recs.push(r)) == (match r.value {
            Some(_) => index_of(recs).insert(r.key, r.db_key),
            None => index_of(recs).remove(r.key),
        }),
        stale_of(recs.push(r)) == stale_of(recs) + (if r.value is None || index_of(
            recs,
        ).contains_key(r.key) {
            1nat
        } else {
            0nat
        }),
{
    let q = recs.push(r);
    assert(q.drop_last() =~= recs);
    assert(q.last() == r);
    assert(index_of(q) =~= (match r.value {
        Some(_) => index_of(recs).insert(r.key, r.db_key),
        None => index_of(recs).remove(r.key),
    }));
}

/// Whether `bytes` are the encodings of some records, one after another.
pub open spec fn decodes(bytes: Seq<u8>) -> bool {
    exists|recs: Seq<RecordView>| log_bytes(recs) == bytes
}

/// Whether the `j`-th record of `recs` is the live record of its key.
pub open spec fn is_live_at(recs: Seq<RecordView>, j: int) -> bool {
    live_of(recs).contains_key(recs[j].key) && live_of(recs)[recs[j].key] == recs[j]
}

/// The live records among the first `j` records of `recs`, in log order.
pub open spec fn kept_upto(recs: Seq<RecordView>, j: int) -> Seq<RecordView>
    decreases j,
{
    if j <= 0 {
        Seq::empty()
    } else if is_live_at(recs, j - 1) {
        kept_upto(recs, j - 1).push(recs[j - 1])
    } else {
        kept_upto(recs, j - 1)
    }
}

/// `rs` written one after another into a fresh log: each record's `db_key`
/// becomes its offset there.
pub open spec fn moved(rs: Seq<RecordView>) -> Seq<RecordView>
    decreases rs.len(),
{
    if rs.len() == 0 {
        Seq::empty()
    } else {
        let before = moved(rs.drop_last());
        before.push(RecordView { db_key: log_bytes(before).len() as u64, ..rs.last() })
    }
}

/// What compaction writes: the live records of `recs`, in log order, each
/// moved to its offset in the fresh log.
pub open spec fn compacted(recs: Seq<RecordView>) -> Seq<RecordView> {
    moved(kept_upto(recs, recs.len() as int))
}

/// Appending a record appends its bytes.
pub proof fn lemma_log_push(recs: Seq<RecordView>, r: RecordView)
    ensures
        log_bytes(recs.push(r)) == log_bytes(recs) + record_bytes(r),
{
    assert(recs.push(r).drop_last() =~= recs);
}

/// Reading `x` at `pos` of `bytes` extends what has been read by `x`.
pub proof fn lemma_read_on(bytes: Seq<u8>, pos: int, next: int, x: Seq<u8>)
    requires
        0 <= pos <= next <= bytes.len(),
        bytes.skip(pos) == x + bytes.skip(next),
    ensures
        bytes.take(next) == bytes.take(pos) + x,
{
    assert(bytes.skip(pos).len() == bytes.len() - pos);
    assert(bytes.skip(next).len() == bytes.len() - next);
    assert((x + bytes.skip(next)).len() == x.len() + bytes.skip(next).len());
    assert(x.len() == next - pos);
    assert(bytes.take(next) =~= bytes.take(pos) + x) by {
        assert forall|i: int| pos <= i < next implies bytes[i] == x[i - pos] by {
            assert(bytes.skip(pos)[i - pos] == bytes[i]);
            assert((x + bytes.skip(next))[i - pos] == x[i - pos]);
        }
    }
}

/// The value that the latest record of `k` in `recs` writes: `None` where that
/// record is a removal, or where no record is of `k`.
pub open spec fn latest_value(recs: Seq<RecordView>, k: Seq<char>) -> Option<Seq<char>>
    decreases recs.len(),
{
    if recs.len() == 0 {
        None
    } else if recs.last().key == k {
        recs.last().value
    } else {
        latest_value(recs.drop_last(), k)
    }
}

/// After any sequence of writes and removals, a key holds the value of its
/// most recent write, unless a removal came after it; a key never written
/// holds nothing.
pub proof fn lemma_contents_latest(recs: Seq<RecordView>, k: Seq<char>)
    ensures
        contents_of(recs).contains_key(k) <==> latest_value(recs, k) is Some,
        latest_value(recs, k) matches Some(v) ==> contents_of(recs)[k] == v,
    decreases recs.len(),
{
    if recs.len() > 0 {
        lemma_contents_latest(recs.drop_last(), k);
    }
}

/// A write of `v` under `k`, as the record appended at `offset`.
pub open spec fn write_record(offset: u64, k: Seq<char>, v: Seq<char>) -> RecordView {
    RecordView { db_key: offset, key: k, value: Some(v) }
}

/// A removal of `k`, as the record appended at `offset`.
pub open spec fn removal_record(offset: u64, k: Seq<char>) -> RecordView {
    RecordView { db_key: offset, key: k, value: None }
}

/// After `set(k, v)`, `get(k)` gives `v`.
pub proof fn lemma_set_then_get(recs: Seq<RecordView>, offset: u64, k: Seq<char>, v: Seq<char>)
    ensures
        contents_of(recs.push(write_record(offset, k, v))).contains_key(k),
        contents_of(recs.push(write_record(offset, k, v)))[k] == v,
        contents_of(recs.push(write_record(offset, k, v))) == contents_of(recs).insert(k, v),
{
    let q = recs.push(write_record(offset, k, v));
    assert(q.drop_last() =~= recs);
    assert(contents_of(q) =~= contents_of(recs).insert(k, v));
}

/// After `remove(k)`, `k` holds nothing and every other key is as it was.
pub proof fn lemma_remove_then_get(recs: Seq<RecordView>, offset: u64, k: Seq<char>)
    ensures
        contents_of(recs.push(removal_record(offset, k))) == contents_of(recs).remove(k),
{
    let q = recs.push(removal_record(offset, k));
    assert(q.drop_last() =~= recs);
    assert(contents_of(q) =~= contents_of(recs).remove(k));
}

/// `set(k, v); set(k, v)` leaves the same keys and values as `set(k, v)`.
pub proof fn lemma_set_idempotent(
    recs: Seq<RecordView>,
    offset1: u64,
    offset2: u64,
    k: Seq<char>,
    v: Seq<char>,
)
    ensures
        contents_of(recs.push(write_record(offset1, k, v)).push(write_record(offset2, k, v)))
            == contents_of(recs.push(write_record(offset1, k, v))),
        index_of(recs.push(write_record(offset1, k, v)).push(write_record(offset2, k, v))).dom()
            == index_of(recs.push(write_record(offset1, k, v))).dom(),
{
    let once = recs.push(write_record(offset1, k, v));
    let twice = once.push(write_record(offset2, k, v));
    lemma_set_then_get(recs, offset1, k, v);
    lemma_set_then_get(once, offset2, k, v);
    assert(contents_of(twice) =~= contents_of(once));
    assert(twice.drop_last() =~= once);
    assert(once.drop_last() =~= recs);
    assert(live_of(twice) == live_of(once).insert(k, write_record(offset2, k, v)));
    assert(live_of(once) == live_of(recs).insert(k, write_record(offset1, k, v)));
    assert(live_of(twice).dom() =~= live_of(once).dom());
    assert(index_of(twice).dom() =~= live_of(twice).dom());
    assert(index_of(once).dom() =~= live_of(once).dom());
}

/// Reopening a log rebuilds the store that wrote it: a well-placed log has
/// one reading only, so replaying it gives back the same records, index,
/// contents and stale count.
pub proof fn lemma_reopen_restores(written: Seq<RecordView>, reopened: Seq<RecordView>)
    requires
        well_placed(written),
        well_placed(reopened),
        log_bytes(written) == log_bytes(reopened),
    ensures
        reopened == written,
        index_of(reopened) == index_of(written),
        contents_of(reopened) == contents_of(written),
        stale_of(reopened) == stale_of(written),
{
    lemma_placed_fit(written);
    lemma_placed_fit(reopened);
    lemma_log_unique(written, reopened);
}

} // verus!
