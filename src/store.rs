//! The store's state: its index over the log, its stale count and its
//! compaction thresholds.
//!
//! The store does not touch files. A write goes in two steps: the store
//! prepares the record to append at the end of the log, the caller appends
//! its bytes, and the store then takes the record in with `commit`. A read
//! asks the store where a key's record lies, and the store decodes the bytes
//! that the caller read there.
use vstd::prelude::*;

use crate::de::{DecodeError, Deserializer};
use crate::error::{Error, ErrorKind};
use crate::paths::{finalize_compacted_filename, finalized};
use crate::log::{
    compacted, contents_of, decodes, index_of, is_live_at, is_log, kept_upto, lemma_live,
    lemma_log_push, lemma_read_on, moved, lemma_live_finite, lemma_offsets_grow,
    lemma_record_in_log, lemma_log_split, lemma_log_take,
    lemma_record_bytes_nonempty, lemma_well_placed_push, live_of, log_bytes, stale_of, well_placed,
};
use crate::record::{
    lemma_record_bytes_unique, lemma_record_moved, encode_record, lemma_record_round_trip, read_record, record_bytes, record_fits, record_outcome,
    Record, RecordView,
};

verus! {

/// The compaction threshold on the share of stale records, as a fraction.
pub const DEFAULT_STALE_NUMERATOR: u64 = 1;

/// See `DEFAULT_STALE_NUMERATOR`: by default a quarter.
pub const DEFAULT_STALE_DENOMINATOR: u64 = 4;

/// How many live keys the store holds at least before it compacts, by default.
pub const DEFAULT_MIN_RECORDS_BEFORE_COMPACTION: u64 = 100;

/// Whether a store with `len` live keys and `stale` stale records compacts:
/// it holds at least `min` keys, and stale records are at least
/// `numerator / denominator` of the live keys (any stale record counts where
/// no key is live).
pub open spec fn compaction_due(
    len: nat,
    stale: nat,
    min: nat,
    numerator: nat,
    denominator: nat,
) -> bool {
    &&& len >= min
    &&& stale * denominator >= numerator * len
    &&& (len > 0 || stale > 0)
}

/// One entry of the index: a live key, and where its record lies.
struct IndexEntry {
    key: String,
    offset: u64,
    len: u64,
}

/// A record ready to be appended at the end of the log, with its bytes.
pub struct Append {
    record: Record,
    bytes: Vec<u8>,
}

impl Append {
    /// The record.
    pub closed spec fn record(&self) -> RecordView {
        self.record@
    }

    /// The bytes to append.
    pub closed spec fn spec_bytes(&self) -> Seq<u8> {
        self.bytes@
    }

    /// The bytes are the record's encoding, and the log ends within `u64`
    /// after them.
    #[verifier::type_invariant]
    spec fn inv(&self) -> bool {
        &&& self.bytes@ == record_bytes(self.record@)
        &&& record_fits(self.record@)
        &&& self.record.db_key + self.bytes@.len() <= u64::MAX
    }

    /// The bytes to append.
    pub fn bytes(&self) -> (r: &Vec<u8>)
        ensures
            r@ == self.spec_bytes(),
            r@ == record_bytes(self.record()),
    {
        proof {
            use_type_invariant(self);
        }
        &self.bytes
    }

    /// The offset at which the bytes are to be appended.
    pub fn offset(&self) -> (r: u64)
        ensures
            r == self.record().db_key,
    {
        self.record.db_key
    }
}

/// The live records rewritten into a fresh log, and the store over that log.
pub struct Compaction {
    store: KvStore,
    bytes: Vec<u8>,
}

impl Compaction {
    /// The store over the fresh log holds, and the bytes are that log.
    #[verifier::type_invariant]
    spec fn inv(&self) -> bool {
        &&& self.store.wf()
        &&& self.bytes@ == self.store.log()
    }

    /// The store over the fresh log.
    pub closed spec fn store(&self) -> KvStore {
        self.store
    }

    /// The bytes of the fresh log, to be written to its file.
    pub fn bytes(&self) -> (r: &Vec<u8>)
        ensures
            r@ == self.store().log(),
    {
        proof {
            use_type_invariant(self);
        }
        &self.bytes
    }

    /// The path of the fresh log's file.
    pub fn file_path(&self) -> (r: &String)
        ensures
            r@ == self.store().spec_file_path(),
    {
        &self.store.file_path
    }
}

/// The state of a key-value store over one log.
pub struct KvStore {
    index: Vec<IndexEntry>,
    stale_count: u64,
    file_path: String,
    log_len: u64,
    stale_numerator: u64,
    stale_denominator: u64,
    min_records_before_compaction: u64,
    records: Ghost<Seq<RecordView>>,
}

/// Whether `entries` hold exactly the live keys of `recs`, each once, with the
/// offset and length of its live record.
spec fn index_matches(entries: Seq<IndexEntry>, recs: Seq<RecordView>) -> bool {
    &&& forall|i: int|
        0 <= i < entries.len() ==> {
            let k = #[trigger] entries[i].key@;
            &&& live_of(recs).contains_key(k)
            &&& live_of(recs)[k].db_key == entries[i].offset
            &&& record_bytes(live_of(recs)[k]).len() == entries[i].len
        }
    &&& forall|k: Seq<char>|
        #[trigger] live_of(recs).contains_key(k) ==> exists|i: int|
            0 <= i < entries.len() && entries[i].key@ == k
    &&& forall|i: int, j: int|
        0 <= i < entries.len() && 0 <= j < entries.len() && i != j ==> entries[i].key@
            != entries[j].key@
}

/// The number of entries is the number of live keys.
proof fn lemma_index_len(entries: Seq<IndexEntry>, recs: Seq<RecordView>)
    requires
        index_matches(entries, recs),
    ensures
        live_of(recs).dom().len() == entries.len(),
{
    let ks = entries.map_values(|e: IndexEntry| e.key@);
    assert(ks.no_duplicates()) by {
        assert forall|i: int, j: int|
            0 <= i < ks.len() && 0 <= j < ks.len() && i != j implies ks[i] != ks[j] by {
            assert(ks[i] == entries[i].key@);
            assert(ks[j] == entries[j].key@);
        }
    }
    ks.unique_seq_to_set();
    assert(ks.to_set() =~= live_of(recs).dom()) by {
        assert forall|k: Seq<char>| ks.to_set().contains(k) implies live_of(recs).dom().contains(k) by {
            let i = choose|i: int| 0 <= i < ks.len() && ks[i] == k;
            assert(entries[i].key@ == k);
        }
        assert forall|k: Seq<char>| live_of(recs).dom().contains(k) implies ks.to_set().contains(k) by {
            assert(live_of(recs).contains_key(k));
            let i = choose|i: int| 0 <= i < entries.len() && entries[i].key@ == k;
            assert(ks[i] == k);
        }
    }
}

/// The stale count never passes the number of records, nor that the bytes
/// of the log.
pub proof fn lemma_stale_bound(recs: Seq<RecordView>)
    ensures
        stale_of(recs) <= recs.len(),
        recs.len() <= log_bytes(recs).len(),
    decreases recs.len(),
{
    if recs.len() > 0 {
        lemma_stale_bound(recs.drop_last());
        lemma_record_bytes_nonempty(recs.last());
    }
}

/// The index after a write of `key` at `offset`, whose record takes `len` bytes.
fn index_after_write(
    index: &mut Vec<IndexEntry>,
    found: Option<usize>,
    key: String,
    offset: u64,
    len: u64,
    recs: Ghost<Seq<RecordView>>,
    rec: Ghost<RecordView>,
)
    requires
        index_matches(old(index)@, recs@),
        rec@.key == key@,
        rec@.value is Some,
        rec@.db_key == offset,
        record_bytes(rec@).len() == len,
        match found {
            Some(i) => i < old(index)@.len() && old(index)@[i as int].key@ == key@,
            None => forall|i: int| 0 <= i < old(index)@.len() ==> old(index)@[i].key@ != key@,
        },
    ensures
        index_matches(final(index)@, recs@.push(rec@)),
{
    let ghost new_recs = recs@.push(rec@);
    assert(new_recs.drop_last() =~= recs@);
    assert(new_recs.last() == rec@);
    assert(live_of(new_recs) == live_of(recs@).insert(key@, rec@));
    match found {
        Some(i) => {
            index.set(i, IndexEntry { key, offset, len });
            assert(index_matches(index@, new_recs)) by {
                assert forall|k: Seq<char>|
                    #[trigger] live_of(new_recs).contains_key(k) implies exists|j: int|
                        0 <= j < index@.len() && index@[j].key@ == k by {
                    if k != rec@.key {
                        let j = choose|j: int| 0 <= j < old(index)@.len() && old(index)@[j].key@ == k;
                        assert(index@[j].key@ == k);
                    } else {
                        assert(index@[i as int].key@ == k);
                    }
                }
            }
        },
        None => {
            proof {
                if live_of(recs@).contains_key(key@) {
                    let j = choose|j: int| 0 <= j < old(index)@.len() && old(index)@[j].key@ == key@;
                }
            }
            index.push(IndexEntry { key, offset, len });
            assert(index_matches(index@, new_recs)) by {
                assert forall|k: Seq<char>|
                    #[trigger] live_of(new_recs).contains_key(k) implies exists|j: int|
                        0 <= j < index@.len() && index@[j].key@ == k by {
                    if k != rec@.key {
                        let j = choose|j: int| 0 <= j < old(index)@.len() && old(index)@[j].key@ == k;
                        assert(index@[j].key@ == k);
                    } else {
                        assert(index@[index@.len() - 1].key@ == k);
                    }
                }
            }
        },
    }
}

/// The index after a removal of `key`.
fn index_after_removal(
    index: &mut Vec<IndexEntry>,
    found: Option<usize>,
    key: &String,
    recs: Ghost<Seq<RecordView>>,
    rec: Ghost<RecordView>,
)
    requires
        index_matches(old(index)@, recs@),
        rec@.key == key@,
        rec@.value is None,
        match found {
            Some(i) => i < old(index)@.len() && old(index)@[i as int].key@ == key@,
            None => forall|i: int| 0 <= i < old(index)@.len() ==> old(index)@[i].key@ != key@,
        },
    ensures
        index_matches(final(index)@, recs@.push(rec@)),
{
    let ghost new_recs = recs@.push(rec@);
    assert(new_recs.drop_last() =~= recs@);
    assert(new_recs.last() == rec@);
    assert(live_of(new_recs) == live_of(recs@).remove(key@));
    match found {
        Some(i) => {
            let ghost before = index@;
            index.swap_remove(i);
            proof {
                let after = index@;
                let last = before.len() - 1;
                assert forall|k: Seq<char>|
                    #[trigger] live_of(new_recs).contains_key(k) implies exists|j: int|
                        0 <= j < after.len() && after[j].key@ == k by {
                    let j = choose|j: int| 0 <= j < before.len() && before[j].key@ == k;
                    if j == last {
                        assert(after[i as int].key@ == k);
                    } else {
                        assert(after[j].key@ == k);
                    }
                }
                assert forall|x: int, y: int|
                    0 <= x < after.len() && 0 <= y < after.len() && x != y implies after[x].key@
                        != after[y].key@ by {
                    let ox = if x == i {
                        last
                    } else {
                        x
                    };
                    let oy = if y == i {
                        last
                    } else {
                        y
                    };
                    assert(after[x] == before[ox]);
                    assert(after[y] == before[oy]);
                }
                assert forall|x: int| 0 <= x < after.len() implies {
                    let k = #[trigger] after[x].key@;
                    &&& live_of(new_recs).contains_key(k)
                    &&& live_of(new_recs)[k].db_key == after[x].offset
                    &&& record_bytes(live_of(new_recs)[k]).len() == after[x].len
                } by {
                    let ox = if x == i {
                        last
                    } else {
                        x
                    };
                    assert(after[x] == before[ox]);
                    assert(ox != i);
                }
            }
        },
        None => {
            proof {
                if live_of(recs@).contains_key(key@) {
                    let j = choose|j: int| 0 <= j < old(index)@.len() && old(index)@[j].key@ == key@;
                }
                assert(live_of(new_recs) == live_of(recs@));
            }
        },
    }
}

/// Where `r` begins a well-placed reading `r2` of `log` and the log goes on
/// after `r`, the next record of `r2` follows at the end of `r`.
#[verifier::rlimit(50)]
proof fn lemma_next_in_log(r: Seq<RecordView>, r2: Seq<RecordView>, log: Seq<u8>)
    requires
        well_placed(r2),
        log_bytes(r2) == log,
        r2.len() >= r.len(),
        r2.take(r.len() as int) == r,
        log_bytes(r).len() < log.len(),
    ensures
        r.len() < r2.len(),
        log.skip(log_bytes(r).len() as int) == record_bytes(r2[r.len() as int]) + log_bytes(
            r2.skip(r.len() as int + 1),
        ),
        r2[r.len() as int].db_key == log_bytes(r).len(),
        record_fits(r2[r.len() as int]),
        r2.take(r.len() as int + 1) == r.push(r2[r.len() as int]),
{
    let i = r.len() as int;
    if r2.len() == r.len() {
        assert(r2.take(i) =~= r2);
    }
    lemma_log_split(r2, i);
    let t = r2.skip(i);
    lemma_log_split(t, 1);
    lemma_log_take(t, 0);
    assert(t.take(0) =~= Seq::<RecordView>::empty());
    assert(t.skip(1) =~= r2.skip(i + 1));
    assert(log_bytes(t) == record_bytes(r2[i]) + log_bytes(r2.skip(i + 1)));
    assert(log == log_bytes(r) + log_bytes(t));
    assert(log.skip(log_bytes(r).len() as int) =~= log_bytes(t));
    assert(r2[i].db_key == log_bytes(r2.take(i)).len() && record_fits(r2[i]));
    assert(r2.take(i + 1) =~= r.push(r2[i]));
}

/// Whether `recs` begins every well-placed reading of `bytes`.
spec fn begins_every_reading(recs: Seq<RecordView>, bytes: Seq<u8>) -> bool {
    forall|r2: Seq<RecordView>|
        #![trigger log_bytes(r2)]
        well_placed(r2) && log_bytes(r2) == bytes ==> r2.len() >= recs.len() && r2.take(
            recs.len() as int,
        ) == recs
}

/// Where the replay has read `recs` and `bytes` is a log that goes on, the
/// next record can be read and carries its offset.
proof fn lemma_replay_goes_on(recs: Seq<RecordView>, bytes: Seq<u8>)
    requires
        begins_every_reading(recs, bytes),
        log_bytes(recs).len() < bytes.len(),
        log_bytes(recs) == bytes.take(log_bytes(recs).len() as int),
        is_log(bytes),
    ensures
        ({
            let rest = bytes.skip(log_bytes(recs).len() as int);
            match record_outcome(rest) {
                Ok((v, more)) => rest == record_bytes(v) + more && v.db_key == log_bytes(
                    recs,
                ).len(),
                Err(_) => false,
            }
        }),
{
    let r2 = choose|r2: Seq<RecordView>| well_placed(r2) && log_bytes(r2) == bytes;
    lemma_next_in_log(recs, r2, bytes);
    lemma_record_round_trip(r2[recs.len() as int], log_bytes(r2.skip(recs.len() as int + 1)));
}

/// After the replay reads `next`, the records read so far still begin every
/// reading of `bytes`.
#[verifier::rlimit(40)]
proof fn lemma_replay_step(recs: Seq<RecordView>, bytes: Seq<u8>, next: RecordView, more: Seq<u8>)
    requires
        record_fits(next),
        begins_every_reading(recs, bytes),
        log_bytes(recs).len() < bytes.len(),
        log_bytes(recs) == bytes.take(log_bytes(recs).len() as int),
        bytes.skip(log_bytes(recs).len() as int) == record_bytes(next) + more,
    ensures
        begins_every_reading(recs.push(next), bytes),
        log_bytes(recs) + record_bytes(next) == bytes.take(
            (log_bytes(recs).len() + record_bytes(next).len()) as int,
        ),
{
    let p = log_bytes(recs).len() as int;
    assert(bytes =~= bytes.take(p) + bytes.skip(p));
    assert(bytes.take(p + record_bytes(next).len()) =~= log_bytes(recs) + record_bytes(next));
    assert forall|r2: Seq<RecordView>|
        #![trigger log_bytes(r2)]
        well_placed(r2) && log_bytes(r2) == bytes implies r2.len() >= recs.len() + 1 && r2.take(
            recs.len() as int + 1,
        ) == recs.push(next) by {
        lemma_next_in_log(recs, r2, bytes);
        let w = r2[recs.len() as int];
        lemma_record_round_trip(w, log_bytes(r2.skip(recs.len() as int + 1)));
        lemma_record_bytes_unique(next, more, w, log_bytes(r2.skip(recs.len() as int + 1)));
    }
}

/// The state of compaction after it has walked the first `j` records of
/// `recs` and written `nr`: `nr` holds one write for each live key whose live
/// record it has passed, with that record's value, and its log is no longer
/// than the part of the old log walked so far.
spec fn compacted_upto(recs: Seq<RecordView>, j: int, nr: Seq<RecordView>) -> bool {
    let live = live_of(recs);
    &&& 0 <= j <= recs.len()
    &&& stale_of(nr) == 0
    &&& live_of(nr).dom().finite()
    &&& nr.len() == live_of(nr).dom().len()
    &&& log_bytes(nr).len() <= log_bytes(recs.take(j)).len()
    &&& forall|k: Seq<char>|
        #[trigger] live_of(nr).contains_key(k) <==> (live.contains_key(k) && exists|i: int|
            0 <= i < j && recs[i] == live[k])
    &&& forall|k: Seq<char>|
        #[trigger] live_of(nr).contains_key(k) ==> live_of(nr)[k].value == live[k].value
    &&& forall|i: int|
        0 <= i < nr.len() ==> live_of(nr).contains_key(#[trigger] nr[i].key) && live_of(nr)[nr[i].key]
            == nr[i]
}

/// Two records of a well-placed log at one offset are one record.
proof fn lemma_same_offset(recs: Seq<RecordView>, i: int, j: int)
    requires
        well_placed(recs),
        0 <= i < recs.len(),
        0 <= j < recs.len(),
        recs[i].db_key == recs[j].db_key,
    ensures
        i == j,
{
    if i < j {
        lemma_offsets_grow(recs, i, j);
    } else if j < i {
        lemma_offsets_grow(recs, j, i);
    }
}


/// Compaction passes a record that is not live.
#[verifier::rlimit(40)]
proof fn lemma_compact_pass(recs: Seq<RecordView>, j: int, nr: Seq<RecordView>)
    requires
        compacted_upto(recs, j, nr),
        j < recs.len(),
        !is_live_at(recs, j),
    ensures
        compacted_upto(recs, j + 1, nr),
{
    let live = live_of(recs);
    lemma_log_take(recs, j);
    assert forall|k: Seq<char>|
        #[trigger] live_of(nr).contains_key(k) <==> (live.contains_key(k) && exists|i: int|
            0 <= i < j + 1 && recs[i] == live[k]) by {
        if live.contains_key(k) && recs[j] == live[k] {
            lemma_live(recs, k);
        }
    }
}

/// Compaction rewrites the live record at `j` as `w`, at the end of `nr`.
#[verifier::rlimit(40)]
proof fn lemma_compact_keep(recs: Seq<RecordView>, j: int, nr: Seq<RecordView>, w: RecordView)
    requires
        well_placed(recs),
        compacted_upto(recs, j, nr),
        j < recs.len(),
        is_live_at(recs, j),
        w == (RecordView { db_key: w.db_key, ..recs[j] }),
        w.db_key == log_bytes(nr).len(),
    ensures
        compacted_upto(recs, j + 1, nr.push(w)),
        record_fits(w),
        log_bytes(nr).len() + record_bytes(w).len() <= log_bytes(recs.take(j + 1)).len(),
{
    let live = live_of(recs);
    let k = recs[j].key;
    let q = nr.push(w);
    lemma_log_take(recs, j);
    lemma_live(recs, k);
    assert(recs[j].db_key == log_bytes(recs.take(j)).len() && record_fits(recs[j]));
    lemma_record_moved(recs[j], w.db_key);
    assert(q.drop_last() =~= nr);
    assert(q.last() == w);
    assert(!live_of(nr).contains_key(k)) by {
        if live_of(nr).contains_key(k) {
            let i = choose|i: int| 0 <= i < j && recs[i] == live[k];
            lemma_offsets_grow(recs, i, j);
        }
    }
    assert(live_of(q) == live_of(nr).insert(k, w));
    assert(log_bytes(q) == log_bytes(nr) + record_bytes(w));
    assert forall|k2: Seq<char>|
        #[trigger] live_of(q).contains_key(k2) <==> (live.contains_key(k2) && exists|i: int|
            0 <= i < j + 1 && recs[i] == live[k2]) by {
        if k2 != k && live.contains_key(k2) && recs[j] == live[k2] {
            lemma_live(recs, k2);
        }
    }
}

/// Once compaction has walked every record, it has written each live key once
/// with its value.
proof fn lemma_compact_done(recs: Seq<RecordView>, nr: Seq<RecordView>)
    requires
        compacted_upto(recs, recs.len() as int, nr),
    ensures
        live_of(nr).dom() == live_of(recs).dom(),
        contents_of(nr) == contents_of(recs),
        stale_of(nr) == 0,
        nr.len() == index_of(nr).dom().len(),
        forall|i: int|
            0 <= i < nr.len() ==> index_of(nr).contains_key(#[trigger] nr[i].key) && index_of(
                nr,
            )[nr[i].key] == nr[i].db_key,
{
    let live = live_of(recs);
    assert forall|k: Seq<char>| live.contains_key(k) implies #[trigger] live_of(nr).contains_key(k) by {
        lemma_live(recs, k);
    }
    assert(live_of(nr).dom() =~= live.dom());
    assert(contents_of(nr) =~= contents_of(recs));
    assert(index_of(nr).dom() =~= live_of(nr).dom());
}

impl KvStore {
    /// The records of the log, in order.
    pub closed spec fn records(&self) -> Seq<RecordView> {
        self.records@
    }

    /// The path of the log file.
    pub closed spec fn spec_file_path(&self) -> Seq<char> {
        self.file_path@
    }

    /// The compaction thresholds: the least number of live keys, and the
    /// share of stale records as a numerator and a denominator.
    pub closed spec fn thresholds(&self) -> (nat, nat, nat) {
        (
            self.min_records_before_compaction as nat,
            self.stale_numerator as nat,
            self.stale_denominator as nat,
        )
    }

    /// The bytes of the log.
    pub open spec fn log(&self) -> Seq<u8> {
        log_bytes(self.records())
    }

    /// The live keys and their values.
    pub open spec fn contents(&self) -> Map<Seq<char>, Seq<char>> {
        contents_of(self.records())
    }

    /// The live keys and the offsets of their records.
    pub open spec fn index(&self) -> Map<Seq<char>, u64> {
        index_of(self.records())
    }

    /// The number of stale records.
    pub open spec fn stale(&self) -> nat {
        stale_of(self.records())
    }

    /// Whether the store should compact now.
    pub open spec fn spec_compaction_due(&self) -> bool {
        compaction_due(
            self.index().dom().len(),
            self.stale(),
            self.thresholds().0,
            self.thresholds().1,
            self.thresholds().2,
        )
    }

    /// The store's invariant: the index, the stale count and the log's length
    /// are those that replaying the log gives.
    pub closed spec fn wf(&self) -> bool {
        &&& well_placed(self.records@)
        &&& self.log_len == log_bytes(self.records@).len()
        &&& self.stale_count == stale_of(self.records@)
        &&& self.stale_denominator > 0
        &&& index_matches(self.index@, self.records@)
    }

    /// A store over an empty log at `file_path`, with the default thresholds.
    pub fn new(file_path: String) -> (s: Self)
        ensures
            s.wf(),
            s.records() == Seq::<RecordView>::empty(),
            s.spec_file_path() == file_path@,
            s.thresholds() == (
                DEFAULT_MIN_RECORDS_BEFORE_COMPACTION as nat,
                DEFAULT_STALE_NUMERATOR as nat,
                DEFAULT_STALE_DENOMINATOR as nat,
            ),
    {
        let s = KvStore {
            index: Vec::new(),
            stale_count: 0,
            file_path,
            log_len: 0,
            stale_numerator: DEFAULT_STALE_NUMERATOR,
            stale_denominator: DEFAULT_STALE_DENOMINATOR,
            min_records_before_compaction: DEFAULT_MIN_RECORDS_BEFORE_COMPACTION,
            records: Ghost(Seq::empty()),
        };
        assert(live_of(Seq::<RecordView>::empty()) == Map::<Seq<char>, RecordView>::empty());
        s
    }

    /// The position of `key` in the index.
    fn find(&self, key: &String) -> (r: Option<usize>)
        ensures
            match r {
                Some(i) => i < self.index@.len() && self.index@[i as int].key@ == key@,
                None => forall|i: int| 0 <= i < self.index@.len() ==> self.index@[i].key@ != key@,
            },
    {
        let mut i: usize = 0;
        while i < self.index.len()
            invariant
                0 <= i <= self.index@.len(),
                forall|j: int| 0 <= j < i ==> self.index@[j].key@ != key@,
            decreases self.index@.len() - i,
        {
            if self.index[i].key.eq(key) {
                return Some(i);
            }
            i = i + 1;
        }
        None
    }

    /// Whether `key` is live.
    pub fn contains_key(&self, key: &String) -> (r: bool)
        requires
            self.wf(),
        ensures
            r == self.contents().contains_key(key@),
    {
        match self.find(key) {
            Some(_) => true,
            None => {
                assert(!live_of(self.records()).contains_key(key@));
                false
            },
        }
    }

    /// The length of the log in bytes: where the next record goes.
    pub fn log_len(&self) -> (r: u64)
        requires
            self.wf(),
        ensures
            r == self.log().len(),
    {
        self.log_len
    }

    /// The number of stale records.
    pub fn stale_count(&self) -> (r: u64)
        requires
            self.wf(),
        ensures
            r == self.stale(),
    {
        self.stale_count
    }

    /// The path of the log file.
    pub fn file_path(&self) -> (r: &String)
        ensures
            r@ == self.spec_file_path(),
    {
        &self.file_path
    }

    /// Sets the compaction thresholds: the least number of live keys, and the
    /// share of stale records as `stale_numerator / stale_denominator`.
    pub fn set_compaction_thresholds(
        &mut self,
        min_records: u64,
        stale_numerator: u64,
        stale_denominator: u64,
    )
        requires
            old(self).wf(),
            stale_denominator > 0,
        ensures
            final(self).wf(),
            final(self).records() == old(self).records(),
            final(self).spec_file_path() == old(self).spec_file_path(),
            final(self).thresholds() == (
                min_records as nat,
                stale_numerator as nat,
                stale_denominator as nat,
            ),
    {
        self.min_records_before_compaction = min_records;
        self.stale_numerator = stale_numerator;
        self.stale_denominator = stale_denominator;
    }

    /// Builds the record for a write or a removal of `key` at the end of the
    /// log. Fails where the log would pass `u64::MAX` bytes.
    fn build_output_record(&self, key: String, value: Option<String>) -> (r: Result<
        Append,
        Error,
    >)
        requires
            self.wf(),
        ensures
            ({
                let rec = RecordView {
                    db_key: self.log().len() as u64,
                    key: key@,
                    value: match value {
                        Some(v) => Some(v@),
                        None => None,
                    },
                };
                match r {
                    Ok(a) => a.record() == rec,
                    Err(e) => e.spec_kind() == ErrorKind::IoError && self.log().len()
                        + record_bytes(rec).len() > u64::MAX,
                }
            }),
    {
        let record = Record { db_key: self.log_len, key, value };
        let bytes = encode_record(&record);
        if bytes.len() as u64 > u64::MAX - self.log_len {
            return Err(Error::new(ErrorKind::IoError));
        }
        Ok(Append { record, bytes })
    }

    /// Prepares `set(key, value)`: the record that writes `value` under
    /// `key`, to be appended at the end of the log and then committed.
    pub fn prepare_set(&self, key: String, value: String) -> (r: Result<Append, Error>)
        requires
            self.wf(),
        ensures
            ({
                let rec = RecordView {
                    db_key: self.log().len() as u64,
                    key: key@,
                    value: Some(value@),
                };
                match r {
                    Ok(a) => a.record() == rec,
                    Err(e) => e.spec_kind() == ErrorKind::IoError && self.log().len()
                        + record_bytes(rec).len() > u64::MAX,
                }
            }),
    {
        self.build_output_record(key, Some(value))
    }

    /// Prepares `remove(key)`: the record that removes `key`, to be appended
    /// at the end of the log and then committed. `KeyNotPresent` where `key`
    /// is not live; nothing is to be appended then.
    pub fn prepare_remove(&self, key: String) -> (r: Result<Append, Error>)
        requires
            self.wf(),
        ensures
            ({
                let rec = RecordView { db_key: self.log().len() as u64, key: key@, value: None };
                if !self.contents().contains_key(key@) {
                    r is Err && r->Err_0.spec_kind() == ErrorKind::KeyNotPresent
                } else {
                    match r {
                        Ok(a) => a.record() == rec,
                        Err(e) => e.spec_kind() == ErrorKind::IoError && self.log().len()
                            + record_bytes(rec).len() > u64::MAX,
                    }
                }
            }),
    {
        if !self.contains_key(&key) {
            return Err(Error::new(ErrorKind::KeyNotPresent));
        }
        self.build_output_record(key, None)
    }

    /// Takes in a record that has been appended at the end of the log, and
    /// says whether the store should compact now. `UnknownError` where the
    /// record was prepared for another length of the log: the store is left
    /// as it was.
    #[verifier::rlimit(40)]
    pub fn commit(&mut self, a: Append) -> (r: Result<bool, Error>)
        requires
            old(self).wf(),
        ensures
            final(self).wf(),
            final(self).spec_file_path() == old(self).spec_file_path(),
            final(self).thresholds() == old(self).thresholds(),
            if a.record().db_key == old(self).log().len() {
                &&& final(self).records() == old(self).records().push(a.record())
                &&& r == Ok::<bool, Error>(final(self).spec_compaction_due())
            } else {
                &&& final(self).records() == old(self).records()
                &&& r is Err && r->Err_0.spec_kind() == ErrorKind::UnknownError
            },
    {
        proof {
            use_type_invariant(&a);
        }
        if a.record.db_key != self.log_len {
            return Err(Error::new(ErrorKind::UnknownError));
        }
        let ghost old_recs = self.records@;
        let ghost rec = a.record@;
        let ghost new_recs = old_recs.push(rec);
        proof {
            lemma_well_placed_push(old_recs, rec);
            lemma_stale_bound(new_recs);
            assert(new_recs.drop_last() == old_recs);
        }
        let Append { record, bytes } = a;
        let len = bytes.len() as u64;
        let Record { db_key, key, value } = record;
        let found = self.find(&key);
        match value {
            Some(_) => {
                if found.is_some() {
                    proof {
                        assert(live_of(old_recs).contains_key(key@));
                    }
                    self.stale_count = self.stale_count + 1;
                }
                index_after_write(
                    &mut self.index,
                    found,
                    key,
                    db_key,
                    len,
                    Ghost(old_recs),
                    Ghost(rec),
                );
            },
            None => {
                index_after_removal(&mut self.index, found, &key, Ghost(old_recs), Ghost(rec));
                self.stale_count = self.stale_count + 1;
            },
        }
        self.log_len = self.log_len + len;
        self.records = Ghost(new_recs);
        Ok(self.compaction_due())
    }

    /// Rebuilds the store of the log at `file_path` from the log's bytes, by
    /// replaying its records: a write makes its key live at its offset, a
    /// removal drops its key, and each replaced write and each removal counts
    /// as stale. `IoError` where the bytes are not a log whose records each
    /// carry their own offset.
    #[verifier::rlimit(40)]
    pub fn open(file_path: String, log: Vec<u8>) -> (r: Result<KvStore, Error>)
        ensures
            match r {
                Ok(s) => {
                    &&& s.wf()
                    &&& s.log() == log@
                    &&& s.spec_file_path() == file_path@
                    &&& s.thresholds() == (
                        DEFAULT_MIN_RECORDS_BEFORE_COMPACTION as nat,
                        DEFAULT_STALE_NUMERATOR as nat,
                        DEFAULT_STALE_DENOMINATOR as nat,
                    )
                },
                Err(e) => e.spec_kind() == ErrorKind::IoError && !is_log(log@),
            },
    {
        let ghost bytes = log@;
        let mut store = KvStore::new(file_path);
        let mut de = Deserializer::new(log);
        assert(bytes.take(0) =~= Seq::<u8>::empty());
        assert(log_bytes(store.records()) == Seq::<u8>::empty());
        assert(begins_every_reading(store.records(), bytes)) by {
            assert forall|r2: Seq<RecordView>|
                #![trigger log_bytes(r2)]
                well_placed(r2) && log_bytes(r2) == bytes implies r2.len() >= 0 && r2.take(0)
                    == store.records() by {
                assert(r2.take(0) =~= Seq::<RecordView>::empty());
            }
        }
        loop
            invariant
                store.wf(),
                store.spec_file_path() == file_path@,
                store.thresholds() == (
                    DEFAULT_MIN_RECORDS_BEFORE_COMPACTION as nat,
                    DEFAULT_STALE_NUMERATOR as nat,
                    DEFAULT_STALE_DENOMINATOR as nat,
                ),
                de.input() == bytes,
                bytes == log@,
                de.pos() <= bytes.len(),
                de.rest() == bytes.skip(de.pos() as int),
                store.log().len() == de.pos(),
                store.log() == bytes.take(de.pos() as int),
                begins_every_reading(store.records(), bytes),
            decreases bytes.len() - de.pos(),
        {
            let ghost recs = store.records();
            let pos = de.position();
            let ghost rest = de.rest();
            let res = read_record(&mut de);
            proof {
                if is_log(bytes) && rest.len() > 0 {
                    lemma_replay_goes_on(recs, bytes);
                    let (v, more) = record_outcome(rest)->Ok_0;
                    assert(rest == record_bytes(v) + more);
                    assert(res is Ok && res->Ok_0 is Some && res->Ok_0->0@ == v);
                }
            }
            match res {
                Ok(None) => {
                    assert(rest.len() == 0);
                    assert(pos == bytes.len());
                    assert(bytes.take(pos as int) =~= bytes);
                    assert(store.log() == bytes);
                    return Ok(store);
                },
                Ok(Some(rec)) => {
                    if rec.db_key != pos as u64 {
                        return Err(Error::new(ErrorKind::IoError));
                    }
                    let ghost next = rec@;
                    let bytes_of_rec = encode_record(&rec);
                    let _ = de.position();
                    proof {
                        assert(rest.len() == bytes.len() - pos);
                        assert(de.rest().len() == bytes.len() - de.pos());
                        lemma_replay_step(recs, bytes, next, de.rest());
                        lemma_record_bytes_nonempty(next);
                        assert(recs.push(next).drop_last() =~= recs);
                        assert(log_bytes(recs.push(next)) == log_bytes(recs) + record_bytes(next));
                        assert(de.pos() == pos + record_bytes(next).len());
                    }
                    let a = Append { record: rec, bytes: bytes_of_rec };
                    let _ = store.commit(a);
                },
                Err(_) => {
                    return Err(Error::new(ErrorKind::IoError));
                },
            }
        }
    }

    /// The live record of each key.
    pub open spec fn live(&self) -> Map<Seq<char>, RecordView> {
        live_of(self.records())
    }

    /// Where the live record of `key` lies in the log: its offset and its
    /// length in bytes. `None` where `key` is not live.
    pub fn locate(&self, key: &String) -> (r: Option<(u64, u64)>)
        requires
            self.wf(),
        ensures
            match r {
                None => !self.contents().contains_key(key@),
                Some((offset, len)) => {
                    &&& self.contents().contains_key(key@)
                    &&& offset == self.index()[key@]
                    &&& offset + len <= self.log().len()
                    &&& self.log().subrange(offset as int, offset + len) == record_bytes(
                        self.live()[key@],
                    )
                },
            },
    {
        match self.find(key) {
            Some(i) => {
                proof {
                    let k = key@;
                    assert(self.index@[i as int].key@ == k);
                    lemma_live(self.records(), k);
                    let j = choose|j: int|
                        0 <= j < self.records().len() && self.records()[j] == self.live()[k];
                    lemma_record_in_log(self.records(), j);
                }
                Some((self.index[i].offset, self.index[i].len))
            },
            None => None,
        }
    }

    /// The value of `key`, from `record`: the bytes that the caller read from
    /// the log where `locate` placed the key's record. `Ok(None)` where `key`
    /// is not live. `IoError` where the bytes are not a record of `key` at
    /// its offset.
    pub fn get(&self, key: &String, record: Vec<u8>) -> (r: Result<Option<String>, Error>)
        requires
            self.wf(),
        ensures
            !self.contents().contains_key(key@) ==> r == Ok::<Option<String>, Error>(None),
            self.contents().contains_key(key@) && record@ == record_bytes(self.live()[key@])
                ==> r is Ok && r->Ok_0 is Some && r->Ok_0->0@ == self.contents()[key@],
            r is Ok && r->Ok_0 is Some ==> self.contents().contains_key(key@) && exists|
                more: Seq<u8>,
            |
                record@ == record_bytes(
                    RecordView {
                        db_key: self.index()[key@],
                        key: key@,
                        value: Some(r->Ok_0->0@),
                    },
                ) + more,
            self.contents().contains_key(key@) ==> !(r is Ok && r->Ok_0 is None),
            r is Err ==> r->Err_0.spec_kind() == ErrorKind::IoError,
    {
        let offset = match self.find(key) {
            Some(i) => self.index[i].offset,
            None => {
                return Ok(None);
            },
        };
        let ghost k = key@;
        proof {
            assert(self.contents().contains_key(k));
            if record@ == record_bytes(self.live()[k]) {
                lemma_live(self.records(), k);
                let j = choose|j: int|
                    0 <= j < self.records().len() && self.records()[j] == self.live()[k];
                lemma_record_round_trip(self.live()[k], Seq::empty());
                assert(record@ == record_bytes(self.live()[k]) + Seq::<u8>::empty());
            }
        }
        let mut de = Deserializer::new(record);
        match read_record(&mut de) {
            Ok(Some(rec)) => {
                if rec.db_key != offset || !rec.key.eq(key) {
                    return Err(Error::new(ErrorKind::IoError));
                }
                match rec.value {
                    Some(v) => Ok(Some(v)),
                    None => Err(Error::new(ErrorKind::IoError)),
                }
            },
            _ => Err(Error::new(ErrorKind::IoError)),
        }
    }

    /// Compaction: walks `old_log`, the bytes that the caller read from the
    /// log, and rewrites each live record, with its offset in the fresh log,
    /// into a fresh log at `compact_path`. Where `old_log` is this store's
    /// log, this succeeds, and the fresh store holds the same keys with the
    /// same values, one record for each, and nothing stale: the live records
    /// in log order, each at its offset in the fresh log. `IoError` where
    /// `old_log` does not decode to records up to its end; this store is left
    /// as it is either way.
    #[verifier::rlimit(40)]
    pub fn copy_active_records(&self, old_log: Vec<u8>, compact_path: String) -> (r: Result<
        Compaction,
        Error,
    >)
        requires
            self.wf(),
        ensures
            match r {
                Ok(c) => {
                    &&& c.store().wf()
                    &&& well_placed(c.store().records())
                    &&& c.store().spec_file_path() == compact_path@
                    &&& c.store().thresholds() == self.thresholds()
                    &&& decodes(old_log@)
                    &&& old_log@ == self.log() ==> {
                        &&& c.store().records() == compacted(self.records())
                        &&& c.store().contents() == self.contents()
                        &&& c.store().index().dom() == self.index().dom()
                        &&& c.store().stale() == 0
                        &&& c.store().records().len() == c.store().index().dom().len()
                        &&& forall|i: int|
                            0 <= i < c.store().records().len() ==> c.store().index().contains_key(
                                #[trigger] c.store().records()[i].key,
                            ) && c.store().index()[c.store().records()[i].key]
                                == c.store().records()[i].db_key
                    }
                },
                Err(e) => e.spec_kind() == ErrorKind::IoError && old_log@ != self.log(),
            },
    {
        let ghost recs = self.records();
        let ghost bytes = old_log@;
        let ghost valid = bytes == self.log();
        let mut fresh = KvStore::new(compact_path);
        fresh.set_compaction_thresholds(
            self.min_records_before_compaction,
            self.stale_numerator,
            self.stale_denominator,
        );
        let mut out: Vec<u8> = Vec::new();
        let mut de = Deserializer::new(old_log);
        let ghost mut j: int = 0;
        let ghost mut seen: Seq<RecordView> = Seq::empty();
        proof {
            assert(bytes.take(0) =~= log_bytes(seen));
            assert(recs.take(0) =~= Seq::<RecordView>::empty());
            lemma_live_finite(fresh.records());
            assert(live_of(fresh.records()).dom() =~= Set::<Seq<char>>::empty());
        }
        loop
            invariant
                self.wf(),
                recs == self.records(),
                fresh.wf(),
                fresh.spec_file_path() == compact_path@,
                fresh.thresholds() == self.thresholds(),
                out@ == fresh.log(),
                de.input() == bytes,
                de.pos() <= bytes.len(),
                bytes == old_log@,
                valid == (bytes == self.log()),
                log_bytes(seen) == bytes.take(de.pos() as int),
                valid ==> {
                    &&& compacted_upto(recs, j, fresh.records())
                    &&& fresh.records() == moved(kept_upto(recs, j))
                    &&& de.pos() == log_bytes(recs.take(j)).len()
                },
            decreases bytes.len() - de.pos(),
        {
            let pos = de.position();
            let ghost rest = de.rest();
            let ghost nr = fresh.records();
            proof {
                if valid && j < recs.len() {
                    assert(log_bytes(recs.take(j)).len() < bytes.len()) by {
                        lemma_log_split(recs, j + 1);
                        lemma_log_take(recs, j);
                        lemma_record_bytes_nonempty(recs[j]);
                    }
                    assert(recs.take(j).len() == j);
                    lemma_next_in_log(recs.take(j), recs, bytes);
                    lemma_record_round_trip(recs[j], log_bytes(recs.skip(j + 1)));
                    lemma_log_split(recs, j + 1);
                    lemma_log_take(recs, j);
                }
                if valid && j == recs.len() {
                    assert(recs.take(j) =~= recs);
                }
            }
            let res = read_record(&mut de);
            match res {
                Ok(None) => {
                    proof {
                        assert(rest.len() == 0);
                        assert(bytes.take(pos as int) =~= bytes);
                        assert(log_bytes(seen) == bytes);
                        if valid {
                            assert(j == recs.len());
                            lemma_compact_done(recs, fresh.records());
                        }
                    }
                    return Ok(Compaction { store: fresh, bytes: out });
                },
                Ok(Some(rec)) => {
                    let ghost v = rec@;
                    let _ = de.position();
                    proof {
                        lemma_record_bytes_nonempty(v);
                        assert(rest == record_bytes(v) + de.rest());
                        assert(de.rest().len() == bytes.len() - de.pos());
                        lemma_read_on(bytes, pos as int, de.pos() as int, record_bytes(v));
                        lemma_log_push(seen, v);
                        seen = seen.push(v);
                    }
                    let live = match self.find(&rec.key) {
                        Some(i) => self.index[i].offset == rec.db_key,
                        None => false,
                    };
                    proof {
                        if valid {
                            assert(v == recs[j]);
                            if live {
                                let k = v.key;
                                lemma_live(recs, k);
                                let i = choose|i: int| 0 <= i < recs.len() && recs[i] == live_of(recs)[k];
                                lemma_same_offset(recs, i, j);
                            } else {
                                if live_of(recs).contains_key(v.key) {
                                    let i = choose|i: int|
                                        0 <= i < self.index@.len() && self.index@[i].key@ == v.key;
                                }
                            }
                            assert(live == is_live_at(recs, j));
                        }
                    }
                    if live {
                        let at = fresh.log_len;
                        let relocated = Record { db_key: at, key: rec.key, value: rec.value };
                        let relocated_bytes = encode_record(&relocated);
                        proof {
                            if valid {
                                lemma_compact_keep(recs, j, nr, relocated@);
                                let kept = kept_upto(recs, j);
                                assert(kept_upto(recs, j + 1) == kept.push(recs[j]));
                                assert(kept.push(recs[j]).drop_last() =~= kept);
                                assert(moved(kept.push(recs[j])) == nr.push(relocated@));
                            }
                        }
                        if relocated_bytes.len() as u64 > u64::MAX - at {
                            return Err(Error::new(ErrorKind::IoError));
                        }
                        out.extend_from_slice(relocated_bytes.as_slice());
                        let _ = fresh.commit(Append { record: relocated, bytes: relocated_bytes });
                        proof {
                            lemma_well_placed_push(nr, relocated@);
                        }
                    } else {
                        proof {
                            if valid {
                                lemma_compact_pass(recs, j, nr);
                                assert(kept_upto(recs, j + 1) == kept_upto(recs, j));
                            }
                        }
                    }
                    proof {
                        if valid {
                            j = j + 1;
                        }
                    }
                },
                Err(_) => {
                    return Err(Error::new(ErrorKind::IoError));
                },
            }
        }
    }

    /// Swaps in the fresh store of a finished compaction, once its bytes are
    /// in its file, under the path that the file takes when its `.compact`
    /// becomes `.log`. Gives back the path of the old log, to be deleted.
    pub fn finish_compaction(&mut self, c: Compaction) -> (old_path: String)
        requires
            old(self).wf(),
        ensures
            final(self).wf(),
            final(self).records() == c.store().records(),
            final(self).thresholds() == c.store().thresholds(),
            final(self).spec_file_path() == finalized(c.store().spec_file_path()),
            old_path@ == old(self).spec_file_path(),
    {
        proof {
            use_type_invariant(&c);
        }
        let Compaction { store, bytes: _ } = c;
        let mut store = store;
        let final_path = finalize_compacted_filename(store.file_path.as_str());
        store.file_path = final_path;
        std::mem::swap(self, &mut store);
        store.file_path
    }

    /// Every record of the log carries, as its `db_key`, the offset at which
    /// it stands in the log.
    pub proof fn lemma_db_key_is_offset(&self)
        requires
            self.wf(),
        ensures
            well_placed(self.records()),
            forall|i: int|
                0 <= i < self.records().len() ==> #[trigger] self.records()[i].db_key == log_bytes(
                    self.records().take(i),
                ).len(),
    {
    }

    /// Whether the store should compact now: see `compaction_due`.
    pub fn compaction_due(&self) -> (r: bool)
        requires
            self.wf(),
        ensures
            r == self.spec_compaction_due(),
    {
        proof {
            lemma_index_len(self.index@, self.records@);
            assert(self.index().dom() =~= live_of(self.records()).dom());
        }
        let len = self.index.len() as u128;
        let stale = self.stale_count as u128;
        let den = self.stale_denominator as u128;
        let num = self.stale_numerator as u128;
        assert(stale * den <= u64::MAX * u64::MAX) by (nonlinear_arith)
            requires
                stale <= u64::MAX,
                den <= u64::MAX,
        ;
        assert(num * len <= u64::MAX * u64::MAX) by (nonlinear_arith)
            requires
                num <= u64::MAX,
                len <= u64::MAX,
        ;
        len >= self.min_records_before_compaction as u128 && stale * den >= num * len && (len > 0
            || stale > 0)
    }
}

} // verus!
