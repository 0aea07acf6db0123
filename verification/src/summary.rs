//! The summary of one directory: its files in chronological order, each
//! with the time that passed since the earliest of them.

use crate::file::FileRecord;
use crate::name::{integer_of, parse, stem_of, strip_extension, tokens_of, try_parse_int};
use crate::order::{
    is_ascending, is_stable_order, lemma_ascending_stays, lemma_order_lists_every_row,
    lemma_ordered_keys_ascend, lemma_stable_order_exists, lemma_stable_order_unique, positions,
    stable_order, stable_order_of, SortKey,
};
use crate::timestamp::{combine_timestamp, combined, Timestamp};
use vstd::prelude::*;
use vstd::string::*;

verus! {

/// What is known of one file before the batch is put in order.
#[derive(Clone, Copy, Debug, PartialEq, Eq)]
pub struct Entry {
    pub timestamp: Option<Timestamp>,
    pub sequence_number: Option<i64>,
    pub red_dot_count: u128,
}

/// One row of the summary. `elapsed_seconds` is the time since the earliest
/// timestamp of the batch, in whole seconds; it is absent exactly where the
/// timestamp is.
#[derive(Clone, Copy, Debug, PartialEq, Eq)]
pub struct SummaryRow {
    pub timestamp: Option<Timestamp>,
    pub sequence_number: Option<i64>,
    pub red_dot_count: u128,
    pub elapsed_seconds: Option<u64>,
}

impl Entry {
    /// What the entry is ordered by.
    pub open spec fn key(self) -> SortKey {
        SortKey { timestamp: self.timestamp, sequence_number: self.sequence_number }
    }

    /// Gives what the entry is ordered by.
    pub fn sort_key(&self) -> (key: SortKey)
        ensures
            key == self.key(),
    {
        SortKey { timestamp: self.timestamp, sequence_number: self.sequence_number }
    }
}

impl SummaryRow {
    /// The row without its elapsed time.
    pub open spec fn entry(self) -> Entry {
        Entry {
            timestamp: self.timestamp,
            sequence_number: self.sequence_number,
            red_dot_count: self.red_dot_count,
        }
    }

    /// Gives the row without its elapsed time, as it can enter a batch again.
    pub fn to_entry(&self) -> (entry: Entry)
        ensures
            entry == self.entry(),
    {
        Entry {
            timestamp: self.timestamp,
            sequence_number: self.sequence_number,
            red_dot_count: self.red_dot_count,
        }
    }
}

/// The keys of a batch, in arrival order.
pub open spec fn keys_of(entries: Seq<Entry>) -> Seq<SortKey> {
    entries.map_values(|e: Entry| e.key())
}

/// The rows of a summary without their elapsed times.
pub open spec fn entries_in(rows: Seq<SummaryRow>) -> Seq<Entry> {
    rows.map_values(|r: SummaryRow| r.entry())
}

/// The earlier of two timestamps, either of which may be missing.
pub open spec fn earlier_of(a: Option<Timestamp>, b: Option<Timestamp>) -> Option<Timestamp> {
    match (a, b) {
        (None, _) => b,
        (_, None) => a,
        (Some(x), Some(y)) => if x.seconds <= y.seconds {
            a
        } else {
            b
        },
    }
}

/// The earliest timestamp that is present in a batch.
pub open spec fn earliest(entries: Seq<Entry>) -> Option<Timestamp>
    decreases entries.len(),
{
    if entries.len() == 0 {
        None
    } else {
        earlier_of(earliest(entries.drop_last()), entries.last().timestamp)
    }
}

/// `epoch` is the least of the timestamps present in the batch, or missing
/// where none is present.
pub open spec fn is_earliest(entries: Seq<Entry>, epoch: Option<Timestamp>) -> bool {
    match epoch {
        Some(e) => {
            &&& exists|i: int| 0 <= i < entries.len() && (#[trigger] entries[i]).timestamp == Some(e)
            &&& forall|i: int|
                0 <= i < entries.len() ==> ((#[trigger] entries[i]).timestamp matches Some(t)
                    ==> e.seconds <= t.seconds)
        },
        None => forall|i: int| 0 <= i < entries.len() ==> (#[trigger] entries[i]).timestamp is None,
    }
}

/// Seconds from the epoch of a batch to a timestamp.
pub open spec fn elapsed_since(epoch: Option<Timestamp>, t: Option<Timestamp>) -> Option<u64> {
    match (epoch, t) {
        (Some(e), Some(stamp)) => Some((stamp.seconds - e.seconds) as u64),
        _ => None,
    }
}

/// The row for an entry of a batch with the given epoch.
pub open spec fn row_of(entry: Entry, epoch: Option<Timestamp>) -> SummaryRow {
    SummaryRow {
        timestamp: entry.timestamp,
        sequence_number: entry.sequence_number,
        red_dot_count: entry.red_dot_count,
        elapsed_seconds: elapsed_since(epoch, entry.timestamp),
    }
}

/// The summary of a batch: its entries in stable ascending order of
/// timestamp and sequence number, each with the time since the earliest
/// timestamp of the batch.
pub open spec fn arranged(entries: Seq<Entry>) -> Seq<SummaryRow> {
    let order = stable_order_of(keys_of(entries));
    let epoch = earliest(entries);
    Seq::new(entries.len(), |p: int| row_of(entries[order[p]], epoch))
}

/// `then` holds the entries of `now` in another arrival order: `moved[i]`
/// says where entry `i` of `then` stands in `now`.
pub open spec fn is_rearranged(now: Seq<Entry>, then: Seq<Entry>, moved: Seq<int>) -> bool {
    &&& then.len() == now.len()
    &&& moved.len() == now.len()
    &&& forall|i: int| 0 <= i < moved.len() ==> 0 <= #[trigger] moved[i] < now.len()
    &&& forall|i: int| 0 <= i < then.len() ==> #[trigger] then[i] == now[moved[i]]
    &&& forall|i: int, j: int|
        0 <= i < j < moved.len() ==> #[trigger] moved[i] != #[trigger] moved[j]
}

/// No two entries of the batch tie.
pub open spec fn keys_distinct(entries: Seq<Entry>) -> bool {
    forall|i: int, j: int|
        0 <= i < j < entries.len() ==> !(#[trigger] entries[i]).key().ties_with(
            (#[trigger] entries[j]).key(),
        )
}

/// The earliest timestamp of a batch is the least of those present.
pub proof fn lemma_earliest_is_least(entries: Seq<Entry>)
    ensures
        is_earliest(entries, earliest(entries)),
    decreases entries.len(),
{
    if entries.len() > 0 {
        let rest = entries.drop_last();
        lemma_earliest_is_least(rest);
        let epoch = earliest(entries);
        assert forall|i: int| 0 <= i < rest.len() implies #[trigger] rest[i] == entries[i] by {}
        match epoch {
            Some(e) => {
                if epoch == entries.last().timestamp {
                    assert(entries[entries.len() - 1].timestamp == Some(e));
                } else {
                    let i = choose|i: int| 0 <= i < rest.len() && (#[trigger] rest[i]).timestamp == Some(e);
                    assert(entries[i].timestamp == Some(e));
                }
                assert forall|i: int| 0 <= i < entries.len() implies ((
                #[trigger] entries[i]).timestamp matches Some(t) ==> e.seconds <= t.seconds) by {
                    if i < rest.len() {
                        assert(rest[i] == entries[i]);
                    }
                }
            },
            None => {
                assert forall|i: int| 0 <= i < entries.len() implies (
                #[trigger] entries[i]).timestamp is None by {
                    if i < rest.len() {
                        assert(rest[i] == entries[i]);
                    }
                }
            },
        }
    }
}

/// A batch has one earliest timestamp only.
pub proof fn lemma_earliest_unique(entries: Seq<Entry>, a: Option<Timestamp>, b: Option<Timestamp>)
    requires
        is_earliest(entries, a),
        is_earliest(entries, b),
    ensures
        a == b,
{
    match (a, b) {
        (Some(x), Some(y)) => {
            let i = choose|i: int| 0 <= i < entries.len() && (#[trigger] entries[i]).timestamp == Some(x);
            let j = choose|j: int| 0 <= j < entries.len() && (#[trigger] entries[j]).timestamp == Some(y);
            assert(y.seconds <= x.seconds);
            assert(x.seconds <= y.seconds);
        },
        (Some(x), None) => {
            let i = choose|i: int| 0 <= i < entries.len() && (#[trigger] entries[i]).timestamp == Some(x);
            assert(entries[i].timestamp is None);
        },
        (None, Some(y)) => {
            let j = choose|j: int| 0 <= j < entries.len() && (#[trigger] entries[j]).timestamp == Some(y);
            assert(entries[j].timestamp is None);
        },
        (None, None) => {},
    }
}

/// The rows of a summary ascend by timestamp and then by sequence number,
/// and the summary has one row for each entry.
pub proof fn lemma_arranged_ascends(entries: Seq<Entry>)
    ensures
        arranged(entries).len() == entries.len(),
        is_ascending(keys_of(entries_in(arranged(entries)))),
{
    let keys = keys_of(entries);
    let order = stable_order_of(keys);
    lemma_stable_order_exists(keys);
    lemma_ordered_keys_ascend(keys, order);
    let sorted = Seq::new(keys.len(), |p: int| keys[order[p]]);
    assert(keys_of(entries_in(arranged(entries))) =~= sorted);
}

/// Every row with a timestamp carries the seconds from the earliest
/// timestamp of the batch to its own, which is never negative; every row
/// without one carries no elapsed time.
pub proof fn lemma_elapsed_from_earliest(entries: Seq<Entry>, p: int)
    requires
        0 <= p < entries.len(),
    ensures
        is_earliest(entries, earliest(entries)),
        match arranged(entries)[p].timestamp {
            Some(stamp) => {
                &&& earliest(entries) matches Some(epoch)
                &&& epoch.seconds <= stamp.seconds
                &&& arranged(entries)[p].elapsed_seconds matches Some(elapsed)
                &&& elapsed == stamp.seconds - epoch.seconds
            },
            None => arranged(entries)[p].elapsed_seconds is None,
        },
{
    let keys = keys_of(entries);
    let order = stable_order_of(keys);
    lemma_stable_order_exists(keys);
    lemma_earliest_is_least(entries);
    let from = order[p];
    assert(0 <= from < entries.len());
    assert(arranged(entries)[p] == row_of(entries[from], earliest(entries)));
    if entries[from].timestamp is Some {
        assert(earliest(entries) is Some);
    }
}

/// A batch that is already in ascending order keeps its order.
pub proof fn lemma_ascending_batch_keeps_order(entries: Seq<Entry>)
    requires
        is_ascending(keys_of(entries)),
    ensures
        arranged(entries) == entries.map_values(|e: Entry| row_of(e, earliest(entries))),
{
    lemma_ascending_stays(keys_of(entries));
    assert(arranged(entries) =~= entries.map_values(|e: Entry| row_of(e, earliest(entries))));
}

/// Rearranging a batch does not change its earliest timestamp.
proof fn lemma_earliest_of_rearranged(now: Seq<Entry>, then: Seq<Entry>, moved: Seq<int>)
    requires
        is_rearranged(now, then, moved),
    ensures
        earliest(then) == earliest(now),
{
    lemma_earliest_is_least(now);
    lemma_earliest_is_least(then);
    lemma_lists_every_place(moved);
    let epoch = earliest(then);
    match epoch {
        Some(e) => {
            let i = choose|i: int| 0 <= i < then.len() && (#[trigger] then[i]).timestamp == Some(e);
            assert(now[moved[i]].timestamp == Some(e));
            assert forall|k: int| 0 <= k < now.len() implies ((
            #[trigger] now[k]).timestamp matches Some(t) ==> e.seconds <= t.seconds) by {
                assert(moved.contains(k));
                let i = choose|i: int| 0 <= i < moved.len() && moved[i] == k;
                assert(then[i] == now[k]);
            }
        },
        None => {
            assert forall|k: int| 0 <= k < now.len() implies (#[trigger] now[k]).timestamp is None by {
                assert(moved.contains(k));
                let i = choose|i: int| 0 <= i < moved.len() && moved[i] == k;
                assert(then[i] == now[k]);
            }
        },
    }
    lemma_earliest_unique(now, earliest(now), epoch);
}

/// A list of `n` different places below `n` names every place below `n`.
proof fn lemma_lists_every_place(places: Seq<int>)
    requires
        forall|i: int| 0 <= i < places.len() ==> 0 <= #[trigger] places[i] < places.len(),
        forall|i: int, j: int|
            0 <= i < j < places.len() ==> #[trigger] places[i] != #[trigger] places[j],
    ensures
        forall|place: int| 0 <= place < places.len() ==> places.contains(place),
{
    let n = places.len() as int;
    assert(places.no_duplicates()) by {
        assert forall|i: int, j: int|
            0 <= i < places.len() && 0 <= j < places.len() && i != j implies places[i]
            != places[j] by {
            if i < j {
                assert(places[i] != places[j]);
            } else {
                assert(places[j] != places[i]);
            }
        }
    }
    let listed = places.to_set();
    let all = vstd::set_lib::set_int_range(0, n);
    places.unique_seq_to_set();
    vstd::set_lib::lemma_int_range(0, n);
    assert(listed.subset_of(all)) by {
        assert forall|place: int| listed.contains(place) implies all.contains(place) by {
            let p = choose|p: int| 0 <= p < places.len() && places[p] == place;
            assert(0 <= places[p] < n);
        }
    }
    vstd::set_lib::lemma_len_subset(listed, all);
    vstd::set_lib::lemma_subset_equality(listed, all);
    assert forall|place: int| 0 <= place < n implies places.contains(place) by {
        assert(all.contains(place));
        assert(listed.contains(place));
    }
}

/// Summarising the rows of a summary again changes nothing: the order
/// stays, and so does every elapsed time.
pub proof fn lemma_arranged_idempotent(entries: Seq<Entry>)
    ensures
        arranged(entries_in(arranged(entries))) == arranged(entries),
{
    let keys = keys_of(entries);
    let order = stable_order_of(keys);
    let rows = arranged(entries);
    let again = entries_in(rows);
    lemma_stable_order_exists(keys);
    lemma_arranged_ascends(entries);
    lemma_ascending_batch_keeps_order(again);
    lemma_order_lists_every_row(keys, keys.len() as int, order);
    assert(is_rearranged(entries, again, order)) by {
        assert forall|i: int, j: int| 0 <= i < j < order.len() implies #[trigger] order[i]
            != #[trigger] order[j] by {}
    }
    lemma_earliest_of_rearranged(entries, again, order);
    assert(arranged(again) =~= rows);
}

/// Where no two entries tie, the summary does not depend on the order in
/// which the entries arrived.
pub proof fn lemma_arranged_ignores_arrival_order(
    now: Seq<Entry>,
    then: Seq<Entry>,
    moved: Seq<int>,
)
    requires
        is_rearranged(now, then, moved),
        keys_distinct(now),
    ensures
        arranged(then) == arranged(now),
{
    let keys_now = keys_of(now);
    let keys_then = keys_of(then);
    let order_then = stable_order_of(keys_then);
    lemma_stable_order_exists(keys_now);
    lemma_stable_order_exists(keys_then);
    lemma_earliest_of_rearranged(now, then, moved);
    let through = Seq::new(now.len(), |p: int| moved[order_then[p]]);
    assert(is_stable_order(keys_now, through)) by {
        assert forall|p: int, q: int| 0 <= p < q < through.len() implies crate::order::comes_before(
            keys_now,
            #[trigger] through[p],
            #[trigger] through[q],
        ) by {
            let i = order_then[p];
            let j = order_then[q];
            assert(crate::order::comes_before(keys_then, order_then[p], order_then[q]));
            assert(keys_then[i] == keys_now[moved[i]]);
            assert(keys_then[j] == keys_now[moved[j]]);
            assert(i != j) by {
                lemma_order_lists_every_row(keys_then, keys_then.len() as int, order_then);
            }
            if i < j {
                assert(moved[i] != moved[j]);
            } else {
                assert(moved[j] != moved[i]);
            }
            if moved[i] < moved[j] {
                assert(!now[moved[i]].key().ties_with(now[moved[j]].key()));
            } else {
                assert(!now[moved[j]].key().ties_with(now[moved[i]].key()));
            }
        }
    }
    lemma_stable_order_unique(keys_now, through, stable_order_of(keys_now));
    assert(arranged(then) =~= arranged(now));
}

/// Finds the earliest timestamp present in a batch.
pub fn find_earliest(entries: &Vec<Entry>) -> (epoch: Option<Timestamp>)
    ensures
        epoch == earliest(entries@),
        is_earliest(entries@, epoch),
{
    let mut epoch: Option<Timestamp> = None;
    let mut i: usize = 0;
    while i < entries.len()
        invariant
            i <= entries.len(),
            epoch == earliest(entries@.take(i as int)),
        decreases entries.len() - i,
    {
        proof {
            assert(entries@.take(i + 1).drop_last() =~= entries@.take(i as int));
            assert(entries@.take(i + 1).last() == entries@[i as int]);
        }
        epoch =
        match (epoch, entries[i].timestamp) {
            (None, later) => later,
            (Some(e), None) => Some(e),
            (Some(e), Some(t)) => if e.seconds <= t.seconds {
                Some(e)
            } else {
                Some(t)
            },
        };
        i += 1;
    }
    proof {
        assert(entries@.take(entries@.len() as int) =~= entries@);
        lemma_earliest_is_least(entries@);
    }
    epoch
}

/// Puts a batch in order and computes the elapsed times.
///
/// The rows come out ascending by timestamp and then by sequence number; a
/// missing timestamp or number sorts before every present one, and rows
/// that tie keep the order in which they arrived. The elapsed time of a row
/// is counted from the earliest timestamp present in the batch.
pub fn arrange(entries: &Vec<Entry>) -> (rows: Vec<SummaryRow>)
    ensures
        rows@ == arranged(entries@),
        rows@.len() == entries@.len(),
        is_ascending(keys_of(entries_in(rows@))),
{
    let n = entries.len();
    let mut keys: Vec<SortKey> = Vec::new();
    let mut i: usize = 0;
    while i < n
        invariant
            i <= n,
            n == entries@.len(),
            keys@.len() == i,
            forall|k: int| 0 <= k < i ==> #[trigger] keys@[k] == entries@[k].key(),
        decreases n - i,
    {
        keys.push(entries[i].sort_key());
        i += 1;
    }
    assert(keys@ =~= keys_of(entries@));
    let order = stable_order(&keys);
    let epoch = find_earliest(entries);
    let mut rows: Vec<SummaryRow> = Vec::new();
    let mut p: usize = 0;
    while p < n
        invariant
            p <= n,
            n == entries@.len(),
            order@.len() == n,
            forall|k: int| 0 <= k < n ==> (#[trigger] order@[k]) < n,
            positions(order@) == stable_order_of(keys_of(entries@)),
            epoch == earliest(entries@),
            is_earliest(entries@, epoch),
            rows@.len() == p,
            forall|k: int| 0 <= k < p ==> #[trigger] rows@[k] == arranged(entries@)[k],
        decreases n - p,
    {
        let entry = entries[order[p]];
        assert(positions(order@)[p as int] == order@[p as int] as int);
        let elapsed: Option<u64> = match (epoch, entry.timestamp) {
            (Some(e), Some(stamp)) => {
                assert(e.seconds <= stamp.seconds);
                let seconds: i128 = stamp.seconds as i128 - e.seconds as i128;
                Some(seconds as u64)
            },
            _ => None,
        };
        rows.push(
            SummaryRow {
                timestamp: entry.timestamp,
                sequence_number: entry.sequence_number,
                red_dot_count: entry.red_dot_count,
                elapsed_seconds: elapsed,
            },
        );
        p += 1;
    }
    assert(rows@ =~= arranged(entries@));
    proof {
        lemma_arranged_ascends(entries@);
    }
    rows
}

/// Every name of the batch has at least three tokens in front of its
/// extension.
pub open spec fn all_well_formed(records: Seq<FileRecord>) -> bool {
    forall|i: int|
        0 <= i < records.len() ==> tokens_of(stem_of((#[trigger] records[i]).file_name@)) is Some
}

/// The entry for a file. In a batch whose names are all well formed the
/// tokens of the name give the sequence number and the timestamp. In any
/// other batch no file has a timestamp, and the whole name in front of the
/// extension is read as the number.
pub open spec fn entry_of(record: FileRecord, well_formed_batch: bool) -> Entry {
    let stem = stem_of(record.file_name@);
    match tokens_of(stem) {
        Some((number, date, time)) if well_formed_batch => Entry {
            timestamp: combined(date, time),
            sequence_number: integer_of(number),
            red_dot_count: record.total_red_dot_count,
        },
        _ => Entry {
            timestamp: None,
            sequence_number: integer_of(stem),
            red_dot_count: record.total_red_dot_count,
        },
    }
}

/// The entries of a batch of file records, in arrival order.
pub open spec fn entries_of(records: Seq<FileRecord>) -> Seq<Entry> {
    Seq::new(records.len(), |i: int| entry_of(records[i], all_well_formed(records)))
}

/// Checks that every name of a batch has at least three tokens. Where this
/// fails, the batch is summarised without timestamps, which deserves a
/// warning.
pub fn all_names_well_formed(records: &Vec<FileRecord>) -> (ok: bool)
    ensures
        ok == all_well_formed(records@),
{
    let mut i: usize = 0;
    while i < records.len()
        invariant
            i <= records.len(),
            forall|k: int|
                0 <= k < i ==> tokens_of(stem_of((#[trigger] records@[k]).file_name@)) is Some,
        decreases records.len() - i,
    {
        let parsed = parse(records[i].file_name.as_str());
        if parsed.date.is_none() {
            return false;
        }
        i += 1;
    }
    true
}

/// Gives the entry for one file of a batch.
pub fn make_entry(record: &FileRecord, well_formed_batch: bool) -> (entry: Entry)
    ensures
        entry == entry_of(*record, well_formed_batch),
{
    let parsed = parse(record.file_name.as_str());
    if well_formed_batch {
        match (parsed.date, parsed.time) {
            (Some(date), Some(time)) => {
                return Entry {
                    timestamp: combine_timestamp(date.as_str(), time.as_str()),
                    sequence_number: parsed.sequence_number,
                    red_dot_count: record.total_red_dot_count,
                };
            },
            _ => {},
        }
    }
    Entry {
        timestamp: None,
        sequence_number: try_parse_int(strip_extension(record.file_name.as_str())),
        red_dot_count: record.total_red_dot_count,
    }
}

/// `then` holds the records of `now` in another arrival order: `moved[i]`
/// says where record `i` of `then` stands in `now`.
pub open spec fn is_rearranged_batch(
    now: Seq<FileRecord>,
    then: Seq<FileRecord>,
    moved: Seq<int>,
) -> bool {
    &&& then.len() == now.len()
    &&& moved.len() == now.len()
    &&& forall|i: int| 0 <= i < moved.len() ==> 0 <= #[trigger] moved[i] < now.len()
    &&& forall|i: int| 0 <= i < then.len() ==> #[trigger] then[i] == now[moved[i]]
    &&& forall|i: int, j: int|
        0 <= i < j < moved.len() ==> #[trigger] moved[i] != #[trigger] moved[j]
}

/// In a batch with a malformed name no row has a timestamp or an elapsed
/// time.
pub proof fn lemma_malformed_batch_has_no_times(records: Seq<FileRecord>, p: int)
    requires
        !all_well_formed(records),
        0 <= p < records.len(),
    ensures
        arranged(entries_of(records))[p].timestamp is None,
        arranged(entries_of(records))[p].elapsed_seconds is None,
{
    let entries = entries_of(records);
    lemma_stable_order_exists(keys_of(entries));
    let from = stable_order_of(keys_of(entries))[p];
    assert(0 <= from < entries.len());
    assert(entries[from].timestamp is None);
}

/// Where no two files tie, the summary of a directory does not depend on
/// the order in which its files were found.
pub proof fn lemma_summary_ignores_arrival_order(
    now: Seq<FileRecord>,
    then: Seq<FileRecord>,
    moved: Seq<int>,
)
    requires
        is_rearranged_batch(now, then, moved),
        keys_distinct(entries_of(now)),
    ensures
        arranged(entries_of(then)) == arranged(entries_of(now)),
{
    lemma_lists_every_place(moved);
    assert(all_well_formed(then) == all_well_formed(now)) by {
        if all_well_formed(now) {
            assert forall|i: int| 0 <= i < then.len() implies tokens_of(
                stem_of((#[trigger] then[i]).file_name@),
            ) is Some by {
                assert(then[i] == now[moved[i]]);
            }
        }
        if all_well_formed(then) {
            assert forall|k: int| 0 <= k < now.len() implies tokens_of(
                stem_of((#[trigger] now[k]).file_name@),
            ) is Some by {
                assert(moved.contains(k));
                let i = choose|i: int| 0 <= i < moved.len() && moved[i] == k;
                assert(then[i] == now[k]);
            }
        }
    }
    assert(is_rearranged(entries_of(now), entries_of(then), moved)) by {
        assert forall|i: int| 0 <= i < then.len() implies #[trigger] entries_of(then)[i]
            == entries_of(now)[moved[i]] by {
            assert(then[i] == now[moved[i]]);
        }
    }
    lemma_arranged_ignores_arrival_order(entries_of(now), entries_of(then), moved);
}

/// Summarises the files of one directory.
///
/// Each name is taken apart and its date and time are read as a timestamp.
/// Should any name of the batch have fewer than three tokens, the whole
/// batch goes without timestamps and each name, without its extension, is
/// read as the sequence number. The entries are then put in order and given
/// their elapsed times, as `arrange` does.
pub fn summarize(records: &Vec<FileRecord>) -> (rows: Vec<SummaryRow>)
    ensures
        rows@ == arranged(entries_of(records@)),
        rows@.len() == records@.len(),
        !all_well_formed(records@) ==> forall|p: int|
            0 <= p < rows@.len() ==> (#[trigger] rows@[p]).timestamp is None
                && rows@[p].elapsed_seconds is None,
{
    let well_formed = all_names_well_formed(records);
    let mut entries: Vec<Entry> = Vec::new();
    let mut i: usize = 0;
    while i < records.len()
        invariant
            i <= records.len(),
            well_formed == all_well_formed(records@),
            entries@.len() == i,
            forall|k: int|
                0 <= k < i ==> #[trigger] entries@[k] == entry_of(records@[k], well_formed),
        decreases records.len() - i,
    {
        entries.push(make_entry(&records[i], well_formed));
        i += 1;
    }
    assert(entries@ =~= entries_of(records@));
    let rows = arrange(&entries);
    proof {
        if !well_formed {
            assert forall|p: int| 0 <= p < rows@.len() implies (#[trigger] rows@[p]).timestamp is None
                && rows@[p].elapsed_seconds is None by {
                lemma_malformed_batch_has_no_times(records@, p);
            }
        }
    }
    rows
}

} // verus!
