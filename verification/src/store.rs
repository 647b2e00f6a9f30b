use vstd::hash_map::StringHashMap;
use vstd::prelude::*;
use vstd::slice::{slice_subrange, slice_to_vec};

use crate::error::{CorruptReason, StoreError};
use crate::event::{event_result, parse_frame, Event, EventModel, MalformedEvent};
use crate::log::{
    lemma_recover_keeps_records, lemma_scan_offsets_increase, lemma_scan_records_read_back,
    recover, scan, scan_from, Log,
};
use crate::record::{bytes_result, read_record, read_record_at};

verus! {

/// The model of the stream index: each stream that has events, mapped to the offsets of
/// its events in log order.
pub type IndexModel = Map<Seq<char>, Seq<u64>>;

/// No stream has an empty list: a stream is created only together with the offset of its
/// first event.
pub open spec fn index_wf(index: IndexModel) -> bool {
    forall|s: Seq<char>| #[trigger] index.contains_key(s) ==> index[s].len() > 0
}

/// Adds the record `item` (its offset and payload) to the index: its payload must decode
/// as an event frame, and its version must be the next one of its stream, which is 0 for
/// a stream not seen yet. Either failure is corruption at the record's offset.
pub open spec fn index_step(index: IndexModel, item: (u64, Seq<u8>)) -> Result<IndexModel, StoreError> {
    match parse_frame(item.1) {
        Err(m) => Err(
            StoreError::Corrupt { offset: item.0, reason: CorruptReason::MalformedFrame(m) },
        ),
        Ok(ev) => {
            let expected: nat = if index.contains_key(ev.stream) {
                index[ev.stream].len()
            } else {
                0
            };
            if ev.version != expected {
                Err(
                    StoreError::Corrupt {
                        offset: item.0,
                        reason: CorruptReason::NonContiguousVersion {
                            expected: expected as u64,
                            found: ev.version,
                        },
                    },
                )
            } else if index.contains_key(ev.stream) {
                Ok(index.insert(ev.stream, index[ev.stream].push(item.0)))
            } else {
                Ok(index.insert(ev.stream, seq![item.0]))
            }
        },
    }
}

/// The index built from records read in log order, or the first failure.
pub open spec fn rebuild(items: Seq<(u64, Seq<u8>)>) -> Result<IndexModel, StoreError>
    decreases items.len(),
{
    if items.len() == 0 {
        Ok(Map::empty())
    } else {
        match rebuild(items.drop_last()) {
            Err(e) => Err(e),
            Ok(index) => index_step(index, items.last()),
        }
    }
}

/// The index of the log whose bytes are `log`: its records are indexed in log order, and
/// the first failure, of a record's read or of its indexing, whichever comes first, stops
/// the rebuild.
pub open spec fn index_log(log: Seq<u8>) -> Result<IndexModel, StoreError> {
    match rebuild(scan(log).0) {
        Err(e) => Err(e),
        Ok(index) => match scan(log).1 {
            Some(e) => Err(e),
            None => Ok(index),
        },
    }
}

/// What opening a store over a file of bytes `file` gives: the length of the recovered
/// log and the index rebuilt from its records.
pub open spec fn open_store(file: Seq<u8>) -> Result<(u64, IndexModel), StoreError> {
    match recover(file) {
        Err(e) => Err(e),
        Ok(n) => match index_log(file.take(n as int)) {
            Err(e) => Err(e),
            Ok(index) => Ok((n, index)),
        },
    }
}

/// Once building the index has failed, more records do not change the failure.
proof fn lemma_rebuild_failure_stays(items: Seq<(u64, Seq<u8>)>, more: Seq<(u64, Seq<u8>)>)
    requires
        rebuild(items) is Err,
    ensures
        rebuild(items + more) == rebuild(items),
    decreases more.len(),
{
    if more.len() > 0 {
        lemma_rebuild_failure_stays(items, more.drop_last());
        assert((items + more).drop_last() =~= items + more.drop_last());
    } else {
        assert(items + more =~= items);
    }
}

/// How the store lays its index out: each stream names a slot of `lists`, no two streams
/// share a slot, and no list is empty.
pub open spec fn layout_wf(positions: Map<Seq<char>, usize>, lists: Seq<Vec<u64>>) -> bool {
    &&& forall|s: Seq<char>| #[trigger] positions.contains_key(s) ==> positions[s] < lists.len()
    &&& forall|s: Seq<char>, t: Seq<char>|
        #[trigger] positions.contains_key(s) && #[trigger] positions.contains_key(t) && s != t
            ==> positions[s] != positions[t]
    &&& forall|s: Seq<char>|
        #[trigger] positions.contains_key(s) ==> lists[positions[s] as int]@.len() > 0
}

/// The index that a layout holds.
pub open spec fn layout_model(positions: Map<Seq<char>, usize>, lists: Seq<Vec<u64>>) -> IndexModel {
    positions.map_values(|p: usize| lists[p as int]@)
}

/// The store: the record log and, for each stream, the offsets of its events.
pub struct Store {
    log: Log,
    positions: StringHashMap<usize>,
    lists: Vec<Vec<u64>>,
}

impl Store {
    #[verifier::type_invariant]
    spec fn inv(&self) -> bool {
        layout_wf(self.positions@, self.lists@)
    }

    /// The stream index, as values.
    pub closed spec fn index_model(&self) -> IndexModel {
        layout_model(self.positions@, self.lists@)
    }

    /// The store's log.
    pub closed spec fn log_model(&self) -> Log {
        self.log
    }

    /// Opens a store over a file of bytes `file`: the log is recovered, then every record
    /// is decoded and indexed under its stream, each version checked to be the next one.
    /// The file should then be cut to the length of `log()`.
    pub fn open(file: &[u8]) -> (r: Result<Store, StoreError>)
        ensures
            match r {
                Ok(store) => open_store(file@) == Ok::<(u64, IndexModel), StoreError>(
                    (store.log_model()@, store.index_model()),
                ),
                Err(e) => open_store(file@) == Err::<(u64, IndexModel), StoreError>(e),
            },
    {
        let log = match Log::open(file) {
            Ok(log) => log,
            Err(e) => return Err(e),
        };
        let file_len = file.len();
        let n = log.len();
        assert(n <= file_len);
        let region = slice_subrange(file, 0, n as usize);
        assert(region@ =~= file@.take(n as int));
        Store::from_log(log, region)
    }

    /// Rebuilds the index of an opened log, given the bytes `log_bytes` that the file holds
    /// over the length of the log: every record is decoded and indexed under its stream,
    /// each version checked to be the next one.
    pub fn from_log(log: Log, log_bytes: &[u8]) -> (r: Result<Store, StoreError>)
        requires
            log_bytes@.len() == log@,
        ensures
            match r {
                Ok(store) => {
                    &&& store.log_model() == log
                    &&& index_log(log_bytes@) == Ok::<IndexModel, StoreError>(store.index_model())
                },
                Err(e) => index_log(log_bytes@) == Err::<IndexModel, StoreError>(e),
            },
    {
        let mut positions: StringHashMap<usize> = StringHashMap::new();
        let mut lists: Vec<Vec<u64>> = Vec::new();
        let mut iter = log.iter();
        let ghost mut done: Seq<(u64, Seq<u8>)> = Seq::empty();
        assert(layout_model(positions@, lists@) =~= Map::<Seq<char>, Seq<u64>>::empty());
        loop
            invariant
                scan(log_bytes@).0 == done + scan_from(log_bytes@, iter.position() as int).0,
                scan(log_bytes@).1 == scan_from(log_bytes@, iter.position() as int).1,
                !iter.finished(),
                rebuild(done) == Ok::<IndexModel, StoreError>(layout_model(positions@, lists@)),
                layout_wf(positions@, lists@),
            decreases log_bytes@.len() - iter.position(),
        {
            let ghost pos = iter.position();
            match iter.next(log_bytes) {
                None => {
                    assert(done + scan_from(log_bytes@, pos as int).0 =~= done);
                    return Ok(Store { log, positions, lists });
                },
                Some(Err(e)) => {
                    assert(done + scan_from(log_bytes@, pos as int).0 =~= done);
                    return Err(e);
                },
                Some(Ok((offset, payload))) => {
                    let ghost item = (offset, payload@);
                    let ghost rest = scan_from(log_bytes@, iter.position() as int).0;
                    assert(scan(log_bytes@).0 =~= done.push(item) + rest);
                    assert(done.push(item).drop_last() =~= done);
                    let ghost before = layout_model(positions@, lists@);
                    let event = match Event::decode(payload.as_slice()) {
                        Ok(event) => event,
                        Err(err) => {
                            proof {
                                lemma_rebuild_failure_stays(done.push(item), rest);
                            }
                            return Err(
                                StoreError::Corrupt {
                                    offset,
                                    reason: CorruptReason::MalformedFrame(err),
                                },
                            );
                        },
                    };
                    let version = event.version();
                    match positions.get(event.stream().as_str()) {
                        Some(slot) => {
                            let p = *slot;
                            let expected = lists[p].len() as u64;
                            if version != expected {
                                proof {
                                    lemma_rebuild_failure_stays(done.push(item), rest);
                                }
                                return Err(
                                    StoreError::Corrupt {
                                        offset,
                                        reason: CorruptReason::NonContiguousVersion {
                                            expected,
                                            found: version,
                                        },
                                    },
                                );
                            }
                            let ghost old_lists = lists@;
                            let mut list: Vec<u64> = Vec::new();
                            lists.set_and_swap(p, &mut list);
                            list.push(offset);
                            lists.set_and_swap(p, &mut list);
                            proof {
                                let s = event@.stream;
                                assert forall|t: Seq<char>| #[trigger]
                                    positions@.contains_key(t) && t != s implies lists@[positions@[t] as int]
                                    == old_lists[positions@[t] as int] by {
                                    assert(positions@[t] != positions@[s]);
                                }
                                assert(layout_model(positions@, lists@) =~= before.insert(
                                    s,
                                    before[s].push(offset),
                                ));
                            }
                        },
                        None => {
                            if version != 0 {
                                proof {
                                    lemma_rebuild_failure_stays(done.push(item), rest);
                                }
                                return Err(
                                    StoreError::Corrupt {
                                        offset,
                                        reason: CorruptReason::NonContiguousVersion {
                                            expected: 0,
                                            found: version,
                                        },
                                    },
                                );
                            }
                            let ghost old_positions = positions@;
                            let ghost old_lists = lists@;
                            let p = lists.len();
                            let mut list: Vec<u64> = Vec::new();
                            list.push(offset);
                            lists.push(list);
                            let key = event.stream().clone();
                            positions.insert(key, p);
                            proof {
                                let s = event@.stream;
                                assert forall|t: Seq<char>| #[trigger]
                                    old_positions.contains_key(t) implies lists@[old_positions[t] as int]
                                    == old_lists[old_positions[t] as int] by {}
                                assert(layout_model(positions@, lists@) =~= before.insert(
                                    s,
                                    seq![offset],
                                ));
                            }
                        },
                    }
                    proof {
                        done = done.push(item);
                    }
                },
            }
        }
    }

    /// The store's log, which tells how long the log is.
    pub fn log(&self) -> (r: Log)
        ensures
            r == self.log_model(),
    {
        self.log
    }

    /// How many streams the index holds.
    pub fn stream_count(&self) -> (r: usize)
        ensures
            r == self.index_model().len(),
    {
        proof {
            assert(self.index_model().dom() =~= self.positions@.dom());
        }
        self.positions.len()
    }

    /// The offsets of the events of `stream`, in log order, if the stream exists.
    pub fn stream_offsets(&self, stream: &str) -> (r: Option<Vec<u64>>)
        ensures
            if self.index_model().contains_key(stream@) {
                r matches Some(v) && v@ == self.index_model()[stream@]
            } else {
                r is None
            },
    {
        proof {
            use_type_invariant(self);
        }
        match self.positions.get(stream) {
            Some(slot) => Some(slice_to_vec(self.lists[*slot].as_slice())),
            None => None,
        }
    }

    /// The version of the last event of `stream`; `None` when the stream does not exist,
    /// which is not a version number.
    pub fn stream_version(&self, stream: &str) -> (r: Option<u64>)
        ensures
            r == if self.index_model().contains_key(stream@) {
                Some((self.index_model()[stream@].len() - 1) as u64)
            } else {
                None::<u64>
            },
    {
        proof {
            use_type_invariant(self);
        }
        match self.positions.get(stream) {
            Some(slot) => Some(self.lists[*slot].len() as u64 - 1),
            None => None,
        }
    }

    /// Starts a read of the events of `stream`, in order. A stream that does not exist
    /// reads as empty.
    pub fn read_stream(&self, stream: &str) -> (r: StreamIter)
        ensures
            r.offsets() == if self.index_model().contains_key(stream@) {
                self.index_model()[stream@]
            } else {
                Seq::<u64>::empty()
            },
            r.position() == 0,
            !r.failed(),
    {
        proof {
            use_type_invariant(self);
        }
        let offsets = match self.positions.get(stream) {
            Some(slot) => slice_to_vec(self.lists[*slot].as_slice()),
            None => Vec::new(),
        };
        StreamIter { offsets, next_index: 0, failed: false }
    }
}

/// The event that the outcome of reading the record at `offset` gives: a payload must
/// decode as a frame, else it is corruption at that offset.
pub open spec fn event_from_read(offset: u64, read: Result<Seq<u8>, StoreError>) -> Result<
    EventModel,
    StoreError,
> {
    match read {
        Err(e) => Err(e),
        Ok(p) => match parse_frame(p) {
            Err(m) => Err(
                StoreError::Corrupt { offset, reason: CorruptReason::MalformedFrame(m) },
            ),
            Ok(ev) => Ok(ev),
        },
    }
}

/// What reading the event at `offset` of the log `log` gives.
pub open spec fn event_at(log: Seq<u8>, offset: u64) -> Result<EventModel, StoreError> {
    event_from_read(offset, read_record(log, offset))
}

/// A read of one stream's events, one record at a time. The first failure is yielded
/// once and ends the read.
#[derive(Debug)]
pub struct StreamIter {
    offsets: Vec<u64>,
    next_index: usize,
    failed: bool,
}

impl StreamIter {
    #[verifier::type_invariant]
    spec fn inv(&self) -> bool {
        self.next_index <= self.offsets@.len()
    }

    /// The offsets of the stream's events.
    pub closed spec fn offsets(&self) -> Seq<u64> {
        self.offsets@
    }

    /// How many events have been read.
    pub closed spec fn position(&self) -> int {
        self.next_index as int
    }

    /// Whether a failure has ended the read.
    pub closed spec fn failed(&self) -> bool {
        self.failed
    }

    /// The offset of the next event to read, or `None` once the read is over: every event
    /// has been read, or a failure ended the read.
    pub fn next_offset(&self) -> (r: Option<u64>)
        ensures
            match r {
                Some(offset) => {
                    &&& !self.failed()
                    &&& self.position() < self.offsets().len()
                    &&& offset == self.offsets()[self.position()]
                },
                None => self.failed() || self.position() >= self.offsets().len(),
            },
    {
        proof {
            use_type_invariant(self);
        }
        if self.failed || self.next_index >= self.offsets.len() {
            None
        } else {
            Some(self.offsets[self.next_index])
        }
    }

    /// Takes the outcome of reading the record at the offset that `next_offset` gives, and
    /// makes the next event of it. A failure ends the read.
    pub fn accept(&mut self, read: Result<Vec<u8>, StoreError>) -> (r: Result<Event, StoreError>)
        requires
            !old(self).failed(),
            old(self).position() < old(self).offsets().len(),
        ensures
            final(self).offsets() == old(self).offsets(),
            final(self).position() == old(self).position() + 1,
            final(self).failed() == r is Err,
            event_result(r) == event_from_read(
                old(self).offsets()[old(self).position()],
                bytes_result(read),
            ),
    {
        proof {
            use_type_invariant(&*self);
        }
        assert(self.next_index < self.offsets.len());
        let offset = self.offsets[self.next_index];
        self.next_index = self.next_index + 1;
        let result = match read {
            Err(e) => Err(e),
            Ok(bytes) => match Event::decode(bytes.as_slice()) {
                Ok(event) => Ok(event),
                Err(err) => Err(
                    StoreError::Corrupt { offset, reason: CorruptReason::MalformedFrame(err) },
                ),
            },
        };
        if result.is_err() {
            self.failed = true;
        }
        result
    }

    /// Reads the next event, given the bytes `log` that the file holds over the length of
    /// the store's log.
    pub fn next(&mut self, log: &[u8]) -> (r: Option<Result<Event, StoreError>>)
        ensures
            final(self).offsets() == old(self).offsets(),
            if old(self).failed() || old(self).position() >= old(self).offsets().len() {
                &&& r is None
                &&& final(self).position() == old(self).position()
                &&& final(self).failed() == old(self).failed()
            } else {
                &&& r matches Some(x) && event_result(x) == event_at(
                    log@,
                    old(self).offsets()[old(self).position()],
                ) && final(self).failed() == x is Err
                &&& final(self).position() == old(self).position() + 1
            },
    {
        match self.next_offset() {
            None => None,
            Some(offset) => {
                let read = read_record_at(log, offset);
                Some(self.accept(read))
            },
        }
    }
}

/// The events of `stream` among records read in log order, each with its offset.
pub open spec fn stream_events(items: Seq<(u64, Seq<u8>)>, stream: Seq<char>) -> Seq<
    (u64, EventModel),
>
    decreases items.len(),
{
    if items.len() == 0 {
        Seq::empty()
    } else {
        let earlier = stream_events(items.drop_last(), stream);
        match parse_frame(items.last().1) {
            Ok(ev) => if ev.stream == stream {
                earlier.push((items.last().0, ev))
            } else {
                earlier
            },
            Err(_) => earlier,
        }
    }
}

/// The offsets of a sequence of events.
pub open spec fn offsets_of(events: Seq<(u64, EventModel)>) -> Seq<u64> {
    events.map_values(|x: (u64, EventModel)| x.0)
}

/// A step keeps the index well formed.
proof fn lemma_index_step_wf(index: IndexModel, item: (u64, Seq<u8>))
    requires
        index_wf(index),
        index_step(index, item) is Ok,
    ensures
        index_wf(index_step(index, item)->Ok_0),
{
}

/// The index is the streams of the log, in log order, with contiguous versions: when the
/// index is built from records, every record holds an event; a stream has an entry exactly
/// when it has events; its entry lists the offsets of its events in log order; and the
/// event at position `n` of a stream has version `n`, so the last version is one less
/// than the number of events.
pub proof fn lemma_index_matches_log(items: Seq<(u64, Seq<u8>)>)
    requires
        rebuild(items) is Ok,
    ensures
        ({
            let index = rebuild(items)->Ok_0;
            &&& index_wf(index)
            &&& forall|k: int| 0 <= k < items.len() ==> parse_frame(#[trigger] items[k].1) is Ok
            &&& forall|s: Seq<char>|
                #[trigger] index.contains_key(s) <==> stream_events(items, s).len() > 0
            &&& forall|s: Seq<char>|
                index.contains_key(s) ==> index[s] == offsets_of(
                    #[trigger] stream_events(items, s),
                )
            &&& forall|s: Seq<char>, n: int|
                0 <= n < stream_events(items, s).len() ==> (#[trigger] stream_events(
                    items,
                    s,
                )[n]).1.version == n
        }),
    decreases items.len(),
{
    if items.len() > 0 {
        let prev = items.drop_last();
        let item = items.last();
        lemma_index_matches_log(prev);
        let before = rebuild(prev)->Ok_0;
        let index = rebuild(items)->Ok_0;
        let ev = parse_frame(item.1)->Ok_0;
        lemma_index_step_wf(before, item);
        assert forall|k: int| 0 <= k < items.len() implies parse_frame(
            #[trigger] items[k].1,
        ) is Ok by {
            if k < prev.len() {
                assert(items[k] == prev[k]);
            }
        }
        let old_events = stream_events(prev, ev.stream);
        let new_events = stream_events(items, ev.stream);
        assert(new_events == old_events.push((item.0, ev)));
        assert(offsets_of(new_events) =~= offsets_of(old_events).push(item.0));
        if !before.contains_key(ev.stream) {
            assert(old_events.len() == 0);
            assert(offsets_of(new_events) =~= seq![item.0]);
        }
        assert forall|s: Seq<char>| #[trigger] index.contains_key(s) <==> stream_events(
            items,
            s,
        ).len() > 0 by {
            if s != ev.stream {
                assert(stream_events(items, s) == stream_events(prev, s));
            }
        }
        assert forall|s: Seq<char>| index.contains_key(s) implies index[s] == offsets_of(
            #[trigger] stream_events(items, s),
        ) by {
            if s != ev.stream {
                assert(stream_events(items, s) == stream_events(prev, s));
            }
        }
        assert forall|s: Seq<char>, n: int|
            0 <= n < stream_events(items, s).len() implies (#[trigger] stream_events(
            items,
            s,
        )[n]).1.version == n by {
            if s == ev.stream && n == old_events.len() {
                assert(stream_events(items, s)[n] == (item.0, ev));
            } else if s == ev.stream {
                assert(stream_events(items, s)[n] == old_events[n]);
            } else {
                assert(stream_events(items, s) == stream_events(prev, s));
            }
        }
    }
}

/// Each event of a stream comes from one of the records, at that record's offset.
proof fn lemma_stream_events_come_from_records(items: Seq<(u64, Seq<u8>)>, stream: Seq<char>)
    ensures
        forall|k: int|
            0 <= k < stream_events(items, stream).len() ==> exists|j: int|
                0 <= j < items.len() && items[j].0 == (#[trigger] stream_events(
                    items,
                    stream,
                )[k]).0 && parse_frame(items[j].1) == Ok::<EventModel, MalformedEvent>(
                    stream_events(items, stream)[k].1,
                ),
    decreases items.len(),
{
    if items.len() > 0 {
        let prev = items.drop_last();
        lemma_stream_events_come_from_records(prev, stream);
        let events = stream_events(items, stream);
        assert forall|k: int| 0 <= k < events.len() implies exists|j: int|
            0 <= j < items.len() && items[j].0 == (#[trigger] events[k]).0 && parse_frame(
                items[j].1,
            ) == Ok::<EventModel, MalformedEvent>(events[k].1) by {
            if k < stream_events(prev, stream).len() {
                assert(events[k] == stream_events(prev, stream)[k]);
                let j = choose|j: int|
                    0 <= j < prev.len() && prev[j].0 == stream_events(prev, stream)[k].0
                        && parse_frame(prev[j].1) == Ok::<EventModel, MalformedEvent>(
                        stream_events(prev, stream)[k].1,
                    );
                assert(items[j] == prev[j]);
            } else {
                assert(items[items.len() - 1] == items.last());
            }
        }
    }
}

/// Reading a stream after opening gives its events in log order: at each offset that the
/// index lists for a stream, the log that the store kept holds the next event of that
/// stream.
pub proof fn lemma_stream_reads_back(file: Seq<u8>)
    requires
        open_store(file) is Ok,
    ensures
        ({
            let (n, index) = open_store(file)->Ok_0;
            let log = file.take(n as int);
            let items = scan(log).0;
            forall|s: Seq<char>, k: int|
                index.contains_key(s) && 0 <= k < stream_events(items, s).len() ==> {
                    &&& index[s][k] == stream_events(items, s)[k].0
                    &&& event_at(log, (#[trigger] stream_events(items, s)[k]).0) == Ok::<
                        EventModel,
                        StoreError,
                    >(stream_events(items, s)[k].1)
                }
        }),
{
    let (n, index) = open_store(file)->Ok_0;
    let log = file.take(n as int);
    let items = scan(log).0;
    lemma_index_matches_log(items);
    lemma_scan_records_read_back(log, 0);
    assert forall|s: Seq<char>, k: int|
        index.contains_key(s) && 0 <= k < stream_events(items, s).len() implies {
        &&& index[s][k] == stream_events(items, s)[k].0
        &&& event_at(log, (#[trigger] stream_events(items, s)[k]).0) == Ok::<
            EventModel,
            StoreError,
        >(stream_events(items, s)[k].1)
    } by {
        let events = stream_events(items, s);
        assert(index[s] == offsets_of(events));
        lemma_stream_events_come_from_records(items, s);
        let j = choose|j: int|
            0 <= j < items.len() && items[j].0 == events[k].0 && parse_frame(items[j].1)
                == Ok::<EventModel, MalformedEvent>(events[k].1);
        assert(read_record(log, items[j].0) == Ok::<Seq<u8>, StoreError>(items[j].1));
    }
}

/// Every event of a stream's events belongs to that stream.
proof fn lemma_stream_events_belong(items: Seq<(u64, Seq<u8>)>, stream: Seq<char>)
    ensures
        forall|n: int|
            0 <= n < stream_events(items, stream).len() ==> (#[trigger] stream_events(
                items,
                stream,
            )[n]).1.stream == stream,
    decreases items.len(),
{
    if items.len() > 0 {
        lemma_stream_events_belong(items.drop_last(), stream);
        let events = stream_events(items, stream);
        let earlier = stream_events(items.drop_last(), stream);
        assert forall|n: int| 0 <= n < events.len() implies (#[trigger] events[n]).1.stream
            == stream by {
            if n < earlier.len() {
                assert(events[n] == earlier[n]);
            }
        }
    }
}

/// When records come in strictly increasing order of offset, so do a stream's events.
proof fn lemma_stream_offsets_increase(items: Seq<(u64, Seq<u8>)>, stream: Seq<char>)
    requires
        forall|i: int, j: int|
            0 <= i < j < items.len() ==> (#[trigger] items[i]).0 < (#[trigger] items[j]).0,
    ensures
        forall|a: int, b: int|
            0 <= a < b < stream_events(items, stream).len() ==> (#[trigger] stream_events(
                items,
                stream,
            )[a]).0 < (#[trigger] stream_events(items, stream)[b]).0,
    decreases items.len(),
{
    if items.len() > 0 {
        let prev = items.drop_last();
        assert forall|i: int, j: int| 0 <= i < j < prev.len() implies (#[trigger] prev[i]).0 < (
        #[trigger] prev[j]).0 by {
            assert(prev[i] == items[i] && prev[j] == items[j]);
        }
        lemma_stream_offsets_increase(prev, stream);
        lemma_stream_events_come_from_records(prev, stream);
        let events = stream_events(items, stream);
        let earlier = stream_events(prev, stream);
        assert forall|a: int, b: int| 0 <= a < b < events.len() implies (#[trigger] events[a]).0
            < (#[trigger] events[b]).0 by {
            assert(events[a] == earlier[a]);
            if b < earlier.len() {
                assert(events[b] == earlier[b]);
            } else {
                assert(events[b].0 == items.last().0);
                let j = choose|j: int|
                    0 <= j < prev.len() && prev[j].0 == (#[trigger] earlier[a]).0 && parse_frame(
                        prev[j].1,
                    ) == Ok::<EventModel, MalformedEvent>(earlier[a].1);
                assert(prev[j] == items[j]);
                assert(items[j].0 < items[items.len() - 1].0);
            }
        }
    }
}

/// A record that holds an event of `stream` is among that stream's events.
proof fn lemma_record_among_its_stream(items: Seq<(u64, Seq<u8>)>, k: int)
    requires
        0 <= k < items.len(),
        parse_frame(items[k].1) is Ok,
    ensures
        ({
            let ev = parse_frame(items[k].1)->Ok_0;
            exists|n: int|
                0 <= n < stream_events(items, ev.stream).len() && #[trigger] stream_events(
                    items,
                    ev.stream,
                )[n] == (items[k].0, ev)
        }),
    decreases items.len(),
{
    let ev = parse_frame(items[k].1)->Ok_0;
    let events = stream_events(items, ev.stream);
    let prev = items.drop_last();
    let earlier = stream_events(prev, ev.stream);
    if k == items.len() - 1 {
        assert(events[earlier.len() as int] == (items[k].0, ev));
    } else {
        assert(prev[k] == items[k]);
        lemma_record_among_its_stream(prev, k);
        let n = choose|n: int|
            0 <= n < earlier.len() && #[trigger] earlier[n] == (prev[k].0, ev);
        assert(events[n] == earlier[n]);
    }
}

/// What opening a store gives, stream by stream: every list is non-empty and strictly
/// increasing; the event at position `m` of a stream's list reads back as an event of that
/// stream with version `m`; a stream has an entry exactly when the log holds an event of
/// it; and the offset of every record of the log is in the list of its own stream and in
/// no other.
pub proof fn lemma_open_store_index(file: Seq<u8>)
    requires
        open_store(file) is Ok,
    ensures
        ({
            let (n, index) = open_store(file)->Ok_0;
            let log = file.take(n as int);
            let items = scan(log).0;
            &&& index_wf(index)
            &&& forall|s: Seq<char>|
                #[trigger] index.contains_key(s) <==> stream_events(items, s).len() > 0
            &&& forall|s: Seq<char>, a: int, b: int|
                index.contains_key(s) && 0 <= a < b < index[s].len() ==> #[trigger] index[s][a]
                    < #[trigger] index[s][b]
            &&& forall|s: Seq<char>, m: int|
                index.contains_key(s) && 0 <= m < index[s].len() ==> (event_at(
                    log,
                    #[trigger] index[s][m],
                ) matches Ok(ev) && ev.stream == s && ev.version == m)
            &&& forall|k: int|
                0 <= k < items.len() ==> (parse_frame(#[trigger] items[k].1) matches Ok(ev) && {
                    &&& index.contains_key(ev.stream)
                    &&& index[ev.stream].contains(items[k].0)
                    &&& forall|s: Seq<char>|
                        index.contains_key(s) && index[s].contains(items[k].0) ==> s == ev.stream
                })
        }),
{
    let (n, index) = open_store(file)->Ok_0;
    let log = file.take(n as int);
    let items = scan(log).0;
    lemma_index_matches_log(items);
    lemma_stream_reads_back(file);
    lemma_scan_offsets_increase(log, 0);
    assert forall|s: Seq<char>, a: int, b: int|
        index.contains_key(s) && 0 <= a < b < index[s].len() implies #[trigger] index[s][a]
        < #[trigger] index[s][b] by {
        lemma_stream_offsets_increase(items, s);
        let events = stream_events(items, s);
        assert(events[a].0 < events[b].0);
    }
    assert forall|s: Seq<char>, m: int| index.contains_key(s) && 0 <= m < index[s].len() implies (
    event_at(log, #[trigger] index[s][m]) matches Ok(ev) && ev.stream == s && ev.version == m) by {
        lemma_stream_events_belong(items, s);
        let events = stream_events(items, s);
        assert(index[s][m] == events[m].0);
        assert(event_at(log, events[m].0) == Ok::<EventModel, StoreError>(events[m].1));
    }
    assert forall|k: int| 0 <= k < items.len() implies (parse_frame(#[trigger] items[k].1) matches Ok(
        ev,
    ) && {
        &&& index.contains_key(ev.stream)
        &&& index[ev.stream].contains(items[k].0)
        &&& forall|s: Seq<char>|
            index.contains_key(s) && index[s].contains(items[k].0) ==> s == ev.stream
    }) by {
        let ev = parse_frame(items[k].1)->Ok_0;
        lemma_record_among_its_stream(items, k);
        let events = stream_events(items, ev.stream);
        let m = choose|m: int| 0 <= m < events.len() && #[trigger] events[m] == (items[k].0, ev);
        assert(index.contains_key(ev.stream));
        assert(index[ev.stream][m] == items[k].0);
        assert forall|s: Seq<char>| index.contains_key(s) && index[s].contains(items[k].0) implies s
            == ev.stream by {
            lemma_stream_events_belong(items, s);
            lemma_stream_events_come_from_records(items, s);
            let other = stream_events(items, s);
            let q = choose|q: int| 0 <= q < index[s].len() && index[s][q] == items[k].0;
            assert(index[s][q] == other[q].0);
            let j = choose|j: int|
                0 <= j < items.len() && items[j].0 == (#[trigger] other[q]).0 && parse_frame(
                    items[j].1,
                ) == Ok::<EventModel, MalformedEvent>(other[q].1);
            if j != k {
                if j < k {
                    assert(items[j].0 < items[k].0);
                } else {
                    assert(items[k].0 < items[j].0);
                }
            }
        }
    }
}

/// Every record holds an event, and each event's version is the number of events of its
/// stream that come before it in the log.
pub open spec fn versions_contiguous(items: Seq<(u64, Seq<u8>)>) -> bool {
    forall|k: int|
        0 <= k < items.len() ==> (parse_frame(#[trigger] items[k].1) matches Ok(ev)
            && ev.version == stream_events(items.take(k), ev.stream).len())
}

/// The rebuild accepts exactly the logs whose versions are contiguous: it succeeds if and
/// only if every record holds an event whose version is the number of earlier events of
/// its stream.
pub proof fn lemma_rebuild_accepts_contiguous_versions(items: Seq<(u64, Seq<u8>)>)
    ensures
        rebuild(items) is Ok <==> versions_contiguous(items),
    decreases items.len(),
{
    if items.len() > 0 {
        let prev = items.drop_last();
        let x = items.last();
        let last = items.len() - 1;
        lemma_rebuild_accepts_contiguous_versions(prev);
        assert(items.take(last) =~= prev);
        assert(items[last] == x);
        assert forall|k: int| 0 <= k < prev.len() implies items.take(k) == prev.take(k)
            && #[trigger] items[k] == prev[k] by {
            assert(items.take(k) =~= prev.take(k));
        }
        if versions_contiguous(items) {
            assert(versions_contiguous(prev)) by {
                assert forall|k: int| 0 <= k < prev.len() implies (parse_frame(
                    #[trigger] prev[k].1,
                ) matches Ok(ev) && ev.version == stream_events(prev.take(k), ev.stream).len()) by {
                    assert(items[k] == prev[k]);
                }
            }
        }
        if rebuild(prev) is Ok {
            lemma_index_matches_log(prev);
            let before = rebuild(prev)->Ok_0;
            if parse_frame(x.1) is Ok {
                let ev = parse_frame(x.1)->Ok_0;
                if before.contains_key(ev.stream) {
                    assert(before[ev.stream].len() == stream_events(prev, ev.stream).len());
                } else {
                    assert(stream_events(prev, ev.stream).len() == 0);
                }
            }
            if versions_contiguous(prev) && parse_frame(x.1) is Ok && parse_frame(x.1)->Ok_0.version
                == stream_events(prev, parse_frame(x.1)->Ok_0.stream).len() {
                assert forall|k: int| 0 <= k < items.len() implies (parse_frame(
                    #[trigger] items[k].1,
                ) matches Ok(ev) && ev.version == stream_events(items.take(k), ev.stream).len()) by {
                    if k < prev.len() {
                        assert(items[k] == prev[k]);
                    }
                }
            }
        }
    } else {
        assert(versions_contiguous(items));
    }
}

/// Opening a store succeeds whenever the recovered log's versions are contiguous: a valid
/// log is never refused, however many events a stream has.
pub proof fn lemma_open_store_accepts_contiguous_versions(file: Seq<u8>)
    requires
        file.len() <= u64::MAX,
        recover(file) is Ok,
        versions_contiguous(scan(file.take(recover(file)->Ok_0 as int)).0),
    ensures
        open_store(file) is Ok,
{
    lemma_recover_keeps_records(file);
    lemma_rebuild_accepts_contiguous_versions(scan(file.take(recover(file)->Ok_0 as int)).0);
}

/// The failure that the rebuild reports for the record at position `k`: corruption at
/// that record's offset, because its payload is not a frame, or because its version is not
/// the number of earlier events of its stream.
pub open spec fn failure_at(items: Seq<(u64, Seq<u8>)>, k: int) -> StoreError {
    match parse_frame(items[k].1) {
        Err(m) => StoreError::Corrupt {
            offset: items[k].0,
            reason: CorruptReason::MalformedFrame(m),
        },
        Ok(ev) => StoreError::Corrupt {
            offset: items[k].0,
            reason: CorruptReason::NonContiguousVersion {
                expected: stream_events(items.take(k), ev.stream).len() as u64,
                found: ev.version,
            },
        },
    }
}

/// A refused rebuild names the first bad record: the records before it have contiguous
/// versions, and the failure is corruption at its offset, saying why.
pub proof fn lemma_rebuild_names_first_bad_record(items: Seq<(u64, Seq<u8>)>)
    requires
        rebuild(items) is Err,
    ensures
        exists|k: int|
            0 <= k < items.len() && versions_contiguous(#[trigger] items.take(k))
                && !versions_contiguous(items.take(k + 1)) && rebuild(items) == Err::<
                IndexModel,
                StoreError,
            >(failure_at(items, k)),
    decreases items.len(),
{
    let prev = items.drop_last();
    let last = items.len() - 1;
    if rebuild(prev) is Err {
        lemma_rebuild_names_first_bad_record(prev);
        let k = choose|k: int|
            0 <= k < prev.len() && versions_contiguous(#[trigger] prev.take(k))
                && !versions_contiguous(prev.take(k + 1)) && rebuild(prev) == Err::<
                IndexModel,
                StoreError,
            >(failure_at(prev, k));
        assert(items.take(k) =~= prev.take(k));
        assert(items.take(k + 1) =~= prev.take(k + 1));
        assert(prev[k] == items[k]);
        assert(failure_at(items, k) == failure_at(prev, k));
    } else {
        lemma_rebuild_accepts_contiguous_versions(prev);
        lemma_rebuild_accepts_contiguous_versions(items);
        lemma_index_matches_log(prev);
        assert(items.take(last) =~= prev);
        assert(items.take(last + 1) =~= items);
        let before = rebuild(prev)->Ok_0;
        assert(items.last() == items[last]);
        if parse_frame(items[last].1) is Ok {
            let ev = parse_frame(items[last].1)->Ok_0;
            if before.contains_key(ev.stream) {
                assert(before[ev.stream].len() == stream_events(prev, ev.stream).len());
            } else {
                assert(stream_events(prev, ev.stream).len() == 0);
            }
        }
        assert(rebuild(items) == Err::<IndexModel, StoreError>(failure_at(items, last)));
    }
}

} // verus!
