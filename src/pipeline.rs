use vstd::prelude::*;

use crate::batch::{joined, well_cut, Dispatcher};
use crate::model::{Entry, NewFinishedLog, NewStartingLog};
use crate::record::{
    classified, finished_state, id_key, lookup, parse_record, parsed_i64, record_parts,
    started_state, state_key, RecordError,
};
use crate::segment::{segments, Segmenter};

verus! {

/// The records of `records`, classified in order; the first error stops it.
pub open spec fn classify_all(records: Seq<Seq<u8>>) -> Result<Seq<Entry>, RecordError>
    decreases records.len(),
{
    if records.len() == 0 {
        Ok(Seq::empty())
    } else {
        match classify_all(records.drop_last()) {
            Err(e) => Err(e),
            Ok(es) => match classified(records.last()) {
                Ok(e) => Ok(es.push(e)),
                Err(e) => Err(e),
            },
        }
    }
}

/// The start events among `es`, in order.
pub open spec fn start_events(es: Seq<Entry>) -> Seq<NewStartingLog>
    decreases es.len(),
{
    if es.len() == 0 {
        Seq::empty()
    } else {
        match es.last() {
            Entry::Start(s) => start_events(es.drop_last()).push(s),
            Entry::Finish(_) => start_events(es.drop_last()),
        }
    }
}

/// The finish events among `es`, in order.
pub open spec fn finish_events(es: Seq<Entry>) -> Seq<NewFinishedLog>
    decreases es.len(),
{
    if es.len() == 0 {
        Seq::empty()
    } else {
        match es.last() {
            Entry::Finish(f) => finish_events(es.drop_last()).push(f),
            Entry::Start(_) => finish_events(es.drop_last()),
        }
    }
}

/// The batches of a list of dispatches.
pub open spec fn batches_of<T>(ds: Seq<(usize, Vec<T>)>) -> Seq<Seq<T>> {
    ds.map_values(|d: (usize, Vec<T>)| d.1@)
}

/// `ds` deals the items of `items` to `workers` writers, in batches of
/// `capacity` but for the last, the `k`-th batch to writer `k % workers`.
pub open spec fn dealt<T>(ds: Seq<(usize, Vec<T>)>, items: Seq<T>, capacity: int, workers: int) -> bool {
    &&& joined(batches_of(ds)) == items
    &&& well_cut(batches_of(ds), capacity)
    &&& forall|k: int| 0 <= k < ds.len() ==> (#[trigger] ds[k]).0 as int == k % workers
}

/// The batches of one run, each with the writer that it goes to.
pub struct Ingested {
    pub starts: Vec<(usize, Vec<NewStartingLog>)>,
    pub finishes: Vec<(usize, Vec<NewFinishedLog>)>,
}

/// A list of dispatches that mirrors what a dispatcher has sent so far.
spec fn mirrors<T>(ds: Seq<(usize, Vec<T>)>, d: Dispatcher<T>) -> bool {
    &&& batches_of(ds) == d.sent()
    &&& forall|k: int| 0 <= k < ds.len() ==> (#[trigger] ds[k]).0 as int == k % d.workers()
}

fn deal<T>(ds: &mut Vec<(usize, Vec<T>)>, d: &mut Dispatcher<T>, item: T)
    requires
        old(d).wf(),
        mirrors(old(ds)@, *old(d)),
    ensures
        final(d).wf(),
        mirrors(final(ds)@, *final(d)),
        final(d).pushed() == old(d).pushed().push(item),
        final(d).capacity() == old(d).capacity(),
        final(d).workers() == old(d).workers(),
{
    let ghost before = ds@;
    let ghost k = old(d).sent().len() as int;
    proof {
        old(d).lemma_wf();
    }
    match d.push(item) {
        Some(p) => {
            ds.push(p);
            proof {
                assert(batches_of(ds@) == batches_of(before).push(p.1@));
                assert(old(d).cursor() == k % old(d).workers());
            }
        },
        None => {
            assert(batches_of(ds@) == batches_of(before));
        },
    }
}

fn close<T>(ds: &mut Vec<(usize, Vec<T>)>, d: Dispatcher<T>)
    requires
        d.wf(),
        mirrors(old(ds)@, d),
    ensures
        dealt(final(ds)@, d.pushed(), d.capacity(), d.workers()),
{
    let ghost before = ds@;
    let ghost sent = d.sent();
    let ghost pending = d.pending();
    let ghost cap = d.capacity();
    let ghost k = sent.len() as int;
    let ghost c = d.cursor();
    proof {
        d.lemma_wf();
    }
    match d.finish() {
        Some(p) => {
            ds.push(p);
            proof {
                assert(batches_of(ds@) == sent.push(pending));
                assert(batches_of(ds@).drop_last() == sent);
            }
        },
        None => {
            assert(pending == Seq::<T>::empty());
            assert(joined(sent) + pending == joined(sent));
        },
    }
}

/// Runs the whole pipeline in one thread over an input held in memory: cuts
/// `input` into records, classifies them in order and deals each category's
/// events in batches of `capacity` to `workers` writers. Fails with the first
/// record that cannot be classified. Unterminated trailing bytes are dropped.
pub fn ingest(input: &[u8], capacity: usize, workers: usize) -> (r: Result<Ingested, RecordError>)
    requires
        capacity > 0,
        workers > 0,
    ensures
        r is Err ==> classify_all(segments(input@).0) == Err::<Seq<Entry>, RecordError>(
            r->Err_0,
        ),
        r is Ok ==> classify_all(segments(input@).0) is Ok,
        r matches Ok(out) ==> {
            let es = classify_all(segments(input@).0)->Ok_0;
            &&& dealt(out.starts@, start_events(es), capacity as int, workers as int)
            &&& dealt(out.finishes@, finish_events(es), capacity as int, workers as int)
        },
{
    let mut segmenter = Segmenter::new();
    let cut = segmenter.feed(input);
    let records = cut.records;
    proof {
        assert(crate::segment::views(records@) == segments(input@).0);
    }
    let ghost all = segments(input@).0;
    let mut start_dispatch: Dispatcher<NewStartingLog> = Dispatcher::new(capacity, workers);
    let mut finish_dispatch: Dispatcher<NewFinishedLog> = Dispatcher::new(capacity, workers);
    let mut starts: Vec<(usize, Vec<NewStartingLog>)> = Vec::new();
    let mut finishes: Vec<(usize, Vec<NewFinishedLog>)> = Vec::new();
    let ghost mut entries: Seq<Entry> = Seq::empty();
    let mut i: usize = 0;
    assert(all.subrange(0, 0) == Seq::<Seq<u8>>::empty());
    assert(batches_of(starts@) == Seq::<Seq<NewStartingLog>>::empty());
    assert(batches_of(finishes@) == Seq::<Seq<NewFinishedLog>>::empty());
    while i < records.len()
        invariant
            all == segments(input@).0,
            all == crate::segment::views(records@),
            0 <= i <= records@.len(),
            classify_all(all.subrange(0, i as int)) == Ok::<Seq<Entry>, RecordError>(entries),
            start_dispatch.wf(),
            finish_dispatch.wf(),
            start_dispatch.capacity() == capacity,
            start_dispatch.workers() == workers,
            finish_dispatch.capacity() == capacity,
            finish_dispatch.workers() == workers,
            start_dispatch.pushed() == start_events(entries),
            finish_dispatch.pushed() == finish_events(entries),
            mirrors(starts@, start_dispatch),
            mirrors(finishes@, finish_dispatch),
        decreases records@.len() - i,
    {
        let ghost prefix = all.subrange(0, i as int);
        let ghost next = all.subrange(0, i + 1);
        assert(next.drop_last() == prefix);
        assert(next.last() == records@[i as int]@);
        match parse_record(records[i].as_slice()) {
            Ok(entry) => {
                proof {
                    let before = entries;
                    entries = entries.push(entry);
                    assert(entries.drop_last() == before);
                }
                match entry {
                    Entry::Start(s) => {
                        deal(&mut starts, &mut start_dispatch, s);
                    },
                    Entry::Finish(f) => {
                        deal(&mut finishes, &mut finish_dispatch, f);
                    },
                }
            },
            Err(e) => {
                proof {
                    assert(all[i as int] == records@[i as int]@);
                    assert(classified(all[i as int]) == Err::<Entry, RecordError>(e));
                    lemma_classify_all_error(all, i as int);
                    assert(classify_all(all) == Err::<Seq<Entry>, RecordError>(e));
                }
                return Err(e);
            },
        }
        i = i + 1;
    }
    assert(all.subrange(0, i as int) == all);
    close(&mut starts, start_dispatch);
    close(&mut finishes, finish_dispatch);
    Ok(Ingested { starts, finishes })
}

/// Once a record fails, classifying any longer prefix fails with its error.
proof fn lemma_classify_all_error(all: Seq<Seq<u8>>, i: int)
    requires
        0 <= i < all.len(),
        classify_all(all.subrange(0, i)) is Ok,
        classified(all[i]) is Err,
    ensures
        classify_all(all) == Err::<Seq<Entry>, RecordError>(classified(all[i])->Err_0),
    decreases all.len(),
{
    if i + 1 == all.len() {
        assert(all.drop_last() == all.subrange(0, i));
    } else {
        let t = all.drop_last();
        assert(t.subrange(0, i) == all.subrange(0, i));
        lemma_classify_all_error(t, i);
    }
}

/// The id that a record carries, read as an `i64`.
pub open spec fn record_id(raw: Seq<u8>) -> i64 {
    parsed_i64(lookup(record_parts(raw), id_key())->Some_0)->Some_0
}

/// Whether the state field of a record is `state`.
pub open spec fn has_state(raw: Seq<u8>, state: Seq<u8>) -> bool {
    lookup(record_parts(raw), state_key()) == Some(state)
}

/// The ids of the records whose state is `state`, in order.
pub open spec fn ids_with_state(records: Seq<Seq<u8>>, state: Seq<u8>) -> Seq<i64>
    decreases records.len(),
{
    if records.len() == 0 {
        Seq::empty()
    } else if has_state(records.last(), state) {
        ids_with_state(records.drop_last(), state).push(record_id(records.last()))
    } else {
        ids_with_state(records.drop_last(), state)
    }
}

pub open spec fn start_ids(ss: Seq<NewStartingLog>) -> Seq<i64> {
    ss.map_values(|s: NewStartingLog| s.log_id)
}

pub open spec fn finish_ids(fs: Seq<NewFinishedLog>) -> Seq<i64> {
    fs.map_values(|f: NewFinishedLog| f.log_id)
}

proof fn lemma_ids_in_order(records: Seq<Seq<u8>>)
    requires
        classify_all(records) is Ok,
    ensures
        start_ids(start_events(classify_all(records)->Ok_0)) == ids_with_state(
            records,
            started_state(),
        ),
        finish_ids(finish_events(classify_all(records)->Ok_0)) == ids_with_state(
            records,
            finished_state(),
        ),
    decreases records.len(),
{
    if records.len() > 0 {
        let t = records.drop_last();
        lemma_ids_in_order(t);
        let es = classify_all(t)->Ok_0;
        let e = classified(records.last())->Ok_0;
        let all = es.push(e);
        assert(all.drop_last() == es);
        assert(started_state() != finished_state());
        match e {
            Entry::Start(s) => {
                assert(start_ids(start_events(es).push(s)) == start_ids(start_events(es)).push(
                    s.log_id,
                ));
            },
            Entry::Finish(f) => {
                assert(finish_ids(finish_events(es).push(f)) == finish_ids(finish_events(es)).push(
                    f.log_id,
                ));
            },
        }
    }
}

/// No loss and no duplication: when every record of a stream classifies, the
/// start events dealt carry exactly the ids of the records whose state is
/// `STARTED`, each as often as such records carry it; and the finish events
/// those of the records whose state is `FINISHED`.
pub proof fn lemma_no_loss_no_duplication(input: Seq<u8>)
    requires
        classify_all(segments(input).0) is Ok,
    ensures
        ({
            let records = segments(input).0;
            let es = classify_all(records)->Ok_0;
            &&& start_ids(start_events(es)).to_multiset() == ids_with_state(
                records,
                started_state(),
            ).to_multiset()
            &&& finish_ids(finish_events(es)).to_multiset() == ids_with_state(
                records,
                finished_state(),
            ).to_multiset()
        }),
{
    lemma_ids_in_order(segments(input).0);
}

/// Ingestion is not idempotent: when the start events of a run are written
/// again to a store that enforces no uniqueness, the store holds each of them
/// twice as often as one run wrote it, beside what it held before.
pub proof fn lemma_rerun_duplicates(input: Seq<u8>, store: Seq<NewStartingLog>, x: NewStartingLog)
    requires
        classify_all(segments(input).0) is Ok,
    ensures
        ({
            let written = start_events(classify_all(segments(input).0)->Ok_0);
            (store + written + written).to_multiset().count(x) == store.to_multiset().count(x) + 2
                * written.to_multiset().count(x)
        }),
{
    let written = start_events(classify_all(segments(input).0)->Ok_0);
    vstd::seq_lib::lemma_multiset_commutative(store + written, written);
    vstd::seq_lib::lemma_multiset_commutative(store, written);
}

/// The phase of a whole run.
#[derive(Debug, Clone, Copy, PartialEq, Eq, Structural)]
pub enum Phase {
    NotStarted,
    /// Every stage is alive.
    Running,
    /// The producers have closed their channels; the rest drain theirs.
    Draining,
    /// Every stage has exited normally.
    Completed,
    /// A stage met a fatal error.
    Aborted,
}

/// What the wiring of the pipeline observes.
#[derive(Debug, Clone, Copy, PartialEq, Eq, Structural)]
pub enum StageEvent {
    /// The stages have been started.
    Started,
    /// The producers have closed their outbound channels.
    ProducersClosed,
    /// Every stage has exited normally.
    AllExited,
    /// A stage failed.
    Fatal,
}

impl Phase {
    /// The phase after `event`. A finished run stays as it is, and an event
    /// that does not apply to the current phase changes nothing.
    pub fn next(self, event: StageEvent) -> (r: Phase)
        ensures
            self == Phase::NotStarted ==> r == if event == StageEvent::Started {
                Phase::Running
            } else {
                Phase::NotStarted
            },
            self == Phase::Running ==> r == match event {
                StageEvent::Started => Phase::Running,
                StageEvent::ProducersClosed => Phase::Draining,
                StageEvent::AllExited => Phase::Completed,
                StageEvent::Fatal => Phase::Aborted,
            },
            self == Phase::Draining ==> r == match event {
                StageEvent::AllExited => Phase::Completed,
                StageEvent::Fatal => Phase::Aborted,
                _ => Phase::Draining,
            },
            self == Phase::Completed || self == Phase::Aborted ==> r == self,
    {
        match (self, event) {
            (Phase::NotStarted, StageEvent::Started) => Phase::Running,
            (Phase::Running, StageEvent::ProducersClosed) => Phase::Draining,
            (Phase::Running, StageEvent::AllExited) => Phase::Completed,
            (Phase::Draining, StageEvent::AllExited) => Phase::Completed,
            (Phase::Running, StageEvent::Fatal) => Phase::Aborted,
            (Phase::Draining, StageEvent::Fatal) => Phase::Aborted,
            _ => self,
        }
    }

    /// Whether the run is over.
    pub fn is_finished(self) -> (r: bool)
        ensures
            r == (self == Phase::Completed || self == Phase::Aborted),
    {
        match self {
            Phase::Completed | Phase::Aborted => true,
            _ => false,
        }
    }
}

} // verus!
