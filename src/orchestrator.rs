//! The consumer side: per-file completion records, the work queue derived
//! from a want-list, and the decisions that drive a session.
//!
//! The caller runs the loop. It asks `Downloader::next_step` what to do,
//! passing whether cancellation has been requested, performs that step on the
//! connection or the disk, and reports back what came of it: a fresh
//! want-list through `on_want_list`, each received chunk through `on_chunk`.
//! Cancellation is honoured at every call of `next_step`, that is before a
//! new cycle, before each queued file and before each chunk, so a session
//! only ever stops at a chunk boundary.

use vstd::prelude::*;

use crate::catalog::{Catalog, CatalogEntry};
use crate::chunk::{is_final_len, Chunk};
use crate::listing::string_views;

verus! {

/// The completion record of one catalog entry.
pub struct DownloadableFile {
    pub done: bool,
    pub file: String,
}

impl View for DownloadableFile {
    /// The name and whether the file has been received in full.
    type V = (Seq<char>, bool);

    open spec fn view(&self) -> (Seq<char>, bool) {
        (self.file@, self.done)
    }
}

/// The contents of a list of records.
pub open spec fn record_views(v: Seq<DownloadableFile>) -> Seq<(Seq<char>, bool)> {
    v.map_values(|r: DownloadableFile| r@)
}

/// The position of the first record named `name`, if any.
#[verifier::opaque]
pub open spec fn first_record(records: Seq<(Seq<char>, bool)>, name: Seq<char>) -> Option<int> {
    if exists|i: int| 0 <= i < records.len() && records[i].0 == name {
        Some(
            choose|i: int|
                0 <= i < records.len() && records[i].0 == name && forall|j: int|
                    0 <= j < i ==> records[j].0 != name,
        )
    } else {
        None
    }
}

/// Whether `name` still has to be fetched: its record exists and is not done.
pub open spec fn is_pending(records: Seq<(Seq<char>, bool)>, name: Seq<char>) -> bool {
    match first_record(records, name) {
        Some(i) => !records[i].1,
        None => false,
    }
}

/// The work queue for a want-list: the wanted names, in want-list order,
/// that still have to be fetched. Names without a record are left out.
pub open spec fn work_queue(wants: Seq<Seq<char>>, records: Seq<(Seq<char>, bool)>) -> Seq<
    Seq<char>,
> {
    wants.filter(|w: Seq<char>| is_pending(records, w))
}

/// Whether a queued name starts a transfer: it is not empty and still
/// pending. Other queued names are passed over without a request.
pub open spec fn startable(records: Seq<(Seq<char>, bool)>, name: Seq<char>) -> bool {
    name.len() > 0 && is_pending(records, name)
}

/// The position of the first queued name that starts a transfer, if any.
#[verifier::opaque]
pub open spec fn next_startable(records: Seq<(Seq<char>, bool)>, queue: Seq<Seq<char>>) -> Option<
    int,
> {
    if exists|k: int| 0 <= k < queue.len() && startable(records, queue[k]) {
        Some(
            choose|k: int|
                0 <= k < queue.len() && startable(records, queue[k]) && forall|j: int|
                    0 <= j < k ==> !startable(records, queue[j]),
        )
    } else {
        None
    }
}

proof fn lemma_first_record_at(records: Seq<(Seq<char>, bool)>, name: Seq<char>, i: int)
    requires
        0 <= i < records.len(),
        records[i].0 == name,
        forall|j: int| 0 <= j < i ==> records[j].0 != name,
    ensures
        first_record(records, name) == Some(i),
{
    reveal(first_record);
    let k = first_record(records, name)->Some_0;
    if k < i {
        assert(records[k].0 != name);
    } else if k > i {
        assert(records[i].0 != name);
    }
}

proof fn lemma_first_record_none(records: Seq<(Seq<char>, bool)>, name: Seq<char>)
    requires
        forall|j: int| 0 <= j < records.len() ==> records[j].0 != name,
    ensures
        first_record(records, name) is None,
{
    reveal(first_record);
}

proof fn lemma_next_startable_at(records: Seq<(Seq<char>, bool)>, queue: Seq<Seq<char>>, k: int)
    requires
        0 <= k < queue.len(),
        startable(records, queue[k]),
        forall|j: int| 0 <= j < k ==> !startable(records, queue[j]),
    ensures
        next_startable(records, queue) == Some(k),
{
    reveal(next_startable);
    let m = next_startable(records, queue)->Some_0;
    if m < k {
        assert(!startable(records, queue[m]));
    } else if m > k {
        assert(!startable(records, queue[k]));
    }
}

proof fn lemma_next_startable_none(records: Seq<(Seq<char>, bool)>, queue: Seq<Seq<char>>)
    requires
        forall|j: int| 0 <= j < queue.len() ==> !startable(records, queue[j]),
    ensures
        next_startable(records, queue) is None,
{
    reveal(next_startable);
}

proof fn lemma_filter_step<A>(s: Seq<A>, pred: spec_fn(A) -> bool)
    requires
        s.len() > 0,
    ensures
        s.filter(pred) == if pred(s.last()) {
            s.drop_last().filter(pred).push(s.last())
        } else {
            s.drop_last().filter(pred)
        },
{
    reveal(Seq::filter);
}

/// A name that is not pending (its record is done, or it has no record)
/// never enters the work queue, whatever the want-list: so it never leads to
/// a request on the wire.
pub proof fn lemma_settled_name_never_queued(
    wants: Seq<Seq<char>>,
    records: Seq<(Seq<char>, bool)>,
    name: Seq<char>,
)
    requires
        !is_pending(records, name),
    ensures
        !work_queue(wants, records).contains(name),
{
    let pred = |w: Seq<char>| is_pending(records, w);
    let q = wants.filter(pred);
    if q.contains(name) {
        let k = choose|k: int| 0 <= k < q.len() && q[k] == name;
        wants.lemma_filter_pred(pred, k);
    }
}

/// The position of the first record named `name`, if any.
pub fn find_record(records: &[DownloadableFile], name: &String) -> (r: Option<usize>)
    ensures
        match r {
            Some(i) => first_record(record_views(records@), name@) == Some(i as int) && i
                < records@.len(),
            None => first_record(record_views(records@), name@) is None,
        },
{
    let ghost rs = record_views(records@);
    let mut i: usize = 0;
    while i < records.len()
        invariant
            rs == record_views(records@),
            i <= rs.len(),
            forall|j: int| 0 <= j < i ==> rs[j].0 != name@,
        decreases rs.len() - i,
    {
        let same = records[i].file == *name;
        proof {
            assert(rs[i as int] == records@[i as int]@);
        }
        if same {
            proof {
                lemma_first_record_at(rs, name@, i as int);
            }
            return Some(i);
        }
        i = i + 1;
    }
    proof {
        lemma_first_record_none(rs, name@);
    }
    None
}

/// The work queue for `wants` against `records`: each wanted name, in order,
/// whose record exists and is not done. A name whose record is done never
/// enters the queue, so it never leads to a request.
pub fn update_queue(wants: &[String], records: &[DownloadableFile]) -> (r: Vec<String>)
    ensures
        string_views(r@) == work_queue(string_views(wants@), record_views(records@)),
        forall|k: int| 0 <= k < r@.len() ==> is_pending(record_views(records@), #[trigger] r@[k]@),
{
    let ghost rs = record_views(records@);
    let ghost ws = string_views(wants@);
    let ghost pred = |w: Seq<char>| is_pending(rs, w);
    let mut queue: Vec<String> = Vec::new();
    let mut i: usize = 0;
    proof {
        reveal(Seq::filter);
        assert(ws.take(0) =~= Seq::<Seq<char>>::empty());
        assert(string_views(queue@) =~= ws.take(0).filter(pred));
    }
    while i < wants.len()
        invariant
            rs == record_views(records@),
            ws == string_views(wants@),
            pred == (|w: Seq<char>| is_pending(rs, w)),
            i <= ws.len(),
            string_views(queue@) == ws.take(i as int).filter(pred),
        decreases ws.len() - i,
    {
        let w = &wants[i];
        let ghost before = string_views(queue@);
        proof {
            assert(ws.take(i + 1).drop_last() =~= ws.take(i as int));
            assert(ws.take(i + 1).last() == w@);
            lemma_filter_step(ws.take(i + 1), pred);
        }
        let found = find_record(records, w);
        proof {
            assert(pred(w@) == is_pending(rs, w@));
        }
        match found {
            Some(k) => {
                proof {
                    assert(rs[k as int] == records@[k as int]@);
                }
                if !records[k].done {
                    queue.push(w.clone());
                    proof {
                        assert(string_views(queue@) =~= before.push(w@));
                    }
                }
            },
            None => {},
        }
        i = i + 1;
    }
    proof {
        assert(ws.take(ws.len() as int) =~= ws);
        assert forall|k: int| 0 <= k < queue@.len() implies is_pending(rs, #[trigger] queue@[k]@) by {
            ws.lemma_filter_pred(pred, k);
            assert(string_views(queue@)[k] == queue@[k]@);
        }
    }
    queue
}

/// Where a session stands on the consumer side.
#[derive(Debug, Clone, Copy, PartialEq, Eq, Structural)]
pub enum DownloadPhase {
    /// Between transfers.
    Idle,
    /// Receiving the file of the record at `record`; `received` bytes so far.
    Receiving { record: usize, received: u64 },
    /// The stop byte has been sent; the session is over.
    Closed,
}

/// What the caller does next.
#[derive(Debug, PartialEq, Eq)]
pub enum Step {
    /// Re-read the want-list and hand it to `on_want_list`.
    ReloadWants,
    /// Send a file request for this name and start a fresh local file.
    Request(String),
    /// Receive one chunk and hand it to `on_chunk`.
    ReceiveChunk,
    /// Send the stop byte and close the connection.
    Stop,
}

/// The abstract state of a `Downloader`.
pub struct DownloaderView {
    pub records: Seq<(Seq<char>, bool)>,
    pub queue: Seq<Seq<char>>,
    pub phase: DownloadPhase,
}

/// The consumer's side of one session.
pub struct Downloader {
    records: Vec<DownloadableFile>,
    queue: Vec<String>,
    phase: DownloadPhase,
}

impl View for Downloader {
    type V = DownloaderView;

    closed spec fn view(&self) -> DownloaderView {
        DownloaderView { records: record_views(self.records@), queue: string_views(self.queue@), phase: self.phase }
    }
}

/// The records for a freshly received catalog: one per entry, none done.
pub open spec fn fresh_records(c: Seq<(Seq<char>, u64)>) -> Seq<(Seq<char>, bool)> {
    c.map_values(|e: (Seq<char>, u64)| (e.0, false))
}

/// `a + b`, or `u64::MAX` when that does not fit.
pub open spec fn saturating_sum(a: u64, b: nat) -> u64 {
    if a + b > u64::MAX {
        u64::MAX
    } else {
        (a + b) as u64
    }
}

impl DownloaderView {
    /// A file being received has a record, and that record is not done.
    pub open spec fn wf(self) -> bool {
        match self.phase {
            DownloadPhase::Receiving { record, .. } => record < self.records.len()
                && !self.records[record as int].1,
            _ => true,
        }
    }
}

impl Downloader {
    /// The state right after `catalog` arrived: a record per entry, none
    /// done, nothing queued.
    pub fn new(catalog: &Catalog) -> (r: Downloader)
        ensures
            r@.wf(),
            r@.records == fresh_records(catalog@),
            r@.queue.len() == 0,
            r@.phase == DownloadPhase::Idle,
    {
        let mut records: Vec<DownloadableFile> = Vec::new();
        let mut i: usize = 0;
        while i < catalog.entries.len()
            invariant
                i <= catalog@.len(),
                record_views(records@) == fresh_records(catalog@.take(i as int)),
            decreases catalog@.len() - i,
        {
            let entry: &CatalogEntry = &catalog.entries[i];
            let ghost before = records@;
            records.push(DownloadableFile { done: false, file: entry.name.clone() });
            proof {
                assert(catalog@[i as int] == entry@);
                assert(catalog@.take(i + 1) =~= catalog@.take(i as int).push(entry@));
                assert(fresh_records(catalog@.take(i + 1)) =~= fresh_records(catalog@.take(i as int)).push(
                    (entry@.0, false),
                ));
                assert(record_views(records@) =~= record_views(before).push((entry@.0, false)));
                assert(record_views(records@) =~= fresh_records(catalog@.take(i + 1)));
            }
            i = i + 1;
        }
        proof {
            assert(catalog@.take(catalog@.len() as int) =~= catalog@);
        }
        let d = Downloader { records, queue: Vec::new(), phase: DownloadPhase::Idle };
        proof {
            assert(d@.queue =~= Seq::<Seq<char>>::empty());
        }
        d
    }

    /// The completion records, one per catalog entry.
    pub fn records(&self) -> (r: &[DownloadableFile])
        ensures
            record_views(r@) == self@.records,
    {
        self.records.as_slice()
    }

    /// The names still queued in this cycle.
    pub fn queued(&self) -> (r: &[String])
        ensures
            string_views(r@) == self@.queue,
    {
        self.queue.as_slice()
    }

    /// Where the session stands.
    pub fn phase(&self) -> (r: DownloadPhase)
        ensures
            r == self@.phase,
    {
        self.phase
    }

    /// Takes a freshly read want-list: the queue becomes its work queue.
    pub fn on_want_list(&mut self, wants: &[String])
        requires
            old(self)@.wf(),
            old(self)@.phase == DownloadPhase::Idle,
        ensures
            final(self)@.wf(),
            final(self)@.queue == work_queue(string_views(wants@), old(self)@.records),
            final(self)@.records == old(self)@.records,
            final(self)@.phase == DownloadPhase::Idle,
    {
        self.queue = update_queue(wants, self.records.as_slice());
    }

    /// Decides the next step. When `cancelled` is set the session stops
    /// here, whatever it was doing: a file being received stays incomplete
    /// and its record stays not done. Otherwise a transfer in progress goes
    /// on with the next chunk; between transfers, the queue is taken from the
    /// front up to the first name that starts a transfer, which is requested
    /// from scratch, and when there is none the want-list is read again.
    pub fn next_step(&mut self, cancelled: bool) -> (r: Step)
        requires
            old(self)@.wf(),
            old(self)@.phase != DownloadPhase::Closed,
        ensures
            final(self)@.wf(),
            final(self)@.records == old(self)@.records,
            cancelled ==> r == Step::Stop && final(self)@.phase == DownloadPhase::Closed
                && final(self)@.queue == old(self)@.queue,
            !cancelled && old(self)@.phase !is Idle ==> r == Step::ReceiveChunk && final(self)@
                == old(self)@,
            !cancelled && old(self)@.phase is Idle ==> match next_startable(
                old(self)@.records,
                old(self)@.queue,
            ) {
                Some(k) => r matches Step::Request(name) && name@ == old(self)@.queue[k]
                    && final(self)@.queue == old(self)@.queue.skip(k + 1) && final(self)@.phase
                    == (DownloadPhase::Receiving {
                    record: first_record(old(self)@.records, name@)->Some_0 as usize,
                    received: 0,
                }),
                None => r == Step::ReloadWants && final(self)@.queue.len() == 0 && final(self)@.phase
                    == DownloadPhase::Idle,
            },
    {
        if cancelled {
            self.phase = DownloadPhase::Closed;
            return Step::Stop;
        }
        match self.phase {
            DownloadPhase::Idle => {},
            _ => {
                return Step::ReceiveChunk;
            },
        }
        let ghost rs = self@.records;
        let ghost q = self@.queue;
        let mut k: usize = 0;
        while k < self.queue.len()
            invariant
                old(self)@.wf(),
                !cancelled,
                old(self)@.phase == DownloadPhase::Idle,
                rs == old(self)@.records,
                q == old(self)@.queue,
                rs == record_views(self.records@),
                q == string_views(self.queue@),
                self.phase == DownloadPhase::Idle,
                k <= q.len(),
                forall|j: int| 0 <= j < k ==> !startable(rs, q[j]),
            decreases q.len() - k,
        {
            let name = &self.queue[k];
            proof {
                assert(q[k as int] == name@);
            }
            if !name.as_str().is_empty() {
                let found = find_record(self.records.as_slice(), name);
                match found {
                    Some(i) => {
                        proof {
                            assert(rs[i as int] == self.records@[i as int]@);
                        }
                        if !self.records[i].done {
                            let tail = self.queue.split_off(k + 1);
                            let picked = match self.queue.pop() {
                                Some(s) => s,
                                None => String::new(),
                            };
                            self.queue = tail;
                            self.phase = DownloadPhase::Receiving { record: i, received: 0 };
                            proof {
                                assert(startable(rs, q[k as int]));
                                lemma_next_startable_at(rs, q, k as int);
                                assert(string_views(self.queue@) =~= q.skip(k + 1));
                            }
                            return Step::Request(picked);
                        }
                    },
                    None => {},
                }
            }
            proof {
                assert(!startable(rs, q[k as int]));
            }
            k = k + 1;
        }
        proof {
            lemma_next_startable_none(rs, q);
        }
        self.queue = Vec::new();
        proof {
            assert(string_views(self.queue@) =~= Seq::<Seq<char>>::empty());
        }
        Step::ReloadWants
    }

    /// Gives up the transfer that `next_step` just started, before its
    /// request went out (its local file could not be created): the record
    /// stays not done and the session goes back to idle, so the rest of the
    /// queue goes on.
    pub fn abandon(&mut self)
        requires
            old(self)@.wf(),
            old(self)@.phase is Receiving,
        ensures
            final(self)@.wf(),
            final(self)@.records == old(self)@.records,
            final(self)@.queue == old(self)@.queue,
            final(self)@.phase == DownloadPhase::Idle,
    {
        self.phase = DownloadPhase::Idle;
    }

    /// Takes the next chunk of the file being received and counts its bytes.
    /// A final chunk completes the file: its record becomes done and the
    /// session goes back to idle. Returns whether the file is complete.
    pub fn on_chunk(&mut self, chunk: &Chunk) -> (r: bool)
        requires
            old(self)@.wf(),
            old(self)@.phase is Receiving,
        ensures
            final(self)@.wf(),
            r == is_final_len(chunk@.len()),
            final(self)@.queue == old(self)@.queue,
            r ==> final(self)@.phase == DownloadPhase::Idle && final(self)@.records == old(self)@.records.update(
                old(self)@.phase->record as int,
                (old(self)@.records[old(self)@.phase->record as int].0, true),
            ),
            !r ==> final(self)@.records == old(self)@.records && final(self)@.phase
                == (DownloadPhase::Receiving {
                record: old(self)@.phase->record,
                received: saturating_sum(old(self)@.phase->received, chunk@.len()),
            }),
    {
        let (record, received) = match self.phase {
            DownloadPhase::Receiving { record, received } => (record, received),
            _ => (0, 0),
        };
        let n = chunk.len() as u64;
        let total = received.saturating_add(n);
        if chunk.end() {
            let file = self.records[record].file.clone();
            self.phase = DownloadPhase::Idle;
            let ghost before = self.records@;
            self.records.set(record, DownloadableFile { done: true, file });
            proof {
                assert(record_views(self.records@) =~= record_views(before).update(
                    record as int,
                    (before[record as int]@.0, true),
                ));
            }
            true
        } else {
            self.phase = DownloadPhase::Receiving { record, received: total };
            false
        }
    }
}

} // verus!
