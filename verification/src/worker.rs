//! The worker: parse, obfuscate, buffer, and flush on size or time.
//!
//! A worker owns one batch buffer and a last-flush timestamp.  Lines handed
//! to it are parsed and obfuscated; rows accumulate in the batch, which is
//! handed out as a flush when it reaches the configured size, when the
//! worker sits idle past the flush interval, or when the queue closes.  A
//! flush is returned to the caller, which performs the sink write and
//! reports the outcome back; a failed write discards the batch (counted as
//! an error, never retried) and processing continues.
use crate::graphite::GraphiteMetric;
use crate::graphite::int_of;
use crate::graphite::is_float_literal;
use crate::graphite::line_tokens;
use crate::graphite::spec_name;
use crate::graphite::spec_tags;
use crate::obf::obfuscate;
use crate::obf::rendered_path;
use crate::sat_inc;
use vstd::prelude::*;

verus! {

/// One obfuscated row bound for the sink: the obfuscated path, the raw
/// bytes of the value literal, and the timestamp.
#[derive(Debug)]
pub struct Metric {
    pub path: Vec<u8>,
    pub value: Vec<u8>,
    pub timestamp: i64,
}

/// Ghost model of one row.
pub ghost struct RowModel {
    pub path: Seq<u8>,
    pub value: Seq<u8>,
    pub timestamp: int,
}

impl View for Metric {
    type V = RowModel;

    open spec fn view(&self) -> RowModel {
        RowModel { path: self.path@, value: self.value@, timestamp: self.timestamp as int }
    }
}

/// View of a row vector as a sequence of row models.
pub open spec fn rows_view(rs: Seq<Metric>) -> Seq<RowModel> {
    rs.map_values(|r: Metric| r@)
}

/// What made a batch leave the worker.
#[derive(Debug, Clone, Copy, PartialEq, Eq, Structural)]
pub enum FlushTrigger {
    /// The batch reached the configured size.
    Size,
    /// The worker sat idle past the flush interval with a non-empty batch.
    Time,
    /// The queue closed and the remaining batch drained.
    Shutdown,
}

/// A batch on its way to the sink, together with what triggered it.
#[derive(Debug)]
pub struct Flush {
    pub rows: Vec<Metric>,
    pub trigger: FlushTrigger,
}

/// Ghost model of a flush.
pub ghost struct FlushModel {
    pub rows: Seq<RowModel>,
    pub trigger: FlushTrigger,
}

impl View for Flush {
    type V = FlushModel;

    open spec fn view(&self) -> FlushModel {
        FlushModel { rows: rows_view(self.rows@), trigger: self.trigger }
    }
}

/// View of an optional flush.
pub open spec fn flush_opt_view(r: Option<Flush>) -> Option<FlushModel> {
    match r {
        Some(f) => Some(f@),
        None => None,
    }
}

/// Ghost model of a worker: its batch, configuration, counters, phase, and
/// the full history of rows it has accepted and rows it has flushed.
pub ghost struct WorkerModel {
    pub batch: Seq<RowModel>,
    pub batch_size: int,
    pub flush_interval: int,
    pub last_flush: int,
    pub received: int,
    pub processed: int,
    pub errors: int,
    pub running: bool,
    pub accepted: Seq<RowModel>,
    pub flushed: Seq<RowModel>,
}

/// A line was pulled and parsed successfully into `row`: count it received
/// and processed, append it, and flush on size.
pub open spec fn step_accept(m: WorkerModel, row: RowModel, now: int) -> (WorkerModel, Option<
    FlushModel,
>) {
    let m1 = WorkerModel {
        received: sat_inc(m.received),
        processed: sat_inc(m.processed),
        accepted: m.accepted.push(row),
        ..m
    };
    if m.batch.len() + 1 >= m.batch_size {
        let rows = m.batch.push(row);
        (
            WorkerModel {
                batch: Seq::empty(),
                last_flush: now,
                flushed: m.flushed + rows,
                ..m1
            },
            Some(FlushModel { rows, trigger: FlushTrigger::Size }),
        )
    } else {
        (WorkerModel { batch: m.batch.push(row), ..m1 }, None)
    }
}

/// A line was pulled but failed to parse: count it received and errored.
pub open spec fn step_reject(m: WorkerModel) -> WorkerModel {
    WorkerModel { received: sat_inc(m.received), errors: sat_inc(m.errors), ..m }
}

/// No line was available: flush on time when the batch is non-empty and the
/// interval has elapsed.
pub open spec fn step_idle(m: WorkerModel, now: int) -> (WorkerModel, Option<FlushModel>) {
    if m.batch.len() > 0 && now >= m.last_flush + m.flush_interval {
        (
            WorkerModel { batch: Seq::empty(), last_flush: now, flushed: m.flushed + m.batch, ..m },
            Some(FlushModel { rows: m.batch, trigger: FlushTrigger::Time }),
        )
    } else {
        (m, None)
    }
}

/// The queue closed: drain the remaining batch and stop.
pub open spec fn step_close(m: WorkerModel) -> (WorkerModel, Option<FlushModel>) {
    if m.batch.len() > 0 {
        (
            WorkerModel {
                running: false,
                batch: Seq::empty(),
                flushed: m.flushed + m.batch,
                ..m
            },
            Some(FlushModel { rows: m.batch, trigger: FlushTrigger::Shutdown }),
        )
    } else {
        (WorkerModel { running: false, ..m }, None)
    }
}

/// The sink reported the outcome of a flush: a failure is counted as an
/// error; the batch is never retried either way.
pub open spec fn step_sink_result(m: WorkerModel, ok: bool) -> WorkerModel {
    if ok {
        m
    } else {
        WorkerModel { errors: sat_inc(m.errors), ..m }
    }
}

/// Whether a line parses: exactly three fields, a non-empty name, a float
/// literal value and an integer timestamp.
pub open spec fn line_ok(s: Seq<u8>) -> bool {
    let toks = line_tokens(s);
    &&& toks.len() == 3
    &&& spec_name(toks[0]).len() > 0
    &&& is_float_literal(toks[1])
    &&& int_of(toks[2]) is Some
}

/// The row a well-formed line turns into: the value token and timestamp are
/// carried over exactly; the path is a rendering of the line's tags under
/// some hash assignment (the hashes themselves are unspecified).
pub open spec fn row_for_line(row: RowModel, s: Seq<u8>) -> bool {
    let toks = line_tokens(s);
    &&& row.value == toks[1]
    &&& int_of(toks[2]) == Some(row.timestamp)
    &&& exists|nh: u64, vhs: Seq<u64>|
        vhs.len() == spec_tags(toks[0]).len() && row.path == rendered_path(
            nh,
            spec_tags(toks[0]),
            vhs,
        )
}

/// The worker's well-formedness: the rows flushed so far followed by the
/// current batch are exactly the rows accepted so far, in order, and the
/// batch never reaches the configured size between calls.
pub open spec fn worker_wf(m: WorkerModel) -> bool {
    &&& m.flushed + m.batch == m.accepted
    &&& m.batch.len() < m.batch_size || m.batch.len() == 0
}

pub struct Worker {
    batch: Vec<Metric>,
    batch_size: usize,
    flush_interval: u64,
    last_flush: u64,
    received: u64,
    processed: u64,
    errors: u64,
    running: bool,
    accepted: Ghost<Seq<RowModel>>,
    flushed: Ghost<Seq<RowModel>>,
}

impl View for Worker {
    type V = WorkerModel;

    closed spec fn view(&self) -> WorkerModel {
        WorkerModel {
            batch: rows_view(self.batch@),
            batch_size: self.batch_size as int,
            flush_interval: self.flush_interval as int,
            last_flush: self.last_flush as int,
            received: self.received as int,
            processed: self.processed as int,
            errors: self.errors as int,
            running: self.running,
            accepted: self.accepted@,
            flushed: self.flushed@,
        }
    }
}

impl Worker {
    /// A fresh worker: empty batch, zeroed counters, running.
    pub fn new(batch_size: usize, flush_interval: u64, start: u64) -> (w: Worker)
        ensures
            w@ == (WorkerModel {
                batch: Seq::empty(),
                batch_size: batch_size as int,
                flush_interval: flush_interval as int,
                last_flush: start as int,
                received: 0,
                processed: 0,
                errors: 0,
                running: true,
                accepted: Seq::empty(),
                flushed: Seq::empty(),
            }),
            worker_wf(w@),
    {
        let w = Worker {
            batch: Vec::new(),
            batch_size,
            flush_interval,
            last_flush: start,
            received: 0,
            processed: 0,
            errors: 0,
            running: true,
            accepted: Ghost(Seq::empty()),
            flushed: Ghost(Seq::empty()),
        };
        proof {
            assert(rows_view(w.batch@) =~= Seq::<RowModel>::empty());
        }
        w
    }

    /// The counters, in order: received, processed, errors.
    pub fn counts(&self) -> (c: (u64, u64, u64))
        ensures
            c.0 as int == self@.received,
            c.1 as int == self@.processed,
            c.2 as int == self@.errors,
    {
        (self.received, self.processed, self.errors)
    }

    /// How many rows sit in the batch.
    pub fn batch_len(&self) -> (n: usize)
        ensures
            n as int == self@.batch.len(),
    {
        self.batch.len()
    }

    /// Whether the worker still runs.
    pub fn is_running(&self) -> (r: bool)
        ensures
            r == self@.running,
    {
        self.running
    }

    fn sat_inc_u64(n: u64) -> (r: u64)
        ensures
            r as int == sat_inc(n as int),
    {
        if n < 18446744073709551615 {
            n + 1
        } else {
            n
        }
    }

    /// Handle one line pulled from the queue at time `now`: parse it,
    /// obfuscate it, buffer the row, and flush when the batch reaches the
    /// configured size.
    pub fn ingest(&mut self, line: &[u8], now: u64) -> (r: Option<Flush>)
        ensures
            !line_ok(line@) ==> final(self)@ == step_reject(old(self)@) && r is None,
            line_ok(line@) ==> exists|row: RowModel|
                #[trigger] row_for_line(row, line@) && {
                    let sr = step_accept(old(self)@, row, now as int);
                    final(self)@ == sr.0 && flush_opt_view(r) == sr.1
                },
            worker_wf(old(self)@) ==> worker_wf(final(self)@),
    {
        match GraphiteMetric::parse(line) {
            Err(_) => {
                self.received = Self::sat_inc_u64(self.received);
                self.errors = Self::sat_inc_u64(self.errors);
                proof {
                    assert(final(self)@ == step_reject(old(self)@));
                }
                None
            },
            Ok(metric) => {
                self.received = Self::sat_inc_u64(self.received);
                self.processed = Self::sat_inc_u64(self.processed);
                let path = obfuscate(&metric);
                let row = Metric { path, value: metric.value, timestamp: metric.timestamp };
                let ghost rowm = row@;
                proof {
                    self.accepted@ = self.accepted@.push(rowm);
                }
                let will_flush = self.batch_size == 0 || self.batch.len() >= self.batch_size - 1;
                if will_flush {
                    let mut rows = Vec::new();
                    core::mem::swap(&mut rows, &mut self.batch);
                    rows.push(row);
                    proof {
                        self.flushed@ = self.flushed@ + rows_view(rows@);
                        assert(rows_view(rows@) =~= old(self)@.batch.push(rowm));
                        assert(rows_view(self.batch@) =~= Seq::<RowModel>::empty());
                    }
                    self.last_flush = now;
                    let f = Flush { rows, trigger: FlushTrigger::Size };
                    proof {
                        let sr = step_accept(old(self)@, rowm, now as int);
                        assert(row_for_line(rowm, line@));
                        assert(final(self)@ == sr.0);
                        assert(flush_opt_view(Some(f)) == sr.1);
                    }
                    Some(f)
                } else {
                    self.batch.push(row);
                    proof {
                        let sr = step_accept(old(self)@, rowm, now as int);
                        assert(row_for_line(rowm, line@));
                        assert(rows_view(self.batch@) =~= old(self)@.batch.push(rowm));
                        assert(final(self)@ == sr.0);
                    }
                    None
                }
            },
        }
    }

    /// No line was available this iteration: flush on time if the batch is
    /// non-empty and the flush interval has elapsed since the last flush.
    pub fn idle_tick(&mut self, now: u64) -> (r: Option<Flush>)
        ensures
            ({
                let sr = step_idle(old(self)@, now as int);
                final(self)@ == sr.0 && flush_opt_view(r) == sr.1
            }),
            worker_wf(old(self)@) ==> worker_wf(final(self)@),
    {
        if self.batch.len() > 0 && now >= self.last_flush && now - self.last_flush
            >= self.flush_interval {
            let mut rows = Vec::new();
            core::mem::swap(&mut rows, &mut self.batch);
            proof {
                self.flushed@ = self.flushed@ + rows_view(rows@);
                assert(rows_view(self.batch@) =~= Seq::<RowModel>::empty());
            }
            self.last_flush = now;
            Some(Flush { rows, trigger: FlushTrigger::Time })
        } else {
            None
        }
    }

    /// The queue closed: drain the remaining batch, if any, and stop.
    pub fn close(&mut self) -> (r: Option<Flush>)
        ensures
            ({
                let sr = step_close(old(self)@);
                final(self)@ == sr.0 && flush_opt_view(r) == sr.1
            }),
            worker_wf(old(self)@) ==> worker_wf(final(self)@) && final(self)@.flushed == final(self)@.accepted,
    {
        self.running = false;
        if self.batch.len() > 0 {
            let mut rows = Vec::new();
            core::mem::swap(&mut rows, &mut self.batch);
            proof {
                self.flushed@ = self.flushed@ + rows_view(rows@);
                assert(rows_view(self.batch@) =~= Seq::<RowModel>::empty());
            }
            Some(Flush { rows, trigger: FlushTrigger::Shutdown })
        } else {
            None
        }
    }

    /// Record the sink's outcome for a flush this worker handed out: a
    /// failure counts as an error; the rows are never retried.
    pub fn record_flush_result(&mut self, ok: bool)
        ensures
            final(self)@ == step_sink_result(old(self)@, ok),
            worker_wf(old(self)@) ==> worker_wf(final(self)@),
    {
        if !ok {
            self.errors = Self::sat_inc_u64(self.errors);
        }
    }
}

} // verus!
