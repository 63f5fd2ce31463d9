//! Run-level laws of the worker state machine.
//!
//! The worker's methods each take one step of the transition functions in
//! `worker`.  Here whole runs — sequences of steps — are modelled, and the
//! pipeline's guarantees are proved over them: flushes carry every accepted
//! row exactly once and in arrival order, the size and time triggers fire
//! exactly once with exactly the buffered rows, shutdown drains the batch,
//! and the counters add up.
use crate::worker::FlushModel;
use crate::worker::FlushTrigger;
use crate::worker::RowModel;
use crate::worker::WorkerModel;
use crate::worker::step_accept;
use crate::worker::step_close;
use crate::worker::step_idle;
use crate::worker::step_reject;
use crate::worker::step_sink_result;
use crate::worker::worker_wf;
use vstd::prelude::*;

verus! {

/// One observable event in a worker's life while it runs.
pub ghost enum WorkerEvent {
    /// A line arrived and parsed into this row, at this time.
    Accept(RowModel, int),
    /// A line arrived and failed to parse.
    Reject,
    /// The sink reported a flush outcome.
    Sink(bool),
    /// An idle poll at this time.
    Idle(int),
}

/// One step: the successor state and the flushes (none or one) it hands out.
pub open spec fn step(m: WorkerModel, ev: WorkerEvent) -> (WorkerModel, Seq<FlushModel>) {
    match ev {
        WorkerEvent::Accept(row, now) => {
            let s = step_accept(m, row, now);
            (
                s.0,
                match s.1 {
                    Some(f) => seq![f],
                    None => Seq::empty(),
                },
            )
        },
        WorkerEvent::Reject => (step_reject(m), Seq::empty()),
        WorkerEvent::Sink(ok) => (step_sink_result(m, ok), Seq::empty()),
        WorkerEvent::Idle(now) => {
            let s = step_idle(m, now);
            (
                s.0,
                match s.1 {
                    Some(f) => seq![f],
                    None => Seq::empty(),
                },
            )
        },
    }
}

/// A run: the state after all events, and every flush handed out, in order.
pub open spec fn run(m: WorkerModel, evs: Seq<WorkerEvent>) -> (WorkerModel, Seq<FlushModel>)
    decreases evs.len(),
{
    if evs.len() == 0 {
        (m, Seq::empty())
    } else {
        let s1 = step(m, evs.first());
        let s2 = run(s1.0, evs.drop_first());
        (s2.0, s1.1 + s2.1)
    }
}

/// The rows accepted over a run, in arrival order.
pub open spec fn accepted_rows(evs: Seq<WorkerEvent>) -> Seq<RowModel>
    decreases evs.len(),
{
    if evs.len() == 0 {
        Seq::empty()
    } else {
        (match evs.first() {
            WorkerEvent::Accept(row, _) => seq![row],
            _ => Seq::empty(),
        }) + accepted_rows(evs.drop_first())
    }
}

/// All rows of a sequence of flushes, in order.
pub open spec fn flat_rows(fs: Seq<FlushModel>) -> Seq<RowModel>
    decreases fs.len(),
{
    if fs.len() == 0 {
        Seq::empty()
    } else {
        fs.first().rows + flat_rows(fs.drop_first())
    }
}

pub open spec fn count_accept(evs: Seq<WorkerEvent>) -> int
    decreases evs.len(),
{
    if evs.len() == 0 {
        0
    } else {
        (if evs.first() is Accept {
            1int
        } else {
            0int
        }) + count_accept(evs.drop_first())
    }
}

pub open spec fn count_reject(evs: Seq<WorkerEvent>) -> int
    decreases evs.len(),
{
    if evs.len() == 0 {
        0
    } else {
        (if evs.first() is Reject {
            1int
        } else {
            0int
        }) + count_reject(evs.drop_first())
    }
}

pub open spec fn count_sink_fail(evs: Seq<WorkerEvent>) -> int
    decreases evs.len(),
{
    if evs.len() == 0 {
        0
    } else {
        (match evs.first() {
            WorkerEvent::Sink(ok) => if ok {
                0int
            } else {
                1int
            },
            _ => 0int,
        }) + count_sink_fail(evs.drop_first())
    }
}

proof fn lemma_flat_rows_single(f: FlushModel)
    ensures
        flat_rows(seq![f]) == f.rows,
{
    assert(seq![f].drop_first() =~= Seq::<FlushModel>::empty());
    assert(seq![f].first() == f);
    assert(flat_rows(Seq::<FlushModel>::empty()) == Seq::<RowModel>::empty());
    assert(flat_rows(seq![f]) == f.rows + flat_rows(seq![f].drop_first()));
    assert(f.rows + Seq::<RowModel>::empty() =~= f.rows);
}

proof fn lemma_flat_rows_concat(a: Seq<FlushModel>, b: Seq<FlushModel>)
    ensures
        flat_rows(a + b) == flat_rows(a) + flat_rows(b),
    decreases a.len(),
{
    if a.len() == 0 {
        assert(a + b =~= b);
        assert(Seq::<RowModel>::empty() + flat_rows(b) =~= flat_rows(b));
    } else {
        assert((a + b).drop_first() =~= a.drop_first() + b);
        lemma_flat_rows_concat(a.drop_first(), b);
        assert(a.first().rows + (flat_rows(a.drop_first()) + flat_rows(b)) =~= (a.first().rows
            + flat_rows(a.drop_first())) + flat_rows(b));
    }
}

/// Conservation: over any run, the worker stays well-formed, its accepted
/// history grows by exactly the accepted rows of the run, and its flushed
/// history grows by exactly the rows of the flushes it handed out; hence
/// the flushes plus the residual batch carry every accepted row exactly
/// once, in arrival order.  No sample is lost and none is duplicated
/// across the size, time and shutdown paths.
pub proof fn lemma_run_conservation(m: WorkerModel, evs: Seq<WorkerEvent>)
    requires
        worker_wf(m),
    ensures
        ({
            let (m2, fs) = run(m, evs);
            &&& worker_wf(m2)
            &&& m2.accepted == m.accepted + accepted_rows(evs)
            &&& m2.flushed == m.flushed + flat_rows(fs)
            &&& m2.flushed + m2.batch == m.accepted + accepted_rows(evs)
            &&& m2.batch_size == m.batch_size
            &&& m2.flush_interval == m.flush_interval
            &&& m2.running == m.running
        }),
    decreases evs.len(),
{
    let (m2, fs) = run(m, evs);
    if evs.len() == 0 {
        assert(m.accepted + Seq::<RowModel>::empty() =~= m.accepted);
        assert(m.flushed + Seq::<RowModel>::empty() =~= m.flushed);
    } else {
        let ev = evs.first();
        let s1 = step(m, ev);
        let m1 = s1.0;
        match ev {
            WorkerEvent::Accept(row, now) => {
                if m.batch.len() + 1 >= m.batch_size {
                    assert(m1.flushed =~= m.flushed + flat_rows(s1.1)) by {
                        lemma_flat_rows_single(
                            FlushModel { rows: m.batch.push(row), trigger: FlushTrigger::Size },
                        );
                        assert(flat_rows(s1.1) =~= m.batch.push(row));
                    }
                    assert(m1.flushed + m1.batch =~= m.accepted.push(row));
                } else {
                    assert(m1.flushed + m1.batch =~= (m.flushed + m.batch).push(row));
                    assert(m1.flushed + m1.batch =~= m.accepted.push(row));
                }
                assert(worker_wf(m1));
            },
            WorkerEvent::Reject => {},
            WorkerEvent::Sink(_) => {},
            WorkerEvent::Idle(now) => {
                if m.batch.len() > 0 && now >= m.last_flush + m.flush_interval {
                    lemma_flat_rows_single(
                        FlushModel { rows: m.batch, trigger: FlushTrigger::Time },
                    );
                    assert(flat_rows(s1.1) =~= m.batch);
                    assert(m1.flushed + m1.batch =~= m.flushed + m.batch);
                }
            },
        }
        lemma_run_conservation(m1, evs.drop_first());
        let (m2r, fs2) = run(m1, evs.drop_first());
        lemma_flat_rows_concat(s1.1, fs2);
        assert(m2.accepted =~= m.accepted + accepted_rows(evs)) by {
            match ev {
                WorkerEvent::Accept(row, _) => {
                    assert(accepted_rows(evs) =~= seq![row] + accepted_rows(evs.drop_first()));
                    assert(m1.accepted =~= m.accepted.push(row));
                    assert(m.accepted.push(row) + accepted_rows(evs.drop_first()) =~= m.accepted + (
                    seq![row] + accepted_rows(evs.drop_first())));
                },
                _ => {
                    assert(accepted_rows(evs) =~= accepted_rows(evs.drop_first()));
                    assert(m1.accepted == m.accepted);
                },
            }
        }
        assert(m2.flushed =~= m.flushed + flat_rows(fs)) by {
            assert(m2.flushed =~= m1.flushed + flat_rows(fs2));
            assert(m1.flushed =~= m.flushed + flat_rows(s1.1));
            assert((m.flushed + flat_rows(s1.1)) + flat_rows(fs2) =~= m.flushed + (flat_rows(s1.1)
                + flat_rows(fs2)));
        }
        assert(m2.flushed + m2.batch =~= m.accepted + accepted_rows(evs)) by {
            assert(m2.flushed + m2.batch =~= m2.accepted);
        }
    }
}

/// Counter conservation: over any run, `received` grows by the number of
/// lines pulled (accepted plus rejected), `processed` by the number that
/// parsed, and `errors` by the number that failed to parse plus the number
/// of failed sink writes — as long as no tally can reach the top of the
/// 64-bit range.
pub proof fn lemma_run_counters(m: WorkerModel, evs: Seq<WorkerEvent>)
    requires
        0 <= m.received,
        0 <= m.processed,
        0 <= m.errors,
        m.received + count_accept(evs) + count_reject(evs) <= u64::MAX,
        m.processed + count_accept(evs) <= u64::MAX,
        m.errors + count_reject(evs) + count_sink_fail(evs) <= u64::MAX,
    ensures
        ({
            let (m2, fs) = run(m, evs);
            &&& m2.received == m.received + count_accept(evs) + count_reject(evs)
            &&& m2.processed == m.processed + count_accept(evs)
            &&& m2.errors == m.errors + count_reject(evs) + count_sink_fail(evs)
        }),
    decreases evs.len(),
{
    if evs.len() > 0 {
        let ev = evs.first();
        let m1 = step(m, ev).0;
        lemma_count_events_bounds(evs.drop_first());
        lemma_count_events_bounds(evs);
        lemma_run_counters(m1, evs.drop_first());
    }
}

pub proof fn lemma_count_events_bounds(evs: Seq<WorkerEvent>)
    ensures
        0 <= count_accept(evs) <= evs.len(),
        0 <= count_reject(evs) <= evs.len(),
        0 <= count_sink_fail(evs) <= evs.len(),
    decreases evs.len(),
{
    if evs.len() > 0 {
        lemma_count_events_bounds(evs.drop_first());
    }
}

/// Filling a batch: from a batch that the events exactly fill, an
/// accepts-only run hands out exactly one flush, carrying the old batch
/// and every accepted row, in order, with the size trigger; the batch is
/// empty afterwards.
pub proof fn lemma_fill_flushes_once(m: WorkerModel, evs: Seq<WorkerEvent>)
    requires
        m.batch.len() + evs.len() == m.batch_size,
        evs.len() >= 1,
        forall|i: int| 0 <= i < evs.len() ==> #[trigger] evs[i] is Accept,
    ensures
        ({
            let (m2, fs) = run(m, evs);
            &&& fs.len() == 1
            &&& fs[0].rows == m.batch + accepted_rows(evs)
            &&& fs[0].trigger == FlushTrigger::Size
            &&& m2.batch.len() == 0
        }),
    decreases evs.len(),
{
    let ev = evs.first();
    assert(evs[0] is Accept);
    match ev {
        WorkerEvent::Accept(row, now) => {
            let s1 = step(m, ev);
            let m1 = s1.0;
            if evs.len() == 1 {
                assert(m.batch.len() + 1 >= m.batch_size);
                assert(s1.1 =~= seq![
                    FlushModel { rows: m.batch.push(row), trigger: FlushTrigger::Size },
                ]);
                assert(run(m1, evs.drop_first()).1 =~= Seq::<FlushModel>::empty());
                assert(run(m, evs).1 =~= s1.1);
                assert(accepted_rows(evs.drop_first()) =~= Seq::<RowModel>::empty());
                assert(accepted_rows(evs) =~= seq![row]);
                assert(m.batch.push(row) =~= m.batch + accepted_rows(evs));
            } else {
                assert(m.batch.len() + 1 < m.batch_size);
                assert(m1.batch =~= m.batch.push(row));
                assert(forall|i: int|
                    0 <= i < evs.drop_first().len() ==> #[trigger] evs.drop_first()[i]
                        is Accept) by {
                    assert(forall|i: int|
                        0 <= i < evs.drop_first().len() ==> evs.drop_first()[i] == evs[i + 1]);
                }
                lemma_fill_flushes_once(m1, evs.drop_first());
                let (m2, fs2) = run(m1, evs.drop_first());
                assert(run(m, evs).1 =~= fs2) by {
                    assert(s1.1 =~= Seq::<FlushModel>::empty());
                    assert(s1.1 + fs2 =~= fs2);
                }
                assert(accepted_rows(evs) =~= seq![row] + accepted_rows(evs.drop_first()));
                assert(m1.batch + accepted_rows(evs.drop_first()) =~= m.batch + accepted_rows(
                    evs,
                ));
            }
        },
        _ => {
            assert(false);
        },
    }
}

/// The size trigger: a worker with an empty batch fed exactly `batch_size`
/// parsed lines flushes exactly once, with exactly those rows in arrival
/// order, and holds nothing back.
pub proof fn lemma_size_trigger(m: WorkerModel, evs: Seq<WorkerEvent>)
    requires
        m.batch.len() == 0,
        evs.len() == m.batch_size,
        m.batch_size >= 1,
        forall|i: int| 0 <= i < evs.len() ==> #[trigger] evs[i] is Accept,
    ensures
        ({
            let (m2, fs) = run(m, evs);
            &&& fs.len() == 1
            &&& fs[0].rows == accepted_rows(evs)
            &&& fs[0].trigger == FlushTrigger::Size
            &&& m2.batch.len() == 0
        }),
{
    lemma_fill_flushes_once(m, evs);
    assert(m.batch + accepted_rows(evs) =~= accepted_rows(evs));
}

/// An accepts-only run that stays under the batch size hands out no flush:
/// the rows only accumulate, in order, and the last-flush mark stands.
pub proof fn lemma_buffer_only(m: WorkerModel, evs: Seq<WorkerEvent>)
    requires
        m.batch.len() + evs.len() < m.batch_size,
        forall|i: int| 0 <= i < evs.len() ==> #[trigger] evs[i] is Accept,
    ensures
        ({
            let (m2, fs) = run(m, evs);
            &&& fs.len() == 0
            &&& m2.batch == m.batch + accepted_rows(evs)
            &&& m2.last_flush == m.last_flush
            &&& m2.batch_size == m.batch_size
            &&& m2.flush_interval == m.flush_interval
            &&& m2.running == m.running
        }),
    decreases evs.len(),
{
    if evs.len() == 0 {
        assert(m.batch + accepted_rows(evs) =~= m.batch);
    } else {
        let ev = evs.first();
        assert(evs[0] is Accept);
        match ev {
            WorkerEvent::Accept(row, now) => {
                let s1 = step(m, ev);
                let m1 = s1.0;
                assert(m.batch.len() + 1 < m.batch_size);
                assert(forall|i: int|
                    0 <= i < evs.drop_first().len() ==> #[trigger] evs.drop_first()[i]
                        is Accept) by {
                    assert(forall|i: int|
                        0 <= i < evs.drop_first().len() ==> evs.drop_first()[i] == evs[i + 1]);
                }
                lemma_buffer_only(m1, evs.drop_first());
                let (m2, fs2) = run(m1, evs.drop_first());
                assert(run(m, evs).1 =~= fs2) by {
                    assert(s1.1 =~= Seq::<FlushModel>::empty());
                    assert(s1.1 + fs2 =~= fs2);
                }
                assert(accepted_rows(evs) =~= seq![row] + accepted_rows(evs.drop_first()));
                assert(m1.batch =~= m.batch.push(row));
                assert(m1.batch + accepted_rows(evs.drop_first()) =~= m.batch + accepted_rows(
                    evs,
                ));
            },
            _ => {
                assert(false);
            },
        }
    }
}

proof fn lemma_run_append(m: WorkerModel, a: Seq<WorkerEvent>, b: Seq<WorkerEvent>)
    ensures
        ({
            let s1 = run(m, a);
            let s2 = run(s1.0, b);
            run(m, a + b) == (s2.0, s1.1 + s2.1)
        }),
    decreases a.len(),
{
    let s1 = run(m, a);
    let s2 = run(s1.0, b);
    if a.len() == 0 {
        assert(a + b =~= b);
        assert(Seq::<FlushModel>::empty() + s2.1 =~= s2.1);
    } else {
        let st = step(m, a.first());
        assert((a + b).first() == a.first());
        assert((a + b).drop_first() =~= a.drop_first() + b);
        lemma_run_append(st.0, a.drop_first(), b);
        let r1 = run(st.0, a.drop_first());
        let r2 = run(r1.0, b);
        assert(st.1 + (r1.1 + r2.1) =~= (st.1 + r1.1) + r2.1);
    }
}

/// The time trigger: a worker with an empty batch fed fewer than
/// `batch_size` parsed lines and then left idle past the flush interval
/// flushes exactly once, with exactly the buffered rows in arrival order.
pub proof fn lemma_time_trigger(m: WorkerModel, evs: Seq<WorkerEvent>, now: int)
    requires
        m.batch.len() == 0,
        1 <= evs.len(),
        evs.len() < m.batch_size,
        forall|i: int| 0 <= i < evs.len() ==> #[trigger] evs[i] is Accept,
        now >= m.last_flush + m.flush_interval,
    ensures
        ({
            let (m2, fs) = run(m, evs + seq![WorkerEvent::Idle(now)]);
            &&& fs.len() == 1
            &&& fs[0].rows == accepted_rows(evs)
            &&& fs[0].trigger == FlushTrigger::Time
            &&& m2.batch.len() == 0
            &&& m2.last_flush == now
        }),
{
    lemma_buffer_only(m, evs);
    lemma_run_append(m, evs, seq![WorkerEvent::Idle(now)]);
    let (m1, fs1) = run(m, evs);
    assert(m1.batch =~= accepted_rows(evs)) by {
        assert(m.batch + accepted_rows(evs) =~= accepted_rows(evs));
    }
    let tail = seq![WorkerEvent::Idle(now)];
    let st = step(m1, tail.first());
    assert(m1.batch.len() == evs.len() >= 1) by {
        lemma_accepted_rows_len(evs);
    }
    assert(run(st.0, tail.drop_first()).1 =~= Seq::<FlushModel>::empty()) by {
        assert(tail.drop_first() =~= Seq::<WorkerEvent>::empty());
    }
    assert(st.1 + Seq::<FlushModel>::empty() =~= st.1);
    assert(fs1 + st.1 =~= st.1);
}

pub proof fn lemma_accepted_rows_len(evs: Seq<WorkerEvent>)
    requires
        forall|i: int| 0 <= i < evs.len() ==> #[trigger] evs[i] is Accept,
    ensures
        accepted_rows(evs).len() == evs.len(),
    decreases evs.len(),
{
    if evs.len() > 0 {
        assert(evs[0] is Accept);
        assert(forall|i: int|
            0 <= i < evs.drop_first().len() ==> #[trigger] evs.drop_first()[i] is Accept) by {
            assert(forall|i: int|
                0 <= i < evs.drop_first().len() ==> evs.drop_first()[i] == evs[i + 1]);
        }
        lemma_accepted_rows_len(evs.drop_first());
    }
}

/// Shutdown drains: closing a well-formed worker hands out exactly one
/// final flush carrying the whole residual batch (none when the batch is
/// empty), stops the worker, and leaves every accepted row flushed exactly
/// once.
pub proof fn lemma_close_drains(m: WorkerModel)
    requires
        worker_wf(m),
    ensures
        ({
            let (m2, f) = step_close(m);
            &&& !m2.running
            &&& m2.batch.len() == 0
            &&& m2.flushed == m2.accepted
            &&& (m.batch.len() > 0 ==> f == Some(
                FlushModel { rows: m.batch, trigger: FlushTrigger::Shutdown },
            ))
            &&& (m.batch.len() == 0 ==> f is None)
        }),
{
    let (m2, f) = step_close(m);
    if m.batch.len() > 0 {
        assert(m2.flushed =~= m.accepted);
    } else {
        assert(m.flushed + m.batch =~= m.flushed);
        assert(m2.flushed =~= m2.accepted);
    }
}

} // verus!
