//! The long-poll stream engine.
//!
//! The engine turns a sequence of poll outcomes into an ordered
//! sequence of updates. It owns the poll offset and a FIFO buffer of
//! not-yet-delivered updates, and at most one operation — a poll or a
//! backoff delay — is in flight at a time. A driver loop performs the
//! instruction each [`UpdatesStream::step`] returns (issue a poll,
//! start a delay, wait) and reports what the operation produced on the
//! next call.

use std::collections::VecDeque;
use vstd::prelude::*;

use crate::errors::TelegramError;
use crate::requests::GetUpdates;
use crate::requests::Update;

verus! {

/// Default server-side long-poll wait, in seconds.
pub const TELEGRAM_LONG_POLL_TIMEOUT_SECONDS: u64 = 5;

/// Default maximum batch size of one poll.
pub const TELEGRAM_LONG_POLL_LIMIT_MESSAGES: i64 = 100;

/// Default delay between an erroneous poll and the next one.
pub const TELEGRAM_LONG_POLL_ERROR_DELAY_MILLISECONDS: u64 = 500;

/// The one operation a stream may have in flight.
#[derive(Clone, Copy, Debug, PartialEq, Eq, Structural)]
pub enum Pending {
    /// A fetch-updates request is outstanding.
    Poll,
    /// A delay after an erroneous poll is outstanding.
    Backoff,
}

/// What the in-flight operation produced, as reported by the driver.
#[derive(Clone, Debug)]
pub enum PollOutcome {
    /// Nothing to report: no operation finished since the last step.
    Pending,
    /// The operation finished: a poll with its (possibly empty) batch,
    /// or a backoff delay or timed-out poll with `None`.
    Finished(Option<Vec<Update>>),
    /// The poll failed.
    Failed(TelegramError),
}

/// The instruction a step hands back to the driver.
#[derive(Clone, Debug)]
pub enum StreamStep {
    /// Deliver this update to the consumer.
    Ready(Update),
    /// Deliver this error to the consumer once, and start a backoff
    /// delay of the given number of milliseconds.
    Failed(TelegramError, u64),
    /// Issue this poll, bounding the whole call by the given number of
    /// milliseconds.
    Issue(GetUpdates, u64),
    /// Keep awaiting the in-flight operation.
    Wait,
}

/// The highest identifier in `us`, or `last` where none is higher.
pub open spec fn max_id(last: int, us: Seq<Update>) -> int
    decreases us.len(),
{
    if us.len() == 0 {
        last
    } else {
        max_id(
            if us[0].id > last {
                us[0].id as int
            } else {
                last
            },
            us.drop_first(),
        )
    }
}

/// Offsets never move backwards: absorbing a batch can only raise the
/// highest identifier seen.
pub proof fn lemma_max_id_ge(last: int, us: Seq<Update>)
    ensures
        max_id(last, us) >= last,
    decreases us.len(),
{
    if us.len() > 0 {
        lemma_max_id_ge(
            if us[0].id > last {
                us[0].id as int
            } else {
                last
            },
            us.drop_first(),
        );
    }
}

/// A bound on every identifier in a batch bounds the absorbed result.
pub proof fn lemma_max_id_lt(last: int, us: Seq<Update>, bound: int)
    requires
        last < bound,
        forall|i: int| 0 <= i < us.len() ==> #[trigger] us[i].id < bound,
    ensures
        max_id(last, us) < bound,
    decreases us.len(),
{
    if us.len() > 0 {
        assert(us[0].id < bound);
        assert(forall|i: int|
            0 <= i < us.drop_first().len() ==> #[trigger] us.drop_first()[i].id < bound);
        lemma_max_id_lt(
            if us[0].id > last {
                us[0].id as int
            } else {
                last
            },
            us.drop_first(),
            bound,
        );
    }
}

/// The highest identifier seen after absorbing a sequence of poll
/// batches, starting from `start`: each batch raises it to the batch
/// maximum, exactly as [`UpdatesStream::step`] does per poll.
pub open spec fn last_update_after(start: int, batches: Seq<Seq<Update>>) -> int
    decreases batches.len(),
{
    if batches.len() == 0 {
        start
    } else {
        last_update_after(max_id(start, batches[0]), batches.drop_first())
    }
}

/// Absorbing one more batch raises the highest identifier seen to that
/// batch's maximum.
pub proof fn lemma_last_update_after_snoc(start: int, batches: Seq<Seq<Update>>, b: Seq<Update>)
    ensures
        last_update_after(start, batches.push(b)) == max_id(last_update_after(start, batches), b),
    decreases batches.len(),
{
    assert(batches.push(b)[0] == if batches.len() == 0 {
        b
    } else {
        batches[0]
    });
    if batches.len() == 0 {
        assert(batches.push(b) =~= seq![b]);
        assert(batches.push(b).drop_first() =~= Seq::<Seq<Update>>::empty());
        assert(last_update_after(max_id(start, b), Seq::<Seq<Update>>::empty()) == max_id(
            start,
            b,
        ));
    } else {
        assert(batches.push(b).drop_first() =~= batches.drop_first().push(b));
        lemma_last_update_after_snoc(max_id(start, batches[0]), batches.drop_first(), b);
    }
}

/// Over any sequence of polls, the highest identifier seen never
/// decreases: it starts no lower than `start` and cannot drop from one
/// absorbed batch to the next — so the next requested offset, one past
/// it, never moves backwards either.
pub proof fn lemma_last_update_monotone(start: int, batches: Seq<Seq<Update>>)
    ensures
        last_update_after(start, batches) >= start,
        forall|i: int|
            0 <= i < batches.len() ==> #[trigger] last_update_after(start, batches.take(i))
                <= last_update_after(start, batches.take(i + 1)),
    decreases batches.len(),
{
    if batches.len() > 0 {
        lemma_max_id_ge(start, batches[0]);
        lemma_last_update_monotone(max_id(start, batches[0]), batches.drop_first());
    }
    assert forall|i: int|
        0 <= i < batches.len() implies #[trigger] last_update_after(start, batches.take(i))
        <= last_update_after(start, batches.take(i + 1)) by {
        assert(batches.take(i + 1) =~= batches.take(i).push(batches[i]));
        lemma_last_update_after_snoc(start, batches.take(i), batches[i]);
        lemma_max_id_ge(last_update_after(start, batches.take(i)), batches[i]);
    }
}

/// The overall wait bound for one poll: the long-poll timeout plus one
/// second, saturated at the largest representable value.
pub open spec fn wait_bound(timeout_s: u64) -> u64 {
    if timeout_s * 1000 + 1000 <= u64::MAX {
        (timeout_s * 1000 + 1000) as u64
    } else {
        u64::MAX
    }
}

/// The long-poll stream engine state.
pub struct UpdatesStream {
    last_update: i64,
    buffer: VecDeque<Update>,
    current: Option<Pending>,
    timeout: u64,
    limit: i64,
    error_delay: u64,
}

/// Construction of a stream engine bound to one dispatcher context.
pub trait NewUpdatesStream: Sized {
    fn new() -> Self;
}

impl NewUpdatesStream for UpdatesStream {
    fn new() -> (r: Self)
        ensures
            r.wf(),
            r.last_update_spec() == 0,
            r.buffer_spec() == Seq::<Update>::empty(),
            r.current_spec() is None,
            r.timeout_spec() == TELEGRAM_LONG_POLL_TIMEOUT_SECONDS,
            r.limit_spec() == TELEGRAM_LONG_POLL_LIMIT_MESSAGES,
            r.error_delay_spec() == TELEGRAM_LONG_POLL_ERROR_DELAY_MILLISECONDS,
    {
        UpdatesStream {
            last_update: 0,
            buffer: VecDeque::new(),
            current: None,
            timeout: TELEGRAM_LONG_POLL_TIMEOUT_SECONDS,
            limit: TELEGRAM_LONG_POLL_LIMIT_MESSAGES,
            error_delay: TELEGRAM_LONG_POLL_ERROR_DELAY_MILLISECONDS,
        }
    }
}

impl UpdatesStream {
    /// The highest update identifier seen so far.
    pub closed spec fn last_update_spec(&self) -> int {
        self.last_update as int
    }

    /// The not-yet-delivered updates, front first.
    pub closed spec fn buffer_spec(&self) -> Seq<Update> {
        self.buffer@
    }

    /// The operation in flight, if any.
    pub closed spec fn current_spec(&self) -> Option<Pending> {
        self.current
    }

    pub closed spec fn timeout_spec(&self) -> u64 {
        self.timeout
    }

    pub closed spec fn limit_spec(&self) -> i64 {
        self.limit
    }

    pub closed spec fn error_delay_spec(&self) -> u64 {
        self.error_delay
    }

    /// The engine's invariant: the highest identifier seen starts at
    /// zero and stays below the largest representable value, so the
    /// next requested offset is always representable, and the wire
    /// timeout field stays representable as a signed integer.
    pub open spec fn wf(&self) -> bool {
        &&& 0 <= self.last_update_spec() < i64::MAX
        &&& self.timeout_spec() <= i64::MAX as u64
    }

    /// The configuration fields, unchanged by polling.
    pub open spec fn same_config(&self, other: &Self) -> bool {
        &&& self.timeout_spec() == other.timeout_spec()
        &&& self.limit_spec() == other.limit_spec()
        &&& self.error_delay_spec() == other.error_delay_spec()
    }

    /// Set the server-side long-poll wait for later polls, in seconds;
    /// the engine bounds the whole call by one second more.
    pub fn timeout(&mut self, seconds: u64)
        requires
            seconds <= i64::MAX as u64,
        ensures
            final(self).timeout_spec() == seconds,
            final(self).last_update_spec() == old(self).last_update_spec(),
            final(self).buffer_spec() == old(self).buffer_spec(),
            final(self).current_spec() == old(self).current_spec(),
            final(self).limit_spec() == old(self).limit_spec(),
            final(self).error_delay_spec() == old(self).error_delay_spec(),
            old(self).wf() ==> final(self).wf(),
    {
        self.timeout = seconds;
    }

    /// Set the maximum batch size of later polls. The remote service
    /// accepts values between 1 and 100.
    pub fn limit(&mut self, limit: i64)
        ensures
            final(self).limit_spec() == limit,
            final(self).last_update_spec() == old(self).last_update_spec(),
            final(self).buffer_spec() == old(self).buffer_spec(),
            final(self).current_spec() == old(self).current_spec(),
            final(self).timeout_spec() == old(self).timeout_spec(),
            final(self).error_delay_spec() == old(self).error_delay_spec(),
            old(self).wf() ==> final(self).wf(),
    {
        self.limit = limit;
    }

    /// Set the delay between an erroneous poll and the next one, in
    /// milliseconds. The delay prevents busy looping on repeated
    /// failures.
    pub fn error_delay(&mut self, delay_ms: u64)
        ensures
            final(self).error_delay_spec() == delay_ms,
            final(self).last_update_spec() == old(self).last_update_spec(),
            final(self).buffer_spec() == old(self).buffer_spec(),
            final(self).current_spec() == old(self).current_spec(),
            final(self).timeout_spec() == old(self).timeout_spec(),
            final(self).limit_spec() == old(self).limit_spec(),
            old(self).wf() ==> final(self).wf(),
    {
        self.error_delay = delay_ms;
    }

    /// Issue a new poll: the requested offset is always one past the
    /// highest identifier seen.
    fn issue(&mut self) -> (r: StreamStep)
        requires
            old(self).wf(),
        ensures
            final(self).wf(),
            r == StreamStep::Issue(
                GetUpdates {
                    offset: Some((old(self).last_update_spec() + 1) as i64),
                    limit: Some(old(self).limit_spec()),
                    timeout: Some(old(self).timeout_spec() as i64),
                },
                wait_bound(old(self).timeout_spec()),
            ),
            final(self).current_spec() == Some(Pending::Poll),
            final(self).last_update_spec() == old(self).last_update_spec(),
            final(self).buffer_spec() == old(self).buffer_spec(),
            final(self).same_config(old(self)),
    {
        let request = GetUpdates::new()
            .offset(self.last_update + 1)
            .timeout(self.timeout as i64)
            .limit(self.limit);
        let bound: u64 = if self.timeout <= (u64::MAX - 1000) / 1000 {
            self.timeout * 1000 + 1000
        } else {
            u64::MAX
        };
        self.current = Some(Pending::Poll);
        StreamStep::Issue(request, bound)
    }

    /// Absorb one poll batch: raise the highest identifier seen to the
    /// batch's maximum and append the batch to the buffer in received
    /// order. Duplicate identifiers are kept as they came.
    fn absorb(&mut self, updates: Vec<Update>)
        requires
            old(self).wf(),
            forall|i: int| 0 <= i < updates@.len() ==> #[trigger] updates@[i].id < i64::MAX,
        ensures
            final(self).wf(),
            final(self).last_update_spec() == max_id(old(self).last_update_spec(), updates@),
            final(self).last_update_spec() >= old(self).last_update_spec(),
            final(self).buffer_spec() == old(self).buffer_spec() + updates@,
            final(self).current_spec() == old(self).current_spec(),
            final(self).same_config(old(self)),
    {
        proof {
            lemma_max_id_ge(self.last_update as int, updates@);
            lemma_max_id_lt(self.last_update as int, updates@, i64::MAX as int);
        }
        let ghost all = updates@;
        let ghost start_last = self.last_update as int;
        let ghost start_buffer = self.buffer@;
        let mut updates = updates;
        let ghost mut i: int = 0;
        proof {
            assert(all.skip(0) =~= all);
            assert(start_buffer + all.take(0) =~= start_buffer);
        }
        while updates.len() > 0
            invariant
                0 <= i <= all.len(),
                updates@ == all.skip(i),
                forall|j: int| 0 <= j < all.len() ==> #[trigger] all[j].id < i64::MAX,
                0 <= self.last_update < i64::MAX,
                max_id(start_last, all) == max_id(self.last_update as int, all.skip(i)),
                self.last_update as int >= start_last,
                self.buffer@ == start_buffer + all.take(i),
                self.current == old(self).current,
                self.timeout == old(self).timeout,
                self.limit == old(self).limit,
                self.error_delay == old(self).error_delay,
            decreases updates.len(),
        {
            let u = updates.remove(0);
            proof {
                assert(u == all.skip(i)[0]);
                assert(all.skip(i)[0] == all[i]);
                assert(updates@ =~= all.skip(i + 1));
                assert(all.skip(i).drop_first() =~= all.skip(i + 1));
                lemma_max_id_ge(
                    if all[i].id > self.last_update {
                        all[i].id as int
                    } else {
                        self.last_update as int
                    },
                    all.skip(i + 1),
                );
            }
            if u.id > self.last_update {
                self.last_update = u.id;
            }
            self.buffer.push_back(u);
            proof {
                assert(all.take(i).push(all[i]) =~= all.take(i + 1));
                i = i + 1;
            }
        }
        proof {
            assert(i == all.len());
            assert(all.skip(all.len() as int) =~= Seq::<Update>::empty());
            assert(all.take(all.len() as int) =~= all);
        }
    }

    /// One transition of the stream engine, driven by what the
    /// in-flight operation produced.
    ///
    /// The rules, in order: a non-empty buffer is drained first, one
    /// update per step, before any new network activity; with nothing
    /// in flight a new poll is issued at offset one past the highest
    /// identifier seen; a finished poll's batch is absorbed in received
    /// order and its first update delivered at once, an empty round
    /// polls again immediately; a failed poll surfaces its error
    /// exactly once and schedules a backoff delay; an elapsed backoff
    /// (reported as an empty finish) polls again. The engine never
    /// terminates on its own.
    ///
    /// The preconditions are the machine's own protocol: a driver
    /// reports an outcome only while an operation is in flight and the
    /// buffer is drained, and every identifier leaves room for the
    /// next offset.
    pub fn step(&mut self, outcome: PollOutcome) -> (r: StreamStep)
        requires
            old(self).wf(),
            old(self).buffer_spec().len() > 0 ==> outcome is Pending,
            old(self).current_spec() is None ==> outcome is Pending,
            outcome matches PollOutcome::Finished(Some(us)) ==> forall|i: int|
                0 <= i < us@.len() ==> #[trigger] us@[i].id < i64::MAX,
        ensures
            final(self).wf(),
            final(self).same_config(old(self)),
            final(self).last_update_spec() >= old(self).last_update_spec(),
            // A non-empty buffer is drained first: the front update is
            // delivered and no new operation starts.
            old(self).buffer_spec().len() > 0 ==> {
                &&& r == StreamStep::Ready(old(self).buffer_spec()[0])
                &&& final(self).buffer_spec() == old(self).buffer_spec().drop_first()
                &&& final(self).last_update_spec() == old(self).last_update_spec()
                &&& final(self).current_spec() == old(self).current_spec()
            },
            // Nothing in flight and nothing buffered: a poll is issued
            // at offset one past the highest identifier seen.
            old(self).buffer_spec().len() == 0 && old(self).current_spec() is None ==> {
                &&& r == StreamStep::Issue(
                    GetUpdates {
                        offset: Some((old(self).last_update_spec() + 1) as i64),
                        limit: Some(old(self).limit_spec()),
                        timeout: Some(old(self).timeout_spec() as i64),
                    },
                    wait_bound(old(self).timeout_spec()),
                )
                &&& final(self).current_spec() == Some(Pending::Poll)
                &&& final(self).last_update_spec() == old(self).last_update_spec()
                &&& final(self).buffer_spec() == old(self).buffer_spec()
            },
            // An operation still in flight is awaited.
            old(self).buffer_spec().len() == 0 && old(self).current_spec() is Some
                && outcome is Pending ==> {
                &&& r == StreamStep::Wait
                &&& final(self).last_update_spec() == old(self).last_update_spec()
                &&& final(self).buffer_spec() == old(self).buffer_spec()
                &&& final(self).current_spec() == old(self).current_spec()
            },
            // An empty round — or an elapsed backoff — polls again at
            // once, surfacing nothing.
            outcome matches PollOutcome::Finished(None) && old(self).buffer_spec().len() == 0
                && old(self).current_spec() is Some ==> {
                &&& r == StreamStep::Issue(
                    GetUpdates {
                        offset: Some((old(self).last_update_spec() + 1) as i64),
                        limit: Some(old(self).limit_spec()),
                        timeout: Some(old(self).timeout_spec() as i64),
                    },
                    wait_bound(old(self).timeout_spec()),
                )
                &&& final(self).current_spec() == Some(Pending::Poll)
                &&& final(self).last_update_spec() == old(self).last_update_spec()
                &&& final(self).buffer_spec() == old(self).buffer_spec()
            },
            // A finished poll: the batch is absorbed in received order,
            // the highest identifier seen rises to the batch maximum,
            // and the first update is delivered at once; an empty batch
            // polls again.
            outcome matches PollOutcome::Finished(Some(us)) ==> old(self).buffer_spec().len()
                == 0 && old(self).current_spec() is Some ==> {
                &&& final(self).last_update_spec() == max_id(old(self).last_update_spec(), us@)
                &&& us@.len() > 0 ==> {
                    &&& r == StreamStep::Ready(us@[0])
                    &&& final(self).buffer_spec() == us@.drop_first()
                    &&& final(self).current_spec() is None
                }
                &&& us@.len() == 0 ==> {
                    &&& r == StreamStep::Issue(
                        GetUpdates {
                            offset: Some((old(self).last_update_spec() + 1) as i64),
                            limit: Some(old(self).limit_spec()),
                            timeout: Some(old(self).timeout_spec() as i64),
                        },
                        wait_bound(old(self).timeout_spec()),
                    )
                    &&& final(self).current_spec() == Some(Pending::Poll)
                    &&& final(self).buffer_spec() == old(self).buffer_spec()
                }
            },
            // A failed poll: the error is surfaced exactly once,
            // together with the backoff delay to wait before the next
            // poll; the engine keeps running.
            outcome matches PollOutcome::Failed(e) ==> old(self).buffer_spec().len() == 0
                && old(self).current_spec() is Some ==> {
                &&& r == StreamStep::Failed(e, old(self).error_delay_spec())
                &&& final(self).current_spec() == Some(Pending::Backoff)
                &&& final(self).last_update_spec() == old(self).last_update_spec()
                &&& final(self).buffer_spec() == old(self).buffer_spec()
            },
    {
        if let Some(u) = self.buffer.pop_front() {
            return StreamStep::Ready(u);
        }
        match outcome {
            PollOutcome::Pending => {
                if self.current.is_none() {
                    self.issue()
                } else {
                    StreamStep::Wait
                }
            },
            PollOutcome::Finished(polled) => {
                match polled {
                    None => {
                        self.current = None;
                        self.issue()
                    },
                    Some(updates) => {
                        let ghost us = updates@;
                        self.absorb(updates);
                        self.current = None;
                        match self.buffer.pop_front() {
                            Some(u) => {
                                proof {
                                    assert(old(self).buffer_spec() + us =~= us);
                                    assert(us.drop_first() =~= (old(self).buffer_spec()
                                        + us).drop_first());
                                }
                                StreamStep::Ready(u)
                            },
                            None => self.issue(),
                        }
                    },
                }
            },
            PollOutcome::Failed(e) => {
                self.current = Some(Pending::Backoff);
                StreamStep::Failed(e, self.error_delay)
            },
        }
    }
}

} // verus!
