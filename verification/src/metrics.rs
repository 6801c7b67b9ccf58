//! The worker's metric counters and gauges, as plain numbers. The
//! Prometheus exposition of them is the serving layer's concern.
use vstd::prelude::*;

verus! {

/// Counters and gauges the pipeline maintains. The duration histogram
/// keeps a count, a sum, and one cumulative counter per bucket bound.
pub struct Metrics {
    pub nats_connect_attempts: u64,
    pub nats_connected: u64,
    pub subs_active: u64,
    pub task_received: u64,
    pub task_completed: u64,
    pub task_failed: u64,
    pub task_timeout: u64,
    pub tasks_in_progress: u64,
    pub dlq_published_total: u64,
    pub task_duration_count: u64,
    pub task_duration_total_ms: u64,
    pub task_duration_buckets: Vec<u64>,
}

/// The number of duration buckets.
pub open spec fn bucket_count() -> int {
    12
}

/// The upper bound of each duration bucket, in milliseconds; the last
/// bucket has no bound.
pub open spec fn spec_bucket_bound(i: int) -> u64 {
    if i == 0 {
        5
    } else if i == 1 {
        10
    } else if i == 2 {
        25
    } else if i == 3 {
        50
    } else if i == 4 {
        100
    } else if i == 5 {
        250
    } else if i == 6 {
        500
    } else if i == 7 {
        1000
    } else if i == 8 {
        2500
    } else if i == 9 {
        5000
    } else if i == 10 {
        10000
    } else {
        u64::MAX
    }
}

/// The upper bound of one duration bucket.
pub fn bucket_bound(i: usize) -> (r: u64)
    requires
        i < bucket_count(),
    ensures
        r == spec_bucket_bound(i as int),
{
    if i == 0 {
        5
    } else if i == 1 {
        10
    } else if i == 2 {
        25
    } else if i == 3 {
        50
    } else if i == 4 {
        100
    } else if i == 5 {
        250
    } else if i == 6 {
        500
    } else if i == 7 {
        1000
    } else if i == 8 {
        2500
    } else if i == 9 {
        5000
    } else if i == 10 {
        10000
    } else {
        u64::MAX
    }
}

/// A counter bumped by one, staying put at its ceiling.
pub open spec fn spec_bumped(v: u64) -> u64 {
    if v < u64::MAX {
        (v + 1) as u64
    } else {
        u64::MAX
    }
}

impl Metrics {
    /// All counters start at zero.
    pub fn new() -> (r: Self)
        ensures
            r.nats_connect_attempts == 0,
            r.nats_connected == 0,
            r.subs_active == 0,
            r.task_received == 0,
            r.task_completed == 0,
            r.task_failed == 0,
            r.task_timeout == 0,
            r.tasks_in_progress == 0,
            r.dlq_published_total == 0,
            r.task_duration_count == 0,
            r.task_duration_total_ms == 0,
            r.task_duration_buckets@.len() == bucket_count(),
            forall|i: int|
                0 <= i < bucket_count() ==> r.task_duration_buckets@[i] == 0,
    {
        let mut buckets: Vec<u64> = Vec::new();
        let mut k: usize = 0;
        while k < 12
            invariant
                k <= 12,
                buckets@.len() == k,
                forall|i: int| 0 <= i < k ==> buckets@[i] == 0,
            decreases 12 - k,
        {
            buckets.push(0);
            k = k + 1;
        }
        Metrics {
            nats_connect_attempts: 0,
            nats_connected: 0,
            subs_active: 0,
            task_received: 0,
            task_completed: 0,
            task_failed: 0,
            task_timeout: 0,
            tasks_in_progress: 0,
            dlq_published_total: 0,
            task_duration_count: 0,
            task_duration_total_ms: 0,
            task_duration_buckets: buckets,
        }
    }

    /// Counts one received task.
    pub fn inc_task_received(&mut self)
        ensures
            *final(self) == (Metrics { task_received: spec_bumped(old(self).task_received), ..*old(self) }),
    {
        if self.task_received < u64::MAX {
            self.task_received = self.task_received + 1;
        }
    }

    /// Counts one published dead letter.
    pub fn inc_dlq_published(&mut self)
        ensures
            *final(self) == (Metrics {
                dlq_published_total: spec_bumped(old(self).dlq_published_total),
                ..*old(self)
            }),
    {
        if self.dlq_published_total < u64::MAX {
            self.dlq_published_total = self.dlq_published_total + 1;
        }
    }

    /// Counts one finished task under its terminal state.
    pub fn count_terminal(&mut self, state: crate::protocol::TaskState)
        ensures
            state == crate::protocol::TaskState::Completed ==> *final(self) == (Metrics {
                task_completed: spec_bumped(old(self).task_completed),
                ..*old(self)
            }),
            state == crate::protocol::TaskState::Failed ==> *final(self) == (Metrics {
                task_failed: spec_bumped(old(self).task_failed),
                ..*old(self)
            }),
            state == crate::protocol::TaskState::Timeout ==> *final(self) == (Metrics {
                task_timeout: spec_bumped(old(self).task_timeout),
                ..*old(self)
            }),
            (state != crate::protocol::TaskState::Completed && state
                != crate::protocol::TaskState::Failed && state
                != crate::protocol::TaskState::Timeout) ==> *final(self) == *old(self),
    {
        match state {
            crate::protocol::TaskState::Completed => {
                if self.task_completed < u64::MAX {
                    self.task_completed = self.task_completed + 1;
                }
            }
            crate::protocol::TaskState::Failed => {
                if self.task_failed < u64::MAX {
                    self.task_failed = self.task_failed + 1;
                }
            }
            crate::protocol::TaskState::Timeout => {
                if self.task_timeout < u64::MAX {
                    self.task_timeout = self.task_timeout + 1;
                }
            }
            _ => {}
        }
    }

    /// Records one task's duration: the count, the sum, and every bucket
    /// whose bound covers it.
    #[verifier::loop_isolation(false)]
    pub fn observe_duration(&mut self, ms: u64)
        requires
            old(self).task_duration_buckets@.len() == bucket_count(),
        ensures
            final(self).task_duration_count == spec_bumped(old(self).task_duration_count),
            final(self).task_duration_total_ms == (if old(self).task_duration_total_ms + ms
                <= u64::MAX {
                (old(self).task_duration_total_ms + ms) as u64
            } else {
                u64::MAX
            }),
            final(self).task_duration_buckets@.len() == bucket_count(),
            forall|i: int|
                0 <= i < bucket_count() ==> final(self).task_duration_buckets@[i] == (if ms
                    <= spec_bucket_bound(i) {
                    spec_bumped(old(self).task_duration_buckets@[i])
                } else {
                    old(self).task_duration_buckets@[i]
                }),
            final(self).task_received == old(self).task_received,
            final(self).dlq_published_total == old(self).dlq_published_total,
    {
        if self.task_duration_count < u64::MAX {
            self.task_duration_count = self.task_duration_count + 1;
        }
        if self.task_duration_total_ms <= u64::MAX - ms {
            self.task_duration_total_ms = self.task_duration_total_ms + ms;
        } else {
            self.task_duration_total_ms = u64::MAX;
        }
        let ghost mid = *self;
        let mut k: usize = 0;
        while k < 12
            invariant
                k <= 12,
                self.nats_connect_attempts == mid.nats_connect_attempts,
                self.nats_connected == mid.nats_connected,
                self.subs_active == mid.subs_active,
                self.task_received == mid.task_received,
                self.task_completed == mid.task_completed,
                self.task_failed == mid.task_failed,
                self.task_timeout == mid.task_timeout,
                self.tasks_in_progress == mid.tasks_in_progress,
                self.dlq_published_total == mid.dlq_published_total,
                self.task_duration_count == mid.task_duration_count,
                self.task_duration_total_ms == mid.task_duration_total_ms,
                self.task_duration_buckets@.len() == bucket_count(),
                forall|i: int|
                    0 <= i < k ==> self.task_duration_buckets@[i] == (if ms <= spec_bucket_bound(
                        i,
                    ) {
                        spec_bumped(old(self).task_duration_buckets@[i])
                    } else {
                        old(self).task_duration_buckets@[i]
                    }),
                forall|i: int|
                    k <= i < bucket_count() ==> self.task_duration_buckets@[i] == old(
                        self,
                    ).task_duration_buckets@[i],
            decreases 12 - k,
    {
            if ms <= bucket_bound(k) {
                let cur = self.task_duration_buckets[k];
                if cur < u64::MAX {
                    self.task_duration_buckets.set(k, cur + 1);
                }
            }
            k = k + 1;
        }
    }

    /// Sets the in-progress gauge to the current permit occupancy.
    pub fn set_tasks_in_progress(&mut self, v: u64)
        ensures
            *final(self) == (Metrics { tasks_in_progress: v, ..*old(self) }),
    {
        self.tasks_in_progress = v;
    }

    /// Sets the connected gauge.
    pub fn set_nats_connected(&mut self, up: bool)
        ensures
            *final(self) == (Metrics {
                nats_connected: if up {
                    1u64
                } else {
                    0u64
                },
                ..*old(self)
            }),
    {
        self.nats_connected = if up {
            1
        } else {
            0
        };
    }

    /// Sets the active-subscriptions gauge.
    pub fn set_subs_active(&mut self, up: bool)
        ensures
            *final(self) == (Metrics {
                subs_active: if up {
                    1u64
                } else {
                    0u64
                },
                ..*old(self)
            }),
    {
        self.subs_active = if up {
            1
        } else {
            0
        };
    }

    /// Counts one connect attempt.
    pub fn inc_connect_attempts(&mut self)
        ensures
            *final(self) == (Metrics {
                nats_connect_attempts: spec_bumped(old(self).nats_connect_attempts),
                ..*old(self)
            }),
    {
        if self.nats_connect_attempts < u64::MAX {
            self.nats_connect_attempts = self.nats_connect_attempts + 1;
        }
    }
}

} // verus!
