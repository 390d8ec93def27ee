//! The webhook job queue: named FIFO queues of signed delivery jobs.

use vstd::prelude::*;
use crate::text::str_eq;

verus! {

/// One webhook delivery job: where to POST, under which key, with which
/// body and `X-Pusher-Signature`.
#[derive(Debug)]
pub struct JobData {
    pub url: String,
    pub app_key: String,
    pub signature: String,
    pub body: String,
}

/// Common trait for queue drivers. Every implementation names the job
/// sequence of each queue; pushes go to the back, pops come from the
/// front.
pub trait QueueInterface: Sized {
    spec fn wf(&self) -> bool;

    spec fn spec_jobs(&self, queue: Seq<char>) -> Seq<JobData>;

    /// Append a job to the named queue.
    fn add_to_queue(&mut self, queue_name: &str, data: JobData)
        requires
            old(self).wf(),
        ensures
            final(self).wf(),
            final(self).spec_jobs(queue_name@) == old(self).spec_jobs(queue_name@).push(data),
            forall|q: Seq<char>|
                q != queue_name@ ==> #[trigger] final(self).spec_jobs(q) == old(self).spec_jobs(
                    q,
                );

    /// Take the oldest job off the named queue.
    fn pop_job(&mut self, queue_name: &str) -> (r: Option<JobData>)
        requires
            old(self).wf(),
        ensures
            final(self).wf(),
            match r {
                Option::Some(j) => old(self).spec_jobs(queue_name@).len() > 0 && j == old(
                    self,
                ).spec_jobs(queue_name@).first() && final(self).spec_jobs(queue_name@)
                    == old(self).spec_jobs(queue_name@).drop_first(),
                Option::None => old(self).spec_jobs(queue_name@).len() == 0
                    && final(self).spec_jobs(queue_name@) == old(self).spec_jobs(queue_name@),
            },
            forall|q: Seq<char>|
                q != queue_name@ ==> #[trigger] final(self).spec_jobs(q) == old(self).spec_jobs(
                    q,
                );

    /// Release whatever the driver holds; the in-memory driver holds
    /// nothing outside itself.
    fn disconnect(&mut self)
        requires
            old(self).wf(),
        ensures
            final(self).wf();
}

struct QueueEntry {
    name: String,
    jobs: Vec<JobData>,
}

/// The in-memory queue driver.
pub struct MemoryQueueManager {
    queues: Vec<QueueEntry>,
}

impl MemoryQueueManager {
    spec fn spec_queue_index(self, q: Seq<char>) -> int {
        choose|i: int| 0 <= i < self.queues@.len() && self.queues@[i].name@ == q
    }

    spec fn spec_has_queue(self, q: Seq<char>) -> bool {
        exists|i: int| 0 <= i < self.queues@.len() && self.queues@[i].name@ == q
    }

    pub fn new() -> (r: MemoryQueueManager)
        ensures
            r.wf(),
            forall|q: Seq<char>| r.spec_jobs(q) == Seq::<JobData>::empty(),
    {
        MemoryQueueManager { queues: Vec::new() }
    }

    fn find_queue(&self, q: &str) -> (r: Option<usize>)
        ensures
            match r {
                Option::Some(i) => i < self.queues@.len() && self.queues@[i as int].name@ == q@,
                Option::None => !self.spec_has_queue(q@),
            },
    {
        let n = self.queues.len();
        let mut i: usize = 0;
        while i < n
            invariant
                i <= n,
                n == self.queues@.len(),
                forall|j: int| 0 <= j < i ==> self.queues@[j].name@ != q@,
            decreases n - i,
        {
            if str_eq(self.queues[i].name.as_str(), q) {
                return Option::Some(i);
            }
            i += 1;
        }
        Option::None
    }

    proof fn lemma_queue_index_unique(self, q: Seq<char>, i: int)
        requires
            forall|a: int, b: int|
                0 <= a < b < self.queues@.len() ==> self.queues@[a].name@
                    != self.queues@[b].name@,
            0 <= i < self.queues@.len(),
            self.queues@[i].name@ == q,
        ensures
            self.spec_has_queue(q),
            self.spec_queue_index(q) == i,
    {
        let j = self.spec_queue_index(q);
        if j != i {
            if j < i {
                assert(self.queues@[j].name@ != self.queues@[i].name@);
            } else {
                assert(self.queues@[i].name@ != self.queues@[j].name@);
            }
        }
    }

    proof fn lemma_other_queues(self, pre: MemoryQueueManager, i0: int, q0: Seq<char>)
        requires
            pre.wf(),
            0 <= i0 < pre.queues@.len(),
            pre.queues@[i0].name@ == q0,
            self.queues@ == pre.queues@.update(i0, self.queues@[i0]),
            self.queues@[i0].name@ == q0,
        ensures
            self.wf(),
            forall|q: Seq<char>|
                q != q0 ==> #[trigger] self.spec_jobs(q) == pre.spec_jobs(q),
    {
        assert forall|a: int, b: int|
            0 <= a < b < self.queues@.len() implies self.queues@[a].name@
            != self.queues@[b].name@ by {
            assert(self.queues@[a].name@ == pre.queues@[a].name@);
            assert(self.queues@[b].name@ == pre.queues@[b].name@);
        }
        assert forall|q: Seq<char>|
            q != q0 implies #[trigger] self.spec_jobs(q) == pre.spec_jobs(q) by {
            if self.spec_has_queue(q) {
                let j = choose|j: int| 0 <= j < self.queues@.len() && self.queues@[j].name@ == q;
                assert(j != i0);
                assert(pre.queues@[j].name@ == q);
                self.lemma_queue_index_unique(q, j);
                pre.lemma_queue_index_unique(q, j);
            } else {
                if pre.spec_has_queue(q) {
                    let j = choose|j: int|
                        0 <= j < pre.queues@.len() && pre.queues@[j].name@ == q;
                    assert(self.queues@[j].name@ == q);
                }
            }
        }
    }
}

impl QueueInterface for MemoryQueueManager {
    closed spec fn wf(&self) -> bool {
        forall|i: int, j: int|
            0 <= i < j < self.queues@.len() ==> self.queues@[i].name@ != self.queues@[j].name@
    }

    closed spec fn spec_jobs(&self, queue: Seq<char>) -> Seq<JobData> {
        if self.spec_has_queue(queue) {
            self.queues@[self.spec_queue_index(queue)].jobs@
        } else {
            Seq::empty()
        }
    }

    fn add_to_queue(&mut self, queue_name: &str, data: JobData) {
        let ghost pre = *self;
        match self.find_queue(queue_name) {
            Option::Some(i) => {
                proof {
                    pre.lemma_queue_index_unique(queue_name@, i as int);
                }
                let mut e = self.queues.remove(i);
                e.jobs.push(data);
                let ghost e2 = e;
                self.queues.insert(i, e);
                proof {
                    assert(self.queues@ =~= pre.queues@.update(i as int, e2));
                    self.lemma_other_queues(pre, i as int, queue_name@);
                    self.lemma_queue_index_unique(queue_name@, i as int);
                }
            },
            Option::None => {
                let mut jobs: Vec<JobData> = Vec::new();
                jobs.push(data);
                let e = QueueEntry { name: String::from_str(queue_name), jobs };
                self.queues.push(e);
                proof {
                    assert(self.queues@.drop_last() =~= pre.queues@);
                    assert forall|a: int, b: int|
                        0 <= a < b < self.queues@.len() implies self.queues@[a].name@
                        != self.queues@[b].name@ by {
                        if b == self.queues@.len() - 1 {
                            assert(pre.queues@[a].name@ == self.queues@[a].name@);
                            if self.queues@[a].name@ == queue_name@ {
                                assert(pre.spec_has_queue(queue_name@));
                            }
                        } else {
                            assert(self.queues@[a].name@ == pre.queues@[a].name@);
                            assert(self.queues@[b].name@ == pre.queues@[b].name@);
                        }
                    }
                    self.lemma_queue_index_unique(queue_name@, self.queues@.len() - 1);
                    assert(self.spec_jobs(queue_name@) =~= pre.spec_jobs(queue_name@).push(data));
                    assert forall|q: Seq<char>|
                        q != queue_name@ implies #[trigger] self.spec_jobs(q) == pre.spec_jobs(
                        q,
                    ) by {
                        if self.spec_has_queue(q) {
                            let j = choose|j: int|
                                0 <= j < self.queues@.len() && self.queues@[j].name@ == q;
                            assert(j < pre.queues@.len());
                            assert(pre.queues@[j].name@ == q);
                            self.lemma_queue_index_unique(q, j);
                            pre.lemma_queue_index_unique(q, j);
                        } else {
                            if pre.spec_has_queue(q) {
                                let j = choose|j: int|
                                    0 <= j < pre.queues@.len() && pre.queues@[j].name@ == q;
                                assert(self.queues@[j].name@ == q);
                            }
                        }
                    }
                }
            },
        }
    }

    fn pop_job(&mut self, queue_name: &str) -> (r: Option<JobData>) {
        let ghost pre = *self;
        match self.find_queue(queue_name) {
            Option::None => Option::None,
            Option::Some(i) => {
                proof {
                    pre.lemma_queue_index_unique(queue_name@, i as int);
                }
                if self.queues[i].jobs.len() == 0 {
                    return Option::None;
                }
                let mut e = self.queues.remove(i);
                let job = e.jobs.remove(0);
                let ghost e2 = e;
                self.queues.insert(i, e);
                proof {
                    assert(self.queues@ =~= pre.queues@.update(i as int, e2));
                    self.lemma_other_queues(pre, i as int, queue_name@);
                    self.lemma_queue_index_unique(queue_name@, i as int);
                    assert(e2.jobs@ =~= pre.queues@[i as int].jobs@.drop_first());
                }
                Option::Some(job)
            },
        }
    }

    fn disconnect(&mut self) {
    }
}

} // verus!
