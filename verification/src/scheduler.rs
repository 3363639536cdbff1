//! The merge scheduler: a max-priority queue of merge jobs, and the rule by
//! which a popped job is judged against the current statistics.

use crate::heap::heap_keys;
use crate::heap::heap_new;
use crate::heap::heap_pop;
use crate::heap::heap_push;
use crate::heap::JobKey;
use crate::heap::key_le;
use crate::tables::index_set;
use crate::tables::set_insert;
use crate::tables::set_new;
use crate::tables::set_to_vec;
use crate::word::Pair;
use ahash::AHashSet;
use dary_heap::DaryHeap;
use vstd::prelude::*;

verus! {

/// `a` comes before `b` in the order of pairs: by the left id, then by the right.
pub open spec fn pair_lt(a: Pair, b: Pair) -> bool {
    a.0 < b.0 || (a.0 == b.0 && a.1 < b.1)
}

/// `a` is `b` or comes before it.
pub open spec fn pair_le(a: Pair, b: Pair) -> bool {
    a == b || pair_lt(a, b)
}

/// A candidate merge: a pair, the weighted count recorded for it when it was
/// queued, and the words believed to hold the pair. The count may be stale.
pub struct MergeJob {
    pub pair: Pair,
    pub count: u64,
    pub pos: AHashSet<usize>,
}

/// What a job says: its pair, its recorded count, and its words as a set.
pub struct JobView {
    pub pair: Pair,
    pub count: u64,
    pub pos: Set<usize>,
}

impl View for MergeJob {
    type V = JobView;

    open spec fn view(&self) -> JobView {
        JobView { pair: self.pair, count: self.count, pos: index_set(self.pos) }
    }
}

/// `a` is served strictly before `b`: its count is higher, or the counts are
/// equal and its pair comes first.
pub open spec fn outranks(a: JobView, b: JobView) -> bool {
    a.count > b.count || (a.count == b.count && pair_lt(a.pair, b.pair))
}

impl MergeJob {
    /// A job for `pair` with the recorded `count` and the words `pos`.
    pub fn new(pair: Pair, count: u64, pos: &Vec<usize>) -> (job: MergeJob)
        ensures
            job@.pair == pair,
            job@.count == count,
            forall|w: usize| job@.pos.contains(w) <==> pos@.contains(w),
    {
        let mut set = set_new();
        let mut i: usize = 0;
        while i < pos.len()
            invariant
                i <= pos@.len(),
                forall|w: usize|
                    index_set(set).contains(w) <==> exists|k: int|
                        0 <= k < i && #[trigger] pos@[k] == w,
            decreases pos@.len() - i,
        {
            set_insert(&mut set, pos[i]);
            i += 1;
        }
        MergeJob { pair, count, pos: set }
    }

    /// The words of the job, each once, in no particular order.
    pub fn positions(&self) -> (pos: Vec<usize>)
        ensures
            pos@.no_duplicates(),
            forall|w: usize| pos@.contains(w) <==> self@.pos.contains(w),
    {
        set_to_vec(&self.pos)
    }

    /// Whether this job is served strictly before `other`.
    pub fn outranks(&self, other: &MergeJob) -> (first: bool)
        ensures
            first == outranks(self@, other@),
    {
        self.count > other.count || (self.count == other.count && (self.pair.0 < other.pair.0 || (
        self.pair.0 == other.pair.0 && self.pair.1 < other.pair.1)))
    }
}

/// The sum of the recorded counts of the jobs.
pub open spec fn backlog(jobs: Seq<JobView>) -> nat
    decreases jobs.len(),
{
    if jobs.len() == 0 {
        0
    } else {
        backlog(jobs.drop_last()) + jobs.last().count as nat
    }
}

/// Taking one job out lowers the backlog by its count.
pub proof fn lemma_backlog_remove(jobs: Seq<JobView>, i: int)
    requires
        0 <= i < jobs.len(),
    ensures
        backlog(jobs.remove(i)) + jobs[i].count == backlog(jobs),
    decreases jobs.len(),
{
    if i == jobs.len() - 1 {
        assert(jobs.remove(i) =~= jobs.drop_last());
    } else {
        lemma_backlog_remove(jobs.drop_last(), i);
        assert(jobs.remove(i).drop_last() =~= jobs.drop_last().remove(i));
    }
}

/// Adding one job raises the backlog by its count.
pub proof fn lemma_backlog_push(jobs: Seq<JobView>, job: JobView)
    ensures
        backlog(jobs.push(job)) == backlog(jobs) + job.count,
{
    assert(jobs.push(job).drop_last() =~= jobs);
}

/// What is to be done with a popped job.
#[derive(Clone, Copy, Debug, PartialEq, Eq, Structural)]
pub enum Verdict {
    /// The pair no longer occurs: the job is dropped.
    Discard,
    /// The recorded count is stale: the job goes back with the current count.
    Requeue,
    /// The recorded count is current: the job is the next merge.
    Accept,
}

/// Judges a popped job by the count that the statistics hold now for its pair.
pub fn judge(recorded: u64, current: i64) -> (verdict: Verdict)
    ensures
        verdict == if current <= 0 {
            Verdict::Discard
        } else if current != recorded {
            Verdict::Requeue
        } else {
            Verdict::Accept
        },
{
    if current <= 0 {
        Verdict::Discard
    } else if current as u64 != recorded {
        Verdict::Requeue
    } else {
        Verdict::Accept
    }
}

/// The key under which a job waits in the heap. The heap is a max-heap, so the
/// pair is stored complemented: of two jobs with equal counts the one with the
/// smaller pair has the greater key.
pub open spec fn key_of(job: JobView, slot: usize) -> JobKey {
    (job.count, (u32::MAX - job.pair.0) as u32, (u32::MAX - job.pair.1) as u32, slot)
}

/// The order of the keys is the order of service: of two jobs, the one with
/// the smaller key does not outrank the other.
pub proof fn lemma_key_order(a: JobView, slot_a: usize, b: JobView, slot_b: usize)
    requires
        key_le(key_of(a, slot_a), key_of(b, slot_b)),
    ensures
        !outranks(a, b),
{
}

/// The pair that a key stands for.
pub open spec fn key_pair(key: JobKey) -> Pair {
    ((u32::MAX - key.1) as u32, (u32::MAX - key.2) as u32)
}

/// A max-priority queue of merge jobs, ordered by count and, among equal
/// counts, by ascending pair.
pub struct Scheduler {
    heap: DaryHeap<JobKey, 8>,
    slots: Vec<AHashSet<usize>>,
    free: Vec<usize>,
    keys: Ghost<Seq<JobKey>>,
}

impl Scheduler {
    /// The heap holds the listed keys, each key has a slot of its own, and the
    /// free slots are slots that no key has.
    pub closed spec fn wf(&self) -> bool {
        &&& heap_keys(self.heap) == self.keys@.to_multiset()
        &&& forall|i: int| 0 <= i < self.keys@.len() ==> (#[trigger] self.keys@[i]).3 < self.slots@.len()
        &&& forall|i: int, j: int|
            0 <= i < self.keys@.len() && 0 <= j < self.keys@.len() && i != j ==> (
            #[trigger] self.keys@[i]).3 != (#[trigger] self.keys@[j]).3
        &&& self.free@.no_duplicates()
        &&& forall|f: int| 0 <= f < self.free@.len() ==> #[trigger] self.free@[f] < self.slots@.len()
        &&& forall|i: int, f: int|
            0 <= i < self.keys@.len() && 0 <= f < self.free@.len() ==> (#[trigger] self.keys@[i]).3
                != #[trigger] self.free@[f]
    }

    /// The jobs that wait, in no particular order.
    pub closed spec fn queued(&self) -> Seq<JobView> {
        Seq::new(
            self.keys@.len(),
            |i: int|
                JobView {
                    pair: key_pair(self.keys@[i]),
                    count: self.keys@[i].0,
                    pos: index_set(self.slots@[self.keys@[i].3 as int]),
                },
        )
    }

    /// A queue in which nothing waits.
    pub fn new() -> (queue: Scheduler)
        ensures
            queue.wf(),
            queue.queued() == Seq::<JobView>::empty(),
    {
        let queue = Scheduler {
            heap: heap_new(),
            slots: Vec::new(),
            free: Vec::new(),
            keys: Ghost(Seq::empty()),
        };
        proof {
            queue.keys@.to_multiset_ensures();
            assert(queue.keys@.to_multiset() =~= heap_keys(queue.heap));
            assert(queue.queued() =~= Seq::<JobView>::empty());
        }
        queue
    }

    /// Puts `job` into the queue.
    pub fn push(&mut self, job: MergeJob)
        requires
            old(self).wf(),
        ensures
            final(self).wf(),
            final(self).queued() == old(self).queued().push(job@),
    {
        let ghost view = job@;
        let ghost before = self.keys@;
        let ghost spare = self.free@;
        let MergeJob { pair, count, pos } = job;
        let mut pos = pos;
        let slot = match self.free.pop() {
            Some(f) => {
                proof {
                    assert(spare[spare.len() - 1] == f);
                }
                std::mem::swap(&mut self.slots[f], &mut pos);
                f
            },
            None => {
                let s = self.slots.len();
                self.slots.push(pos);
                s
            },
        };
        let key: JobKey = (count, u32::MAX - pair.0, u32::MAX - pair.1, slot);
        heap_push(&mut self.heap, key);
        self.keys = Ghost(before.push(key));
        proof {
            before.to_multiset_ensures();
            assert(key_pair(key) == pair);
            assert forall|i: int| 0 <= i < before.len() implies before[i].3 != slot by {
                if spare.len() > 0 {
                    assert(spare[spare.len() - 1] == slot);
                }
            }
            assert forall|f: int| 0 <= f < self.free@.len() implies #[trigger] self.free@[f]
                != slot by {
                if spare.len() > 0 {
                    assert(self.free@[f] == spare[f]);
                    assert(spare[spare.len() - 1] == slot);
                }
            }
            assert(self.queued() =~= old(self).queued().push(view));
        }
    }

    /// Takes a job that no waiting job outranks out of the queue, or returns
    /// `None` where nothing waits.
    pub fn pop(&mut self) -> (top: Option<MergeJob>)
        requires
            old(self).wf(),
        ensures
            final(self).wf(),
            top is None <==> old(self).queued().len() == 0,
            top is None ==> final(self).queued() == old(self).queued(),
            top matches Some(job) ==> {
                &&& exists|i: int|
                    0 <= i < old(self).queued().len() && #[trigger] old(self).queued()[i] == job@
                        && final(self).queued() == old(self).queued().remove(i)
                &&& forall|j: int|
                    0 <= j < old(self).queued().len() ==> !outranks(
                        #[trigger] old(self).queued()[j],
                        job@,
                    )
            },
    {
        let ghost before = self.keys@;
        proof {
            before.to_multiset_ensures();
        }
        match heap_pop(&mut self.heap) {
            None => None,
            Some(key) => {
                let ghost i = before.index_of(key);
                assert(before.contains(key));
                assert(0 <= i < before.len() && before[i] == key);
                let slot = key.3;
                let mut pos = set_new();
                std::mem::swap(&mut self.slots[slot], &mut pos);
                self.free.push(slot);
                self.keys = Ghost(before.remove(i));
                let job = MergeJob {
                    pair: (u32::MAX - key.1, u32::MAX - key.2),
                    count: key.0,
                    pos,
                };
                proof {
                    assert forall|a: int, b: int|
                        0 <= a < self.free@.len() && 0 <= b < self.free@.len() && a
                            != b implies self.free@[a] != self.free@[b] by {
                        if a < old(self).free@.len() {
                            assert(self.free@[a] == old(self).free@[a]);
                        }
                        if b < old(self).free@.len() {
                            assert(self.free@[b] == old(self).free@[b]);
                        }
                    }
                    assert(old(self).queued()[i] == job@);
                    assert(self.queued() =~= old(self).queued().remove(i));
                    assert forall|j: int| 0 <= j < old(self).queued().len() implies !outranks(
                        #[trigger] old(self).queued()[j],
                        job@,
                    ) by {
                        assert(before.contains(before[j]));
                        assert(key_le(before[j], key));
                    }
                }
                Some(job)
            },
        }
    }
}

} // verus!
