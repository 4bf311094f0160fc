//! A level-ordered queue for breadth-first traversal of decision diagrams.
//!
//! One bucket per variable level; nodes are enqueued into the bucket of
//! their level and dequeued a whole level at a time.
use vstd::prelude::*;
use crate::node::NodeId;

verus! {

/// The total number of nodes in a sequence of buckets.
pub open spec fn total_nodes(s: Seq<Seq<NodeId>>) -> nat
    decreases s.len(),
{
    if s.len() == 0 {
        0
    } else {
        total_nodes(s.drop_last()) + s.last().len()
    }
}

/// A level-ordered queue that groups nodes by their variable level.
pub struct LevelQueue {
    /// One bucket per level. Index = level number.
    buckets: Vec<Vec<NodeId>>,
    /// Number of variable levels this queue supports.
    num_vars: usize,
}

impl LevelQueue {
    /// The buckets, one sequence of nodes per level.
    pub closed spec fn view(&self) -> Seq<Seq<NodeId>> {
        self.buckets@.map_values(|b: Vec<NodeId>| b@)
    }

    /// One bucket per supported level.
    pub closed spec fn wf(&self) -> bool {
        self.buckets@.len() == self.num_vars
    }

    /// Create a new level queue for `num_vars` variable levels, all empty.
    pub fn new(num_vars: usize) -> (r: LevelQueue)
        ensures
            r.wf(),
            r.view() == Seq::new(num_vars as nat, |i: int| Seq::<NodeId>::empty()),
    {
        let mut buckets: Vec<Vec<NodeId>> = Vec::new();
        while buckets.len() < num_vars
            invariant
                buckets@.len() <= num_vars,
                forall|i: int| 0 <= i < buckets@.len() ==> (#[trigger] buckets@[i])@ == Seq::<NodeId>::empty(),
            decreases num_vars - buckets@.len(),
        {
            buckets.push(Vec::new());
        }
        let r = LevelQueue { buckets, num_vars };
        proof {
            assert(r.view() =~= Seq::new(num_vars as nat, |i: int| Seq::<NodeId>::empty()));
        }
        r
    }

    /// Add a node to the bucket for the given level.
    pub fn enqueue(&mut self, level: u32, node: NodeId)
        requires
            old(self).wf(),
            (level as nat) < old(self).view().len(),
        ensures
            final(self).wf(),
            final(self).view() == old(self).view().update(
                level as int,
                old(self).view()[level as int].push(node),
            ),
    {
        let l = level as usize;
        let mut bucket: Vec<NodeId> = Vec::new();
        std::mem::swap(&mut bucket, &mut self.buckets[l]);
        bucket.push(node);
        std::mem::swap(&mut bucket, &mut self.buckets[l]);
        proof {
            assert(self.view() =~= old(self).view().update(
                level as int,
                old(self).view()[level as int].push(node),
            ));
        }
    }

    /// Remove and return all nodes at the given level.
    ///
    /// Returns an empty vector if the level is empty or out of range.
    pub fn dequeue_level(&mut self, level: u32) -> (r: Vec<NodeId>)
        requires
            old(self).wf(),
        ensures
            final(self).wf(),
            (level as nat) < old(self).view().len() ==> {
                &&& r@ == old(self).view()[level as int]
                &&& final(self).view() == old(self).view().update(level as int, Seq::<NodeId>::empty())
            },
            (level as nat) >= old(self).view().len() ==> {
                &&& r@ == Seq::<NodeId>::empty()
                &&& final(self).view() == old(self).view()
            },
    {
        if (level as usize) >= self.num_vars {
            return Vec::new();
        }
        let l = level as usize;
        let mut bucket: Vec<NodeId> = Vec::new();
        std::mem::swap(&mut bucket, &mut self.buckets[l]);
        proof {
            assert(self.view() =~= old(self).view().update(level as int, Seq::<NodeId>::empty()));
        }
        bucket
    }

    /// Check if the queue has no nodes at any level.
    pub fn is_empty(&self) -> (r: bool)
        ensures
            r == (forall|i: int| 0 <= i < self.view().len() ==> (#[trigger] self.view()[i]).len() == 0),
    {
        let mut i: usize = 0;
        while i < self.buckets.len()
            invariant
                i <= self.buckets@.len(),
                forall|k: int| 0 <= k < i ==> (#[trigger] self.view()[k]).len() == 0,
            decreases self.buckets@.len() - i,
        {
            if self.buckets[i].len() != 0 {
                assert(self.view()[i as int] == self.buckets@[i as int]@);
                return false;
            }
            assert(self.view()[i as int] == self.buckets@[i as int]@);
            i += 1;
        }
        true
    }

    /// Return the total number of nodes across all levels.
    pub fn total_size(&self) -> (r: usize)
        requires
            total_nodes(self.view()) <= usize::MAX,
        ensures
            r == total_nodes(self.view()),
    {
        let mut sum: usize = 0;
        let mut i: usize = 0;
        while i < self.buckets.len()
            invariant
                i <= self.buckets@.len(),
                total_nodes(self.view()) <= usize::MAX,
                sum == total_nodes(self.view().take(i as int)),
            decreases self.buckets@.len() - i,
        {
            proof {
                assert(self.view().take(i + 1).drop_last() =~= self.view().take(i as int));
                lemma_total_prefix(self.view(), i as int + 1);
            }
            sum = sum + self.buckets[i].len();
            i += 1;
        }
        proof {
            assert(self.view().take(i as int) =~= self.view());
        }
        sum
    }

    /// Return the number of levels this queue supports.
    pub fn num_levels(&self) -> (r: usize)
        requires
            self.wf(),
        ensures
            r == self.view().len(),
    {
        self.num_vars
    }

    /// Peek at the nodes at a given level without removing them.
    pub fn peek_level(&self, level: u32) -> (r: &[NodeId])
        requires
            self.wf(),
        ensures
            (level as nat) < self.view().len() ==> r@ == self.view()[level as int],
            (level as nat) >= self.view().len() ==> r@ == Seq::<NodeId>::empty(),
    {
        if (level as usize) >= self.num_vars {
            return &[];
        }
        self.buckets[level as usize].as_slice()
    }
}

/// The nodes of a prefix never outnumber those of the whole queue.
proof fn lemma_total_prefix(s: Seq<Seq<NodeId>>, k: int)
    requires
        0 <= k <= s.len(),
    ensures
        total_nodes(s.take(k)) <= total_nodes(s),
    decreases s.len(),
{
    if k < s.len() {
        assert(s.drop_last().take(k) =~= s.take(k));
        lemma_total_prefix(s.drop_last(), k);
    } else {
        assert(s.take(k) =~= s);
    }
}

/// Replacing one bucket changes the total by the difference in size.
pub proof fn lemma_total_update(s: Seq<Seq<NodeId>>, l: int, x: Seq<NodeId>)
    requires
        0 <= l < s.len(),
    ensures
        total_nodes(s.update(l, x)) + s[l].len() == total_nodes(s) + x.len(),
    decreases s.len(),
{
    if l == s.len() - 1 {
        assert(s.update(l, x).drop_last() =~= s.drop_last());
    } else {
        assert(s.update(l, x).drop_last() =~= s.drop_last().update(l, x));
        lemma_total_update(s.drop_last(), l, x);
    }
}

/// Enqueuing adds exactly one node to the queue's total, and dequeuing a
/// level removes exactly the nodes that were at that level.
pub proof fn lemma_queue_totals(s: Seq<Seq<NodeId>>, l: int, node: NodeId)
    requires
        0 <= l < s.len(),
    ensures
        total_nodes(s.update(l, s[l].push(node))) == total_nodes(s) + 1,
        total_nodes(s.update(l, Seq::<NodeId>::empty())) + s[l].len() == total_nodes(s),
{
    lemma_total_update(s, l, s[l].push(node));
    lemma_total_update(s, l, Seq::<NodeId>::empty());
}

/// A call on a level queue, as a history records it.
pub enum QueueStep {
    /// `enqueue(level, node)`.
    Enqueue(u32, NodeId),
    /// `dequeue_level(level)`.
    Dequeue(u32),
}

/// The buckets after the calls `ss`, from `b`: what the contracts of
/// `enqueue` and `dequeue_level` make of them (an enqueue on a level past
/// the last is not a call `enqueue` takes, and changes nothing here).
pub open spec fn buckets_after(b: Seq<Seq<NodeId>>, ss: Seq<QueueStep>) -> Seq<Seq<NodeId>>
    decreases ss.len(),
{
    if ss.len() == 0 {
        b
    } else {
        let s = buckets_after(b, ss.drop_last());
        match ss.last() {
            QueueStep::Enqueue(l, n) => if (l as nat) < s.len() {
                s.update(l as int, s[l as int].push(n))
            } else {
                s
            },
            QueueStep::Dequeue(l) => if (l as nat) < s.len() {
                s.update(l as int, Seq::<NodeId>::empty())
            } else {
                s
            },
        }
    }
}

/// How many nodes the dequeues among `ss` handed out, from `b`.
pub open spec fn dequeued_after(b: Seq<Seq<NodeId>>, ss: Seq<QueueStep>) -> nat
    decreases ss.len(),
{
    if ss.len() == 0 {
        0
    } else {
        let s = buckets_after(b, ss.drop_last());
        dequeued_after(b, ss.drop_last()) + match ss.last() {
            QueueStep::Dequeue(l) => if (l as nat) < s.len() {
                s[l as int].len()
            } else {
                0
            },
            QueueStep::Enqueue(..) => 0,
        }
    }
}

/// How many enqueues among `ss` name a level below `n`.
pub open spec fn enqueued(ss: Seq<QueueStep>, n: nat) -> nat
    decreases ss.len(),
{
    if ss.len() == 0 {
        0
    } else {
        enqueued(ss.drop_last(), n) + match ss.last() {
            QueueStep::Enqueue(l, _) => if (l as nat) < n {
                1nat
            } else {
                0
            },
            QueueStep::Dequeue(..) => 0,
        }
    }
}

/// Over a history of calls, the queue keeps its levels, and its total
/// size plus the nodes handed out by dequeues equals the starting total
/// plus the enqueues: from a new queue, the total is the number of
/// enqueues minus the total length of all dequeued vectors.
pub proof fn lemma_queue_history(b: Seq<Seq<NodeId>>, ss: Seq<QueueStep>)
    ensures
        buckets_after(b, ss).len() == b.len(),
        total_nodes(buckets_after(b, ss)) + dequeued_after(b, ss) == total_nodes(b) + enqueued(
            ss,
            b.len(),
        ),
    decreases ss.len(),
{
    if ss.len() > 0 {
        let d = ss.drop_last();
        lemma_queue_history(b, d);
        let s = buckets_after(b, d);
        match ss.last() {
            QueueStep::Enqueue(l, n) => {
                if (l as nat) < s.len() {
                    lemma_queue_totals(s, l as int, n);
                }
            },
            QueueStep::Dequeue(l) => {
                if (l as nat) < s.len() {
                    lemma_total_update(s, l as int, Seq::<NodeId>::empty());
                }
            },
        }
    }
}

} // verus!
