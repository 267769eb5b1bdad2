//! A namespaced delivery queue of task ids: the in-memory stand-in for
//! an external delivery backend. This core is synchronous; blocking
//! behaviour belongs to the embedding.

use vstd::prelude::*;

use crate::ids::TaskId;

verus! {

/// What can go wrong in a delivery queue operation.
#[derive(Debug)]
pub enum QueueError {
    /// The backend failed; the text says how.
    OperationFailed(String),
}

/// A FIFO of task ids per namespace, backed by one flat list of
/// `(namespace, id)` entries in arrival order.
#[derive(Debug)]
pub struct InMemoryDeliveryQueue {
    entries: Vec<(String, TaskId)>,
}

impl InMemoryDeliveryQueue {
    /// The entries, as (namespace, id) pairs in arrival order.
    pub closed spec fn entries_view(self) -> Seq<(Seq<char>, TaskId)> {
        self.entries@.map_values(|e: (String, TaskId)| (e.0@, e.1))
    }

    /// An empty queue.
    pub fn new() -> (r: Self)
        ensures
            r.entries_view().len() == 0,
    {
        let r = InMemoryDeliveryQueue { entries: Vec::new() };
        proof {
            assert(r.entries_view() =~= Seq::<(Seq<char>, TaskId)>::empty());
        }
        r
    }

    /// Appends one id under the namespace.
    pub fn push(&mut self, ns: &str, task_id: TaskId)
        ensures
            final(self).entries_view() == old(self).entries_view().push((ns@, task_id)),
    {
        let key = String::from_str(ns);
        self.entries.push((key, task_id));
        proof {
            assert(self.entries_view() =~= old(self).entries_view().push((ns@, task_id)));
        }
    }

    /// Takes the oldest id of the namespace, if any is waiting.
    pub fn try_pop(&mut self, ns: &str) -> (r: Option<TaskId>)
        ensures
            match r {
                Some(t) => exists|k: int|
                    {
                        &&& 0 <= k < old(self).entries_view().len()
                        &&& (#[trigger] old(self).entries_view()[k]).0 == ns@
                        &&& old(self).entries_view()[k].1 == t
                        &&& (forall|y: int|
                            0 <= y < k ==> (#[trigger] old(self).entries_view()[y]).0 != ns@)
                        &&& final(self).entries_view() == old(self).entries_view().remove(k)
                    },
                None => final(self).entries_view() == old(self).entries_view() && (forall|y: int|
                    0 <= y < old(self).entries_view().len() ==> (
                    #[trigger] old(self).entries_view()[y]).0 != ns@),
            },
    {
        let key = String::from_str(ns);
        let mut k: usize = 0;
        while k < self.entries.len()
            invariant
                *self == *old(self),
                key@ == ns@,
                k <= self.entries@.len(),
                forall|y: int| 0 <= y < k ==> (#[trigger] self.entries_view()[y]).0 != ns@,
            decreases self.entries@.len() - k,
        {
            if self.entries[k].0 == key {
                proof {
                    assert(self.entries_view()[k as int].0 == ns@);
                }
                let entry = self.entries.remove(k);
                proof {
                    assert(self.entries_view() =~= old(self).entries_view().remove(k as int));
                    assert(old(self).entries_view()[k as int].1 == entry.1);
                }
                return Some(entry.1);
            }
            k = k + 1;
        }
        None
    }
}

impl Default for InMemoryDeliveryQueue {
    /// Same as [`InMemoryDeliveryQueue::new`].
    fn default() -> (r: Self)
        ensures
            r.entries_view().len() == 0,
    {
        Self::new()
    }
}

} // verus!
