//! The fire-and-forget task supervisor.
//!
//! A `TaskSupervisor` models a registry of in-flight background operations.
//! `add` hands out a fresh task handle and never blocks; `resolve` retires a
//! handle with its outcome: a failure is reported to the single failure
//! observer exactly once, a success is discarded silently, and in neither
//! case are sibling tasks disturbed.  The transitions are given by the spec
//! functions `spec_add` and `spec_resolve`, and the isolation law is proved
//! in `lemma_failure_observed_once`.

use vstd::prelude::*;

verus! {

/// The supervisor's single failure observer, supplied by the layer that owns
/// it.  Called once per failed task, with that task's error.
pub trait Finisher {
    fn task_failed(&mut self, error: String);
}

/// The abstract supervisor state: the next unused handle and the handles of
/// the tasks still in flight, in registration order.
#[verifier::ext_equal]
pub struct SupervisorV {
    pub next: u64,
    pub live: Seq<u64>,
}

impl SupervisorV {
    /// Every live handle was handed out before `next`, and no handle is
    /// live twice.
    pub open spec fn wf(self) -> bool {
        &&& forall|i: int| 0 <= i < self.live.len() ==> #[trigger] self.live[i] < self.next
        &&& forall|i: int, j: int|
            0 <= i < j < self.live.len() ==> #[trigger] self.live[i] != #[trigger] self.live[j]
    }
}

/// Registration: the next handle goes live.  The counter saturates at the
/// top of its range rather than wrap.
pub open spec fn spec_add(s: SupervisorV) -> (SupervisorV, u64) {
    (
        SupervisorV {
            next: if s.next == u64::MAX {
                u64::MAX
            } else {
                (s.next + 1) as u64
            },
            live: s.live.push(s.next),
        },
        s.next,
    )
}

/// Resolution: a live task leaves the live set; it is reported exactly when
/// it resolved to failure.  Resolving a handle that is not live does
/// nothing and reports nothing.
pub open spec fn spec_resolve(s: SupervisorV, id: u64, failed: bool) -> (SupervisorV, bool) {
    if s.live.contains(id) {
        (SupervisorV { next: s.next, live: s.live.remove_value(id) }, failed)
    } else {
        (s, false)
    }
}

/// The law of failure isolation: resolving one failed task reports it, and
/// reports it once — the handle leaves the live set, every other task is
/// unaffected, and resolving the same handle again reports nothing.
pub proof fn lemma_failure_observed_once(s0: SupervisorV, failed_id: u64)
    requires
        s0.wf(),
        s0.live.contains(failed_id),
    ensures
        ({
            let (s1, reported) = spec_resolve(s0, failed_id, true);
            &&& reported == true
            &&& !s1.live.contains(failed_id)
            &&& forall|x: u64|
                x != failed_id ==> ((#[trigger] s1.live.contains(x)) <==> s0.live.contains(x))
            &&& spec_resolve(s1, failed_id, true).1 == false
            &&& spec_resolve(s1, failed_id, true).0 == s1
            &&& s1.wf()
        }),
{
    s0.live.index_of_first_ensures(failed_id);
    let i = s0.live.index_of_first(failed_id)->Some_0;
    let s1 = spec_resolve(s0, failed_id, true).0;
    assert(s1.live =~= s0.live.subrange(0, i) + s0.live.subrange(i + 1, s0.live.len() as int));
    assert forall|x: u64| x != failed_id implies ((#[trigger] s1.live.contains(x))
        <==> s0.live.contains(x)) by {
        if s0.live.contains(x) {
            let j = choose|j: int| 0 <= j < s0.live.len() && s0.live[j] == x;
            if j < i {
                assert(s1.live[j] == x);
            } else {
                assert(s1.live[j - 1] == x);
            }
        }
        if s1.live.contains(x) {
            let j = choose|j: int| 0 <= j < s1.live.len() && s1.live[j] == x;
            if j < i {
                assert(s0.live[j] == x);
            } else {
                assert(s0.live[j + 1] == x);
            }
        }
    }
    assert(!s1.live.contains(failed_id)) by {
        if s1.live.contains(failed_id) {
            let j = choose|j: int| 0 <= j < s1.live.len() && s1.live[j] == failed_id;
            if j < i {
                assert(s0.live[j] == failed_id);
            } else {
                assert(s0.live[j + 1] == failed_id);
            }
        }
    }
}

/// The registry of in-flight fire-and-forget tasks plus the failure
/// observer that sees each failed task exactly once.
pub struct TaskSupervisor<F> where F: Finisher {
    pub next_id: u64,
    pub live: Vec<u64>,
    pub finisher: F,
}

impl<F> View for TaskSupervisor<F> where F: Finisher {
    type V = SupervisorV;

    open spec fn view(&self) -> SupervisorV {
        SupervisorV { next: self.next_id, live: self.live@ }
    }
}

impl<F> TaskSupervisor<F> where F: Finisher {
    pub fn new(finisher: F) -> (r: TaskSupervisor<F>)
        ensures
            r@ == (SupervisorV { next: 0, live: Seq::<u64>::empty() }),
            r@.wf(),
    {
        TaskSupervisor { next_id: 0, live: Vec::new(), finisher }
    }

    /// Register one task: hands out its handle, never blocks, never fails.
    pub fn add(&mut self) -> (id: u64)
        ensures
            (final(self)@, id) == spec_add(old(self)@),
            old(self)@.wf() && old(self)@.next < u64::MAX ==> final(self)@.wf() && !old(
                self,
            )@.live.contains(id),
            final(self).finisher == old(self).finisher,
    {
        let id = self.next_id;
        if self.next_id < u64::MAX {
            self.next_id = self.next_id + 1;
        }
        self.live.push(id);
        id
    }

    /// Retire a task with its outcome.  A failure of a live task is handed
    /// to the failure observer and returned; everything else is silent.
    pub fn resolve(&mut self, id: u64, outcome: Result<(), String>) -> (r: Option<String>)
        ensures
            ({
                let (s1, reported) = spec_resolve(old(self)@, id, outcome is Err);
                &&& final(self)@ == s1
                &&& r is Some <==> reported
                &&& (r matches Some(e) ==> outcome == Result::<(), String>::Err(e))
            }),
    {
        let ghost pre: Seq<u64> = self.live@;
        let mut i: usize = 0;
        let mut found: Option<usize> = None;
        while i < self.live.len() && found.is_none()
            invariant
                i <= self.live@.len(),
                self.live@ == pre,
                match found {
                    Some(j) => j < self.live@.len() && pre[j as int] == id && forall|k: int|
                        0 <= k < j ==> pre[k] != id,
                    None => forall|k: int| 0 <= k < i ==> pre[k] != id,
                },
            decreases self.live@.len() - i, (if found is None {
                1int
            } else {
                0int
            }),
        {
            if self.live[i] == id {
                found = Some(i);
            } else {
                i = i + 1;
            }
        }
        proof {
            pre.index_of_first_ensures(id);
        }
        match found {
            None => {
                assert(!pre.contains(id));
                None
            },
            Some(j) => {
                assert(pre.contains(id));
                assert(pre.index_of_first(id) == Some(j as int));
                self.live.remove(j);
                assert(self.live@ =~= pre.remove_value(id));
                match outcome {
                    Ok(()) => None,
                    Err(e) => {
                        let report = e.clone();
                        self.finisher.task_failed(e);
                        Some(report)
                    },
                }
            },
        }
    }
}

} // verus!
