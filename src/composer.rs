//! The driver: one step of composition at a time, with a per-step error sink.
//!
//! A step hands out one node to execute (the root first, then pending nodes
//! in document order) or, when nothing is pending, asks the caller to resume
//! ready tasks and apply queued updates. The caller runs the node's code,
//! which may create children, mark nodes and report errors through the
//! composer, and then closes the step.

use crate::pending::path_lt;
use crate::arena::NodeView;
use crate::ready::{ReadyHandle, ReadyQueue};
use crate::runtime::{lemma_pending_paths, node_path, postorder, Runtime};
use vstd::prelude::*;

verus! {

/// Outcome of a bulk composition that did not complete.
#[derive(Debug)]
pub enum TryComposeError {
    /// Nothing was pending, ready or queued: no work was done.
    Pending,
    /// A node reported a failure during a step.
    Error(String),
}

impl TryComposeError {
    /// Whether both values are the same variant (errors compare equal
    /// whatever they carry).
    pub fn same_kind(&self, other: &TryComposeError) -> (r: bool)
        ensures
            r == ((self is Pending && other is Pending) || (self is Error && other is Error)),
    {
        match (self, other) {
            (TryComposeError::Pending, TryComposeError::Pending) => true,
            (TryComposeError::Error(_), TryComposeError::Error(_)) => true,
            _ => false,
        }
    }
}

impl PartialEq for TryComposeError {
    fn eq(&self, other: &TryComposeError) -> (r: bool) {
        self.same_kind(other)
    }
}

impl vstd::std_specs::cmp::PartialEqSpecImpl for TryComposeError {
    open spec fn obeys_eq_spec() -> bool {
        true
    }

    open spec fn eq_spec(&self, other: &TryComposeError) -> bool {
        (self is Pending && other is Pending) || (self is Error && other is Error)
    }
}

/// What the caller is to do for one step.
#[derive(Debug, PartialEq, Eq, Structural)]
pub enum Step {
    /// Execute the composable of this node against its own scope.
    Compose(u64),
    /// Resume every ready task, then apply every queued update; this step
    /// makes no progress.
    Flush,
}

/// What a bulk composition does after one step.
#[derive(Debug, PartialEq)]
pub enum Flow {
    /// Take another step.
    Continue,
    /// Stop with this result.
    Done(Result<(), TryComposeError>),
}

/// What a step hands out for a composer in state `c`.
pub open spec fn step_spec(c: Composer) -> Step {
    if c.initial() {
        Step::Compose(c.rt_view().root_key())
    } else if c.rt_view().pending_view().len() == 0 {
        Step::Flush
    } else {
        Step::Compose(c.rt_view().pending_view()[0].0)
    }
}

/// The bulk driver's decision after a step (see `try_compose_flow`).
pub open spec fn flow_spec(did_work: bool, step: Option<Result<(), String>>) -> Flow {
    match step {
        None => if did_work {
            Flow::Done(Ok(()))
        } else {
            Flow::Done(Err(TryComposeError::Pending))
        },
        Some(Ok(_)) => Flow::Continue,
        Some(Err(e)) => Flow::Done(Err(TryComposeError::Error(e))),
    }
}

/// The stepping engine over one runtime.
pub struct Composer {
    rt: Runtime,
    ready: ReadyQueue,
    is_initial: bool,
    error: Option<String>,
}

impl Composer {
    pub closed spec fn wf(&self) -> bool {
        self.rt.wf()
    }

    /// The runtime, as the contracts see it.
    pub closed spec fn rt_view(&self) -> Runtime {
        self.rt
    }

    /// Whether the root has not run yet.
    pub closed spec fn initial(&self) -> bool {
        self.is_initial
    }

    /// What the current step's error sink holds.
    pub closed spec fn sink(&self) -> Option<Seq<char>> {
        match self.error {
            Some(e) => Some(e@),
            None => None,
        }
    }

    /// A composer over a fresh tree holding only the root, which runs on the
    /// first step.
    pub fn new(root_name: Option<String>) -> (r: Composer)
        ensures
            r.woken() == Seq::<u64>::empty(),
            r.wf(),
            r.initial(),
            r.sink() is None,
            r.rt_view().nodes().dom() == set![r.rt_view().root_key()],
            r.rt_view().nodes()[r.rt_view().root_key()].children.len() == 0,
            r.rt_view().nodes()[r.rt_view().root_key()].name == (match root_name {
                Some(s) => Some(s@),
                None => None::<Seq<char>>,
            }),
            r.rt_view().pending_view().len() == 0,
            r.rt_view().current() == r.rt_view().root_key(),
            r.rt_view().pending_view().to_set() == Set::<(u64, Seq<usize>)>::empty(),
    {
        let rt = Runtime::new(root_name);
        proof {
            assert(rt.pending_view().to_set() =~= Set::<(u64, Seq<usize>)>::empty());
        }
        Composer {
            rt,
            ready: ReadyQueue::new(),
            is_initial: true,
            error: None,
        }
    }

    /// The runtime that this composer drives.
    pub fn runtime(&self) -> (r: &Runtime)
        ensures
            *r == self.rt_view(),
            r.wf() == self.wf(),
    {
        &self.rt
    }

    /// The task keys woken on this thread and not taken since, oldest first.
    pub closed spec fn woken(&self) -> Seq<u64> {
        self.ready.woken()
    }

    /// A push-only handle for wake signals from any thread.
    pub fn ready_handle(&self) -> (r: ReadyHandle) {
        self.ready.handle()
    }

    /// Marks a task ready.
    pub fn wake(&mut self, key: u64)
        ensures
            final(self).woken() == old(self).woken().push(key),
            final(self).rt_view() == old(self).rt_view(),
            final(self).initial() == old(self).initial(),
            final(self).sink() == old(self).sink(),
            final(self).wf() == old(self).wf(),
    {
        self.ready.wake(key)
    }

    /// Takes the task keys that are ready now, for a flush step: every key
    /// woken through `wake`, in order, then keys pushed through handles.
    pub fn take_ready(&mut self) -> (r: Vec<u64>)
        ensures
            r@.len() >= old(self).woken().len(),
            r@.subrange(0, old(self).woken().len() as int) == old(self).woken(),
            final(self).woken() == Seq::<u64>::empty(),
            final(self).rt_view() == old(self).rt_view(),
            final(self).initial() == old(self).initial(),
            final(self).sink() == old(self).sink(),
            final(self).wf() == old(self).wf(),
    {
        self.ready.take_ready()
    }

    /// Tears the tree down: every node leaves the arena, each node's children
    /// before the node; returns the keys in removal order.
    pub fn teardown(&mut self) -> (removed: Vec<u64>)
        requires
            old(self).wf(),
        ensures
            removed@ == postorder(
                old(self).rt_view().nodes(),
                old(self).rt_view().root_key(),
                old(self).rt_view().nodes().len(),
            ),
            forall|k: u64| #[trigger] old(self).rt_view().nodes().contains_key(k) ==> removed@.contains(k),
            final(self).rt_view().nodes().dom() == Set::<u64>::empty(),
    {
        self.rt.teardown()
    }

    /// Whether the root has not run yet.
    pub fn is_initial(&self) -> (r: bool)
        ensures
            r == self.initial(),
    {
        self.is_initial
    }

    /// Starts one step: installs a fresh error sink and decides what to do.
    /// The first step runs the root; later ones take the first pending node
    /// in document order; with nothing pending the step is a flush and
    /// changes nothing else.
    pub fn next_step(&mut self) -> (r: Step)
        requires
            old(self).wf(),
        ensures
            final(self).woken() == old(self).woken(),
            final(self).wf(),
            final(self).sink() is None,
            !final(self).initial(),
            final(self).rt_view().nodes() == old(self).rt_view().nodes(),
            final(self).rt_view().root_key() == old(self).rt_view().root_key(),
            old(self).initial() ==> r == Step::Compose(old(self).rt_view().root_key())
                && final(self).rt_view().current() == old(self).rt_view().root_key()
                && final(self).rt_view().pending_view() == old(self).rt_view().pending_view(),
            !old(self).initial() && old(self).rt_view().pending_view().len() == 0 ==> r
                == Step::Flush && final(self).rt_view().pending_view() == old(self).rt_view().pending_view()
                && final(self).rt_view().current() == old(self).rt_view().current(),
            !old(self).initial() && old(self).rt_view().pending_view().len() > 0 ==> r
                == Step::Compose(old(self).rt_view().pending_view()[0].0) && final(self).rt_view().current() == old(self).rt_view().pending_view()[0].0 && final(self).rt_view().pending_view() == old(self).rt_view().pending_view().drop_first(),
            !old(self).initial() ==> (r matches Step::Compose(k) ==> final(self).rt_view().nodes().contains_key(k)
                && forall|j: int| 0 <= j < final(self).rt_view().pending_view().len() ==> path_lt(
                    node_path(final(self).rt_view().nodes(), k),
                    #[trigger] final(self).rt_view().pending_view()[j].1,
                )),
            r == step_spec(*old(self)),
            !old(self).initial() ==> ((r == Step::Flush) == (old(self).rt_view().pending_view().to_set()
                == Set::<(u64, Seq<usize>)>::empty())),
            !old(self).initial() ==> (r matches Step::Compose(k) ==> old(self).rt_view().pending_view().to_set().contains(
                (k, node_path(old(self).rt_view().nodes(), k)),
            ) && final(self).rt_view().pending_view().to_set() == old(self).rt_view().pending_view().to_set().remove(
                (k, node_path(old(self).rt_view().nodes(), k)),
            )),
    {
        proof {
            lemma_pending_paths(&self.rt);
        }
        self.error = None;
        if self.is_initial {
            self.is_initial = false;
            let root = self.rt.root();
            self.rt.set_current(root);
            Step::Compose(root)
        } else {
            match self.rt.take_next() {
                Some(p) => {
                    proof {
                        let s = old(self).rt.pending_view();
                        assert(p@ == s[0]);
                        assert(self.rt.nodes().contains_key(s[0].0));
                        assert(s[0].1 == node_path(self.rt.nodes(), p.key));
                        assert forall|j: int| 0 <= j < self.rt.pending_view().len() implies path_lt(
                            node_path(self.rt.nodes(), p.key),
                            #[trigger] self.rt.pending_view()[j].1,
                        ) by {
                            assert(self.rt.pending_view()[j] == s[j + 1]);
                            assert(path_lt(s[0].1, s[j + 1].1));
                        }
                        let t = self.rt.pending_view();
                        assert(s.to_set().contains(s[0]));
                        assert(t.to_set() =~= s.to_set().remove(s[0])) by {
                            assert forall|x| t.to_set().contains(x) implies s.to_set().remove(s[0]).contains(x) by {
                                let j = choose|j: int| 0 <= j < t.len() && t[j] == x;
                                assert(s[j + 1] == x);
                                assert(path_lt(s[0].1, s[j + 1].1));
                                crate::pending::lemma_path_trichotomy(s[0].1, s[j + 1].1);
                            }
                            assert forall|x| s.to_set().remove(s[0]).contains(x) implies t.to_set().contains(x) by {
                                let j = choose|j: int| 0 <= j < s.len() && s[j] == x;
                                assert(j != 0);
                                assert(t[j - 1] == x);
                            }
                        }
                    }
                    self.rt.set_current(p.key);
                    Step::Compose(p.key)
                },
                None => {
                    proof {
                        assert(old(self).rt.pending_view().to_set() =~= Set::<(u64, Seq<usize>)>::empty());
                    }
                    Step::Flush
                },
            }
        }
    }

    /// Adds a new last child under a live node and marks it pending.
    pub fn create_child(&mut self, parent: u64, name: Option<String>) -> (c: u64)
        requires
            old(self).wf(),
            old(self).rt_view().nodes().contains_key(parent),
            old(self).rt_view().nodes().len() < u32::MAX - 1,
        ensures
            final(self).woken() == old(self).woken(),
            final(self).wf(),
            final(self).initial() == old(self).initial(),
            final(self).sink() == old(self).sink(),
            !old(self).rt_view().nodes().contains_key(c),
            final(self).rt_view().nodes() == old(self).rt_view().nodes().insert(
                c,
                NodeView {
                    parent: Some(parent),
                    children: Seq::empty(),
                    child_idx: old(self).rt_view().nodes()[parent].children.len() as usize,
                    name: match name {
                        Some(s) => Some(s@),
                        None => None::<Seq<char>>,
                    },
                    depth: old(self).rt_view().nodes()[parent].depth + 1,
                },
            ).insert(
                parent,
                NodeView {
                    children: old(self).rt_view().nodes()[parent].children.push(c),
                    ..old(self).rt_view().nodes()[parent]
                },
            ),
            node_path(final(self).rt_view().nodes(), c) == node_path(
                old(self).rt_view().nodes(),
                parent,
            ).push(old(self).rt_view().nodes()[parent].children.len() as usize),
            final(self).rt_view().pending_view().to_set() == old(self).rt_view().pending_view().to_set().insert(
                (c, node_path(final(self).rt_view().nodes(), c)),
            ),
            final(self).rt_view().root_key() == old(self).rt_view().root_key(),
            final(self).rt_view().current() == old(self).rt_view().current(),
    {
        self.rt.create_child(parent, name)
    }

    /// Marks a live node for recomposition; marking it again while it is
    /// pending changes nothing.
    pub fn queue(&mut self, key: u64)
        requires
            old(self).wf(),
            old(self).rt_view().nodes().contains_key(key),
        ensures
            final(self).woken() == old(self).woken(),
            final(self).wf(),
            final(self).initial() == old(self).initial(),
            final(self).sink() == old(self).sink(),
            final(self).rt_view().nodes() == old(self).rt_view().nodes(),
            final(self).rt_view().root_key() == old(self).rt_view().root_key(),
            final(self).rt_view().current() == old(self).rt_view().current(),
            final(self).rt_view().pending_view().to_set() == old(self).rt_view().pending_view().to_set().insert(
                (key, node_path(old(self).rt_view().nodes(), key)),
            ),
    {
        self.rt.queue(key)
    }

    /// Records a failure in the current step's error sink; the step goes on.
    pub fn report_error(&mut self, error: String)
        ensures
            final(self).woken() == old(self).woken(),
            final(self).sink() == Some(error@),
            final(self).rt_view() == old(self).rt_view(),
            final(self).initial() == old(self).initial(),
            final(self).wf() == old(self).wf(),
    {
        self.error = Some(error);
    }

    /// Ends a step that executed a node: success when the sink stayed empty,
    /// else the failure it holds. The sink is emptied.
    pub fn finish_step(&mut self) -> (r: Result<(), String>)
        ensures
            final(self).woken() == old(self).woken(),
            final(self).sink() is None,
            final(self).rt_view() == old(self).rt_view(),
            final(self).initial() == old(self).initial(),
            final(self).wf() == old(self).wf(),
            old(self).sink() is None ==> r is Ok,
            old(self).sink() is Some ==> r is Err && r->Err_0@ == old(self).sink().unwrap(),
    {
        match self.error.take() {
            Some(e) => Err(e),
            None => Ok(()),
        }
    }
}

/// The bulk driver's decision after one step, given whether an earlier step
/// of the same call did work: a flush ends the call (with nothing to do if no
/// step did work), a failure ends it with that failure, and a successful
/// step asks for another.
pub fn try_compose_flow(did_work: bool, step: Option<Result<(), String>>) -> (r: Flow)
    ensures
        step is None && did_work ==> r == Flow::Done(Ok(())),
        step is None && !did_work ==> r == Flow::Done(Err(TryComposeError::Pending)),
        step matches Some(Ok(_)) ==> r == Flow::Continue,
        step matches Some(Err(e)) ==> r matches Flow::Done(Err(TryComposeError::Error(e2)))
            && e2@ == e@,
        r == flow_spec(did_work, step),
{
    match step {
        None => {
            if did_work {
                Flow::Done(Ok(()))
            } else {
                Flow::Done(Err(TryComposeError::Pending))
            }
        },
        Some(Ok(())) => Flow::Continue,
        Some(Err(e)) => Flow::Done(Err(TryComposeError::Error(e))),
    }
}

/// The cooperative driver's answer for a bulk result: `None` (suspend until
/// woken) when there was nothing to do, else the completed result.
pub fn poll_result(r: Result<(), TryComposeError>) -> (p: Option<Result<(), String>>)
    ensures
        r matches Err(TryComposeError::Pending) ==> p is None,
        r is Ok ==> p == Some(Ok::<(), String>(())),
        r matches Err(TryComposeError::Error(e)) ==> p matches Some(Err(e2)) && e2@ == e@,
{
    match r {
        Ok(()) => Some(Ok(())),
        Err(TryComposeError::Pending) => None,
        Err(TryComposeError::Error(e)) => Some(Err(e)),
    }
}

/// Once the first step has run and nothing is pending, a bulk call's first
/// step is a flush (which leaves the tree and the pending set as they are),
/// and the call ends reporting that there was nothing to do.
pub proof fn lemma_steady_state(c: Composer)
    requires
        c.wf(),
        !c.initial(),
        c.rt_view().pending_view().len() == 0,
    ensures
        step_spec(c) == Step::Flush,
        flow_spec(false, None) == Flow::Done(Err(TryComposeError::Pending)),
{
}

/// A node is handed out by a step after the first only if it was pending:
/// a node that no one marks after its first execution is not executed again.
pub proof fn lemma_only_pending_nodes_run(c: Composer, k: u64)
    requires
        c.wf(),
        !c.initial(),
        step_spec(c) == Step::Compose(k),
    ensures
        exists|i: int| 0 <= i < c.rt_view().pending_view().len() && #[trigger] c.rt_view().pending_view()[i].0 == k,
{
    assert(c.rt_view().pending_view()[0].0 == k);
}

/// Of two pending nodes, the one earlier in document order is handed out
/// first: a step after the first never takes the later one while the earlier
/// one waits, and with only these two pending it takes the earlier one.
pub proof fn lemma_earlier_path_first(c: Composer, u: (u64, Seq<usize>), v: (u64, Seq<usize>))
    requires
        c.wf(),
        !c.initial(),
        c.rt_view().pending_view().to_set().contains(u),
        c.rt_view().pending_view().to_set().contains(v),
        path_lt(u.1, v.1),
    ensures
        step_spec(c) != Step::Compose(v.0),
        c.rt_view().pending_view().to_set() == set![u, v] ==> step_spec(c) == Step::Compose(u.0),
{
    lemma_pending_paths(&c.rt);
    let s = c.rt.pending_view();
    let i = choose|i: int| 0 <= i < s.len() && s[i] == u;
    let j = choose|j: int| 0 <= j < s.len() && s[j] == v;
    crate::pending::lemma_path_trichotomy(u.1, v.1);
    if i > 0 {
        assert(path_lt(s[0].1, s[i].1));
    }
    if s[0].0 == v.0 {
        assert(s[0].1 == node_path(c.rt.nodes(), s[0].0));
        assert(s[j].1 == node_path(c.rt.nodes(), s[j].0));
        if i > 0 {
            crate::pending::lemma_path_transitive(v.1, u.1, v.1);
        }
    }
    if s.to_set() == set![u, v] {
        assert(s.to_set().contains(s[0]));
        if s[0] == v {
            if i > 0 {
                crate::pending::lemma_path_transitive(v.1, u.1, v.1);
            }
        }
    }
}

} // verus!
