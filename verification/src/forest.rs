//! The obligation forest: an incremental solver over a forest of
//! obligation nodes, each possibly spawning child obligations. The
//! fulfillment driver repeatedly advances every pending node; a node
//! finalizes to done only when all the children it spawned have, an
//! erroring node fails every node waiting on it, and a child that would
//! revisit an ancestor closes a cycle that is either co-inductively
//! legitimate or a fatal error.
//!
//! Nodes live in an arena addressed by stable indices; parent links are
//! indices, so backtrace reconstruction is an index walk, and a parent's
//! index is always smaller than its children's.

use vstd::prelude::*;

use crate::predicate::{
    lemma_view_obligation_seq_index, lemma_view_obligation_seq_len, param_env_eq, predicate_eq,
    view_obligation_seq, Obligation, PendingPredicateObligation, SpecObligation,
};

verus! {

/// The lifecycle of one node.
#[derive(Clone, Copy, PartialEq, Eq, Structural, Debug)]
pub enum NodeState {
    /// Waiting to be advanced.
    Pending,
    /// The processor advanced it; it finalizes when its children do.
    Success,
    /// Fully proven and removed from consideration.
    Done,
    /// Failed, or waiting on a failed node.
    Error,
}

/// One obligation node.
#[derive(Debug)]
pub struct Node {
    pub pending: PendingPredicateObligation,
    pub state: NodeState,
    /// The node that spawned this one, for backtraces.
    pub parent: Option<usize>,
    /// The nodes this one waits on before it can finalize.
    pub children: Vec<usize>,
}

/// What registering a child produced.
#[derive(Debug)]
pub enum RegisterChild {
    /// A new node was created, or an existing active node is now awaited.
    Awaited,
    /// The same obligation was already proven; nothing to wait for.
    AlreadyDone,
    /// The child revisits an ancestor: the chain from that ancestor down
    /// to the registering node, in order.
    Cycle(Vec<Obligation>),
}

/// The forest of obligation nodes.
#[derive(Debug)]
pub struct ObligationForest {
    pub nodes: Vec<Node>,
}

/// Two obligations coincide as forest keys: same ambient assumptions and
/// the same predicate. The environment takes part because it can decide
/// whether fulfillment succeeds.
pub open spec fn spec_same_key(a: SpecObligation, b: SpecObligation) -> bool {
    a.param_env == b.param_env && a.predicate == b.predicate
}

pub fn same_key(a: &Obligation, b: &Obligation) -> (r: bool)
    ensures
        r == spec_same_key(a@, b@),
{
    param_env_eq(&a.param_env, &b.param_env) && predicate_eq(&a.predicate, &b.predicate)
}

impl ObligationForest {
    /// Parent links only point backwards in the arena, and every child
    /// link lands inside it.
    pub open spec fn wf(&self) -> bool {
        &&& forall|i: int| 0 <= i < self.nodes@.len() ==> match (#[trigger] self.nodes@[i]).parent {
            Some(p) => p < i,
            None => true,
        }
        &&& forall|i: int, c: int|
            0 <= i < self.nodes@.len() && 0 <= c < self.nodes@[i].children@.len() ==> (
            #[trigger] self.nodes@[i].children@[c]) < self.nodes@.len()
    }

    /// Whether some node is still pending.
    pub open spec fn has_pending(&self) -> bool {
        exists|i: int| 0 <= i < self.nodes@.len() && (#[trigger] self.nodes@[i]).state
            == NodeState::Pending
    }

    /// The finalization invariant: a node is done only when every child
    /// it waits on is done.
    pub open spec fn done_closed(&self) -> bool {
        forall|i: int, c: int|
            0 <= i < self.nodes@.len() && self.nodes@[i].state == NodeState::Done && 0 <= c
                < self.nodes@[i].children@.len() && (#[trigger] self.nodes@[i].children@[c])
                < self.nodes@.len()
                ==> self.nodes@[self.nodes@[i].children@[c] as int].state == NodeState::Done
    }

    pub fn new() -> (r: ObligationForest)
        ensures
            r.wf(),
            r.done_closed(),
            r.nodes@.len() == 0,
    {
        ObligationForest { nodes: Vec::new() }
    }

    /// The index of a node holding the same obligation key, if any.
    fn find_same_key(&self, obligation: &Obligation) -> (r: Option<usize>)
        ensures
            match r {
                Some(i) => i < self.nodes@.len() && spec_same_key(
                    self.nodes@[i as int].pending@.obligation,
                    obligation@,
                ),
                None => forall|i: int| 0 <= i < self.nodes@.len() ==> !spec_same_key(
                    (#[trigger] self.nodes@[i]).pending@.obligation,
                    obligation@,
                ),
            },
    {
        let n = self.nodes.len();
        for i in 0..n
            invariant
                n == self.nodes@.len(),
                forall|j: int| 0 <= j < i ==> !spec_same_key(
                    (#[trigger] self.nodes@[j]).pending@.obligation,
                    obligation@,
                ),
        {
            if same_key(&self.nodes[i].pending.obligation, obligation) {
                return Some(i);
            }
        }
        None
    }

    /// Registers a new root obligation as a pending node, unless a node
    /// with the same key was already registered.
    pub fn register_obligation(&mut self, obligation: PendingPredicateObligation)
        requires
            old(self).wf(),
        ensures
            final(self).wf(),
            old(self).done_closed() ==> final(self).done_closed(),
            final(self).nodes@.len() >= old(self).nodes@.len(),
            (exists|i: int|
                0 <= i < old(self).nodes@.len() && spec_same_key(
                    (#[trigger] old(self).nodes@[i]).pending@.obligation,
                    obligation@.obligation,
                )) ==> final(self).nodes@ == old(self).nodes@,
            (forall|i: int|
                0 <= i < old(self).nodes@.len() ==> !spec_same_key(
                    (#[trigger] old(self).nodes@[i]).pending@.obligation,
                    obligation@.obligation,
                )) ==> final(self).nodes@.len() == old(self).nodes@.len() + 1 && final(self).nodes@.last().pending@ == obligation@ && final(self).nodes@.last().state
                == NodeState::Pending && final(self).nodes@.last().parent is None && final(self).nodes@.drop_last() == old(self).nodes@,
    {
        match self.find_same_key(&obligation.obligation) {
            Some(_) => {}
            None => {
                let node = Node {
                    pending: obligation,
                    state: NodeState::Pending,
                    parent: None,
                    children: Vec::new(),
                };
                self.nodes.push(node);
                proof {
                    assert(self.nodes@.drop_last() =~= old(self).nodes@);
                    assert(forall|i: int|
                        0 <= i < old(self).nodes@.len() ==> (#[trigger] self.nodes@[i]) == old(self).nodes@[i]);
                    assert(self.nodes@.last().children@.len() == 0);
                }
            }
        }
    }

    /// The obligations along the parent chain from the root down to node
    /// `i`, inclusive: the backtrace retained for diagnostics. The last
    /// entry is node `i`'s own obligation; the first belongs to a root.
    pub fn backtrace(&self, i: usize) -> (r: Vec<Obligation>)
        requires
            self.wf(),
            i < self.nodes@.len(),
        ensures
            r@.len() >= 1,
            r@.last()@ == self.nodes@[i as int].pending@.obligation,
            exists|root: int|
                0 <= root < self.nodes@.len() && (#[trigger] self.nodes@[root]).parent is None
                    && r@.first()@ == self.nodes@[root].pending@.obligation,
    {
        let mut chain_rev: Vec<Obligation> = Vec::new();
        let mut cur: usize = i;
        chain_rev.push(self.nodes[i].pending.obligation.clone());
        loop
            invariant
                self.wf(),
                cur < self.nodes@.len(),
                chain_rev@.len() >= 1,
                chain_rev@.first()@ == self.nodes@[i as int].pending@.obligation,
                chain_rev@.last()@ == self.nodes@[cur as int].pending@.obligation,
            decreases cur,
        {
            match self.nodes[cur].parent {
                Some(p) => {
                    chain_rev.push(self.nodes[p].pending.obligation.clone());
                    cur = p;
                }
                None => {
                    break;
                }
            }
        }
        let ghost root = cur as int;
        // Reverse into root-first order.
        let mut out: Vec<Obligation> = Vec::new();
        let mut k = chain_rev.len();
        while k > 0
            invariant
                k <= chain_rev@.len(),
                out@.len() == chain_rev@.len() - k,
                forall|j: int| 0 <= j < out@.len() ==> (#[trigger] out@[j])@ == chain_rev@[
                    chain_rev@.len() - 1 - j]@,
            decreases k,
        {
            k = k - 1;
            out.push(chain_rev[k].clone());
        }
        proof {
            assert(out@.len() == chain_rev@.len());
            assert(out@.last()@ == chain_rev@.first()@);
            assert(out@.first()@ == chain_rev@.last()@);
        }
        out
    }

    /// Whether the key of `ob` occurs on the parent chain starting at
    /// node `cur`, inclusive.
    pub open spec fn spec_key_on_chain(s: Seq<Node>, cur: int, ob: SpecObligation) -> bool
        decreases cur,
    {
        if 0 <= cur < s.len() {
            spec_same_key(s[cur].pending@.obligation, ob) || (match s[cur].parent {
                Some(p) => if (p as int) < cur {
                    Self::spec_key_on_chain(s, p as int, ob)
                } else {
                    false
                },
                None => false,
            })
        } else {
            false
        }
    }

    /// Walks the ancestors of `parent`, looking for one holding the same
    /// key as `obligation`; returns the closest such ancestor.
    fn find_cycle_start(&self, parent: usize, obligation: &Obligation) -> (r: Option<usize>)
        requires
            self.wf(),
            parent < self.nodes@.len(),
        ensures
            match r {
                Some(a) => a < self.nodes@.len() && spec_same_key(
                    self.nodes@[a as int].pending@.obligation,
                    obligation@,
                ) && Self::spec_key_on_chain(self.nodes@, parent as int, obligation@),
                None => !Self::spec_key_on_chain(self.nodes@, parent as int, obligation@),
            },
    {
        let mut cur: usize = parent;
        loop
            invariant
                self.wf(),
                cur < self.nodes@.len(),
                Self::spec_key_on_chain(self.nodes@, parent as int, obligation@)
                    == Self::spec_key_on_chain(self.nodes@, cur as int, obligation@),
            decreases cur,
        {
            if same_key(&self.nodes[cur].pending.obligation, obligation) {
                return Some(cur);
            }
            match self.nodes[cur].parent {
                Some(p) => {
                    cur = p;
                }
                None => {
                    return None;
                }
            }
        }
    }

    /// The obligations from ancestor `a` down to `parent` along the
    /// parent chain, in order: the cycle offered to the processor.
    fn chain_between(&self, a: usize, parent: usize) -> (r: Vec<Obligation>)
        requires
            self.wf(),
            a < self.nodes@.len(),
            parent < self.nodes@.len(),
    {
        let mut chain_rev: Vec<Obligation> = Vec::new();
        let mut cur: usize = parent;
        loop
            invariant
                self.wf(),
                cur < self.nodes@.len(),
            decreases cur,
        {
            chain_rev.push(self.nodes[cur].pending.obligation.clone());
            if cur == a {
                break;
            }
            match self.nodes[cur].parent {
                Some(p) => {
                    cur = p;
                }
                None => {
                    break;
                }
            }
        }
        let mut out: Vec<Obligation> = Vec::new();
        let mut k = chain_rev.len();
        while k > 0
            invariant
                k <= chain_rev@.len(),
                out@.len() == chain_rev@.len() - k,
            decreases k,
        {
            k = k - 1;
            out.push(chain_rev[k].clone());
        }
        out
    }

    /// Registers one child obligation spawned by node `parent`: detects a
    /// cycle through the ancestors, reuses an already-registered node of
    /// the same key, or creates a fresh pending node.
    pub fn register_child(&mut self, parent: usize, child: Obligation) -> (r: RegisterChild)
        requires
            old(self).wf(),
            parent < old(self).nodes@.len(),
            old(self).nodes@[parent as int].state != NodeState::Done,
        ensures
            final(self).wf(),
            parent < final(self).nodes@.len(),
            final(self).nodes@.len() >= old(self).nodes@.len(),
            // Only the parent's wait list grows; every other existing
            // node is untouched, and a created node starts pending.
            forall|k: int|
                0 <= k < old(self).nodes@.len() && k != parent ==> (#[trigger] final(self).nodes@[k]) == old(self).nodes@[k],
            final(self).nodes@[parent as int].state == old(self).nodes@[parent as int].state,
            final(self).nodes@[parent as int].pending == old(self).nodes@[parent as int].pending,
            final(self).nodes@[parent as int].parent == old(self).nodes@[parent as int].parent,
            final(self).nodes@.len() > old(self).nodes@.len() ==> final(self).nodes@.last().state
                == NodeState::Pending,
            old(self).done_closed() ==> final(self).done_closed(),
            // A cycle is reported exactly when the child's key sits on
            // the registering node's ancestor chain, and changes nothing.
            (r is Cycle) == Self::spec_key_on_chain(old(self).nodes@, parent as int, child@),
            r is Cycle ==> final(self).nodes@ == old(self).nodes@,
            // An already-proven key changes nothing and is not awaited.
            r is AlreadyDone ==> (final(self).nodes@ == old(self).nodes@ && exists|j: int|
                0 <= j < old(self).nodes@.len() && spec_same_key(
                    (#[trigger] old(self).nodes@[j]).pending@.obligation,
                    child@,
                ) && old(self).nodes@[j].state == NodeState::Done),
            // Otherwise the parent now waits on exactly one more node —
            // fresh or shared — holding the child's key, not yet done.
            r is Awaited ==> ({
                let cs = final(self).nodes@[parent as int].children@;
                &&& cs.len() == old(self).nodes@[parent as int].children@.len() + 1
                &&& cs.drop_last() == old(self).nodes@[parent as int].children@
                &&& (cs.last() as int) < final(self).nodes@.len()
                &&& spec_same_key(
                    final(self).nodes@[cs.last() as int].pending@.obligation,
                    child@,
                )
                &&& final(self).nodes@[cs.last() as int].state != NodeState::Done
            }),
    {
        match self.find_cycle_start(parent, &child) {
            Some(a) => {
                return RegisterChild::Cycle(self.chain_between(a, parent));
            }
            None => {}
        }
        match self.find_same_key(&child) {
            Some(j) => {
                match self.nodes[j].state {
                    NodeState::Done => RegisterChild::AlreadyDone,
                    _ => {
                        // Share the existing node: the parent waits on it
                        // too.
                        self.nodes[parent].children.push(j);
                        RegisterChild::Awaited
                    }
                }
            }
            None => {
                let node = Node {
                    pending: PendingPredicateObligation {
                        obligation: child,
                        stalled_on: Vec::new(),
                    },
                    state: NodeState::Pending,
                    parent: Some(parent),
                    children: Vec::new(),
                };
                self.nodes.push(node);
                let j = self.nodes.len() - 1;
                self.nodes[parent].children.push(j);
                proof {
                    assert forall|i: int| 0 <= i < self.nodes@.len() implies match (
                    #[trigger] self.nodes@[i]).parent {
                        Some(p) => p < i,
                        None => true,
                    } by {
                        if i < old(self).nodes@.len() && i != parent {
                            assert(self.nodes@[i].parent == old(self).nodes@[i].parent);
                        }
                    }
                }
                RegisterChild::Awaited
            }
        }
    }

    /// How many nodes are currently in the succeeded-but-waiting state;
    /// the measure that bounds propagation.
    pub open spec fn success_count(s: Seq<Node>) -> nat
        decreases s.len(),
    {
        if s.len() == 0 {
            0
        } else {
            Self::success_count(s.drop_last()) + (if s.last().state == NodeState::Success {
                1nat
            } else {
                0nat
            })
        }
    }

    /// Whether some child of node `i` has failed.
    pub open spec fn spec_child_failed(s: Seq<Node>, i: int) -> bool {
        exists|c: int|
            0 <= c < s[i].children@.len() && s[(#[trigger] s[i].children@[c]) as int].state
                == NodeState::Error
    }

    /// Whether every child of node `i` is done.
    pub open spec fn spec_children_done(s: Seq<Node>, i: int) -> bool {
        forall|c: int|
            0 <= c < s[i].children@.len() ==> s[(#[trigger] s[i].children@[c]) as int].state
                == NodeState::Done
    }

    /// Propagates completions and failures to a fixpoint: a succeeded
    /// node whose children are all done becomes done; a node waiting on a
    /// failed node fails. At exit every node still succeeded-but-waiting
    /// waits on an unfinished child and on no failed one, states only
    /// move out of the waiting state, and everything else about every
    /// node is untouched.
    pub fn propagate(&mut self)
        requires
            old(self).wf(),
            old(self).done_closed(),
        ensures
            final(self).wf(),
            final(self).done_closed(),
            final(self).nodes@.len() == old(self).nodes@.len(),
            // Only the state of a waiting node changes; obligations,
            // parents and wait lists stay as they were.
            forall|k: int|
                0 <= k < old(self).nodes@.len() ==> (#[trigger] final(self).nodes@[k]).pending
                    == old(self).nodes@[k].pending && final(self).nodes@[k].parent == old(self).nodes@[k].parent && final(self).nodes@[k].children == old(self).nodes@[k].children,
            forall|k: int|
                0 <= k < old(self).nodes@.len() && (#[trigger] old(self).nodes@[k]).state
                    != NodeState::Success ==> final(self).nodes@[k].state == old(self).nodes@[k].state,
            forall|k: int|
                0 <= k < final(self).nodes@.len() && (#[trigger] final(self).nodes@[k]).state
                    == NodeState::Success ==> old(self).nodes@[k].state == NodeState::Success,
            // The fixpoint itself: a node left waiting has no failed
            // child and at least one child not yet done.
            forall|k: int|
                0 <= k < final(self).nodes@.len() && (#[trigger] final(self).nodes@[k]).state
                    == NodeState::Success ==> !Self::spec_child_failed(final(self).nodes@, k)
                    && !Self::spec_children_done(final(self).nodes@, k),
    {
        let n = self.nodes.len();
        loop
            invariant
                self.wf(),
                self.done_closed(),
                n == self.nodes@.len(),
                n == old(self).nodes@.len(),
                forall|k: int|
                    0 <= k < n ==> (#[trigger] self.nodes@[k]).pending == old(self).nodes@[k].pending
                        && self.nodes@[k].parent == old(self).nodes@[k].parent
                        && self.nodes@[k].children == old(self).nodes@[k].children,
                forall|k: int|
                    0 <= k < n && (#[trigger] old(self).nodes@[k]).state != NodeState::Success
                        ==> self.nodes@[k].state == old(self).nodes@[k].state,
                forall|k: int|
                    0 <= k < n && (#[trigger] self.nodes@[k]).state == NodeState::Success
                        ==> old(self).nodes@[k].state == NodeState::Success,
            decreases Self::success_count(self.nodes@),
        {
            let ghost start = self.nodes@;
            let mut changed = false;
            for i in 0..n
                invariant
                    self.wf(),
                    self.done_closed(),
                    n == self.nodes@.len(),
                    n == old(self).nodes@.len(),
                    forall|k: int|
                        0 <= k < n ==> (#[trigger] self.nodes@[k]).pending
                            == old(self).nodes@[k].pending && self.nodes@[k].parent
                            == old(self).nodes@[k].parent && self.nodes@[k].children
                            == old(self).nodes@[k].children,
                    forall|k: int|
                        0 <= k < n && (#[trigger] old(self).nodes@[k]).state != NodeState::Success
                            ==> self.nodes@[k].state == old(self).nodes@[k].state,
                    forall|k: int|
                        0 <= k < n && (#[trigger] self.nodes@[k]).state == NodeState::Success
                            ==> old(self).nodes@[k].state == NodeState::Success,
                    changed ==> Self::success_count(self.nodes@) < Self::success_count(start),
                    !changed ==> self.nodes@ == start,
                    !changed ==> forall|k: int|
                        0 <= k < i && (#[trigger] self.nodes@[k]).state == NodeState::Success
                            ==> !Self::spec_child_failed(self.nodes@, k)
                            && !Self::spec_children_done(self.nodes@, k),
            {
                match self.nodes[i].state {
                    NodeState::Success => {
                        let mut all_done = true;
                        let mut any_error = false;
                        let m = self.nodes[i].children.len();
                        for c in 0..m
                            invariant
                                self.wf(),
                                n == self.nodes@.len(),
                                m == self.nodes@[i as int].children@.len(),
                                i < n,
                                all_done == (forall|cc: int|
                                    0 <= cc < c ==> self.nodes@[(
                                    #[trigger] self.nodes@[i as int].children@[cc]) as int].state
                                        == NodeState::Done),
                                any_error == (exists|cc: int|
                                    0 <= cc < c && self.nodes@[(
                                    #[trigger] self.nodes@[i as int].children@[cc]) as int].state
                                        == NodeState::Error),
                        {
                            let j = self.nodes[i].children[c];
                            match self.nodes[j].state {
                                NodeState::Done => {}
                                NodeState::Error => {
                                    any_error = true;
                                    all_done = false;
                                }
                                _ => {
                                    all_done = false;
                                }
                            }
                        }
                        if any_error {
                            let ghost pre = self.nodes@;
                            self.nodes[i].state = NodeState::Error;
                            proof {
                                lemma_success_count_settle(pre, self.nodes@, i as int);
                            }
                            changed = true;
                            proof {
                                assert forall|a: int, cx: int|
                                    0 <= a < self.nodes@.len() && self.nodes@[a].state
                                        == NodeState::Done && 0 <= cx
                                        < self.nodes@[a].children@.len() && (
                                    #[trigger] self.nodes@[a].children@[cx]) < self.nodes@.len()
                                        implies self.nodes@[self.nodes@[a].children@[cx] as int].state
                                        == NodeState::Done by {
                                    assert(a != i);
                                    assert(pre[a] == self.nodes@[a]);
                                    assert(pre[pre[a].children@[cx] as int].state
                                        == NodeState::Done);
                                }
                            }
                        } else if all_done {
                            let ghost pre = self.nodes@;
                            self.nodes[i].state = NodeState::Done;
                            proof {
                                lemma_success_count_settle(pre, self.nodes@, i as int);
                            }
                            changed = true;
                            proof {
                                assert forall|a: int, cx: int|
                                    0 <= a < self.nodes@.len() && self.nodes@[a].state
                                        == NodeState::Done && 0 <= cx
                                        < self.nodes@[a].children@.len() && (
                                    #[trigger] self.nodes@[a].children@[cx]) < self.nodes@.len()
                                        implies self.nodes@[self.nodes@[a].children@[cx] as int].state
                                        == NodeState::Done by {
                                    if a == i {
                                        assert(self.nodes@[a].children@[cx] == pre[a as int].children@[cx]);
                                    } else {
                                        assert(pre[a] == self.nodes@[a]);
                                        assert(pre[pre[a].children@[cx] as int].state
                                            == NodeState::Done);
                                    }
                                }
                            }
                        }
                    }
                    _ => {}
                }
            }
            if !changed {
                break;
            }
        }
    }

    /// The pending obligations, in node order: exactly the obligations
    /// of the nodes still pending, first to last.
    pub open spec fn spec_pending_obligations(s: Seq<Node>) -> Seq<SpecObligation>
        decreases s.len(),
    {
        if s.len() == 0 {
            Seq::empty()
        } else if s.last().state == NodeState::Pending {
            Self::spec_pending_obligations(s.drop_last()).push(s.last().pending@.obligation)
        } else {
            Self::spec_pending_obligations(s.drop_last())
        }
    }

    /// The obligations of the nodes that never finalized — still pending,
    /// or succeeded but forever waiting — in node order.
    pub open spec fn spec_unresolved_obligations(s: Seq<Node>) -> Seq<SpecObligation>
        decreases s.len(),
    {
        if s.len() == 0 {
            Seq::empty()
        } else if s.last().state == NodeState::Pending || s.last().state == NodeState::Success {
            Self::spec_unresolved_obligations(s.drop_last()).push(s.last().pending@.obligation)
        } else {
            Self::spec_unresolved_obligations(s.drop_last())
        }
    }

    /// A snapshot of the obligations still pending, for diagnostics:
    /// every pending node's obligation, in deterministic node order.
    pub fn pending_obligations(&self) -> (r: Vec<Obligation>)
        ensures
            view_obligation_seq(r@) == Self::spec_pending_obligations(self.nodes@),
    {
        broadcast use {lemma_view_obligation_seq_len, lemma_view_obligation_seq_index};

        let mut out: Vec<Obligation> = Vec::new();
        let n = self.nodes.len();
        for i in 0..n
            invariant
                n == self.nodes@.len(),
                view_obligation_seq(out@) == Self::spec_pending_obligations(
                    self.nodes@.take(i as int),
                ),
        {
            let ghost prefix = self.nodes@.take(i as int);
            proof {
                assert(self.nodes@.take(i + 1).drop_last() =~= prefix);
                assert(self.nodes@.take(i + 1).last() == self.nodes@[i as int]);
            }
            match self.nodes[i].state {
                NodeState::Pending => {
                    out.push(self.nodes[i].pending.obligation.clone());
                    proof {
                        assert(view_obligation_seq(out@) =~= Self::spec_pending_obligations(
                            self.nodes@.take(i + 1),
                        ));
                    }
                }
                _ => {
                    proof {
                        assert(view_obligation_seq(out@) =~= Self::spec_pending_obligations(
                            self.nodes@.take(i + 1),
                        ));
                    }
                }
            }
        }
        proof {
            assert(self.nodes@.take(n as int) =~= self.nodes@);
        }
        out
    }
}

/// Settling one succeeded-but-waiting node, everything else untouched,
/// lowers the waiting count by exactly one.
proof fn lemma_success_count_settle(pre: Seq<Node>, post: Seq<Node>, i: int)
    requires
        0 <= i < pre.len(),
        post.len() == pre.len(),
        pre[i].state == NodeState::Success,
        post[i].state != NodeState::Success,
        forall|k: int| 0 <= k < pre.len() && k != i ==> post[k] == pre[k],
    ensures
        ObligationForest::success_count(post) + 1 == ObligationForest::success_count(pre),
    decreases pre.len(),
{
    if i == pre.len() - 1 {
        assert(post.drop_last() =~= pre.drop_last());
    } else {
        assert(forall|k: int|
            0 <= k < pre.drop_last().len() && k != i ==> post.drop_last()[k]
                == pre.drop_last()[k]);
        lemma_success_count_settle(pre.drop_last(), post.drop_last(), i);
        assert(post.last() == pre.last());
    }
}

} // verus!
