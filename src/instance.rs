use vstd::prelude::*;
use crate::graph::{BpmnFlowElement, BpmnGatewayType, BpmnGraph};
use crate::token::{
    any_live, consume_waiting, consume_waiting_at, find_active, first_active_from, follow,
    follow_first, follow_first_flow, follow_flows, has_live, terminate_all, terminate_live,
    tokens_wf, with_state, lemma_moves_wf, lemma_first_active, Token, TokenState,
};
use crate::tracker::{
    and_arrive, empty_slot, or_arrive, JoinOutcome, JoinSlotView, JoinTracker, MergeOutcome,
};

verus! {

#[derive(Clone, Debug)]
pub enum FailureReason {
    /// An activity reported a business failure, with its reason.
    Activity(String),
    /// A token arrived twice at a join within one generation.
    DuplicateJoinArrival,
}

#[derive(Clone, Debug)]
pub enum InstanceStatus {
    Running,
    Completed,
    Failed(FailureReason),
    Cancelled,
}

/// What an activity invocation reported.
#[derive(Clone, Debug)]
pub enum Outcome {
    Success,
    Failure(String),
}

/// What one scheduling step did, or asks the caller to do.
#[derive(Clone, Copy, Debug, PartialEq, Eq, Structural)]
pub enum Step {
    /// Invoke the activity at `element` for `token`, then report with `complete_activity`.
    Invoke { token: usize, element: usize },
    /// A gateway transition was applied.
    Advanced,
    /// Tokens wait at joins that no active token can reach.
    Stalled,
    /// The instance is no longer running.
    Done,
}

/// The state of a process instance: its tokens, the open join generation of each
/// element, and its status.
pub struct InstanceView {
    pub tokens: Seq<Token>,
    pub joins: Seq<JoinSlotView>,
    pub status: InstanceStatus,
}

pub open spec fn release_joins(joins: Seq<JoinSlotView>) -> Seq<JoinSlotView> {
    Seq::new(joins.len(), |i: int| empty_slot(joins[i].expected))
}

/// The instance fails: every live token is terminated and open joins are released.
pub open spec fn fail_view(s: InstanceView, reason: FailureReason) -> InstanceView {
    InstanceView {
        tokens: terminate_live(s.tokens),
        joins: release_joins(s.joins),
        status: InstanceStatus::Failed(reason),
    }
}

/// A cancelled running instance terminates its live tokens and releases its joins; an
/// instance that has already ended is left as it is.
pub open spec fn cancel_view(s: InstanceView) -> InstanceView {
    if s.status is Running {
        InstanceView {
            tokens: terminate_live(s.tokens),
            joins: release_joins(s.joins),
            status: InstanceStatus::Cancelled,
        }
    } else {
        s
    }
}

/// A fresh instance of `g`: one active token on the start element, no arrivals.
pub open spec fn initial_view(g: BpmnGraph, inst: usize) -> InstanceView {
    InstanceView {
        tokens: seq![
            Token { id: 0, position: g.start, instance: inst, state: TokenState::Active },
        ],
        joins: Seq::new(g.elements@.len(), |e: int| empty_slot(g.incoming@[e] as nat)),
        status: InstanceStatus::Running,
    }
}

/// Token `t`, active on the gateway `e`, passes it.
pub open spec fn gateway_view(g: BpmnGraph, inst: usize, s: InstanceView, t: int, e: int, kind: BpmnGatewayType) -> InstanceView {
    let out = g.out_of(e);
    match kind {
        BpmnGatewayType::AND => if g.is_join(e) {
            let (slot, r) = and_arrive(s.joins[e], t as usize);
            match r {
                Err(_) => fail_view(s, FailureReason::DuplicateJoinArrival),
                Ok(JoinOutcome::Waiting) => InstanceView {
                    tokens: s.tokens.update(t, with_state(s.tokens[t], TokenState::WaitingAtJoin)),
                    joins: s.joins.update(e, slot),
                    status: s.status,
                },
                Ok(JoinOutcome::Sealed { .. }) => InstanceView {
                    tokens: follow(consume_waiting(s.tokens, e as usize), t, out, inst),
                    joins: s.joins.update(e, slot),
                    status: s.status,
                },
            }
        } else {
            InstanceView { tokens: follow(s.tokens, t, out, inst), joins: s.joins, status: s.status }
        },
        BpmnGatewayType::OR => if g.is_join(e) {
            let (slot, r) = or_arrive(s.joins[e], t as usize);
            match r {
                Err(_) => fail_view(s, FailureReason::DuplicateJoinArrival),
                Ok(MergeOutcome::Continue) => InstanceView {
                    tokens: follow_first(s.tokens, t, out),
                    joins: s.joins.update(e, slot),
                    status: s.status,
                },
                Ok(MergeOutcome::Merged) => InstanceView {
                    tokens: s.tokens.update(t, with_state(s.tokens[t], TokenState::Completed)),
                    joins: s.joins.update(e, slot),
                    status: s.status,
                },
            }
        } else {
            InstanceView { tokens: follow_first(s.tokens, t, out), joins: s.joins, status: s.status }
        },
    }
}

/// One scheduling step: the first active token is taken. On an activity the caller is
/// asked to invoke it; on a gateway its semantics are applied. With no active token
/// the instance completes once no token waits at a join.
pub open spec fn step_view(g: BpmnGraph, inst: usize, s: InstanceView) -> (InstanceView, Step) {
    if !(s.status is Running) {
        (s, Step::Done)
    } else {
        match first_active_from(s.tokens, 0) {
            None => if any_live(s.tokens) {
                (s, Step::Stalled)
            } else {
                (InstanceView { tokens: s.tokens, joins: s.joins, status: InstanceStatus::Completed }, Step::Done)
            },
            Some(t) => {
                let e = s.tokens[t].position as int;
                match g.elements@[e] {
                    BpmnFlowElement::Activity(_) => (s, Step::Invoke { token: t as usize, element: e as usize }),
                    BpmnFlowElement::Gateway(kind) => (gateway_view(g, inst, s, t, e, kind), Step::Advanced),
                }
            },
        }
    }
}

/// Whether an outcome for token `t` is taken: the instance runs and `t` is active on an
/// activity. Otherwise the outcome is discarded.
pub open spec fn accepts_outcome(g: BpmnGraph, s: InstanceView, t: usize) -> bool {
    &&& s.status is Running
    &&& t < s.tokens.len()
    &&& s.tokens[t as int].state == TokenState::Active
    &&& g.elements@[s.tokens[t as int].position as int] is Activity
}

/// The state after the activity of token `t` reported `outcome`.
pub open spec fn complete_view(g: BpmnGraph, inst: usize, s: InstanceView, t: usize, outcome: Outcome) -> InstanceView {
    if accepts_outcome(g, s, t) {
        match outcome {
            Outcome::Success => InstanceView {
                tokens: follow(s.tokens, t as int, g.out_of(s.tokens[t as int].position as int), inst),
                joins: s.joins,
                status: s.status,
            },
            Outcome::Failure(reason) => fail_view(s, FailureReason::Activity(reason)),
        }
    } else {
        s
    }
}

/// Calling `cancel` a second time leaves the instance in the state that one call left.
pub proof fn lemma_cancel_idempotent(s: InstanceView)
    ensures
        cancel_view(cancel_view(s)) == cancel_view(s),
{
}

/// One live execution of a process graph.
pub struct ProcessInstance {
    id: usize,
    graph: BpmnGraph,
    tokens: Vec<Token>,
    tracker: JoinTracker,
    status: InstanceStatus,
}

impl View for ProcessInstance {
    type V = InstanceView;

    closed spec fn view(&self) -> InstanceView {
        InstanceView { tokens: self.tokens@, joins: self.tracker@, status: self.status }
    }
}

impl ProcessInstance {
    pub closed spec fn spec_graph(&self) -> BpmnGraph {
        self.graph
    }

    pub closed spec fn spec_id(&self) -> usize {
        self.id
    }

    pub open spec fn wf(&self) -> bool {
        &&& self.spec_graph().wf()
        &&& tokens_wf(self.spec_graph(), self.spec_id(), self@.tokens)
        &&& self@.joins.len() == self.spec_graph().num_elements()
        &&& forall|e: int|
            0 <= e < self@.joins.len() ==> (#[trigger] self@.joins[e]).expected
                == self.spec_graph().incoming@[e]
    }

    /// Starts instance `id` of `graph`.
    pub fn new(id: usize, graph: BpmnGraph) -> (r: ProcessInstance)
        requires
            graph.wf(),
        ensures
            r.wf(),
            r.spec_graph() == graph,
            r.spec_id() == id,
            r@ == initial_view(graph, id),
    {
        let tracker = JoinTracker::new(&graph.incoming);
        let mut tokens: Vec<Token> = Vec::new();
        tokens.push(Token { id: 0, position: graph.start, instance: id, state: TokenState::Active });
        let r = ProcessInstance { id, graph, tokens, tracker, status: InstanceStatus::Running };
        assert(r@.tokens =~= initial_view(r.graph, id).tokens);
        assert(r@.joins =~= initial_view(r.graph, id).joins);
        r
    }

    pub fn id(&self) -> (r: usize)
        ensures
            r == self.spec_id(),
    {
        self.id
    }

    pub fn graph(&self) -> (r: &BpmnGraph)
        ensures
            *r == self.spec_graph(),
    {
        &self.graph
    }

    pub fn status(&self) -> (r: &InstanceStatus)
        ensures
            *r == self@.status,
    {
        &self.status
    }

    pub fn tokens(&self) -> (r: &Vec<Token>)
        ensures
            r@ == self@.tokens,
    {
        &self.tokens
    }

    fn fail(&mut self, reason: FailureReason)
        requires
            old(self).wf(),
        ensures
            final(self).wf(),
            final(self).spec_graph() == old(self).spec_graph(),
            final(self).spec_id() == old(self).spec_id(),
            final(self)@ == fail_view(old(self)@, reason),
    {
        terminate_all(&mut self.tokens);
        self.tracker.release_all();
        self.status = InstanceStatus::Failed(reason);
        assert(self@.joins =~= release_joins(old(self)@.joins));
    }

    /// Takes one scheduling step.
    pub fn step(&mut self) -> (r: Step)
        requires
            old(self).wf(),
        ensures
            final(self).wf(),
            final(self).spec_graph() == old(self).spec_graph(),
            final(self).spec_id() == old(self).spec_id(),
            (final(self)@, r) == step_view(old(self).spec_graph(), old(self).spec_id(), old(self)@),
    {
        let ghost s0 = self@;
        let ghost g = self.graph;
        if !matches!(self.status, InstanceStatus::Running) {
            return Step::Done;
        }
        match find_active(&self.tokens) {
            None => {
                if has_live(&self.tokens) {
                    Step::Stalled
                } else {
                    self.status = InstanceStatus::Completed;
                    Step::Done
                }
            },
            Some(t) => {
                proof {
                    lemma_first_active(self.tokens@, 0);
                }
                let e = self.tokens[t].position;
                proof {
                    lemma_moves_wf(self.graph, self.id, self.tokens@, t as int, e as int, e);
                }
                let kind = match &self.graph.elements[e] {
                    BpmnFlowElement::Activity(_) => {
                        return Step::Invoke { token: t, element: e };
                    },
                    BpmnFlowElement::Gateway(k) => *k,
                };
                let join = self.graph.incoming[e] >= 2;
                match kind {
                    BpmnGatewayType::AND => {
                        if join {
                            match self.tracker.register_arrival(e, t) {
                                Err(_) => self.fail(FailureReason::DuplicateJoinArrival),
                                Ok(JoinOutcome::Waiting) => {
                                    self.tokens[t].state = TokenState::WaitingAtJoin;
                                },
                                Ok(JoinOutcome::Sealed { .. }) => {
                                    consume_waiting_at(&mut self.tokens, e);
                                    follow_flows(&mut self.tokens, t, &self.graph.outgoing[e], self.id);
                                },
                            }
                        } else {
                            follow_flows(&mut self.tokens, t, &self.graph.outgoing[e], self.id);
                        }
                    },
                    BpmnGatewayType::OR => {
                        if join {
                            match self.tracker.register_merge(e, t) {
                                Err(_) => self.fail(FailureReason::DuplicateJoinArrival),
                                Ok(MergeOutcome::Continue) => {
                                    follow_first_flow(&mut self.tokens, t, &self.graph.outgoing[e]);
                                },
                                Ok(MergeOutcome::Merged) => {
                                    self.tokens[t].state = TokenState::Completed;
                                },
                            }
                        } else {
                            follow_first_flow(&mut self.tokens, t, &self.graph.outgoing[e]);
                        }
                    },
                }
                assert(self@.tokens =~= gateway_view(g, self.id, s0, t as int, e as int, kind).tokens);
                assert(self@.joins =~= gateway_view(g, self.id, s0, t as int, e as int, kind).joins);
                assert(self@.status == gateway_view(g, self.id, s0, t as int, e as int, kind).status);
                Step::Advanced
            },
        }
    }

    /// Reports what the activity of `token` returned. An outcome for a token that is not
    /// active on an activity, or that comes after the instance ended, is discarded and
    /// `false` is returned.
    pub fn complete_activity(&mut self, token: usize, outcome: Outcome) -> (r: bool)
        requires
            old(self).wf(),
        ensures
            final(self).wf(),
            final(self).spec_graph() == old(self).spec_graph(),
            final(self).spec_id() == old(self).spec_id(),
            r == accepts_outcome(old(self).spec_graph(), old(self)@, token),
            final(self)@ == complete_view(old(self).spec_graph(), old(self).spec_id(), old(self)@, token, outcome),
    {
        if !matches!(self.status, InstanceStatus::Running) || token >= self.tokens.len() {
            return false;
        }
        if self.tokens[token].state != TokenState::Active {
            return false;
        }
        let e = self.tokens[token].position;
        let is_activity = match &self.graph.elements[e] {
            BpmnFlowElement::Activity(_) => true,
            BpmnFlowElement::Gateway(_) => false,
        };
        if !is_activity {
            return false;
        }
        proof {
            lemma_moves_wf(self.graph, self.id, self.tokens@, token as int, e as int, e);
        }
        match outcome {
            Outcome::Success => {
                follow_flows(&mut self.tokens, token, &self.graph.outgoing[e], self.id);
            },
            Outcome::Failure(reason) => {
                self.fail(FailureReason::Activity(reason));
            },
        }
        true
    }

    /// Cancels the instance. A second call changes nothing.
    pub fn cancel(&mut self)
        requires
            old(self).wf(),
        ensures
            final(self).wf(),
            final(self).spec_graph() == old(self).spec_graph(),
            final(self).spec_id() == old(self).spec_id(),
            final(self)@ == cancel_view(old(self)@),
    {
        if let InstanceStatus::Running = self.status {
            terminate_all(&mut self.tokens);
            self.tracker.release_all();
            self.status = InstanceStatus::Cancelled;
            assert(self@.joins =~= release_joins(old(self)@.joins));
        }
    }
}

} // verus!
