use vstd::prelude::*;

verus! {

/// Kind of a flow. Both kinds are unconditional for control flow.
#[derive(Clone, Copy, Debug, PartialEq, Eq, Structural)]
pub enum BpmnFlowType {
    Sequence,
    Message,
}

#[derive(Clone, Copy, Debug, PartialEq, Eq, Structural)]
pub enum BpmnGatewayType {
    AND,
    OR,
}

/// An opaque, named unit of work. Names may repeat within a graph.
#[derive(Clone, Debug)]
pub struct BpmnActivity {
    pub name: String,
}

impl BpmnActivity {
    pub fn new(name: String) -> (r: BpmnActivity)
        ensures
            r.name == name,
    {
        BpmnActivity { name }
    }
}

/// A node of the graph. Its identity is its index in the graph's element arena.
#[derive(Clone, Debug)]
pub enum BpmnFlowElement {
    Activity(BpmnActivity),
    Gateway(BpmnGatewayType),
}

/// A directed, typed edge between two elements, both given by index.
#[derive(Clone, Copy, Debug, PartialEq, Eq, Structural)]
pub struct BpmnFlow {
    pub flow_type: BpmnFlowType,
    pub source: usize,
    pub target: usize,
}

#[derive(Clone, Copy, Debug, PartialEq, Eq, Structural)]
pub enum GraphError {
    DanglingFlowTarget,
    NoStartElement,
    InvalidStart,
    MalformedJoinGateway,
}

/// The flows of `flows` that leave element `e`, in declaration order.
pub open spec fn out_flows(flows: Seq<BpmnFlow>, e: int) -> Seq<BpmnFlow>
    decreases flows.len(),
{
    if flows.len() == 0 {
        Seq::empty()
    } else {
        let rest = out_flows(flows.drop_last(), e);
        if flows.last().source == e {
            rest.push(flows.last())
        } else {
            rest
        }
    }
}

/// The number of flows of `flows` that enter element `e`.
pub open spec fn in_count(flows: Seq<BpmnFlow>, e: int) -> nat
    decreases flows.len(),
{
    if flows.len() == 0 {
        0
    } else {
        in_count(flows.drop_last(), e) + if flows.last().target == e {
            1nat
        } else {
            0nat
        }
    }
}

/// Every flow starts and ends at an element of an arena of `n` elements.
pub open spec fn flows_closed(n: int, flows: Seq<BpmnFlow>) -> bool {
    forall|i: int| 0 <= i < flows.len() ==> flows[i].source < n && flows[i].target < n
}

pub open spec fn is_and_gateway(el: BpmnFlowElement) -> bool {
    el matches BpmnFlowElement::Gateway(BpmnGatewayType::AND)
}

/// Every AND-gateway with two or more incoming flows has exactly one outgoing flow.
pub open spec fn joins_well_formed(elements: Seq<BpmnFlowElement>, flows: Seq<BpmnFlow>) -> bool {
    forall|e: int|
        0 <= e < elements.len() && is_and_gateway(elements[e]) && in_count(flows, e) >= 2
            ==> out_flows(flows, e).len() == 1
}

/// The error, if any, that building a graph from these parts reports.
pub open spec fn build_error(elements: Seq<BpmnFlowElement>, flows: Seq<BpmnFlow>, start: int) -> Option<
    GraphError,
> {
    if !flows_closed(elements.len() as int, flows) {
        Some(GraphError::DanglingFlowTarget)
    } else if !(0 <= start < elements.len()) {
        Some(GraphError::NoStartElement)
    } else if in_count(flows, start) != 0 {
        Some(GraphError::InvalidStart)
    } else if !joins_well_formed(elements, flows) {
        Some(GraphError::MalformedJoinGateway)
    } else {
        None
    }
}

/// An immutable process graph: an arena of elements, the outgoing flows of each element
/// and the number of incoming flows of each element, both indexed by element.
#[derive(Debug)]
pub struct BpmnGraph {
    pub elements: Vec<BpmnFlowElement>,
    pub outgoing: Vec<Vec<BpmnFlow>>,
    pub incoming: Vec<usize>,
    pub start: usize,
}

impl BpmnGraph {
    pub open spec fn num_elements(&self) -> int {
        self.elements@.len() as int
    }

    pub open spec fn out_of(&self, e: int) -> Seq<BpmnFlow> {
        self.outgoing@[e]@
    }

    pub open spec fn is_join(&self, e: int) -> bool {
        self.incoming@[e] >= 2
    }

    pub open spec fn wf(&self) -> bool {
        &&& self.outgoing@.len() == self.elements@.len()
        &&& self.incoming@.len() == self.elements@.len()
        &&& self.start < self.elements@.len()
        &&& self.incoming@[self.start as int] == 0
        &&& forall|e: int, k: int|
            0 <= e < self.num_elements() && 0 <= k < self.out_of(e).len() ==> {
                &&& (#[trigger] self.out_of(e)[k]).source == e
                &&& self.out_of(e)[k].target < self.num_elements()
            }
        &&& forall|e: int|
            0 <= e < self.num_elements() && is_and_gateway(#[trigger] self.elements@[e])
                && self.is_join(e) ==> self.out_of(e).len() == 1
    }

    /// Builds a graph from its elements, its flows and its start element.
    pub fn new(elements: Vec<BpmnFlowElement>, flows: Vec<BpmnFlow>, start: usize) -> (r: Result<
        BpmnGraph,
        GraphError,
    >)
        ensures
            match r {
                Ok(g) => {
                    &&& build_error(elements@, flows@, start as int) is None
                    &&& g.wf()
                    &&& g.elements@ == elements@
                    &&& g.start == start
                    &&& forall|e: int|
                        0 <= e < elements@.len() ==> g.out_of(e) == out_flows(flows@, e)
                            && g.incoming@[e] == in_count(flows@, e)
                },
                Err(err) => build_error(elements@, flows@, start as int) == Some(err),
            },
    {
        let n = elements.len();
        let mut i: usize = 0;
        while i < flows.len()
            invariant
                n == elements@.len(),
                0 <= i <= flows@.len(),
                forall|j: int| 0 <= j < i ==> flows@[j].source < n && flows@[j].target < n,
            decreases flows@.len() - i,
        {
            if flows[i].source >= n || flows[i].target >= n {
                assert(!(flows@[i as int].source < n && flows@[i as int].target < n));
                assert(!flows_closed(elements@.len() as int, flows@));
                return Err(GraphError::DanglingFlowTarget);
            }
            i = i + 1;
        }
        if start >= n {
            return Err(GraphError::NoStartElement);
        }
        let mut outgoing: Vec<Vec<BpmnFlow>> = Vec::new();
        let mut incoming: Vec<usize> = Vec::new();
        let mut e: usize = 0;
        while e < n
            invariant
                n == elements@.len(),
                flows_closed(n as int, flows@),
                start < n,
                0 <= e <= n,
                outgoing@.len() == e,
                incoming@.len() == e,
                forall|x: int| 0 <= x < e ==> outgoing@[x]@ == out_flows(flows@, x),
                forall|x: int| 0 <= x < e ==> incoming@[x] == in_count(flows@, x),
            decreases n - e,
        {
            let mut out: Vec<BpmnFlow> = Vec::new();
            let mut cnt: usize = 0;
            let mut j: usize = 0;
            while j < flows.len()
                invariant
                    0 <= j <= flows@.len(),
                    out@ == out_flows(flows@.take(j as int), e as int),
                    cnt == in_count(flows@.take(j as int), e as int),
                    cnt <= j,
                decreases flows@.len() - j,
            {
                assert(flows@.take(j + 1).drop_last() =~= flows@.take(j as int));
                if flows[j].source == e {
                    out.push(flows[j]);
                }
                if flows[j].target == e {
                    cnt = cnt + 1;
                }
                j = j + 1;
            }
            assert(flows@.take(j as int) =~= flows@);
            outgoing.push(out);
            incoming.push(cnt);
            e = e + 1;
        }
        if incoming[start] != 0 {
            return Err(GraphError::InvalidStart);
        }
        let mut e: usize = 0;
        while e < n
            invariant
                n == elements@.len(),
                flows_closed(n as int, flows@),
                start < n,
                0 <= e <= n,
                in_count(flows@, start as int) == 0,
                outgoing@.len() == n,
                incoming@.len() == n,
                forall|x: int| 0 <= x < n ==> outgoing@[x]@ == out_flows(flows@, x),
                forall|x: int| 0 <= x < n ==> incoming@[x] == in_count(flows@, x),
                forall|x: int|
                    0 <= x < e && is_and_gateway(elements@[x]) && in_count(flows@, x) >= 2
                        ==> out_flows(flows@, x).len() == 1,
            decreases n - e,
        {
            let is_and = match &elements[e] {
                BpmnFlowElement::Gateway(BpmnGatewayType::AND) => true,
                _ => false,
            };
            if is_and && incoming[e] >= 2 && outgoing[e].len() != 1 {
                assert(is_and_gateway(elements@[e as int]));
                return Err(GraphError::MalformedJoinGateway);
            }
            e = e + 1;
        }
        proof {
            assert forall|x: int, k: int|
                0 <= x < n && 0 <= k < out_flows(flows@, x).len() implies {
                    &&& (#[trigger] out_flows(flows@, x)[k]).source == x
                    &&& out_flows(flows@, x)[k].target < n
                } by {
                lemma_out_flows_members(flows@, x, k);
            }
        }
        let g = BpmnGraph { elements, outgoing, incoming, start };
        assert(forall|x: int| 0 <= x < n ==> g.out_of(x) == out_flows(flows@, x));
        Ok(g)
    }

    /// The outgoing flows of element `e`, in declaration order.
    pub fn outgoing_flows(&self, e: usize) -> (r: &Vec<BpmnFlow>)
        requires
            self.wf(),
            e < self.num_elements(),
        ensures
            r@ == self.out_of(e as int),
    {
        &self.outgoing[e]
    }

    /// The number of flows entering element `e`.
    pub fn incoming_count(&self, e: usize) -> (r: usize)
        requires
            self.wf(),
            e < self.num_elements(),
        ensures
            r == self.incoming@[e as int],
    {
        self.incoming[e]
    }
}

/// Each flow that `out_flows` returns leaves `e` and is one of `flows`.
pub proof fn lemma_out_flows_members(flows: Seq<BpmnFlow>, e: int, k: int)
    requires
        0 <= k < out_flows(flows, e).len(),
    ensures
        out_flows(flows, e)[k].source == e,
        exists|j: int| 0 <= j < flows.len() && flows[j] == out_flows(flows, e)[k],
    decreases flows.len(),
{
    let rest = out_flows(flows.drop_last(), e);
    if k < rest.len() {
        lemma_out_flows_members(flows.drop_last(), e, k);
        let j = choose|j: int| 0 <= j < flows.drop_last().len() && flows.drop_last()[j] == rest[k];
        assert(flows[j] == out_flows(flows, e)[k]);
    } else {
        assert(flows[flows.len() - 1] == out_flows(flows, e)[k]);
    }
}

} // verus!
