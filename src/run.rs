use vstd::prelude::*;
use crate::graph::{BpmnFlowElement, BpmnGraph};
use crate::instance::{complete_view, initial_view, step_view, InstanceStatus, InstanceView, Outcome, Step};
use crate::token::{any_live, first_active_from, Token, TokenState};
use crate::tracker::JoinSlotView;

verus! {

/// The state reached, and the activities invoked in order, when the scheduler is driven
/// for at most `fuel` steps and every invoked activity succeeds.
pub open spec fn run_succeeding(g: BpmnGraph, inst: usize, s: InstanceView, fuel: nat) -> (InstanceView, Seq<usize>)
    decreases fuel,
{
    if fuel == 0 {
        (s, Seq::empty())
    } else {
        let (s1, st) = step_view(g, inst, s);
        match st {
            Step::Invoke { token, element } => {
                let rest = run_succeeding(g, inst, complete_view(g, inst, s1, token, Outcome::Success), (fuel - 1) as nat);
                (rest.0, seq![element] + rest.1)
            },
            Step::Advanced => run_succeeding(g, inst, s1, (fuel - 1) as nat),
            _ => (s1, Seq::empty()),
        }
    }
}

/// `w` is the path of a single token from the start of `g`: each element of it has one
/// outgoing flow, to the next, and the last has none.
pub open spec fn is_single_path(g: BpmnGraph, w: Seq<usize>) -> bool {
    &&& w.len() >= 1
    &&& w[0] == g.start
    &&& forall|i: int|
        0 <= i < w.len() - 1 ==> g.out_of(w[i] as int).len() == 1 && (#[trigger] g.out_of(w[i] as int))[0].target == w[i + 1]
    &&& g.out_of(w[w.len() - 1] as int).len() == 0
}

pub open spec fn has_no_gateway(g: BpmnGraph) -> bool {
    forall|e: int| 0 <= e < g.num_elements() ==> (#[trigger] g.elements@[e]) is Activity
}

proof fn lemma_path_suffix(g: BpmnGraph, inst: usize, w: Seq<usize>, i: int, joins: Seq<JoinSlotView>)
    requires
        g.wf(),
        has_no_gateway(g),
        is_single_path(g, w),
        0 <= i < w.len(),
        w[i] < g.num_elements(),
    ensures
        run_succeeding(
            g,
            inst,
            InstanceView {
                tokens: seq![Token { id: 0, position: w[i], instance: inst, state: TokenState::Active }],
                joins,
                status: InstanceStatus::Running,
            },
            (w.len() - i + 1) as nat,
        ) == (InstanceView {
            tokens: seq![Token { id: 0, position: w[w.len() - 1], instance: inst, state: TokenState::Completed }],
            joins,
            status: InstanceStatus::Completed,
        }, w.subrange(i, w.len() as int)),
    decreases w.len() - i,
{
    let s = InstanceView {
        tokens: seq![Token { id: 0, position: w[i], instance: inst, state: TokenState::Active }],
        joins,
        status: InstanceStatus::Running,
    };
    assert(g.elements@[w[i] as int] is Activity);
    assert(step_view(g, inst, s) == (s, Step::Invoke { token: 0, element: w[i] }));
    let s2 = complete_view(g, inst, s, 0, Outcome::Success);
    if i == w.len() - 1 {
        let done = InstanceView {
            tokens: seq![Token { id: 0, position: w[i], instance: inst, state: TokenState::Completed }],
            joins,
            status: InstanceStatus::Running,
        };
        assert(s2.tokens =~= done.tokens);
        assert(s2 == done);
        assert(!(done.tokens[0].state == TokenState::Active));
        assert(!(done.tokens[0].state == TokenState::WaitingAtJoin));
        assert(first_active_from(done.tokens, 1) is None);
        assert(first_active_from(done.tokens, 0) is None);
        assert(!any_live(done.tokens));
        assert(step_view(g, inst, done).1 == Step::Done);
        assert(w.subrange(i, w.len() as int) =~= seq![w[i]]);
        assert(run_succeeding(g, inst, done, 1).1 =~= Seq::<usize>::empty());
    } else {
        let next = InstanceView {
            tokens: seq![Token { id: 0, position: w[i + 1], instance: inst, state: TokenState::Active }],
            joins,
            status: InstanceStatus::Running,
        };
        assert(g.out_of(w[i] as int)[0].target == w[i + 1]);
        assert(s2.tokens =~= next.tokens);
        assert(s2 == next);
        assert(w[i + 1] < g.num_elements());
        lemma_path_suffix(g, inst, w, i + 1, joins);
        assert(w.subrange(i, w.len() as int) =~= seq![w[i]] + w.subrange(i + 1, w.len() as int));
    }
}

proof fn lemma_path_shift(g: BpmnGraph, w: Seq<usize>, a: int, b: int, k: int)
    requires
        is_single_path(g, w),
        0 <= a < b < w.len(),
        w[a] == w[b],
        0 <= k < w.len() - b,
    ensures
        w[a + k] == w[b + k],
    decreases k,
{
    if k > 0 {
        lemma_path_shift(g, w, a, b, k - 1);
        assert(g.out_of(w[a + k - 1] as int)[0].target == w[a + k]);
        assert(g.out_of(w[b + k - 1] as int)[0].target == w[b + k]);
    }
}

/// A single path never comes back to an element it has left.
pub proof fn lemma_single_path_distinct(g: BpmnGraph, w: Seq<usize>)
    requires
        is_single_path(g, w),
    ensures
        w.no_duplicates(),
{
    assert forall|a: int, b: int| 0 <= a < w.len() && 0 <= b < w.len() && a != b implies w[a] != w[b] by {
        if w[a] == w[b] {
            let (lo, hi) = if a < b { (a, b) } else { (b, a) };
            let k = w.len() - 1 - hi;
            lemma_path_shift(g, w, lo, hi, k);
            assert(g.out_of(w[lo + k] as int).len() == 1);
        }
    }
}

/// In a graph without gateways, a single token started at the start element visits the
/// activities of its path once each, in order, and the instance completes.
pub proof fn lemma_single_path_completes(g: BpmnGraph, inst: usize, w: Seq<usize>)
    requires
        g.wf(),
        has_no_gateway(g),
        is_single_path(g, w),
    ensures
        run_succeeding(g, inst, initial_view(g, inst), (w.len() + 1) as nat).1 == w,
        w.no_duplicates(),
        run_succeeding(g, inst, initial_view(g, inst), (w.len() + 1) as nat).0.status is Completed,
{
    lemma_path_suffix(g, inst, w, 0, initial_view(g, inst).joins);
    lemma_single_path_distinct(g, w);
    assert(w.subrange(0, w.len() as int) =~= w);
}

} // verus!
