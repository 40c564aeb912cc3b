use vstd::prelude::*;
use crate::graph::{BpmnFlow, BpmnGraph};

verus! {

#[derive(Clone, Copy, Debug, PartialEq, Eq, Structural)]
pub enum TokenState {
    Active,
    WaitingAtJoin,
    Completed,
    Terminated,
}

/// One thread of control: its identifier, the element it occupies, the instance that
/// owns it and its lifecycle state.
#[derive(Clone, Copy, Debug, PartialEq, Eq, Structural)]
pub struct Token {
    pub id: usize,
    pub position: usize,
    pub instance: usize,
    pub state: TokenState,
}

pub open spec fn is_live(t: Token) -> bool {
    t.state == TokenState::Active || t.state == TokenState::WaitingAtJoin
}

pub open spec fn with_state(t: Token, st: TokenState) -> Token {
    Token { id: t.id, position: t.position, instance: t.instance, state: st }
}

pub open spec fn moved_to(t: Token, e: usize) -> Token {
    Token { id: t.id, position: e, instance: t.instance, state: t.state }
}

/// Token `i` is the `i`-th token, stands on an element of `g` and belongs to `inst`.
pub open spec fn tokens_wf(g: BpmnGraph, inst: usize, toks: Seq<Token>) -> bool {
    forall|i: int|
        0 <= i < toks.len() ==> {
            &&& (#[trigger] toks[i]).id == i as usize
            &&& toks[i].position < g.num_elements()
            &&& toks[i].instance == inst
        }
}

/// The index of the first active token at or after `i`.
pub open spec fn first_active_from(toks: Seq<Token>, i: int) -> Option<int>
    decreases toks.len() - i,
{
    if i < 0 || i >= toks.len() {
        None
    } else if toks[i].state == TokenState::Active {
        Some(i)
    } else {
        first_active_from(toks, i + 1)
    }
}

pub(crate) proof fn lemma_first_active(toks: Seq<Token>, i: int)
    requires
        first_active_from(toks, i) is Some,
    ensures
        i <= first_active_from(toks, i)->0 < toks.len(),
        toks[first_active_from(toks, i)->0].state == TokenState::Active,
    decreases toks.len() - i,
{
    if 0 <= i < toks.len() && toks[i].state != TokenState::Active {
        lemma_first_active(toks, i + 1);
    }
}

pub open spec fn any_live(toks: Seq<Token>) -> bool {
    exists|i: int| 0 <= i < toks.len() && is_live(#[trigger] toks[i])
}

/// Every live token becomes `Terminated`; the others stay as they are.
pub open spec fn terminate_live(toks: Seq<Token>) -> Seq<Token> {
    Seq::new(
        toks.len(),
        |i: int|
            if is_live(toks[i]) {
                with_state(toks[i], TokenState::Terminated)
            } else {
                toks[i]
            },
    )
}

/// Every token waiting at element `e` is consumed by the join there.
pub open spec fn consume_waiting(toks: Seq<Token>, e: usize) -> Seq<Token> {
    Seq::new(
        toks.len(),
        |i: int|
            if toks[i].state == TokenState::WaitingAtJoin && toks[i].position == e {
                with_state(toks[i], TokenState::Completed)
            } else {
                toks[i]
            },
    )
}

/// One new active token for each flow of `out`, numbered after the tokens of `toks`.
pub open spec fn spawn(toks: Seq<Token>, out: Seq<BpmnFlow>, inst: usize) -> Seq<Token> {
    toks + Seq::new(
        out.len(),
        |k: int|
            Token {
                id: (toks.len() + k) as usize,
                position: out[k].target,
                instance: inst,
                state: TokenState::Active,
            },
    )
}

/// Token `t` follows every flow of `out`: with none it completes, with one it moves
/// along it, with more it retires and one new token starts on each.
pub open spec fn follow(toks: Seq<Token>, t: int, out: Seq<BpmnFlow>, inst: usize) -> Seq<Token> {
    if out.len() == 0 {
        toks.update(t, with_state(toks[t], TokenState::Completed))
    } else if out.len() == 1 {
        toks.update(t, moved_to(toks[t], out[0].target))
    } else {
        spawn(toks.update(t, with_state(toks[t], TokenState::Completed)), out, inst)
    }
}

/// Token `t` follows the first flow of `out` alone, or completes where there is none.
pub open spec fn follow_first(toks: Seq<Token>, t: int, out: Seq<BpmnFlow>) -> Seq<Token> {
    if out.len() == 0 {
        toks.update(t, with_state(toks[t], TokenState::Completed))
    } else {
        toks.update(t, moved_to(toks[t], out[0].target))
    }
}

proof fn lemma_follow_wf(g: BpmnGraph, inst: usize, toks: Seq<Token>, t: int, e: int)
    requires
        g.wf(),
        tokens_wf(g, inst, toks),
        0 <= t < toks.len(),
        0 <= e < g.num_elements(),
    ensures
        tokens_wf(g, inst, follow(toks, t, g.out_of(e), inst)),
        tokens_wf(g, inst, follow_first(toks, t, g.out_of(e))),
{
    let out = g.out_of(e);
    if out.len() >= 1 {
        assert(out[0].target < g.num_elements());
    }
    if out.len() >= 2 {
        let r = follow(toks, t, out, inst);
        assert forall|i: int| 0 <= i < r.len() implies {
            &&& (#[trigger] r[i]).id == i as usize
            &&& r[i].position < g.num_elements()
            &&& r[i].instance == inst
        } by {
            if i >= toks.len() {
                assert(out[i - toks.len()].target < g.num_elements());
            }
        }
    }
}

/// Passing tokens along the flows of `g` keeps them well formed.
pub(crate) proof fn lemma_moves_wf(g: BpmnGraph, inst: usize, toks: Seq<Token>, t: int, e: int, w: usize)
    requires
        g.wf(),
        tokens_wf(g, inst, toks),
        0 <= t < toks.len(),
        0 <= e < g.num_elements(),
    ensures
        tokens_wf(g, inst, follow(toks, t, g.out_of(e), inst)),
        tokens_wf(g, inst, follow(consume_waiting(toks, w), t, g.out_of(e), inst)),
        tokens_wf(g, inst, follow_first(toks, t, g.out_of(e))),
        tokens_wf(g, inst, terminate_live(toks)),
        forall|st: TokenState| tokens_wf(g, inst, #[trigger] toks.update(t, with_state(toks[t], st))),
{
    lemma_follow_wf(g, inst, toks, t, e);
    let c = consume_waiting(toks, w);
    assert(tokens_wf(g, inst, c));
    lemma_follow_wf(g, inst, c, t, e);
    assert(tokens_wf(g, inst, terminate_live(toks)));
}

pub fn find_active(toks: &Vec<Token>) -> (r: Option<usize>)
    ensures
        match r {
            Some(i) => first_active_from(toks@, 0) == Some(i as int),
            None => first_active_from(toks@, 0) is None,
        },
{
    let mut i: usize = 0;
    while i < toks.len()
        invariant
            0 <= i <= toks@.len(),
            first_active_from(toks@, 0) == first_active_from(toks@, i as int),
        decreases toks@.len() - i,
    {
        if toks[i].state == TokenState::Active {
            return Some(i);
        }
        i = i + 1;
    }
    None
}

pub fn has_live(toks: &Vec<Token>) -> (r: bool)
    ensures
        r == any_live(toks@),
{
    let mut i: usize = 0;
    while i < toks.len()
        invariant
            0 <= i <= toks@.len(),
            forall|j: int| 0 <= j < i ==> !is_live(#[trigger] toks@[j]),
        decreases toks@.len() - i,
    {
        if toks[i].state == TokenState::Active || toks[i].state == TokenState::WaitingAtJoin {
            assert(is_live(toks@[i as int]));
            return true;
        }
        i = i + 1;
    }
    false
}

pub fn terminate_all(toks: &mut Vec<Token>)
    ensures
        final(toks)@ == terminate_live(old(toks)@),
{
    let ghost orig = toks@;
    let mut i: usize = 0;
    while i < toks.len()
        invariant
            0 <= i <= toks@.len(),
            toks@.len() == orig.len(),
            orig == old(toks)@,
            forall|j: int| 0 <= j < i ==> toks@[j] == terminate_live(orig)[j],
            forall|j: int| i <= j < toks@.len() ==> toks@[j] == orig[j],
        decreases toks@.len() - i,
    {
        if toks[i].state == TokenState::Active || toks[i].state == TokenState::WaitingAtJoin {
            toks[i].state = TokenState::Terminated;
        }
        i = i + 1;
    }
    assert(toks@ =~= terminate_live(orig));
}

pub fn consume_waiting_at(toks: &mut Vec<Token>, e: usize)
    ensures
        final(toks)@ == consume_waiting(old(toks)@, e),
{
    let ghost orig = toks@;
    let mut i: usize = 0;
    while i < toks.len()
        invariant
            0 <= i <= toks@.len(),
            toks@.len() == orig.len(),
            orig == old(toks)@,
            forall|j: int| 0 <= j < i ==> toks@[j] == consume_waiting(orig, e)[j],
            forall|j: int| i <= j < toks@.len() ==> toks@[j] == orig[j],
        decreases toks@.len() - i,
    {
        if toks[i].state == TokenState::WaitingAtJoin && toks[i].position == e {
            toks[i].state = TokenState::Completed;
        }
        i = i + 1;
    }
    assert(toks@ =~= consume_waiting(orig, e));
}

pub fn follow_flows(toks: &mut Vec<Token>, t: usize, out: &Vec<BpmnFlow>, inst: usize)
    requires
        t < old(toks)@.len(),
    ensures
        final(toks)@ == follow(old(toks)@, t as int, out@, inst),
{
    if out.len() == 0 {
        toks[t].state = TokenState::Completed;
    } else if out.len() == 1 {
        toks[t].position = out[0].target;
    } else {
        toks[t].state = TokenState::Completed;
        let ghost base = toks@;
        let mut k: usize = 0;
        while k < out.len()
            invariant
                0 <= k <= out@.len(),
                toks@ == spawn(base, out@.take(k as int), inst),
            decreases out@.len() - k,
        {
            let id = toks.len();
            toks.push(Token { id, position: out[k].target, instance: inst, state: TokenState::Active });
            k = k + 1;
            assert(toks@ =~= spawn(base, out@.take(k as int), inst));
        }
        assert(out@.take(k as int) =~= out@);
    }
    assert(toks@ =~= follow(old(toks)@, t as int, out@, inst));
}

pub fn follow_first_flow(toks: &mut Vec<Token>, t: usize, out: &Vec<BpmnFlow>)
    requires
        t < old(toks)@.len(),
    ensures
        final(toks)@ == follow_first(old(toks)@, t as int, out@),
{
    if out.len() == 0 {
        toks[t].state = TokenState::Completed;
    } else {
        toks[t].position = out[0].target;
    }
    assert(toks@ =~= follow_first(old(toks)@, t as int, out@));
}

} // verus!
