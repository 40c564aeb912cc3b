use vstd::prelude::*;

verus! {

/// What an arrival at an AND-join yields.
#[derive(Clone, Copy, Debug, PartialEq, Eq, Structural)]
pub enum JoinOutcome {
    /// Not every expected branch has arrived yet.
    Waiting,
    /// The last expected branch arrived: the generation is sealed and `continuation`
    /// carries control past the gateway.
    Sealed { continuation: usize },
}

/// What an arrival at an OR-join yields.
#[derive(Clone, Copy, Debug, PartialEq, Eq, Structural)]
pub enum MergeOutcome {
    /// The first arrival of its generation: it passes the gateway.
    Continue,
    /// A later arrival of the same generation: it is discarded.
    Merged,
}

#[derive(Clone, Copy, Debug, PartialEq, Eq, Structural)]
pub enum ExecutionError {
    DuplicateJoinArrival,
}

/// The open generation of one gateway: how many arrivals it expects, and which
/// tokens have arrived so far.
pub struct JoinSlotView {
    pub expected: nat,
    pub arrived: Seq<usize>,
}

pub open spec fn empty_slot(expected: nat) -> JoinSlotView {
    JoinSlotView { expected, arrived: Seq::empty() }
}

/// An arrival at an AND-join. A token already recorded in the open generation is
/// rejected and changes nothing; the arrival that completes the expected count seals
/// the generation and a fresh one begins.
pub open spec fn and_arrive(s: JoinSlotView, tok: usize) -> (JoinSlotView, Result<
    JoinOutcome,
    ExecutionError,
>) {
    if s.arrived.contains(tok) {
        (s, Err(ExecutionError::DuplicateJoinArrival))
    } else if s.arrived.len() + 1 >= s.expected {
        (empty_slot(s.expected), Ok(JoinOutcome::Sealed { continuation: tok }))
    } else {
        (JoinSlotView { expected: s.expected, arrived: s.arrived.push(tok) }, Ok(JoinOutcome::Waiting))
    }
}

/// An arrival at an OR-join. The first arrival of a generation continues, later ones
/// are merged away; the generation closes once the expected count has arrived.
pub open spec fn or_arrive(s: JoinSlotView, tok: usize) -> (JoinSlotView, Result<
    MergeOutcome,
    ExecutionError,
>) {
    if s.arrived.contains(tok) {
        (s, Err(ExecutionError::DuplicateJoinArrival))
    } else {
        let outcome = if s.arrived.len() == 0 {
            MergeOutcome::Continue
        } else {
            MergeOutcome::Merged
        };
        if s.arrived.len() + 1 >= s.expected {
            (empty_slot(s.expected), Ok(outcome))
        } else {
            (JoinSlotView { expected: s.expected, arrived: s.arrived.push(tok) }, Ok(outcome))
        }
    }
}

/// The slot and the outcomes after the tokens of `toks` arrive, in order, at an AND-join.
pub open spec fn and_run(s: JoinSlotView, toks: Seq<usize>) -> (JoinSlotView, Seq<
    Result<JoinOutcome, ExecutionError>,
>)
    decreases toks.len(),
{
    if toks.len() == 0 {
        (s, Seq::empty())
    } else {
        let prev = and_run(s, toks.drop_last());
        let step = and_arrive(prev.0, toks.last());
        (step.0, prev.1.push(step.1))
    }
}

/// The slot and the outcomes after the tokens of `toks` arrive, in order, at an OR-join.
pub open spec fn or_run(s: JoinSlotView, toks: Seq<usize>) -> (JoinSlotView, Seq<
    Result<MergeOutcome, ExecutionError>,
>)
    decreases toks.len(),
{
    if toks.len() == 0 {
        (s, Seq::empty())
    } else {
        let prev = or_run(s, toks.drop_last());
        let step = or_arrive(prev.0, toks.last());
        (step.0, prev.1.push(step.1))
    }
}

proof fn lemma_and_prefix(n: nat, toks: Seq<usize>, k: int)
    requires
        toks.no_duplicates(),
        0 <= k < n,
        k <= toks.len(),
    ensures
        and_run(empty_slot(n), toks.take(k)).0 == (JoinSlotView { expected: n, arrived: toks.take(k) }),
        and_run(empty_slot(n), toks.take(k)).1 == Seq::new(k as nat, |i: int| Ok::<JoinOutcome, ExecutionError>(JoinOutcome::Waiting)),
    decreases k,
{
    if k == 0 {
        assert(toks.take(0) =~= Seq::<usize>::empty());
    } else {
        lemma_and_prefix(n, toks, k - 1);
        assert(toks.take(k).drop_last() =~= toks.take(k - 1));
        assert(!toks.take(k - 1).contains(toks[k - 1]));
        assert(toks.take(k - 1).push(toks[k - 1]) =~= toks.take(k));
        assert(and_run(empty_slot(n), toks.take(k)).1 =~= Seq::new(k as nat, |i: int| Ok::<JoinOutcome, ExecutionError>(JoinOutcome::Waiting)));
    }
}

/// When as many distinct tokens as the AND-join expects arrive, in any order, the join
/// fires exactly once: every arrival but the last waits, the last seals the generation
/// and continues, and the gateway is left with a fresh, empty generation.
pub proof fn lemma_and_join_fires_once(n: nat, toks: Seq<usize>)
    requires
        n >= 1,
        toks.len() == n,
        toks.no_duplicates(),
    ensures
        and_run(empty_slot(n), toks).0 == empty_slot(n),
        forall|i: int| 0 <= i < n - 1 ==> #[trigger] and_run(empty_slot(n), toks).1[i] == Ok::<JoinOutcome, ExecutionError>(JoinOutcome::Waiting),
        and_run(empty_slot(n), toks).1[n - 1] == Ok::<JoinOutcome, ExecutionError>(JoinOutcome::Sealed { continuation: toks[n - 1] }),
        and_run(empty_slot(n), toks).1.len() == n,
{
    lemma_and_prefix(n, toks, n - 1);
    assert(toks.drop_last() =~= toks.take(n - 1));
    assert(!toks.take(n - 1).contains(toks[n - 1]));
}

proof fn lemma_or_prefix(n: nat, toks: Seq<usize>, k: int)
    requires
        toks.no_duplicates(),
        0 <= k < n,
        k <= toks.len(),
    ensures
        or_run(empty_slot(n), toks.take(k)).0 == (JoinSlotView { expected: n, arrived: toks.take(k) }),
        or_run(empty_slot(n), toks.take(k)).1 == Seq::new(k as nat, |i: int| if i == 0 { Ok::<MergeOutcome, ExecutionError>(MergeOutcome::Continue) } else { Ok::<MergeOutcome, ExecutionError>(MergeOutcome::Merged) }),
    decreases k,
{
    if k == 0 {
        assert(toks.take(0) =~= Seq::<usize>::empty());
    } else {
        lemma_or_prefix(n, toks, k - 1);
        assert(toks.take(k).drop_last() =~= toks.take(k - 1));
        assert(!toks.take(k - 1).contains(toks[k - 1]));
        assert(toks.take(k - 1).push(toks[k - 1]) =~= toks.take(k));
        assert(or_run(empty_slot(n), toks.take(k)).1 =~= Seq::new(k as nat, |i: int| if i == 0 { Ok::<MergeOutcome, ExecutionError>(MergeOutcome::Continue) } else { Ok::<MergeOutcome, ExecutionError>(MergeOutcome::Merged) }));
    }
}

/// When `m` distinct tokens of one generation (at most as many as the OR-join expects)
/// arrive at it, exactly one continues, the first, and the other `m - 1` are merged away.
pub proof fn lemma_or_join_one_continues(n: nat, toks: Seq<usize>)
    requires
        1 <= toks.len() <= n,
        toks.no_duplicates(),
    ensures
        or_run(empty_slot(n), toks).1.len() == toks.len(),
        or_run(empty_slot(n), toks).1[0] == Ok::<MergeOutcome, ExecutionError>(MergeOutcome::Continue),
        forall|i: int| 1 <= i < toks.len() ==> #[trigger] or_run(empty_slot(n), toks).1[i] == Ok::<MergeOutcome, ExecutionError>(MergeOutcome::Merged),
{
    let m = toks.len() as int;
    lemma_or_prefix(n, toks, m - 1);
    assert(toks.drop_last() =~= toks.take(m - 1));
    assert(!toks.take(m - 1).contains(toks[m - 1]));
}

/// A token already recorded in the open generation of an AND-join is rejected, and the
/// arrived count does not move.
pub proof fn lemma_duplicate_arrival_rejected(s: JoinSlotView, tok: usize)
    requires
        s.arrived.contains(tok),
    ensures
        and_arrive(s, tok).1 == Err::<JoinOutcome, ExecutionError>(ExecutionError::DuplicateJoinArrival),
        and_arrive(s, tok).0 == s,
{
}

pub struct JoinSlot {
    expected: usize,
    arrived: Vec<usize>,
}

impl View for JoinSlot {
    type V = JoinSlotView;

    closed spec fn view(&self) -> JoinSlotView {
        JoinSlotView { expected: self.expected as nat, arrived: self.arrived@ }
    }
}

/// Join accounting for every gateway of one process instance, indexed by gateway.
pub struct JoinTracker {
    slots: Vec<JoinSlot>,
}

impl View for JoinTracker {
    type V = Seq<JoinSlotView>;

    closed spec fn view(&self) -> Seq<JoinSlotView> {
        self.slots@.map_values(|s: JoinSlot| s@)
    }
}

impl JoinTracker {
    /// A tracker with no arrivals, where gateway `i` expects `expected[i]` arrivals.
    pub fn new(expected: &Vec<usize>) -> (r: JoinTracker)
        ensures
            r@.len() == expected@.len(),
            forall|i: int| 0 <= i < expected@.len() ==> r@[i] == empty_slot(expected@[i] as nat),
    {
        let mut slots: Vec<JoinSlot> = Vec::new();
        let mut i: usize = 0;
        while i < expected.len()
            invariant
                0 <= i <= expected@.len(),
                slots@.len() == i,
                forall|j: int| 0 <= j < i ==> slots@[j]@ == empty_slot(expected@[j] as nat),
            decreases expected@.len() - i,
        {
            slots.push(JoinSlot { expected: expected[i], arrived: Vec::new() });
            proof {
                assert(slots@[i as int]@.arrived =~= Seq::<usize>::empty());
            }
            i = i + 1;
        }
        let r = JoinTracker { slots };
        assert forall|j: int| 0 <= j < expected@.len() implies r@[j] == empty_slot(
            expected@[j] as nat,
        ) by {}
        r
    }

    /// The number of gateways tracked.
    pub fn len(&self) -> (r: usize)
        ensures
            r == self@.len(),
    {
        self.slots.len()
    }

    /// The number of arrivals recorded in the open generation of `gateway`.
    pub fn arrived_count(&self, gateway: usize) -> (r: usize)
        requires
            gateway < self@.len(),
        ensures
            r == self@[gateway as int].arrived.len(),
    {
        self.slots[gateway].arrived.len()
    }

    fn has_arrived(&self, gateway: usize, token: usize) -> (r: bool)
        requires
            gateway < self@.len(),
        ensures
            r == self@[gateway as int].arrived.contains(token),
    {
        let arrived = &self.slots[gateway].arrived;
        let mut i: usize = 0;
        while i < arrived.len()
            invariant
                0 <= i <= arrived@.len(),
                arrived@ == self@[gateway as int].arrived,
                forall|j: int| 0 <= j < i ==> arrived@[j] != token,
            decreases arrived@.len() - i,
        {
            if arrived[i] == token {
                return true;
            }
            i = i + 1;
        }
        false
    }

    /// Records `token` as arrived at `gateway` and closes the generation once the
    /// expected count is reached.
    fn record(&mut self, gateway: usize, token: usize)
        requires
            gateway < old(self)@.len(),
        ensures
            final(self)@ == old(self)@.update(
                gateway as int,
                if old(self)@[gateway as int].arrived.len() + 1 >= old(self)@[gateway as int].expected {
                    empty_slot(old(self)@[gateway as int].expected)
                } else {
                    JoinSlotView {
                        expected: old(self)@[gateway as int].expected,
                        arrived: old(self)@[gateway as int].arrived.push(token),
                    }
                },
            ),
    {
        let expected = self.slots[gateway].expected;
        if expected == 0 || self.slots[gateway].arrived.len() >= expected - 1 {
            self.slots[gateway].arrived.clear();
        } else {
            self.slots[gateway].arrived.push(token);
        }
        assert(self@ =~= old(self)@.update(
            gateway as int,
            if old(self)@[gateway as int].arrived.len() + 1 >= old(self)@[gateway as int].expected {
                empty_slot(old(self)@[gateway as int].expected)
            } else {
                JoinSlotView {
                    expected: old(self)@[gateway as int].expected,
                    arrived: old(self)@[gateway as int].arrived.push(token),
                }
            },
        ));
    }

    /// Registers the arrival of `token` at the AND-join `gateway`.
    pub fn register_arrival(&mut self, gateway: usize, token: usize) -> (r: Result<
        JoinOutcome,
        ExecutionError,
    >)
        requires
            gateway < old(self)@.len(),
        ensures
            r == and_arrive(old(self)@[gateway as int], token).1,
            final(self)@ == old(self)@.update(
                gateway as int,
                and_arrive(old(self)@[gateway as int], token).0,
            ),
    {
        if self.has_arrived(gateway, token) {
            assert(self@ =~= self@.update(gateway as int, self@[gateway as int]));
            return Err(ExecutionError::DuplicateJoinArrival);
        }
        let expected = self.slots[gateway].expected;
        let sealing = expected == 0 || self.slots[gateway].arrived.len() >= expected - 1;
        self.record(gateway, token);
        if sealing {
            Ok(JoinOutcome::Sealed { continuation: token })
        } else {
            Ok(JoinOutcome::Waiting)
        }
    }

    /// Registers the arrival of `token` at the OR-join `gateway`.
    pub fn register_merge(&mut self, gateway: usize, token: usize) -> (r: Result<
        MergeOutcome,
        ExecutionError,
    >)
        requires
            gateway < old(self)@.len(),
        ensures
            r == or_arrive(old(self)@[gateway as int], token).1,
            final(self)@ == old(self)@.update(
                gateway as int,
                or_arrive(old(self)@[gateway as int], token).0,
            ),
    {
        if self.has_arrived(gateway, token) {
            assert(self@ =~= self@.update(gateway as int, self@[gateway as int]));
            return Err(ExecutionError::DuplicateJoinArrival);
        }
        let first = self.slots[gateway].arrived.len() == 0;
        self.record(gateway, token);
        if first {
            Ok(MergeOutcome::Continue)
        } else {
            Ok(MergeOutcome::Merged)
        }
    }

    /// Releases every open generation.
    pub fn release_all(&mut self)
        ensures
            final(self)@.len() == old(self)@.len(),
            forall|i: int|
                0 <= i < old(self)@.len() ==> final(self)@[i] == empty_slot(old(self)@[i].expected),
    {
        let ghost orig = self@;
        let mut i: usize = 0;
        while i < self.slots.len()
            invariant
                0 <= i <= self@.len(),
                orig == old(self)@,
                self@.len() == orig.len(),
                forall|j: int| 0 <= j < i ==> self@[j] == empty_slot(orig[j].expected),
                forall|j: int| i <= j < self@.len() ==> self@[j] == orig[j],
            decreases self@.len() - i,
        {
            let ghost before = self.slots@;
            let ghost head = self@;
            assert(forall|j: int| 0 <= j < before.len() ==> head[j] == before[j]@);
            self.slots[i].arrived.clear();
            proof {
                assert(self.slots@.len() == before.len());
                assert forall|j: int| 0 <= j < self@.len() && j != i implies self.slots@[j]
                    == before[j] by {}
                assert forall|j: int| 0 <= j < self@.len() && j != i implies self@[j]
                    == before[j]@ by {}
                assert(self@[i as int].arrived =~= Seq::<usize>::empty());
                assert(self@[i as int] == empty_slot(orig[i as int].expected));
                assert forall|j: int| 0 <= j < i + 1 implies self@[j] == empty_slot(
                    orig[j].expected,
                ) by {
                    if j < i {
                        assert(head[j] == empty_slot(orig[j].expected));
                    }
                }
            }
            i = i + 1;
        }
    }
}

} // verus!
