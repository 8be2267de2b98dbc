//! Steps that the client asked for and the server has not answered.

use vstd::prelude::*;

verus! {

/// A step in doubt, under the number by which the server answers it.
#[derive(Debug, Clone, Copy, PartialEq, Eq, Structural)]
pub struct PendingStep<T> {
    pub sequence: u8,
    pub value: T,
}

/// What an answer of the server meets.
#[derive(Debug)]
pub enum AckOutcome<T> {
    /// The oldest step in doubt.
    Matched(T),
    /// Another one, or none. All steps that were in doubt are dropped.
    Desync(Vec<T>),
}

/// Steps in doubt, the oldest first.
#[derive(Debug)]
pub struct PendingQueue<T> {
    pub steps: Vec<PendingStep<T>>,
}

impl<T> View for PendingQueue<T> {
    type V = Seq<PendingStep<T>>;

    open spec fn view(&self) -> Seq<PendingStep<T>> {
        self.steps@
    }
}

/// What was asked for in a list of steps.
pub open spec fn values<T>(steps: Seq<PendingStep<T>>) -> Seq<T> {
    steps.map_values(|p: PendingStep<T>| p.value)
}

/// Whether an answer is taken like this, and leaves these steps.
pub open spec fn answered<T>(
    before: Seq<PendingStep<T>>,
    after: Seq<PendingStep<T>>,
    sequence: u8,
    r: AckOutcome<T>,
) -> bool {
    match r {
        AckOutcome::Matched(v) => {
            &&& before.len() > 0
            &&& before[0].sequence == sequence
            &&& v == before[0].value
            &&& after == before.subrange(1, before.len() as int)
        },
        AckOutcome::Desync(v) => {
            &&& before.len() == 0 || before[0].sequence != sequence
            &&& v@ == values(before)
            &&& after.len() == 0
        },
    }
}

impl<T: Copy> PendingQueue<T> {
    /// An empty queue.
    pub fn new() -> (q: Self)
        ensures
            q@ == Seq::<PendingStep<T>>::empty(),
    {
        PendingQueue { steps: Vec::new() }
    }

    /// Adds a step.
    pub fn push(&mut self, sequence: u8, value: T)
        ensures
            final(self)@ == old(self)@.push(PendingStep { sequence, value }),
    {
        self.steps.push(PendingStep { sequence, value });
    }

    pub fn len(&self) -> (n: usize)
        ensures
            n == self@.len(),
    {
        self.steps.len()
    }

    pub fn is_empty(&self) -> (b: bool)
        ensures
            b == (self@.len() == 0),
    {
        self.steps.len() == 0
    }

    /// Drops all steps.
    pub fn clear(&mut self)
        ensures
            final(self)@ == Seq::<PendingStep<T>>::empty(),
    {
        self.steps.clear();
    }

    /// Takes the answer to a step. The steps are answered in the order in which
    /// they were asked for: any answer but that to the oldest one shows that the
    /// two sides are out of step, and nothing that was asked for counts any more.
    pub fn on_ack(&mut self, sequence: u8) -> (r: AckOutcome<T>)
        ensures
            ({
                let q = old(self)@;
                if q.len() > 0 && q[0].sequence == sequence {
                    &&& r == AckOutcome::Matched(q[0].value)
                    &&& final(self)@ == q.subrange(1, q.len() as int)
                } else {
                    &&& r matches AckOutcome::Desync(v) && v@ == values(q)
                    &&& final(self)@ == Seq::<PendingStep<T>>::empty()
                }
            }),
            answered(old(self)@, final(self)@, sequence, r),
    {
        if self.steps.len() > 0 && self.steps[0].sequence == sequence {
            let p = self.steps.remove(0);
            assert(self.steps@ =~= old(self)@.subrange(1, old(self)@.len() as int));
            return AckOutcome::Matched(p.value);
        }
        let mut drained: Vec<T> = Vec::new();
        let mut i: usize = 0;
        while i < self.steps.len()
            invariant
                i <= self.steps@.len(),
                self.steps@ == old(self)@,
                drained@.len() == i,
                forall|j: int| 0 <= j < i ==> (#[trigger] drained@[j]) == self.steps@[j].value,
            decreases self.steps@.len() - i,
        {
            let p = self.steps[i].value;
            drained.push(p);
            i += 1;
        }
        self.steps.clear();
        assert(drained@ =~= values(old(self)@));
        AckOutcome::Desync(drained)
    }
}

impl<T: Copy> Default for PendingQueue<T> {
    fn default() -> (q: Self)
        ensures
            q@ == Seq::<PendingStep<T>>::empty(),
    {
        PendingQueue::new()
    }
}

/// Law: answers that come in the order of the requests meet them all, the oldest
/// first.
pub proof fn answers_in_order_match<T>(steps: Seq<PendingStep<T>>, i: int)
    requires
        0 <= i < steps.len(),
    ensures
        steps.subrange(i, steps.len() as int)[0] == steps[i],
        steps.subrange(i, steps.len() as int).subrange(1, steps.len() - i) == steps.subrange(
            i + 1,
            steps.len() as int,
        ),
{
    assert(steps.subrange(i, steps.len() as int).subrange(1, steps.len() - i) =~= steps.subrange(
        i + 1,
        steps.len() as int,
    ));
}

/// Law: an answer is met by the oldest step if it has its number, and by no other; that step
/// is then taken, with what was asked for in it, and the others stay in their order. Any
/// other answer drops all steps and hands out what was asked for in them, the oldest first.
pub proof fn answers_are_met_by_the_oldest<T>(
    before: Seq<PendingStep<T>>,
    after: Seq<PendingStep<T>>,
    sequence: u8,
    r: AckOutcome<T>,
    i: int,
)
    requires
        answered(before, after, sequence, r),
        0 <= i < before.len(),
    ensures
        r is Matched <==> before[0].sequence == sequence,
        r matches AckOutcome::Matched(v) ==> v == before[0].value && after.len() == before.len() - 1
            && (i > 0 ==> after[i - 1] == before[i]),
        r matches AckOutcome::Desync(v) ==> after.len() == 0 && v@.len() == before.len() && v@[i]
            == before[i].value,
{
}

} // verus!
