use vstd::prelude::*;
use crate::error::DrouteError;
use crate::message::Message;

verus! {

/// The error that reports a race in which every branch failed, `last` coming last.
pub open spec fn all_failed(last: Result<Message, DrouteError>) -> Result<Message, DrouteError> {
    match last {
        Err(e) => Err(DrouteError::AllBranchesFailed(Box::new(e))),
        Ok(m) => Ok(m),
    }
}

/// The outcome of a race whose branches finished in the order given: the first
/// answer, or, where every branch failed, `AllBranchesFailed` with the failure
/// that came last.
pub open spec fn race_result(s: Seq<Result<Message, DrouteError>>) -> Result<Message, DrouteError>
    decreases s.len(),
{
    if s[0] is Ok {
        s[0]
    } else if s.len() <= 1 {
        all_failed(s[0])
    } else {
        race_result(s.drop_first())
    }
}

/// A race among the members of a hybrid upstream, fed with each branch's outcome
/// as it finishes.
pub struct Race {
    pending: usize,
}

impl Race {
    /// Branches that have not finished yet.
    pub closed spec fn pending(&self) -> nat {
        self.pending as nat
    }

    pub fn new(branches: usize) -> (r: Race)
        ensures
            r.pending() == branches,
    {
        Race { pending: branches }
    }

    /// Takes the outcome of the next branch to finish. The race is decided by the
    /// first answer, or, once every branch has failed, by `AllBranchesFailed` holding
    /// the last failure.
    pub fn on_branch(&mut self, outcome: Result<Message, DrouteError>) -> (r: Option<
        Result<Message, DrouteError>,
    >)
        requires
            old(self).pending() > 0,
        ensures
            final(self).pending() == old(self).pending() - 1,
            outcome is Ok ==> r == Some(outcome),
            outcome is Err && old(self).pending() == 1 ==> r == Some(all_failed(outcome)),
            outcome is Err && old(self).pending() > 1 ==> r is None,
    {
        self.pending = self.pending - 1;
        match outcome {
            Ok(m) => Some(Ok(m)),
            Err(e) => if self.pending == 0 {
                Some(Err(DrouteError::AllBranchesFailed(Box::new(e))))
            } else {
                None
            },
        }
    }
}

/// Decides a race from the outcomes of its branches, in the order they finished.
pub fn race(outcomes: Vec<Result<Message, DrouteError>>) -> (r: Result<Message, DrouteError>)
    requires
        outcomes.len() > 0,
    ensures
        r == race_result(outcomes@),
{
    let ghost all = outcomes@;
    let mut rest = outcomes;
    let mut state = Race::new(rest.len());
    loop
        invariant
            rest.len() > 0,
            state.pending() == rest.len(),
            all == outcomes@,
            race_result(all) == race_result(rest@),
        decreases rest.len(),
    {
        let ghost before = rest@;
        let o = rest.remove(0);
        assert(rest@ =~= before.drop_first());
        assert(o == before[0]);
        assert(race_result(before) == if before[0] is Ok {
            before[0]
        } else if before.len() <= 1 {
            all_failed(before[0])
        } else {
            race_result(before.drop_first())
        });
        if let Some(done) = state.on_branch(o) {
            return done;
        }
    }
}

/// With three branches of which exactly one answers, the race gives that answer;
/// where all three fail, it gives `AllBranchesFailed` with the last failure.
pub proof fn lemma_race_of_three(
    a: Result<Message, DrouteError>,
    b: Result<Message, DrouteError>,
    c: Result<Message, DrouteError>,
)
    ensures
        a is Ok && b is Err && c is Err ==> race_result(seq![a, b, c]) == a,
        a is Err && b is Ok && c is Err ==> race_result(seq![a, b, c]) == b,
        a is Err && b is Err && c is Ok ==> race_result(seq![a, b, c]) == c,
        a is Err && b is Err && c is Err ==> race_result(seq![a, b, c]) == all_failed(c),
{
    let s = seq![a, b, c];
    assert(s.drop_first() =~= seq![b, c]);
    assert(seq![b, c].drop_first() =~= seq![c]);
    assert(race_result(seq![c]) == if c is Ok { c } else { all_failed(c) });
    assert(race_result(seq![b, c]) == if b is Ok { b } else { race_result(seq![c]) });
}

} // verus!
