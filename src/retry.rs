//! The decisions of the mutator-facing allocation protocol: check for a
//! pause, attempt an allocation, and on failure trigger a collection and try
//! again. The caller performs each action and reports what came of it.
use vstd::prelude::*;

verus! {

/// What the caller reports to the protocol.
#[derive(PartialEq, Eq, Structural, Copy, Clone, Debug)]
pub enum RetryEvent {
    /// A large allocation was requested.
    Start,
    /// The cooperative pause check has run.
    PauseChecked,
    /// One allocation attempt on the space ended with this result.
    Attempted(Option<usize>),
    /// A triggered collection cycle has completed.
    Collected,
}

/// What the protocol asks the caller to do next.
#[derive(PartialEq, Eq, Structural, Copy, Clone, Debug)]
pub enum RetryAction {
    /// Offer the thread for suspension if a collection is pending.
    PauseCheck,
    /// Take exclusive access to the space, allocate once, release access.
    Attempt,
    /// Request a full collection cycle and block until it completes.
    TriggerCollection,
    /// Hand this address to the requester.
    Return(usize),
}

pub open spec fn next_action(e: RetryEvent) -> RetryAction {
    match e {
        RetryEvent::Start => RetryAction::PauseCheck,
        RetryEvent::PauseChecked => RetryAction::Attempt,
        RetryEvent::Attempted(Some(a)) => RetryAction::Return(a),
        RetryEvent::Attempted(None) => RetryAction::TriggerCollection,
        RetryEvent::Collected => RetryAction::PauseCheck,
    }
}

/// The next action of the protocol after `e`.
pub fn retry_step(e: RetryEvent) -> (r: RetryAction)
    ensures
        r == next_action(e),
{
    match e {
        RetryEvent::Start => RetryAction::PauseCheck,
        RetryEvent::PauseChecked => RetryAction::Attempt,
        RetryEvent::Attempted(Some(a)) => RetryAction::Return(a),
        RetryEvent::Attempted(None) => RetryAction::TriggerCollection,
        RetryEvent::Collected => RetryAction::PauseCheck,
    }
}

pub open spec fn event_rank(e: RetryEvent) -> nat {
    match e {
        RetryEvent::Attempted(_) => 3,
        RetryEvent::Start => 2,
        RetryEvent::Collected => 2,
        RetryEvent::PauseChecked => 1,
    }
}

/// The actions the protocol issues from event `e` on, when its allocation
/// attempts end with `outcomes` in turn; the run stops at a `Return` or when
/// no outcome is left.
pub open spec fn run(outcomes: Seq<Option<usize>>, e: RetryEvent) -> Seq<RetryAction>
    decreases outcomes.len(), event_rank(e),
{
    match next_action(e) {
        RetryAction::PauseCheck => seq![RetryAction::PauseCheck] + run(
            outcomes,
            RetryEvent::PauseChecked,
        ),
        RetryAction::Attempt => if outcomes.len() == 0 {
            seq![RetryAction::Attempt]
        } else {
            seq![RetryAction::Attempt] + run(
                outcomes.drop_first(),
                RetryEvent::Attempted(outcomes[0]),
            )
        },
        RetryAction::TriggerCollection => seq![RetryAction::TriggerCollection] + run(
            outcomes,
            RetryEvent::Collected,
        ),
        RetryAction::Return(a) => seq![RetryAction::Return(a)],
    }
}

/// `k` failed rounds: a pause check, an attempt, a collection, each time.
pub open spec fn failed_rounds(k: nat) -> Seq<RetryAction>
    decreases k,
{
    if k == 0 {
        seq![]
    } else {
        seq![RetryAction::PauseCheck, RetryAction::Attempt, RetryAction::TriggerCollection]
            + failed_rounds((k - 1) as nat)
    }
}

/// The protocol never reports a failure: when the first `k` attempts fail and
/// the next one yields `a`, it runs exactly `k` rounds of pause check,
/// attempt and collection, then a pause check and an attempt, and returns
/// `a`.
pub proof fn lemma_retry_until_success(outcomes: Seq<Option<usize>>, k: nat, a: usize)
    requires
        k < outcomes.len(),
        forall|i: int| 0 <= i < k ==> outcomes[i] is None,
        outcomes[k as int] == Some(a),
    ensures
        run(outcomes, RetryEvent::Start) == failed_rounds(k) + seq![
            RetryAction::PauseCheck,
            RetryAction::Attempt,
            RetryAction::Return(a),
        ],
    decreases k,
{
    let rest = outcomes.drop_first();
    reveal_with_fuel(run, 4);
    if k == 0 {
        assert(run(rest, RetryEvent::Attempted(outcomes[0])) == seq![RetryAction::Return(a)]);
        assert(run(outcomes, RetryEvent::Start) =~= seq![
            RetryAction::PauseCheck,
            RetryAction::Attempt,
            RetryAction::Return(a),
        ]);
        assert(failed_rounds(0) == Seq::<RetryAction>::empty());
        assert(failed_rounds(k) + seq![
            RetryAction::PauseCheck,
            RetryAction::Attempt,
            RetryAction::Return(a),
        ] =~= seq![RetryAction::PauseCheck, RetryAction::Attempt, RetryAction::Return(a)]);
    } else {
        lemma_retry_until_success(rest, (k - 1) as nat, a);
        assert(run(rest, RetryEvent::Collected) == run(rest, RetryEvent::Start));
        let tail = seq![RetryAction::PauseCheck, RetryAction::Attempt, RetryAction::Return(a)];
        assert(run(outcomes, RetryEvent::Start) =~= seq![
            RetryAction::PauseCheck,
            RetryAction::Attempt,
            RetryAction::TriggerCollection,
        ] + run(rest, RetryEvent::Start));
        assert(failed_rounds(k) + tail =~= seq![
            RetryAction::PauseCheck,
            RetryAction::Attempt,
            RetryAction::TriggerCollection,
        ] + (failed_rounds((k - 1) as nat) + tail));
    }
}

} // verus!
