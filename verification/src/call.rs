//! The course of a call.
//!
//! Serving a call alternates between decisions and work that only the owner of
//! the transport and the store can do. [`Step`] says which work comes next; the
//! owner does it, and says how it went.

use vstd::prelude::*;

use crate::results::ResultsError;

verus! {

/// Why a call failed. `E` is what went wrong, `G` the error that the function
/// itself returned.
#[derive(Debug)]
pub enum CallError<E, G> {
    /// A parameter could not be decoded.
    Decode(E),
    /// A result could not be encoded.
    Encode(E),
    /// The error that the function returned is not in the table.
    Table(E),
    /// The call was refused, or the function failed.
    Call(E),
    /// What the function returned is not what its type says.
    TypeMismatch(E),
    /// The results could not be transmitted.
    Write(E),
    /// The outgoing stream could not be flushed.
    Flush(E),
    /// A stream of the results could not be transmitted.
    Deferred(E),
    /// The call could not be cleaned up after.
    PostReturn(E),
    /// The function returned this error.
    Guest(G),
}

/// The work that comes next in the course of a call.
#[derive(Clone, Copy, Debug, PartialEq, Eq, Structural)]
pub enum Step {
    /// Decode the parameters.
    Decode,
    /// Show the parameters to the observer, who may refuse the call.
    Observe,
    /// Run the function.
    Invoke,
    /// Encode the results.
    Encode,
    /// Let the server record the handles that the results carry.
    Record,
    /// Transmit the results.
    Transmit,
    /// Flush the outgoing stream.
    Flush,
    /// Shut the outgoing stream down.
    Shutdown,
    /// Transmit the streams of the results, each on its own sub-stream.
    Defer,
    /// Nothing: the call is over.
    Finished,
}

/// What follows a step that went well.
pub open spec fn step_after(step: Step) -> Step {
    match step {
        Step::Decode => Step::Observe,
        Step::Observe => Step::Invoke,
        Step::Invoke => Step::Encode,
        Step::Encode => Step::Record,
        Step::Record => Step::Transmit,
        Step::Transmit => Step::Flush,
        Step::Flush => Step::Shutdown,
        Step::Shutdown => Step::Defer,
        Step::Defer => Step::Finished,
        Step::Finished => Step::Finished,
    }
}

/// The error of a call in which the step failed with `e`, for the steps at which
/// a call can fail.
pub open spec fn step_error<E, G>(step: Step, e: E) -> Option<CallError<E, G>> {
    match step {
        Step::Decode => Some(CallError::Decode(e)),
        Step::Observe => Some(CallError::Call(e)),
        Step::Invoke => Some(CallError::Call(e)),
        Step::Encode => Some(CallError::Encode(e)),
        Step::Record => None,
        Step::Transmit => Some(CallError::Write(e)),
        Step::Flush => Some(CallError::Flush(e)),
        Step::Shutdown => None,
        Step::Defer => Some(CallError::Deferred(e)),
        Step::Finished => None,
    }
}

impl Step {
    /// The first step.
    pub fn first() -> (step: Step)
        ensures
            step == Step::Decode,
    {
        Step::Decode
    }

    /// The step after this one, or the error that the call ends with. That the
    /// stream could not be shut down does not make the call fail.
    pub fn advance<E, G>(self, outcome: Result<(), E>) -> (r: Result<Step, CallError<E, G>>)
        ensures
            match outcome {
                Ok(()) => r == Ok::<Step, CallError<E, G>>(step_after(self)),
                Err(e) => match step_error::<E, G>(self, e) {
                    Some(error) => r == Err::<Step, CallError<E, G>>(error),
                    None => r == Ok::<Step, CallError<E, G>>(step_after(self)),
                },
            },
    {
        match outcome {
            Err(e) => match self {
                Step::Decode => Err(CallError::Decode(e)),
                Step::Observe => Err(CallError::Call(e)),
                Step::Invoke => Err(CallError::Call(e)),
                Step::Encode => Err(CallError::Encode(e)),
                Step::Record => Ok(Step::Transmit),
                Step::Transmit => Err(CallError::Write(e)),
                Step::Flush => Err(CallError::Flush(e)),
                Step::Shutdown => Ok(Step::Defer),
                Step::Defer => Err(CallError::Deferred(e)),
                Step::Finished => Ok(Step::Finished),
            },
            Ok(()) => Ok(
                match self {
                    Step::Decode => Step::Observe,
                    Step::Observe => Step::Invoke,
                    Step::Invoke => Step::Encode,
                    Step::Encode => Step::Record,
                    Step::Record => Step::Transmit,
                    Step::Transmit => Step::Flush,
                    Step::Flush => Step::Shutdown,
                    Step::Shutdown => Step::Defer,
                    Step::Defer => Step::Finished,
                    Step::Finished => Step::Finished,
                },
            ),
        }
    }
}

/// What came of taking the error that a function returned out of the store.
#[derive(Debug)]
pub enum GuestError<E, G> {
    /// The resource is not an RPC error.
    Mismatch(E),
    /// The error is not in the table.
    Missing(E),
    /// This is the error.
    Taken(G),
}

/// The error of a call whose function returned an RPC error.
pub fn guest_call_error<E, G>(error: GuestError<E, G>) -> (r: CallError<E, G>)
    ensures
        r == match error {
            GuestError::Mismatch(e) => CallError::<E, G>::TypeMismatch(e),
            GuestError::Missing(e) => CallError::Table(e),
            GuestError::Taken(g) => CallError::Guest(g),
        },
{
    match error {
        GuestError::Mismatch(e) => CallError::TypeMismatch(e),
        GuestError::Missing(e) => CallError::Table(e),
        GuestError::Taken(g) => CallError::Guest(g),
    }
}

/// The error of a call whose results were not written, for a reason that is
/// reported as `e`: `None` if the function returned an RPC error, which is then
/// to be taken out of the store (see [`guest_call_error`]).
pub fn results_call_error<E, G>(error: ResultsError, e: E) -> (r: Option<CallError<E, G>>)
    ensures
        r == match error {
            ResultsError::Encode(_, _) => Some(CallError::<E, G>::Encode(e)),
            ResultsError::Guest(_) => None,
            ResultsError::ErrorNotResource => Some(CallError::TypeMismatch(e)),
            ResultsError::TypeMismatch => Some(CallError::TypeMismatch(e)),
        },
{
    match error {
        ResultsError::Encode(_, _) => Some(CallError::Encode(e)),
        ResultsError::Guest(_) => None,
        ResultsError::ErrorNotResource => Some(CallError::TypeMismatch(e)),
        ResultsError::TypeMismatch => Some(CallError::TypeMismatch(e)),
    }
}

/// The steps that a call goes through when the work of its `i`-th step goes as
/// `outcomes[i]` says: `true` for well.
pub open spec fn course(outcomes: Seq<bool>) -> Seq<Step>
    decreases outcomes.len(),
{
    if outcomes.len() == 0 {
        seq![Step::Decode]
    } else {
        let before = course(outcomes.drop_last());
        if before.len() == outcomes.len() && before.last() != Step::Finished && (outcomes.last()
            || step_error::<(), ()>(before.last(), ()) is None) {
            before.push(step_after(before.last()))
        } else {
            before
        }
    }
}

/// Each step that goes well is followed by the one after it, and the end by nothing.
pub proof fn law_steps_follow_each_other(step: Step)
    ensures
        step != Step::Finished ==> place(step_after(step)) == place(step) + 1,
        step_after(Step::Finished) == Step::Finished,
        place(step) == 0 <==> step == Step::Decode,
        place(step) == 9 <==> step == Step::Finished,
{
}

/// Each failure of a call is told apart by the step at which it came, and keeps its
/// cause; only the recording of handles and the shutting down of the stream cannot
/// fail a call.
pub proof fn law_failures_are_told_apart<E, G>(e: E)
    ensures
        step_error::<E, G>(Step::Decode, e) == Some(CallError::<E, G>::Decode(e)),
        step_error::<E, G>(Step::Observe, e) == Some(CallError::<E, G>::Call(e)),
        step_error::<E, G>(Step::Invoke, e) == Some(CallError::<E, G>::Call(e)),
        step_error::<E, G>(Step::Encode, e) == Some(CallError::<E, G>::Encode(e)),
        step_error::<E, G>(Step::Transmit, e) == Some(CallError::<E, G>::Write(e)),
        step_error::<E, G>(Step::Flush, e) == Some(CallError::<E, G>::Flush(e)),
        step_error::<E, G>(Step::Defer, e) == Some(CallError::<E, G>::Deferred(e)),
        step_error::<E, G>(Step::Record, e) is None,
        step_error::<E, G>(Step::Shutdown, e) is None,
        step_error::<E, G>(Step::Finished, e) is None,
{
}

/// A call in which nothing fails goes on, step by step, until it is over; that
/// handles were not recorded or the stream not shut down does not stop it. A call
/// in which another step fails goes no further.
pub proof fn law_calls_end_when_they_should(outcomes: Seq<bool>)
    ensures
        (forall|i: int| 0 <= i < outcomes.len() ==> #[trigger] outcomes[i] || i == 4 || i == 7)
            ==> course(outcomes).len() == (if outcomes.len() < 9 {
            outcomes.len() + 1
        } else {
            10
        }),
        forall|i: int|
            0 <= i < outcomes.len() && i < 9 && i != 4 && i != 7 && !#[trigger] outcomes[i]
                ==> course(outcomes).len() <= i + 1,
        course(outcomes).len() == 10 ==> course(outcomes)[9] == Step::Finished,
    decreases outcomes.len(),
{
    law_steps_come_in_order(outcomes);
    if outcomes.len() > 0 {
        let front = outcomes.drop_last();
        law_calls_end_when_they_should(front);
        law_steps_come_in_order(front);
        let before = course(front);
        assert(forall|i: int| 0 <= i < front.len() ==> #[trigger] front[i] == outcomes[i]);
        assert(place(before.last()) == before.len() - 1);
        if forall|i: int| 0 <= i < outcomes.len() ==> #[trigger] outcomes[i] || i == 4 || i == 7 {
            assert(outcomes[outcomes.len() - 1] || outcomes.len() == 5 || outcomes.len() == 8);
        }
        assert forall|i: int|
            0 <= i < outcomes.len() && i < 9 && i != 4 && i != 7 && !#[trigger] outcomes[i]
            implies course(outcomes).len() <= i + 1 by {
            if i < front.len() {
                assert(!front[i]);
            }
        }
    }
    if course(outcomes).len() == 10 {
        assert(place(course(outcomes)[9]) == 9);
    }
}

/// How many steps lie before this one.
pub open spec fn place(step: Step) -> int {
    match step {
        Step::Decode => 0,
        Step::Observe => 1,
        Step::Invoke => 2,
        Step::Encode => 3,
        Step::Record => 4,
        Step::Transmit => 5,
        Step::Flush => 6,
        Step::Shutdown => 7,
        Step::Defer => 8,
        Step::Finished => 9,
    }
}

/// A call goes through its steps in order: the function runs only after its
/// parameters were decoded and the observer accepted them; nothing is transmitted
/// before the results are encoded and the server has recorded their handles; and
/// after a step that failed there is no other, unless what failed was to shut the
/// stream down.
pub proof fn law_steps_come_in_order(outcomes: Seq<bool>)
    ensures
        0 < course(outcomes).len() <= outcomes.len() + 1,
        forall|i: int|
            0 <= i < course(outcomes).len() ==> place(#[trigger] course(outcomes)[i]) == i,
        forall|i: int|
            0 <= i < course(outcomes).len() - 1 ==> #[trigger] outcomes[i] || course(outcomes)[i]
                == Step::Record || course(outcomes)[i] == Step::Shutdown,
    decreases outcomes.len(),
{
    if outcomes.len() > 0 {
        law_steps_come_in_order(outcomes.drop_last());
        let before = course(outcomes.drop_last());
        assert(forall|i: int|
            0 <= i < outcomes.len() - 1 ==> outcomes.drop_last()[i] == outcomes[i]);
    }
}

} // verus!
