use futures::channel::mpsc::UnboundedSender;
use rand::seq::SliceRandom;
use vstd::prelude::*;

use crate::message::ToPlayerMessage;
use crate::question::Question;

verus! {

#[verifier::external_type_specification]
#[verifier::external_body]
#[verifier::reject_recursive_types(T)]
pub struct ExUnboundedSender<T>(UnboundedSender<T>);

/// Relies on futures' `UnboundedSender::unbounded_send`: queues the message on
/// the channel, or fails when the receiving side is gone. Whether it fails
/// depends on the other side, so nothing is promised of the outcome.
#[verifier::external_body]
pub(crate) fn send_to(sender: &UnboundedSender<ToPlayerMessage>, message: ToPlayerMessage) -> (sent: bool) {
    sender.unbounded_send(message).is_ok()
}

/// Relies on rand's `SliceRandom::shuffle` with the thread-local generator:
/// the slice is permuted in place (a sequence of swaps), so it holds the same
/// items as before.
#[verifier::external_body]
pub(crate) fn shuffle_in_place(questions: &mut Vec<Question>)
    ensures
        final(questions)@.to_multiset() == old(questions)@.to_multiset(),
{
    questions.shuffle(&mut rand::thread_rng());
}

} // verus!
