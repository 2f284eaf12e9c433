//! The reducer actor's state. The shuffle and reduce phases are
//! deliberately left open: a follow-on phase must merge duplicate shard
//! lines into final per-word totals, and inventing one here would pin
//! down semantics nobody has decided. What exists is the actor's message
//! counter; shuffle and reduce requests are accepted and answered with
//! nothing.

use vstd::prelude::*;

verus! {

/// A request submitted to a reducer.
pub enum ReducerMessage {
    /// Hand out the next value of the message counter.
    GetId,
    /// Sort one buffered partition; deliberately unimplemented.
    Shuffle { partition_name: String },
    /// Consume one partition into per-word totals; deliberately
    /// unimplemented.
    Reduce { partition_name: String },
}

/// A reducer's mutable state: its monotonic message counter.
pub struct Reducer {
    message_id: usize,
}

impl Reducer {
    /// The reducer's message counter.
    pub closed spec fn spec_message_id(self) -> usize {
        self.message_id
    }

    /// The current value of the message counter.
    pub fn message_count(&self) -> (r: usize)
        ensures
            r == self.spec_message_id(),
    {
        self.message_id
    }

    /// Creates a reducer with the counter at zero.
    pub fn new() -> (r: Reducer)
        ensures
            r.spec_message_id() == 0,
    {
        Reducer { message_id: 0 }
    }

    /// Hands out the next value of the message counter.
    pub fn get_unique_id(&mut self) -> (r: usize)
        requires
            old(self).spec_message_id() < usize::MAX,
        ensures
            final(self).spec_message_id() == old(self).spec_message_id() + 1,
            r == final(self).spec_message_id(),
    {
        self.message_id = self.message_id + 1;
        self.message_id
    }

    /// Handles one message: an identifier request increments the counter
    /// and answers with its new value; shuffle and reduce requests leave
    /// the state untouched and produce no answer.
    pub fn handle_message(&mut self, msg: ReducerMessage) -> (r: Option<usize>)
        requires
            msg is GetId ==> old(self).spec_message_id() < usize::MAX,
        ensures
            msg is GetId ==> final(self).spec_message_id() == old(self).spec_message_id() + 1
                && r == Some(final(self).spec_message_id()),
            !(msg is GetId) ==> final(self).spec_message_id() == old(self).spec_message_id()
                && r is None,
    {
        match msg {
            ReducerMessage::GetId => Some(self.get_unique_id()),
            ReducerMessage::Shuffle { .. } => None,
            ReducerMessage::Reduce { .. } => None,
        }
    }
}

} // verus!
