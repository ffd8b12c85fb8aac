//! The state actor's decision core: one mailbox message in, one state
//! transition and one follow-up action out.
//!
//! A single worker owns the store and drains an ordered mailbox, handling
//! exactly one message at a time; that is the whole concurrency-safety
//! mechanism. The loop itself — channel, thread, file writes, replies — is
//! plain plumbing around `handle_message`, which decides everything.

use vstd::prelude::*;
use crate::codec::spec_encode;
use crate::store::{apply_post, opt_in_post, opt_out_post, presence_ok, Store};

verus! {

/// One mailbox message. Mutations are fire-and-forget; `Query` expects a
/// reply; `Save` and `StopAndSave` ask for the snapshot to be persisted.
pub enum Message {
    OptOut { user: u64 },
    OptIn { user: u64 },
    UpdatePresence { user: u64, location: Option<(u64, u64)>, now: u64 },
    Save,
    StopAndSave,
    Query { user: u64, community: u64, channel: Option<u64> },
}

/// What the worker owes after one message: nothing, a write of the given
/// bytes, a write followed by shutdown, or a reply that must always be
/// delivered to the waiting caller.
pub enum Action {
    Done,
    Persist { bytes: Vec<u8> },
    PersistAndStop { bytes: Vec<u8> },
    Reply { seconds: u64 },
}

/// The one demand a message places on the state it meets: a presence event
/// carries a monotonic timestamp, so it cannot predate an open session.
pub open spec fn message_ok(s: Store, msg: Message) -> bool {
    match msg {
        Message::UpdatePresence { user, location, now } => presence_ok(s, user, now),
        _ => true,
    }
}

impl Store {
    /// Handles exactly one mailbox message to completion: the worker's
    /// single-message step. Queries and saves leave the store untouched;
    /// every `Query` yields a `Reply`, so no caller waits forever.
    pub fn handle_message(&mut self, msg: Message) -> (a: Action)
        requires
            old(self).wf(),
            message_ok(*old(self), msg),
        ensures
            final(self).wf(),
            (match msg {
                Message::OptOut { user } => opt_out_post(*old(self), *final(self), user) && a
                    == (Action::Done),
                Message::OptIn { user } => opt_in_post(*old(self), *final(self), user) && a == (
                Action::Done),
                Message::UpdatePresence { user, location, now } => apply_post(
                    *old(self),
                    *final(self),
                    user,
                    location,
                    now,
                ) && a == (Action::Done),
                Message::Save => *final(self) == *old(self) && (a matches Action::Persist {
                    bytes,
                } && bytes@ == spec_encode(old(self).snapshot())),
                Message::StopAndSave => *final(self) == *old(self) && (a matches
                Action::PersistAndStop { bytes } && bytes@ == spec_encode(old(self).snapshot())),
                Message::Query { user, community, channel } => *final(self) == *old(self) && (a
                    matches Action::Reply { seconds } && seconds == old(self).spec_query(
                    user,
                    community,
                    channel,
                )),
            }),
    {
        match msg {
            Message::OptOut { user } => {
                self.opt_out(user);
                Action::Done
            },
            Message::OptIn { user } => {
                self.opt_in(user);
                Action::Done
            },
            Message::UpdatePresence { user, location, now } => {
                self.apply_presence(user, location, now);
                Action::Done
            },
            Message::Save => {
                let bytes = self.to_bytes();
                Action::Persist { bytes }
            },
            Message::StopAndSave => {
                let bytes = self.to_bytes();
                Action::PersistAndStop { bytes }
            },
            Message::Query { user, community, channel } => {
                let seconds = self.query_time(user, community, channel);
                Action::Reply { seconds }
            },
        }
    }
}

} // verus!
