//! What a session has to deal with, in the order in which it came up.

use crate::protocol::{Message, MessageView};
use std::collections::VecDeque;
use vstd::prelude::*;

verus! {

/// Something a session has to deal with.
#[derive(Debug, PartialEq, Eq)]
pub enum SessionEvent {
    /// The dispatcher sent a message.
    Message(Message),
    /// The task with this id is overdue.
    TaskTimeout(u64),
}

/// Model of a [`SessionEvent`].
pub enum SessionEventView {
    Message(MessageView),
    TaskTimeout(u64),
}

impl View for SessionEvent {
    type V = SessionEventView;

    open spec fn view(&self) -> SessionEventView {
        match *self {
            SessionEvent::Message(message) => SessionEventView::Message(message@),
            SessionEvent::TaskTimeout(task_id) => SessionEventView::TaskTimeout(task_id),
        }
    }
}

/// The events held by a list.
pub open spec fn events_view(events: Seq<SessionEvent>) -> Seq<SessionEventView> {
    events.map_values(|e: SessionEvent| e@)
}

/// Events waiting to be dealt with, oldest first.
pub struct EventQueue {
    inner: VecDeque<SessionEvent>,
}

impl View for EventQueue {
    type V = Seq<SessionEventView>;

    closed spec fn view(&self) -> Seq<SessionEventView> {
        events_view(self.inner@)
    }
}

impl EventQueue {
    /// A queue without events.
    pub fn new() -> (queue: Self)
        ensures
            queue@ == Seq::<SessionEventView>::empty(),
    {
        let queue = EventQueue { inner: VecDeque::with_capacity(16) };
        assert(queue@ =~= Seq::<SessionEventView>::empty());
        queue
    }

    /// Puts an event at the end.
    pub fn push(&mut self, event: SessionEvent)
        ensures
            final(self)@ == old(self)@.push(event@),
    {
        self.inner.push_back(event);
        assert(self@ =~= old(self)@.push(event@));
    }

    /// The number of events that wait.
    pub fn len(&self) -> (len: usize)
        ensures
            len == self@.len(),
    {
        self.inner.len()
    }

    /// Takes the oldest event.
    pub fn pop(&mut self) -> (event: Option<SessionEvent>)
        ensures
            match event {
                Some(e) => old(self)@.len() > 0 && e@ == old(self)@[0] && final(self)@ == old(
                    self,
                )@.skip(1),
                None => old(self)@.len() == 0 && final(self)@ == old(self)@,
            },
    {
        let event = self.inner.pop_front();
        proof {
            if event is Some {
                assert(self@ =~= old(self)@.skip(1));
            } else {
                assert(self@ =~= old(self)@);
            }
        }
        event
    }
}

} // verus!
