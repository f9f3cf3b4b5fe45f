//! A message as a fetch hands it out: the payload, and how far off its due
//! time is.

use crate::topic_queue::topic_message::{Message, MessageView};
use vstd::prelude::*;

verus! {

/// A payload read back from the store, with the time that is left until it
/// falls due: `delay_time` is the due time minus the time of the fetch, in
/// seconds. Zero or less means that the message is due.
#[derive(Debug, Clone)]
pub struct DelayMessage {
    pub message: Message,
    pub delay_time: i64,
}

/// What a `DelayMessage` stands for.
pub struct DelayMessageView {
    pub message: MessageView,
    pub delay_time: int,
}

impl View for DelayMessage {
    type V = DelayMessageView;

    open spec fn view(&self) -> DelayMessageView {
        DelayMessageView { message: self.message@, delay_time: self.delay_time as int }
    }
}

impl DelayMessage {
    /// The payload `message` with `delay_time` seconds left until it is due.
    pub fn new(message: Message, delay_time: i64) -> (r: Self)
        ensures
            r.message == message,
            r.delay_time == delay_time,
    {
        DelayMessage { message, delay_time }
    }
}

} // verus!
