//! The data model for an addressed, correlated unit of communication:
//! an envelope carries a source, a destination and a body, and the body
//! carries an optional message id, an optional correlation id and a
//! handler-specific payload.

use vstd::prelude::*;

verus! {

/// The body of a message: correlation ids plus the handler's payload.
pub struct Body<Payload> {
    pub msg_id: Option<usize>,
    pub in_reply_to: Option<usize>,
    pub payload: Payload,
}

/// An addressed message: who sent it, whom it is for, and its body.
pub struct Message<Payload> {
    pub src: String,
    pub dst: String,
    pub body: Body<Payload>,
}

/// The mathematical shape of a body: strings as character sequences.
#[verifier::ext_equal]
pub struct BodyView<PV> {
    pub msg_id: Option<usize>,
    pub in_reply_to: Option<usize>,
    pub payload: PV,
}

/// The mathematical shape of a message.
#[verifier::ext_equal]
pub struct MessageView<PV> {
    pub src: Seq<char>,
    pub dst: Seq<char>,
    pub body: BodyView<PV>,
}

impl<Payload: View> View for Body<Payload> {
    type V = BodyView<Payload::V>;

    open spec fn view(&self) -> BodyView<Payload::V> {
        BodyView {
            msg_id: self.msg_id,
            in_reply_to: self.in_reply_to,
            payload: self.payload@,
        }
    }
}

impl<Payload: View> View for Message<Payload> {
    type V = MessageView<Payload::V>;

    open spec fn view(&self) -> MessageView<Payload::V> {
        MessageView { src: self.src@, dst: self.dst@, body: self.body@ }
    }
}

} // verus!
