//! Room identifiers and the payload envelope that the hub delivers.

use vstd::prelude::*;

verus! {

/// Identifier of a room: the 128-bit value of the room's UUID.
#[derive(Clone, Copy, PartialEq, Eq, Structural, Debug, Hash)]
pub struct RoomId {
    pub raw: u128,
}

/// One relayed chat payload: the room it was sent in, the sender's display
/// name and the message text.
pub struct Envelope {
    pub room: RoomId,
    pub sender: String,
    pub text: String,
}

/// Mathematical model of an [`Envelope`]: the room value and the two strings
/// as character sequences.
pub ghost struct EnvelopeModel {
    pub room: u128,
    pub sender: Seq<char>,
    pub text: Seq<char>,
}

impl View for Envelope {
    type V = EnvelopeModel;

    open spec fn view(&self) -> EnvelopeModel {
        EnvelopeModel { room: self.room.raw, sender: self.sender@, text: self.text@ }
    }
}

impl Clone for Envelope {
    fn clone(&self) -> (r: Envelope)
        ensures
            r@ == self@,
    {
        Envelope { room: self.room, sender: self.sender.clone(), text: self.text.clone() }
    }
}

} // verus!
