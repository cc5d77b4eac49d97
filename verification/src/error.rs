//! What a reader refuses, and the words for it.

use vstd::prelude::*;

verus! {

/// Why bytes that arrived were refused.
#[derive(Clone, Copy, Debug, PartialEq, Eq, Structural)]
pub enum ProtocolError {
    /// Fewer bytes than a message header holds.
    MessageHeaderCut,
    /// A header that does not name version 2 of RTPS.
    NotRtps,
    /// Fewer bytes than a submessage's header, or its fixed part, holds.
    SubmessageHeaderCut,
    /// Fewer bytes than a submessage's length promises.
    SubmessageCut,
    /// A submessage without the little-endian flag.
    BigEndian,
    /// A `DATA` without the flag that says it carries serialized data.
    DataWithoutData,
    /// Fewer bytes than the encapsulation header and the length hold.
    EncapsulationCut,
    /// An encapsulation other than CDR, little-endian.
    Encapsulation,
    /// A length past the end of the payload.
    LengthPastPayload,
    /// A fragment past the size its sample announced.
    FragmentPastSample,
}

impl ProtocolError {
    /// The words of [`ProtocolError::message`].
    pub open spec fn text(self) -> Seq<char> {
        match self {
            ProtocolError::MessageHeaderCut => "a message cut off inside its header"@,
            ProtocolError::NotRtps => "not an RTPS 2 message"@,
            ProtocolError::SubmessageHeaderCut => "a submessage cut off inside its header"@,
            ProtocolError::SubmessageCut => "a submessage cut off before its length"@,
            ProtocolError::BigEndian => "a big-endian submessage this crate does not read"@,
            ProtocolError::DataWithoutData => "a DATA without data"@,
            ProtocolError::EncapsulationCut => "a payload cut off inside its encapsulation"@,
            ProtocolError::Encapsulation => "an encapsulation this crate does not read"@,
            ProtocolError::LengthPastPayload => "a length past the payload"@,
            ProtocolError::FragmentPastSample => "a fragment past the sample's size"@,
        }
    }

    /// The refusal in words.
    pub fn message(&self) -> (text: &'static str)
        ensures
            text@ == self.text(),
    {
        match self {
            ProtocolError::MessageHeaderCut => "a message cut off inside its header",
            ProtocolError::NotRtps => "not an RTPS 2 message",
            ProtocolError::SubmessageHeaderCut => "a submessage cut off inside its header",
            ProtocolError::SubmessageCut => "a submessage cut off before its length",
            ProtocolError::BigEndian => "a big-endian submessage this crate does not read",
            ProtocolError::DataWithoutData => "a DATA without data",
            ProtocolError::EncapsulationCut => "a payload cut off inside its encapsulation",
            ProtocolError::Encapsulation => "an encapsulation this crate does not read",
            ProtocolError::LengthPastPayload => "a length past the payload",
            ProtocolError::FragmentPastSample => "a fragment past the sample's size",
        }
    }
}

} // verus!
