//! The RTPS message as a datagram carries it: a header naming the protocol,
//! its version, the vendor and the sender's GUID prefix, then submessages,
//! each an identifier, flags and a length, of which this crate carries
//! `INFO_TS`, `DATA` with a sample whole, and `DATA_FRAG` with a run of
//! fragments of one. A sample is an octet sequence in CDR, little-endian,
//! behind the encapsulation header.

pub mod cdr;
pub mod laws;
pub mod layout;
pub mod message;
pub mod pieces;
pub mod reassembly;
pub mod sample;

pub use self::cdr::{deserialize, serialize};
pub use self::message::{
    Message, Submessage, DATA, DATA_FRAG, ENTITYID_UNKNOWN, FLAG_DATA, FLAG_ENDIAN, INFO_TS,
    VENDOR_UNKNOWN, VERSION, WRITER_WITH_KEY,
};
pub use self::reassembly::Reassembly;
pub use self::sample::{
    messages, FRAGMENTS_PER_SUBMESSAGE, FRAGMENT_SIZE, MAX_DATAGRAM, MAX_DATA_PAYLOAD,
};
