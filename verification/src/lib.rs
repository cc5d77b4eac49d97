//! Streams that arrive over DDS. One sample is one Stream: a `DATA`
//! submessage where it fits a datagram, else a run of `DATA_FRAG`
//! submessages put back together by sequence number at the reader.
//!
//! DDS is the data bus of the vehicle, the robot and the control room:
//! writers publish samples to topics, readers take them, and RTPS is the
//! wire beneath: messages of submessages over UDP, unicast to a locator or
//! multicast for discovery. What is here is the RTPS message ([`rtps`]), a
//! sample as a CDR octet sequence, the fragmentation and the reassembly; what
//! a writer sends for a sample ([`transport`]) and what a reader makes of each
//! datagram ([`reader`]); and that the second undoes the first ([`delivery`]).
//! Sockets are not here: a caller sends the datagrams that it is given, and
//! hands over those that come. Discovery is not here either: the locator is
//! given.
//!
//! The origin of a sample names its writer and its number:
//! `dds://127.0.0.1:49152/<guid>?sn=1`.

pub mod delivery;
pub mod error;
pub mod le;
pub mod reader;
pub mod rtps;
pub mod text;
pub mod transport;

pub use error::ProtocolError;
pub use reader::{Arrived, Reading, Received, Step};
pub use rtps::{Message, Reassembly, Submessage};
pub use transport::{DdsTransport, Sequence};
