//! The messages that carry one sample.

use vstd::prelude::*;
use vstd::slice::{slice_subrange, slice_to_vec};

use crate::le;
use crate::rtps::message::{Message, MessageView, Submessage, SubmessageView};

verus! {

/// The most bytes that one UDP datagram carries.
pub const MAX_DATAGRAM: usize = 65_507;

/// How many bytes one fragment holds.
pub const FRAGMENT_SIZE: u16 = 1024;

/// How many fragments one `DATA_FRAG` submessage carries: sixty-three of
/// them stay inside one datagram.
pub const FRAGMENTS_PER_SUBMESSAGE: u16 = 63;

/// The most serialized payload a `DATA` submessage carries in one datagram:
/// the datagram less the message header, the timestamp and the submessage's
/// own header.
pub const MAX_DATA_PAYLOAD: usize = MAX_DATAGRAM - 20 - 12 - 24;

/// How many bytes the fragments of one submessage hold.
pub open spec fn run_size() -> nat {
    FRAGMENT_SIZE as nat * FRAGMENTS_PER_SUBMESSAGE as nat
}

/// How many runs of fragments `length` bytes make.
pub open spec fn run_count(length: nat) -> nat {
    (length + run_size() - 1) as nat / run_size()
}

/// The bytes of `serialized` in its run number `index`, counted from zero.
pub open spec fn run_of(serialized: Seq<u8>, index: int) -> Seq<u8> {
    let start = index * run_size();
    let end = start + run_size();
    serialized.subrange(
        start,
        if end <= serialized.len() {
            end
        } else {
            serialized.len() as int
        },
    )
}

/// Runs by their size: how many there are, and where each starts.
pub proof fn lemma_run_numbers(length: nat, index: int)
    ensures
        run_size() == 64_512,
        run_count(length) == (length + 64_511) / 64_512,
        index * run_size() == index * 64_512,
        index * FRAGMENTS_PER_SUBMESSAGE == index * 63,
{
    let size = run_size();
    assert(size == 64_512);
    assert((length + size - 1) as nat / size == (length + 64_511) / 64_512) by (nonlinear_arith)
        requires
            size == 64_512,
    ;
    assert(index * size == index * 64_512) by (nonlinear_arith)
        requires
            size == 64_512,
    ;
    assert(index * FRAGMENTS_PER_SUBMESSAGE == index * 63) by (nonlinear_arith)
        requires
            FRAGMENTS_PER_SUBMESSAGE == 63,
    ;
}

/// The timestamp in front of each sample.
pub open spec fn stamp() -> SubmessageView {
    SubmessageView::InfoTimestamp { seconds: 0, fraction: 0 }
}

/// The submessage that carries run number `index` of a sample.
pub open spec fn fragments(
    writer_id: Seq<u8>,
    sequence: i64,
    serialized: Seq<u8>,
    index: int,
) -> SubmessageView {
    SubmessageView::DataFrag {
        writer_id,
        sequence,
        starting: le::saturated((index * FRAGMENTS_PER_SUBMESSAGE + 1) as nat, 0xffff_ffff) as u32,
        count: ((run_of(serialized, index).len() + FRAGMENT_SIZE - 1) / FRAGMENT_SIZE as int)
            as u16,
        size: FRAGMENT_SIZE,
        sample_size: le::saturated(serialized.len(), 0xffff_ffff) as u32,
        payload: run_of(serialized, index),
    }
}

/// The messages that carry `serialized` as sample `sequence`: one `DATA`
/// where it fits a datagram, else `DATA_FRAG`s, each behind a timestamp.
pub open spec fn sample_messages(
    guid_prefix: Seq<u8>,
    writer_id: Seq<u8>,
    sequence: i64,
    serialized: Seq<u8>,
) -> Seq<MessageView> {
    if serialized.len() <= MAX_DATA_PAYLOAD {
        seq![
            MessageView {
                guid_prefix,
                submessages: seq![
                    stamp(),
                    SubmessageView::Data { writer_id, sequence, payload: serialized },
                ],
            },
        ]
    } else {
        Seq::new(
            run_count(serialized.len()),
            |index: int|
                MessageView {
                    guid_prefix,
                    submessages: seq![stamp(), fragments(writer_id, sequence, serialized, index)],
                },
        )
    }
}

/// The messages that carry `serialized` as sample `sequence` from
/// `writer_id`: one `DATA` where it fits a datagram, else `DATA_FRAG`s.
#[must_use]
pub fn messages(
    guid_prefix: [u8; 12],
    writer_id: [u8; 4],
    sequence: i64,
    serialized: &[u8],
) -> (sent: Vec<Message>)
    ensures
        sent@.map_values(|message: Message| message@) == sample_messages(
            guid_prefix@,
            writer_id@,
            sequence,
            serialized@,
        ),
{
    let ghost expected = sample_messages(guid_prefix@, writer_id@, sequence, serialized@);
    let mut sent: Vec<Message> = Vec::new();
    if serialized.len() <= MAX_DATA_PAYLOAD {
        let message = Message {
            guid_prefix,
            submessages: vec![
                Submessage::InfoTimestamp { seconds: 0, fraction: 0 },
                Submessage::Data { writer_id, sequence, payload: slice_to_vec(serialized) },
            ],
        };
        assert(message@.submessages =~= expected[0].submessages);
        sent.push(message);
        assert(sent@.map_values(|message: Message| message@) =~= expected);
        return sent;
    }
    let per_message: usize = FRAGMENT_SIZE as usize * FRAGMENTS_PER_SUBMESSAGE as usize;
    let sample_size: u32 = if serialized.len() <= 0xffff_ffff {
        serialized.len() as u32
    } else {
        0xffff_ffff
    };
    let mut index: usize = 0;
    let mut at: usize = 0;
    proof {
        lemma_run_numbers(serialized@.len(), 0);
    }
    while at < serialized.len()
        invariant
            serialized@.len() > MAX_DATA_PAYLOAD,
            per_message == 64_512,
            sample_size == le::saturated(serialized@.len(), 0xffff_ffff),
            expected == sample_messages(guid_prefix@, writer_id@, sequence, serialized@),
            index == sent@.len(),
            index <= expected.len(),
            at == if index < expected.len() {
                index * 64_512
            } else {
                serialized@.len() as int
            },
            forall|k: int| 0 <= k < index ==> (#[trigger] sent@[k])@ == expected[k],
        decreases serialized@.len() - at,
    {
        proof {
            lemma_run_numbers(serialized@.len(), index as int);
        }
        assert(index < expected.len());
        let end: usize = if serialized.len() - at > per_message {
            at + per_message
        } else {
            serialized.len()
        };
        let run: &[u8] = slice_subrange(serialized, at, end);
        assert(run@ == run_of(serialized@, index as int));
        let first: usize = index * FRAGMENTS_PER_SUBMESSAGE as usize + 1;
        let starting: u32 = if first <= 0xffff_ffff {
            first as u32
        } else {
            0xffff_ffff
        };
        let count: u16 = ((run.len() + (FRAGMENT_SIZE as usize - 1)) / FRAGMENT_SIZE as usize)
            as u16;
        let message = Message {
            guid_prefix,
            submessages: vec![
                Submessage::InfoTimestamp { seconds: 0, fraction: 0 },
                Submessage::DataFrag {
                    writer_id,
                    sequence,
                    starting,
                    count,
                    size: FRAGMENT_SIZE,
                    sample_size,
                    payload: slice_to_vec(run),
                },
            ],
        };
        assert(message@.submessages =~= expected[index as int].submessages);
        sent.push(message);
        index += 1;
        at = end;
    }
    assert(sent@.map_values(|message: Message| message@) =~= expected);
    sent
}

} // verus!
