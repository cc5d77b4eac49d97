//! The reader: what to do with each datagram, until one sample is whole.

use vstd::prelude::*;

use crate::error::ProtocolError;
use crate::rtps::cdr;
use crate::rtps::laws;
use crate::rtps::message;
use crate::rtps::message::{Message, Submessage, SubmessageView};
use crate::rtps::reassembly;
use crate::rtps::reassembly::{Partial, Reassembly};
use crate::text;
use crate::transport::DdsTransport;

verus! {

/// A sample that arrived whole, and where it came from.
#[derive(Clone, Debug, PartialEq, Eq)]
pub struct Arrived {
    pub origin_uri: String,
    pub bytes: Vec<u8>,
}

/// What the socket gave: a datagram and its origin, or a failure.
#[derive(Clone, Debug, PartialEq, Eq)]
pub enum Received {
    Datagram { origin_uri: String, bytes: Vec<u8> },
    Failed {
        /// Whether asking again may help, as it may when nothing came in time.
        retryable: bool,
    },
}

/// What the reader does next.
#[derive(Clone, Debug, PartialEq, Eq)]
pub enum Step {
    /// Wait for another datagram.
    Again,
    /// Stop: nothing arrived in time.
    Nothing,
    /// Stop with the socket's failure.
    Failed,
    /// Stop: what arrived is refused.
    Refused(ProtocolError),
    /// Stop with a sample.
    Taken(Arrived),
}

/// One sample being waited for.
#[derive(Debug)]
pub struct Reading {
    reassembly: Reassembly,
    first: bool,
}

/// What a [`Reading`] holds.
pub struct ReadingView {
    /// The sample of which fragments have come.
    pub under_way: Option<Partial>,
    /// Whether nothing has come yet.
    pub first: bool,
}

/// What the socket gave, as a mathematical value.
pub enum ReceivedView {
    Datagram { origin_uri: Seq<char>, bytes: Seq<u8> },
    Failed { retryable: bool },
}

/// What the reader does next, as a mathematical value.
pub enum StepView {
    Again,
    Nothing,
    Failed,
    Refused(ProtocolError),
    Taken { origin_uri: Seq<char>, bytes: Seq<u8> },
}

impl View for Reading {
    type V = ReadingView;

    closed spec fn view(&self) -> ReadingView {
        ReadingView { under_way: self.reassembly@, first: self.first }
    }
}

impl View for Received {
    type V = ReceivedView;

    open spec fn view(&self) -> ReceivedView {
        match self {
            Received::Datagram { origin_uri, bytes } => ReceivedView::Datagram {
                origin_uri: origin_uri@,
                bytes: bytes@,
            },
            Received::Failed { retryable } => ReceivedView::Failed { retryable: *retryable },
        }
    }
}

impl View for Step {
    type V = StepView;

    open spec fn view(&self) -> StepView {
        match self {
            Step::Again => StepView::Again,
            Step::Nothing => StepView::Nothing,
            Step::Failed => StepView::Failed,
            Step::Refused(error) => StepView::Refused(*error),
            Step::Taken(arrived) => StepView::Taken {
                origin_uri: arrived.origin_uri@,
                bytes: arrived.bytes@,
            },
        }
    }
}

/// The sample that `submessage` completes with `serialized`, in a datagram
/// from `datagram_origin` behind `guid_prefix`.
pub open spec fn arrival(
    datagram_origin: Seq<char>,
    guid_prefix: Seq<u8>,
    submessage: SubmessageView,
    serialized: Seq<u8>,
) -> StepView {
    match cdr::deserialized(serialized) {
        Err(error) => StepView::Refused(error),
        Ok(bytes) => match submessage {
            SubmessageView::Data { writer_id, sequence, .. } => StepView::Taken {
                origin_uri: text::origin_text(
                    datagram_origin,
                    guid_prefix,
                    writer_id,
                    sequence as int,
                ),
                bytes,
            },
            SubmessageView::DataFrag { writer_id, sequence, .. } => StepView::Taken {
                origin_uri: text::origin_text(
                    datagram_origin,
                    guid_prefix,
                    writer_id,
                    sequence as int,
                ),
                bytes,
            },
            SubmessageView::InfoTimestamp { .. } => StepView::Again,
        },
    }
}

/// What is under way once `submessages` were taken in turn, up to the first
/// that completes a sample or is refused, and what to do next.
pub open spec fn scanned(
    under_way: Option<Partial>,
    datagram_origin: Seq<char>,
    guid_prefix: Seq<u8>,
    submessages: Seq<SubmessageView>,
) -> (Option<Partial>, StepView)
    decreases submessages.len(),
{
    if submessages.len() == 0 {
        (under_way, StepView::Again)
    } else {
        let (later, whole) = reassembly::taken(under_way, submessages[0]);
        match whole {
            Err(error) => (later, StepView::Refused(error)),
            Ok(None) => scanned(later, datagram_origin, guid_prefix, submessages.drop_first()),
            Ok(Some(serialized)) => (
                later,
                arrival(datagram_origin, guid_prefix, submessages[0], serialized),
            ),
        }
    }
}

/// What the reader holds and does next, once `received` came.
pub open spec fn stepped(reading: ReadingView, received: ReceivedView) -> (ReadingView, StepView) {
    match received {
        ReceivedView::Failed { retryable } => (
            reading,
            if retryable && reading.first {
                StepView::Nothing
            } else {
                StepView::Failed
            },
        ),
        ReceivedView::Datagram { origin_uri, bytes } => match message::read_message(bytes) {
            Err(error) => (
                ReadingView { under_way: reading.under_way, first: false },
                StepView::Refused(error),
            ),
            Ok(message) => {
                let (under_way, step) = scanned(
                    reading.under_way,
                    origin_uri,
                    message.guid_prefix,
                    message.submessages,
                );
                (ReadingView { under_way, first: false }, step)
            },
        },
    }
}

impl Default for Reading {
    /// Nothing has come.
    fn default() -> (reading: Self)
        ensures
            reading@ == (ReadingView { under_way: None, first: true }),
    {
        Reading { reassembly: Reassembly::default(), first: true }
    }
}

/// The sample that `submessage` completes with `serialized`.
fn arrive(
    datagram_origin: &str,
    guid_prefix: &[u8],
    writer_id: &[u8],
    sequence: i64,
    serialized: &[u8],
) -> (step: Step)
    ensures
        step@ == match cdr::deserialized(serialized@) {
            Err(error) => StepView::Refused(error),
            Ok(bytes) => StepView::Taken {
                origin_uri: text::origin_text(
                    datagram_origin@,
                    guid_prefix@,
                    writer_id@,
                    sequence as int,
                ),
                bytes,
            },
        },
{
    match cdr::deserialize(serialized) {
        Err(error) => Step::Refused(error),
        Ok(bytes) => Step::Taken(
            Arrived {
                origin_uri: text::origin(datagram_origin, guid_prefix, writer_id, sequence),
                bytes,
            },
        ),
    }
}

/// Take the submessages of `message` in turn, up to the first that completes
/// a sample or is refused.
pub fn scan(reassembly: &mut Reassembly, datagram_origin: &str, message: &Message) -> (step: Step)
    ensures
        (final(reassembly)@, step@) == scanned(
            old(reassembly)@,
            datagram_origin@,
            message@.guid_prefix,
            message@.submessages,
        ),
{
    let ghost all = message@.submessages;
    let mut at: usize = 0;
    assert(all.skip(0) =~= all);
    while at < message.submessages.len()
        invariant
            at <= message.submessages@.len(),
            all == message@.submessages,
            scanned(reassembly@, datagram_origin@, message@.guid_prefix, all.skip(at as int))
                == scanned(old(reassembly)@, datagram_origin@, message@.guid_prefix, all),
        decreases message.submessages@.len() - at,
    {
        let submessage: &Submessage = &message.submessages[at];
        assert(all.skip(at as int)[0] == submessage@);
        assert(all.skip(at as int).drop_first() =~= all.skip(at + 1));
        match reassembly.take(submessage) {
            Err(error) => {
                return Step::Refused(error);
            },
            Ok(Some(serialized)) => {
                match submessage {
                    Submessage::Data { writer_id, sequence, .. } => {
                        return arrive(
                            datagram_origin,
                            &message.guid_prefix,
                            writer_id,
                            *sequence,
                            serialized.as_slice(),
                        );
                    },
                    Submessage::DataFrag { writer_id, sequence, .. } => {
                        return arrive(
                            datagram_origin,
                            &message.guid_prefix,
                            writer_id,
                            *sequence,
                            serialized.as_slice(),
                        );
                    },
                    Submessage::InfoTimestamp { .. } => {},
                }
            },
            Ok(None) => {},
        }
        at += 1;
    }
    Step::Again
}

impl DdsTransport {
    /// What the reader does with what the socket gave: it waits for more
    /// until a sample is whole, and stops where nothing came in time, where
    /// the socket failed, or where what came is refused.
    pub fn read_one(&self, reading: &mut Reading, received: &Received) -> (step: Step)
        ensures
            (final(reading)@, step@) == stepped(old(reading)@, received@),
    {
        match received {
            Received::Failed { retryable } => if *retryable && reading.first {
                Step::Nothing
            } else {
                Step::Failed
            },
            Received::Datagram { origin_uri, bytes } => {
                reading.first = false;
                match Message::decode(bytes.as_slice()) {
                    Err(error) => Step::Refused(error),
                    Ok(message) => scan(&mut reading.reassembly, origin_uri.as_str(), &message),
                }
            },
        }
    }
}

/// What a reader does once `submessage`, in a datagram from
/// `datagram_origin` behind `guid_prefix`, gave `whole`: it goes on where this
/// is nothing, stops where it is refused, and has the sample that it carries
/// where it is one, from the writer of `submessage` and with its number.
pub open spec fn follows(
    step: StepView,
    datagram_origin: Seq<char>,
    guid_prefix: Seq<u8>,
    submessage: SubmessageView,
    whole: Result<Option<Seq<u8>>, ProtocolError>,
) -> bool {
    match whole {
        Ok(None) => step is Again,
        Err(error) => step matches StepView::Refused(refusal) && refusal == error,
        Ok(Some(serialized)) => match cdr::deserialized(serialized) {
            Err(error) => step matches StepView::Refused(refusal) && refusal == error,
            Ok(carried) => step matches StepView::Taken { origin_uri, bytes } && {
                &&& bytes == carried
                &&& submessage matches SubmessageView::Data { writer_id, sequence, .. }
                    ==> origin_uri == text::origin_text(
                    datagram_origin,
                    guid_prefix,
                    writer_id,
                    sequence as int,
                )
                &&& submessage matches SubmessageView::DataFrag { writer_id, sequence, .. }
                    ==> origin_uri == text::origin_text(
                    datagram_origin,
                    guid_prefix,
                    writer_id,
                    sequence as int,
                )
            },
        },
    }
}

/// Law: a reader that goes on after some of a message's submessages takes
/// those behind them as if they stood in a message of their own, and one that
/// stops leaves them.
pub proof fn law_scan_goes_on_where_it_left_off(
    under_way: Option<Partial>,
    datagram_origin: Seq<char>,
    guid_prefix: Seq<u8>,
    earlier: Seq<SubmessageView>,
    later: Seq<SubmessageView>,
)
    ensures
        ({
            let first = scanned(under_way, datagram_origin, guid_prefix, earlier);
            let both = scanned(under_way, datagram_origin, guid_prefix, earlier + later);
            &&& first.1 is Again ==> both == scanned(first.0, datagram_origin, guid_prefix, later)
            &&& first.1 !is Again ==> both == first
            &&& earlier.len() == 0 ==> first == (under_way, StepView::Again)
        }),
    decreases earlier.len(),
{
    if earlier.len() == 0 {
        assert(earlier + later =~= later);
    } else {
        let both = earlier + later;
        assert(both[0] == earlier[0]);
        assert(both.drop_first() =~= earlier.drop_first() + later);
        law_scan_goes_on_where_it_left_off(
            reassembly::taken(under_way, earlier[0]).0,
            datagram_origin,
            guid_prefix,
            earlier.drop_first(),
            later,
        );
    }
}

/// A message of one submessage.
proof fn lemma_scan_of_one(
    under_way: Option<Partial>,
    datagram_origin: Seq<char>,
    guid_prefix: Seq<u8>,
    submessage: SubmessageView,
)
    ensures
        ({
            let (later, step) = scanned(
                under_way,
                datagram_origin,
                guid_prefix,
                seq![submessage],
            );
            let (taken, whole) = reassembly::taken(under_way, submessage);
            later == taken && follows(step, datagram_origin, guid_prefix, submessage, whole)
        }),
{
    let one = seq![submessage];
    let (later, whole) = reassembly::taken(under_way, submessage);
    assert(one[0] == submessage);
    assert(one.drop_first() =~= Seq::empty());
    assert(scanned(later, datagram_origin, guid_prefix, Seq::empty()) == (
        later,
        StepView::Again,
    ));
}

/// Law: a reader takes every submessage of a message in turn. Where none
/// before the last gives a sample or is refused, what has come afterwards is
/// what comes of taking all of them, and what the reader does is what follows
/// from the last.
#[verifier::rlimit(30)]
pub proof fn law_scan_takes_every_submessage(
    under_way: Option<Partial>,
    datagram_origin: Seq<char>,
    guid_prefix: Seq<u8>,
    submessages: Seq<SubmessageView>,
)
    requires
        submessages.len() > 0,
        forall|k: int|
            0 <= k < submessages.len() - 1 ==> reassembly::taken(
                laws::after_all(under_way, submessages.take(k)),
                #[trigger] submessages[k],
            ).1 == Ok::<_, ProtocolError>(None::<Seq<u8>>),
    ensures
        ({
            let (later, step) = scanned(under_way, datagram_origin, guid_prefix, submessages);
            &&& later == laws::after_all(under_way, submessages)
            &&& follows(
                step,
                datagram_origin,
                guid_prefix,
                submessages.last(),
                reassembly::taken(
                    laws::after_all(under_way, submessages.drop_last()),
                    submessages.last(),
                ).1,
            )
        }),
    decreases submessages.len(),
{
    let earlier = submessages.drop_last();
    let last = submessages.last();
    let before = laws::after_all(under_way, earlier);
    if earlier.len() > 0 {
        assert forall|k: int| 0 <= k < earlier.len() - 1 implies reassembly::taken(
            laws::after_all(under_way, earlier.take(k)),
            #[trigger] earlier[k],
        ).1 == Ok::<_, ProtocolError>(None::<Seq<u8>>) by {
            assert(earlier[k] == submessages[k]);
            assert(earlier.take(k) =~= submessages.take(k));
        }
        law_scan_takes_every_submessage(under_way, datagram_origin, guid_prefix, earlier);
        let k = earlier.len() - 1;
        assert(submessages[k] == earlier.last());
        assert(submessages.take(k) =~= earlier.drop_last());
    }
    assert(scanned(under_way, datagram_origin, guid_prefix, earlier) == (
        before,
        StepView::Again,
    ));
    law_scan_goes_on_where_it_left_off(
        under_way,
        datagram_origin,
        guid_prefix,
        earlier,
        seq![last],
    );
    assert(earlier + seq![last] =~= submessages);
    lemma_scan_of_one(before, datagram_origin, guid_prefix, last);
}

/// Law: a datagram that reads as a message is taken as its submessages are,
/// and one that does not is refused as its reading is and changes nothing of
/// what has come. Once any has come, silence is a failure.
pub proof fn law_datagram_is_taken_as_its_message(
    reading: ReadingView,
    origin_uri: Seq<char>,
    bytes: Seq<u8>,
)
    ensures
        ({
            let (later, step) = stepped(reading, ReceivedView::Datagram { origin_uri, bytes });
            &&& !later.first
            &&& match message::read_message(bytes) {
                Ok(message) => (later.under_way, step) == scanned(
                    reading.under_way,
                    origin_uri,
                    message.guid_prefix,
                    message.submessages,
                ),
                Err(error) => {
                    &&& later.under_way == reading.under_way
                    &&& step matches StepView::Refused(refusal) && refusal == error
                },
            }
        }),
{
}

/// Law: a failure of the socket ends the wait. It is no error where nothing
/// has come yet and asking again may help, and an error else; it changes
/// nothing of what has come.
pub proof fn law_silence_is_no_error_at_first(reading: ReadingView, retryable: bool)
    ensures
        ({
            let (later, step) = stepped(reading, ReceivedView::Failed { retryable });
            &&& later == reading
            &&& reading.first && retryable ==> step is Nothing
            &&& !reading.first || !retryable ==> step is Failed
        }),
{
}

/// Law: what a socket gave, and what a reader does next, are what their
/// fields hold, each of them.
pub proof fn law_views_keep_every_field(received: Received, step: Step)
    ensures
        match received {
            Received::Datagram { origin_uri, bytes } => received@ == (ReceivedView::Datagram {
                origin_uri: origin_uri@,
                bytes: bytes@,
            }),
            Received::Failed { retryable } => received@ == (ReceivedView::Failed { retryable }),
        },
        match step {
            Step::Again => step@ is Again,
            Step::Nothing => step@ is Nothing,
            Step::Failed => step@ is Failed,
            Step::Refused(error) => step@ == StepView::Refused(error),
            Step::Taken(arrived) => step@ == (StepView::Taken {
                origin_uri: arrived.origin_uri@,
                bytes: arrived.bytes@,
            }),
        },
{
}

} // verus!
