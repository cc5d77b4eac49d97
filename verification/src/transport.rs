//! A writer at one locator, or a reader on one: what it sends for a sample,
//! and what it makes of each datagram that arrives.

use std::time::Duration;

use vstd::prelude::*;

use crate::le;
use crate::rtps::cdr;
use crate::rtps::message::{Message, MessageView, WRITER_WITH_KEY};
use crate::rtps::sample;

verus! {

/// A duration of `secs` whole seconds.
pub uninterp spec fn whole_seconds(secs: u64) -> Duration;

/// `Duration::from_secs` of the standard library gives a duration that its
/// argument alone decides. Nothing more of that duration is claimed here: it
/// is stored and handed back, never computed with.
pub assume_specification[ Duration::from_secs ](secs: u64) -> (duration: Duration)
    ensures
        duration == whole_seconds(secs),
;

/// A writer at one locator, or a reader on one.
#[derive(Debug)]
pub struct DdsTransport {
    bind: String,
    locator: String,
    guid_prefix: [u8; 12],
    timeout: Duration,
}

/// What a [`DdsTransport`] holds.
pub struct DdsTransportView {
    pub bind: Seq<char>,
    pub locator: Seq<char>,
    pub guid_prefix: Seq<u8>,
    pub timeout: Duration,
}

impl View for DdsTransport {
    type V = DdsTransportView;

    closed spec fn view(&self) -> DdsTransportView {
        DdsTransportView {
            bind: self.bind@,
            locator: self.locator@,
            guid_prefix: self.guid_prefix@,
            timeout: self.timeout,
        }
    }
}

impl Clone for DdsTransport {
    fn clone(&self) -> (transport: Self)
        ensures
            transport@ == self@,
    {
        DdsTransport {
            bind: self.bind.clone(),
            locator: self.locator.clone(),
            guid_prefix: self.guid_prefix,
            timeout: self.timeout,
        }
    }
}

/// The exclusive or of every eighth of `bytes`, from number `lane` on.
pub open spec fn folded(bytes: Seq<u8>, lane: int) -> u8
    decreases bytes.len(),
{
    if bytes.len() == 0 {
        0
    } else if (bytes.len() - 1) % 8 == lane {
        folded(bytes.drop_last(), lane) ^ bytes.last()
    } else {
        folded(bytes.drop_last(), lane)
    }
}

/// The GUID prefix of a process bound at an address: four bytes from the
/// process, and the address folded into eight.
pub open spec fn guid_prefix_of(process: u32, bind: Seq<u8>) -> Seq<u8> {
    le::le_bytes(process as nat, 4) + Seq::new(8, |lane: int| folded(bind, lane))
}

/// The GUID prefix drawn from a process and the bytes of its bind address.
pub fn guid_prefix(process: u32, bind: &[u8]) -> (prefix: [u8; 12])
    ensures
        prefix@ == guid_prefix_of(process, bind@),
{
    let mut lanes: [u8; 8] = [0, 0, 0, 0, 0, 0, 0, 0];
    let mut at: usize = 0;
    while at < bind.len()
        invariant
            at <= bind@.len(),
            lanes@ == Seq::new(8, |lane: int| folded(bind@.take(at as int), lane)),
        decreases bind@.len() - at,
    {
        let lane: usize = at % 8;
        lanes[lane] = lanes[lane] ^ bind[at];
        assert(bind@.take(at + 1).drop_last() =~= bind@.take(at as int));
        at += 1;
        assert(lanes@ =~= Seq::new(8, |lane: int| folded(bind@.take(at as int), lane)));
    }
    assert(bind@.take(at as int) =~= bind@);
    proof {
        le::lemma_le_bytes_unfold(process as nat);
    }
    let prefix: [u8; 12] = [
        (process % 256) as u8,
        (process / 256 % 256) as u8,
        (process / 0x1_0000 % 256) as u8,
        (process / 0x100_0000) as u8,
        lanes[0],
        lanes[1],
        lanes[2],
        lanes[3],
        lanes[4],
        lanes[5],
        lanes[6],
        lanes[7],
    ];
    assert(prefix@ =~= guid_prefix_of(process, bind@));
    prefix
}

/// Law: a GUID prefix has twelve bytes, and no two processes share one,
/// wherever they are bound.
pub proof fn law_guid_prefix_tells_processes_apart(
    process: u32,
    bind: Seq<u8>,
    other_process: u32,
    other_bind: Seq<u8>,
)
    ensures
        guid_prefix_of(process, bind).len() == 12,
        guid_prefix_of(process, bind) == guid_prefix_of(other_process, other_bind) ==> process
            == other_process,
{
    let prefix = guid_prefix_of(process, bind);
    let other = guid_prefix_of(other_process, other_bind);
    le::lemma_le_bytes_len(process as nat, 4);
    le::lemma_le_bytes_len(other_process as nat, 4);
    le::law_le_reads_back(process as nat);
    le::law_le_reads_back(other_process as nat);
    assert(prefix.take(4) =~= le::le_bytes(process as nat, 4));
    assert(other.take(4) =~= le::le_bytes(other_process as nat, 4));
}

/// The numbers a writer gives its samples.
#[derive(Debug)]
pub struct Sequence {
    next: i64,
}

impl View for Sequence {
    type V = i64;

    /// The number of the next sample.
    closed spec fn view(&self) -> i64 {
        self.next
    }
}

impl Default for Sequence {
    /// The first sample is number one.
    fn default() -> (sequence: Self)
        ensures
            sequence@ == 1,
    {
        Sequence { next: 1 }
    }
}

/// From `before` on, `given` is the number that is given next, and `after`
/// the one that is given after it.
pub open spec fn counts(before: i64, given: i64, after: i64) -> bool {
    &&& given == before
    &&& after == before + 1
}

impl Sequence {
    /// Whether the last number there is comes next.
    pub fn is_spent(&self) -> (spent: bool)
        ensures
            spent == (self@ == i64::MAX),
    {
        self.next == i64::MAX
    }

    /// The number of the next sample; the one after it is one more.
    pub fn next_sequence(&mut self) -> (next: i64)
        requires
            old(self)@ < i64::MAX,
        ensures
            counts(old(self)@, next, final(self)@),
    {
        let next: i64 = self.next;
        self.next = next + 1;
        next
    }
}

/// The datagrams that carry `bytes` as sample `sequence`.
pub open spec fn datagrams(guid_prefix: Seq<u8>, sequence: i64, bytes: Seq<u8>) -> Seq<Seq<u8>> {
    sample::sample_messages(
        guid_prefix,
        WRITER_WITH_KEY@,
        sequence,
        cdr::serialized(bytes),
    ).map_values(|message: MessageView| message.wire())
}

/// Law: samples are numbered from one, without a gap, and no two alike. From
/// a fresh count, whoever asks, the first to be given a number is given one,
/// the next two, and so on: `counter` holds the count before each call and
/// after the last, and `given` what each call gave.
pub proof fn law_samples_are_numbered_from_one(counter: Seq<i64>, given: Seq<i64>)
    requires
        counter.len() == given.len() + 1,
        counter[0] == 1,
        forall|k: int|
            #![trigger given[k]]
            0 <= k < given.len() ==> counts(counter[k], given[k], counter[k + 1]),
    ensures
        forall|k: int| 0 <= k < counter.len() ==> #[trigger] counter[k] == k + 1,
        forall|k: int| 0 <= k < given.len() ==> #[trigger] given[k] == k + 1,
        given.no_duplicates(),
    decreases given.len(),
{
    if given.len() > 0 {
        let (earlier, earlier_given) = (counter.drop_last(), given.drop_last());
        assert forall|k: int| #![trigger earlier_given[k]] 0 <= k < earlier_given.len() implies
            counts(earlier[k], earlier_given[k], earlier[k + 1]) by {
            assert(counts(counter[k], given[k], counter[k + 1]));
        }
        law_samples_are_numbered_from_one(earlier, earlier_given);
        let last = given.len() - 1;
        assert(counts(counter[last], given[last], counter[last + 1]));
        assert(earlier[last] == last + 1);
        assert forall|k: int| 0 <= k < counter.len() implies #[trigger] counter[k] == k + 1 by {
            if k < last + 1 {
                assert(earlier[k] == k + 1);
            }
        }
        assert forall|k: int| 0 <= k < given.len() implies #[trigger] given[k] == k + 1 by {
            if k < last {
                assert(earlier_given[k] == k + 1);
            }
        }
    }
}

/// Law: what a writer and its clones write, on one count from its beginning,
/// goes out under the numbers one, two and so on, in the order in which it is
/// written: `samples` holds what each call writes, and `sent` what it sends.
pub proof fn law_written_samples_are_numbered_from_one(
    guid_prefix: Seq<u8>,
    counter: Seq<i64>,
    samples: Seq<Seq<u8>>,
    sent: Seq<Seq<Seq<u8>>>,
)
    requires
        counter.len() == samples.len() + 1,
        sent.len() == samples.len(),
        counter[0] == 1,
        forall|k: int|
            #![trigger samples[k]]
            0 <= k < samples.len() ==> {
                &&& sent[k] == datagrams(guid_prefix, counter[k], samples[k])
                &&& counts(counter[k], counter[k], counter[k + 1])
            },
    ensures
        forall|k: int|
            0 <= k < samples.len() ==> #[trigger] sent[k] == datagrams(
                guid_prefix,
                (k + 1) as i64,
                samples[k],
            ),
{
    let given = counter.drop_last();
    assert forall|k: int| #![trigger given[k]] 0 <= k < given.len() implies counts(
        counter[k],
        given[k],
        counter[k + 1],
    ) by {
        assert(sent[k] == datagrams(guid_prefix, counter[k], samples[k]));
    }
    law_samples_are_numbered_from_one(counter, given);
    assert forall|k: int| 0 <= k < samples.len() implies #[trigger] sent[k] == datagrams(
        guid_prefix,
        (k + 1) as i64,
        samples[k],
    ) by {
        assert(counter[k] == k + 1);
    }
}

impl DdsTransport {
    /// Bound at `bind`, writing to the reader at `locator`, with a GUID
    /// prefix drawn from the process and the bind address. A sample whose
    /// fragments stop coming is given up after five seconds.
    #[must_use]
    pub fn new(process: u32, bind: String, locator: String) -> (transport: Self)
        ensures
            transport@ == (DdsTransportView {
                bind: bind@,
                locator: locator@,
                guid_prefix: guid_prefix_of(process, vstd::utf8::encode_utf8(bind@)),
                timeout: whole_seconds(5),
            }),
    {
        let guid_prefix: [u8; 12] = guid_prefix(process, bind.as_str().as_bytes());
        DdsTransport { bind, locator, guid_prefix, timeout: Duration::from_secs(5) }
    }

    /// Give up on a sample whose fragments stop coming for `timeout`.
    #[must_use]
    pub fn timing_out_after(self, timeout: Duration) -> (transport: Self)
        ensures
            transport@ == (DdsTransportView { timeout, ..self@ }),
    {
        DdsTransport { timeout, ..self }
    }

    /// Both ends on this machine: an ephemeral local port each, and `timeout`
    /// on the reader.
    #[must_use]
    pub fn loopback(process: u32, timeout: Duration) -> (transport: Self)
        ensures
            transport@ == (DdsTransportView {
                bind: "127.0.0.1:0"@,
                locator: "127.0.0.1:0"@,
                guid_prefix: guid_prefix_of(process, vstd::utf8::encode_utf8("127.0.0.1:0"@)),
                timeout,
            }),
    {
        DdsTransport::new(
            process,
            "127.0.0.1:0".to_owned(),
            "127.0.0.1:0".to_owned(),
        ).timing_out_after(timeout)
    }

    /// What the transport is called.
    #[must_use]
    pub fn name(&self) -> (name: &'static str)
        ensures
            name@ == "dds"@,
    {
        "dds"
    }

    /// The address that the reader's socket is bound at.
    #[must_use]
    pub fn bind_address(&self) -> (bind: &str)
        ensures
            bind@ == self@.bind,
    {
        self.bind.as_str()
    }

    /// The reader that is written to where no other is named.
    #[must_use]
    pub fn locator(&self) -> (locator: &str)
        ensures
            locator@ == self@.locator,
    {
        self.locator.as_str()
    }

    /// Who the writer is, on this machine.
    #[must_use]
    pub fn guid_prefix(&self) -> (prefix: [u8; 12])
        ensures
            prefix@ == self@.guid_prefix,
    {
        self.guid_prefix
    }

    /// How long the next datagram is waited for.
    #[must_use]
    pub fn timeout(&self) -> (timeout: Duration)
        ensures
            timeout == self@.timeout,
    {
        self.timeout
    }

    /// The reader to write to: the one that a target names, or the
    /// transport's own where it names none.
    #[must_use]
    pub fn destination<'a>(&'a self, named: Option<&'a str>) -> (locator: &'a str)
        ensures
            locator@ == match named {
                Some(named) if named@.len() > 0 => named@,
                _ => self@.locator,
            },
    {
        match named {
            Some(named) => if named.is_empty() {
                self.locator.as_str()
            } else {
                named
            },
            None => self.locator.as_str(),
        }
    }

    /// The datagrams that carry `bytes` as the writer's next sample, in the
    /// order in which they are sent.
    #[must_use]
    pub fn write(&self, sequence: &mut Sequence, bytes: &[u8]) -> (sent: Vec<Vec<u8>>)
        requires
            old(sequence)@ < i64::MAX,
        ensures
            sent@.map_values(|datagram: Vec<u8>| datagram@) == datagrams(
                self@.guid_prefix,
                old(sequence)@,
                bytes@,
            ),
            counts(old(sequence)@, old(sequence)@, final(sequence)@),
    {
        let number: i64 = sequence.next_sequence();
        let serialized: Vec<u8> = cdr::serialize(bytes);
        let messages: Vec<Message> = sample::messages(
            self.guid_prefix,
            WRITER_WITH_KEY,
            number,
            serialized.as_slice(),
        );
        let ghost expected = datagrams(self@.guid_prefix, number, bytes@);
        let ghost views = messages@.map_values(|message: Message| message@);
        let mut sent: Vec<Vec<u8>> = Vec::new();
        let mut at: usize = 0;
        while at < messages.len()
            invariant
                at <= messages@.len(),
                at == sent@.len(),
                views == messages@.map_values(|message: Message| message@),
                expected == views.map_values(|message: MessageView| message.wire()),
                forall|k: int| 0 <= k < at ==> (#[trigger] sent@[k])@ == expected[k],
            decreases messages@.len() - at,
        {
            assert(views[at as int] == messages@[at as int]@);
            sent.push(messages[at].encode());
            at += 1;
        }
        assert(sent@.map_values(|datagram: Vec<u8>| datagram@) =~= expected);
        sent
    }
}

/// Law: a GUID prefix starts with the process, and behind it each byte of the
/// bind address is folded, by exclusive or, into one of eight bytes in turn;
/// of an empty address they are zero.
pub proof fn law_guid_prefix_folds_the_address(process: u32, bind: Seq<u8>, byte: u8)
    ensures
        ({
            let shorter = guid_prefix_of(process, bind);
            let longer = guid_prefix_of(process, bind.push(byte));
            let at = 4 + bind.len() % 8;
            &&& shorter.len() == 12 && longer.len() == 12
            &&& le::u32_at(shorter, 0) == process
            &&& longer[at as int] == shorter[at as int] ^ byte
            &&& forall|k: int| 0 <= k < 12 && k != at ==> #[trigger] longer[k] == shorter[k]
            &&& bind.len() == 0 ==> forall|k: int| 4 <= k < 12 ==> #[trigger] shorter[k] == 0
        }),
{
    let shorter = guid_prefix_of(process, bind);
    let longer = guid_prefix_of(process, bind.push(byte));
    le::law_first_byte_counts_ones(process as nat);
    let start = le::le_bytes(process as nat, 4);
    assert(shorter[0] == start[0] && shorter[1] == start[1] && shorter[2] == start[2]
        && shorter[3] == start[3]);
    assert(bind.push(byte).drop_last() =~= bind);
    assert(bind.push(byte).last() == byte);
}

/// Law: what carries a sample is the bytes of its messages, from the writer
/// 00 00 01 02, one datagram for each and in their order.
pub proof fn law_datagrams_are_the_messages(
    guid_prefix: Seq<u8>,
    sequence: i64,
    bytes: Seq<u8>,
    index: int,
)
    ensures
        ({
            let sent = datagrams(guid_prefix, sequence, bytes);
            let messages = sample::sample_messages(
                guid_prefix,
                seq![0u8, 0u8, 1u8, 2u8],
                sequence,
                cdr::serialized(bytes),
            );
            &&& sent.len() == messages.len()
            &&& 0 <= index < sent.len() ==> sent[index] == messages[index].wire()
        }),
{
    assert(WRITER_WITH_KEY@ =~= seq![0u8, 0u8, 1u8, 2u8]);
}

/// Law: a transport has the addresses it was made with, and a GUID prefix
/// from the process and the bytes of the bind address.
pub proof fn law_transport_has_what_it_was_made_with(
    process: u32,
    bind: String,
    locator: String,
    made: DdsTransport,
)
    requires
        call_ensures(DdsTransport::new, (process, bind, locator), made),
    ensures
        made@.bind == bind@,
        made@.locator == locator@,
        le::u32_at(made@.guid_prefix, 0) == process,
        made@.guid_prefix == guid_prefix_of(process, vstd::utf8::encode_utf8(bind@)),
{
    law_guid_prefix_folds_the_address(process, vstd::utf8::encode_utf8(bind@), 0);
}

/// Law: another timeout is all that changes where a transport is given one.
pub proof fn law_timeout_is_all_that_changes(
    transport: DdsTransport,
    timeout: Duration,
    changed: DdsTransport,
)
    requires
        call_ensures(DdsTransport::timing_out_after, (transport, timeout), changed),
    ensures
        changed@.timeout == timeout,
        changed@.bind == transport@.bind,
        changed@.locator == transport@.locator,
        changed@.guid_prefix == transport@.guid_prefix,
{
}

/// Law: a sample goes to the reader that is named, whatever its name, and to
/// the transport's own where none is, or one without a name.
pub proof fn law_named_reader_is_written_to(
    transport: &DdsTransport,
    named: &str,
    locator: &str,
    own: &str,
)
    requires
        call_ensures(DdsTransport::destination, (transport, Some(named)), locator),
        call_ensures(DdsTransport::destination, (transport, None::<&str>), own),
    ensures
        named@.len() > 0 ==> locator@ == named@,
        named@.len() == 0 ==> locator@ == transport@.locator,
        own@ == transport@.locator,
{
}

} // verus!
