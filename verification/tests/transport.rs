use std::time::Duration;

use dds::{Arrived, DdsTransport, ProtocolError, Reading, Received, Sequence, Step};

const PROCESS: u32 = 0x0102_0304;
const TIMEOUT: Duration = Duration::from_millis(250);
const FROM: &str = "udp://127.0.0.1:49152";

fn datagram(bytes: &[u8]) -> Received {
    Received::Datagram {
        origin_uri: FROM.to_string(),
        bytes: bytes.to_vec(),
    }
}

/// One sample from a fresh writer to a fresh reader.
fn round(payload: &[u8]) -> Arrived {
    let loopback = DdsTransport::loopback(PROCESS, TIMEOUT);
    let mut sequence = Sequence::default();
    let sent = loopback.write(&mut sequence, payload);
    read(&loopback, &sent)
}

/// The sample that the last of `sent`, and none before it, makes whole.
fn read(reader: &DdsTransport, sent: &[Vec<u8>]) -> Arrived {
    let mut reading = Reading::default();
    for bytes in &sent[..sent.len() - 1] {
        assert_eq!(reader.read_one(&mut reading, &datagram(bytes)), Step::Again);
    }
    match reader.read_one(&mut reading, &datagram(&sent[sent.len() - 1])) {
        Step::Taken(arrived) => arrived,
        other => panic!("{other:?}"),
    }
}

/// The shapes a protocol breaks on.
fn edge_payloads() -> Vec<(&'static str, Vec<u8>)> {
    let patterned = |len: usize| -> Vec<u8> {
        (0..len)
            .map(|at| u8::try_from((at * 31 + at / 251) % 256).unwrap_or(0))
            .collect()
    };
    vec![
        ("empty", Vec::new()),
        ("one byte", vec![0x2a]),
        ("every byte", (0..=255).collect()),
        ("nul run", vec![0; 512]),
        ("high bytes", vec![0xff; 512]),
        ("crlf storm", b"\r\n".repeat(400)),
        ("udp maximum", patterned(65_507)),
        ("sixteen bits plus one", patterned(65_537)),
        ("a mebibyte", patterned(1 << 20)),
    ]
}

#[test]
fn a_loopback_round_writes_a_sample_the_reader_takes() {
    let loopback = DdsTransport::loopback(PROCESS, TIMEOUT);
    let arrived = round(b"{\"speed\": 12.5}");
    assert_eq!(arrived.bytes, b"{\"speed\": 12.5}");
    assert!(
        arrived.origin_uri.starts_with("dds://127.0.0.1:"),
        "{}",
        arrived.origin_uri
    );
    assert!(
        arrived.origin_uri.ends_with("00000102?sn=1"),
        "{}",
        arrived.origin_uri
    );
    let second = round(b"again");
    assert!(
        second.origin_uri.ends_with("?sn=1"),
        "a fresh writer each round"
    );
    assert_eq!(loopback.name(), "dds");
}

#[test]
fn the_loopback_returns_the_edges_whole() {
    for (name, bytes) in edge_payloads() {
        let arrived = round(&bytes);
        assert_eq!(arrived.bytes, bytes, "{name}");
    }
}

#[test]
fn a_writer_counts_its_samples_and_a_target_names_the_locator() {
    let reader = DdsTransport::loopback(PROCESS, TIMEOUT);
    let writer = DdsTransport::loopback(PROCESS, TIMEOUT);
    let mut sequence = Sequence::default();
    let one = writer.write(&mut sequence, b"one");
    let two = writer.write(&mut sequence, b"two");
    let first = read(&reader, &one);
    let second = read(&reader, &two);
    assert_eq!(first.bytes, b"one");
    assert_eq!(second.bytes, b"two");
    assert!(first.origin_uri.ends_with("?sn=1") && second.origin_uri.ends_with("?sn=2"));
    assert_eq!(writer.destination(Some("127.0.0.1:7411")), "127.0.0.1:7411");
    assert_eq!(writer.destination(Some("")), "127.0.0.1:0");
    assert_eq!(writer.destination(None), "127.0.0.1:0");
    let mut reading = Reading::default();
    assert_eq!(
        reader.read_one(&mut reading, &Received::Failed { retryable: true }),
        Step::Nothing,
        "nobody is not an error"
    );
}

#[test]
fn a_datagram_that_is_not_rtps_is_refused_by_the_reader() {
    let reader = DdsTransport::loopback(PROCESS, TIMEOUT);
    let mut reading = Reading::default();
    assert_eq!(
        reader.read_one(&mut reading, &datagram(b"not rtps at all")),
        Step::Refused(ProtocolError::MessageHeaderCut)
    );
}

#[test]
fn the_origin_names_the_peer_the_writer_and_the_sample() {
    let arrived = round(b"x");
    assert_eq!(
        arrived.origin_uri,
        "dds://127.0.0.1:49152/040302010008072e302e302e00000102?sn=1"
    );
}

#[test]
fn a_failure_stops_the_reader_and_silence_only_at_first() {
    let reader = DdsTransport::loopback(PROCESS, TIMEOUT);
    let mut reading = Reading::default();
    assert_eq!(
        reader.read_one(&mut reading, &Received::Failed { retryable: false }),
        Step::Failed
    );
    let sent = reader.write(&mut Sequence::default(), &[7; 100_000]);
    assert_eq!(sent.len(), 2);
    assert_eq!(reader.read_one(&mut reading, &datagram(&sent[0])), Step::Again);
    assert_eq!(
        reader.read_one(&mut reading, &Received::Failed { retryable: true }),
        Step::Failed,
        "the fragments stopped coming"
    );
}

#[test]
fn a_fragment_past_its_sample_and_a_bad_payload_stop_the_reader() {
    let reader = DdsTransport::loopback(PROCESS, TIMEOUT);
    let message = |payload: Vec<u8>| dds::Message {
        guid_prefix: [0; 12],
        submessages: vec![dds::Submessage::Data {
            writer_id: [0; 4],
            sequence: 1,
            payload,
        }],
    };
    assert_eq!(
        reader.read_one(&mut Reading::default(), &datagram(&message(vec![9; 8]).encode())),
        Step::Refused(ProtocolError::Encapsulation)
    );
    assert_eq!(
        reader.read_one(&mut Reading::default(), &datagram(&message(vec![]).encode())),
        Step::Refused(ProtocolError::EncapsulationCut)
    );
    let stray = dds::Message {
        guid_prefix: [0; 12],
        submessages: vec![dds::Submessage::DataFrag {
            writer_id: [0; 4],
            sequence: 1,
            starting: 9,
            count: 1,
            size: 1024,
            sample_size: 100,
            payload: vec![0; 10],
        }],
    };
    assert_eq!(
        reader.read_one(&mut Reading::default(), &datagram(&stray.encode())),
        Step::Refused(ProtocolError::FragmentPastSample)
    );
}

#[test]
fn datagrams_come_back_together_in_any_order() {
    let transport = DdsTransport::loopback(PROCESS, TIMEOUT);
    let payload: Vec<u8> = (0..200_000u32).map(|n| (n % 239) as u8).collect();
    let mut sent = transport.write(&mut Sequence::default(), &payload);
    sent.swap(0, 3);
    sent.swap(1, 2);
    assert_eq!(read(&transport, &sent).bytes, payload);
}

#[test]
fn datagrams_that_come_twice_do_no_harm() {
    let transport = DdsTransport::loopback(PROCESS, TIMEOUT);
    let payload: Vec<u8> = (0..150_000u32).map(|n| (n % 239) as u8).collect();
    let sent = transport.write(&mut Sequence::default(), &payload);
    assert_eq!(sent.len(), 3);
    let mut twice = Vec::new();
    for index in [2, 2, 0, 2, 0, 0, 1] {
        twice.push(sent[index].clone());
    }
    assert_eq!(read(&transport, &twice).bytes, payload);
}

#[test]
fn clones_write_under_the_numbers_of_one_count() {
    let writer = DdsTransport::loopback(PROCESS, TIMEOUT);
    let others = [writer.clone(), writer.clone().timing_out_after(Duration::from_secs(1))];
    let mut sequence = Sequence::default();
    for number in 1..=6usize {
        let sent = others[number % 2].write(&mut sequence, b"x");
        let arrived = read(&writer, &sent);
        assert!(arrived.origin_uri.ends_with(&format!("?sn={number}")));
    }
    assert_eq!(sequence.next_sequence(), 7);
}

#[test]
fn a_transport_keeps_what_it_was_given() {
    let transport = DdsTransport::new(7, "0.0.0.0:7411".to_string(), "10.0.0.1:7411".to_string());
    assert_eq!(transport.bind_address(), "0.0.0.0:7411");
    assert_eq!(transport.locator(), "10.0.0.1:7411");
    assert_eq!(transport.timeout(), Duration::from_secs(5));
    assert_eq!(&transport.guid_prefix()[..4], &[7, 0, 0, 0]);
    let copy = transport.clone().timing_out_after(TIMEOUT);
    assert_eq!(copy.timeout(), TIMEOUT);
    assert_eq!(copy.bind_address(), "0.0.0.0:7411");
    assert_eq!(copy.locator(), "10.0.0.1:7411");
    assert_eq!(copy.guid_prefix(), transport.guid_prefix());
    assert_eq!(transport.timeout(), Duration::from_secs(5));
}

#[test]
fn a_guid_prefix_folds_the_process_and_the_bind_address() {
    assert_eq!(
        dds::transport::guid_prefix(PROCESS, b"127.0.0.1:0"),
        [4, 3, 2, 1, 0x00, 0x08, 0x07, 0x2e, 0x30, 0x2e, 0x30, 0x2e]
    );
    assert_ne!(
        dds::transport::guid_prefix(1, b"127.0.0.1:0"),
        dds::transport::guid_prefix(2, b"127.0.0.1:0")
    );
    let accented = DdsTransport::new(0, "\u{e9}".to_string(), String::new());
    assert_eq!(
        accented.guid_prefix(),
        [0, 0, 0, 0, 0xc3, 0xa9, 0, 0, 0, 0, 0, 0],
        "the bytes of the address, not its characters"
    );
}

#[test]
fn numbers_follow_each_other_from_one() {
    let mut sequence = Sequence::default();
    assert!(!sequence.is_spent());
    assert_eq!(sequence.next_sequence(), 1);
    assert_eq!(sequence.next_sequence(), 2);
    assert_eq!(sequence.next_sequence(), 3);
}

#[test]
fn texts_are_written_out() {
    assert_eq!(dds::text::hex(&[]), "");
    assert_eq!(dds::text::hex(&[0x00, 0x09, 0x0a, 0xf0, 0xff]), "00090af0ff");
    assert_eq!(dds::text::decimal(0), "0");
    assert_eq!(dds::text::decimal(10), "10");
    assert_eq!(dds::text::decimal(i64::MAX), "9223372036854775807");
    assert_eq!(dds::text::decimal(i64::MIN), "-9223372036854775808");
    assert_eq!(dds::text::peer("udp://127.0.0.1:1"), "127.0.0.1:1");
    assert_eq!(dds::text::peer("udp://udp://a"), "a", "as often as it stands there");
    assert_eq!(dds::text::peer("tcp://a"), "tcp://a");
    assert_eq!(dds::text::peer("udp:/"), "udp:/");
    assert_eq!(dds::text::peer("udp://"), "");
}

#[test]
fn each_refusal_has_its_words() {
    let words = [
        (ProtocolError::MessageHeaderCut, "a message cut off inside its header"),
        (ProtocolError::NotRtps, "not an RTPS 2 message"),
        (ProtocolError::SubmessageHeaderCut, "a submessage cut off inside its header"),
        (ProtocolError::SubmessageCut, "a submessage cut off before its length"),
        (ProtocolError::BigEndian, "a big-endian submessage this crate does not read"),
        (ProtocolError::DataWithoutData, "a DATA without data"),
        (ProtocolError::EncapsulationCut, "a payload cut off inside its encapsulation"),
        (ProtocolError::Encapsulation, "an encapsulation this crate does not read"),
        (ProtocolError::LengthPastPayload, "a length past the payload"),
        (ProtocolError::FragmentPastSample, "a fragment past the sample's size"),
    ];
    for (error, text) in words {
        assert_eq!(error.message(), text);
    }
}

#[test]
fn origins_differ_where_writers_or_numbers_do() {
    let base = dds::text::origin(FROM, &[1; 12], &[2; 4], 1);
    assert_eq!(
        base,
        "dds://127.0.0.1:49152/01010101010101010101010102020202?sn=1"
    );
    assert_ne!(base, dds::text::origin(FROM, &[3; 12], &[2; 4], 1));
    assert_ne!(base, dds::text::origin(FROM, &[1; 12], &[3; 4], 1));
    assert_ne!(base, dds::text::origin(FROM, &[1; 12], &[2; 4], -1));
    assert_ne!(base, dds::text::origin(FROM, &[1; 12], &[2; 4], 11));
}

#[test]
fn the_datagrams_of_a_sample_are_its_messages() {
    let transport = DdsTransport::loopback(PROCESS, TIMEOUT);
    let payload = vec![9; 70_000];
    let sent = transport.write(&mut Sequence::default(), &payload);
    let expected: Vec<Vec<u8>> = dds::rtps::messages(
        transport.guid_prefix(),
        [0, 0, 1, 2],
        1,
        &dds::rtps::serialize(&payload),
    )
    .iter()
    .map(|message| message.encode())
    .collect();
    assert_eq!(sent.len(), 2);
    assert_eq!(sent, expected);
}
