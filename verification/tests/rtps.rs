use dds::rtps::{
    deserialize, messages, serialize, Message, Reassembly, Submessage, DATA, INFO_TS, MAX_DATAGRAM,
    MAX_DATA_PAYLOAD, WRITER_WITH_KEY,
};
use dds::ProtocolError;

const PREFIX: [u8; 12] = [1, 2, 3, 4, 5, 6, 7, 8, 9, 10, 11, 12];

#[test]
fn a_small_sample_is_one_data_submessage_that_reads_back() {
    let serialized = serialize(b"hello");
    assert_eq!(&serialized[..8], &[0, 1, 0, 0, 5, 0, 0, 0]);
    assert_eq!(serialized.len(), 16, "padded to four");
    assert_eq!(deserialize(&serialized).expect("deserialize"), b"hello");
    let sent = messages(PREFIX, WRITER_WITH_KEY, 7, &serialized);
    assert_eq!(sent.len(), 1);
    let bytes = sent[0].encode();
    assert_eq!(&bytes[..8], b"RTPS\x02\x03\x00\x00");
    assert_eq!(&bytes[20..24], &[INFO_TS, 0x01, 8, 0]);
    assert_eq!(&bytes[32..36], &[DATA, 0x05, 36, 0]);
    let read = Message::decode(&bytes).expect("decode");
    assert_eq!(read, sent[0]);
    let mut reassembly = Reassembly::default();
    assert_eq!(reassembly.take(&read.submessages[0]).expect("stamp"), None);
    let whole = reassembly.take(&read.submessages[1]).expect("data");
    assert_eq!(whole, Some(serialized));
}

#[test]
fn a_large_sample_is_fragments_that_come_back_together() {
    let sample: Vec<u8> = (0..200_000u32)
        .map(|n| u8::try_from(n % 251).unwrap_or(0))
        .collect();
    let serialized = serialize(&sample);
    let sent = messages(PREFIX, WRITER_WITH_KEY, 8, &serialized);
    assert_eq!(sent.len(), 4, "200 008 bytes in runs of 64 512");
    assert!(sent.iter().all(|m| m.encode().len() <= MAX_DATAGRAM));
    let mut reassembly = Reassembly::default();
    let mut whole = None;
    for message in &sent {
        let read = Message::decode(&message.encode()).expect("decode");
        assert_eq!(read, *message);
        for submessage in &read.submessages {
            assert!(whole.is_none(), "not before the last");
            whole = reassembly.take(submessage).expect("fragment");
        }
    }
    assert_eq!(whole.as_deref(), Some(serialized.as_slice()));
    assert_eq!(deserialize(&serialized).expect("deserialize"), sample);
    let Submessage::DataFrag {
        starting, count, ..
    } = &sent[1].submessages[1]
    else {
        panic!("a fragment run");
    };
    assert_eq!((*starting, *count), (64, 63));
}

#[test]
fn what_is_not_a_message_is_refused_and_the_unknown_is_skipped() {
    let bytes = messages(PREFIX, WRITER_WITH_KEY, 1, &serialize(b"x"))[0].encode();
    assert!(Message::decode(&bytes[..19]).is_err(), "cut off");
    assert!(
        Message::decode(&bytes[..30]).is_err(),
        "inside a submessage"
    );
    let mut bad = bytes.clone();
    bad[4] = 1;
    assert!(Message::decode(&bad).is_err(), "RTPS 1");
    let mut bad = bytes.clone();
    bad[21] = 0x00;
    assert!(Message::decode(&bad).is_err(), "big-endian");
    let mut heartbeat = bytes[..20].to_vec();
    heartbeat.extend_from_slice(&[0x07, 0x01, 4, 0, 0, 0, 0, 0]);
    let read = Message::decode(&heartbeat).expect("skipped");
    assert!(read.submessages.is_empty());
    assert!(
        deserialize(&[0, 1, 0, 0, 9, 0, 0, 0, 1]).is_err(),
        "length past"
    );
    assert!(
        deserialize(&[0, 0, 0, 0, 0, 0, 0, 0]).is_err(),
        "big-endian CDR"
    );
    let stray = Submessage::DataFrag {
        writer_id: WRITER_WITH_KEY,
        sequence: 2,
        starting: 9,
        count: 1,
        size: 1024,
        sample_size: 100,
        payload: vec![0; 10],
    };
    assert!(Reassembly::default().take(&stray).is_err(), "past the size");
}

fn fragment(sequence: i64, starting: u32, sample_size: u32, payload: &[u8]) -> Submessage {
    Submessage::DataFrag {
        writer_id: WRITER_WITH_KEY,
        sequence,
        starting,
        count: 1,
        size: 4,
        sample_size,
        payload: payload.to_vec(),
    }
}

#[test]
fn every_field_has_its_place_on_the_wire() {
    let message = Message {
        guid_prefix: PREFIX,
        submessages: vec![
            Submessage::InfoTimestamp {
                seconds: -2,
                fraction: 0x0403_0201,
            },
            Submessage::DataFrag {
                writer_id: [9, 8, 7, 6],
                sequence: 0x0102_0304_0506_0708,
                starting: 0x1112_1314,
                count: 0x2122,
                size: 0x3132,
                sample_size: 0x4142_4344,
                payload: vec![0xaa, 0xbb],
            },
            Submessage::Data {
                writer_id: [1, 2, 3, 4],
                sequence: -1,
                payload: vec![0xcc],
            },
        ],
    };
    let mut expected = b"RTPS\x02\x03\x00\x00".to_vec();
    expected.extend_from_slice(&PREFIX);
    expected.extend_from_slice(&[0x09, 0x01, 8, 0, 0xfe, 0xff, 0xff, 0xff, 1, 2, 3, 4]);
    expected.extend_from_slice(&[0x16, 0x01, 34, 0, 0, 0, 28, 0, 0, 0, 0, 0, 9, 8, 7, 6]);
    expected.extend_from_slice(&[4, 3, 2, 1, 8, 7, 6, 5, 0x14, 0x13, 0x12, 0x11]);
    expected.extend_from_slice(&[0x22, 0x21, 0x32, 0x31, 0x44, 0x43, 0x42, 0x41, 0xaa, 0xbb]);
    expected.extend_from_slice(&[0x15, 0x05, 21, 0, 0, 0, 16, 0, 0, 0, 0, 0, 1, 2, 3, 4]);
    expected.extend_from_slice(&[255, 255, 255, 255, 255, 255, 255, 255, 0xcc]);
    assert_eq!(message.encode(), expected);
    assert_eq!(Message::decode(&expected), Ok(message));
}

#[test]
fn a_sequence_number_reads_back_at_its_limits() {
    for sequence in [0, 1, -1, i64::MAX, i64::MIN, 1 << 32, -(1 << 32) - 1] {
        let bytes = dds::rtps::message::sequence_bytes(sequence);
        assert_eq!(&bytes[..4], &((sequence >> 32) as i32).to_le_bytes());
        assert_eq!(&bytes[4..], &(sequence as u32).to_le_bytes());
        assert_eq!(dds::rtps::message::sequence_of(&bytes), sequence);
    }
}

#[test]
fn a_body_too_long_for_its_length_field_is_cut_short_there() {
    let message = Message {
        guid_prefix: PREFIX,
        submessages: vec![Submessage::Data {
            writer_id: WRITER_WITH_KEY,
            sequence: 1,
            payload: vec![0; 65_516],
        }],
    };
    let bytes = message.encode();
    assert_eq!(&bytes[20..24], &[DATA, 0x05, 0xff, 0xff]);
    assert_eq!(bytes.len(), 20 + 4 + 20 + 65_516);
    assert_ne!(Message::decode(&bytes), Ok(message));
}

#[test]
fn each_refusal_of_a_message_has_its_input() {
    let bytes = messages(PREFIX, WRITER_WITH_KEY, 1, &serialize(b"x"))[0].encode();
    assert_eq!(Message::decode(&[]), Err(ProtocolError::MessageHeaderCut));
    assert_eq!(Message::decode(&bytes[..19]), Err(ProtocolError::MessageHeaderCut));
    assert!(Message::decode(&bytes[..20]).is_ok(), "no submessages");
    let mut bad = bytes.clone();
    bad[3] = b'X';
    assert_eq!(Message::decode(&bad), Err(ProtocolError::NotRtps));
    let mut bad = bytes.clone();
    bad[4] = 1;
    assert_eq!(Message::decode(&bad), Err(ProtocolError::NotRtps));
    let mut later = bytes.clone();
    later[5] = 9;
    later[6] = 1;
    assert!(Message::decode(&later).is_ok(), "any minor version and vendor");
    assert_eq!(Message::decode(&bytes[..22]), Err(ProtocolError::SubmessageHeaderCut));
    assert_eq!(Message::decode(&bytes[..30]), Err(ProtocolError::SubmessageCut));
    assert_eq!(
        Message::decode(&bytes[..bytes.len() - 1]),
        Err(ProtocolError::SubmessageCut)
    );
    let mut bad = bytes.clone();
    bad[21] = 0x00;
    assert_eq!(Message::decode(&bad), Err(ProtocolError::BigEndian));
    let mut bad = bytes.clone();
    bad[33] = 0x01;
    assert_eq!(Message::decode(&bad), Err(ProtocolError::DataWithoutData));
    for id in [INFO_TS, DATA, 0x16] {
        assert_eq!(
            Submessage::decode(id, 0x05, &[0; 7]),
            Err(ProtocolError::SubmessageHeaderCut)
        );
    }
    assert_eq!(
        Submessage::decode(DATA, 0x01, &[0; 19]),
        Err(ProtocolError::SubmessageHeaderCut),
        "the length before the flag"
    );
    assert_eq!(Submessage::decode(0x07, 0x01, &[]), Ok(None));
    assert_eq!(
        Submessage::decode(0x07, 0x00, &[]),
        Err(ProtocolError::BigEndian),
        "before the identifier"
    );
}

#[test]
fn an_unknown_submessage_is_skipped_between_others() {
    let sent = messages(PREFIX, WRITER_WITH_KEY, 1, &serialize(b"x"));
    let bytes = sent[0].encode();
    let mut longer = bytes[..32].to_vec();
    longer.extend_from_slice(&[0x07, 0x01, 3, 0, 0xff, 0xff, 0xff]);
    longer.extend_from_slice(&bytes[32..]);
    assert_eq!(Message::decode(&longer).as_ref(), Ok(&sent[0]));
}

#[test]
fn a_length_of_zero_runs_to_the_end() {
    let sent = messages(PREFIX, WRITER_WITH_KEY, 1, &serialize(b"x"));
    let mut bytes = sent[0].encode();
    bytes[34] = 0;
    bytes[35] = 0;
    assert_eq!(Message::decode(&bytes).as_ref(), Ok(&sent[0]));
    bytes[32] = 0x07;
    let read = Message::decode(&bytes).expect("decode");
    assert_eq!(read.submessages, sent[0].submessages[..1]);
}

#[test]
fn each_refusal_of_a_payload_has_its_input() {
    assert_eq!(deserialize(&[0, 1, 0, 0, 0, 0, 0]), Err(ProtocolError::EncapsulationCut));
    assert_eq!(
        deserialize(&[0, 0, 0, 0, 0, 0, 0, 0]),
        Err(ProtocolError::Encapsulation)
    );
    assert_eq!(
        deserialize(&[0, 1, 0, 0, 9, 0, 0, 0, 1]),
        Err(ProtocolError::LengthPastPayload)
    );
    assert_eq!(deserialize(&[0, 1, 0, 0, 1, 0, 0, 0, 7, 8, 9]), Ok(vec![7]));
}

#[test]
fn a_payload_is_padded_to_four_with_zeros() {
    assert_eq!(serialize(&[]), [0, 1, 0, 0, 0, 0, 0, 0]);
    assert_eq!(serialize(&[9]), [0, 1, 0, 0, 1, 0, 0, 0, 9, 0, 0, 0]);
    assert_eq!(serialize(&[9, 9, 9]), [0, 1, 0, 0, 3, 0, 0, 0, 9, 9, 9, 0]);
    assert_eq!(
        serialize(&[9, 9, 9, 9]),
        [0, 1, 0, 0, 4, 0, 0, 0, 9, 9, 9, 9]
    );
}

#[test]
fn the_largest_payload_of_one_datagram_fills_it() {
    assert_eq!(MAX_DATA_PAYLOAD, 65_451);
    let whole = messages(PREFIX, WRITER_WITH_KEY, 1, &vec![7; MAX_DATA_PAYLOAD]);
    assert_eq!(whole.len(), 1);
    assert_eq!(whole[0].encode().len(), MAX_DATAGRAM);
    let split = messages(PREFIX, WRITER_WITH_KEY, 1, &vec![7; MAX_DATA_PAYLOAD + 1]);
    assert_eq!(split.len(), 2);
    let Submessage::DataFrag { starting, count, size, sample_size, payload, .. } =
        &split[1].submessages[1]
    else {
        panic!("a fragment run");
    };
    assert_eq!((*starting, *count, *size, *sample_size), (64, 1, 1024, 65_452));
    assert_eq!(payload.len(), 65_452 - 64_512);
}

#[test]
fn fragments_come_back_together_in_any_order() {
    let sample: Vec<u8> = (0..150_000u32).map(|n| (n % 241) as u8).collect();
    let serialized = serialize(&sample);
    let sent = messages(PREFIX, WRITER_WITH_KEY, 8, &serialized);
    assert_eq!(sent.len(), 3);
    for order in [[0, 1, 2], [2, 1, 0], [1, 2, 0], [2, 0, 1]] {
        let mut reassembly = Reassembly::default();
        assert_eq!(reassembly.take(&sent[order[0]].submessages[1]), Ok(None));
        assert_eq!(reassembly.take(&sent[order[1]].submessages[1]), Ok(None));
        let whole = reassembly.take(&sent[order[2]].submessages[1]);
        assert_eq!(whole, Ok(Some(serialized.clone())));
    }
}

#[test]
fn a_fragment_of_another_sample_starts_over() {
    let mut reassembly = Reassembly::default();
    assert_eq!(reassembly.take(&fragment(1, 1, 8, &[1, 1, 1, 1])), Ok(None));
    assert_eq!(reassembly.take(&fragment(2, 2, 8, &[2, 2, 2, 2])), Ok(None));
    assert_eq!(
        reassembly.take(&fragment(2, 1, 8, &[3, 3, 3, 3])),
        Ok(Some(vec![3, 3, 3, 3, 2, 2, 2, 2]))
    );
    assert_eq!(reassembly.take(&fragment(2, 1, 8, &[4, 4, 4, 4])), Ok(None), "anew");
}

#[test]
fn a_whole_sample_leaves_the_fragments_alone() {
    let mut reassembly = Reassembly::default();
    assert_eq!(reassembly.take(&fragment(1, 1, 8, &[1, 1, 1, 1])), Ok(None));
    let whole = Submessage::Data {
        writer_id: WRITER_WITH_KEY,
        sequence: 2,
        payload: vec![5],
    };
    assert_eq!(reassembly.take(&whole), Ok(Some(vec![5])));
    assert_eq!(
        reassembly.take(&fragment(1, 2, 8, &[2, 2, 2, 2])),
        Ok(Some(vec![1, 1, 1, 1, 2, 2, 2, 2]))
    );
}

#[test]
fn a_fragment_past_its_sample_is_refused_and_the_rest_may_still_come() {
    let mut reassembly = Reassembly::default();
    assert_eq!(
        reassembly.take(&fragment(1, 2, 7, &[1, 1, 1, 1])),
        Err(ProtocolError::FragmentPastSample)
    );
    assert_eq!(reassembly.take(&fragment(1, 2, 7, &[1, 1, 1])), Ok(None));
    assert_eq!(
        reassembly.take(&fragment(1, 0, 7, &[2, 2, 2, 2])),
        Ok(Some(vec![2, 2, 2, 2, 1, 1, 1])),
        "number zero is number one"
    );
    assert_eq!(reassembly.take(&fragment(9, 1, 0, &[])), Ok(Some(vec![])), "empty");
    assert_eq!(
        reassembly.take(&fragment(9, u32::MAX, 8, &[1])),
        Err(ProtocolError::FragmentPastSample)
    );
}

#[test]
fn a_fragment_that_comes_again_completes_nothing() {
    let half = Submessage::DataFrag {
        writer_id: WRITER_WITH_KEY,
        sequence: 1,
        starting: 1,
        count: 1,
        size: 2,
        sample_size: 4,
        payload: vec![1, 2],
    };
    let mut reassembly = Reassembly::default();
    assert_eq!(reassembly.take(&half), Ok(None));
    assert_eq!(reassembly.take(&half), Ok(None));
    assert_eq!(reassembly.take(&half), Ok(None));
    let rest = Submessage::DataFrag {
        writer_id: WRITER_WITH_KEY,
        sequence: 1,
        starting: 2,
        count: 1,
        size: 2,
        sample_size: 4,
        payload: vec![3, 4],
    };
    assert_eq!(reassembly.take(&rest), Ok(Some(vec![1, 2, 3, 4])));
    assert_eq!(reassembly.take(&rest), Ok(None), "the sample is done with");
}

#[test]
fn fragments_that_overlap_count_for_the_bytes_that_are_new() {
    let mut reassembly = Reassembly::default();
    assert_eq!(reassembly.take(&fragment(1, 1, 12, &[1, 1, 1, 1, 1, 1])), Ok(None));
    assert_eq!(reassembly.take(&fragment(1, 2, 12, &[2, 2, 2, 2])), Ok(None));
    assert_eq!(reassembly.take(&fragment(1, 2, 12, &[])), Ok(None), "empty");
    assert_eq!(
        reassembly.take(&fragment(1, 3, 12, &[3, 3, 3, 3])),
        Ok(Some(vec![1, 1, 1, 1, 2, 2, 2, 2, 3, 3, 3, 3]))
    );
}

#[test]
fn a_refused_fragment_brings_nothing() {
    let mut reassembly = Reassembly::default();
    assert_eq!(reassembly.take(&fragment(1, 1, 6, &[1, 1, 1, 1])), Ok(None));
    assert_eq!(
        reassembly.take(&fragment(1, 2, 6, &[2, 2, 2, 2])),
        Err(ProtocolError::FragmentPastSample)
    );
    assert_eq!(reassembly.take(&fragment(1, 1, 6, &[3, 3, 3, 3])), Ok(None));
    assert_eq!(
        reassembly.take(&fragment(1, 2, 6, &[4, 4])),
        Ok(Some(vec![3, 3, 3, 3, 4, 4]))
    );
}

#[test]
fn a_message_that_was_read_reads_the_same_once_written() {
    let mut bytes = messages(PREFIX, WRITER_WITH_KEY, 1, &serialize(b"x"))[0].encode();
    bytes[5] = 1;
    bytes[21] = 0x81;
    bytes[36] = 0x55;
    bytes.extend_from_slice(&[0x07, 0x01, 1, 0, 0]);
    let read = Message::decode(&bytes).expect("decode");
    assert_ne!(read.encode(), bytes);
    assert_eq!(Message::decode(&read.encode()), Ok(read));
}

#[test]
fn fragments_are_numbered_in_turn() {
    let sent = messages(PREFIX, WRITER_WITH_KEY, 1, &vec![0; 130_000]);
    let mut next = 1;
    for message in &sent {
        let Submessage::DataFrag { starting, count, .. } = &message.submessages[1] else {
            panic!("a fragment run");
        };
        assert_eq!(*starting, next);
        next += u32::from(*count);
    }
    assert_eq!(next - 1, 127);
}
