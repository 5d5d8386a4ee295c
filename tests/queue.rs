use ironside::data::{CommandDefs, Dictionary, Registry, ResponseDefs};
use ironside::frame::{decode_frame, encode_frame, FrameDecoder};
use ironside::message::{FieldValue, MessageError};
use ironside::queue::{Clock, Error, Inbound, ProtocolQueue, SendError};

fn queue() -> ProtocolQueue {
    let d = Dictionary {
        build_versions: String::new(),
        version: String::new(),
        commands: CommandDefs(vec![
            ("get_clock".to_string(), 43),
            ("set_pin oid=%c value=%c".to_string(), 7),
        ]),
        responses: ResponseDefs(vec![("clock clock=%u".to_string(), 80)]),
        enums: vec![],
    };
    ProtocolQueue::new(Registry::compile(&d).unwrap())
}

fn no_clock() -> Clock {
    Clock::Send { sent: 0, received: 0 }
}

fn set_pin(v: u8) -> Vec<(String, FieldValue)> {
    vec![("oid".to_string(), FieldValue::U8(1)), ("value".to_string(), FieldValue::U8(v))]
}

#[test]
fn output_keeps_enqueue_order() {
    let mut q = queue();
    let mut expected = Vec::new();
    for i in 0..10u8 {
        let seq = q.send("set_pin", &set_pin(i), no_clock(), 100).unwrap();
        assert_eq!(seq, i);
        expected.extend(encode_frame(i, &[7, 1, i]));
    }
    assert_eq!(q.take_output(), expected);
    assert!(q.take_output().is_empty());
    let mut dec = FrameDecoder::new();
    dec.push(&expected);
    for i in 0..10u8 {
        let f = dec.next_frame().unwrap();
        assert_eq!(f.sequence, i);
        assert_eq!(f.payload, vec![7, 1, i]);
    }
}

#[test]
fn sequence_numbers_wrap_and_block_when_in_use() {
    let mut q = queue();
    for i in 0..16u8 {
        assert_eq!(q.send("get_clock", &vec![], no_clock(), 0), Ok(i));
    }
    assert_eq!(q.next_seq, 0);
    assert_eq!(q.send("get_clock", &vec![], no_clock(), 0), Err(SendError::Busy));
    assert!(q.resolve(0).is_some());
    assert_eq!(q.send("get_clock", &vec![], no_clock(), 0), Ok(0));
    assert_eq!(q.pending.len(), 16);
}

#[test]
fn send_errors_change_nothing() {
    let mut q = queue();
    assert_eq!(q.send("nope", &vec![], no_clock(), 0), Err(SendError::NotFound));
    assert_eq!(
        q.send("get_clock", &set_pin(1), no_clock(), 0),
        Err(SendError::Encode(MessageError::ArgumentMismatch))
    );
    assert_eq!(
        q.send("get_clock", &vec![], Clock::Command { minimum: 0, required: 9 }, 10),
        Err(SendError::TimeParadox)
    );
    assert!(q.pending.is_empty());
    assert!(q.outbox.is_empty());
    assert_eq!(q.next_seq, 0);
}

#[test]
fn response_resolves_matching_exchange() {
    let mut q = queue();
    let seq = q.send("get_clock", &vec![], no_clock(), 5).unwrap();
    let out = q.take_output();
    assert_eq!(decode_frame(&out).unwrap().0.payload, vec![43]);
    q.receive(&encode_frame(seq, &[80, 0x89, 0x52]));
    match q.poll() {
        Some(Inbound::Response { exchange, id, message }) => {
            assert_eq!(exchange.sequence, seq);
            assert_eq!(exchange.name, "get_clock");
            assert_eq!(id, 80);
            assert_eq!(message.values, vec![("clock".to_string(), FieldValue::U32(1234))]);
        }
        other => panic!("unexpected {:?}", other),
    }
    assert!(q.pending.is_empty());
    assert!(q.poll().is_none());
}

#[test]
fn unmatched_frames_are_notifications_and_bad_ids_are_errors() {
    let mut q = queue();
    q.receive(&encode_frame(9, &[80, 1]));
    q.receive(&encode_frame(3, &[0x80, 0x63]));
    match q.poll() {
        Some(Inbound::Notification { sequence, id, .. }) => assert_eq!((sequence, id), (9, 80)),
        other => panic!("unexpected {:?}", other),
    }
    match q.poll() {
        Some(Inbound::Error { sequence, error }) => {
            assert_eq!((sequence, error), (3, MessageError::NoSuchId(99)))
        }
        other => panic!("unexpected {:?}", other),
    }
}

#[test]
fn expired_exchanges_are_reported_and_late_answers_are_notifications() {
    let mut q = queue();
    let a = q.send("get_clock", &vec![], Clock::Command { minimum: 10, required: 20 }, 5).unwrap();
    let b = q.send("get_clock", &vec![], no_clock(), 5).unwrap();
    let c = q.send("get_clock", &vec![], no_clock(), 50).unwrap();
    let expired = q.expire(30, 20);
    assert_eq!(expired.len(), 2);
    assert_eq!(expired[0].exchange.sequence, a);
    assert_eq!(expired[0].reason, Error::MissedSchedule("get_clock".to_string()));
    assert_eq!(expired[1].exchange.sequence, b);
    assert_eq!(expired[1].reason, Error::Timeout("get_clock".to_string()));
    assert_eq!(q.pending.len(), 1);
    assert_eq!(q.pending[0].sequence, c);
    q.receive(&encode_frame(a, &[80, 1]));
    assert!(matches!(q.poll(), Some(Inbound::Notification { .. })));
}

#[test]
fn abort_releases_every_exchange() {
    let mut q = queue();
    q.send("get_clock", &vec![], no_clock(), 0).unwrap();
    q.send("get_clock", &vec![], no_clock(), 0).unwrap();
    let aborted = q.abort_all();
    assert_eq!(aborted.iter().map(|x| x.sequence).collect::<Vec<_>>(), vec![0, 1]);
    assert!(q.pending.is_empty());
}
