use wiring::wired::{ReadBuffer, WriteBuffer};
use wiring::error::WireError;
use wiring::unwire::BufUnWire;
use wiring::wire::BufWire;
use wiring::wire::NoHandle;
use wiring::wire::WireChannel;
use wiring::wired::StreamKeys;
use wiring::wired::UnwiredStreams;
use wiring::wired::WiredDrop;
use wiring::wired::WiredStreams;
use wiring::wired::WiringEvent;

fn wire_event(event: &WiringEvent<u16>) -> Vec<u8> {
    let mut buf = Vec::new();
    BufWire::new(&mut buf).wire(event).unwrap();
    buf
}

#[test]
fn wiring_event_bytes() {
    assert_eq!(wire_event(&WiringEvent::Event(0x0102)), vec![0u8, 1, 2]);
    assert_eq!(
        wire_event(&WiringEvent::Message { stream_id: 1, local: true, message: vec![9] }),
        vec![1u8, 0, 0, 0, 0, 0, 0, 0, 1, 1, 0, 0, 0, 0, 0, 0, 0, 1, 9]
    );
    assert_eq!(
        wire_event(&WiringEvent::Drop { stream_id: 3, local: false }),
        vec![2u8, 0, 0, 0, 0, 0, 0, 0, 3, 0]
    );
}

#[test]
fn wiring_event_roundtrip() {
    let events = vec![
        WiringEvent::Event(7u16),
        WiringEvent::Message { stream_id: 5, local: false, message: vec![1, 2, 3] },
        WiringEvent::Drop { stream_id: 6, local: true },
    ];
    let mut buf = Vec::new();
    {
        let mut w = BufWire::new(&mut buf);
        for e in events.iter() {
            w.wire(e).unwrap();
        }
    }
    let mut r = BufUnWire::new(buf.as_slice());
    assert!(matches!(r.unwire::<WiringEvent<u16>>(), Ok(WiringEvent::Event(7))));
    match r.unwire::<WiringEvent<u16>>() {
        Ok(WiringEvent::Message { stream_id, local, message }) => {
            assert_eq!(stream_id, 5);
            assert!(!local);
            assert_eq!(message, vec![1u8, 2, 3]);
        }
        other => panic!("unexpected {:?}", other),
    }
    assert!(matches!(
        r.unwire::<WiringEvent<u16>>(),
        Ok(WiringEvent::Drop { stream_id: 6, local: true })
    ));
}

#[test]
fn wiring_event_with_a_bad_tag_is_invalid() {
    assert!(matches!(
        BufUnWire::new(&[3u8, 0, 0]).unwire::<WiringEvent<u16>>(),
        Err(WireError::InvalidData)
    ));
}

#[test]
fn stream_keys_tell_owners_apart() {
    let mut keys = StreamKeys::new();
    keys.insert(1, true);
    assert!(keys.contains(1, true));
    assert!(!keys.contains(1, false));
    keys.insert(1, false);
    assert!(keys.remove(1, true));
    assert!(!keys.remove(1, true));
    assert!(keys.contains(1, false));
}

#[test]
fn wired_streams_count_ids_up_from_one() {
    let mut streams = WiredStreams::new();
    let mut out: Vec<u8> = Vec::new();
    assert_eq!(streams.connect(&mut out), Some(1));
    assert_eq!(out, vec![0u8, 0, 0, 0, 0, 0, 0, 1]);
    assert_eq!(streams.connect(&mut out), Some(2));
    assert_eq!(out, vec![0u8, 0, 0, 0, 0, 0, 0, 1, 0, 0, 0, 0, 0, 0, 0, 2]);
    streams.register_remote(1);
    assert_eq!(streams.connect(&mut out), Some(3));
}

#[test]
fn wired_drop_tells_the_remote_end_with_the_owner_flipped() {
    let mut streams = WiredStreams::new();
    let id = streams.connect(&mut Vec::new()).unwrap();
    match streams.drop_stream::<u8>(id, true, true) {
        WiredDrop::Dropped { notify_remote: Some(WiringEvent::Drop { stream_id, local }) } => {
            assert_eq!(stream_id, id);
            assert!(!local);
        }
        other => panic!("unexpected {:?}", other),
    }
    assert!(matches!(streams.drop_stream::<u8>(id, true, true), WiredDrop::Unknown));

    streams.register_remote(9);
    assert!(matches!(
        streams.drop_stream::<u8>(9, false, false),
        WiredDrop::Dropped { notify_remote: None }
    ));
}

#[test]
fn wired_message_goes_only_to_open_streams() {
    let mut streams = WiredStreams::new();
    let id = streams.connect(&mut Vec::new()).unwrap();
    match streams.message::<u8>(id, true, Some(vec![4, 5])) {
        Some(WiringEvent::Message { stream_id, local, message }) => {
            assert_eq!(stream_id, id);
            assert!(!local);
            assert_eq!(message, vec![4u8, 5]);
        }
        other => panic!("unexpected {:?}", other),
    }
    assert!(streams.message::<u8>(id, false, Some(vec![1])).is_none());
    assert!(streams.message::<u8>(id, true, None).is_none());
}

#[test]
fn unwired_streams_deliver_and_forget() {
    let mut streams = UnwiredStreams::new();
    assert!(!streams.deliver(2, false));
    streams.register(2, false);
    assert!(streams.deliver(2, false));
    assert!(!streams.deliver(2, true));
    assert!(streams.drop_stream(2, false, true));
    assert!(!streams.deliver(2, false));
    assert!(!streams.drop_stream(2, false, true));
    streams.register(3, true);
    assert!(!streams.drop_stream(3, true, false));
}

#[test]
fn wire_channel_gives_back_its_halves() {
    let channel = WireChannel::new(1u8, "r");
    let (s, r) = channel.into_inner();
    assert_eq!(s, 1);
    assert_eq!(r, "r");
    let _ = NoHandle;
}

#[test]
fn a_read_buffer_hands_out_a_message_in_pieces() {
    let mut rb = ReadBuffer::new();
    assert!(rb.needs_message());
    rb.refill(vec![1, 2, 3, 4, 5]);
    assert!(!rb.needs_message());
    assert_eq!(rb.read(2), vec![1u8, 2]);
    assert_eq!(rb.read(10), vec![3u8, 4, 5]);
    assert!(rb.needs_message());
    assert_eq!(rb.read(4), Vec::<u8>::new());
    rb.refill(vec![9]);
    assert_eq!(rb.read(0), Vec::<u8>::new());
    assert_eq!(rb.read(1), vec![9u8]);
}

#[test]
fn a_write_buffer_sends_what_was_written_at_each_flush() {
    let mut wb = WriteBuffer::new();
    assert_eq!(wb.write(&[1, 2]), 2);
    assert_eq!(wb.write(&[]), 0);
    assert_eq!(wb.write(&[3]), 1);
    assert_eq!(wb.flush(), vec![1u8, 2, 3]);
    assert_eq!(wb.flush(), Vec::<u8>::new());
    wb.write(&[7]);
    assert_eq!(wb.flush(), vec![7u8]);
}
