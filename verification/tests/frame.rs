use birdflop_tunnel::frame::{Delimited, Received};

fn frame(received: Received) -> Vec<u8> {
    match received {
        Received::Frame(bytes) => bytes,
        other => panic!("no frame: {other:?}"),
    }
}

#[test]
fn frames_are_received_as_sent() {
    let mut stream = Delimited::new();
    assert_eq!(Delimited::send("\"Register\""), b"\"Register\"\0");
    let mut bytes = Delimited::send("{\"a\":\"\u{e4}\"}");
    bytes.extend_from_slice(&Delimited::send(""));
    bytes.extend_from_slice(b"rest");
    stream.feed(&bytes);
    assert_eq!(frame(stream.recv()), "{\"a\":\"\u{e4}\"}".as_bytes());
    assert_eq!(frame(stream.recv()), b"");
    assert!(matches!(stream.recv(), Received::ReadMore));
    assert_eq!(stream.into_parts(), b"rest");
}

#[test]
fn frames_may_come_in_pieces() {
    let mut stream = Delimited::new();
    for byte in Delimited::send("Heartbeat") {
        assert!(matches!(stream.recv(), Received::ReadMore));
        stream.feed(&[byte]);
    }
    assert_eq!(frame(stream.recv()), b"Heartbeat");
}

#[test]
fn the_end_of_a_stream() {
    let mut stream = Delimited::new();
    stream.feed(b"a\0b");
    stream.feed(b"");
    assert_eq!(frame(stream.recv()), b"a");
    assert_eq!(frame(stream.recv()), b"b");
    assert!(matches!(stream.recv(), Received::End));
    let mut empty = Delimited::new();
    empty.feed(b"");
    assert!(matches!(empty.recv(), Received::End));
}

#[test]
fn long_frames_are_refused() {
    let mut stream = Delimited::new();
    stream.feed(&[97; 8192]);
    assert!(matches!(stream.recv(), Received::ReadMore));
    stream.feed(&[0]);
    assert_eq!(frame(stream.recv()).len(), 8192);
    stream.feed(&[97; 8193]);
    assert!(matches!(stream.recv(), Received::TooLong));
    assert!(matches!(stream.recv(), Received::End));
    // The rest of the frame is left out, and then frames come again.
    assert!(matches!(stream.recv(), Received::ReadMore));
    stream.feed(&[97; 9000]);
    assert!(matches!(stream.recv(), Received::ReadMore));
    stream.feed(b"aa\0next\0");
    assert_eq!(frame(stream.recv()), b"next");
    assert!(matches!(stream.recv(), Received::ReadMore));
}

#[test]
fn a_stream_may_go_on_after_its_end() {
    let mut stream = Delimited::new();
    stream.feed(b"");
    assert!(matches!(stream.recv(), Received::End));
    stream.feed(b"");
    assert!(matches!(stream.recv(), Received::End));
    stream.feed(b"a");
    assert!(matches!(stream.recv(), Received::ReadMore));
    stream.feed(b"\0");
    assert_eq!(frame(stream.recv()), b"a");
    stream.feed(b"b");
    stream.feed(b"");
    assert_eq!(frame(stream.recv()), b"b");
    assert!(matches!(stream.recv(), Received::End));
}

#[test]
fn frames_come_in_order_whatever_the_reads() {
    let sent = ["one", "", "three", "4"];
    let bytes: Vec<u8> = sent.iter().flat_map(|text| Delimited::send(text)).collect();
    for size in 1..=bytes.len() {
        let mut stream = Delimited::new();
        let mut got = Vec::new();
        for read in bytes.chunks(size) {
            stream.feed(read);
            while let Received::Frame(frame) = stream.recv() {
                got.push(frame);
            }
        }
        stream.feed(b"");
        assert!(matches!(stream.recv(), Received::End));
        assert_eq!(got, sent.map(|text| text.as_bytes().to_vec()));
    }
}
