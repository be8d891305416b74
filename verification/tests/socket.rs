//! Handshakes and messages over scripted peers, byte by byte.

use bytes::{Bytes, BytesMut};
use zmtpmini::socket::{check_meta, handshake_rejected, peer_error};
use zmtpmini::wire::{
    check_greeting, decode_frame, encode_frame, encode_greeting, parse_command, pong_command,
    ready_command, subscribe_command, Command, RawFrame, GREETING_LEN,
};
use zmtpmini::{
    Dealer, Error, Handshake, HandshakeStep, Result, Step, Sub, ZmtpStream, DEFAULT_MAX_FRAME,
};

fn protocol_message<T>(r: Result<T>) -> String {
    match r {
        Err(Error::Protocol(m)) => m,
        Err(Error::Io(e)) => panic!("expected a protocol error, got {e}"),
        Ok(_) => panic!("expected a protocol error"),
    }
}

/// Carry `h` on with the peer's bytes in chunks of at most `chunk`, then with its end of stream.
/// What we wrote goes to `wire`.
fn drive(mut h: Handshake, theirs: &[u8], chunk: usize, wire: &mut Vec<u8>) -> Result<ZmtpStream> {
    let mut at = 0;
    loop {
        match h.step()? {
            HandshakeStep::Write(next) => {
                h = next;
                let n = h.pending().len();
                wire.extend_from_slice(h.pending());
                h.sent(n);
            }
            HandshakeStep::Read(next) => {
                h = next;
                let end = theirs.len().min(at + chunk);
                h.received(&theirs[at..end])?;
                at = end;
            }
            HandshakeStep::Done(mut s) => {
                if at < theirs.len() {
                    s.received(&theirs[at..])?;
                }
                return Ok(s);
            }
        }
    }
}

fn peer_opening(socket_type: &str) -> Vec<u8> {
    let mut setup = BytesMut::new();
    setup.extend_from_slice(&encode_greeting());
    encode_frame(&ready_command(socket_type, None), false, true, &mut setup);
    setup.to_vec()
}

fn scripted_peer(socket_type: &str) -> (Dealer, Vec<u8>) {
    let mut wire = vec![];
    let s = drive(
        Dealer::from_stream(Some(b"tid")),
        &peer_opening(socket_type),
        1 << 16,
        &mut wire,
    );
    (Dealer(s.unwrap()), wire)
}

fn flush(s: &mut ZmtpStream, wire: &mut Vec<u8>) {
    let n = s.pending().len();
    wire.extend_from_slice(s.pending());
    s.sent(n);
}

/// Receive one message from what has come, writing what is to be written to `wire`.
fn recv(s: &mut ZmtpStream, wire: &mut Vec<u8>) -> Result<Option<Vec<Bytes>>> {
    loop {
        match s.recv_multipart()? {
            Step::Write => flush(s, wire),
            Step::Read => return Ok(None),
            Step::Done(message) => return Ok(Some(message)),
        }
    }
}

fn read_peer_frame(buf: &mut BytesMut) -> RawFrame {
    decode_frame(buf, DEFAULT_MAX_FRAME).unwrap().expect("peer closed")
}

fn frame(body: &[u8], more: bool, command: bool) -> Vec<u8> {
    let mut out = BytesMut::new();
    encode_frame(body, more, command, &mut out);
    out.to_vec()
}

fn message(parts: &[&[u8]]) -> Vec<u8> {
    let mut s = open_stream(DEFAULT_MAX_FRAME);
    s.send_multipart(parts);
    s.pending().to_vec()
}

fn open_stream(max_frame: usize) -> ZmtpStream {
    drive(
        ZmtpStream::handshake("DEALER", None, max_frame),
        &peer_opening("ROUTER"),
        1 << 16,
        &mut vec![],
    )
    .unwrap()
}

#[test]
fn handshake_and_robustness() {
    let (mut d, wire) = scripted_peer("ROUTER");
    assert!(
        d.peer_meta()
            .iter()
            .any(|(k, v)| k.eq_ignore_ascii_case("socket-type") && &v[..] == b"ROUTER")
    );

    // the peer got our greeting, then a READY carrying our Identity
    let mut g = [0u8; GREETING_LEN];
    g.copy_from_slice(&wire[..GREETING_LEN]);
    check_greeting(&g).unwrap();
    let mut pbuf = BytesMut::from(&wire[GREETING_LEN..]);
    let f = read_peer_frame(&mut pbuf);
    assert!(f.command);
    match parse_command(&f.body).unwrap() {
        Command::Ready(meta) => assert!(
            meta.iter()
                .any(|(k, v)| k == "Identity" && &v[..] == b"tid")
        ),
        c => panic!("expected Ready, got {c:?}"),
    }

    // fragmented frame: a recv that stops loses nothing, the retry returns the whole message
    let mut fr = BytesMut::new();
    encode_frame(b"hello", false, false, &mut fr);
    d.0.received(&fr[..3]).unwrap();
    assert!(matches!(d.recv().unwrap(), Step::Read));
    d.0.received(&fr[3..]).unwrap();
    match d.recv().unwrap() {
        Step::Done(m) => assert!(m == vec![Bytes::from_static(b"hello")]),
        s => panic!("expected a message, got {s:?}"),
    }

    // multipart with a PING interleaved between parts: parts intact, PONG answered
    let mut fr = BytesMut::new();
    encode_frame(b"p1", true, false, &mut fr);
    let mut ping = BytesMut::new();
    ping.extend_from_slice(b"\x04PING\x00\x64ctx");
    encode_frame(&ping, false, true, &mut fr);
    encode_frame(b"p2", false, false, &mut fr);
    d.0.received(&fr).unwrap();
    let mut wire = vec![];
    assert!(
        recv(&mut d.0, &mut wire).unwrap()
            == Some(vec![Bytes::from_static(b"p1"), Bytes::from_static(b"p2")])
    );
    let mut pbuf = BytesMut::from(&wire[..]);
    let f = read_peer_frame(&mut pbuf);
    assert!(f.command && &f.body[..] == b"\x04PONGctx");

    // a send that stops resumes: both messages arrive whole and in order
    let big = vec![7u8; 1 << 20];
    let mut wire = vec![];
    d.send(&[&big[..]]);
    wire.extend_from_slice(&d.0.pending()[..1 << 16]);
    d.0.sent(1 << 16); // stopped mid-flush
    d.send(&[b"after".as_ref()]);
    flush(&mut d.0, &mut wire);
    let mut pbuf = BytesMut::from(&wire[..]);
    let f1 = read_peer_frame(&mut pbuf);
    let f2 = read_peer_frame(&mut pbuf);
    assert!(f1.body.len() == 1 << 20 && &f2.body[..] == b"after");
    assert!(pbuf.is_empty());

    // peer disappearing surfaces as an error
    let (mut d, _) = scripted_peer("ROUTER");
    assert!(matches!(d.recv().unwrap(), Step::Read));
    assert!(d.0.received(b"").is_err());
}

#[test]
fn handshake_rejects_wrong_peer() {
    let setup = peer_opening("PUB");
    let e = drive(Dealer::from_stream(None), &setup, 1 << 16, &mut vec![])
        .err()
        .expect("handshake should have failed");
    assert!(e.to_string().contains("PUB"));
    assert_eq!(
        e.to_string(),
        "protocol error: peer socket type PUB is incompatible with DEALER"
    );
}

#[test]
fn handshake_says_greeting_then_ready() {
    let mut expected = encode_greeting().to_vec();
    expected.extend(frame(&ready_command("DEALER", Some(b"tid")), false, true));
    let (_, wire) = scripted_peer("REP");
    assert_eq!(wire, expected);

    let mut expected = encode_greeting().to_vec();
    expected.extend(frame(&ready_command("SUB", None), false, true));
    let mut wire = vec![];
    let s = drive(Sub::from_stream(), &peer_opening("XPUB"), 1 << 16, &mut wire).unwrap();
    assert_eq!(wire, expected);
    assert_eq!(s.peer_meta()[0].0, "Socket-Type");
    assert_eq!(&s.peer_meta()[0].1[..], b"XPUB");
}

#[test]
fn refused_greeting_gets_no_ready() {
    let mut theirs = peer_opening("ROUTER");
    theirs[11] = 0;
    let mut wire = vec![];
    let r = drive(Dealer::from_stream(None), &theirs, 1 << 16, &mut wire);
    assert_eq!(
        protocol_message(r),
        "peer speaks ZMTP 3.0; zmtpmini requires 3.1"
    );
    assert_eq!(wire, encode_greeting().to_vec());
}

#[test]
fn two_dealers_connect() {
    let mut from_a = encode_greeting().to_vec();
    from_a.extend(frame(&ready_command("DEALER", Some(b"alice")), false, true));
    let mut from_b = encode_greeting().to_vec();
    from_b.extend(frame(&ready_command("DEALER", Some(b"bob")), false, true));

    let (mut wire_a, mut wire_b) = (vec![], vec![]);
    let a = drive(Dealer::from_stream(Some(b"alice")), &from_b, 5, &mut wire_a).unwrap();
    let b = drive(Dealer::from_stream(Some(b"bob")), &from_a, 7, &mut wire_b).unwrap();
    assert_eq!((wire_a, wire_b), (from_a, from_b));
    assert_eq!(&a.peer_meta()[1].1[..], b"bob");
    assert_eq!(&b.peer_meta()[1].1[..], b"alice");
}

#[test]
fn cuts_do_not_matter_in_a_handshake() {
    let mut theirs = encode_greeting().to_vec();
    theirs.extend(frame(b"\x05HELLO", false, true));
    theirs.extend(frame(b"\x04PING\x00\x00early", false, true));
    theirs.extend(frame(&ready_command("ROUTER", Some(b"r")), false, true));
    theirs.extend(frame(b"first", false, false));

    let mut expected = encode_greeting().to_vec();
    expected.extend(frame(&ready_command("DEALER", Some(b"tid")), false, true));
    expected.extend(frame(&pong_command(b"early"), false, true));
    for chunk in [1, 2, 3, 7, 63, 64, 65, 100, 1000] {
        let mut wire = vec![];
        let mut s = drive(Dealer::from_stream(Some(b"tid")), &theirs, chunk, &mut wire).unwrap();
        assert_eq!(wire, expected);
        assert_eq!(s.peer_meta().len(), 2);
        assert_eq!(
            recv(&mut s, &mut wire).unwrap(),
            Some(vec![Bytes::from_static(b"first")])
        );
    }
}

#[test]
fn handshake_failures() {
    let after_greeting = |rest: Vec<u8>| {
        let mut theirs = encode_greeting().to_vec();
        theirs.extend(rest);
        protocol_message(drive(Dealer::from_stream(None), &theirs, 1 << 16, &mut vec![]))
    };
    assert_eq!(
        after_greeting(frame(b"too soon", false, false)),
        "message frame before handshake completed"
    );
    assert_eq!(
        after_greeting(frame(b"\x05ERROR\x04nope", false, true)),
        "peer rejected handshake: nope"
    );
    assert_eq!(after_greeting(frame(b"\x05READ", false, true)), "truncated command name");
    assert_eq!(after_greeting(vec![]), "connection closed by peer");
    assert_eq!(after_greeting(vec![0xF8, 0]), "reserved frame flag bits set");
    assert_eq!(
        after_greeting(frame(&ready_command("SUB", None), false, true)),
        "peer socket type SUB is incompatible with DEALER"
    );
    assert_eq!(
        after_greeting(frame(
            b"\x05READY\x0bSOCKET-TYPE\x00\x00\x00\x03\xFFUB",
            false,
            true
        )),
        "peer socket type \u{FFFD}UB is incompatible with DEALER"
    );
    assert_eq!(
        protocol_message(handshake_rejected::<()>("busy")),
        "peer rejected handshake: busy"
    );
}

#[test]
fn unknown_socket_type_of_our_own_fits_no_peer() {
    let h = ZmtpStream::handshake("ROUTER", None, 100);
    assert_eq!(
        protocol_message(drive(h, &peer_opening("DEALER"), 1 << 16, &mut vec![])),
        "peer socket type DEALER is incompatible with ROUTER"
    );
}

#[test]
fn peer_need_not_announce_a_type() {
    let mut theirs = encode_greeting().to_vec();
    theirs.extend(frame(b"\x05READY", false, true));
    let s = drive(Dealer::from_stream(None), &theirs, 1 << 16, &mut vec![]).unwrap();
    assert!(s.peer_meta().is_empty());
}

#[test]
fn first_announced_type_counts() {
    let meta = |pairs: &[(&str, &'static [u8])]| -> Vec<(String, Bytes)> {
        pairs
            .iter()
            .map(|(k, v)| (k.to_string(), Bytes::from_static(v)))
            .collect()
    };
    assert!(check_meta("SUB", &meta(&[])).is_ok());
    assert!(check_meta("SUB", &meta(&[("Identity", b"x")])).is_ok());
    assert!(check_meta("SUB", &meta(&[("sOCKET-tYPE", b"PUB"), ("Socket-Type", b"REP")])).is_ok());
    assert_eq!(
        protocol_message(check_meta(
            "SUB",
            &meta(&[("x", b"PUB"), ("Socket-Type", b"REP"), ("Socket-Type", b"PUB")])
        )),
        "peer socket type REP is incompatible with SUB"
    );
    // only ASCII letters are compared without their case
    assert!(check_meta("SUB", &meta(&[("\u{17F}ocket-type", b"REP")])).is_ok());
}

#[test]
fn stream_that_ends_in_the_greeting_is_an_io_error() {
    let theirs = encode_greeting();
    for n in [0, 1, 63] {
        let r = drive(Dealer::from_stream(None), &theirs[..n], 1 << 16, &mut vec![]);
        match r {
            Err(Error::Io(e)) => {
                assert_eq!(e.kind(), std::io::ErrorKind::UnexpectedEof);
                assert_eq!(Error::from(e).to_string(), "io error: early eof");
            }
            Err(e) => panic!("expected an I/O error, got {e:?}"),
            Ok(_) => panic!("expected an I/O error"),
        }
    }
    // with the whole greeting at hand, it is the frame behind it that is missing
    let h = match Dealer::from_stream(None).step().unwrap() {
        HandshakeStep::Write(h) => h,
        _ => panic!("expected to write first"),
    };
    let mut h = h;
    h.received(&theirs).unwrap();
    assert_eq!(protocol_message(h.received(b"")), "connection closed by peer");
}

#[test]
fn handshake_cap_applies_to_the_peer_ready() {
    let theirs = peer_opening("ROUTER"); // READY takes 28 bytes
    let h = ZmtpStream::handshake("DEALER", None, 28);
    assert!(drive(h, &theirs, 1 << 16, &mut vec![]).is_ok());
    let h = ZmtpStream::handshake("DEALER", None, 27);
    assert_eq!(
        protocol_message(drive(h, &theirs, 1 << 16, &mut vec![])),
        "frame of 28 bytes exceeds cap of 27"
    );
}

#[test]
fn room_shrinks_with_what_was_received() {
    let max = isize::MAX as usize;
    let mut h = Dealer::from_stream(None);
    assert_eq!(h.room(), max);
    h.received(&[0; 10]).unwrap();
    assert_eq!(h.room(), max - 10);

    let mut s = open_stream(100);
    assert_eq!(s.room(), max);
    s.received(b"\x00").unwrap();
    assert_eq!(s.room(), max - 1);
}

#[test]
fn multipart_bytes() {
    assert_eq!(message(&[b"a", b"", b"bc"]), b"\x01\x01a\x01\x00\x00\x02bc");
    assert_eq!(message(&[b"only"]), b"\x00\x04only");
    assert_eq!(message(&[]), b"");
}

#[test]
fn messages_arrive_whole_and_in_order_however_cut() {
    let long = vec![5u8; 1000];
    let messages: Vec<Vec<&[u8]>> = vec![
        vec![b"one"],
        vec![b"", b""],
        vec![b"a", &long, b"c"],
        vec![b"<IDS|MSG>", b"", b"{}", b"{}"],
    ];
    let mut theirs = vec![];
    for m in &messages {
        theirs.extend(message(m));
    }
    for chunk in [1, 2, 3, 5, 11, 256, 4096] {
        let mut s = open_stream(1000);
        let mut got: Vec<Vec<Bytes>> = vec![];
        let mut wire = vec![];
        for piece in theirs.chunks(chunk) {
            s.received(piece).unwrap();
            while let Some(m) = recv(&mut s, &mut wire).unwrap() {
                got.push(m);
            }
        }
        assert_eq!(got, messages);
        assert!(wire.is_empty());
        assert_eq!(s.room(), isize::MAX as usize);
    }
}

#[test]
fn ping_between_frames_only_adds_a_pong() {
    let mut theirs = frame(b"p1", true, false);
    theirs.extend(frame(b"\x04PING\x00\x01one", false, true));
    theirs.extend(frame(b"\x04PING\x00\x02", false, true));
    theirs.extend(frame(b"p2", false, false));
    let mut s = open_stream(100);
    s.received(&theirs).unwrap();

    // each PONG is to be written before reading goes on
    assert!(matches!(s.recv_multipart().unwrap(), Step::Write));
    assert_eq!(s.pending(), &frame(b"\x04PONGone", false, true)[..]);
    assert!(matches!(s.recv_multipart().unwrap(), Step::Write));
    s.sent(4);
    assert_eq!(s.pending(), &frame(b"\x04PONGone", false, true)[4..]);
    assert!(matches!(s.recv_multipart().unwrap(), Step::Write));
    s.sent(s.pending().len());
    assert!(matches!(s.recv_multipart().unwrap(), Step::Write));
    assert_eq!(s.pending(), &frame(b"\x04PONG", false, true)[..]);
    s.sent(s.pending().len());
    match s.recv_multipart().unwrap() {
        Step::Done(m) => assert_eq!(m, vec![Bytes::from_static(b"p1"), Bytes::from_static(b"p2")]),
        other => panic!("expected a message, got {other:?}"),
    }
}

#[test]
fn other_commands_are_skipped() {
    let mut theirs = frame(b"\x05HELLO", false, true);
    theirs.extend(frame(&ready_command("PUB", None), false, true));
    theirs.extend(frame(&subscribe_command(b""), false, true));
    theirs.extend(frame(&pong_command(b"x"), false, true));
    theirs.extend(frame(b"m", false, false));
    let mut s = open_stream(100);
    s.received(&theirs).unwrap();
    let mut wire = vec![];
    assert_eq!(
        recv(&mut s, &mut wire).unwrap(),
        Some(vec![Bytes::from_static(b"m")])
    );
    assert!(wire.is_empty());
    // a later READY does not change what the peer is known by
    assert_eq!(&s.peer_meta()[0].1[..], b"ROUTER");
}

#[test]
fn receive_failures() {
    let after = |bytes: &[u8]| {
        let mut s = open_stream(100);
        s.received(bytes).unwrap();
        protocol_message(s.recv_multipart())
    };
    assert_eq!(after(&frame(b"\x05ERROR\x03bad", false, true)), "peer error: bad");
    assert_eq!(after(&frame(b"\x04PING\x00", false, true)), "truncated PING");
    assert_eq!(after(&frame(b"", false, true)), "truncated command name");
    assert_eq!(after(b"\x08\x00"), "reserved frame flag bits set");
    assert_eq!(
        after(&frame(&[0; 101], false, false)),
        "frame of 101 bytes exceeds cap of 100"
    );
    let mut s = open_stream(100);
    assert_eq!(protocol_message(s.received(b"")), "connection closed by peer");
    assert_eq!(protocol_message(peer_error::<()>("gone")), "peer error: gone");
}

#[test]
fn queued_bytes_are_written_before_a_message_is_read() {
    let mut s = open_stream(100);
    s.received(&message(&[b"in"])).unwrap();
    s.send_multipart(&[b"out"]);
    assert!(matches!(s.recv_multipart().unwrap(), Step::Write));
    let mut wire = vec![];
    assert_eq!(
        recv(&mut s, &mut wire).unwrap(),
        Some(vec![Bytes::from_static(b"in")])
    );
    assert_eq!(wire, message(&[b"out"]));
}

#[test]
fn stopped_send_resumes_at_every_byte() {
    let first: [&[u8]; 2] = [b"head", b"tail"];
    let second: [&[u8]; 1] = [b"after"];
    let mut expected = message(&first);
    expected.extend(message(&second));
    for n in 0..=message(&first).len() {
        let mut s = open_stream(100);
        let mut wire = vec![];
        s.send_multipart(&first);
        wire.extend_from_slice(&s.pending()[..n]);
        s.sent(n);
        s.send_multipart(&second);
        flush(&mut s, &mut wire);
        assert_eq!(wire, expected);

        let mut peer = open_stream(100);
        peer.received(&wire).unwrap();
        let mut none = vec![];
        assert_eq!(
            recv(&mut peer, &mut none).unwrap(),
            Some(vec![Bytes::from_static(b"head"), Bytes::from_static(b"tail")])
        );
        assert_eq!(
            recv(&mut peer, &mut none).unwrap(),
            Some(vec![Bytes::from_static(b"after")])
        );
        assert_eq!(recv(&mut peer, &mut none).unwrap(), None);
    }
}

#[test]
fn dropped_receive_resumes_at_every_byte_of_a_pong() {
    let mut theirs = frame(b"p1", true, false);
    theirs.extend(frame(b"\x04PING\x00\x01ctx", false, true));
    theirs.extend(frame(b"p2", false, false));
    let pong = frame(b"\x04PONGctx", false, true);
    for n in 0..=pong.len() {
        let mut s = open_stream(100);
        let mut wire = vec![];
        s.received(&theirs).unwrap();
        assert!(matches!(s.recv_multipart().unwrap(), Step::Write));
        wire.extend_from_slice(&s.pending()[..n]);
        s.sent(n); // dropped here
        assert_eq!(
            recv(&mut s, &mut wire).unwrap(),
            Some(vec![Bytes::from_static(b"p1"), Bytes::from_static(b"p2")])
        );
        assert_eq!(wire, pong);
    }
}

#[test]
fn handshake_writes_may_stop_at_every_byte() {
    let mut expected = encode_greeting().to_vec();
    expected.extend(frame(&ready_command("DEALER", Some(b"tid")), false, true));
    for n in 0..=GREETING_LEN {
        let mut h = Dealer::from_stream(Some(b"tid"));
        let mut wire = h.pending()[..n].to_vec();
        h.sent(n);
        assert!(drive(h, &peer_opening("ROUTER"), 1 << 16, &mut wire).is_ok());
        assert_eq!(wire, expected);
    }
}

#[test]
fn peer_of_a_later_version_is_let_in() {
    let mut theirs = peer_opening("ROUTER");
    theirs[10] = 4;
    theirs[11] = 0;
    let mut wire = vec![];
    let s = drive(Dealer::from_stream(None), &theirs, 1 << 16, &mut wire).unwrap();
    assert_eq!(&s.peer_meta()[0].1[..], b"ROUTER");
    assert_eq!(wire[10..12], [3, 1]);
}

#[test]
fn receiving_does_not_grow() {
    let held = |s: &ZmtpStream| isize::MAX as usize - s.room() + s.pending().len();
    let mut s = open_stream(1000);
    s.received(&frame(&[b"\x04PING\x00\x00".as_ref(), &[1; 300]].concat(), false, true))
        .unwrap();
    let before = held(&s);
    assert!(matches!(s.recv_multipart().unwrap(), Step::Write));
    assert_eq!(s.pending().len(), 9 + 5 + 300);
    assert!(held(&s) < before);
}

#[test]
fn subscribing_queues_a_command() {
    let s = drive(Sub::from_stream(), &peer_opening("PUB"), 1 << 16, &mut vec![]).unwrap();
    let mut sub = Sub(s);
    sub.subscribe(b"");
    sub.subscribe(b"stream.");
    let mut expected = frame(b"\x09SUBSCRIBE", false, true);
    expected.extend(frame(b"\x09SUBSCRIBEstream.", false, true));
    assert_eq!(sub.0.pending(), &expected[..]);
    assert!(matches!(sub.recv().unwrap(), Step::Write));
    assert_eq!(&sub.peer_meta()[0].1[..], b"PUB");
}

#[test]
fn default_cap_is_64_mib() {
    assert_eq!(DEFAULT_MAX_FRAME, 67_108_864);
    let (mut d, _) = scripted_peer("ROUTER");
    d.0.received(&[2, 0, 0, 0, 0, 4, 0, 0, 1]).unwrap();
    assert_eq!(
        protocol_message(d.recv()),
        "frame of 67108865 bytes exceeds cap of 67108864"
    );
}
