//! Greetings, frames and commands on concrete bytes.

use bytes::{BufMut, Bytes, BytesMut};
use zmtpmini::error::{io_failure, perr};
use zmtpmini::number::{decimal_string, read_u64};
use zmtpmini::socket::check_peer_type;
use zmtpmini::text::{bytes_eq, str_eq};
use zmtpmini::wire::{
    check_greeting, compatible, decode_frame, encode_frame, encode_greeting, parse_command,
    pong_command, ready_command, subscribe_command, unsupported_mechanism, Command, GREETING_LEN,
};
use zmtpmini::{Error, Result};

fn protocol_message<T>(r: Result<T>) -> String {
    match r {
        Err(Error::Protocol(m)) => m,
        Err(Error::Io(e)) => panic!("expected a protocol error, got {e}"),
        Ok(_) => panic!("expected a protocol error"),
    }
}

#[test]
fn frame_walk() {
    let mut out = BytesMut::new();
    encode_frame(b"hi", true, false, &mut out); // short, more
    encode_frame(&[7u8; 300], false, false, &mut out); // long form
    encode_frame(b"\x05READY", false, true, &mut out); // command
    let mut buf = BytesMut::new();

    // partial delivery: nothing decodes until enough bytes arrive
    buf.extend_from_slice(&out[..1]);
    assert!(decode_frame(&mut buf, 1 << 20).unwrap().is_none());
    buf.extend_from_slice(&out[1..]);

    let f = decode_frame(&mut buf, 1 << 20).unwrap().unwrap();
    assert!((f.more, f.command, &f.body[..]) == (true, false, b"hi"));
    let f = decode_frame(&mut buf, 1 << 20).unwrap().unwrap();
    assert!(!f.more && !f.command && f.body.len() == 300);
    let f = decode_frame(&mut buf, 1 << 20).unwrap().unwrap();
    assert!(f.command && &f.body[..] == b"\x05READY");
    assert!(buf.is_empty());

    // oversize length is rejected, not allocated
    let mut big = BytesMut::new();
    encode_frame(&[0u8; 300], false, false, &mut big);
    assert!(decode_frame(&mut big, 100).is_err());

    // reserved flag bits are a protocol error
    let mut bad = BytesMut::from(&[0x10u8, 0x00][..]);
    assert!(decode_frame(&mut bad, 100).is_err());
}

#[test]
fn greeting_and_commands() {
    let g = encode_greeting();
    assert!(check_greeting(&g).is_ok());

    let mut old = g;
    old[11] = 0; // ZMTP 3.0 peer: refused, clearly
    let e = check_greeting(&old).unwrap_err();
    assert!(e.to_string().contains("3.0"));

    let mut curve = g;
    curve[12..17].copy_from_slice(b"CURVE");
    assert!(check_greeting(&curve).is_err());

    let ready = ready_command("DEALER", Some(b"sess1"));
    match parse_command(&ready).unwrap() {
        Command::Ready(meta) => {
            assert!(
                meta.iter()
                    .any(|(k, v)| k.eq_ignore_ascii_case("socket-type") && &v[..] == b"DEALER")
            );
            assert!(
                meta.iter()
                    .any(|(k, v)| k.eq_ignore_ascii_case("identity") && &v[..] == b"sess1")
            );
        }
        c => panic!("expected Ready, got {c:?}"),
    }

    let mut ping = BytesMut::new();
    ping.put_u8(4);
    ping.put_slice(b"PING");
    ping.put_u16(100);
    ping.put_slice(b"ctx");
    match parse_command(&ping.freeze()).unwrap() {
        Command::Ping { ttl, context } => assert!(ttl == 100 && &context[..] == b"ctx"),
        c => panic!("expected Ping, got {c:?}"),
    }

    let pong = pong_command(b"ctx");
    assert!(pong.starts_with(b"\x04PONG") && pong.ends_with(b"ctx"));
    let sub = subscribe_command(b"");
    assert!(&sub[..] == b"\x09SUBSCRIBE");

    let mut other = BytesMut::new();
    other.put_u8(5);
    other.put_slice(b"HELLO");
    assert!(matches!(
        parse_command(&other.freeze()).unwrap(),
        Command::Other
    ));

    assert!(
        compatible("DEALER", "ROUTER") && compatible("SUB", "XPUB") && compatible("SUB", "PUB")
    );
    assert!(!compatible("DEALER", "PUB") && !compatible("SUB", "ROUTER"));
}

#[test]
fn greeting_bytes() {
    let g = encode_greeting();
    let mut expected = vec![0xFF, 0, 0, 0, 0, 0, 0, 0, 0, 0x7F, 3, 1];
    expected.extend_from_slice(b"NULL");
    expected.resize(GREETING_LEN, 0);
    assert_eq!(&g[..], &expected[..]);
}

#[test]
fn greeting_refusals() {
    let mut g = encode_greeting();
    g[0] = 0xFE;
    assert_eq!(protocol_message(check_greeting(&g)), "not a ZMTP peer (bad signature)");

    let mut g = encode_greeting();
    g[9] = 0x7E;
    assert_eq!(protocol_message(check_greeting(&g)), "not a ZMTP peer (bad signature)");

    let mut g = encode_greeting();
    g[9] = 0x01; // only the low bit counts
    assert!(check_greeting(&g).is_ok());

    let mut g = encode_greeting();
    g[10] = 2;
    g[11] = 105;
    assert_eq!(
        protocol_message(check_greeting(&g)),
        "peer speaks ZMTP 2.105; zmtpmini requires 3.1"
    );

    let mut g = encode_greeting();
    g[10] = 3;
    g[11] = 0;
    assert_eq!(
        protocol_message(check_greeting(&g)),
        "peer speaks ZMTP 3.0; zmtpmini requires 3.1"
    );

    let mut g = encode_greeting();
    g[10] = 0;
    g[11] = 255;
    assert_eq!(
        protocol_message(check_greeting(&g)),
        "peer speaks ZMTP 0.255; zmtpmini requires 3.1"
    );}

#[test]
fn later_versions_are_accepted() {
    for (major, minor) in [(3, 1), (3, 2), (3, 255), (4, 0), (4, 1), (255, 0)] {
        let mut g = encode_greeting();
        g[10] = major;
        g[11] = minor;
        assert!(check_greeting(&g).is_ok());
    }
    // whatever the version, the mechanism is to be NULL
    let mut g = encode_greeting();
    g[10] = 4;
    g[12..17].copy_from_slice(b"PLAIN");
    assert_eq!(
        protocol_message(check_greeting(&g)),
        "peer requires security mechanism \"PLAIN\"; only NULL is supported"
    );
}

#[test]
fn mechanism_is_quoted_in_the_refusal() {
    let mut g = encode_greeting();
    g[12..17].copy_from_slice(b"CURVE");
    assert_eq!(
        check_greeting(&g).unwrap_err().to_string(),
        "protocol error: peer requires security mechanism \"CURVE\"; only NULL is supported"
    );

    // quotes and backslashes are escaped
    let mut g = encode_greeting();
    g[12..16].copy_from_slice(b"A\"\\\n");
    assert_eq!(
        protocol_message(check_greeting(&g)),
        "peer requires security mechanism \"A\\\"\\\\\\n\"; only NULL is supported"
    );

    // something behind the padding is no NULL mechanism, though its name reads so
    let mut g = encode_greeting();
    g[31] = 1;
    assert_eq!(
        protocol_message(check_greeting(&g)),
        "peer requires security mechanism \"NULL\"; only NULL is supported"
    );

    // a name that fills the field
    let mut g = encode_greeting();
    g[12..32].copy_from_slice(&[b'X'; 20]);
    assert_eq!(
        protocol_message(check_greeting(&g)),
        "peer requires security mechanism \"XXXXXXXXXXXXXXXXXXXX\"; only NULL is supported"
    );

    // a name that is not UTF-8
    let mut g = encode_greeting();
    g[12..16].copy_from_slice(b"N\xFFLL");
    assert_eq!(
        protocol_message(check_greeting(&g)),
        format!(
            "peer requires security mechanism {:?}; only NULL is supported",
            "N\u{FFFD}LL"
        )
    );
    assert_eq!(
        protocol_message(unsupported_mechanism::<()>("\"PLAIN\"")),
        "peer requires security mechanism \"PLAIN\"; only NULL is supported"
    );
}

#[test]
fn short_and_long_frames() {
    for (more, command) in [(false, false), (true, false), (false, true), (true, true)] {
        let flags = u8::from(more) + 4 * u8::from(command);

        let mut out = BytesMut::new();
        encode_frame(&[9u8; 255], more, command, &mut out);
        assert_eq!(&out[..2], &[flags, 255]);
        assert_eq!(out.len(), 257);
        let f = decode_frame(&mut out, 255).unwrap().unwrap();
        assert_eq!((f.more, f.command, &f.body[..]), (more, command, &[9u8; 255][..]));

        let mut out = BytesMut::new();
        encode_frame(&[9u8; 256], more, command, &mut out);
        assert_eq!(&out[..9], &[flags + 2, 0, 0, 0, 0, 0, 0, 1, 0]);
        assert_eq!(out.len(), 265);
        let f = decode_frame(&mut out, 256).unwrap().unwrap();
        assert_eq!((f.more, f.command, &f.body[..]), (more, command, &[9u8; 256][..]));
    }
}

#[test]
fn empty_frame() {
    let mut out = BytesMut::new();
    encode_frame(b"", false, false, &mut out);
    assert_eq!(&out[..], &[0, 0]);
    let f = decode_frame(&mut out, 0).unwrap().unwrap();
    assert!(!f.more && !f.command && f.body.is_empty() && out.is_empty());
}

#[test]
fn frame_waits_for_its_last_byte() {
    for len in [0usize, 1, 255, 256, 300] {
        let mut whole = BytesMut::new();
        encode_frame(&vec![3u8; len], true, false, &mut whole);
        for n in 0..whole.len() {
            let mut part = BytesMut::from(&whole[..n]);
            assert!(decode_frame(&mut part, 300).unwrap().is_none());
            assert_eq!(&part[..], &whole[..n]);
        }
        assert_eq!(decode_frame(&mut whole, 300).unwrap().unwrap().body.len(), len);
    }
}

#[test]
fn later_bytes_do_not_change_a_frame() {
    let mut buf = BytesMut::new();
    encode_frame(b"first", false, false, &mut buf);
    buf.extend_from_slice(b"\xF0\xF0 later");
    let f = decode_frame(&mut buf, 100).unwrap().unwrap();
    assert_eq!(&f.body[..], b"first");
    assert_eq!(&buf[..], b"\xF0\xF0 later");
}

#[test]
fn oversize_is_refused_at_the_header() {
    let mut buf = BytesMut::from(&[2u8, 0, 0, 0, 0, 0, 0, 1, 0x2C][..]);
    assert_eq!(
        protocol_message(decode_frame(&mut buf, 100)),
        "frame of 300 bytes exceeds cap of 100"
    );
    let mut buf = BytesMut::from(&[0u8, 101][..]);
    assert_eq!(
        protocol_message(decode_frame(&mut buf, 100)),
        "frame of 101 bytes exceeds cap of 100"
    );
    let mut buf = BytesMut::from(&[2u8, 255, 255, 255, 255, 255, 255, 255, 255][..]);
    assert_eq!(
        protocol_message(decode_frame(&mut buf, 0)),
        "frame of 18446744073709551615 bytes exceeds cap of 0"
    );
    // within the largest cap there is, such a frame is one whose bytes have not come
    assert!(decode_frame(&mut buf, usize::MAX).unwrap().is_none());
}

#[test]
fn reserved_flags_are_refused() {
    for bit in 3..8 {
        let mut buf = BytesMut::from(&[1u8 << bit, 0][..]);
        assert_eq!(
            protocol_message(decode_frame(&mut buf, 100)),
            "reserved frame flag bits set"
        );
    }
    // one byte is too little to tell
    let mut buf = BytesMut::from(&[0x80u8][..]);
    assert!(decode_frame(&mut buf, 100).unwrap().is_none());
}

#[test]
fn ready_bytes() {
    assert_eq!(
        &ready_command("SUB", None)[..],
        b"\x05READY\x0BSocket-Type\x00\x00\x00\x03SUB"
    );
    assert_eq!(
        &ready_command("DEALER", Some(b"id"))[..],
        b"\x05READY\x0BSocket-Type\x00\x00\x00\x06DEALER\x08Identity\x00\x00\x00\x02id"
    );
    assert_eq!(ready_command("SUB", None).len(), 25);
}

#[test]
fn ready_round_trip() {
    let identity = vec![0xABu8; 70_000];
    match parse_command(&ready_command("DEALER", Some(&identity))).unwrap() {
        Command::Ready(meta) => {
            assert_eq!(meta.len(), 2);
            assert_eq!((meta[0].0.as_str(), &meta[0].1[..]), ("Socket-Type", &b"DEALER"[..]));
            assert_eq!((meta[1].0.as_str(), &meta[1].1[..]), ("Identity", &identity[..]));
        }
        c => panic!("expected Ready, got {c:?}"),
    }
    assert!(matches!(
        parse_command(&Bytes::from_static(b"\x05READY")).unwrap(),
        Command::Ready(meta) if meta.is_empty()
    ));
}

#[test]
fn command_refusals() {
    let said = |b: &'static [u8]| protocol_message(parse_command(&Bytes::from_static(b)));
    assert_eq!(said(b""), "truncated command name");
    assert_eq!(said(b"\x05READ"), "truncated command name");
    assert_eq!(said(b"\x05READY\x04abc"), "truncated metadata name");
    assert_eq!(said(b"\x05READY\x03abc\x00\x00\x00"), "truncated metadata value");
    assert_eq!(said(b"\x05READY\x03abc\x00\x00\x00\x02x"), "truncated metadata value");
    assert_eq!(said(b"\x05ERROR"), "truncated error reason");
    assert_eq!(said(b"\x05ERROR\x05oops"), "truncated error reason");
    assert_eq!(said(b"\x04PING\x00"), "truncated PING");
}

#[test]
fn error_command() {
    match parse_command(&Bytes::from_static(b"\x05ERROR\x04oopsmore")).unwrap() {
        Command::Error(reason) => assert_eq!(reason, "oops"),
        c => panic!("expected Error, got {c:?}"),
    }
}

#[test]
fn faulty_text_is_repaired() {
    match parse_command(&Bytes::from_static(b"\x05ERROR\x03a\xFFb")).unwrap() {
        Command::Error(reason) => assert_eq!(reason, "a\u{FFFD}b"),
        c => panic!("expected Error, got {c:?}"),
    }
    match parse_command(&Bytes::from_static(b"\x05READY\x02\xC3\xA9\x00\x00\x00\x01v")).unwrap() {
        Command::Ready(meta) => assert_eq!((meta[0].0.as_str(), &meta[0].1[..]), ("é", &b"v"[..])),
        c => panic!("expected Ready, got {c:?}"),
    }
    // a repaired name is no known command
    assert!(matches!(
        parse_command(&Bytes::from_static(b"\x05READ\xFF")).unwrap(),
        Command::Other
    ));
}

#[test]
fn ping_round_trip() {
    let body = Bytes::from_static(b"\x04PING\x12\x34");
    match parse_command(&body).unwrap() {
        Command::Ping { ttl, context } => assert!(ttl == 0x1234 && context.is_empty()),
        c => panic!("expected Ping, got {c:?}"),
    }
    assert_eq!(&body[..], b"\x04PING\x12\x34");
}

#[test]
fn our_commands_are_skipped_by_a_peer() {
    assert_eq!(&subscribe_command(b"topic")[..], b"\x09SUBSCRIBEtopic");
    assert_eq!(&pong_command(b"ctx")[..], b"\x04PONGctx");
    assert!(matches!(
        parse_command(&subscribe_command(b"topic")).unwrap(),
        Command::Other
    ));
    assert!(matches!(parse_command(&pong_command(b"ctx")).unwrap(), Command::Other));
}

#[test]
fn compatible_table() {
    let types = [
        "REQ", "REP", "DEALER", "ROUTER", "PUB", "SUB", "XPUB", "XSUB", "PUSH", "PULL", "PAIR", "",
        "router", "ROUTER ",
    ];
    for ours in types {
        for theirs in types {
            let expected = matches!(
                (ours, theirs),
                ("DEALER", "ROUTER" | "DEALER" | "REP") | ("SUB", "PUB" | "XPUB")
            );
            assert_eq!(compatible(ours, theirs), expected);
            assert_eq!(check_peer_type(ours, theirs).is_ok(), expected);
        }
    }
    assert_eq!(
        protocol_message(check_peer_type("SUB", "ROUTER")),
        "peer socket type ROUTER is incompatible with SUB"
    );
}

#[test]
fn error_texts() {
    assert_eq!(
        perr::<()>("bad".to_owned()).unwrap_err().to_string(),
        "protocol error: bad"
    );
    let io = std::io::Error::new(std::io::ErrorKind::Other, "boom");
    let e = Error::from(io);
    assert!(matches!(e, Error::Io(_)));
    assert_eq!(e.to_string(), "io error: boom");
    assert_eq!(io_failure("boom"), "io error: boom");
}

#[test]
fn numbers() {
    assert_eq!(read_u64(&[0, 0, 0, 0, 0, 0, 1, 2]), 258);
    assert_eq!(read_u64(&[255; 8]), u64::MAX);
    for n in [0u64, 7, 9, 10, 99, 100, 12_345_678_901, u64::MAX] {
        assert_eq!(decimal_string(n), format!("{n}"));
    }
}

#[test]
fn equality_of_bytes_and_text() {
    assert!(bytes_eq(b"", b"") && bytes_eq(b"abc", b"abc"));
    assert!(!bytes_eq(b"abc", b"abd") && !bytes_eq(b"abc", b"ab"));
    assert!(str_eq("é", "é") && !str_eq("é", "e") && !str_eq("READY", "ready"));
}
