//! ZMTP connections without I/O: handshake, multipart send/receive, `Dealer` and `Sub`.
//!
//! A connection here is a value between two byte streams. Whoever owns the transport hands in
//! what the peer sent ([`ZmtpStream::received`]), writes out what is queued
//! ([`ZmtpStream::pending`], [`ZmtpStream::sent`]), and asks for the next [`Step`].

use bytes::{Bytes, BytesMut};
use vstd::prelude::*;
use vstd::string::*;
use vstd::utf8::*;

use crate::buffer::{advance, as_slice, buffer_of, buffered, bytes_of, put_slice};
use crate::error::{perr, unexpected_eof, Error, Result};
use crate::text::{from_utf8_lossy, same_but_case, text_of};
use crate::wire::{
    check_greeting, command, compatible, decode_frame, decoded, encode_frame, encode_greeting,
    encoded, greeting, greeting_check, lemma_command_words, lemma_encoded_len, lemma_ready_len,
    may_connect, meta_view, opt_bytes, parse_command, pong, pong_command, ready, ready_command,
    short_split, subscribe_command, subscription, Command, CommandView, Decoded, Parsed, Property,
    RawFrame, GREETING_LEN,
};

verus! {

/// Default cap on a single frame's body size (64 MiB).
pub const DEFAULT_MAX_FRAME: usize = 64 * 1024 * 1024;

/// The bytes of the parts of a message.
pub open spec fn parts_view(parts: Seq<Bytes>) -> Seq<Seq<u8>> {
    Seq::new(parts.len(), |i: int| bytes_of(parts[i]))
}

/// The bytes of the slices that make up a message.
pub open spec fn slices_view(parts: Seq<&[u8]>) -> Seq<Seq<u8>> {
    Seq::new(parts.len(), |i: int| parts[i]@)
}

/// A multipart message on the wire: one frame for each part, all but the last saying that more
/// follow.
pub open spec fn multipart(parts: Seq<Seq<u8>>) -> Seq<u8>
    decreases parts.len(),
{
    if parts.len() == 0 {
        Seq::empty()
    } else {
        encoded(parts[0], parts.len() > 1, false) + multipart(parts.skip(1))
    }
}

/// What a connection holds.
#[verifier::ext_equal]
pub struct StreamState {
    /// Bytes received and not read yet.
    pub inbound: Seq<u8>,
    /// Bytes queued and not written yet.
    pub outbound: Seq<u8>,
    /// The parts so far of the message being received.
    pub parts: Seq<Seq<u8>>,
    /// The cap on a frame's body.
    pub max_frame: nat,
    /// Metadata properties from the peer's READY command.
    pub peer_meta: Seq<Property>,
}

/// What the owner of the transport is to do next.
#[derive(Debug)]
pub enum Step<T> {
    /// Write out what is pending.
    Write,
    /// Read from the peer and hand the bytes in.
    Read,
    /// Nothing more: here is the outcome.
    Done(T),
}

/// How receiving a message goes on.
pub enum Progress {
    /// There are bytes to write first.
    Write,
    /// The peer's next bytes are needed.
    Read,
    /// A whole message has come.
    Done(Seq<Seq<u8>>),
    /// The connection has failed, and why.
    Fail(Seq<char>),
}

/// Receive one message as far as the bytes at hand allow: queued bytes are written first, PINGs
/// are answered, other commands skipped, and the parts of the message collected.
pub open spec fn receive(s: StreamState) -> (StreamState, Progress)
    decreases s.inbound.len(),
{
    if s.outbound.len() > 0 {
        (s, Progress::Write)
    } else {
        match decoded(s.inbound, s.max_frame) {
            Decoded::Incomplete => (s, Progress::Read),
            Decoded::Refused(msg) => (s, Progress::Fail(msg)),
            Decoded::Complete(frame, rest) => {
                let next = StreamState { inbound: rest, ..s };
                if frame.command {
                    match command(frame.body) {
                        Err(msg) => (next, Progress::Fail(msg)),
                        Ok(CommandView::Error(reason)) => (
                            next,
                            Progress::Fail("peer error: "@ + reason),
                        ),
                        Ok(CommandView::Ping { context, .. }) => receive(
                            StreamState { outbound: encoded(pong(context), false, true), ..next },
                        ),
                        Ok(_) => receive(next),
                    }
                } else if frame.more {
                    receive(StreamState { parts: s.parts.push(frame.body), ..next })
                } else {
                    (
                        StreamState { parts: Seq::empty(), ..next },
                        Progress::Done(s.parts.push(frame.body)),
                    )
                }
            },
        }
    }
}

/// A connection past its handshake.
///
/// All progress (bytes received, a partially received message, bytes not written yet) lives in
/// this value, so whoever drives it may stop after any step and go on later. If a call returns
/// `Err`, the connection is unusable. Discard it.
pub struct ZmtpStream {
    rbuf: BytesMut,
    wbuf: BytesMut,
    parts: Vec<Bytes>,
    max_frame: usize,
    peer_meta: Vec<(String, Bytes)>,
}

impl View for ZmtpStream {
    type V = StreamState;

    closed spec fn view(&self) -> StreamState {
        StreamState {
            inbound: buffer_of(self.rbuf),
            outbound: buffer_of(self.wbuf),
            parts: parts_view(self.parts@),
            max_frame: self.max_frame as nat,
            peer_meta: meta_view(self.peer_meta@),
        }
    }
}

/// The PONG that answers a PING is shorter than the PING's own frame.
pub proof fn lemma_pong_fits(buf: Seq<u8>, max_frame: nat)
    ensures
        decoded(buf, max_frame) matches Decoded::Complete(frame, rest) ==> (command(
            frame.body,
        ) matches Ok(CommandView::Ping { context, .. }) ==> encoded(pong(context), false, true).len()
            + rest.len() < buf.len()),
{
    if let Decoded::Complete(frame, _) = decoded(buf, max_frame) {
        if let Ok(CommandView::Ping { context, .. }) = command(frame.body) {
            lemma_command_words();
            lemma_encoded_len(pong(context), false, true);
            let (name, rest) = short_split(frame.body)->Some_0;
            assert(name.len() == 4);
            assert(context == rest.skip(2));
            assert(context.len() + 7 == frame.body.len());
            assert(pong(context).len() == context.len() + 5);
        }
    }
}

impl ZmtpStream {
    /// The bytes to write to the peer, oldest first.
    pub fn pending(&self) -> (s: &[u8])
        ensures
            s@ == self@.outbound,
    {
        buffered(&self.wbuf)
    }

    /// Note that the first `n` pending bytes have been written.
    pub fn sent(&mut self, n: usize)
        requires
            n <= old(self)@.outbound.len(),
        ensures
            final(self)@ == (StreamState {
                outbound: old(self)@.outbound.skip(n as int),
                ..old(self)@
            }),
    {
        advance(&mut self.wbuf, n)
    }

    /// How many more bytes from the peer there is room for.
    pub fn room(&self) -> (n: usize)
        ensures
            n == isize::MAX - self@.inbound.len(),
    {
        let max: usize = isize::MAX as usize;
        max - self.rbuf.len()
    }

    /// Take in bytes that the peer sent. None at all means that it closed the connection.
    pub fn received(&mut self, data: &[u8]) -> (r: Result<()>)
        requires
            old(self)@.inbound.len() + data@.len() <= isize::MAX,
        ensures
            if data@.len() == 0 {
                r matches Err(e) && e.says("connection closed by peer"@)
            } else {
                r is Ok
            },
            final(self)@ == (StreamState { inbound: old(self)@.inbound + data@, ..old(self)@ }),
    {
        if data.is_empty() {
            assert(self@.inbound + data@ =~= self@.inbound);
            return perr("connection closed by peer".to_owned());
        }
        put_slice(&mut self.rbuf, data);
        Ok(())
    }

    /// Metadata properties from the peer's READY command.
    pub fn peer_meta(&self) -> (meta: &[(String, Bytes)])
        ensures
            meta_view(meta@) == self@.peer_meta,
    {
        self.peer_meta.as_slice()
    }

    /// Take the next frame off what was received. `None` means that the peer's next bytes are
    /// needed.
    fn read_frame(&mut self) -> (r: Result<Option<RawFrame>>)
        ensures
            match decoded(old(self)@.inbound, old(self)@.max_frame) {
                Decoded::Incomplete => r matches Ok(None) && final(self)@ == old(self)@,
                Decoded::Refused(msg) => (r matches Err(e) && e.says(msg)) && final(self)@ == old(
                    self,
                )@,
                Decoded::Complete(frame, rest) => {
                    &&& r matches Ok(Some(f)) && f@ == frame
                    &&& final(self)@ == (StreamState { inbound: rest, ..old(self)@ })
                },
            },
            old(self)@.inbound.len() <= isize::MAX,
    {
        // What a buffer holds never exceeds `isize::MAX`, as asking for its length shows.
        let _held: usize = self.rbuf.len();
        decode_frame(&mut self.rbuf, self.max_frame)
    }

    /// Queue a command frame with the body `body`.
    pub fn send_command(&mut self, body: &Bytes)
        requires
            old(self)@.outbound.len() + encoded(bytes_of(*body), false, true).len() <= isize::MAX,
        ensures
            final(self)@ == (StreamState {
                outbound: old(self)@.outbound + encoded(bytes_of(*body), false, true),
                ..old(self)@
            }),
    {
        encode_frame(as_slice(body), false, true, &mut self.wbuf)
    }

    /// Queue the PONG that echoes `context`.
    fn stage_pong(&mut self, context: &Bytes)
        requires
            old(self)@.outbound.len() + encoded(pong(bytes_of(*context)), false, true).len()
                <= isize::MAX,
        ensures
            final(self)@ == (StreamState {
                outbound: old(self)@.outbound + encoded(pong(bytes_of(*context)), false, true),
                ..old(self)@
            }),
    {
        let body = pong_command(as_slice(context));
        self.send_command(&body)
    }

    /// Queue one multipart message.
    pub fn send_multipart(&mut self, parts: &[&[u8]])
        requires
            old(self)@.outbound.len() + multipart(slices_view(parts@)).len() <= isize::MAX,
        ensures
            final(self)@ == (StreamState {
                outbound: old(self)@.outbound + multipart(slices_view(parts@)),
                ..old(self)@
            }),
    {
        let ghost all = slices_view(parts@);
        let ghost before = self@;
        let mut i: usize = 0;
        assert(all.skip(0) =~= all);
        while i < parts.len()
            invariant
                i <= parts@.len(),
                all == slices_view(parts@),
                before == old(self)@,
                before.outbound.len() + multipart(all).len() <= isize::MAX,
                self@.outbound + multipart(all.skip(i as int)) == before.outbound + multipart(all),
                self@ == (StreamState { outbound: self@.outbound, ..before }),
            decreases parts@.len() - i,
        {
            let ghost queued = self@.outbound;
            let ghost frame = encoded(all[i as int], all.skip(i as int).len() > 1, false);
            proof {
                assert(all.skip(i as int)[0] == parts@[i as int]@);
                assert(all.skip(i as int).skip(1) =~= all.skip(i + 1));
                assert((queued + multipart(all.skip(i as int))).len() == queued.len() + multipart(
                    all.skip(i as int),
                ).len());
                assert((before.outbound + multipart(all)).len() == before.outbound.len()
                    + multipart(all).len());
            }
            encode_frame(parts[i], i < parts.len() - 1, false, &mut self.wbuf);
            assert(queued + (frame + multipart(all.skip(i + 1))) =~= (queued + frame) + multipart(
                all.skip(i + 1),
            ));
            i = i + 1;
        }
        assert(self@.outbound + multipart(all.skip(i as int)) =~= self@.outbound);
    }

    /// Receive one multipart message, transparently answering PINGs and skipping other commands.
    pub fn recv_multipart(&mut self) -> (r: Result<Step<Vec<Bytes>>>)
        ensures
            final(self)@ == receive(old(self)@).0,
            match receive(old(self)@).1 {
                Progress::Write => r matches Ok(Step::Write),
                Progress::Read => r matches Ok(Step::Read),
                Progress::Done(message) => r matches Ok(Step::Done(m)) && parts_view(m@) == message,
                Progress::Fail(msg) => r matches Err(e) && e.says(msg),
            },
    {
        loop
            invariant
                receive(self@) == receive(old(self)@),
            decreases self@.inbound.len(),
        {
            if !self.wbuf.is_empty() {
                return Ok(Step::Write);
            }
            let ghost before = self@;
            let f = match self.read_frame() {
                Ok(Some(f)) => f,
                Ok(None) => return Ok(Step::Read),
                Err(e) => return Err(e),
            };
            if f.command {
                match parse_command(&f.body) {
                    Ok(Command::Ping { context, .. }) => {
                        proof {
                            lemma_pong_fits(before.inbound, before.max_frame);
                        }
                        self.stage_pong(&context);
                        assert(self@.outbound =~= encoded(pong(bytes_of(context)), false, true));
                    },
                    Ok(Command::Error(reason)) => return peer_error(reason.as_str()),
                    Ok(Command::Ready(_)) => {},
                    Ok(Command::Other) => {},
                    Err(e) => return Err(e),
                }
            } else {
                let more = f.more;
                let ghost body = f@.body;
                self.parts.push(f.body);
                assert(self@.parts =~= before.parts.push(body));
                if !more {
                    let mut parts: Vec<Bytes> = Vec::new();
                    std::mem::swap(&mut parts, &mut self.parts);
                    assert(self@.parts =~= Seq::empty());
                    return Ok(Step::Done(parts));
                }
            }
        }
    }
}

/// Fail with the reason that the peer gave in an ERROR command.
pub fn peer_error<T>(reason: &str) -> (r: Result<T>)
    ensures
        r matches Err(e) && e.says("peer error: "@ + reason@),
{
    perr("peer error: ".to_owned().concat(reason))
}

/// What a handshake holds.
#[verifier::ext_equal]
pub struct HandshakeState {
    /// Our socket type.
    pub socket_type: Seq<char>,
    /// Whether the peer's greeting has been accepted.
    pub greeted: bool,
    /// Our READY frame, until it is queued.
    pub ready: Seq<u8>,
    /// The connection that is being set up.
    pub stream: StreamState,
}

/// How a handshake goes on.
pub enum Handshaking {
    /// There are bytes to write first.
    Write(HandshakeState),
    /// The peer's next bytes are needed.
    Read(HandshakeState),
    /// The connection is established.
    Done(StreamState),
    /// The handshake has failed, and why.
    Fail(Seq<char>),
}

/// A handshake at its start: our greeting is queued, and READY is to follow once the peer has
/// greeted.
pub open spec fn opening(
    socket_type: Seq<char>,
    identity: Option<Seq<u8>>,
    max_frame: nat,
) -> HandshakeState {
    HandshakeState {
        socket_type,
        greeted: false,
        ready: encoded(ready(socket_type, identity), false, true),
        stream: StreamState {
            inbound: Seq::empty(),
            outbound: greeting(),
            parts: Seq::empty(),
            max_frame,
            peer_meta: Seq::empty(),
        },
    }
}

/// The socket type that the peer announces: the value of the first property of that name, in
/// letters of either case.
pub open spec fn announced_type(meta: Seq<Property>) -> Option<Seq<u8>>
    decreases meta.len(),
{
    if meta.len() == 0 {
        None
    } else if same_but_case(meta[0].0, "socket-type"@) {
        Some(meta[0].1)
    } else {
        announced_type(meta.skip(1))
    }
}

/// The words that refuse a peer's socket type.
pub open spec fn type_refusal(ours: Seq<char>, theirs: Seq<char>) -> Seq<char> {
    "peer socket type "@ + theirs + " is incompatible with "@ + ours
}

/// What is said of a peer's metadata: a socket type that it announces is a valid peer of ours.
pub open spec fn meta_check(ours: Seq<char>, meta: Seq<Property>) -> Parsed<()> {
    match announced_type(meta) {
        None => Ok(()),
        Some(theirs) => if valid_utf8(theirs) && may_connect(ours, decode_utf8(theirs)) {
            Ok(())
        } else {
            Err(type_refusal(ours, text_of(theirs)))
        },
    }
}

/// Carry a handshake on as far as the bytes at hand allow: queued bytes are written first, the
/// peer's greeting is checked and answered with READY, PINGs are answered, unknown commands
/// skipped, and the peer's own READY ends it.
pub open spec fn shake(h: HandshakeState) -> Handshaking
    decreases h.stream.inbound.len(),
{
    let s = h.stream;
    if s.outbound.len() > 0 {
        Handshaking::Write(h)
    } else if !h.greeted {
        if s.inbound.len() < GREETING_LEN {
            Handshaking::Read(h)
        } else {
            match greeting_check(s.inbound.take(GREETING_LEN as int)) {
                Err(msg) => Handshaking::Fail(msg),
                Ok(_) => shake(
                    HandshakeState {
                        greeted: true,
                        ready: Seq::empty(),
                        stream: StreamState {
                            inbound: s.inbound.skip(GREETING_LEN as int),
                            outbound: h.ready,
                            ..s
                        },
                        ..h
                    },
                ),
            }
        }
    } else {
        match decoded(s.inbound, s.max_frame) {
            Decoded::Incomplete => Handshaking::Read(h),
            Decoded::Refused(msg) => Handshaking::Fail(msg),
            Decoded::Complete(frame, rest) => {
                let next = StreamState { inbound: rest, ..s };
                if !frame.command {
                    Handshaking::Fail("message frame before handshake completed"@)
                } else {
                    match command(frame.body) {
                        Err(msg) => Handshaking::Fail(msg),
                        Ok(CommandView::Ready(meta)) => match meta_check(h.socket_type, meta) {
                            Ok(_) => Handshaking::Done(StreamState { peer_meta: meta, ..next }),
                            Err(msg) => Handshaking::Fail(msg),
                        },
                        Ok(CommandView::Error(reason)) => Handshaking::Fail(
                            "peer rejected handshake: "@ + reason,
                        ),
                        Ok(CommandView::Ping { context, .. }) => shake(
                            HandshakeState {
                                stream: StreamState {
                                    outbound: encoded(pong(context), false, true),
                                    ..next
                                },
                                ..h
                            },
                        ),
                        Ok(CommandView::Other) => shake(HandshakeState { stream: next, ..h }),
                    }
                }
            },
        }
    }
}

/// A ZMTP 3.1 NULL handshake in progress.
pub struct Handshake {
    socket_type: String,
    greeted: bool,
    ready: BytesMut,
    stream: ZmtpStream,
}

impl View for Handshake {
    type V = HandshakeState;

    closed spec fn view(&self) -> HandshakeState {
        HandshakeState {
            socket_type: self.socket_type@,
            greeted: self.greeted,
            ready: buffer_of(self.ready),
            stream: self.stream@,
        }
    }
}

/// What the owner of the transport is to do next in a handshake.
pub enum HandshakeStep {
    /// Write out what is pending.
    Write(Handshake),
    /// Read from the peer and hand the bytes in.
    Read(Handshake),
    /// The connection is established.
    Done(ZmtpStream),
}

/// Fail with the reason for which the peer rejected the handshake.
pub fn handshake_rejected<T>(reason: &str) -> (r: Result<T>)
    ensures
        r matches Err(e) && e.says("peer rejected handshake: "@ + reason@),
{
    perr("peer rejected handshake: ".to_owned().concat(reason))
}

/// Accept a peer of socket type `theirs` where it may connect to `ours`.
pub fn check_peer_type(ours: &str, theirs: &str) -> (r: Result<()>)
    ensures
        if may_connect(ours@, theirs@) {
            r is Ok
        } else {
            r matches Err(e) && e.says(type_refusal(ours@, theirs@))
        },
{
    if compatible(ours, theirs) {
        return Ok(());
    }
    let mut msg = "peer socket type ".to_owned();
    msg.append(theirs);
    msg.append(" is incompatible with ");
    msg.append(ours);
    perr(msg)
}

/// A text that holds U+FFFD names no socket type.
proof fn lemma_repaired_is_no_type(ours: Seq<char>, theirs: Seq<char>)
    requires
        theirs.contains('\u{FFFD}'),
    ensures
        !may_connect(ours, theirs),
{
    reveal_strlit("ROUTER");
    reveal_strlit("DEALER");
    reveal_strlit("REP");
    reveal_strlit("PUB");
    reveal_strlit("XPUB");
    let i = choose|i: int| 0 <= i < theirs.len() && theirs[i] == '\u{FFFD}';
    assert(theirs[i] > '\u{7f}');
    assert(is_ascii_chars("ROUTER"@) && is_ascii_chars("DEALER"@) && is_ascii_chars("REP"@));
    assert(is_ascii_chars("PUB"@) && is_ascii_chars("XPUB"@));
}

/// Accept a peer by its metadata: a socket type that it announces is a valid peer of `ours`.
pub fn check_meta(ours: &str, meta: &[(String, Bytes)]) -> (r: Result<()>)
    ensures
        match meta_check(ours@, meta_view(meta@)) {
            Ok(_) => r is Ok,
            Err(msg) => r matches Err(e) && e.says(msg),
        },
{
    let ghost all = meta_view(meta@);
    let mut i: usize = 0;
    assert(all.skip(0) =~= all);
    while i < meta.len()
        invariant
            i <= meta@.len(),
            all == meta_view(meta@),
            announced_type(all) == announced_type(all.skip(i as int)),
        decreases meta@.len() - i,
    {
        proof {
            assert(all.skip(i as int)[0] == (meta@[i as int].0@, bytes_of(meta@[i as int].1)));
            assert(all.skip(i as int).skip(1) =~= all.skip(i + 1));
        }
        if meta[i].0.as_str().eq_ignore_ascii_case("socket-type") {
            let theirs = from_utf8_lossy(as_slice(&meta[i].1));
            proof {
                if theirs@.contains('\u{FFFD}') {
                    lemma_repaired_is_no_type(ours@, theirs@);
                }
            }
            return check_peer_type(ours, theirs.as_str());
        }
        i = i + 1;
    }
    assert(announced_type(all.skip(i as int)) is None);
    Ok(())
}

impl ZmtpStream {
    /// Start the ZMTP 3.1 NULL handshake as `socket_type`, with optional Identity metadata.
    pub fn handshake(socket_type: &str, identity: Option<&[u8]>, max_frame: usize) -> (h: Handshake)
        requires
            encoded(ready(socket_type@, opt_bytes(identity)), false, true).len() <= isize::MAX,
        ensures
            h@ == opening(socket_type@, opt_bytes(identity), max_frame as nat),
    {
        let mut wbuf = BytesMut::new();
        let g = encode_greeting();
        put_slice(&mut wbuf, g.as_slice());
        let mut queued = BytesMut::new();
        let body = ready_command(socket_type, identity);
        encode_frame(as_slice(&body), false, true, &mut queued);
        let h = Handshake {
            socket_type: socket_type.to_owned(),
            greeted: false,
            ready: queued,
            stream: ZmtpStream {
                rbuf: BytesMut::new(),
                wbuf,
                parts: Vec::new(),
                max_frame,
                peer_meta: Vec::new(),
            },
        };
        assert(h@ =~= opening(socket_type@, opt_bytes(identity), max_frame as nat)) by {
            assert(h@.stream.outbound =~= greeting());
            assert(h@.ready =~= encoded(ready(socket_type@, opt_bytes(identity)), false, true));
            assert(h@.stream.parts =~= Seq::empty());
            assert(h@.stream.peer_meta =~= Seq::empty());
        }
        h
    }

    /// The first bytes received, as a greeting.
    fn peer_greeting(&self) -> (g: [u8; GREETING_LEN])
        requires
            self@.inbound.len() >= GREETING_LEN,
        ensures
            g@ == self@.inbound.take(GREETING_LEN as int),
    {
        let received = buffered(&self.rbuf);
        let mut g: [u8; GREETING_LEN] = [0u8; 64];
        let mut i: usize = 0;
        while i < GREETING_LEN
            invariant
                i <= GREETING_LEN <= received@.len(),
                forall|j: int| 0 <= j < i ==> g@[j] == received@[j],
            decreases GREETING_LEN - i,
        {
            g[i] = received[i];
            i = i + 1;
        }
        assert(g@ =~= self@.inbound.take(GREETING_LEN as int));
        g
    }
}

impl Handshake {
    /// The bytes to write to the peer, oldest first.
    pub fn pending(&self) -> (s: &[u8])
        ensures
            s@ == self@.stream.outbound,
    {
        self.stream.pending()
    }

    /// Note that the first `n` pending bytes have been written.
    pub fn sent(&mut self, n: usize)
        requires
            n <= old(self)@.stream.outbound.len(),
        ensures
            final(self)@ == (HandshakeState {
                stream: StreamState {
                    outbound: old(self)@.stream.outbound.skip(n as int),
                    ..old(self)@.stream
                },
                ..old(self)@
            }),
    {
        self.stream.sent(n)
    }

    /// How many more bytes from the peer there is room for.
    pub fn room(&self) -> (n: usize)
        ensures
            n == isize::MAX - self@.stream.inbound.len(),
    {
        self.stream.room()
    }

    /// Take in bytes that the peer sent. None at all means that it closed the connection, which
    /// is an I/O failure where it still owes bytes of its greeting.
    pub fn received(&mut self, data: &[u8]) -> (r: Result<()>)
        requires
            old(self)@.stream.inbound.len() + data@.len() <= isize::MAX,
        ensures
            if data@.len() > 0 {
                r is Ok
            } else if !old(self)@.greeted && old(self)@.stream.inbound.len() < GREETING_LEN {
                r matches Err(Error::Io(_))
            } else {
                r matches Err(e) && e.says("connection closed by peer"@)
            },
            final(self)@ == (HandshakeState {
                stream: StreamState {
                    inbound: old(self)@.stream.inbound + data@,
                    ..old(self)@.stream
                },
                ..old(self)@
            }),
    {
        if data.is_empty() && !self.greeted && self.stream.rbuf.len() < GREETING_LEN {
            assert(self@.stream.inbound + data@ =~= self@.stream.inbound);
            return Err(Error::from(unexpected_eof("early eof")));
        }
        self.stream.received(data)
    }

    /// Carry the handshake on as far as the bytes at hand allow.
    pub fn step(self) -> (r: Result<HandshakeStep>)
        ensures
            match shake(self@) {
                Handshaking::Write(next) => r matches Ok(HandshakeStep::Write(h)) && h@ == next,
                Handshaking::Read(next) => r matches Ok(HandshakeStep::Read(h)) && h@ == next,
                Handshaking::Done(open) => r matches Ok(HandshakeStep::Done(s)) && s@ == open,
                Handshaking::Fail(msg) => r matches Err(e) && e.says(msg),
            },
    {
        let mut h = self;
        loop
            invariant
                shake(h@) == shake(self@),
            decreases h@.stream.inbound.len(),
        {
            let ghost before = h@;
            if !h.stream.wbuf.is_empty() {
                return Ok(HandshakeStep::Write(h));
            }
            if !h.greeted {
                if h.stream.rbuf.len() < GREETING_LEN {
                    return Ok(HandshakeStep::Read(h));
                }
                let g = h.stream.peer_greeting();
                match check_greeting(&g) {
                    Ok(_) => {},
                    Err(e) => return Err(e),
                }
                advance(&mut h.stream.rbuf, GREETING_LEN);
                std::mem::swap(&mut h.ready, &mut h.stream.wbuf);
                h.greeted = true;
                assert(h@.ready =~= Seq::empty());
            } else {
                let f = match h.stream.read_frame() {
                    Ok(Some(f)) => f,
                    Ok(None) => return Ok(HandshakeStep::Read(h)),
                    Err(e) => return Err(e),
                };
                if !f.command {
                    return perr("message frame before handshake completed".to_owned());
                }
                match parse_command(&f.body) {
                    Ok(Command::Ready(meta)) => {
                        match check_meta(h.socket_type.as_str(), meta.as_slice()) {
                            Ok(_) => {},
                            Err(e) => return Err(e),
                        }
                        h.stream.peer_meta = meta;
                        return Ok(HandshakeStep::Done(h.stream));
                    },
                    Ok(Command::Error(reason)) => return handshake_rejected(reason.as_str()),
                    Ok(Command::Ping { context, .. }) => {
                        proof {
                            lemma_pong_fits(before.stream.inbound, before.stream.max_frame);
                        }
                        h.stream.stage_pong(&context);
                        assert(h@.stream.outbound =~= encoded(
                            pong(bytes_of(context)),
                            false,
                            true,
                        ));
                    },
                    Ok(Command::Other) => {},
                    Err(e) => return Err(e),
                }
            }
        }
    }
}

/// DEALER socket connected to a ROUTER, REP, or DEALER peer (e.g. a Jupyter kernel channel).
pub struct Dealer(pub ZmtpStream);

impl Dealer {
    /// Start the handshake as DEALER. A connection that it establishes makes a `Dealer`.
    pub fn from_stream(identity: Option<&[u8]>) -> (h: Handshake)
        requires
            encoded(ready("DEALER"@, opt_bytes(identity)), false, true).len() <= isize::MAX,
        ensures
            h@ == opening("DEALER"@, opt_bytes(identity), DEFAULT_MAX_FRAME as nat),
    {
        ZmtpStream::handshake("DEALER", identity, DEFAULT_MAX_FRAME)
    }

    /// Queue one multipart message.
    pub fn send(&mut self, parts: &[&[u8]])
        requires
            old(self).0@.outbound.len() + multipart(slices_view(parts@)).len() <= isize::MAX,
        ensures
            final(self).0@ == (StreamState {
                outbound: old(self).0@.outbound + multipart(slices_view(parts@)),
                ..old(self).0@
            }),
    {
        self.0.send_multipart(parts)
    }

    /// Receive one multipart message.
    pub fn recv(&mut self) -> (r: Result<Step<Vec<Bytes>>>)
        ensures
            final(self).0@ == receive(old(self).0@).0,
            match receive(old(self).0@).1 {
                Progress::Write => r matches Ok(Step::Write),
                Progress::Read => r matches Ok(Step::Read),
                Progress::Done(message) => r matches Ok(Step::Done(m)) && parts_view(m@) == message,
                Progress::Fail(msg) => r matches Err(e) && e.says(msg),
            },
    {
        self.0.recv_multipart()
    }

    /// Metadata properties from the peer's READY command.
    pub fn peer_meta(&self) -> (meta: &[(String, Bytes)])
        ensures
            meta_view(meta@) == self.0@.peer_meta,
    {
        self.0.peer_meta()
    }
}

/// SUB socket connected to an XPUB or PUB peer.
pub struct Sub(pub ZmtpStream);

impl Sub {
    /// Start the handshake as SUB. A connection that it establishes makes a `Sub`.
    pub fn from_stream() -> (h: Handshake)
        ensures
            h@ == opening("SUB"@, None, DEFAULT_MAX_FRAME as nat),
    {
        proof {
            lemma_ready_len("SUB"@, None);
            lemma_encoded_len(ready("SUB"@, None), false, true);
            reveal_strlit("SUB");
            is_ascii_chars_encode_utf8("SUB"@);
        }
        ZmtpStream::handshake("SUB", None, DEFAULT_MAX_FRAME)
    }

    /// Subscribe to messages whose first frame starts with `topic` (empty subscribes to everything).
    pub fn subscribe(&mut self, topic: &[u8])
        requires
            old(self).0@.outbound.len() + encoded(subscription(topic@), false, true).len()
                <= isize::MAX,
        ensures
            final(self).0@ == (StreamState {
                outbound: old(self).0@.outbound + encoded(subscription(topic@), false, true),
                ..old(self).0@
            }),
    {
        let body = subscribe_command(topic);
        self.0.send_command(&body)
    }

    /// Receive one multipart message.
    pub fn recv(&mut self) -> (r: Result<Step<Vec<Bytes>>>)
        ensures
            final(self).0@ == receive(old(self).0@).0,
            match receive(old(self).0@).1 {
                Progress::Write => r matches Ok(Step::Write),
                Progress::Read => r matches Ok(Step::Read),
                Progress::Done(message) => r matches Ok(Step::Done(m)) && parts_view(m@) == message,
                Progress::Fail(msg) => r matches Err(e) && e.says(msg),
            },
    {
        self.0.recv_multipart()
    }

    /// Metadata properties from the peer's READY command.
    pub fn peer_meta(&self) -> (meta: &[(String, Bytes)])
        ensures
            meta_view(meta@) == self.0@.peer_meta,
    {
        self.0.peer_meta()
    }
}

} // verus!
