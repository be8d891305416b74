//! Laws of the handshake: who is let in, what each side says, and that cuts do not matter.

use vstd::prelude::*;
use vstd::utf8::*;

use crate::laws::codec::{
    announcement, identity_len, law_decoding_is_stable, law_frame_round_trip,
    law_greeting_accepted, law_ping_is_read, law_ready_round_trip, ping,
};
use crate::laws::conversation::{with_later, written};
use crate::socket::{
    announced_type, opening, shake, type_refusal, HandshakeState, Handshaking, StreamState,
};
use crate::text::lemma_text_of_encoded;
use crate::wire::{
    command, decoded, encoded, greeting, greeting_check, lemma_encoded_len, lemma_property_names,
    lemma_ready_len, may_connect, pong, ready, CommandView, Decoded, GREETING_LEN,
};

verus! {

/// `h` with `later` received after what it holds.
pub open spec fn hearing(h: HandshakeState, later: Seq<u8>) -> HandshakeState {
    HandshakeState { stream: with_later(h.stream, later), ..h }
}

/// `h` once everything queued has been written.
pub open spec fn said(h: HandshakeState) -> HandshakeState {
    HandshakeState { stream: written(h.stream), ..h }
}

/// Later bytes change nothing of a step that needed no more bytes, and a step that waited for
/// bytes goes on from where it waited.
pub proof fn law_shake_resumes(h: HandshakeState, later: Seq<u8>)
    ensures
        shake(hearing(h, later)) == match shake(h) {
            Handshaking::Read(next) => shake(hearing(next, later)),
            Handshaking::Write(next) => Handshaking::Write(hearing(next, later)),
            Handshaking::Done(open) => Handshaking::Done(with_later(open, later)),
            Handshaking::Fail(msg) => Handshaking::Fail(msg),
        },
    decreases h.stream.inbound.len(),
{
    let s = h.stream;
    let all = s.inbound + later;
    law_decoding_is_stable(s.inbound, later, s.max_frame);
    if s.outbound.len() > 0 {
    } else if !h.greeted {
        if s.inbound.len() >= GREETING_LEN {
            let n = GREETING_LEN as int;
            assert(all.take(n) =~= s.inbound.take(n));
            assert(all.skip(n) =~= s.inbound.skip(n) + later);
            law_shake_resumes(
                HandshakeState {
                    greeted: true,
                    ready: Seq::empty(),
                    stream: StreamState { inbound: s.inbound.skip(n), outbound: h.ready, ..s },
                    ..h
                },
                later,
            );
        }
    } else if let Decoded::Complete(frame, rest) = decoded(s.inbound, s.max_frame) {
        let next = StreamState { inbound: rest, ..s };
        match command(frame.body) {
            Ok(CommandView::Ping { context, .. }) => law_shake_resumes(
                HandshakeState {
                    stream: StreamState {
                        outbound: encoded(pong(context), false, true),
                        ..next
                    },
                    ..h
                },
                later,
            ),
            Ok(CommandView::Other) => law_shake_resumes(
                HandshakeState { stream: next, ..h },
                later,
            ),
            _ => {},
        }
    }
}

/// A step reads forward only. A step that is to write has something to write, and has read
/// something unless that was queued before.
pub proof fn law_shake_keeps(h: HandshakeState)
    ensures
        shake(h) matches Handshaking::Write(next) ==> next.stream.outbound.len() > 0 && (
        next.stream.inbound.len() < h.stream.inbound.len() || next == h),
        shake(h) matches Handshaking::Read(next) ==> next.stream.outbound.len() == 0
            && next.stream.inbound.len() <= h.stream.inbound.len(),
    decreases h.stream.inbound.len(),
{
    let s = h.stream;
    if s.outbound.len() > 0 {
    } else if !h.greeted {
        if s.inbound.len() >= GREETING_LEN {
            law_shake_keeps(
                HandshakeState {
                    greeted: true,
                    ready: Seq::empty(),
                    stream: StreamState {
                        inbound: s.inbound.skip(GREETING_LEN as int),
                        outbound: h.ready,
                        ..s
                    },
                    ..h
                },
            );
        }
    } else if let Decoded::Complete(frame, rest) = decoded(s.inbound, s.max_frame) {
        let next = StreamState { inbound: rest, ..s };
        match command(frame.body) {
            Ok(CommandView::Ping { context, .. }) => law_shake_keeps(
                HandshakeState {
                    stream: StreamState {
                        outbound: encoded(pong(context), false, true),
                        ..next
                    },
                    ..h
                },
            ),
            Ok(CommandView::Other) => law_shake_keeps(HandshakeState { stream: next, ..h }),
            _ => {},
        }
    }
}

/// How a handshake over the bytes at hand ends.
pub enum Outcome {
    /// It waits for the peer's next bytes.
    Waiting(HandshakeState),
    /// The connection is established.
    Open(StreamState),
    /// The handshake has failed, and why.
    Failed(Seq<char>),
}

/// What comes of carrying a handshake on, with everything queued written at once.
#[verifier::ext_equal]
pub struct Introduction {
    /// The bytes written to the peer.
    pub sent: Seq<u8>,
    /// How it ends.
    pub end: Outcome,
}

/// `i` after some bytes were written.
pub open spec fn having_said(sent: Seq<u8>, i: Introduction) -> Introduction {
    Introduction { sent: sent + i.sent, end: i.end }
}

/// Carry a handshake on until the peer's next bytes are needed or it has ended.
pub open spec fn introduce(h: HandshakeState) -> Introduction
    decreases h.stream.inbound.len(), h.stream.outbound.len(),
{
    proof {
        law_shake_keeps(h);
    }
    match shake(h) {
        Handshaking::Write(next) => having_said(next.stream.outbound, introduce(said(next))),
        Handshaking::Read(next) => Introduction { sent: Seq::empty(), end: Outcome::Waiting(next) },
        Handshaking::Done(open) => Introduction { sent: Seq::empty(), end: Outcome::Open(open) },
        Handshaking::Fail(msg) => Introduction { sent: Seq::empty(), end: Outcome::Failed(msg) },
    }
}

/// However the peer's bytes are cut up, a handshake says the same and ends the same, and bytes
/// that come behind the peer's READY are kept for the connection.
pub proof fn law_cuts_do_not_matter_in_handshake(h: HandshakeState, later: Seq<u8>)
    ensures
        introduce(hearing(h, later)) == match introduce(h).end {
            Outcome::Waiting(waiting) => having_said(
                introduce(h).sent,
                introduce(hearing(waiting, later)),
            ),
            Outcome::Open(open) => Introduction {
                sent: introduce(h).sent,
                end: Outcome::Open(with_later(open, later)),
            },
            Outcome::Failed(_) => introduce(h),
        },
    decreases h.stream.inbound.len(), h.stream.outbound.len(),
{
    law_shake_keeps(h);
    law_shake_resumes(h, later);
    match shake(h) {
        Handshaking::Write(next) => {
            law_cuts_do_not_matter_in_handshake(said(next), later);
            assert(said(hearing(next, later)) == hearing(said(next), later));
            let i = introduce(said(next));
            if let Outcome::Waiting(waiting) = i.end {
                let rest = introduce(hearing(waiting, later));
                assert(having_said(next.stream.outbound, having_said(i.sent, rest)) =~= having_said(
                    next.stream.outbound + i.sent,
                    rest,
                ));
            }
        },
        Handshaking::Read(next) => {
            let rest = introduce(hearing(next, later));
            assert(having_said(Seq::empty(), rest) =~= rest);
        },
        _ => {},
    }
}

/// Writing may stop after any number of bytes and go on later: the handshake says the rest, and
/// ends the same.
pub proof fn law_stopped_write_resumes_in_handshake(h: HandshakeState, n: nat)
    requires
        n <= h.stream.outbound.len(),
    ensures
        having_said(
            h.stream.outbound.take(n as int),
            introduce(
                HandshakeState {
                    stream: StreamState {
                        outbound: h.stream.outbound.skip(n as int),
                        ..h.stream
                    },
                    ..h
                },
            ),
        ) == introduce(h),
{
    let out = h.stream.outbound;
    let front = out.take(n as int);
    let back = out.skip(n as int);
    let stopped = HandshakeState { stream: StreamState { outbound: back, ..h.stream }, ..h };
    let rest = introduce(said(h));
    if n == 0 {
        assert(stopped =~= h);
        assert(having_said(front, introduce(h)) =~= introduce(h));
    } else {
        assert(introduce(h) == having_said(out, rest));
        if back.len() == 0 {
            assert(stopped =~= said(h));
            assert(front =~= out);
        } else {
            assert(said(stopped) =~= said(h));
            assert(introduce(stopped) == having_said(back, rest));
            assert(front + back =~= out);
            assert(having_said(front, having_said(back, rest)) =~= having_said(out, rest));
        }
    }
}

/// A handshake that has said and heard a greeting and said READY, with `rest` to be read next.
pub open spec fn greeted(
    ours: Seq<char>,
    max_frame: nat,
    rest: Seq<u8>,
) -> HandshakeState {
    HandshakeState {
        socket_type: ours,
        greeted: true,
        ready: Seq::empty(),
        stream: StreamState {
            inbound: rest,
            outbound: Seq::empty(),
            parts: Seq::empty(),
            max_frame,
            peer_meta: Seq::empty(),
        },
    }
}

/// A handshake says its greeting first. A peer whose greeting is accepted is told READY with our
/// socket type and identity; a peer whose greeting is refused is told nothing more.
pub proof fn law_greetings_come_first(
    ours: Seq<char>,
    identity: Option<Seq<u8>>,
    max_frame: nat,
    theirs: Seq<u8>,
    rest: Seq<u8>,
)
    requires
        theirs.len() == GREETING_LEN,
    ensures
        introduce(hearing(opening(ours, identity, max_frame), theirs + rest)) == match greeting_check(
            theirs,
        ) {
            Ok(_) => having_said(
                greeting() + encoded(ready(ours, identity), false, true),
                introduce(greeted(ours, max_frame, rest)),
            ),
            Err(msg) => Introduction { sent: greeting(), end: Outcome::Failed(msg) },
        },
{
    let start = hearing(opening(ours, identity, max_frame), theirs + rest);
    let all = theirs + rest;
    law_greeting_accepted();
    assert(start.stream.inbound =~= all);
    assert(all.take(GREETING_LEN as int) =~= theirs);
    assert(all.skip(GREETING_LEN as int) =~= rest);
    let heard = said(start);
    let last = introduce(heard);
    assert(introduce(start) == having_said(greeting(), last));
    match greeting_check(theirs) {
        Ok(_) => {
            let answer = encoded(ready(ours, identity), false, true);
            lemma_encoded_len(ready(ours, identity), false, true);
            let told = HandshakeState {
                greeted: true,
                ready: Seq::empty(),
                stream: StreamState { inbound: rest, outbound: answer, ..heard.stream },
                ..heard
            };
            assert(shake(told) == Handshaking::Write(told));
            assert(shake(heard) == Handshaking::Write(told));
            assert(said(told) =~= greeted(ours, max_frame, rest));
            let i = introduce(greeted(ours, max_frame, rest));
            assert(having_said(greeting(), having_said(answer, i)) =~= having_said(
                greeting() + answer,
                i,
            ));
        },
        Err(_) => {
            assert(last.sent =~= Seq::empty());
            assert(introduce(start).sent =~= greeting());
        },
    }
}

/// A handshake with a peer that greets us validly and announces a socket type is established
/// exactly where that type may connect to ours. Then the connection knows what the peer
/// announced, and the bytes behind the peer's READY are still to be read. Otherwise the error
/// names both types.
#[verifier::rlimit(30)]
pub proof fn law_handshake_lets_in_valid_peers(
    ours: Seq<char>,
    identity: Option<Seq<u8>>,
    max_frame: nat,
    hello: Seq<u8>,
    theirs: Seq<char>,
    their_identity: Option<Seq<u8>>,
    tail: Seq<u8>,
)
    requires
        hello.len() == GREETING_LEN,
        greeting_check(hello) is Ok,
        encode_utf8(theirs).len() <= u32::MAX,
        identity_len(their_identity) <= u32::MAX,
        ready(theirs, their_identity).len() <= max_frame,
    ensures
        ({
            let heard = hello + (encoded(ready(theirs, their_identity), false, true) + tail);
            introduce(hearing(opening(ours, identity, max_frame), heard)) == Introduction {
                sent: greeting() + encoded(ready(ours, identity), false, true),
                end: if may_connect(ours, theirs) {
                    Outcome::Open(
                        StreamState {
                            inbound: tail,
                            outbound: Seq::empty(),
                            parts: Seq::empty(),
                            max_frame,
                            peer_meta: announcement(theirs, their_identity),
                        },
                    )
                } else {
                    Outcome::Failed(type_refusal(ours, theirs))
                },
            }
        }),
{
    let body = ready(theirs, their_identity);
    let rest = encoded(body, false, true) + tail;
    law_greetings_come_first(ours, identity, max_frame, hello, rest);
    lemma_ready_len(theirs, their_identity);
    law_frame_round_trip(body, false, true, tail, max_frame);
    law_ready_round_trip(theirs, their_identity);
    lemma_property_names();
    lemma_text_of_encoded(theirs);
    encode_utf8_valid_utf8(theirs);
    encode_utf8_decode_utf8(theirs);
    let meta = announcement(theirs, their_identity);
    assert(meta[0] == ("Socket-Type"@, encode_utf8(theirs)));
    assert(announced_type(meta) == Some(encode_utf8(theirs)));
    let all = greeting() + encoded(ready(ours, identity), false, true);
    assert(all + Seq::<u8>::empty() =~= all);
}

/// Two DEALERs that hear what the other says both establish the connection, and each knows the
/// other's identity.
pub proof fn law_dealers_connect(a: Option<Seq<u8>>, b: Option<Seq<u8>>, max_frame: nat)
    requires
        identity_len(a) <= u32::MAX,
        identity_len(b) <= u32::MAX,
        ready("DEALER"@, a).len() <= max_frame,
        ready("DEALER"@, b).len() <= max_frame,
    ensures
        ({
            let say_a = greeting() + encoded(ready("DEALER"@, a), false, true);
            let say_b = greeting() + encoded(ready("DEALER"@, b), false, true);
            let at_a = introduce(hearing(opening("DEALER"@, a, max_frame), say_b));
            let at_b = introduce(hearing(opening("DEALER"@, b, max_frame), say_a));
            &&& at_a.sent == say_a
            &&& at_b.sent == say_b
            &&& at_a.end matches Outcome::Open(open) && open.peer_meta == announcement(
                "DEALER"@,
                b,
            ) && open.inbound.len() == 0
            &&& at_b.end matches Outcome::Open(open) && open.peer_meta == announcement(
                "DEALER"@,
                a,
            ) && open.inbound.len() == 0
        }),
{
    reveal_strlit("DEALER");
    is_ascii_chars_encode_utf8("DEALER"@);
    let none = Seq::<u8>::empty();
    let ready_a = encoded(ready("DEALER"@, a), false, true);
    let ready_b = encoded(ready("DEALER"@, b), false, true);
    assert(ready_a + none =~= ready_a);
    assert(ready_b + none =~= ready_b);
    law_greeting_accepted();
    law_handshake_lets_in_valid_peers("DEALER"@, a, max_frame, greeting(), "DEALER"@, b, none);
    law_handshake_lets_in_valid_peers("DEALER"@, b, max_frame, greeting(), "DEALER"@, a, none);
}

/// A peer that sends a part of a message before its READY is refused.
pub proof fn law_early_message_is_refused(
    h: HandshakeState,
    body: Seq<u8>,
    more: bool,
    tail: Seq<u8>,
)
    requires
        h.greeted,
        h.stream.outbound.len() == 0,
        h.stream.inbound == encoded(body, more, false) + tail,
        body.len() <= h.stream.max_frame,
        body.len() <= u64::MAX,
    ensures
        introduce(h) == (Introduction {
            sent: Seq::empty(),
            end: Outcome::Failed("message frame before handshake completed"@),
        }),
{
    law_frame_round_trip(body, more, false, tail, h.stream.max_frame);
}

/// A PING before the peer's READY is answered with its PONG, and the handshake goes on as if it
/// had not come.
pub proof fn law_ping_in_handshake(
    h: HandshakeState,
    ttl: u16,
    context: Seq<u8>,
    tail: Seq<u8>,
)
    requires
        h.greeted,
        h.stream.outbound.len() == 0,
        h.stream.inbound == encoded(ping(ttl, context), false, true) + tail,
        ping(ttl, context).len() <= h.stream.max_frame,
        ping(ttl, context).len() <= u64::MAX,
    ensures
        introduce(h) == having_said(
            encoded(pong(context), false, true),
            introduce(
                HandshakeState { stream: StreamState { inbound: tail, ..h.stream }, ..h },
            ),
        ),
{
    let reply = encoded(pong(context), false, true);
    law_ping_is_read(ttl, context);
    law_frame_round_trip(ping(ttl, context), false, true, tail, h.stream.max_frame);
    lemma_encoded_len(pong(context), false, true);
    let quiet = HandshakeState { stream: StreamState { inbound: tail, ..h.stream }, ..h };
    let told = HandshakeState { stream: StreamState { outbound: reply, ..quiet.stream }, ..h };
    assert(shake(told) == Handshaking::Write(told));
    assert(shake(h) == Handshaking::Write(told));
    assert(said(told) =~= quiet);
}

/// An unknown command before the peer's READY is skipped.
pub proof fn law_unknown_command_in_handshake(
    h: HandshakeState,
    body: Seq<u8>,
    more: bool,
    tail: Seq<u8>,
)
    requires
        h.greeted,
        h.stream.outbound.len() == 0,
        h.stream.inbound == encoded(body, more, true) + tail,
        body.len() <= h.stream.max_frame,
        body.len() <= u64::MAX,
        command(body) matches Ok(CommandView::Other),
    ensures
        shake(h) == shake(
            HandshakeState { stream: StreamState { inbound: tail, ..h.stream }, ..h },
        ),
{
    law_frame_round_trip(body, more, true, tail, h.stream.max_frame);
}

} // verus!
