//! ZMTP 3.1 codec: greetings, frames, and commands over byte buffers.

use bytes::{Bytes, BytesMut};
use vstd::prelude::*;
use vstd::slice::slice_subrange;
use vstd::string::*;
use vstd::utf8::*;

use crate::buffer::{
    advance, as_slice, buffer_of, buffered, bytes_of, get_u16, get_u32, get_u8, put_slice, put_u32,
    put_u64, put_u8,
};
use crate::error::{perr, Result};
use crate::number::{be_bytes, be_value, decimal, decimal_string, lemma_be_bytes_len, read_u64};
use crate::text::{
    bytes_eq, debug_quoted, debug_str, from_utf8_lossy, lemma_text_of_encoded, same_but_case,
    str_eq, text_of,
};

verus! {

/// What reading the wire gives: a value, or the words that say why not.
pub type Parsed<T> = std::result::Result<T, Seq<char>>;

/// Byte length of a ZMTP greeting.
pub const GREETING_LEN: usize = 64;

/// A run of `n` zero bytes.
pub open spec fn zeros(n: nat) -> Seq<u8> {
    Seq::new(n, |i: int| 0u8)
}

/// The mechanism field of a greeting without security: `NULL`, padded to twenty bytes.
pub open spec fn null_mechanism() -> Seq<u8> {
    encode_utf8("NULL"@) + zeros(16)
}

/// Our greeting: signature, version 3.1, the NULL mechanism, not a server, filler.
pub open spec fn greeting() -> Seq<u8> {
    seq![0xFFu8, 0, 0, 0, 0, 0, 0, 0, 0, 0x7F] + seq![3u8, 1] + null_mechanism() + zeros(32)
}

/// The length of the run of bytes before the first zero.
pub open spec fn before_zero(s: Seq<u8>) -> nat
    decreases s.len(),
{
    if s.len() == 0 || s[0] == 0 {
        0
    } else {
        1 + before_zero(s.skip(1))
    }
}

/// The name in a mechanism field: what stands before its padding.
pub open spec fn mechanism_name(field: Seq<u8>) -> Seq<char> {
    text_of(field.take(before_zero(field) as int))
}

/// The words that refuse a mechanism, given its quoted name.
pub open spec fn mechanism_refusal(quoted: Seq<char>) -> Seq<char> {
    "peer requires security mechanism "@ + quoted + "; only NULL is supported"@
}

/// The words that refuse a protocol version.
pub open spec fn version_refusal(major: u8, minor: u8) -> Seq<char> {
    "peer speaks ZMTP "@ + decimal(major as nat) + "."@ + decimal(minor as nat)
        + "; zmtpmini requires 3.1"@
}

/// What is said of a peer's greeting: it has a ZMTP signature, version >= 3.1, and the NULL
/// mechanism, or it is refused for the first of these that it lacks.
pub open spec fn greeting_check(g: Seq<u8>) -> Parsed<()> {
    if g[0] != 0xFF || g[9] & 1 != 1 {
        Err("not a ZMTP peer (bad signature)"@)
    } else if g[10] < 3 || (g[10] == 3 && g[11] < 1) {
        Err(version_refusal(g[10], g[11]))
    } else if g.subrange(12, 32) != null_mechanism() {
        Err(mechanism_refusal(debug_quoted(mechanism_name(g.subrange(12, 32)))))
    } else {
        Ok(())
    }
}

/// The UTF-8 bytes of `NULL`.
pub proof fn lemma_null_bytes()
    ensures
        encode_utf8("NULL"@) == seq![0x4Eu8, 0x55, 0x4C, 0x4C],
{
    reveal_strlit("NULL");
    is_ascii_chars_encode_utf8("NULL"@);
    assert(encode_utf8("NULL"@) =~= seq![0x4Eu8, 0x55, 0x4C, 0x4C]);
}

/// Encode our greeting: ZMTP 3.1, NULL mechanism, as-client.
pub fn encode_greeting() -> (g: [u8; GREETING_LEN])
    ensures
        g@ == greeting(),
{
    let mut g: [u8; GREETING_LEN] = [0u8; 64];
    g[0] = 0xFF;
    g[9] = 0x7F;
    g[10] = 3;
    g[11] = 1;
    g[12] = 0x4E;
    g[13] = 0x55;
    g[14] = 0x4C;
    g[15] = 0x4C;
    proof {
        lemma_null_bytes();
        assert(g@ =~= greeting());
    }
    g
}

/// The error that refuses a security mechanism, given its quoted name.
pub fn unsupported_mechanism<T>(quoted: &str) -> (r: Result<T>)
    ensures
        r matches Err(e) && e.says(mechanism_refusal(quoted@)),
{
    let mut msg = "peer requires security mechanism ".to_owned();
    msg.append(quoted);
    msg.append("; only NULL is supported");
    perr(msg)
}

/// How many bytes stand before the first zero.
fn name_len(field: &[u8]) -> (n: usize)
    ensures
        n == before_zero(field@),
        n <= field@.len(),
{
    let mut n: usize = 0;
    assert(field@.skip(0) =~= field@);
    while n < field.len() && field[n] != 0
        invariant
            n <= field@.len(),
            n + before_zero(field@.skip(n as int)) == before_zero(field@),
        decreases field@.len() - n,
    {
        assert(field@.skip(n as int).skip(1) =~= field@.skip(n + 1));
        n = n + 1;
    }
    n
}

/// Validate a peer greeting, requiring ZMTP >= 3.1 and the NULL mechanism.
pub fn check_greeting(g: &[u8; GREETING_LEN]) -> (r: Result<()>)
    ensures
        match greeting_check(g@) {
            Ok(_) => r is Ok,
            Err(msg) => r matches Err(e) && e.says(msg),
        },
{
    if g[0] != 0xFF || g[9] & 1 != 1 {
        return perr("not a ZMTP peer (bad signature)".to_owned());
    }
    if g[10] < 3 || (g[10] == 3 && g[11] < 1) {
        let mut msg = "peer speaks ZMTP ".to_owned();
        msg.append(decimal_string(g[10] as u64).as_str());
        msg.append(".");
        msg.append(decimal_string(g[11] as u64).as_str());
        msg.append("; zmtpmini requires 3.1");
        return perr(msg);
    }
    let mech = slice_subrange(g.as_slice(), 12, 32);
    let null: [u8; 20] = [
        0x4E, 0x55, 0x4C, 0x4C, 0, 0, 0, 0, 0, 0, 0, 0, 0, 0, 0, 0, 0, 0, 0, 0,
    ];
    proof {
        lemma_null_bytes();
        assert(null@ =~= null_mechanism());
    }
    if !bytes_eq(mech, null.as_slice()) {
        let name = from_utf8_lossy(slice_subrange(mech, 0, name_len(mech)));
        assert(mech@.subrange(0, before_zero(mech@) as int) =~= mech@.take(
            before_zero(mech@) as int,
        ));
        return unsupported_mechanism(debug_str(name.as_str()).as_str());
    }
    Ok(())
}

/// Frame flag: more frames of the message follow.
pub const MORE: u8 = 1;

/// Frame flag: the length takes eight bytes.
pub const LONG: u8 = 2;

/// Frame flag: a command, not a part of a message.
pub const COMMAND: u8 = 4;

/// One ZMTP frame.
#[verifier::ext_equal]
pub struct Frame {
    /// Command frame (vs message frame).
    pub command: bool,
    /// More message frames follow.
    pub more: bool,
    /// Frame body.
    pub body: Seq<u8>,
}

/// What stands at the front of a run of received bytes.
pub enum Decoded {
    /// Not a whole frame yet.
    Incomplete,
    /// Nothing that may be read on, and why.
    Refused(Seq<char>),
    /// A frame, and the bytes after it.
    Complete(Frame, Seq<u8>),
}

/// The flag byte of a frame.
pub open spec fn flag_byte(more: bool, command: bool, long: bool) -> u8 {
    let more_bit = if more { MORE } else { 0 };
    let command_bit = if command { COMMAND } else { 0 };
    let long_bit = if long { LONG } else { 0 };
    more_bit | command_bit | long_bit
}

/// A frame as it goes over the wire: flags, the length of the body in one byte or, beyond 255, in
/// eight, and the body.
pub open spec fn encoded(body: Seq<u8>, more: bool, command: bool) -> Seq<u8> {
    if body.len() > 255 {
        seq![flag_byte(more, command, true)] + be_bytes(body.len(), 8) + body
    } else {
        seq![flag_byte(more, command, false), body.len() as u8] + body
    }
}

/// A frame takes two bytes more than its body, or nine where the body is longer than 255 bytes.
pub proof fn lemma_encoded_len(body: Seq<u8>, more: bool, command: bool)
    ensures
        encoded(body, more, command).len() == body.len() + if body.len() > 255 {
            9int
        } else {
            2int
        },
{
    lemma_be_bytes_len(body.len(), 8);
}

/// Whether a flag byte sets a bit that ZMTP reserves.
pub open spec fn reserved_set(flags: u8) -> bool {
    flags & !(MORE | LONG | COMMAND) != 0
}

/// The length of the frame header that starts with `flags`.
pub open spec fn header_len(flags: u8) -> nat {
    if flags & LONG != 0 {
        9
    } else {
        2
    }
}

/// The body length that the header at the front of `buf` announces.
pub open spec fn announced_len(buf: Seq<u8>) -> nat {
    if buf[0] & LONG != 0 {
        be_value(buf.subrange(1, 9))
    } else {
        buf[1] as nat
    }
}

/// The words that refuse a frame over the cap.
pub open spec fn oversize_refusal(len: nat, max_frame: nat) -> Seq<char> {
    "frame of "@ + decimal(len) + " bytes exceeds cap of "@ + decimal(max_frame)
}

/// Read the frame at the front of `buf`, with a body of at most `max_frame` bytes.
pub open spec fn decoded(buf: Seq<u8>, max_frame: nat) -> Decoded {
    if buf.len() < 2 {
        Decoded::Incomplete
    } else if reserved_set(buf[0]) {
        Decoded::Refused("reserved frame flag bits set"@)
    } else if buf.len() < header_len(buf[0]) {
        Decoded::Incomplete
    } else if announced_len(buf) > max_frame {
        Decoded::Refused(oversize_refusal(announced_len(buf), max_frame))
    } else if buf.len() < header_len(buf[0]) + announced_len(buf) {
        Decoded::Incomplete
    } else {
        let start = header_len(buf[0]) as int;
        let end = start + announced_len(buf);
        Decoded::Complete(
            Frame {
                command: buf[0] & COMMAND != 0,
                more: buf[0] & MORE != 0,
                body: buf.subrange(start, end),
            },
            buf.skip(end),
        )
    }
}

/// One decoded ZMTP frame.
#[derive(Debug)]
pub struct RawFrame {
    /// Command frame (vs message frame).
    pub command: bool,
    /// More message frames follow.
    pub more: bool,
    /// Frame body.
    pub body: Bytes,
}

impl View for RawFrame {
    type V = Frame;

    open spec fn view(&self) -> Frame {
        Frame { command: self.command, more: self.more, body: bytes_of(self.body) }
    }
}

/// Decode one frame from `buf`, returning `None` when more bytes are needed.
pub fn decode_frame(buf: &mut BytesMut, max_frame: usize) -> (r: Result<Option<RawFrame>>)
    ensures
        match decoded(buffer_of(*old(buf)), max_frame as nat) {
            Decoded::Incomplete => r matches Ok(None) && buffer_of(*final(buf)) == buffer_of(
                *old(buf),
            ),
            Decoded::Refused(msg) => (r matches Err(e) && e.says(msg)) && buffer_of(*final(buf))
                == buffer_of(*old(buf)),
            Decoded::Complete(frame, rest) => (r matches Ok(Some(f)) && f@ == frame) && buffer_of(
                *final(buf),
            ) == rest,
        },
{
    let ghost all = buffer_of(*buf);
    let have: usize = buf.len();
    if have < 2 {
        return Ok(None);
    }
    let flags: u8 = buffered(buf)[0];
    if flags & !(MORE | LONG | COMMAND) != 0 {
        return perr("reserved frame flag bits set".to_owned());
    }
    let hdr: usize;
    let announced: u64;
    if flags & LONG != 0 {
        if have < 9 {
            return Ok(None);
        }
        hdr = 9;
        announced = read_u64(slice_subrange(buffered(buf), 1, 9));
    } else {
        hdr = 2;
        announced = buffered(buf)[1] as u64;
    }
    if announced > max_frame as u64 {
        let mut msg = "frame of ".to_owned();
        msg.append(decimal_string(announced).as_str());
        msg.append(" bytes exceeds cap of ");
        msg.append(decimal_string(max_frame as u64).as_str());
        return perr(msg);
    }
    let len: usize = announced as usize;
    if have - hdr < len {
        return Ok(None);
    }
    advance(buf, hdr);
    let body = buf.split_to(len).freeze();
    proof {
        assert(all.skip(hdr as int).take(len as int) =~= all.subrange(hdr as int, hdr + len));
        assert(all.skip(hdr as int).skip(len as int) =~= all.skip(hdr + len));
    }
    Ok(Some(RawFrame { command: flags & COMMAND != 0, more: flags & MORE != 0, body }))
}

/// Append one encoded frame to `out`.
pub fn encode_frame(body: &[u8], more: bool, command: bool, out: &mut BytesMut)
    requires
        buffer_of(*old(out)).len() + encoded(body@, more, command).len() <= isize::MAX,
    ensures
        buffer_of(*final(out)) == buffer_of(*old(out)) + encoded(body@, more, command),
{
    proof {
        lemma_encoded_len(body@, more, command);
    }
    let ghost before = buffer_of(*out);
    let flags: u8 = (if more { MORE } else { 0 }) | (if command { COMMAND } else { 0 });
    if body.len() > 255 {
        put_u8(out, flags | LONG);
        put_u64(out, body.len() as u64);
    } else {
        assert(flags | 0 == flags) by (bit_vector);
        put_u8(out, flags);
        put_u8(out, body.len() as u8);
    }
    put_slice(out, body);
    assert(buffer_of(*out) =~= before + encoded(body@, more, command));
}

/// A property of a peer: its name, and its value.
pub type Property = (Seq<char>, Seq<u8>);

/// A command, as its frame body says it.
pub enum CommandView {
    /// Handshake metadata.
    Ready(Seq<Property>),
    /// Fatal error from the peer.
    Error(Seq<char>),
    /// Heartbeat request.
    Ping { ttl: u16, context: Seq<u8> },
    /// Any other command.
    Other,
}

/// A parsed ZMTP command frame.
#[derive(Debug)]
pub enum Command {
    /// Handshake metadata: (name, value) properties.
    Ready(Vec<(String, Bytes)>),
    /// Fatal error from the peer.
    Error(String),
    /// Heartbeat request; answer with PONG carrying `context`.
    Ping {
        /// Time to live, 1/100ths of a second (informational).
        ttl: u16,
        /// Opaque context echoed in the PONG.
        context: Bytes,
    },
    /// Any other command; ignored.
    Other,
}

/// The properties in a list of metadata.
pub open spec fn meta_view(meta: Seq<(String, Bytes)>) -> Seq<Property> {
    Seq::new(meta.len(), |i: int| (meta[i].0@, bytes_of(meta[i].1)))
}

impl View for Command {
    type V = CommandView;

    open spec fn view(&self) -> CommandView {
        match *self {
            Command::Ready(meta) => CommandView::Ready(meta_view(meta@)),
            Command::Error(reason) => CommandView::Error(reason@),
            Command::Ping { ttl, context } => CommandView::Ping { ttl, context: bytes_of(context) },
            Command::Other => CommandView::Other,
        }
    }
}

/// Split `b` into the bytes counted by its first byte and the bytes after them. There is no such
/// split where bytes are missing.
pub open spec fn short_split(b: Seq<u8>) -> Option<(Seq<u8>, Seq<u8>)> {
    if b.len() == 0 || b.len() < 1 + b[0] {
        None
    } else {
        Some((b.subrange(1, 1 + b[0]), b.skip(1 + b[0])))
    }
}

/// The words that refuse a string whose bytes are missing.
pub open spec fn truncated(what: Seq<char>) -> Seq<char> {
    "truncated "@ + what
}

/// Read a list of properties to its end: each a short name, and a value after its length in four
/// bytes.
pub open spec fn properties(b: Seq<u8>) -> Parsed<Seq<Property>>
    decreases b.len(),
{
    if b.len() == 0 {
        Ok(Seq::empty())
    } else {
        match short_split(b) {
            None => Err(truncated("metadata name"@)),
            Some((name, rest)) => {
                let n = be_value(rest.take(4)) as int;
                if rest.len() < 4 || rest.len() < 4 + n {
                    Err("truncated metadata value"@)
                } else {
                    match properties(rest.skip(4 + n)) {
                        Ok(others) => Ok(
                            seq![(text_of(name), rest.subrange(4, 4 + n))] + others,
                        ),
                        Err(msg) => Err(msg),
                    }
                }
            },
        }
    }
}

/// Read the body of a command frame.
pub open spec fn command(body: Seq<u8>) -> Parsed<CommandView> {
    match short_split(body) {
        None => Err(truncated("command name"@)),
        Some((name, rest)) => {
            if name == encode_utf8("READY"@) {
                match properties(rest) {
                    Ok(meta) => Ok(CommandView::Ready(meta)),
                    Err(msg) => Err(msg),
                }
            } else if name == encode_utf8("ERROR"@) {
                match short_split(rest) {
                    None => Err(truncated("error reason"@)),
                    Some((reason, _)) => Ok(CommandView::Error(text_of(reason))),
                }
            } else if name == encode_utf8("PING"@) {
                if rest.len() < 2 {
                    Err("truncated PING"@)
                } else {
                    Ok(
                        CommandView::Ping {
                            ttl: be_value(rest.take(2)) as u16,
                            context: rest.skip(2),
                        },
                    )
                }
            } else {
                Ok(CommandView::Other)
            }
        },
    }
}

/// Take a string with its length in one byte off the front of `buf`; `what` names it in the error.
fn short_str(buf: &mut Bytes, what: &str) -> (r: Result<String>)
    ensures
        match short_split(bytes_of(*old(buf))) {
            None => r matches Err(e) && e.says(truncated(what@)),
            Some((name, rest)) => {
                &&& r matches Ok(s) && {
                    &&& s@ == text_of(name)
                    &&& !valid_utf8(name) ==> s@.contains('\u{FFFD}')
                }
                &&& bytes_of(*final(buf)) == rest
            },
        },
{
    let ghost all = bytes_of(*buf);
    if buf.is_empty() {
        return perr("truncated ".to_owned().concat(what));
    }
    let n: usize = get_u8(buf) as usize;
    if buf.len() < n {
        return perr("truncated ".to_owned().concat(what));
    }
    let name = buf.split_to(n);
    proof {
        assert(all.skip(1).take(n as int) =~= all.subrange(1, 1 + n));
        assert(all.skip(1).skip(n as int) =~= all.skip(1 + n));
    }
    Ok(from_utf8_lossy(as_slice(&name)))
}

/// The text of a name equals an ASCII word exactly where the name holds the bytes of that word.
proof fn lemma_word(name: Seq<u8>, text: Seq<char>, word: Seq<char>)
    requires
        is_ascii_chars(word),
        text == text_of(name),
        !valid_utf8(name) ==> text.contains('\u{FFFD}'),
    ensures
        (text == word) == (name == encode_utf8(word)),
{
    lemma_text_of_encoded(word);
    if text == word {
        if !valid_utf8(name) {
            let i = choose|i: int| 0 <= i < text.len() && text[i] == '\u{FFFD}';
            assert(word[i] <= '\u{7f}');
        }
        decode_utf8_encode_utf8(name);
    }
}

/// Read a list of properties to its end.
fn read_properties(b: &mut Bytes) -> (r: Result<Vec<(String, Bytes)>>)
    ensures
        match properties(bytes_of(*old(b))) {
            Ok(meta) => r matches Ok(m) && meta_view(m@) == meta,
            Err(msg) => r matches Err(e) && e.says(msg),
        },
{
    let ghost all = bytes_of(*b);
    let mut meta: Vec<(String, Bytes)> = Vec::new();
    assert(meta_view(meta@) =~= Seq::empty());
    proof {
        if let Ok(m) = properties(all) {
            assert(Seq::<Property>::empty() + m =~= m);
        }
    }
    while !b.is_empty()
        invariant
            all == bytes_of(*old(b)),
            match properties(bytes_of(*b)) {
                Ok(others) => properties(all) == Parsed::Ok(meta_view(meta@) + others),
                Err(msg) => properties(all) == Parsed::<Seq<Property>>::Err(msg),
            },
        decreases bytes_of(*b).len(),
    {
        let ghost before = bytes_of(*b);
        let ghost seen = meta_view(meta@);
        let name = match short_str(b, "metadata name") {
            Ok(name) => name,
            Err(e) => return Err(e),
        };
        let ghost rest = bytes_of(*b);
        if b.len() < 4 {
            return perr("truncated metadata value".to_owned());
        }
        let n: usize = get_u32(b) as usize;
        if b.len() < n {
            return perr("truncated metadata value".to_owned());
        }
        let value = b.split_to(n);
        let ghost property = (name@, bytes_of(value));
        meta.push((name, value));
        proof {
            assert(rest.skip(4).take(n as int) =~= rest.subrange(4, 4 + n));
            assert(rest.skip(4).skip(n as int) =~= rest.skip(4 + n));
            assert(meta_view(meta@) =~= seen.push(property));
            if let Ok(others) = properties(rest.skip(4 + n)) {
                assert(seen + (seq![property] + others) =~= seen.push(property) + others);
            }
        }
    }
    proof {
        assert(properties(bytes_of(*b)) == Parsed::<Seq<Property>>::Ok(Seq::empty()));
        assert(meta_view(meta@) + Seq::<Property>::empty() =~= meta_view(meta@));
    }
    Ok(meta)
}

/// Parse a command frame body.
pub fn parse_command(body: &Bytes) -> (r: Result<Command>)
    ensures
        match command(bytes_of(*body)) {
            Ok(c) => r matches Ok(parsed) && parsed@ == c,
            Err(msg) => r matches Err(e) && e.says(msg),
        },
{
    let mut b = body.clone();
    let name = match short_str(&mut b, "command name") {
        Ok(name) => name,
        Err(e) => return Err(e),
    };
    proof {
        let raw = short_split(bytes_of(*body))->Some_0.0;
        reveal_strlit("READY");
        reveal_strlit("ERROR");
        reveal_strlit("PING");
        lemma_word(raw, name@, "READY"@);
        lemma_word(raw, name@, "ERROR"@);
        lemma_word(raw, name@, "PING"@);
    }
    if str_eq(name.as_str(), "READY") {
        match read_properties(&mut b) {
            Ok(meta) => Ok(Command::Ready(meta)),
            Err(e) => Err(e),
        }
    } else if str_eq(name.as_str(), "ERROR") {
        match short_str(&mut b, "error reason") {
            Ok(reason) => Ok(Command::Error(reason)),
            Err(e) => Err(e),
        }
    } else if str_eq(name.as_str(), "PING") {
        if b.len() < 2 {
            return perr("truncated PING".to_owned());
        }
        let ttl: u16 = get_u16(&mut b);
        Ok(Command::Ping { ttl, context: b })
    } else {
        Ok(Command::Other)
    }
}

/// A property on the wire: its short name, and its value after its length in four bytes. A value
/// too long for four bytes leaves only the low bits of its length there.
pub open spec fn property(name: Seq<char>, value: Seq<u8>) -> Seq<u8> {
    seq![encode_utf8(name).len() as u8] + encode_utf8(name) + be_bytes(
        (value.len() as u32) as nat,
        4,
    ) + value
}

/// The body of a READY command that announces `socket_type` and, where there is one, `identity`.
pub open spec fn ready(socket_type: Seq<char>, identity: Option<Seq<u8>>) -> Seq<u8> {
    let announced = seq![5u8] + encode_utf8("READY"@) + property(
        "Socket-Type"@,
        encode_utf8(socket_type),
    );
    match identity {
        Some(id) => announced + property("Identity"@, id),
        None => announced,
    }
}

/// The body of a SUBSCRIBE command.
pub open spec fn subscription(topic: Seq<u8>) -> Seq<u8> {
    seq![9u8] + encode_utf8("SUBSCRIBE"@) + topic
}

/// The body of a PONG command.
pub open spec fn pong(context: Seq<u8>) -> Seq<u8> {
    seq![4u8] + encode_utf8("PONG"@) + context
}

/// The bytes of an optional slice.
pub open spec fn opt_bytes(o: Option<&[u8]>) -> Option<Seq<u8>> {
    match o {
        Some(s) => Some(s@),
        None => None,
    }
}

/// The UTF-8 bytes of the command names, one for each letter.
pub proof fn lemma_command_words()
    ensures
        encode_utf8("READY"@) == seq![0x52u8, 0x45, 0x41, 0x44, 0x59],
        encode_utf8("ERROR"@) == seq![0x45u8, 0x52, 0x52, 0x4F, 0x52],
        encode_utf8("PING"@) == seq![0x50u8, 0x49, 0x4E, 0x47],
        encode_utf8("PONG"@) == seq![0x50u8, 0x4F, 0x4E, 0x47],
        encode_utf8("SUBSCRIBE"@) == seq![
            0x53u8,
            0x55,
            0x42,
            0x53,
            0x43,
            0x52,
            0x49,
            0x42,
            0x45,
        ],
{
    reveal_strlit("READY");
    reveal_strlit("ERROR");
    reveal_strlit("PING");
    reveal_strlit("PONG");
    reveal_strlit("SUBSCRIBE");
    is_ascii_chars_encode_utf8("READY"@);
    is_ascii_chars_encode_utf8("ERROR"@);
    is_ascii_chars_encode_utf8("PING"@);
    is_ascii_chars_encode_utf8("PONG"@);
    is_ascii_chars_encode_utf8("SUBSCRIBE"@);
    assert(encode_utf8("READY"@) =~= seq![0x52u8, 0x45, 0x41, 0x44, 0x59]);
    assert(encode_utf8("ERROR"@) =~= seq![0x45u8, 0x52, 0x52, 0x4F, 0x52]);
    assert(encode_utf8("PING"@) =~= seq![0x50u8, 0x49, 0x4E, 0x47]);
    assert(encode_utf8("PONG"@) =~= seq![0x50u8, 0x4F, 0x4E, 0x47]);
    assert(encode_utf8("SUBSCRIBE"@) =~= seq![
        0x53u8,
        0x55,
        0x42,
        0x53,
        0x43,
        0x52,
        0x49,
        0x42,
        0x45,
    ]);
}

/// The property names, one byte for each letter.
pub proof fn lemma_property_names()
    ensures
        encode_utf8("Socket-Type"@).len() == 11,
        encode_utf8("Identity"@).len() == 8,
        same_but_case("Socket-Type"@, "socket-type"@),
{
    reveal_strlit("Socket-Type");
    reveal_strlit("socket-type");
    reveal_strlit("Identity");
    is_ascii_chars_encode_utf8("Socket-Type"@);
    is_ascii_chars_encode_utf8("Identity"@);
}

/// The length of a READY command body.
pub proof fn lemma_ready_len(socket_type: Seq<char>, identity: Option<Seq<u8>>)
    ensures
        ready(socket_type, identity).len() == 22 + encode_utf8(socket_type).len() + match identity {
            Some(id) => 13 + id.len(),
            None => 0,
        },
{
    lemma_command_words();
    lemma_property_names();
    lemma_be_bytes_len((encode_utf8(socket_type).len() as u32) as nat, 4);
    if let Some(id) = identity {
        lemma_be_bytes_len((id.len() as u32) as nat, 4);
    }
}

/// Append one property to `out`.
fn put_property(out: &mut BytesMut, name: &str, value: &[u8])
    requires
        buffer_of(*old(out)).len() + property(name@, value@).len() <= isize::MAX,
    ensures
        buffer_of(*final(out)) == buffer_of(*old(out)) + property(name@, value@),
{
    proof {
        lemma_be_bytes_len((value@.len() as u32) as nat, 4);
    }
    let ghost before = buffer_of(*out);
    put_u8(out, name.len() as u8);
    put_slice(out, name.as_bytes());
    put_u32(out, value.len() as u32);
    put_slice(out, value);
    assert(buffer_of(*out) =~= before + property(name@, value@));
}

/// Encode a READY command body with `Socket-Type` and optional `Identity` metadata.
pub fn ready_command(socket_type: &str, identity: Option<&[u8]>) -> (r: Bytes)
    requires
        ready(socket_type@, opt_bytes(identity)).len() <= isize::MAX,
    ensures
        bytes_of(r) == ready(socket_type@, opt_bytes(identity)),
{
    let mut out = BytesMut::new();
    put_u8(&mut out, 5);
    put_slice(&mut out, "READY".as_bytes());
    put_property(&mut out, "Socket-Type", socket_type.as_bytes());
    if let Some(id) = identity {
        put_property(&mut out, "Identity", id)
    }
    assert(buffer_of(out) =~= ready(socket_type@, opt_bytes(identity)));
    out.freeze()
}

/// Encode a SUBSCRIBE command body (empty `topic` subscribes to everything).
pub fn subscribe_command(topic: &[u8]) -> (r: Bytes)
    requires
        subscription(topic@).len() <= isize::MAX,
    ensures
        bytes_of(r) == subscription(topic@),
{
    let mut out = BytesMut::new();
    put_u8(&mut out, 9);
    put_slice(&mut out, "SUBSCRIBE".as_bytes());
    put_slice(&mut out, topic);
    assert(buffer_of(out) =~= subscription(topic@));
    out.freeze()
}

/// Encode a PONG command body echoing `context`.
pub fn pong_command(context: &[u8]) -> (r: Bytes)
    requires
        pong(context@).len() <= isize::MAX,
    ensures
        bytes_of(r) == pong(context@),
{
    let mut out = BytesMut::new();
    put_u8(&mut out, 4);
    put_slice(&mut out, "PONG".as_bytes());
    put_slice(&mut out, context);
    assert(buffer_of(out) =~= pong(context@));
    out.freeze()
}

/// Whether a socket of type `theirs` is a valid peer of one of type `ours`.
pub open spec fn may_connect(ours: Seq<char>, theirs: Seq<char>) -> bool {
    ||| ours == "DEALER"@ && (theirs == "ROUTER"@ || theirs == "DEALER"@ || theirs == "REP"@)
    ||| ours == "SUB"@ && (theirs == "PUB"@ || theirs == "XPUB"@)
}

/// Is `theirs` a valid peer socket type for `ours`?
pub fn compatible(ours: &str, theirs: &str) -> (r: bool)
    ensures
        r == may_connect(ours@, theirs@),
{
    if str_eq(ours, "DEALER") {
        proof {
            reveal_strlit("DEALER");
            reveal_strlit("SUB");
            assert("DEALER"@.len() != "SUB"@.len());
        }
        str_eq(theirs, "ROUTER") || str_eq(theirs, "DEALER") || str_eq(theirs, "REP")
    } else if str_eq(ours, "SUB") {
        str_eq(theirs, "PUB") || str_eq(theirs, "XPUB")
    } else {
        false
    }
}

} // verus!
