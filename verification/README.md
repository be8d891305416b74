# zmtpmini

Minimal ZMTP 3.1 client: connect-side DEALER and SUB sockets, with the protocol verified in Verus.

zmtpmini implements the corner of ZeroMQ that a Jupyter-style client needs. It connects to a
peer's ROUTER or XPUB socket, completes the ZMTP 3.1 NULL-security handshake (carrying an
`Identity` for DEALER), and exchanges multipart messages, without libzmq.

| Included | Deliberately absent |
| --- | --- |
| DEALER and SUB, connect side | bind, and all other socket types |
| ZMTP 3.1, NULL security | ZMTP 1.0/2.0/3.0, CURVE, PLAIN |
| PING answered with PONG; unknown commands skipped | sending PINGs |
| any byte stream; TCP (with `TCP_NODELAY`) in `app/` | automatic reconnection |
| a configurable frame-size cap (default 64 MiB) | unbounded internal queues |

## Layout

- `src/` is the verified library. It does no I/O.
  - `wire.rs`: greetings, frames and commands over byte buffers.
  - `socket.rs`: the handshake, `ZmtpStream`, `Dealer` and `Sub` as values between two byte
    streams.
  - `laws/`: what holds of the protocol as a whole.
  - `buffer.rs`, `text.rs`, `number.rs`, `error.rs`: buffers of the `bytes` crate, text, numbers
    and errors.
- `app/` holds the async sockets over tokio.
- `tests/` runs the library on concrete bytes.

## Use

Over tokio, with the sockets of `app/`:

```rust
let mut shell = Dealer::connect("127.0.0.1:5555", Some(b"my-session")).await?;
shell.send([&b"<IDS|MSG>"[..], b"", header, b"{}", b"{}", b"{}"]).await?;
let reply = shell.recv().await?;

let mut iopub = Sub::connect("127.0.0.1:5556").await?;
iopub.subscribe(b"").await?;
let msg = iopub.recv().await?;
```

Over any other transport, drive the library's values: `Step::Write` asks for `pending()` to be
written and `sent(n)` to be called, `Step::Read` for bytes to be read and handed to
`received(..)`, and `Step::Done` brings the outcome. All progress lives in these values, so a
driver may stop after any step and go on later. If a call returns `Err`, the connection is
unusable. Discard it.
