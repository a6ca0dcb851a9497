# nats-ewebsock

A NATS client over WebSocket, with its protocol core verified in Verus.

- `src/` is the verified library: reading server messages (`INFO`, `MSG`,
  `+OK`, `-ERR`, `PING`, `PONG`) off the bytes of WebSocket messages, writing client
  messages (`PUB`, `SUB`, `UNSUB`, `PONG`), decimal numbers as `usize::from_str`
  and `to_string` treat them, and the connection as a state machine
  (`ConnectionState`) that says, for each event, what the caller is to do.
  The contracts state each result exactly over `Seq`-based models; proved
  laws include that a `MSG` frame reads back as the message it carries
  (`frame::lemma_msg_frame_parses`), that bytes after a message do not change
  how it reads (`server_message::lemma_parse_extends`), and that decimal text
  reads back as its number (`decimal::lemma_decimal_roundtrip`), and, over
  any run of a connection's steps, that callbacks are answered in the order
  they were queued, that messages are delivered in the order received, and
  that the connection is connected with the most recent `INFO` exactly when
  no closing came after it (`connection::lemma_*`).
- `app/` holds the connection itself: the `ewebsock` socket, the `tokio`
  message channel and the callbacks, driven by `ConnectionState`, and the
  `serde` reading of the server's JSON description.
- `tests/` runs the library on concrete inputs.
