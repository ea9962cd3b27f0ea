# lighter_ws

The core of a websocket client for the Lighter exchange, written in Verus.

`src/` is the verified library. It parses account subscriptions, builds the client, handles each
message of the exchange, merges updates into order books, and says what is to be sent and to whom
an update is handed.

- `text`, `text_map`, `decimal`: text, maps keyed by text, and numbers written as text.
- `json`, `wire`: JSON values, and their text form, which `serde_json` reads and writes.
- `subscription`, `message`, `order_book`: what account subscriptions, messages and order books mean.
- `builder`, `client`, `handshake`: the client, from its making to its messages.

Prices and amounts are compared as the decimal numbers that their texts spell. Rounding to
binary64 keeps that order, and an amount counts as zero where it rounds to zero.

`app/` opens the connection, reads and writes, and calls the handlers.
