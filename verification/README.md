# str0m

Parts of an RTP stack, written in Rust and proved with Verus.

- `src/packet` puts received packets in order and frames together. `buffer_rx` is the receive
  buffer, `segments` says what a whole frame is, `vp9` reads VP9 payload descriptors, and `laws`
  states what holds of a buffer over its whole life: if it holds back at all, frames come out in
  order, none twice.
- `src/rtcp` writes and reads sender reports, receiver reports and goodbyes. `packing` fills
  packets, `wire` is their layout in bytes, and `laws` states that reading gives back what was
  written.
- `src/sfu` decides which packets of a scalable stream go on to which client of a conference.
- `src/header` and `src/time` hold identifiers, headers and points in media time.
- `app` is ordinary Rust around the library: clocks, logging, the socket and web server of a chat.

A codec is brought in through the traits in `src/packet/codec.rs`. What an implementation can answer
is named by its `may_` relations, and the contracts of the buffer speak of them.

One call is taken on trust: `src/packet/shown.rs` hands what is shown of packets and frames to the
formatter of std, and claims nothing of the text.
