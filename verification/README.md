# adroitly

A two-dimensional networked helicopter game. The library under `src/` holds
the parts that are proved with Verus:

- `serializer.rs`: the players' messages and their binary wire format
  (`Message::serialize`, `Message::deserialize`, `Message::len`), the
  splitting of a received buffer into messages (`split_messages`), with the
  round-trip, framing and length laws.
- `ip.rs`, `decimal.rs`: peer addresses `a.b.c.d:port`, read as `str::parse`
  reads them and written as `Display` writes them.
- `bytes.rs`: big-endian integers.
- `utils.rs`: the keyboard state that input events drive, and the clock.
- `bullet.rs`: the integer midpoint-circle outline of a bullet, and the
  check that its error term fits `i32`.

`app/` is the game itself: the SDL2 window, rendering, sockets and threads,
and the floating-point geometry and physics, which Verus does not check.
