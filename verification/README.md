# Agent Golf

A putting game for the terminal. The ball rolls over an energy landscape, a sum
of Gaussian hills and hollows, towards a hole. On the first landscape it tends
to get stuck in a local minimum; `r` reshapes the landscape into one wide basin.

The rules live in `src/`, a library verified with Verus:

- `rounding`, `significand`, `number`, `division`, `convert`: binary64 numbers
  held as their encodings. Each operation is stated as the exact result rounded
  once to the nearest number, ties to even, and proved to return it.
- `order`, `bounds`: how the arithmetic respects the order of numbers, how large
  results can be, and how far they can be from the exact ones.
- `surface`, `landscape`: the Gaussians, the height and the slope at a point,
  the projection, the colours, the two landscapes and the way between them.
- `game`: the state of a game, and what keys and ticks do to it.
- `laws`, `shapes`, `motion`: what holds of the game as a whole, of the hills and
  the surface that they add up to, and of the ball on its way.
- `text`, `fixed`, `screen`, `canvas`: what is shown, and in which order.

The exponential, the cosine and the sine are handed in by the caller. The rows
of the screen come from `ratatui`'s layout.

`app/` is the terminal program: it draws what the library lays out and feeds it
the keys. `tests/` holds the arithmetic and the game against the machine's own
floating point, bit for bit.
