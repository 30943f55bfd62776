//! Agent Golf: a putting game on an energy landscape.
//!
//! The ball rolls over a sum of Gaussian hills and hollows towards a hole. On
//! the first landscape it tends to get stuck; a change of context reshapes the
//! landscape into one wide basin. The game runs on binary64 numbers held as
//! their encodings, so that every position is determined bit for bit; the
//! exponential, the cosine and the sine are handed in by the caller.

pub mod bounds;
pub mod canvas;
pub mod change;
pub mod closest;
pub mod constants;
pub mod convert;
pub mod division;
pub mod fixed;
pub mod game;
pub mod keys;
pub mod landscape;
pub mod laws;
pub mod motion;
pub mod nearness;
pub mod number;
pub mod order;
pub mod picture;
pub mod rolling;
pub mod rounding;
pub mod screen;
pub mod shapes;
pub mod shown;
pub mod significand;
pub mod slopes;
pub mod surface;
pub mod text;
