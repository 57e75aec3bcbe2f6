//! The logic of a server that tells every player of a large crowd about the players around it.
//!
//! `buffer`, `grid` and `router` keep a map of squares and gather what one player is told;
//! `simulation` walks a crowd over that map. `records`, `layout`, `ticker` and `shaders` belong to a
//! server that moves its players on a graphics device, `wire` to the datagrams that it sends, and
//! `viewer` to those who receive them. Positions are single-precision numbers, which `single`
//! models and `arith` computes with. `coverage` and `laws` state what holds of all of them together.
pub mod arith;
pub mod buffer;
pub mod coverage;
pub mod grid;
pub mod laws;
pub mod layout;
pub mod records;
pub mod router;
pub mod shaders;
pub mod simulation;
pub mod single;
pub mod ticker;
pub mod viewer;
pub mod wire;
