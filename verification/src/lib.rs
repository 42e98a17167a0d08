//! Movement and self-collision core of a grid snake: an ordered body of grid
//! cells that advances one cell per tick in its current heading, can grow by
//! reclaiming its most recently vacated cell, and can report whether a given
//! cell collides with the body.

pub mod draw;
pub mod snake;
