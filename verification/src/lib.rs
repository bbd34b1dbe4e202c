//! A reactive dependency-graph computation engine, together with a set of
//! small verified components: a Luhn checksum validator, a minefield
//! annotator, a word capitalizer, a sensor ring-buffer bookkeeper with a
//! binary record codec, an in-memory file-system simulator, a circular
//! buffer, a repeating iterator, a calendar free-slot scanner, the counting
//! core of a cyclic thread barrier, and an occurrence tally.

pub mod barrier;
pub mod binpack;
pub mod capitalize;
pub mod calendar;
pub mod circbuf;
pub mod dirinfo;
pub mod luhn;
pub mod minesweeper;
pub mod mycycle;
pub mod sensors;
pub mod react;
pub mod strutil;
pub mod tally;
