//! Decoder for Source-engine demo recordings: a bit-level reader with exact
//! over-read semantics, the byte-level frame layer, the bit-packed message
//! layer, and the nested string-table and game-event codecs.

pub mod bits;
pub mod bitseq;
pub mod bytes;
pub mod event_data;
pub mod frame;
pub mod game_events;
pub mod header;
pub mod packets;
pub mod parse;
pub mod sound;
pub mod string_table;
pub mod usercmd;

use vstd::prelude::*;

verus! {

} // verus!
