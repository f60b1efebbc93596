//! Player command deltas and the fixed position record of update frames.

use vstd::prelude::*;

verus! {

broadcast use vstd::std_specs::control_flow::group_control_flow_axioms;

use crate::bits::{BitReader, flagged_decode};
use crate::bitseq::bits_val;
use crate::bytes::{Reader, le_bytes_val};
use crate::parse::ParseError;

/// Delta-encoded player command. Absent fields keep their previous-tick
/// values; floating-point fields carry raw IEEE-754 bit patterns.
#[derive(Debug, Copy, Clone, PartialEq, Eq)]
pub struct UserCmdDelta {
    /// When absent, the command number is the previous one plus one.
    pub command_number: Option<u32>,
    /// When absent, the tick count is the previous one plus one.
    pub tick_count: Option<u32>,
    pub view_angles: (Option<u32>, Option<u32>, Option<u32>),
    pub forward: Option<u32>,
    pub side: Option<u32>,
    pub up: Option<u32>,
    pub buttons: Option<u32>,
    pub impulse: Option<u8>,
    /// An 11-bit weapon id and an optional 6-bit subtype.
    pub weapon_select: Option<(u16, Option<u8>)>,
    pub mouse_delta: (Option<i16>, Option<i16>),
}

/// Narrow an optional 32-bit field to a byte.
pub open spec fn opt_u8(v: Option<u32>) -> Option<u8> {
    match v {
        Some(x) => Some(x as u8),
        None => None,
    }
}

/// Narrow an optional 32-bit field to a signed 16-bit value.
pub open spec fn opt_i16(v: Option<u32>) -> Option<i16> {
    match v {
        Some(x) => Some((x as u16) as i16),
        None => None,
    }
}

/// Decode of a command delta from the front of a bit stream: the record and
/// the count of bits consumed.
pub open spec fn usercmd_decode(s: Seq<bool>) -> Option<(UserCmdDelta, int)> {
    match flagged_decode(s, 32) {
        None => None,
        Some((command_number, o1)) => match flagged_decode(s.skip(o1), 32) {
            None => None,
            Some((tick_count, d2)) => {
                let o2 = o1 + d2;
                match flagged_decode(s.skip(o2), 32) {
                    None => None,
                    Some((va0, d3)) => {
                        let o3 = o2 + d3;
                        match flagged_decode(s.skip(o3), 32) {
                            None => None,
                            Some((va1, d4)) => {
                                let o4 = o3 + d4;
                                match flagged_decode(s.skip(o4), 32) {
                                    None => None,
                                    Some((va2, d5)) => {
                                        let o5 = o4 + d5;
                                        usercmd_decode_rest(
                                            s,
                                            o5,
                                            command_number,
                                            tick_count,
                                            (va0, va1, va2),
                                        )
                                    },
                                }
                            },
                        }
                    },
                }
            },
        },
    }
}

/// Decode of the fields after the view angles, continuing at offset `o`.
pub open spec fn usercmd_decode_rest(
    s: Seq<bool>,
    o: int,
    command_number: Option<u32>,
    tick_count: Option<u32>,
    view_angles: (Option<u32>, Option<u32>, Option<u32>),
) -> Option<(UserCmdDelta, int)> {
    match flagged_decode(s.skip(o), 32) {
        None => None,
        Some((forward, d1)) => {
            let o1 = o + d1;
            match flagged_decode(s.skip(o1), 32) {
                None => None,
                Some((side, d2)) => {
                    let o2 = o1 + d2;
                    match flagged_decode(s.skip(o2), 32) {
                        None => None,
                        Some((up, d3)) => {
                            let o3 = o2 + d3;
                            match flagged_decode(s.skip(o3), 32) {
                                None => None,
                                Some((buttons, d4)) => {
                                    let o4 = o3 + d4;
                                    match flagged_decode(s.skip(o4), 8) {
                                        None => None,
                                        Some((impulse, d5)) => {
                                            let o5 = o4 + d5;
                                            match weapon_select_decode(s.skip(o5)) {
                                                None => None,
                                                Some((weapon_select, d6)) => {
                                                    let o6 = o5 + d6;
                                                    match flagged_decode(s.skip(o6), 16) {
                                                        None => None,
                                                        Some((mx, d7)) => {
                                                            let o7 = o6 + d7;
                                                            match flagged_decode(s.skip(o7), 16) {
                                                                None => None,
                                                                Some((my, d8)) => Some(
                                                                    (
                                                                        UserCmdDelta {
                                                                            command_number,
                                                                            tick_count,
                                                                            view_angles,
                                                                            forward,
                                                                            side,
                                                                            up,
                                                                            buttons,
                                                                            impulse: opt_u8(
                                                                                impulse,
                                                                            ),
                                                                            weapon_select,
                                                                            mouse_delta: (
                                                                                opt_i16(mx),
                                                                                opt_i16(my),
                                                                            ),
                                                                        },
                                                                        o7 + d8,
                                                                    ),
                                                                ),
                                                            }
                                                        },
                                                    }
                                                },
                                            }
                                        },
                                    }
                                },
                            }
                        },
                    }
                },
            }
        },
    }
}

/// Decode of the weapon selection: a flag, then an 11-bit id and a flagged
/// 6-bit subtype.
pub open spec fn weapon_select_decode(s: Seq<bool>) -> Option<(Option<(u16, Option<u8>)>, int)> {
    if s.len() < 1 {
        None
    } else if !s[0] {
        Some((None::<(u16, Option<u8>)>, 1int))
    } else if s.len() < 12 {
        None
    } else {
        let id = bits_val(s.subrange(1, 12)) as u16;
        match flagged_decode(s.skip(12), 6) {
            None => None,
            Some((sub, d)) => Some((Some((id, opt_u8(sub))), 12 + d)),
        }
    }
}

impl UserCmdDelta {
    /// Decode a delta-encoded player command.
    pub fn parse(reader: &mut BitReader) -> (r: Result<UserCmdDelta, ParseError>)
        requires
            old(reader).wf(),
        ensures
            final(reader).wf(),
            match r {
                Ok(cmd) => {
                    &&& usercmd_decode(old(reader).remaining()) matches Some(d)
                    &&& cmd == usercmd_decode(old(reader).remaining())->Some_0.0
                    &&& final(reader).remaining() == old(reader).remaining().skip(
                        usercmd_decode(old(reader).remaining())->Some_0.1,
                    )
                },
                Err(_) => usercmd_decode(old(reader).remaining()) is None,
            },
    {
        let ghost s = reader.remaining();
        let command_number = reader.read_flagged(32)?;
        let ghost o1 = flagged_decode(s, 32)->Some_0.1;
        let tick_count = reader.read_flagged(32)?;
        let ghost o2 = o1 + flagged_decode(s.skip(o1), 32)->Some_0.1;
        proof {
            assert(reader.remaining() =~= s.skip(o2));
        }
        let va0 = reader.read_flagged(32)?;
        let ghost o3 = o2 + flagged_decode(s.skip(o2), 32)->Some_0.1;
        proof {
            assert(reader.remaining() =~= s.skip(o3));
        }
        let va1 = reader.read_flagged(32)?;
        let ghost o4 = o3 + flagged_decode(s.skip(o3), 32)->Some_0.1;
        proof {
            assert(reader.remaining() =~= s.skip(o4));
        }
        let va2 = reader.read_flagged(32)?;
        let ghost o5 = o4 + flagged_decode(s.skip(o4), 32)->Some_0.1;
        proof {
            assert(reader.remaining() =~= s.skip(o5));
        }
        Self::parse_rest(reader, Ghost(s), Ghost(o5), command_number, tick_count, (va0, va1, va2))
    }

    /// Decode the fields after the view angles.
    #[verifier::rlimit(100)]
    fn parse_rest(
        reader: &mut BitReader,
        s: Ghost<Seq<bool>>,
        o: Ghost<int>,
        command_number: Option<u32>,
        tick_count: Option<u32>,
        view_angles: (Option<u32>, Option<u32>, Option<u32>),
    ) -> (r: Result<UserCmdDelta, ParseError>)
        requires
            old(reader).wf(),
            0 <= o@ <= s@.len(),
            old(reader).remaining() == s@.skip(o@),
        ensures
            final(reader).wf(),
            match r {
                Ok(cmd) => {
                    &&& usercmd_decode_rest(s@, o@, command_number, tick_count, view_angles)
                        matches Some(d)
                    &&& cmd == usercmd_decode_rest(
                        s@,
                        o@,
                        command_number,
                        tick_count,
                        view_angles,
                    )->Some_0.0
                    &&& final(reader).remaining() == s@.skip(
                        usercmd_decode_rest(
                            s@,
                            o@,
                            command_number,
                            tick_count,
                            view_angles,
                        )->Some_0.1,
                    )
                },
                Err(_) => usercmd_decode_rest(s@, o@, command_number, tick_count, view_angles)
                    is None,
            },
    {
        let forward = reader.read_flagged(32)?;
        let side = reader.read_flagged(32)?;
        let up = reader.read_flagged(32)?;
        let buttons = reader.read_flagged(32)?;
        let impulse = reader.read_flagged(8)?;
        proof {
            Self::lemma_skip_chain(s@);
        }
        let ghost cur = reader.remaining();
        let weapon_select: Option<(u16, Option<u8>)> = if reader.read_bit()? {
            let id = reader.read_bits(11)?;
            proof {
                crate::bitseq::lemma_bits_val_bound(cur.skip(1).take(11));
                vstd::arithmetic::power2::lemma2_to64();
                assert(cur.skip(1).take(11) =~= cur.subrange(1, 12));
                assert(cur.skip(1).skip(11) =~= cur.skip(12));
            }
            let sub = reader.read_flagged(6)?;
            let subv: Option<u8> = match sub {
                Some(v) => Some(v as u8),
                None => None,
            };
            Some((id as u16, subv))
        } else {
            None
        };
        proof {
            Self::lemma_skip_chain(s@);
            Self::lemma_skip_chain(cur);
        }
        let mx = reader.read_flagged(16)?;
        let my = reader.read_flagged(16)?;
        proof {
            Self::lemma_skip_chain(s@);
        }
        let mxv: Option<i16> = match mx {
            Some(v) => Some(v as u16 as i16),
            None => None,
        };
        let myv: Option<i16> = match my {
            Some(v) => Some(v as u16 as i16),
            None => None,
        };
        Ok(
            UserCmdDelta {
                command_number,
                tick_count,
                view_angles,
                forward,
                side,
                up,
                buttons,
                impulse: match impulse {
                    Some(v) => Some(v as u8),
                    None => None,
                },
                weapon_select,
                mouse_delta: (mxv, myv),
            },
        )
    }

    /// Skipping twice is skipping the sum of the offsets.
    proof fn lemma_skip_chain(s: Seq<bool>)
        ensures
            forall|a: int, b: int|
                0 <= a && 0 <= b && a + b <= s.len() ==> #[trigger] s.skip(a).skip(b) =~= s.skip(
                    a + b,
                ),
    {
    }
}

/// The 76-byte position record of an update frame: a flags word, then two
/// groups of three vectors each, stored as raw IEEE-754 bit patterns.
#[derive(Debug, Copy, Clone, PartialEq, Eq)]
pub struct PositionUpdate {
    pub flags: u32,
    pub original: Position,
    pub resampled: Position,
}

/// A view position: origin, angles, and local angles, each of three raw
/// IEEE-754 bit patterns.
#[derive(Debug, Copy, Clone, PartialEq, Eq)]
pub struct Position {
    pub view_orgin: (u32, u32, u32),
    pub view_angles: (u32, u32, u32),
    pub view_angles_local: (u32, u32, u32),
}

/// Little-endian 32-bit word `i` of a byte sequence.
pub open spec fn le_word(s: Seq<u8>, i: int) -> u32 {
    le_bytes_val(s.subrange(4 * i, 4 * i + 4)) as u32
}

impl Position {
    /// Nine four-byte words.
    pub const LEN: usize = 36;

    /// Field-by-field correspondence with 36 bytes.
    pub open spec fn decodes(self, s: Seq<u8>) -> bool {
        &&& self.view_orgin == (le_word(s, 0), le_word(s, 1), le_word(s, 2))
        &&& self.view_angles == (le_word(s, 3), le_word(s, 4), le_word(s, 5))
        &&& self.view_angles_local == (le_word(s, 6), le_word(s, 7), le_word(s, 8))
    }

    /// Decode a position from exactly 36 bytes.
    pub fn from_bytes(bytes: &[u8]) -> (r: Position)
        requires
            bytes@.len() == 36,
        ensures
            r.decodes(bytes@),
    {
        let mut reader = Reader::new(bytes);
        let w0 = Self::word(&mut reader, Ghost(bytes@), 0);
        let w1 = Self::word(&mut reader, Ghost(bytes@), 1);
        let w2 = Self::word(&mut reader, Ghost(bytes@), 2);
        let w3 = Self::word(&mut reader, Ghost(bytes@), 3);
        let w4 = Self::word(&mut reader, Ghost(bytes@), 4);
        let w5 = Self::word(&mut reader, Ghost(bytes@), 5);
        let w6 = Self::word(&mut reader, Ghost(bytes@), 6);
        let w7 = Self::word(&mut reader, Ghost(bytes@), 7);
        let w8 = Self::word(&mut reader, Ghost(bytes@), 8);
        Position {
            view_orgin: (w0, w1, w2),
            view_angles: (w3, w4, w5),
            view_angles_local: (w6, w7, w8),
        }
    }

    /// Read word `i` of a position or position-update record.
    fn word(reader: &mut Reader, data: Ghost<Seq<u8>>, i: usize) -> (r: u32)
        requires
            old(reader).wf(),
            old(reader).spec_data() == data@,
            old(reader).spec_pos() == 4 * i,
            4 * i + 4 <= data@.len(),
        ensures
            final(reader).wf(),
            final(reader).spec_data() == data@,
            final(reader).spec_pos() == 4 * i + 4,
            r == le_word(data@, i as int),
    {
        let r = match reader.u32() {
            Ok(v) => v,
            Err(_) => {
                proof {
                    assert(false);
                }
                0
            },
        };
        proof {
            assert(old(reader).remaining().take(4) =~= data@.subrange(4 * i, 4 * i + 4));
        }
        r
    }
}

impl PositionUpdate {
    /// A flags word and two positions.
    pub const LEN: usize = 76;

    /// Field-by-field correspondence with 76 bytes.
    pub open spec fn decodes(self, s: Seq<u8>) -> bool {
        &&& self.flags == le_word(s, 0)
        &&& self.original.decodes(s.subrange(4, 40))
        &&& self.resampled.decodes(s.subrange(40, 76))
    }

    /// Decode a position update from exactly 76 bytes.
    pub fn from_bytes(bytes: &[u8]) -> (r: PositionUpdate)
        requires
            bytes@.len() == 76,
        ensures
            r.decodes(bytes@),
    {
        let flags_bytes = vstd::slice::slice_subrange(bytes, 0, 4);
        let mut reader = Reader::new(flags_bytes);
        let flags = match reader.u32() {
            Ok(v) => v,
            Err(_) => {
                proof {
                    assert(false);
                }
                0
            },
        };
        proof {
            assert(flags_bytes@.skip(0).take(4) =~= bytes@.subrange(0, 4));
        }
        let original = Position::from_bytes(vstd::slice::slice_subrange(bytes, 4, 40));
        let resampled = Position::from_bytes(vstd::slice::slice_subrange(bytes, 40, 76));
        PositionUpdate { flags, original, resampled }
    }

    /// Decode a position update by consuming 76 bytes from a cursor.
    pub fn read(input: &mut Reader) -> (r: Result<PositionUpdate, ParseError>)
        requires
            old(input).wf(),
        ensures
            final(input).wf(),
            final(input).spec_data() == old(input).spec_data(),
            old(input).spec_pos() <= final(input).spec_pos(),
            match r {
                Ok(p) => {
                    &&& old(input).remaining().len() >= 76
                    &&& p.decodes(old(input).remaining().take(76))
                    &&& final(input).spec_pos() == old(input).spec_pos() + 76
                },
                Err(e) => {
                    &&& *final(input) == *old(input)
                    &&& old(input).remaining().len() < 76
                    &&& e matches ParseError::Needed(_)
                },
            },
    {
        let bytes = input.bytes(76)?;
        Ok(Self::from_bytes(bytes))
    }
}

} // verus!
