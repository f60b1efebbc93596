//! The sound records carried inside play-sound message blobs: delta-encoded
//! against the previously decoded sound, with a compact sequence-number
//! update.

use vstd::prelude::*;

verus! {

broadcast use {
    vstd::seq_lib::lemma_seq_skip_of_skip,
    vstd::std_specs::control_flow::group_control_flow_axioms,
};

use crate::bits::{BitReader, InsufficientBits, flagged_decode};
use crate::packets::field;

/// A sound's nine flag bits.
#[derive(Debug, Copy, Clone, Eq, PartialEq, Structural)]
pub struct Flags(pub u16);

/// The mixing channel a sound plays on, a three-bit wire field.
#[derive(Debug, Copy, Clone, Eq, PartialEq, Structural)]
pub enum Channel {
    Auto,
    Weapon,
    Voice,
    Item,
    Body,
    Stream,
    Static,
    /// Reserved as the first voice allocation channel; not used by normal
    /// packets.
    Reserved,
}

impl Channel {
    /// The channel the low three bits of a wire value denote.
    pub open spec fn spec_from_id(id: u8) -> Channel {
        let low = id & 7;
        if low == 0 {
            Channel::Auto
        } else if low == 1 {
            Channel::Weapon
        } else if low == 2 {
            Channel::Voice
        } else if low == 3 {
            Channel::Item
        } else if low == 4 {
            Channel::Body
        } else if low == 5 {
            Channel::Stream
        } else if low == 6 {
            Channel::Static
        } else {
            Channel::Reserved
        }
    }

    fn from_id(id: u8) -> (r: Channel)
        ensures
            r == Self::spec_from_id(id),
    {
        match id & 7 {
            0 => Channel::Auto,
            1 => Channel::Weapon,
            2 => Channel::Voice,
            3 => Channel::Item,
            4 => Channel::Body,
            5 => Channel::Stream,
            6 => Channel::Static,
            _ => Channel::Reserved,
        }
    }
}

/// A fully resolved sound.
#[derive(Debug, Copy, Clone, Eq, PartialEq, Structural)]
pub struct Sound {
    /// Eleven bits on the wire.
    pub entity: u16,
    /// Thirteen bits on the wire.
    pub sound_index: u16,
    /// Nine bits on the wire.
    pub flags: Flags,
    /// Three bits on the wire.
    pub channel: Channel,
    pub ambient: bool,
    pub sentence: bool,
}

impl Default for Sound {
    /// The sound every delta chain starts from: entity and index zero, no
    /// flags, the static channel, neither ambient nor a sentence.
    fn default() -> (r: Sound)
        ensures
            r == (Sound {
                entity: 0u16,
                sound_index: 0u16,
                flags: Flags(0u16),
                channel: Channel::Static,
                ambient: false,
                sentence: false,
            }),
    {
        Sound {
            entity: 0,
            sound_index: 0,
            flags: Flags(0),
            channel: Channel::Static,
            ambient: false,
            sentence: false,
        }
    }
}

/// A delta-encoded sound: absent fields keep the previous sound's values,
/// except the two trailing flags, which are always sent.
#[derive(Debug, Clone, Copy, Eq, PartialEq, Structural)]
pub struct SoundDelta {
    pub entity: Option<u16>,
    pub sound_index: Option<u16>,
    pub flags: Option<Flags>,
    pub channel: Option<Channel>,
    pub ambient: bool,
    pub sentence: bool,
}

/// Decode of a sound delta from the front of a bit stream: four flagged
/// fields of eleven, thirteen, nine and three bits, then two plain bits.
pub open spec fn sound_delta_decode(s: Seq<bool>) -> Option<(SoundDelta, int)> {
    match flagged_decode(s, 11) {
        None => None,
        Some((entity, o1)) => match flagged_decode(s.skip(o1), 13) {
            None => None,
            Some((sound_index, d2)) => {
                let o2 = o1 + d2;
                match flagged_decode(s.skip(o2), 9) {
                    None => None,
                    Some((flags, d3)) => {
                        let o3 = o2 + d3;
                        match flagged_decode(s.skip(o3), 3) {
                            None => None,
                            Some((channel, d4)) => {
                                let o4 = o3 + d4;
                                if s.len() < o4 + 2 {
                                    None
                                } else {
                                    Some(
                                        (
                                            SoundDelta {
                                                entity: opt_u16(entity),
                                                sound_index: opt_u16(sound_index),
                                                flags: match flags {
                                                    Some(f) => Some(Flags(f as u16)),
                                                    None => None,
                                                },
                                                channel: match channel {
                                                    Some(c) => Some(
                                                        Channel::spec_from_id(c as u8),
                                                    ),
                                                    None => None,
                                                },
                                                ambient: s[o4],
                                                sentence: s[o4 + 1],
                                            },
                                            o4 + 2,
                                        ),
                                    )
                                }
                            },
                        }
                    },
                }
            },
        },
    }
}

/// Narrow an optional 32-bit field to sixteen bits.
pub open spec fn opt_u16(v: Option<u32>) -> Option<u16> {
    match v {
        Some(x) => Some(x as u16),
        None => None,
    }
}

impl SoundDelta {
    /// The sound this delta yields over the previous one.
    pub open spec fn spec_apply(self, sound: Sound) -> Sound {
        Sound {
            entity: match self.entity {
                Some(e) => e,
                None => sound.entity,
            },
            sound_index: match self.sound_index {
                Some(i) => i,
                None => sound.sound_index,
            },
            flags: match self.flags {
                Some(f) => f,
                None => sound.flags,
            },
            channel: match self.channel {
                Some(c) => c,
                None => sound.channel,
            },
            ambient: self.ambient,
            sentence: self.sentence,
        }
    }

    /// Resolve this delta against the previous sound.
    pub fn apply(&self, sound: &Sound) -> (r: Sound)
        ensures
            r == self.spec_apply(*sound),
    {
        Sound {
            entity: match self.entity {
                Some(e) => e,
                None => sound.entity,
            },
            sound_index: match self.sound_index {
                Some(i) => i,
                None => sound.sound_index,
            },
            flags: match self.flags {
                Some(f) => f,
                None => sound.flags,
            },
            channel: match self.channel {
                Some(c) => c,
                None => sound.channel,
            },
            ambient: self.ambient,
            sentence: self.sentence,
        }
    }

    /// Decode a delta-encoded sound.
    #[verifier::rlimit(100)]
    #[verifier::spinoff_prover]
    pub fn parse(bits: &mut BitReader) -> (r: Result<SoundDelta, InsufficientBits>)
        requires
            old(bits).wf(),
        ensures
            final(bits).wf(),
            match r {
                Ok(d) => {
                    &&& sound_delta_decode(old(bits).remaining()) matches Some(v)
                    &&& d == sound_delta_decode(old(bits).remaining())->Some_0.0
                    &&& final(bits).remaining() == old(bits).remaining().skip(
                        sound_delta_decode(old(bits).remaining())->Some_0.1,
                    )
                },
                Err(_) => sound_delta_decode(old(bits).remaining()) is None,
            },
    {
        let ghost s = old(bits).remaining();
        let entity = bits.read_flagged(11)?;
        let ghost o1 = flagged_decode(s, 11)->Some_0.1;
        let sound_index = bits.read_flagged(13)?;
        let ghost o2 = o1 + flagged_decode(s.skip(o1), 13)->Some_0.1;
        proof {
            assert(bits.remaining() =~= s.skip(o2));
        }
        let flags = bits.read_flagged(9)?;
        let ghost o3 = o2 + flagged_decode(s.skip(o2), 9)->Some_0.1;
        proof {
            assert(bits.remaining() =~= s.skip(o3));
        }
        let channel = bits.read_flagged(3)?;
        let ghost o4 = o3 + flagged_decode(s.skip(o3), 3)->Some_0.1;
        proof {
            assert(bits.remaining() =~= s.skip(o4));
            if s.len() >= o4 + 1 {
                assert(s.skip(o4)[0] == s[o4]);
                assert(s.skip(o4).skip(1) =~= s.skip(o4 + 1));
            }
            if s.len() >= o4 + 2 {
                assert(s.skip(o4 + 1)[0] == s[o4 + 1]);
                assert(s.skip(o4 + 1).skip(1) =~= s.skip(o4 + 2));
            }
        }
        let ambient = bits.read_bit()?;
        let sentence = bits.read_bit()?;
        let channel_out: Option<Channel> = match channel {
            Some(c) => Some(Channel::from_id(c as u8)),
            None => None,
        };
        let flags_out: Option<Flags> = match flags {
            Some(f) => Some(Flags(f as u16)),
            None => None,
        };
        Ok(
            SoundDelta {
                entity: match entity {
                    Some(e) => Some(e as u16),
                    None => None,
                },
                sound_index: match sound_index {
                    Some(i) => Some(i as u16),
                    None => None,
                },
                flags: flags_out,
                channel: channel_out,
                ambient,
                sentence,
            },
        )
    }
}

/// A compact sequence-number update: unchanged, incremented, or replaced by
/// a ten-bit value.
#[derive(Copy, Clone, Eq, PartialEq, Debug, Structural)]
pub enum SequenceUpdate {
    Unchanged,
    Increment,
    Full(u16),
}

/// Decode of a sequence update: one bit for unchanged, one more for
/// incremented, else a ten-bit replacement.
pub open spec fn sequence_update_decode(s: Seq<bool>) -> Option<(SequenceUpdate, int)> {
    if s.len() < 1 {
        None
    } else if s[0] {
        Some((SequenceUpdate::Unchanged, 1int))
    } else if s.len() < 2 {
        None
    } else if s[1] {
        Some((SequenceUpdate::Increment, 2int))
    } else if s.len() < 12 {
        None
    } else {
        Some((SequenceUpdate::Full(field(s, 2, 12) as u16), 12int))
    }
}

impl SequenceUpdate {
    /// Decode a sequence update.
    pub fn parse(bits: &mut BitReader) -> (r: Result<SequenceUpdate, InsufficientBits>)
        requires
            old(bits).wf(),
        ensures
            final(bits).wf(),
            match r {
                Ok(u) => {
                    &&& sequence_update_decode(old(bits).remaining()) matches Some(v)
                    &&& u == sequence_update_decode(old(bits).remaining())->Some_0.0
                    &&& final(bits).remaining() == old(bits).remaining().skip(
                        sequence_update_decode(old(bits).remaining())->Some_0.1,
                    )
                },
                Err(_) => sequence_update_decode(old(bits).remaining()) is None,
            },
    {
        let ghost s = old(bits).remaining();
        if bits.read_bit()? {
            return Ok(SequenceUpdate::Unchanged);
        }
        proof {
            if s.len() >= 2 {
                assert(s.skip(1)[0] == s[1]);
                assert(s.skip(1).skip(1) =~= s.skip(2));
            }
        }
        if bits.read_bit()? {
            return Ok(SequenceUpdate::Increment);
        }
        let v = bits.read_bits(10);
        proof {
            if s.len() >= 12 {
                assert(s.skip(2).take(10) =~= s.subrange(2, 12));
                crate::bitseq::lemma_bits_val_bound(s.subrange(2, 12));
                vstd::arithmetic::power2::lemma2_to64();
                assert(s.skip(2).skip(10) =~= s.skip(12));
            }
        }
        match v {
            Ok(v) => Ok(SequenceUpdate::Full(v as u16)),
            Err(e) => Err(e),
        }
    }

    /// The update that takes the old sequence number to the new one.
    pub fn derive(old_seq: u16, new_seq: u16) -> (r: SequenceUpdate)
        requires
            old_seq < 0xffff,
        ensures
            r == if new_seq == old_seq {
                SequenceUpdate::Unchanged
            } else if new_seq == old_seq + 1 {
                SequenceUpdate::Increment
            } else {
                SequenceUpdate::Full(new_seq)
            },
    {
        if old_seq == new_seq {
            SequenceUpdate::Unchanged
        } else if old_seq + 1 == new_seq {
            SequenceUpdate::Increment
        } else {
            SequenceUpdate::Full(new_seq)
        }
    }

    /// The sequence number this update yields over the old one.
    pub fn apply(&self, old_seq: u16) -> (r: u16)
        requires
            self is Increment ==> old_seq < 0xffff,
        ensures
            r == match *self {
                SequenceUpdate::Unchanged => old_seq as int,
                SequenceUpdate::Increment => old_seq + 1,
                SequenceUpdate::Full(new_seq) => new_seq as int,
            },
    {
        match *self {
            SequenceUpdate::Unchanged => old_seq,
            SequenceUpdate::Increment => old_seq + 1,
            SequenceUpdate::Full(new_seq) => new_seq,
        }
    }
}

/// Fully resolved per-sound playback data.
#[derive(Debug, Clone, Copy, Eq, PartialEq)]
pub struct SoundData {
    pub sequence: u16,
    /// Seven bits: a zero-to-one volume scaled to seven bits.
    pub volume: u8,
    /// Nine bits, in decibels.
    pub sound_level: u16,
    pub pitch: u8,
    /// Signed, thirteen bits.
    pub delay: i16,
    /// Twelve signed bits each, in eighths of a unit.
    pub origin: (i16, i16, i16),
    /// Twelve signed bits.
    pub speaker: i16,
}

/// Delta-encoded playback data: absent fields keep their previous values.
#[derive(Debug, Clone, Copy, Eq, PartialEq)]
pub struct SoundDataDelta {
    pub sequence: SequenceUpdate,
    pub volume: Option<u8>,
    pub sound_level: Option<u16>,
    pub pitch: Option<u8>,
    pub delay: Option<i16>,
    pub origin: (Option<i16>, Option<i16>, Option<i16>),
    pub speaker: Option<i16>,
}

} // verus!
