//! The bit-packed message layer: an update blob is a stream of messages,
//! each prefixed by a five- or six-bit type tag out of a closed set of
//! thirty-two kinds.

use vstd::prelude::*;

verus! {

broadcast use {
    vstd::seq_lib::lemma_seq_skip_of_skip,
    vstd::std_specs::control_flow::group_control_flow_axioms,
};

use crate::bits::{BitReader, Bits, cstr_len, cstr_bytes, var_u32_decode};
use crate::bitseq::bits_val;
use vstd::arithmetic::power2::pow2;
use crate::parse::ParseError;

/// Value of the bits `a .. b` of a stream.
pub open spec fn field(s: Seq<bool>, a: int, b: int) -> nat {
    bits_val(s.subrange(a, b))
}

/// The network protocol number, which drives version-dependent bit widths.
#[derive(Copy, Clone, Eq, PartialEq, Debug, Structural)]
pub struct ProtocolVersion(pub u32);

impl ProtocolVersion {
    /// Width of the message type tag for this protocol.
    pub open spec fn spec_packet_kind_bits(self) -> u8 {
        if self.0 >= 16 {
            6
        } else {
            5
        }
    }

    pub fn packet_kind_bits(self) -> (r: u8)
        ensures
            r == self.spec_packet_kind_bits(),
    {
        if self.0 >= 16 {
            6
        } else {
            5
        }
    }
}

/// The closed set of message kinds, tagged zero through thirty-one.
#[derive(Copy, Clone, Debug, Eq, PartialEq, Structural)]
pub enum PacketKind {
    Nop,
    Disconnect,
    TransferFile,
    Tick,
    StringCommand,
    SetCvars,
    SignonState,
    Print,
    ServerInfo,
    DataTable,
    ClassInfo,
    Pause,
    CreateStringTable,
    UpdateStringTable,
    VoiceInit,
    VoiceData,
    HltvControl,
    PlaySound,
    SetEntityView,
    FixAngle,
    CrosshairAngle,
    Decal,
    TerrainMod,
    UserMessage,
    EntityMessage,
    GameEvent,
    Entities,
    TempEntities,
    Prefetch,
    PluginMenu,
    GameEventList,
    GetCvar,
}

impl PacketKind {
    /// The kind a wire tag denotes, when any.
    pub open spec fn spec_from_id(id: u8) -> Option<PacketKind> {
        if id == 0 {
            Some(PacketKind::Nop)
        } else if id == 1 {
            Some(PacketKind::Disconnect)
        } else if id == 2 {
            Some(PacketKind::TransferFile)
        } else if id == 3 {
            Some(PacketKind::Tick)
        } else if id == 4 {
            Some(PacketKind::StringCommand)
        } else if id == 5 {
            Some(PacketKind::SetCvars)
        } else if id == 6 {
            Some(PacketKind::SignonState)
        } else if id == 7 {
            Some(PacketKind::Print)
        } else if id == 8 {
            Some(PacketKind::ServerInfo)
        } else if id == 9 {
            Some(PacketKind::DataTable)
        } else if id == 10 {
            Some(PacketKind::ClassInfo)
        } else if id == 11 {
            Some(PacketKind::Pause)
        } else if id == 12 {
            Some(PacketKind::CreateStringTable)
        } else if id == 13 {
            Some(PacketKind::UpdateStringTable)
        } else if id == 14 {
            Some(PacketKind::VoiceInit)
        } else if id == 15 {
            Some(PacketKind::VoiceData)
        } else if id == 16 {
            Some(PacketKind::HltvControl)
        } else if id == 17 {
            Some(PacketKind::PlaySound)
        } else if id == 18 {
            Some(PacketKind::SetEntityView)
        } else if id == 19 {
            Some(PacketKind::FixAngle)
        } else if id == 20 {
            Some(PacketKind::CrosshairAngle)
        } else if id == 21 {
            Some(PacketKind::Decal)
        } else if id == 22 {
            Some(PacketKind::TerrainMod)
        } else if id == 23 {
            Some(PacketKind::UserMessage)
        } else if id == 24 {
            Some(PacketKind::EntityMessage)
        } else if id == 25 {
            Some(PacketKind::GameEvent)
        } else if id == 26 {
            Some(PacketKind::Entities)
        } else if id == 27 {
            Some(PacketKind::TempEntities)
        } else if id == 28 {
            Some(PacketKind::Prefetch)
        } else if id == 29 {
            Some(PacketKind::PluginMenu)
        } else if id == 30 {
            Some(PacketKind::GameEventList)
        } else if id == 31 {
            Some(PacketKind::GetCvar)
        } else {
            None
        }
    }

    /// Look a wire tag up; tags above thirty-one denote no kind.
    pub fn from_id(id: u8) -> (r: Option<Self>)
        ensures
            r == Self::spec_from_id(id),
    {
        match id {
            0 => Some(PacketKind::Nop),
            1 => Some(PacketKind::Disconnect),
            2 => Some(PacketKind::TransferFile),
            3 => Some(PacketKind::Tick),
            4 => Some(PacketKind::StringCommand),
            5 => Some(PacketKind::SetCvars),
            6 => Some(PacketKind::SignonState),
            7 => Some(PacketKind::Print),
            8 => Some(PacketKind::ServerInfo),
            9 => Some(PacketKind::DataTable),
            10 => Some(PacketKind::ClassInfo),
            11 => Some(PacketKind::Pause),
            12 => Some(PacketKind::CreateStringTable),
            13 => Some(PacketKind::UpdateStringTable),
            14 => Some(PacketKind::VoiceInit),
            15 => Some(PacketKind::VoiceData),
            16 => Some(PacketKind::HltvControl),
            17 => Some(PacketKind::PlaySound),
            18 => Some(PacketKind::SetEntityView),
            19 => Some(PacketKind::FixAngle),
            20 => Some(PacketKind::CrosshairAngle),
            21 => Some(PacketKind::Decal),
            22 => Some(PacketKind::TerrainMod),
            23 => Some(PacketKind::UserMessage),
            24 => Some(PacketKind::EntityMessage),
            25 => Some(PacketKind::GameEvent),
            26 => Some(PacketKind::Entities),
            27 => Some(PacketKind::TempEntities),
            28 => Some(PacketKind::Prefetch),
            29 => Some(PacketKind::PluginMenu),
            30 => Some(PacketKind::GameEventList),
            31 => Some(PacketKind::GetCvar),
            _ => None,
        }
    }
}

/// A file-transfer request or denial.
#[derive(Debug, Clone)]
pub struct TransferFile {
    pub transfer_id: u32,
    pub name: String,
    /// False denies the transfer, true requests it.
    pub request_or_deny: bool,
}

/// Consumed bits of a transfer-file body, when it fits.
pub open spec fn transfer_file_len(s: Seq<bool>) -> Option<int> {
    if s.len() < 32 {
        None
    } else {
        match cstr_len(s.skip(32)) {
            None => None,
            Some(k) => {
                let n = 32 + 8 * (k + 1) + 1;
                if s.len() < n {
                    None
                } else {
                    Some(n)
                }
            },
        }
    }
}

/// Whether a transfer-file body decodes without error.
pub open spec fn transfer_file_ok(s: Seq<bool>) -> bool {
    &&& transfer_file_len(s) is Some
    &&& vstd::utf8::valid_utf8(cstr_bytes(s.skip(32)))
}

/// Field-by-field correspondence of a transfer-file body with the stream.
pub open spec fn transfer_file_decodes(m: TransferFile, s: Seq<bool>) -> bool {
    &&& m.transfer_id as nat == field(s, 0, 32)
    &&& m.name@ == vstd::utf8::decode_utf8(cstr_bytes(s.skip(32)))
    &&& m.request_or_deny == s[32 + 8 * (cstr_len(s.skip(32))->Some_0 + 1)]
}

impl TransferFile {
    pub fn parse(bits: &mut BitReader, _version: ProtocolVersion) -> (r: Result<
        Self,
        ParseError,
    >)
        requires
            old(bits).wf(),
        ensures
            final(bits).wf(),
            match r {
                Ok(m) => {
                    &&& transfer_file_ok(old(bits).remaining())
                    &&& transfer_file_decodes(m, old(bits).remaining())
                    &&& final(bits).remaining() == old(bits).remaining().skip(
                        transfer_file_len(old(bits).remaining())->Some_0,
                    )
                },
                Err(e) => !transfer_file_ok(old(bits).remaining()) && (e matches
                    ParseError::InsufficientBits(_) || e is Utf8),
            },
    {
        let ghost s = old(bits).remaining();
        let transfer_id = read_u32(bits)?;
        let name = read_string(bits)?;
        let ghost k = cstr_len(s.skip(32))->Some_0;
        proof {
            crate::bits::lemma_cstr_len_bound(s.skip(32));
            assert(s.skip(32).skip(8 * (k + 1)) =~= s.skip(32 + 8 * (k + 1)));
        }
        let request_or_deny = read_bit(bits)?;
        proof {
            assert(s.skip(32 + 8 * (k + 1))[0] == s[32 + 8 * (k + 1)]);
        }
        Ok(TransferFile { transfer_id, name, request_or_deny })
    }
}

/// A server tick announcement.
#[derive(Debug, Clone)]
pub struct Tick {
    /// Server-side tick number.
    pub number: u32,
    /// Tick time in hundred-thousandths of a second.
    pub fixed_time: u16,
    /// Standard deviation of the tick time, same unit.
    pub fixed_time_stdev: u16,
}

/// Field-by-field correspondence of a tick body with the stream.
pub open spec fn tick_decodes(m: Tick, s: Seq<bool>) -> bool {
    &&& m.number as nat == field(s, 0, 32)
    &&& m.fixed_time as nat == field(s, 32, 48)
    &&& m.fixed_time_stdev as nat == field(s, 48, 64)
}

impl Tick {
    pub fn parse(bits: &mut BitReader, _version: ProtocolVersion) -> (r: Result<
        Self,
        ParseError,
    >)
        requires
            old(bits).wf(),
        ensures
            final(bits).wf(),
            match r {
                Ok(m) => {
                    &&& old(bits).remaining().len() >= 64
                    &&& tick_decodes(m, old(bits).remaining())
                    &&& final(bits).remaining() == old(bits).remaining().skip(64)
                },
                Err(e) => old(bits).remaining().len() < 64 && e matches
                    ParseError::InsufficientBits(_),
            },
    {
        let ghost s = old(bits).remaining();
        let number = read_u32(bits)?;
        let fixed_time = read_u16(bits)?;
        proof {
            assert(s.skip(32).take(16) =~= s.subrange(32, 48));
        }
        let fixed_time_stdev = read_u16(bits)?;
        proof {
            assert(s.skip(48).take(16) =~= s.subrange(48, 64));
        }
        Ok(Tick { number, fixed_time, fixed_time_stdev })
    }
}

/// A console-variable assignment list.
#[derive(Debug, Clone)]
pub struct SetCvars(pub Vec<(String, String)>);

/// Consumed bits of `n` name/value string pairs, when they fit.
pub open spec fn cvars_len(s: Seq<bool>, n: int) -> Option<int>
    decreases n,
{
    if n <= 0 {
        Some(0int)
    } else {
        match cstr_len(s) {
            None => None,
            Some(k1) => {
                let o1 = 8 * (k1 + 1);
                match cstr_len(s.skip(o1)) {
                    None => None,
                    Some(k2) => {
                        let o2 = o1 + 8 * (k2 + 1);
                        match cvars_len(s.skip(o2), n - 1) {
                            None => None,
                            Some(m) => Some(o2 + m),
                        }
                    },
                }
            },
        }
    }
}

/// Whether `n` name/value string pairs decode without error.
pub open spec fn cvars_ok(s: Seq<bool>, n: int) -> bool
    decreases n,
{
    if n <= 0 {
        true
    } else {
        &&& cstr_len(s) is Some
        &&& vstd::utf8::valid_utf8(cstr_bytes(s))
        &&& {
            let o1 = 8 * (cstr_len(s)->Some_0 + 1);
            &&& cstr_len(s.skip(o1)) is Some
            &&& vstd::utf8::valid_utf8(cstr_bytes(s.skip(o1)))
            &&& cvars_ok(s.skip(o1 + 8 * (cstr_len(s.skip(o1))->Some_0 + 1)), n - 1)
        }
    }
}

/// Field-by-field correspondence of `n` name/value pairs with the stream.
pub open spec fn cvars_decodes(v: Seq<(String, String)>, s: Seq<bool>, n: int) -> bool
    decreases n,
{
    if n <= 0 {
        v.len() == 0
    } else {
        &&& v.len() == n
        &&& v[0].0@ == vstd::utf8::decode_utf8(cstr_bytes(s))
        &&& {
            let o1 = 8 * (cstr_len(s)->Some_0 + 1);
            let o2 = o1 + 8 * (cstr_len(s.skip(o1))->Some_0 + 1);
            &&& v[0].1@ == vstd::utf8::decode_utf8(cstr_bytes(s.skip(o1)))
            &&& cvars_decodes(v.skip(1), s.skip(o2), n - 1)
        }
    }
}

/// `n` pairs occupy at most the whole stream.
pub proof fn lemma_cvars_len_bound(s: Seq<bool>, n: int)
    ensures
        cvars_len(s, n) matches Some(m) ==> 0 <= m <= s.len(),
    decreases n,
{
    if n > 0 {
        if cstr_len(s) is Some {
            let o1 = 8 * (cstr_len(s)->Some_0 + 1);
            crate::bits::lemma_cstr_len_bound(s);
            if cstr_len(s.skip(o1)) is Some {
                let o2 = o1 + 8 * (cstr_len(s.skip(o1))->Some_0 + 1);
                crate::bits::lemma_cstr_len_bound(s.skip(o1));
                lemma_cvars_len_bound(s.skip(o2), n - 1);
            }
        }
    }
}

impl SetCvars {
    pub fn parse(bits: &mut BitReader, _version: ProtocolVersion) -> (r: Result<
        Self,
        ParseError,
    >)
        requires
            old(bits).wf(),
        ensures
            final(bits).wf(),
            ({
                let s = old(bits).remaining();
                match r {
                    Ok(m) => {
                        &&& s.len() >= 8
                        &&& cvars_ok(s.skip(8), field(s, 0, 8) as int)
                        &&& cvars_decodes(m.0@, s.skip(8), field(s, 0, 8) as int)
                        &&& cvars_len(s.skip(8), field(s, 0, 8) as int) matches Some(m2)
                        &&& final(bits).remaining() == s.skip(
                            8 + cvars_len(s.skip(8), field(s, 0, 8) as int)->Some_0,
                        )
                    },
                    Err(_) => !(s.len() >= 8 && cvars_ok(s.skip(8), field(s, 0, 8) as int)),
                }
            }),
    {
        let count = read_u8(bits)?;
        let ghost s = old(bits).remaining();
        let mut cvars: Vec<(String, String)> = Vec::new();
        let r = Self::parse_pairs(bits, count, &mut cvars);
        proof {
            if r is Ok {
                lemma_cvars_len_bound(s.skip(8), count as int);
                let l = cvars_len(s.skip(8), count as int)->Some_0;
                assert(s.skip(8).skip(l) =~= s.skip(8 + l));
            }
        }
        match r {
            Ok(()) => Ok(SetCvars(cvars)),
            Err(e) => Err(e),
        }
    }

    /// Read `n` name/value pairs, appending them in wire order.
    fn parse_pairs(bits: &mut BitReader, n: u8, out: &mut Vec<(String, String)>) -> (r: Result<
        (),
        ParseError,
    >)
        requires
            old(bits).wf(),
            old(out)@.len() == 0,
        ensures
            final(bits).wf(),
            ({
                let s = old(bits).remaining();
                match r {
                    Ok(()) => {
                        &&& cvars_ok(s, n as int)
                        &&& cvars_decodes(final(out)@, s, n as int)
                        &&& cvars_len(s, n as int) matches Some(m)
                        &&& final(bits).remaining() == s.skip(cvars_len(s, n as int)->Some_0)
                    },
                    Err(_) => !cvars_ok(s, n as int),
                }
            }),
    {
        let ghost s = old(bits).remaining();
        proof {
            assert(s.skip(0) =~= s);
        }
        let r = Self::parse_tail(bits, n, out, Ghost(s), Ghost(0int));
        proof {
            if r is Ok {
                assert(out@.skip(0) =~= out@);
            }
        }
        r
    }

    /// Read `n` more pairs, continuing at offset `off` of the body.
    #[verifier::rlimit(100)]
    fn parse_tail(
        bits: &mut BitReader,
        n: u8,
        out: &mut Vec<(String, String)>,
        s0: Ghost<Seq<bool>>,
        off: Ghost<int>,
    ) -> (r: Result<(), ParseError>)
        requires
            old(bits).wf(),
            0 <= off@ <= s0@.len(),
            old(bits).remaining() == s0@.skip(off@),
        ensures
            final(bits).wf(),
            final(out)@.len() >= old(out)@.len(),
            final(out)@.take(old(out)@.len() as int) == old(out)@,
            ({
                let s = s0@.skip(off@);
                match r {
                    Ok(()) => {
                        &&& cvars_ok(s, n as int)
                        &&& cvars_decodes(final(out)@.skip(old(out)@.len() as int), s, n as int)
                        &&& cvars_len(s, n as int) matches Some(m)
                        &&& final(bits).remaining() == s.skip(cvars_len(s, n as int)->Some_0)
                    },
                    Err(_) => !cvars_ok(s, n as int),
                }
            }),
        decreases n,
    {
        let ghost s = old(bits).remaining();
        if n == 0 {
            proof {
                assert(s.skip(0) =~= s);
                assert(out@.skip(old(out)@.len() as int) =~= Seq::<(String, String)>::empty());
                assert(out@.take(old(out)@.len() as int) =~= old(out)@);
            }
            return Ok(());
        }
        let name = read_string(bits)?;
        let ghost o1 = 8 * (cstr_len(s)->Some_0 + 1);
        let value = read_string(bits)?;
        let ghost o2 = o1 + 8 * (cstr_len(s.skip(o1))->Some_0 + 1);
        proof {
            crate::bits::lemma_cstr_len_bound(s);
            crate::bits::lemma_cstr_len_bound(s.skip(o1));
            assert(bits.remaining() =~= s.skip(o2));
            assert(0 <= off@ + o2 <= s0@.len());
            assert(s.skip(o2) =~= s0@.skip(off@ + o2));
        }
        out.push((name, value));
        let ghost mid = out@;
        let r = Self::parse_tail(bits, n - 1, out, Ghost(s0@), Ghost(off@ + o2));
        proof {
            assert(mid.take(old(out)@.len() as int) =~= old(out)@);
            assert(out@.take(old(out)@.len() as int) =~= old(out)@) by {
                assert(out@.take(mid.len() as int) == mid);
                assert forall|j: int| 0 <= j < old(out)@.len() implies out@.take(
                    old(out)@.len() as int,
                )[j] == old(out)@[j] by {
                    assert(out@.take(mid.len() as int)[j] == out@[j]);
                    assert(mid[j] == old(out)@[j]);
                }
            }
            if r is Ok {
                assert(out@.skip(old(out)@.len() as int)[0] == mid[old(out)@.len() as int]) by {
                    assert(out@.take(mid.len() as int)[mid.len() - 1] == out@[mid.len() - 1]);
                }
                assert(out@.skip(old(out)@.len() as int).skip(1) =~= out@.skip(mid.len() as int));
                lemma_cvars_len_bound(s.skip(o2), n - 1 as int);
                let l2 = cvars_len(s.skip(o2), n - 1 as int)->Some_0;
                assert(s.skip(o2).skip(l2) =~= s.skip(o2 + l2));
            }
        }
        r
    }
}

/// The connection establishment stage.
#[derive(Debug, Clone, Copy, PartialEq, Eq, Structural)]
pub enum SignonStateKind {
    None_,
    Challenge,
    Connected,
    New,
    PreSpawn,
    Spawn,
    Full,
    ChangeLevel,
}

impl SignonStateKind {
    /// The stage a wire byte denotes; bytes above seven are kept raw.
    pub open spec fn spec_from_id(id: u8) -> Result<SignonStateKind, u8> {
        if id == 0 {
            Ok(SignonStateKind::None_)
        } else if id == 1 {
            Ok(SignonStateKind::Challenge)
        } else if id == 2 {
            Ok(SignonStateKind::Connected)
        } else if id == 3 {
            Ok(SignonStateKind::New)
        } else if id == 4 {
            Ok(SignonStateKind::PreSpawn)
        } else if id == 5 {
            Ok(SignonStateKind::Spawn)
        } else if id == 6 {
            Ok(SignonStateKind::Full)
        } else if id == 7 {
            Ok(SignonStateKind::ChangeLevel)
        } else {
            Err(id)
        }
    }

    fn from_id(id: u8) -> (r: Result<Self, u8>)
        ensures
            r == Self::spec_from_id(id),
    {
        match id {
            0 => Ok(SignonStateKind::None_),
            1 => Ok(SignonStateKind::Challenge),
            2 => Ok(SignonStateKind::Connected),
            3 => Ok(SignonStateKind::New),
            4 => Ok(SignonStateKind::PreSpawn),
            5 => Ok(SignonStateKind::Spawn),
            6 => Ok(SignonStateKind::Full),
            7 => Ok(SignonStateKind::ChangeLevel),
            _ => Err(id),
        }
    }
}

/// A connection stage announcement.
#[derive(Debug, Clone, Copy)]
pub struct SignonState {
    /// The stage, or the raw byte when outside the known range.
    pub state: Result<SignonStateKind, u8>,
    pub server_count: u32,
}

impl SignonState {
    pub fn parse(bits: &mut BitReader, _version: ProtocolVersion) -> (r: Result<
        Self,
        ParseError,
    >)
        requires
            old(bits).wf(),
        ensures
            final(bits).wf(),
            ({
                let s = old(bits).remaining();
                match r {
                    Ok(m) => {
                        &&& s.len() >= 40
                        &&& m.state == SignonStateKind::spec_from_id(field(s, 0, 8) as u8)
                        &&& m.server_count as nat == field(s, 8, 40)
                        &&& final(bits).remaining() == s.skip(40)
                    },
                    Err(e) => s.len() < 40 && e matches ParseError::InsufficientBits(_),
                }
            }),
    {
        let ghost s = old(bits).remaining();
        let id = read_u8(bits)?;
        let server_count = read_u32(bits)?;
        proof {
            assert(s.skip(8).subrange(0, 32) =~= s.subrange(8, 40));
        }
        Ok(SignonState { state: SignonStateKind::from_id(id), server_count })
    }
}

/// A class-count announcement whose body is never parsed.
#[derive(Debug, Clone)]
pub struct ClassInfo {
    pub classes: u16,
    pub info: Option<()>,
}

impl ClassInfo {
    /// Decode a class-info header. A clear no-parse bit marks a body this
    /// decoder does not support.
    pub fn parse(bits: &mut BitReader, _version: ProtocolVersion) -> (r: Result<
        Self,
        ParseError,
    >)
        requires
            old(bits).wf(),
        ensures
            final(bits).wf(),
            ({
                let s = old(bits).remaining();
                match r {
                    Ok(m) => {
                        &&& s.len() >= 17
                        &&& s[16]
                        &&& m.classes as nat == field(s, 0, 16)
                        &&& m.info is None
                        &&& final(bits).remaining() == s.skip(17)
                    },
                    Err(e) => {
                        &&& !(s.len() >= 17 && s[16])
                        &&& (s.len() >= 17 ==> e matches ParseError::Unsupported { .. })
                    },
                }
            }),
    {
        let ghost s = old(bits).remaining();
        let classes = read_u16(bits)?;
        let no_parse = read_bit(bits)?;
        proof {
            assert(s.skip(16)[0] == s[16]);
            assert(s.skip(16).skip(1) =~= s.skip(17));
        }
        if !no_parse {
            return Err(ParseError::Unsupported { name: "ClassInfo" });
        }
        Ok(ClassInfo { classes, info: None })
    }
}

/// Voice codec initialisation.
#[derive(Debug, Clone)]
pub struct VoiceInit {
    pub codec: String,
    pub settings: VoiceSettings,
}

/// Voice quality, or the extra field sent in its place.
#[derive(Debug, Clone, PartialEq, Eq, Structural)]
pub enum VoiceSettings {
    Quality(u8),
    Extra(u16),
}

/// Consumed bits of a voice-init body, when it fits.
pub open spec fn voice_init_len(s: Seq<bool>) -> Option<int> {
    match cstr_len(s) {
        None => None,
        Some(k) => {
            let o = 8 * (k + 1);
            if s.len() < o + 8 {
                None
            } else if field(s, o, o + 8) == 255 {
                if s.len() < o + 24 {
                    None
                } else {
                    Some(o + 24)
                }
            } else {
                Some(o + 8)
            }
        },
    }
}

/// Whether a voice-init body decodes without error.
pub open spec fn voice_init_ok(s: Seq<bool>) -> bool {
    &&& voice_init_len(s) is Some
    &&& vstd::utf8::valid_utf8(cstr_bytes(s))
}

/// Field-by-field correspondence of a voice-init body with the stream.
pub open spec fn voice_init_decodes(m: VoiceInit, s: Seq<bool>) -> bool {
    let o = 8 * (cstr_len(s)->Some_0 + 1);
    &&& m.codec@ == vstd::utf8::decode_utf8(cstr_bytes(s))
    &&& m.settings == if field(s, o, o + 8) == 255 {
        VoiceSettings::Extra(field(s, o + 8, o + 24) as u16)
    } else {
        VoiceSettings::Quality(field(s, o, o + 8) as u8)
    }
}

impl VoiceInit {
    pub fn parse(bits: &mut BitReader, _version: ProtocolVersion) -> (r: Result<
        Self,
        ParseError,
    >)
        requires
            old(bits).wf(),
        ensures
            final(bits).wf(),
            match r {
                Ok(m) => {
                    &&& voice_init_ok(old(bits).remaining())
                    &&& voice_init_decodes(m, old(bits).remaining())
                    &&& final(bits).remaining() == old(bits).remaining().skip(
                        voice_init_len(old(bits).remaining())->Some_0,
                    )
                },
                Err(e) => !voice_init_ok(old(bits).remaining()),
            },
    {
        let ghost s = old(bits).remaining();
        let codec = read_string(bits)?;
        let ghost o = 8 * (cstr_len(s)->Some_0 + 1);
        proof {
            crate::bits::lemma_cstr_len_bound(s);
        }
        let quality = read_u8(bits)?;
        proof {
            assert(s.skip(o).subrange(0, 8) =~= s.subrange(o, o + 8));
            assert(s.skip(o).skip(8) =~= s.skip(o + 8));
        }
        let settings = if quality == 255 {
            let extra = read_u16(bits)?;
            proof {
                assert(s.skip(o + 8).subrange(0, 16) =~= s.subrange(o + 8, o + 24));
                assert(s.skip(o + 8).skip(16) =~= s.skip(o + 24));
            }
            VoiceSettings::Extra(extra)
        } else {
            VoiceSettings::Quality(quality)
        };
        Ok(VoiceInit { codec, settings })
    }
}

/// A chunk of voice data.
#[derive(Debug, Clone)]
pub struct VoiceData {
    pub sender: u8,
    pub proximity: u8,
    pub data: Bits,
}

/// Consumed bits of a voice-data body, when it fits.
pub open spec fn voice_data_len(s: Seq<bool>) -> Option<int> {
    if s.len() < 32 {
        None
    } else {
        let n = 32 + field(s, 16, 32);
        if s.len() < n {
            None
        } else {
            Some(n as int)
        }
    }
}

/// Field-by-field correspondence of a voice-data body with the stream.
pub open spec fn voice_data_decodes(m: VoiceData, s: Seq<bool>) -> bool {
    &&& m.sender as nat == field(s, 0, 8)
    &&& m.proximity as nat == field(s, 8, 16)
    &&& m.data@ == s.subrange(32, 32 + field(s, 16, 32) as int)
    &&& m.data.wf()
}

impl VoiceData {
    pub fn parse(bits: &mut BitReader, _version: ProtocolVersion) -> (r: Result<
        Self,
        ParseError,
    >)
        requires
            old(bits).wf(),
        ensures
            final(bits).wf(),
            match r {
                Ok(m) => {
                    &&& voice_data_len(old(bits).remaining()) matches Some(n)
                    &&& voice_data_decodes(m, old(bits).remaining())
                    &&& final(bits).remaining() == old(bits).remaining().skip(
                        voice_data_len(old(bits).remaining())->Some_0,
                    )
                },
                Err(e) => voice_data_len(old(bits).remaining()) is None && e matches
                    ParseError::InsufficientBits(_),
            },
    {
        let ghost s = old(bits).remaining();
        let sender = read_u8(bits)?;
        let proximity = read_u8(bits)?;
        proof {
            assert(s.skip(8).subrange(0, 8) =~= s.subrange(8, 16));
        }
        let bits_len = read_u16(bits)?;
        proof {
            assert(s.skip(16).subrange(0, 16) =~= s.subrange(16, 32));
        }
        let data = read_blob(bits, bits_len as usize)?;
        proof {
            assert(s.skip(32).take(bits_len as int) =~= s.subrange(32, 32 + bits_len as int));
            assert(s.skip(32).skip(bits_len as int) =~= s.skip(32 + bits_len as int));
        }
        Ok(VoiceData { sender, proximity, data })
    }
}

/// A sound batch, reliable or unreliable.
#[derive(Debug, Clone)]
pub enum PlaySound {
    Reliable(Bits),
    Unreliable { sounds: u8, all: Bits },
}

/// Consumed bits of a play-sound body, when it fits.
pub open spec fn play_sound_len(s: Seq<bool>) -> Option<int> {
    if s.len() < 1 {
        None
    } else if s[0] {
        if s.len() < 9 {
            None
        } else {
            let n = 9 + field(s, 1, 9);
            if s.len() < n {
                None
            } else {
                Some(n as int)
            }
        }
    } else {
        if s.len() < 25 {
            None
        } else {
            let n = 25 + field(s, 9, 25);
            if s.len() < n {
                None
            } else {
                Some(n as int)
            }
        }
    }
}

/// Field-by-field correspondence of a play-sound body with the stream.
pub open spec fn play_sound_decodes(m: PlaySound, s: Seq<bool>) -> bool {
    if s[0] {
        m matches PlaySound::Reliable(b) && b@ == s.subrange(9, 9 + field(s, 1, 9) as int)
            && b.wf()
    } else {
        m matches PlaySound::Unreliable { sounds, all } && sounds as nat == field(s, 1, 9) && all@
            == s.subrange(25, 25 + field(s, 9, 25) as int) && all.wf()
    }
}

impl PlaySound {
    pub fn parse(bits: &mut BitReader, _version: ProtocolVersion) -> (r: Result<
        Self,
        ParseError,
    >)
        requires
            old(bits).wf(),
        ensures
            final(bits).wf(),
            match r {
                Ok(m) => {
                    &&& play_sound_len(old(bits).remaining()) matches Some(n)
                    &&& play_sound_decodes(m, old(bits).remaining())
                    &&& final(bits).remaining() == old(bits).remaining().skip(
                        play_sound_len(old(bits).remaining())->Some_0,
                    )
                },
                Err(e) => play_sound_len(old(bits).remaining()) is None && e matches
                    ParseError::InsufficientBits(_),
            },
    {
        let ghost s = old(bits).remaining();
        let reliable = read_bit(bits)?;
        if reliable {
            let bits_len = read_u8(bits)?;
            proof {
                assert(s.skip(1).subrange(0, 8) =~= s.subrange(1, 9));
            }
            let data = read_blob(bits, bits_len as usize)?;
            proof {
                assert(s.skip(9).take(bits_len as int) =~= s.subrange(9, 9 + bits_len as int));
                assert(s.skip(9).skip(bits_len as int) =~= s.skip(9 + bits_len as int));
            }
            Ok(PlaySound::Reliable(data))
        } else {
            let sounds = read_u8(bits)?;
            proof {
                assert(s.skip(1).subrange(0, 8) =~= s.subrange(1, 9));
            }
            let bits_len = read_u16(bits)?;
            proof {
                assert(s.skip(9).subrange(0, 16) =~= s.subrange(9, 25));
            }
            let all = read_blob(bits, bits_len as usize)?;
            proof {
                assert(s.skip(25).take(bits_len as int) =~= s.subrange(25, 25 + bits_len as int));
                assert(s.skip(25).skip(bits_len as int) =~= s.skip(25 + bits_len as int));
            }
            Ok(PlaySound::Unreliable { sounds, all })
        }
    }
}

/// A server-directed view-angle correction.
#[derive(Debug, Clone, Copy)]
pub struct FixAngle {
    pub relative: bool,
    /// Raw angle counts, in units of 360/65536 degrees.
    pub angles: (u16, u16, u16),
}

impl FixAngle {
    pub fn parse(bits: &mut BitReader, _version: ProtocolVersion) -> (r: Result<
        Self,
        ParseError,
    >)
        requires
            old(bits).wf(),
        ensures
            final(bits).wf(),
            ({
                let s = old(bits).remaining();
                match r {
                    Ok(m) => {
                        &&& s.len() >= 49
                        &&& m.relative == s[0]
                        &&& m.angles.0 as nat == field(s, 1, 17)
                        &&& m.angles.1 as nat == field(s, 17, 33)
                        &&& m.angles.2 as nat == field(s, 33, 49)
                        &&& final(bits).remaining() == s.skip(49)
                    },
                    Err(e) => s.len() < 49 && e matches ParseError::InsufficientBits(_),
                }
            }),
    {
        let ghost s = old(bits).remaining();
        let relative = read_bit(bits)?;
        let a0 = read_u16(bits)?;
        proof {
            assert(s.skip(1).subrange(0, 16) =~= s.subrange(1, 17));
        }
        let a1 = read_u16(bits)?;
        proof {
            assert(s.skip(17).subrange(0, 16) =~= s.subrange(17, 33));
        }
        let a2 = read_u16(bits)?;
        proof {
            assert(s.skip(33).subrange(0, 16) =~= s.subrange(33, 49));
        }
        Ok(FixAngle { relative, angles: (a0, a1, a2) })
    }
}

/// A crosshair angle report.
#[derive(Debug, Clone, Copy)]
pub struct CrosshairAngle {
    /// Raw angle counts, in units of 360/65536 degrees.
    pub angles: (u16, u16, u16),
}

impl CrosshairAngle {
    pub fn parse(bits: &mut BitReader, _version: ProtocolVersion) -> (r: Result<
        Self,
        ParseError,
    >)
        requires
            old(bits).wf(),
        ensures
            final(bits).wf(),
            ({
                let s = old(bits).remaining();
                match r {
                    Ok(m) => {
                        &&& s.len() >= 48
                        &&& m.angles.0 as nat == field(s, 0, 16)
                        &&& m.angles.1 as nat == field(s, 16, 32)
                        &&& m.angles.2 as nat == field(s, 32, 48)
                        &&& final(bits).remaining() == s.skip(48)
                    },
                    Err(e) => s.len() < 48 && e matches ParseError::InsufficientBits(_),
                }
            }),
    {
        let ghost s = old(bits).remaining();
        let a0 = read_u16(bits)?;
        let a1 = read_u16(bits)?;
        proof {
            assert(s.skip(16).subrange(0, 16) =~= s.subrange(16, 32));
        }
        let a2 = read_u16(bits)?;
        proof {
            assert(s.skip(32).subrange(0, 16) =~= s.subrange(32, 48));
        }
        Ok(CrosshairAngle { angles: (a0, a1, a2) })
    }
}

/// A decal placement.
#[derive(Debug, Clone, Copy)]
pub struct Decal {
    pub position: (crate::bits::Coord, crate::bits::Coord, crate::bits::Coord),
    pub decal_index: u16,
    pub entity_index: u16,
    pub model_index: u16,
    pub low_priority: bool,
}

/// Width of the decal model index: twelve bits before protocol 24, thirteen
/// after.
pub open spec fn decal_model_bits(version: ProtocolVersion) -> int {
    if version.0 >= 24 {
        13
    } else {
        12
    }
}

/// Consumed bits of a decal body, when it fits.
pub open spec fn decal_len(s: Seq<bool>, version: ProtocolVersion) -> Option<int> {
    match crate::bits::vec3_decode(s) {
        None => None,
        Some((pos, np)) => {
            if s.len() < np + 10 {
                None
            } else {
                let n = if s[np + 9] {
                    np + 10 + 11 + decal_model_bits(version) + 1
                } else {
                    np + 10 + 1
                };
                if s.len() < n {
                    None
                } else {
                    Some(n)
                }
            }
        },
    }
}

/// Field-by-field correspondence of a decal body with the stream.
pub open spec fn decal_decodes(m: Decal, s: Seq<bool>, version: ProtocolVersion) -> bool {
    match crate::bits::vec3_decode(s) {
        None => false,
        Some((pos, np)) => {
            &&& m.position == pos
            &&& m.decal_index as nat == field(s, np, np + 9)
            &&& if s[np + 9] {
                &&& m.entity_index as nat == field(s, np + 10, np + 21)
                &&& m.model_index as nat == field(s, np + 21, np + 21 + decal_model_bits(version))
                &&& m.low_priority == s[np + 21 + decal_model_bits(version)]
            } else {
                &&& m.entity_index == 0u16
                &&& m.model_index == 0u16
                &&& m.low_priority == s[np + 10]
            }
        },
    }
}

impl Decal {
    #[verifier::rlimit(100)]
    pub fn parse(bits: &mut BitReader, version: ProtocolVersion) -> (r: Result<Self, ParseError>)
        requires
            old(bits).wf(),
        ensures
            final(bits).wf(),
            match r {
                Ok(m) => {
                    &&& decal_len(old(bits).remaining(), version) matches Some(n)
                    &&& decal_decodes(m, old(bits).remaining(), version)
                    &&& final(bits).remaining() == old(bits).remaining().skip(
                        decal_len(old(bits).remaining(), version)->Some_0,
                    )
                },
                Err(e) => decal_len(old(bits).remaining(), version) is None && e matches
                    ParseError::InsufficientBits(_),
            },
    {
        let ghost s = old(bits).remaining();
        let model_index_bits: u8 = if version.0 >= 24 {
            13
        } else {
            12
        };
        let position = match bits.read_vec3() {
            Ok(p) => p,
            Err(e) => {
                return Err(ParseError::InsufficientBits(e));
            },
        };
        let ghost np = crate::bits::vec3_decode(s)->Some_0.1;
        let decal_index = read_bits(bits, 9)?;
        proof {
            crate::bitseq::lemma_bits_val_bound(s.subrange(np, np + 9));
            vstd::arithmetic::power2::lemma2_to64();
            assert(s.skip(np).subrange(0, 9) =~= s.subrange(np, np + 9));
            assert(s.skip(np).skip(9) =~= s.skip(np + 9));
            if s.len() >= np + 10 {
                assert(s.skip(np + 9)[0] == s[np + 9]);
                assert(s.skip(np + 9).skip(1) =~= s.skip(np + 10));
            }
        }
        let has_entity = read_bit(bits)?;
        let (entity_index, model_index) = if has_entity {
            let e = read_bits(bits, 11)?;
            proof {
                assert(s.skip(np + 10).subrange(0, 11) =~= s.subrange(np + 10, np + 21));
                assert(s.skip(np + 10).skip(11) =~= s.skip(np + 21));
            }
            let m = read_bits(bits, model_index_bits)?;
            proof {
                assert(s.skip(np + 21).subrange(0, decal_model_bits(version)) =~= s.subrange(
                    np + 21,
                    np + 21 + decal_model_bits(version),
                ));
                assert(s.skip(np + 21).skip(decal_model_bits(version)) =~= s.skip(
                    np + 21 + decal_model_bits(version),
                ));
                crate::bitseq::lemma_bits_val_bound(s.subrange(np + 10, np + 21));
                crate::bitseq::lemma_bits_val_bound(
                    s.subrange(np + 21, np + 21 + decal_model_bits(version)),
                );
                vstd::arithmetic::power2::lemma2_to64();
            }
            (e as u16, m as u16)
        } else {
            (0u16, 0u16)
        };
        let ghost before_low = if s[np + 9] {
            np + 21 + decal_model_bits(version)
        } else {
            np + 10
        };
        proof {
            if s.len() >= before_low + 1 {
                assert(s.skip(before_low)[0] == s[before_low]);
                assert(s.skip(before_low).skip(1) =~= s.skip(before_low + 1));
            }
        }
        let low_priority = read_bit(bits)?;
        Ok(Decal { position, decal_index: decal_index as u16, entity_index, model_index,
            low_priority })
    }
}

/// Consumed bits of a body made of `h` header bits whose last `w` are a
/// bit count, then that many bits of payload.
pub open spec fn blob_len(s: Seq<bool>, h: int, w: int) -> Option<int> {
    if s.len() < h {
        None
    } else {
        let n = h + field(s, h - w, h);
        if s.len() < n {
            None
        } else {
            Some(n as int)
        }
    }
}

/// A user-message payload addressed to a channel.
#[derive(Debug, Clone)]
pub struct UserMessage {
    pub channel: u8,
    pub data: Bits,
}

/// Field-by-field correspondence of a user-message body with the stream.
pub open spec fn user_message_decodes(m: UserMessage, s: Seq<bool>) -> bool {
    &&& m.channel as nat == field(s, 0, 8)
    &&& m.data@ == s.subrange(19, 19 + field(s, 8, 19) as int)
    &&& m.data.wf()
}

impl UserMessage {
    pub fn parse(bits: &mut BitReader, _version: ProtocolVersion) -> (r: Result<
        Self,
        ParseError,
    >)
        requires
            old(bits).wf(),
        ensures
            final(bits).wf(),
            match r {
                Ok(m) => {
                    &&& blob_len(old(bits).remaining(), 19, 11) matches Some(n)
                    &&& user_message_decodes(m, old(bits).remaining())
                    &&& final(bits).remaining() == old(bits).remaining().skip(
                        blob_len(old(bits).remaining(), 19, 11)->Some_0,
                    )
                },
                Err(e) => blob_len(old(bits).remaining(), 19, 11) is None && e matches
                    ParseError::InsufficientBits(_),
            },
    {
        let ghost s = old(bits).remaining();
        let channel = read_u8(bits)?;
        let bits_len = read_bits(bits, 11)?;
        proof {
            assert(s.skip(8).subrange(0, 11) =~= s.subrange(8, 19));
        }
        let data = read_blob(bits, bits_len as usize)?;
        proof {
            assert(s.skip(19).take(bits_len as int) =~= s.subrange(19, 19 + bits_len as int));
            assert(s.skip(19).skip(bits_len as int) =~= s.skip(19 + bits_len as int));
        }
        Ok(UserMessage { channel, data })
    }
}

/// A message addressed to one entity.
#[derive(Debug, Clone)]
pub struct EntityMessage {
    pub entity: u16,
    pub class: u16,
    pub data: Bits,
}

/// Field-by-field correspondence of an entity-message body with the stream.
pub open spec fn entity_message_decodes(m: EntityMessage, s: Seq<bool>) -> bool {
    &&& m.entity as nat == field(s, 0, 11)
    &&& m.class as nat == field(s, 11, 20)
    &&& m.data@ == s.subrange(31, 31 + field(s, 20, 31) as int)
    &&& m.data.wf()
}

impl EntityMessage {
    pub fn parse(bits: &mut BitReader, _version: ProtocolVersion) -> (r: Result<
        Self,
        ParseError,
    >)
        requires
            old(bits).wf(),
        ensures
            final(bits).wf(),
            match r {
                Ok(m) => {
                    &&& blob_len(old(bits).remaining(), 31, 11) matches Some(n)
                    &&& entity_message_decodes(m, old(bits).remaining())
                    &&& final(bits).remaining() == old(bits).remaining().skip(
                        blob_len(old(bits).remaining(), 31, 11)->Some_0,
                    )
                },
                Err(e) => blob_len(old(bits).remaining(), 31, 11) is None && e matches
                    ParseError::InsufficientBits(_),
            },
    {
        let ghost s = old(bits).remaining();
        let entity = read_bits(bits, 11)?;
        let class = read_bits(bits, 9)?;
        proof {
            assert(s.skip(11).subrange(0, 9) =~= s.subrange(11, 20));
            crate::bitseq::lemma_bits_val_bound(s.subrange(0, 11));
            crate::bitseq::lemma_bits_val_bound(s.subrange(11, 20));
            vstd::arithmetic::power2::lemma2_to64();
        }
        let bits_len = read_bits(bits, 11)?;
        proof {
            assert(s.skip(20).subrange(0, 11) =~= s.subrange(20, 31));
        }
        let data = read_blob(bits, bits_len as usize)?;
        proof {
            assert(s.skip(31).take(bits_len as int) =~= s.subrange(31, 31 + bits_len as int));
            assert(s.skip(31).skip(bits_len as int) =~= s.skip(31 + bits_len as int));
        }
        Ok(EntityMessage { entity: entity as u16, class: class as u16, data })
    }
}

/// A game-event instance; the first nine payload bits are the event index.
#[derive(Debug, Clone)]
pub struct GameEvent(pub Bits);

/// Field-by-field correspondence of a game-event body with the stream.
pub open spec fn game_event_decodes(m: GameEvent, s: Seq<bool>) -> bool {
    &&& m.0@ == s.subrange(11, 11 + field(s, 0, 11) as int)
    &&& m.0.wf()
}

impl GameEvent {
    pub fn parse(bits: &mut BitReader, _version: ProtocolVersion) -> (r: Result<
        Self,
        ParseError,
    >)
        requires
            old(bits).wf(),
        ensures
            final(bits).wf(),
            match r {
                Ok(m) => {
                    &&& blob_len(old(bits).remaining(), 11, 11) matches Some(n)
                    &&& game_event_decodes(m, old(bits).remaining())
                    &&& final(bits).remaining() == old(bits).remaining().skip(
                        blob_len(old(bits).remaining(), 11, 11)->Some_0,
                    )
                },
                Err(e) => blob_len(old(bits).remaining(), 11, 11) is None && e matches
                    ParseError::InsufficientBits(_),
            },
    {
        let ghost s = old(bits).remaining();
        let bits_len = read_bits(bits, 11)?;
        let data = read_blob(bits, bits_len as usize)?;
        proof {
            assert(s.skip(11).take(bits_len as int) =~= s.subrange(11, 11 + bits_len as int));
            assert(s.skip(11).skip(bits_len as int) =~= s.skip(11 + bits_len as int));
        }
        Ok(GameEvent(data))
    }
}

/// An entity snapshot or delta, kept as an opaque bit blob.
#[derive(Debug, Clone)]
pub struct Entities {
    pub max_entries: u16,
    pub delta_from_tick: Option<u32>,
    pub baseline: bool,
    pub updated: u16,
    pub update_baseline: bool,
    pub data: Bits,
}

/// Consumed bits of an entities body, when it fits.
pub open spec fn entities_len(s: Seq<bool>) -> Option<int> {
    if s.len() < 12 {
        None
    } else {
        let d = if s[11] {
            32int
        } else {
            0int
        };
        let h = 12 + d + 1 + 11 + 20 + 1;
        if s.len() < h {
            None
        } else {
            let n = h + field(s, h - 21, h - 1);
            if s.len() < n {
                None
            } else {
                Some(n as int)
            }
        }
    }
}

/// Field-by-field correspondence of an entities body with the stream.
pub open spec fn entities_decodes(m: Entities, s: Seq<bool>) -> bool {
    let d = if s[11] {
        32int
    } else {
        0int
    };
    let h = 12 + d + 33;
    &&& m.max_entries as nat == field(s, 0, 11)
    &&& m.delta_from_tick == if s[11] {
        Some(field(s, 12, 44) as u32)
    } else {
        None::<u32>
    }
    &&& m.baseline == s[12 + d]
    &&& m.updated as nat == field(s, 13 + d, 24 + d)
    &&& m.update_baseline == s[44 + d]
    &&& m.data@ == s.subrange(h, h + field(s, 24 + d, 44 + d) as int)
    &&& m.data.wf()
}

impl Entities {
    #[verifier::rlimit(100)]
    pub fn parse(bits: &mut BitReader, _version: ProtocolVersion) -> (r: Result<
        Self,
        ParseError,
    >)
        requires
            old(bits).wf(),
        ensures
            final(bits).wf(),
            match r {
                Ok(m) => {
                    &&& entities_len(old(bits).remaining()) matches Some(n)
                    &&& entities_decodes(m, old(bits).remaining())
                    &&& final(bits).remaining() == old(bits).remaining().skip(
                        entities_len(old(bits).remaining())->Some_0,
                    )
                },
                Err(e) => entities_len(old(bits).remaining()) is None && e matches
                    ParseError::InsufficientBits(_),
            },
    {
        let ghost s = old(bits).remaining();
        let max_entries = read_bits(bits, 11)?;
        proof {
            crate::bitseq::lemma_bits_val_bound(s.subrange(0, 11));
            vstd::arithmetic::power2::lemma2_to64();
            if s.len() >= 12 {
                assert(s.skip(11)[0] == s[11]);
                assert(s.skip(11).skip(1) =~= s.skip(12));
            }
        }
        let has_delta = read_bit(bits)?;
        let ghost d = if s[11] {
            32int
        } else {
            0int
        };
        let delta_from_tick: Option<u32> = if has_delta {
            let t = read_u32(bits)?;
            proof {
                assert(s.skip(12).subrange(0, 32) =~= s.subrange(12, 44));
                assert(s.skip(12).skip(32) =~= s.skip(44));
            }
            Some(t)
        } else {
            None
        };
        proof {
            if s.len() >= 13 + d {
                assert(s.skip(12 + d)[0] == s[12 + d]);
                assert(s.skip(12 + d).skip(1) =~= s.skip(13 + d));
            }
        }
        let baseline = read_bit(bits)?;
        let updated = read_bits(bits, 11)?;
        proof {
            assert(s.skip(13 + d).subrange(0, 11) =~= s.subrange(13 + d, 24 + d));
            assert(s.skip(13 + d).skip(11) =~= s.skip(24 + d));
            crate::bitseq::lemma_bits_val_bound(s.subrange(13 + d, 24 + d));
        }
        let bits_len = read_bits(bits, 20)?;
        proof {
            assert(s.skip(24 + d).subrange(0, 20) =~= s.subrange(24 + d, 44 + d));
            assert(s.skip(24 + d).skip(20) =~= s.skip(44 + d));
            if s.len() >= 45 + d {
                assert(s.skip(44 + d)[0] == s[44 + d]);
                assert(s.skip(44 + d).skip(1) =~= s.skip(45 + d));
            }
        }
        let update_baseline = read_bit(bits)?;
        let data = read_blob(bits, bits_len as usize)?;
        proof {
            assert(s.skip(45 + d).take(bits_len as int) =~= s.subrange(
                45 + d,
                45 + d + bits_len as int,
            ));
            assert(s.skip(45 + d).skip(bits_len as int) =~= s.skip(45 + d + bits_len as int));
        }
        Ok(
            Entities {
                max_entries: max_entries as u16,
                delta_from_tick,
                baseline,
                updated: updated as u16,
                update_baseline,
                data,
            },
        )
    }
}

/// A batch of temporary entities.
#[derive(Debug, Clone)]
pub struct TempEntities {
    pub count: u8,
    pub data: Bits,
}

/// Consumed bits of a temp-entities body, when it fits.
pub open spec fn temp_entities_len(s: Seq<bool>, version: ProtocolVersion) -> Option<int> {
    if version.0 >= 24 {
        if s.len() < 8 {
            None
        } else {
            match var_u32_decode(s.skip(8)) {
                None => None,
                Some((len, k)) => {
                    let n = 8 + 8 * k + len;
                    if s.len() < n {
                        None
                    } else {
                        Some(n as int)
                    }
                },
            }
        }
    } else {
        blob_len(s, 25, 17)
    }
}

/// Field-by-field correspondence of a temp-entities body with the stream.
pub open spec fn temp_entities_decodes(m: TempEntities, s: Seq<bool>, version: ProtocolVersion)
    -> bool {
    &&& m.count as nat == field(s, 0, 8)
    &&& m.data.wf()
    &&& if version.0 >= 24 {
        let o = 8 + 8 * var_u32_decode(s.skip(8))->Some_0.1;
        m.data@ == s.subrange(o, o + var_u32_decode(s.skip(8))->Some_0.0 as int)
    } else {
        m.data@ == s.subrange(25, 25 + field(s, 8, 25) as int)
    }
}

impl TempEntities {
    pub fn parse(bits: &mut BitReader, version: ProtocolVersion) -> (r: Result<Self, ParseError>)
        requires
            old(bits).wf(),
        ensures
            final(bits).wf(),
            match r {
                Ok(m) => {
                    &&& temp_entities_len(old(bits).remaining(), version) matches Some(n)
                    &&& temp_entities_decodes(m, old(bits).remaining(), version)
                    &&& final(bits).remaining() == old(bits).remaining().skip(
                        temp_entities_len(old(bits).remaining(), version)->Some_0,
                    )
                },
                Err(e) => temp_entities_len(old(bits).remaining(), version) is None && e matches
                    ParseError::InsufficientBits(_),
            },
    {
        let ghost s = old(bits).remaining();
        let count = read_u8(bits)?;
        let bits_len: u32 = if version.0 >= 24 {
            let l = match bits.read_var_u32() {
                Ok(l) => l,
                Err(e) => {
                    return Err(ParseError::InsufficientBits(e));
                },
            };
            l
        } else {
            let l = read_bits(bits, 17)?;
            proof {
                assert(s.skip(8).subrange(0, 17) =~= s.subrange(8, 25));
            }
            l
        };
        let ghost o = if version.0 >= 24 {
            8 + 8 * var_u32_decode(s.skip(8))->Some_0.1
        } else {
            25int
        };
        proof {
            assert(bits.remaining() =~= s.skip(o));
        }
        let data = read_blob(bits, bits_len as usize)?;
        proof {
            assert(s.skip(o).take(bits_len as int) =~= s.subrange(o, o + bits_len as int));
            assert(s.skip(o).skip(bits_len as int) =~= s.skip(o + bits_len as int));
        }
        Ok(TempEntities { count, data })
    }
}

/// A resource prefetch hint.
#[derive(Debug, Clone, Copy)]
pub struct Prefetch {
    pub kind: bool,
    pub id: u16,
}

/// Consumed bits of a prefetch body for this protocol.
pub open spec fn prefetch_len(version: ProtocolVersion) -> int {
    if version.0 >= 23 {
        14
    } else {
        13
    }
}

/// Field-by-field correspondence of a prefetch body with the stream.
pub open spec fn prefetch_decodes(m: Prefetch, s: Seq<bool>, version: ProtocolVersion) -> bool {
    if version.0 >= 23 {
        m.kind == s[0] && m.id as nat == field(s, 1, 14)
    } else {
        m.kind == false && m.id as nat == field(s, 0, 13)
    }
}

impl Prefetch {
    pub fn parse(bits: &mut BitReader, version: ProtocolVersion) -> (r: Result<Self, ParseError>)
        requires
            old(bits).wf(),
        ensures
            final(bits).wf(),
            match r {
                Ok(m) => {
                    &&& old(bits).remaining().len() >= prefetch_len(version)
                    &&& prefetch_decodes(m, old(bits).remaining(), version)
                    &&& final(bits).remaining() == old(bits).remaining().skip(
                        prefetch_len(version),
                    )
                },
                Err(e) => old(bits).remaining().len() < prefetch_len(version) && e matches
                    ParseError::InsufficientBits(_),
            },
    {
        let ghost s = old(bits).remaining();
        let kind = if version.0 >= 23 {
            read_bit(bits)?
        } else {
            false
        };
        let id = read_bits(bits, 13)?;
        proof {
            if version.0 >= 23 {
                assert(s.skip(1).subrange(0, 13) =~= s.subrange(1, 14));
                assert(s.skip(1).skip(13) =~= s.skip(14));
            }
            crate::bitseq::lemma_bits_val_bound(
                if version.0 >= 23 {
                    s.subrange(1, 14)
                } else {
                    s.subrange(0, 13)
                },
            );
            vstd::arithmetic::power2::lemma2_to64();
        }
        Ok(Prefetch { kind, id: id as u16 })
    }
}

/// A plugin menu blob of key-value bytes.
#[derive(Debug, Clone)]
pub struct PluginMenu {
    pub kind: u16,
    /// KeyValues text encoded into bytes.
    pub data: Vec<u8>,
}

/// Consumed bits of a plugin-menu body, when it fits.
pub open spec fn plugin_menu_len(s: Seq<bool>) -> Option<int> {
    if s.len() < 32 {
        None
    } else {
        let n = 32 + 8 * field(s, 16, 32);
        if s.len() < n {
            None
        } else {
            Some(n as int)
        }
    }
}

/// Field-by-field correspondence of a plugin-menu body with the stream.
pub open spec fn plugin_menu_decodes(m: PluginMenu, s: Seq<bool>) -> bool {
    &&& m.kind as nat == field(s, 0, 16)
    &&& m.data@.len() == field(s, 16, 32)
    &&& m.data@ == Seq::new(field(s, 16, 32), |j: int| crate::bitseq::group8(s.skip(32), j))
}

impl PluginMenu {
    pub fn parse(bits: &mut BitReader, _version: ProtocolVersion) -> (r: Result<
        Self,
        ParseError,
    >)
        requires
            old(bits).wf(),
        ensures
            final(bits).wf(),
            match r {
                Ok(m) => {
                    &&& plugin_menu_len(old(bits).remaining()) matches Some(n)
                    &&& plugin_menu_decodes(m, old(bits).remaining())
                    &&& final(bits).remaining() == old(bits).remaining().skip(
                        plugin_menu_len(old(bits).remaining())->Some_0,
                    )
                },
                Err(e) => plugin_menu_len(old(bits).remaining()) is None && e matches
                    ParseError::InsufficientBits(_),
            },
    {
        let ghost s = old(bits).remaining();
        let kind = read_u16(bits)?;
        let length = read_u16(bits)?;
        proof {
            assert(s.skip(16).subrange(0, 16) =~= s.subrange(16, 32));
        }
        let data = match bits.read_u8_array(length as usize) {
            Ok(d) => d,
            Err(e) => {
                return Err(ParseError::InsufficientBits(e));
            },
        };
        proof {
            assert(data@ =~= Seq::new(
                field(s, 16, 32),
                |j: int| crate::bitseq::group8(s.skip(32), j),
            ));
        }
        Ok(PluginMenu { kind, data })
    }
}

/// An incremental string-table update.
#[derive(Debug, Clone)]
pub struct UpdateStringTable {
    pub table_id: u8,
    pub entries: u16,
    pub data: Bits,
}

/// Consumed bits of an update-string-table body, when it fits.
pub open spec fn update_string_table_len(s: Seq<bool>) -> Option<int> {
    if s.len() < 6 {
        None
    } else {
        let e = if s[5] {
            16int
        } else {
            0int
        };
        let h = 6 + e + 20;
        if s.len() < h {
            None
        } else {
            let n = h + field(s, h - 20, h);
            if s.len() < n {
                None
            } else {
                Some(n as int)
            }
        }
    }
}

/// Field-by-field correspondence of an update-string-table body with the
/// stream.
pub open spec fn update_string_table_decodes(m: UpdateStringTable, s: Seq<bool>) -> bool {
    let e = if s[5] {
        16int
    } else {
        0int
    };
    let h = 26 + e;
    &&& m.table_id as nat == field(s, 0, 5)
    &&& m.entries as nat == if s[5] {
        field(s, 6, 22)
    } else {
        1nat
    }
    &&& m.data@ == s.subrange(h, h + field(s, h - 20, h) as int)
    &&& m.data.wf()
}

impl UpdateStringTable {
    #[verifier::rlimit(100)]
    pub fn parse(bits: &mut BitReader, _version: ProtocolVersion) -> (r: Result<
        Self,
        ParseError,
    >)
        requires
            old(bits).wf(),
        ensures
            final(bits).wf(),
            match r {
                Ok(m) => {
                    &&& update_string_table_len(old(bits).remaining()) matches Some(n)
                    &&& update_string_table_decodes(m, old(bits).remaining())
                    &&& final(bits).remaining() == old(bits).remaining().skip(
                        update_string_table_len(old(bits).remaining())->Some_0,
                    )
                },
                Err(e) => update_string_table_len(old(bits).remaining()) is None && e matches
                    ParseError::InsufficientBits(_),
            },
    {
        let ghost s = old(bits).remaining();
        let table_id = read_bits(bits, 5)?;
        proof {
            crate::bitseq::lemma_bits_val_bound(s.subrange(0, 5));
            vstd::arithmetic::power2::lemma2_to64();
            if s.len() >= 6 {
                assert(s.skip(5)[0] == s[5]);
                assert(s.skip(5).skip(1) =~= s.skip(6));
            }
        }
        let multi = read_bit(bits)?;
        let ghost e = if s[5] {
            16int
        } else {
            0int
        };
        let entries: u16 = if multi {
            let v = read_u16(bits)?;
            proof {
                assert(s.skip(6).subrange(0, 16) =~= s.subrange(6, 22));
                assert(s.skip(6).skip(16) =~= s.skip(22));
            }
            v
        } else {
            1
        };
        let bits_len = read_bits(bits, 20)?;
        proof {
            assert(s.skip(6 + e).subrange(0, 20) =~= s.subrange(6 + e, 26 + e));
            assert(s.skip(6 + e).skip(20) =~= s.skip(26 + e));
        }
        let data = read_blob(bits, bits_len as usize)?;
        proof {
            assert(s.skip(26 + e).take(bits_len as int) =~= s.subrange(
                26 + e,
                26 + e + bits_len as int,
            ));
            assert(s.skip(26 + e).skip(bits_len as int) =~= s.skip(26 + e + bits_len as int));
        }
        Ok(UpdateStringTable { table_id: table_id as u8, entries, data })
    }
}

/// The server's self-description sent during signon.
#[derive(Debug)]
pub struct ServerInfo {
    /// Network protocol, as in the demo header.
    pub network_protocol: u16,
    pub server_count: u32,
    pub hltv: bool,
    pub dedicated: bool,
    /// CRC of the client library; all-ones means none.
    pub client_dll_crc: u32,
    pub max_classes: u16,
    /// Sixteen bytes of map hash on newer protocols, a map CRC before.
    pub _unknown0: Result<Vec<u8>, u32>,
    pub slot: u8,
    pub max_clients: u8,
    /// Seconds per tick, as the raw bit pattern of an IEEE-754 value.
    pub tick_interval: u32,
    pub os: u8,
    pub game_directory: String,
    pub map: String,
    pub sky: String,
    pub hostname: String,
    /// Trailing bit of unknown meaning on newer protocols.
    pub _unknown1: bool,
}

/// Bits of the map-identity field for this protocol.
pub open spec fn server_info_map_bits(version: ProtocolVersion) -> int {
    if version.0 >= 16 {
        128
    } else {
        32
    }
}

/// Offset of the string block of a server-info body.
pub open spec fn server_info_strings_at(version: ProtocolVersion) -> int {
    98 + server_info_map_bits(version) + 56
}

/// Consumed bits of a server-info body, when it fits.
pub open spec fn server_info_len(s: Seq<bool>, version: ProtocolVersion) -> Option<int> {
    let o = server_info_strings_at(version);
    if s.len() < o {
        None
    } else {
        match cstr_len(s.skip(o)) {
            None => None,
            Some(k1) => {
                let o1 = o + 8 * (k1 + 1);
                match cstr_len(s.skip(o1)) {
                    None => None,
                    Some(k2) => {
                        let o2 = o1 + 8 * (k2 + 1);
                        match cstr_len(s.skip(o2)) {
                            None => None,
                            Some(k3) => {
                                let o3 = o2 + 8 * (k3 + 1);
                                match cstr_len(s.skip(o3)) {
                                    None => None,
                                    Some(k4) => {
                                        let o4 = o3 + 8 * (k4 + 1);
                                        let n = if version.0 >= 16 {
                                            o4 + 1
                                        } else {
                                            o4
                                        };
                                        if s.len() < n {
                                            None
                                        } else {
                                            Some(n)
                                        }
                                    },
                                }
                            },
                        }
                    },
                }
            },
        }
    }
}

/// Whether a server-info body decodes without error.
pub open spec fn server_info_ok(s: Seq<bool>, version: ProtocolVersion) -> bool {
    let o = server_info_strings_at(version);
    &&& server_info_len(s, version) is Some
    &&& vstd::utf8::valid_utf8(cstr_bytes(s.skip(o)))
    &&& {
        let o1 = o + 8 * (cstr_len(s.skip(o))->Some_0 + 1);
        &&& vstd::utf8::valid_utf8(cstr_bytes(s.skip(o1)))
        &&& {
            let o2 = o1 + 8 * (cstr_len(s.skip(o1))->Some_0 + 1);
            &&& vstd::utf8::valid_utf8(cstr_bytes(s.skip(o2)))
            &&& {
                let o3 = o2 + 8 * (cstr_len(s.skip(o2))->Some_0 + 1);
                vstd::utf8::valid_utf8(cstr_bytes(s.skip(o3)))
            }
        }
    }
}

/// Field-by-field correspondence of a server-info body with the stream.
pub open spec fn server_info_decodes(m: ServerInfo, s: Seq<bool>, version: ProtocolVersion)
    -> bool {
    let o = server_info_strings_at(version);
    let mb = server_info_map_bits(version);
    let o1 = o + 8 * (cstr_len(s.skip(o))->Some_0 + 1);
    let o2 = o1 + 8 * (cstr_len(s.skip(o1))->Some_0 + 1);
    let o3 = o2 + 8 * (cstr_len(s.skip(o2))->Some_0 + 1);
    let o4 = o3 + 8 * (cstr_len(s.skip(o3))->Some_0 + 1);
    &&& m.network_protocol as nat == field(s, 0, 16)
    &&& m.server_count as nat == field(s, 16, 48)
    &&& m.hltv == s[48]
    &&& m.dedicated == s[49]
    &&& m.client_dll_crc as nat == field(s, 50, 82)
    &&& m.max_classes as nat == field(s, 82, 98)
    &&& if version.0 >= 16 {
        m._unknown0 matches Ok(h) && h@ == Seq::new(16, |j: int| crate::bitseq::group8(s.skip(98), j))
    } else {
        m._unknown0 matches Err(crc) && crc as nat == field(s, 98, 130)
    }
    &&& m.slot as nat == field(s, 98 + mb, 106 + mb)
    &&& m.max_clients as nat == field(s, 106 + mb, 114 + mb)
    &&& m.tick_interval as nat == field(s, 114 + mb, 146 + mb)
    &&& m.os as nat == field(s, 146 + mb, 154 + mb)
    &&& m.game_directory@ == vstd::utf8::decode_utf8(cstr_bytes(s.skip(o)))
    &&& m.map@ == vstd::utf8::decode_utf8(cstr_bytes(s.skip(o1)))
    &&& m.sky@ == vstd::utf8::decode_utf8(cstr_bytes(s.skip(o2)))
    &&& m.hostname@ == vstd::utf8::decode_utf8(cstr_bytes(s.skip(o3)))
    &&& m._unknown1 == if version.0 >= 16 {
        s[o4]
    } else {
        false
    }
}

impl ServerInfo {
    /// Read the four strings and the trailing bit of a server-info body.
    #[verifier::rlimit(100)]
    fn parse_strings(
        bits: &mut BitReader,
        version: ProtocolVersion,
        s0: Ghost<Seq<bool>>,
        o: Ghost<int>,
    ) -> (r: Result<(String, String, String, String, bool), ParseError>)
        requires
            old(bits).wf(),
            0 <= o@ <= s0@.len(),
            old(bits).remaining() == s0@.skip(o@),
            o@ == server_info_strings_at(version),
        ensures
            final(bits).wf(),
            ({
                let s = s0@;
                let o = o@;
                match r {
                    Ok((game_directory, map, sky, hostname, trailing)) => {
                        &&& cstr_len(s.skip(o)) is Some
                        &&& vstd::utf8::valid_utf8(cstr_bytes(s.skip(o)))
                        &&& game_directory@ == vstd::utf8::decode_utf8(cstr_bytes(s.skip(o)))
                        &&& {
                            let o1 = o + 8 * (cstr_len(s.skip(o))->Some_0 + 1);
                            &&& cstr_len(s.skip(o1)) is Some
                            &&& vstd::utf8::valid_utf8(cstr_bytes(s.skip(o1)))
                            &&& map@ == vstd::utf8::decode_utf8(cstr_bytes(s.skip(o1)))
                            &&& {
                                let o2 = o1 + 8 * (cstr_len(s.skip(o1))->Some_0 + 1);
                                &&& cstr_len(s.skip(o2)) is Some
                                &&& vstd::utf8::valid_utf8(cstr_bytes(s.skip(o2)))
                                &&& sky@ == vstd::utf8::decode_utf8(cstr_bytes(s.skip(o2)))
                                &&& {
                                    let o3 = o2 + 8 * (cstr_len(s.skip(o2))->Some_0 + 1);
                                    let o4 = o3 + 8 * (cstr_len(s.skip(o3))->Some_0 + 1);
                                    &&& cstr_len(s.skip(o3)) is Some
                                    &&& vstd::utf8::valid_utf8(cstr_bytes(s.skip(o3)))
                                    &&& hostname@ == vstd::utf8::decode_utf8(
                                        cstr_bytes(s.skip(o3)),
                                    )
                                    &&& if version.0 >= 16 {
                                        &&& s.len() >= o4 + 1
                                        &&& trailing == s[o4]
                                        &&& final(bits).remaining() == s.skip(o4 + 1)
                                    } else {
                                        &&& trailing == false
                                        &&& final(bits).remaining() == s.skip(o4)
                                    }
                                }
                            }
                        }
                    },
                    Err(_) => !server_info_ok(s, version) || s.len() < o,
                }
            }),
    {
        let ghost s = s0@;
        let game_directory = read_string(bits)?;
        let ghost o1 = o@ + 8 * (cstr_len(s.skip(o@))->Some_0 + 1);
        proof {
            crate::bits::lemma_cstr_len_bound(s.skip(o@));
            assert(bits.remaining() =~= s.skip(o1));
        }
        let map = read_string(bits)?;
        let ghost o2 = o1 + 8 * (cstr_len(s.skip(o1))->Some_0 + 1);
        proof {
            crate::bits::lemma_cstr_len_bound(s.skip(o1));
            assert(bits.remaining() =~= s.skip(o2));
        }
        let sky = read_string(bits)?;
        let ghost o3 = o2 + 8 * (cstr_len(s.skip(o2))->Some_0 + 1);
        proof {
            crate::bits::lemma_cstr_len_bound(s.skip(o2));
            assert(bits.remaining() =~= s.skip(o3));
        }
        let hostname = read_string(bits)?;
        let ghost o4 = o3 + 8 * (cstr_len(s.skip(o3))->Some_0 + 1);
        proof {
            crate::bits::lemma_cstr_len_bound(s.skip(o3));
            assert(bits.remaining() =~= s.skip(o4));
            if version.0 >= 16 && s.len() >= o4 + 1 {
                assert(s.skip(o4)[0] == s[o4]);
                assert(s.skip(o4).skip(1) =~= s.skip(o4 + 1));
            }
        }
        let trailing = if version.0 >= 16 {
            read_bit(bits)?
        } else {
            false
        };
        Ok((game_directory, map, sky, hostname, trailing))
    }

    #[verifier::rlimit(100)]
    pub fn parse(bits: &mut BitReader, version: ProtocolVersion) -> (r: Result<Self, ParseError>)
        requires
            old(bits).wf(),
        ensures
            final(bits).wf(),
            match r {
                Ok(m) => {
                    &&& server_info_ok(old(bits).remaining(), version)
                    &&& server_info_decodes(m, old(bits).remaining(), version)
                    &&& final(bits).remaining() == old(bits).remaining().skip(
                        server_info_len(old(bits).remaining(), version)->Some_0,
                    )
                },
                Err(e) => !server_info_ok(old(bits).remaining(), version),
            },
    {
        let ghost s = old(bits).remaining();
        let network_protocol = read_u16(bits)?;
        let server_count = read_u32(bits)?;
        proof {
            assert(s.skip(16).subrange(0, 32) =~= s.subrange(16, 48));
            assert(s.skip(16).skip(32) =~= s.skip(48));
            if s.len() >= 49 {
                assert(s.skip(48)[0] == s[48]);
                assert(s.skip(48).skip(1) =~= s.skip(49));
            }
            if s.len() >= 50 {
                assert(s.skip(49)[0] == s[49]);
                assert(s.skip(49).skip(1) =~= s.skip(50));
            }
        }
        let hltv = read_bit(bits)?;
        let dedicated = read_bit(bits)?;
        let client_dll_crc = read_u32(bits)?;
        proof {
            assert(s.skip(50).subrange(0, 32) =~= s.subrange(50, 82));
            assert(s.skip(50).skip(32) =~= s.skip(82));
        }
        let max_classes = read_u16(bits)?;
        proof {
            assert(s.skip(82).subrange(0, 16) =~= s.subrange(82, 98));
            assert(s.skip(82).skip(16) =~= s.skip(98));
        }
        let ghost mb = server_info_map_bits(version);
        let map_identity: Result<Vec<u8>, u32> = if version.0 >= 16 {
            let h = match bits.read_u8_array(16) {
                Ok(h) => h,
                Err(e) => {
                    return Err(ParseError::InsufficientBits(e));
                },
            };
            proof {
                assert(s.skip(98).skip(128) =~= s.skip(226));
            }
            Ok(h)
        } else {
            let crc = read_u32(bits)?;
            proof {
                assert(s.skip(98).subrange(0, 32) =~= s.subrange(98, 130));
                assert(s.skip(98).skip(32) =~= s.skip(130));
            }
            Err(crc)
        };
        let slot = read_u8(bits)?;
        proof {
            assert(s.skip(98 + mb).subrange(0, 8) =~= s.subrange(98 + mb, 106 + mb));
            assert(s.skip(98 + mb).skip(8) =~= s.skip(106 + mb));
        }
        let max_clients = read_u8(bits)?;
        proof {
            assert(s.skip(106 + mb).subrange(0, 8) =~= s.subrange(106 + mb, 114 + mb));
            assert(s.skip(106 + mb).skip(8) =~= s.skip(114 + mb));
        }
        let tick_interval = read_u32(bits)?;
        proof {
            assert(s.skip(114 + mb).subrange(0, 32) =~= s.subrange(114 + mb, 146 + mb));
            assert(s.skip(114 + mb).skip(32) =~= s.skip(146 + mb));
        }
        let os = read_u8(bits)?;
        proof {
            assert(s.skip(146 + mb).subrange(0, 8) =~= s.subrange(146 + mb, 154 + mb));
            assert(s.skip(146 + mb).skip(8) =~= s.skip(154 + mb));
        }
        let ghost o = server_info_strings_at(version);
        let (game_directory, map, sky, hostname, trailing) = Self::parse_strings(
            bits,
            version,
            Ghost(s),
            Ghost(o),
        )?;
        proof {
            let o1 = o + 8 * (cstr_len(s.skip(o))->Some_0 + 1);
            let o2 = o1 + 8 * (cstr_len(s.skip(o1))->Some_0 + 1);
            let o3 = o2 + 8 * (cstr_len(s.skip(o2))->Some_0 + 1);
            let o4 = o3 + 8 * (cstr_len(s.skip(o3))->Some_0 + 1);
            crate::bits::lemma_cstr_len_bound(s.skip(o));
            crate::bits::lemma_cstr_len_bound(s.skip(o1));
            crate::bits::lemma_cstr_len_bound(s.skip(o2));
            crate::bits::lemma_cstr_len_bound(s.skip(o3));
            assert(server_info_len(s, version) is Some);
        }
        Ok(
            ServerInfo {
                network_protocol,
                server_count,
                hltv,
                dedicated,
                client_dll_crc,
                max_classes,
                _unknown0: map_identity,
                slot,
                max_clients,
                tick_interval,
                os,
                game_directory,
                map,
                sky,
                hostname,
                _unknown1: trailing,
            },
        )
    }
}

/// A string-table creation message carrying the encoded initial rows.
#[derive(Debug, Clone)]
pub struct CreateStringTable {
    pub name: String,
    pub max_entries: u16,
    pub entries: u16,
    /// Fixed per-row extra data size, as a byte count and a bit count.
    pub fixed_userdata_size: Option<(u16, u8)>,
    pub compressed: bool,
    pub data: Bits,
}

/// Layout of a create-string-table body after the name and max-entries
/// fields: the entry count, the length field, the fixed-size block, the
/// compression flag, and the payload.
pub open spec fn cst_tail_len(s: Seq<bool>, w: int, version: ProtocolVersion) -> Option<int> {
    if s.len() < w {
        None
    } else {
        let after_entries = s.skip(w);
        let blen: Option<(nat, int)> = if version.0 >= 24 {
            match var_u32_decode(after_entries) {
                None => None,
                Some((v, k)) => Some((v as nat, 8 * k)),
            }
        } else {
            if after_entries.len() < 20 {
                None
            } else {
                Some((field(after_entries, 0, 20), 20int))
            }
        };
        match blen {
            None => None,
            Some((payload, lw)) => {
                let o = w + lw;
                if s.len() < o + 1 {
                    None
                } else {
                    let f = if s[o] {
                        16int
                    } else {
                        0int
                    };
                    let n = o + 1 + f + 1 + payload;
                    if s.len() < n {
                        None
                    } else {
                        Some(n as int)
                    }
                }
            },
        }
    }
}

/// Consumed bits of a create-string-table body, when it fits. `name_end` is
/// the bit offset after the name string.
pub open spec fn cst_len(s: Seq<bool>, version: ProtocolVersion) -> Option<int> {
    match cstr_len(s) {
        None => None,
        Some(k) => {
            let o = 8 * (k + 1);
            if s.len() < o + 16 {
                None
            } else {
                let max_entries = field(s, o, o + 16);
                if max_entries == 0 {
                    None
                } else {
                    let w = crate::bitseq::ceil_log2(max_entries) + 1;
                    match cst_tail_len(s.skip(o + 16), w as int, version) {
                        None => None,
                        Some(t) => Some(o + 16 + t),
                    }
                }
            }
        },
    }
}

/// Whether a create-string-table body decodes without error: it fits, the
/// name is UTF-8, and the table is not declared empty.
pub open spec fn cst_ok(s: Seq<bool>, version: ProtocolVersion) -> bool {
    &&& cst_len(s, version) is Some
    &&& vstd::utf8::valid_utf8(cstr_bytes(s))
}

/// Field-by-field correspondence of a create-string-table body with the
/// stream.
pub open spec fn cst_decodes(m: CreateStringTable, s: Seq<bool>, version: ProtocolVersion)
    -> bool {
    let o = 8 * (cstr_len(s)->Some_0 + 1);
    let max_entries = field(s, o, o + 16);
    let w = crate::bitseq::ceil_log2(max_entries) as int + 1;
    let t = s.skip(o + 16);
    let lw = if version.0 >= 24 {
        8 * var_u32_decode(t.skip(w))->Some_0.1
    } else {
        20int
    };
    let payload = if version.0 >= 24 {
        var_u32_decode(t.skip(w))->Some_0.0 as nat
    } else {
        field(t, w, w + 20)
    };
    let q = o + 16 + w + lw;
    let f = if s[q] {
        16int
    } else {
        0int
    };
    &&& m.name@ == vstd::utf8::decode_utf8(cstr_bytes(s))
    &&& m.max_entries as nat == max_entries
    &&& m.entries as nat == field(t, 0, w) % 0x10000
    &&& m.fixed_userdata_size == if s[q] {
        Some((field(s, q + 1, q + 13) as u16, field(s, q + 13, q + 17) as u8))
    } else {
        None::<(u16, u8)>
    }
    &&& m.compressed == s[q + 1 + f]
    &&& m.data@ == s.subrange(q + 2 + f, q + 2 + f + payload as int)
    &&& m.data.wf()
}

impl CreateStringTable {
    /// Decode a create-string-table body. A declared capacity of zero is a
    /// table this decoder does not support.
    #[verifier::rlimit(100)]
    #[verifier::spinoff_prover]
    pub fn parse(bits: &mut BitReader, version: ProtocolVersion) -> (r: Result<Self, ParseError>)
        requires
            old(bits).wf(),
        ensures
            final(bits).wf(),
            match r {
                Ok(m) => {
                    &&& cst_ok(old(bits).remaining(), version)
                    &&& cst_decodes(m, old(bits).remaining(), version)
                    &&& final(bits).remaining() == old(bits).remaining().skip(
                        cst_len(old(bits).remaining(), version)->Some_0,
                    )
                },
                Err(e) => !cst_ok(old(bits).remaining(), version),
            },
    {
        let ghost s = old(bits).remaining();
        let name = read_string(bits)?;
        let ghost o = 8 * (cstr_len(s)->Some_0 + 1);
        proof {
            crate::bits::lemma_cstr_len_bound(s);
        }
        let max_entries = read_u16(bits)?;
        proof {
            assert(s.skip(o).subrange(0, 16) =~= s.subrange(o, o + 16));
            assert(s.skip(o).skip(16) =~= s.skip(o + 16));
        }
        if max_entries == 0 {
            return Err(ParseError::Unsupported { name: "CreateStringTable" });
        }
        let index_bits = ceil_log2_u16(max_entries);
        let ghost t = s.skip(o + 16);
        let ghost w = crate::bitseq::ceil_log2(max_entries as nat) as int + 1;
        let entries = read_bits(bits, index_bits + 1)?;
        proof {
            crate::bitseq::lemma_bits_val_bound(t.subrange(0, w));
            assert(pow2(17) == 0x20000) by {
                vstd::arithmetic::power2::lemma2_to64();
            }
            if (w as nat) < 17 {
                vstd::arithmetic::power2::lemma_pow2_strictly_increases(w as nat, 17);
            }
            assert(t.take(w) =~= t.subrange(0, w));
            assert(t.skip(w) =~= s.skip(o + 16 + w));
            let ev = entries;
            assert(ev as u16 as nat == ev as nat % 0x10000) by (bit_vector);
        }
        Self::parse_rest(bits, version, Ghost(s), Ghost(o), Ghost(w), name, max_entries, entries
            as u16)
    }

    /// Decode the length, fixed-size block, compression flag and payload of a
    /// create-string-table body.
    #[verifier::rlimit(100)]
    #[verifier::spinoff_prover]
    fn parse_rest(
        bits: &mut BitReader,
        version: ProtocolVersion,
        s0: Ghost<Seq<bool>>,
        o0: Ghost<int>,
        w0: Ghost<int>,
        name: String,
        max_entries: u16,
        entries: u16,
    ) -> (r: Result<Self, ParseError>)
        requires
            old(bits).wf(),
            cstr_len(s0@) is Some,
            vstd::utf8::valid_utf8(cstr_bytes(s0@)),
            name@ == vstd::utf8::decode_utf8(cstr_bytes(s0@)),
            o0@ == 8 * (cstr_len(s0@)->Some_0 + 1),
            s0@.len() >= o0@ + 16 + w0@,
            max_entries as nat == field(s0@, o0@, o0@ + 16),
            max_entries != 0,
            w0@ == crate::bitseq::ceil_log2(max_entries as nat) + 1,
            entries as nat == field(s0@.skip(o0@ + 16), 0, w0@) % 0x10000,
            old(bits).remaining() == s0@.skip(o0@ + 16 + w0@),
        ensures
            final(bits).wf(),
            match r {
                Ok(m) => {
                    &&& cst_ok(s0@, version)
                    &&& cst_decodes(m, s0@, version)
                    &&& final(bits).remaining() == s0@.skip(cst_len(s0@, version)->Some_0)
                },
                Err(e) => !cst_ok(s0@, version),
            },
    {
        let ghost s = s0@;
        let ghost o = o0@;
        let ghost w = w0@;
        let ghost t = s.skip(o + 16);
        proof {
            crate::bits::lemma_cstr_len_bound(s);
            assert(t.skip(w) =~= s.skip(o + 16 + w));
        }
        let ghost lw = if version.0 >= 24 {
            8 * var_u32_decode(t.skip(w))->Some_0.1
        } else {
            20int
        };
        let bits_len: u32 = if version.0 >= 24 {
            match bits.read_var_u32() {
                Ok(v) => v,
                Err(e) => {
                    return Err(ParseError::InsufficientBits(e));
                },
            }
        } else {
            let v = read_bits(bits, 20)?;
            proof {
                assert(t.skip(w).subrange(0, 20) =~= t.subrange(w, w + 20));
            }
            v
        };
        let ghost q = o + 16 + w + lw;
        proof {
            if version.0 >= 24 {
                assert(s.skip(o + 16 + w).skip(lw) =~= s.skip(q));
            } else {
                assert(t.skip(w).subrange(0, 20) =~= t.subrange(w, w + 20));
                assert(s.skip(o + 16 + w).skip(20) =~= s.skip(q));
            }
            assert(bits.remaining() =~= s.skip(q));
            if s.len() >= q + 1 {
                assert(s.skip(q)[0] == s[q]);
                assert(s.skip(q).skip(1) =~= s.skip(q + 1));
            }
        }
        let has_fixed = read_bit(bits)?;
        let ghost f = if s[q] {
            16int
        } else {
            0int
        };
        let fixed_userdata_size: Option<(u16, u8)> = if has_fixed {
            let sz = read_bits(bits, 12)?;
            proof {
                assert(s.skip(q + 1).subrange(0, 12) =~= s.subrange(q + 1, q + 13));
                assert(s.skip(q + 1).skip(12) =~= s.skip(q + 13));
                crate::bitseq::lemma_bits_val_bound(s.subrange(q + 1, q + 13));
                vstd::arithmetic::power2::lemma2_to64();
            }
            let bsz = read_bits(bits, 4)?;
            proof {
                assert(s.skip(q + 13).subrange(0, 4) =~= s.subrange(q + 13, q + 17));
                assert(s.skip(q + 13).skip(4) =~= s.skip(q + 17));
                crate::bitseq::lemma_bits_val_bound(s.subrange(q + 13, q + 17));
            }
            Some((sz as u16, bsz as u8))
        } else {
            None
        };
        proof {
            if s.len() >= q + 1 + f + 1 {
                assert(s.skip(q + 1 + f)[0] == s[q + 1 + f]);
                assert(s.skip(q + 1 + f).skip(1) =~= s.skip(q + 2 + f));
            }
        }
        let compressed = read_bit(bits)?;
        let data = read_blob(bits, bits_len as usize)?;
        proof {
            assert(s.skip(q + 2 + f).take(bits_len as int) =~= s.subrange(
                q + 2 + f,
                q + 2 + f + bits_len as int,
            ));
            assert(s.skip(q + 2 + f).skip(bits_len as int) =~= s.skip(
                q + 2 + f + bits_len as int,
            ));
        }
        Ok(
            CreateStringTable {
                name,
                max_entries,
                entries: entries as u16,
                fixed_userdata_size,
                compressed,
                data,
            },
        )
    }
}

/// The smallest width `w` with `2^w` at least `n`.
pub fn ceil_log2_u16(n: u16) -> (r: u8)
    ensures
        r as nat == crate::bitseq::ceil_log2(n as nat),
        r <= 16,
{
    let mut w: u8 = 0;
    let mut acc: u32 = 1;
    proof {
        vstd::arithmetic::power2::lemma2_to64();
    }
    while acc < n as u32
        invariant
            w <= 16,
            acc == pow2(w as nat),
            acc <= 0x10000,
            w > 0 ==> pow2((w - 1) as nat) < n,
        decreases 0x20000int - acc,
    {
        proof {
            vstd::arithmetic::power2::lemma_pow2_adds(w as nat, 1);
            vstd::arithmetic::power2::lemma_pow2_pos(w as nat);
            vstd::arithmetic::power2::lemma2_to64();
            if w >= 16 {
                assert(pow2(16) == 0x10000);
                assert(false);
            }
        }
        acc = acc * 2;
        w = w + 1;
    }
    proof {
        crate::bitseq::lemma_ceil_log2_unique(n as nat, w as nat);
    }
    w
}

/// A decoded message: the closed sum over all message kinds.
#[derive(Debug)]
pub enum Packet {
    Nop,
    Disconnect,
    TransferFile(TransferFile),
    Tick(Tick),
    StringCommand(String),
    SetCvars(SetCvars),
    SignonState(SignonState),
    Print(String),
    ServerInfo(ServerInfo),
    DataTable,
    ClassInfo(ClassInfo),
    Pause(bool),
    CreateStringTable(CreateStringTable),
    UpdateStringTable(UpdateStringTable),
    VoiceInit(VoiceInit),
    VoiceData(VoiceData),
    HltvControl,
    PlaySound(PlaySound),
    SetEntityView(u16),
    FixAngle(FixAngle),
    CrosshairAngle(CrosshairAngle),
    Decal(Decal),
    TerrainMod,
    UserMessage(UserMessage),
    EntityMessage(EntityMessage),
    GameEvent(GameEvent),
    Entities(Entities),
    TempEntities(TempEntities),
    Prefetch(Prefetch),
    PluginMenu(PluginMenu),
    GameEventList(crate::game_events::GameEventList),
    GetCvar,
}

impl Packet {
    /// The kind this message belongs to.
    pub open spec fn spec_kind(self) -> PacketKind {
        match self {
            Packet::Nop => PacketKind::Nop,
            Packet::Disconnect => PacketKind::Disconnect,
            Packet::TransferFile(_) => PacketKind::TransferFile,
            Packet::Tick(_) => PacketKind::Tick,
            Packet::StringCommand(_) => PacketKind::StringCommand,
            Packet::SetCvars(_) => PacketKind::SetCvars,
            Packet::SignonState(_) => PacketKind::SignonState,
            Packet::Print(_) => PacketKind::Print,
            Packet::ServerInfo(_) => PacketKind::ServerInfo,
            Packet::DataTable => PacketKind::DataTable,
            Packet::ClassInfo(_) => PacketKind::ClassInfo,
            Packet::Pause(_) => PacketKind::Pause,
            Packet::CreateStringTable(_) => PacketKind::CreateStringTable,
            Packet::UpdateStringTable(_) => PacketKind::UpdateStringTable,
            Packet::VoiceInit(_) => PacketKind::VoiceInit,
            Packet::VoiceData(_) => PacketKind::VoiceData,
            Packet::HltvControl => PacketKind::HltvControl,
            Packet::PlaySound(_) => PacketKind::PlaySound,
            Packet::SetEntityView(_) => PacketKind::SetEntityView,
            Packet::FixAngle(_) => PacketKind::FixAngle,
            Packet::CrosshairAngle(_) => PacketKind::CrosshairAngle,
            Packet::Decal(_) => PacketKind::Decal,
            Packet::TerrainMod => PacketKind::TerrainMod,
            Packet::UserMessage(_) => PacketKind::UserMessage,
            Packet::EntityMessage(_) => PacketKind::EntityMessage,
            Packet::GameEvent(_) => PacketKind::GameEvent,
            Packet::Entities(_) => PacketKind::Entities,
            Packet::TempEntities(_) => PacketKind::TempEntities,
            Packet::Prefetch(_) => PacketKind::Prefetch,
            Packet::PluginMenu(_) => PacketKind::PluginMenu,
            Packet::GameEventList(_) => PacketKind::GameEventList,
            Packet::GetCvar => PacketKind::GetCvar,
        }
    }

    pub fn kind(&self) -> (r: PacketKind)
        ensures
            r == self.spec_kind(),
    {
        match self {
            Packet::Nop => PacketKind::Nop,
            Packet::Disconnect => PacketKind::Disconnect,
            Packet::TransferFile(_) => PacketKind::TransferFile,
            Packet::Tick(_) => PacketKind::Tick,
            Packet::StringCommand(_) => PacketKind::StringCommand,
            Packet::SetCvars(_) => PacketKind::SetCvars,
            Packet::SignonState(_) => PacketKind::SignonState,
            Packet::Print(_) => PacketKind::Print,
            Packet::ServerInfo(_) => PacketKind::ServerInfo,
            Packet::DataTable => PacketKind::DataTable,
            Packet::ClassInfo(_) => PacketKind::ClassInfo,
            Packet::Pause(_) => PacketKind::Pause,
            Packet::CreateStringTable(_) => PacketKind::CreateStringTable,
            Packet::UpdateStringTable(_) => PacketKind::UpdateStringTable,
            Packet::VoiceInit(_) => PacketKind::VoiceInit,
            Packet::VoiceData(_) => PacketKind::VoiceData,
            Packet::HltvControl => PacketKind::HltvControl,
            Packet::PlaySound(_) => PacketKind::PlaySound,
            Packet::SetEntityView(_) => PacketKind::SetEntityView,
            Packet::FixAngle(_) => PacketKind::FixAngle,
            Packet::CrosshairAngle(_) => PacketKind::CrosshairAngle,
            Packet::Decal(_) => PacketKind::Decal,
            Packet::TerrainMod => PacketKind::TerrainMod,
            Packet::UserMessage(_) => PacketKind::UserMessage,
            Packet::EntityMessage(_) => PacketKind::EntityMessage,
            Packet::GameEvent(_) => PacketKind::GameEvent,
            Packet::Entities(_) => PacketKind::Entities,
            Packet::TempEntities(_) => PacketKind::TempEntities,
            Packet::Prefetch(_) => PacketKind::Prefetch,
            Packet::PluginMenu(_) => PacketKind::PluginMenu,
            Packet::GameEventList(_) => PacketKind::GameEventList,
            Packet::GetCvar => PacketKind::GetCvar,
        }
    }
}

/// Whether a message body of this kind decodes without error.
pub open spec fn packet_ok(kind: PacketKind, s: Seq<bool>, version: ProtocolVersion) -> bool {
    match kind {
        PacketKind::Nop => true,
        PacketKind::Disconnect => false,
        PacketKind::TransferFile => transfer_file_ok(s),
        PacketKind::Tick => s.len() >= 64,
        PacketKind::StringCommand => cstr_len(s) is Some && vstd::utf8::valid_utf8(cstr_bytes(s)),
        PacketKind::SetCvars => s.len() >= 8 && cvars_ok(s.skip(8), field(s, 0, 8) as int),
        PacketKind::SignonState => s.len() >= 40,
        PacketKind::Print => cstr_len(s) is Some && vstd::utf8::valid_utf8(cstr_bytes(s)),
        PacketKind::ServerInfo => server_info_ok(s, version),
        PacketKind::DataTable => false,
        PacketKind::ClassInfo => s.len() >= 17 && s[16],
        PacketKind::Pause => s.len() >= 1,
        PacketKind::CreateStringTable => cst_ok(s, version),
        PacketKind::UpdateStringTable => update_string_table_len(s) is Some,
        PacketKind::VoiceInit => voice_init_ok(s),
        PacketKind::VoiceData => voice_data_len(s) is Some,
        PacketKind::HltvControl => false,
        PacketKind::PlaySound => play_sound_len(s) is Some,
        PacketKind::SetEntityView => s.len() >= 11,
        PacketKind::FixAngle => s.len() >= 49,
        PacketKind::CrosshairAngle => s.len() >= 48,
        PacketKind::Decal => decal_len(s, version) is Some,
        PacketKind::TerrainMod => false,
        PacketKind::UserMessage => blob_len(s, 19, 11) is Some,
        PacketKind::EntityMessage => blob_len(s, 31, 11) is Some,
        PacketKind::GameEvent => blob_len(s, 11, 11) is Some,
        PacketKind::Entities => entities_len(s) is Some,
        PacketKind::TempEntities => temp_entities_len(s, version) is Some,
        PacketKind::Prefetch => s.len() >= prefetch_len(version),
        PacketKind::PluginMenu => plugin_menu_len(s) is Some,
        PacketKind::GameEventList => s.len() >= 29 && 29 + field(s, 9, 29) <= s.len()
            && crate::game_events::infos_decode(
            crate::bits::pad_to_byte(s.subrange(29, 29 + field(s, 9, 29) as int)),
            field(s, 0, 9) as int,
        ) is Some,
        PacketKind::GetCvar => false,
    }
}

/// Consumed bits of a message body of this kind, when it decodes.
pub open spec fn packet_len(kind: PacketKind, s: Seq<bool>, version: ProtocolVersion) -> int
    recommends
        packet_ok(kind, s, version),
{
    match kind {
        PacketKind::Nop => 0,
        PacketKind::Disconnect => 0,
        PacketKind::TransferFile => transfer_file_len(s)->Some_0,
        PacketKind::Tick => 64,
        PacketKind::StringCommand => 8 * (cstr_len(s)->Some_0 + 1),
        PacketKind::SetCvars => 8 + cvars_len(s.skip(8), field(s, 0, 8) as int)->Some_0,
        PacketKind::SignonState => 40,
        PacketKind::Print => 8 * (cstr_len(s)->Some_0 + 1),
        PacketKind::ServerInfo => server_info_len(s, version)->Some_0,
        PacketKind::DataTable => 0,
        PacketKind::ClassInfo => 17,
        PacketKind::Pause => 1,
        PacketKind::CreateStringTable => cst_len(s, version)->Some_0,
        PacketKind::UpdateStringTable => update_string_table_len(s)->Some_0,
        PacketKind::VoiceInit => voice_init_len(s)->Some_0,
        PacketKind::VoiceData => voice_data_len(s)->Some_0,
        PacketKind::HltvControl => 0,
        PacketKind::PlaySound => play_sound_len(s)->Some_0,
        PacketKind::SetEntityView => 11,
        PacketKind::FixAngle => 49,
        PacketKind::CrosshairAngle => 48,
        PacketKind::Decal => decal_len(s, version)->Some_0,
        PacketKind::TerrainMod => 0,
        PacketKind::UserMessage => blob_len(s, 19, 11)->Some_0,
        PacketKind::EntityMessage => blob_len(s, 31, 11)->Some_0,
        PacketKind::GameEvent => blob_len(s, 11, 11)->Some_0,
        PacketKind::Entities => entities_len(s)->Some_0,
        PacketKind::TempEntities => temp_entities_len(s, version)->Some_0,
        PacketKind::Prefetch => prefetch_len(version),
        PacketKind::PluginMenu => plugin_menu_len(s)->Some_0,
        PacketKind::GameEventList => 29 + field(s, 9, 29) as int,
        PacketKind::GetCvar => 0,
    }
}

/// Field-by-field correspondence of a message of this kind with the stream.
pub open spec fn packet_decodes(
    p: Packet,
    kind: PacketKind,
    s: Seq<bool>,
    version: ProtocolVersion,
) -> bool {
    match kind {
        PacketKind::Nop => p is Nop,
        PacketKind::Disconnect => false,
        PacketKind::TransferFile => p matches Packet::TransferFile(m) && transfer_file_decodes(
            m,
            s,
        ),
        PacketKind::Tick => p matches Packet::Tick(m) && tick_decodes(m, s),
        PacketKind::StringCommand => p matches Packet::StringCommand(c) && c@
            == vstd::utf8::decode_utf8(cstr_bytes(s)),
        PacketKind::SetCvars => p matches Packet::SetCvars(m) && cvars_decodes(
            m.0@,
            s.skip(8),
            field(s, 0, 8) as int,
        ),
        PacketKind::SignonState => p matches Packet::SignonState(m) && m.state
            == SignonStateKind::spec_from_id(field(s, 0, 8) as u8) && m.server_count as nat
            == field(s, 8, 40),
        PacketKind::Print => p matches Packet::Print(c) && c@ == vstd::utf8::decode_utf8(
            cstr_bytes(s),
        ),
        PacketKind::ServerInfo => p matches Packet::ServerInfo(m) && server_info_decodes(
            m,
            s,
            version,
        ),
        PacketKind::DataTable => false,
        PacketKind::ClassInfo => p matches Packet::ClassInfo(m) && m.classes as nat == field(
            s,
            0,
            16,
        ) && m.info is None,
        PacketKind::Pause => p matches Packet::Pause(b) && b == s[0],
        PacketKind::CreateStringTable => p matches Packet::CreateStringTable(m) && cst_decodes(
            m,
            s,
            version,
        ),
        PacketKind::UpdateStringTable => p matches Packet::UpdateStringTable(m)
            && update_string_table_decodes(m, s),
        PacketKind::VoiceInit => p matches Packet::VoiceInit(m) && voice_init_decodes(m, s),
        PacketKind::VoiceData => p matches Packet::VoiceData(m) && voice_data_decodes(m, s),
        PacketKind::HltvControl => false,
        PacketKind::PlaySound => p matches Packet::PlaySound(m) && play_sound_decodes(m, s),
        PacketKind::SetEntityView => p matches Packet::SetEntityView(id) && id as nat == field(
            s,
            0,
            11,
        ),
        PacketKind::FixAngle => p matches Packet::FixAngle(m) && m.relative == s[0] && m.angles.0
            as nat == field(s, 1, 17) && m.angles.1 as nat == field(s, 17, 33) && m.angles.2 as nat
            == field(s, 33, 49),
        PacketKind::CrosshairAngle => p matches Packet::CrosshairAngle(m) && m.angles.0 as nat
            == field(s, 0, 16) && m.angles.1 as nat == field(s, 16, 32) && m.angles.2 as nat
            == field(s, 32, 48),
        PacketKind::Decal => p matches Packet::Decal(m) && decal_decodes(m, s, version),
        PacketKind::TerrainMod => false,
        PacketKind::UserMessage => p matches Packet::UserMessage(m) && user_message_decodes(m, s),
        PacketKind::EntityMessage => p matches Packet::EntityMessage(m) && entity_message_decodes(
            m,
            s,
        ),
        PacketKind::GameEvent => p matches Packet::GameEvent(m) && game_event_decodes(m, s),
        PacketKind::Entities => p matches Packet::Entities(m) && entities_decodes(m, s),
        PacketKind::TempEntities => p matches Packet::TempEntities(m) && temp_entities_decodes(
            m,
            s,
            version,
        ),
        PacketKind::Prefetch => p matches Packet::Prefetch(m) && prefetch_decodes(m, s, version),
        PacketKind::PluginMenu => p matches Packet::PluginMenu(m) && plugin_menu_decodes(m, s),
        PacketKind::GameEventList => p matches Packet::GameEventList(list) && list.spec_view()
            == crate::game_events::infos_decode(
            crate::bits::pad_to_byte(s.subrange(29, 29 + field(s, 9, 29) as int)),
            field(s, 0, 9) as int,
        )->Some_0.0,
        PacketKind::GetCvar => false,
    }
}

impl Packet {
    /// Decode the body of a message whose type tag was already read. The
    /// reserved kinds this decoder does not claim to support fail with a
    /// typed error.
    #[verifier::rlimit(100)]
    #[verifier::spinoff_prover]
    pub fn parse_with_kind(bits: &mut BitReader, kind: PacketKind, version: ProtocolVersion) -> (r:
        Result<Self, ParseError>)
        requires
            old(bits).wf(),
        ensures
            final(bits).wf(),
            ({
                let s = old(bits).remaining();
                match r {
                    Ok(p) => {
                        &&& packet_ok(kind, s, version)
                        &&& packet_decodes(p, kind, s, version)
                        &&& p.spec_kind() == kind
                        &&& final(bits).remaining() == s.skip(packet_len(kind, s, version))
                        &&& 0 <= packet_len(kind, s, version) <= s.len()
                    },
                    Err(_) => !packet_ok(kind, s, version),
                }
            }),
    {
        let ghost s = old(bits).remaining();
        proof {
            assert(s.skip(0) =~= s);
        }
        let r = match kind {
            PacketKind::Nop => Packet::Nop,
            PacketKind::Disconnect => {
                return Err(ParseError::Unsupported { name: "Disconnect" });
            },
            PacketKind::TransferFile => Packet::TransferFile(TransferFile::parse(bits, version)?),
            PacketKind::Tick => Packet::Tick(Tick::parse(bits, version)?),
            PacketKind::StringCommand => Packet::StringCommand(read_string(bits)?),
            PacketKind::SetCvars => Packet::SetCvars(SetCvars::parse(bits, version)?),
            PacketKind::SignonState => Packet::SignonState(SignonState::parse(bits, version)?),
            PacketKind::Print => Packet::Print(read_string(bits)?),
            PacketKind::ServerInfo => Packet::ServerInfo(ServerInfo::parse(bits, version)?),
            PacketKind::DataTable => {
                return Err(ParseError::Unsupported { name: "DataTable" });
            },
            PacketKind::ClassInfo => Packet::ClassInfo(ClassInfo::parse(bits, version)?),
            PacketKind::Pause => Packet::Pause(read_bit(bits)?),
            PacketKind::CreateStringTable => Packet::CreateStringTable(
                CreateStringTable::parse(bits, version)?,
            ),
            PacketKind::UpdateStringTable => Packet::UpdateStringTable(
                UpdateStringTable::parse(bits, version)?,
            ),
            PacketKind::VoiceInit => Packet::VoiceInit(VoiceInit::parse(bits, version)?),
            PacketKind::VoiceData => Packet::VoiceData(VoiceData::parse(bits, version)?),
            PacketKind::HltvControl => {
                return Err(ParseError::Unsupported { name: "HltvControl" });
            },
            PacketKind::PlaySound => Packet::PlaySound(PlaySound::parse(bits, version)?),
            PacketKind::SetEntityView => {
                let id = read_bits(bits, 11)?;
                proof {
                    crate::bitseq::lemma_bits_val_bound(s.subrange(0, 11));
                    vstd::arithmetic::power2::lemma2_to64();
                }
                Packet::SetEntityView(id as u16)
            },
            PacketKind::FixAngle => Packet::FixAngle(FixAngle::parse(bits, version)?),
            PacketKind::CrosshairAngle => Packet::CrosshairAngle(
                CrosshairAngle::parse(bits, version)?,
            ),
            PacketKind::Decal => Packet::Decal(Decal::parse(bits, version)?),
            PacketKind::TerrainMod => {
                return Err(ParseError::Unsupported { name: "TerrainMod" });
            },
            PacketKind::UserMessage => Packet::UserMessage(UserMessage::parse(bits, version)?),
            PacketKind::EntityMessage => Packet::EntityMessage(
                EntityMessage::parse(bits, version)?,
            ),
            PacketKind::GameEvent => Packet::GameEvent(GameEvent::parse(bits, version)?),
            PacketKind::Entities => Packet::Entities(Entities::parse(bits, version)?),
            PacketKind::TempEntities => Packet::TempEntities(TempEntities::parse(bits, version)?),
            PacketKind::Prefetch => Packet::Prefetch(Prefetch::parse(bits, version)?),
            PacketKind::PluginMenu => Packet::PluginMenu(PluginMenu::parse(bits, version)?),
            PacketKind::GameEventList => Packet::GameEventList(
                crate::game_events::GameEventList::parse(bits)?,
            ),
            PacketKind::GetCvar => {
                return Err(ParseError::Unsupported { name: "GetCvar" });
            },
        };
        proof {
            match kind {
                PacketKind::TransferFile => {
                    crate::bits::lemma_cstr_len_bound(s.skip(32));
                },
                PacketKind::StringCommand => {
                    crate::bits::lemma_cstr_len_bound(s);
                },
                PacketKind::Print => {
                    crate::bits::lemma_cstr_len_bound(s);
                },
                PacketKind::SetCvars => {
                    lemma_cvars_len_bound(s.skip(8), field(s, 0, 8) as int);
                },
                PacketKind::VoiceInit => {
                    crate::bits::lemma_cstr_len_bound(s);
                },
                PacketKind::ServerInfo => {
                    let o = server_info_strings_at(version);
                    crate::bits::lemma_cstr_len_bound(s.skip(o));
                    let o1 = o + 8 * (cstr_len(s.skip(o))->Some_0 + 1);
                    crate::bits::lemma_cstr_len_bound(s.skip(o1));
                    let o2 = o1 + 8 * (cstr_len(s.skip(o1))->Some_0 + 1);
                    crate::bits::lemma_cstr_len_bound(s.skip(o2));
                    let o3 = o2 + 8 * (cstr_len(s.skip(o2))->Some_0 + 1);
                    crate::bits::lemma_cstr_len_bound(s.skip(o3));
                },
                PacketKind::CreateStringTable => {
                    crate::bits::lemma_cstr_len_bound(s);
                    let o = 8 * (cstr_len(s)->Some_0 + 1);
                    let max_entries = field(s, o, o + 16);
                    let w = crate::bitseq::ceil_log2(max_entries) as int + 1;
                    if version.0 >= 24 {
                        crate::bits::lemma_var_u32_len_bound(s.skip(o + 16).skip(w), 0);
                    }
                },
                PacketKind::TempEntities => {
                    if version.0 >= 24 {
                        crate::bits::lemma_var_u32_len_bound(s.skip(8), 0);
                    }
                },
                PacketKind::Decal => {
                    crate::bits::lemma_vec3_len_bound(s);
                },
                _ => {},
            }
        }
        Ok(r)
    }
}

/// Whether a whole update blob (a message sequence up to where no full tag
/// remains) decodes without error.
pub open spec fn packets_ok(s: Seq<bool>, version: ProtocolVersion) -> bool
    decreases s.len(),
{
    let tagw = version.spec_packet_kind_bits() as int;
    if s.len() < tagw {
        true
    } else {
        match PacketKind::spec_from_id(field(s, 0, tagw) as u8) {
            None => false,
            Some(kind) => {
                let body = s.skip(tagw);
                &&& packet_ok(kind, body, version)
                &&& {
                    let n = packet_len(kind, body, version);
                    &&& 0 <= n <= body.len()
                    &&& packets_ok(body.skip(n), version)
                }
            },
        }
    }
}

/// Field-by-field correspondence of a message list with an update blob.
pub open spec fn packets_decodes(list: Seq<Packet>, s: Seq<bool>, version: ProtocolVersion) -> bool
    decreases list.len(),
{
    let tagw = version.spec_packet_kind_bits() as int;
    if list.len() == 0 {
        s.len() < tagw
    } else {
        &&& s.len() >= tagw
        &&& PacketKind::spec_from_id(field(s, 0, tagw) as u8) matches Some(kind) && {
            let body = s.skip(tagw);
            &&& list[0].spec_kind() == kind
            &&& packet_decodes(list[0], kind, body, version)
            &&& packets_decodes(list.skip(1), body.skip(packet_len(kind, body, version)), version)
        }
    }
}

/// Decode a whole update blob into its message sequence, in tag order.
/// Protocols before ten are refused; an out-of-range tag fails with
/// `BadEnumIndex`.
#[verifier::rlimit(100)]
#[verifier::spinoff_prover]
pub fn parse_update(data: Vec<u8>, version: ProtocolVersion) -> (r: Result<
    Vec<Packet>,
    ParseError,
>)
    requires
        8 * data@.len() + 8 <= usize::MAX,
        version.0 >= 10,
    ensures
        ({
            let s = crate::bitseq::stream_bits(data@);
            match r {
                Ok(v) => packets_ok(s, version) && packets_decodes(v@, s, version),
                Err(_) => !packets_ok(s, version),
            }
        }),
{
    let ghost dview = data@;
    let blob = Bits::from_bytes(data);
    let mut bits = blob.reader();
    let ghost s0 = bits.remaining();
    proof {
        assert(bits.remaining().take(blob.spec_payload_len()) =~= bits.remaining());
        assert(s0 == crate::bitseq::stream_bits(dview));
    }
    let tag_bits = version.packet_kind_bits();
    let mut packets: Vec<Packet> = Vec::new();
    proof {
        assert(s0.skip(0) =~= s0);
        assert(packets@.skip(0) =~= packets@);
    }
    loop
        invariant_except_break
            bits.wf(),
            s0 == crate::bitseq::stream_bits(dview),
            dview == data@,
            tag_bits == version.spec_packet_kind_bits(),
            bits.remaining() == s0.skip(s0.len() - bits.remaining().len()),
            bits.remaining().len() <= s0.len(),
            packets_ok(s0, version) <==> packets_ok(bits.remaining(), version),
            forall|tail: Seq<Packet>|
                packets_decodes(tail, bits.remaining(), version) ==> #[trigger] packets_decodes(
                    packets@ + tail,
                    s0,
                    version,
                ),
        ensures
            packets_ok(s0, version),
            packets_decodes(packets@, s0, version),
        decreases bits.remaining().len(),
    {
        let ghost cur = bits.remaining();
        if !bits.has_remaining(tag_bits as usize) {
            proof {
                assert(packets_decodes(Seq::<Packet>::empty(), cur, version));
                assert(packets@ + Seq::<Packet>::empty() =~= packets@);
            }
            break ;
        }
        let id = match bits.read_bits(tag_bits) {
            Ok(v) => v,
            Err(_) => {
                proof {
                    assert(false);
                }
                return Err(ParseError::Utf8);
            },
        };
        proof {
            crate::bitseq::lemma_bits_val_bound(cur.take(tag_bits as int));
            vstd::arithmetic::power2::lemma2_to64();
            assert(cur.take(tag_bits as int) =~= cur.subrange(0, tag_bits as int));
        }
        let kind = match PacketKind::from_id(id as u8) {
            Some(kind) => kind,
            None => {
                proof {
                    assert(!packets_ok(cur, version));
                }
                return Err(ParseError::BadEnumIndex { name: "PacketKind", value: id });
            },
        };
        let ghost body = cur.skip(tag_bits as int);
        let packet = match Packet::parse_with_kind(&mut bits, kind, version) {
            Ok(p) => p,
            Err(e) => {
                proof {
                    assert(!packets_ok(cur, version));
                }
                return Err(e);
            },
        };
        let ghost n = packet_len(kind, body, version);
        proof {
            assert(bits.remaining() =~= s0.skip(s0.len() - bits.remaining().len()));
            assert(body.skip(n) == bits.remaining());
        }
        let ghost prev = packets@;
        packets.push(packet);
        proof {
            assert forall|tail: Seq<Packet>|
                packets_decodes(tail, bits.remaining(), version) implies #[trigger] packets_decodes(
                packets@ + tail,
                s0,
                version,
            ) by {
                let one_tail = Seq::<Packet>::empty().push(packet) + tail;
                assert(one_tail.skip(1) =~= tail);
                assert(one_tail[0] == packet);
                assert(packets_decodes(one_tail, cur, version));
                assert(prev + one_tail =~= packets@ + tail);
            }
        }
    }
    Ok(packets)
}

/// Read one bit, wrapping the underflow error.
fn read_bit(bits: &mut BitReader) -> (r: Result<bool, ParseError>)
    requires
        old(bits).wf(),
    ensures
        final(bits).wf(),
        match r {
            Ok(b) => {
                &&& old(bits).remaining().len() >= 1
                &&& b == old(bits).remaining()[0]
                &&& final(bits).remaining() == old(bits).remaining().skip(1)
            },
            Err(e) => {
                &&& *final(bits) == *old(bits)
                &&& old(bits).remaining().len() == 0
                &&& e matches ParseError::InsufficientBits(_)
            },
        },
{
    match bits.read_bit() {
        Ok(b) => Ok(b),
        Err(e) => Err(ParseError::InsufficientBits(e)),
    }
}

/// Read `count` bits, wrapping the underflow error.
fn read_bits(bits: &mut BitReader, count: u8) -> (r: Result<u32, ParseError>)
    requires
        old(bits).wf(),
        count <= 32,
    ensures
        final(bits).wf(),
        match r {
            Ok(v) => {
                &&& count as int <= old(bits).remaining().len()
                &&& v as nat == bits_val(old(bits).remaining().take(count as int))
                &&& v as nat == field(old(bits).remaining(), 0, count as int)
                &&& final(bits).remaining() == old(bits).remaining().skip(count as int)
            },
            Err(e) => {
                &&& *final(bits) == *old(bits)
                &&& count as int > old(bits).remaining().len()
                &&& e matches ParseError::InsufficientBits(_)
            },
        },
{
    proof {
        assert(old(bits).remaining().take(count as int) =~= old(bits).remaining().subrange(
            0,
            count as int,
        ));
    }
    match bits.read_bits(count) {
        Ok(v) => Ok(v),
        Err(e) => Err(ParseError::InsufficientBits(e)),
    }
}

/// Read a byte, wrapping the underflow error.
fn read_u8(bits: &mut BitReader) -> (r: Result<u8, ParseError>)
    requires
        old(bits).wf(),
    ensures
        final(bits).wf(),
        match r {
            Ok(v) => {
                &&& old(bits).remaining().len() >= 8
                &&& v as nat == field(old(bits).remaining(), 0, 8)
                &&& final(bits).remaining() == old(bits).remaining().skip(8)
            },
            Err(e) => {
                &&& *final(bits) == *old(bits)
                &&& old(bits).remaining().len() < 8
                &&& e matches ParseError::InsufficientBits(_)
            },
        },
{
    proof {
        assert(old(bits).remaining().take(8) =~= old(bits).remaining().subrange(0, 8));
    }
    match bits.read_u8() {
        Ok(v) => Ok(v),
        Err(e) => Err(ParseError::InsufficientBits(e)),
    }
}

/// Read sixteen bits, wrapping the underflow error.
fn read_u16(bits: &mut BitReader) -> (r: Result<u16, ParseError>)
    requires
        old(bits).wf(),
    ensures
        final(bits).wf(),
        match r {
            Ok(v) => {
                &&& old(bits).remaining().len() >= 16
                &&& v as nat == field(old(bits).remaining(), 0, 16)
                &&& final(bits).remaining() == old(bits).remaining().skip(16)
            },
            Err(e) => {
                &&& *final(bits) == *old(bits)
                &&& old(bits).remaining().len() < 16
                &&& e matches ParseError::InsufficientBits(_)
            },
        },
{
    proof {
        assert(old(bits).remaining().take(16) =~= old(bits).remaining().subrange(0, 16));
    }
    match bits.read_u16() {
        Ok(v) => Ok(v),
        Err(e) => Err(ParseError::InsufficientBits(e)),
    }
}

/// Read thirty-two bits, wrapping the underflow error.
fn read_u32(bits: &mut BitReader) -> (r: Result<u32, ParseError>)
    requires
        old(bits).wf(),
    ensures
        final(bits).wf(),
        match r {
            Ok(v) => {
                &&& old(bits).remaining().len() >= 32
                &&& v as nat == field(old(bits).remaining(), 0, 32)
                &&& final(bits).remaining() == old(bits).remaining().skip(32)
            },
            Err(e) => {
                &&& *final(bits) == *old(bits)
                &&& old(bits).remaining().len() < 32
                &&& e matches ParseError::InsufficientBits(_)
            },
        },
{
    proof {
        assert(old(bits).remaining().take(32) =~= old(bits).remaining().subrange(0, 32));
    }
    match bits.read_u32() {
        Ok(v) => Ok(v),
        Err(e) => Err(ParseError::InsufficientBits(e)),
    }
}

/// Read a null-terminated UTF-8 string, wrapping the errors.
fn read_string(bits: &mut BitReader) -> (r: Result<String, ParseError>)
    requires
        old(bits).wf(),
    ensures
        final(bits).wf(),
        ({
            let s = old(bits).remaining();
            match r {
                Ok(st) => match cstr_len(s) {
                    Some(k) => {
                        &&& vstd::utf8::valid_utf8(cstr_bytes(s))
                        &&& st@ == vstd::utf8::decode_utf8(cstr_bytes(s))
                        &&& final(bits).remaining() == s.skip(8 * (k + 1))
                    },
                    None => false,
                },
                Err(e) => {
                    &&& !(cstr_len(s) is Some && vstd::utf8::valid_utf8(cstr_bytes(s)))
                    &&& (e matches ParseError::InsufficientBits(_) || e is Utf8)
                    &&& (e is Utf8 ==> cstr_len(s) is Some && final(bits).remaining() == s.skip(
                        8 * (cstr_len(s)->Some_0 + 1),
                    ))
                },
            }
        }),
{
    match bits.read_string() {
        Ok(st) => Ok(st),
        Err(crate::bits::ReadStringError::Utf8) => Err(ParseError::Utf8),
        Err(crate::bits::ReadStringError::InsufficientBits(e)) => Err(
            ParseError::InsufficientBits(e),
        ),
    }
}

/// Copy `count` bits into an owned blob, wrapping the underflow error.
fn read_blob(bits: &mut BitReader, count: usize) -> (r: Result<Bits, ParseError>)
    requires
        old(bits).wf(),
    ensures
        final(bits).wf(),
        match r {
            Ok(b) => {
                &&& count <= old(bits).remaining().len()
                &&& b.wf()
                &&& b@ == old(bits).remaining().take(count as int)
                &&& b.spec_payload_len() == count
                &&& final(bits).remaining() == old(bits).remaining().skip(count as int)
            },
            Err(e) => {
                &&& *final(bits) == *old(bits)
                &&& count > old(bits).remaining().len()
                &&& e matches ParseError::InsufficientBits(_)
            },
        },
{
    match Bits::copy_into(bits, count) {
        Ok(b) => Ok(b),
        Err(e) => Err(ParseError::InsufficientBits(e)),
    }
}

} // verus!
