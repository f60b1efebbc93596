//! The byte-oriented frame layer: a one-byte kind tag, a tick, and a
//! per-kind body. Update-carrying frames expose a length-prefixed opaque
//! packet blob; other frames carry strings or opaque byte buffers.

use vstd::prelude::*;

verus! {

broadcast use {
    vstd::seq_lib::lemma_seq_skip_of_skip,
    vstd::std_specs::control_flow::group_control_flow_axioms,
};

use crate::bytes::{Reader, le_bytes_val};
use crate::header::first_zero;
use crate::parse::ParseError;
use crate::usercmd::{PositionUpdate, UserCmdDelta, usercmd_decode};
use crate::bits::BitReader;

/// The closed set of frame kinds, tagged one through eight on the wire.
#[derive(Debug, Eq, PartialEq, Copy, Clone, Structural)]
pub enum FrameKind {
    SignonUpdate,
    Update,
    TickSync,
    ConsoleCommand,
    UserCmdDelta,
    DataTables,
    Stop,
    StringTables,
}

impl FrameKind {
    /// The kind a wire tag denotes, when any.
    pub open spec fn spec_from_id(id: u8) -> Option<FrameKind> {
        if id == 1 {
            Some(FrameKind::SignonUpdate)
        } else if id == 2 {
            Some(FrameKind::Update)
        } else if id == 3 {
            Some(FrameKind::TickSync)
        } else if id == 4 {
            Some(FrameKind::ConsoleCommand)
        } else if id == 5 {
            Some(FrameKind::UserCmdDelta)
        } else if id == 6 {
            Some(FrameKind::DataTables)
        } else if id == 7 {
            Some(FrameKind::Stop)
        } else if id == 8 {
            Some(FrameKind::StringTables)
        } else {
            None
        }
    }

    fn from_id(id: u8) -> (r: Option<Self>)
        ensures
            r == Self::spec_from_id(id),
    {
        match id {
            1 => Some(FrameKind::SignonUpdate),
            2 => Some(FrameKind::Update),
            3 => Some(FrameKind::TickSync),
            4 => Some(FrameKind::ConsoleCommand),
            5 => Some(FrameKind::UserCmdDelta),
            6 => Some(FrameKind::DataTables),
            7 => Some(FrameKind::Stop),
            8 => Some(FrameKind::StringTables),
            _ => None,
        }
    }

    /// Bytes of the tick field: three for the terminal frame, four otherwise.
    pub open spec fn spec_tick_len(self) -> int {
        if self is Stop {
            3
        } else {
            4
        }
    }
}

/// A tick-stamped frame.
#[derive(Debug, Clone)]
pub struct Frame {
    pub tick: u32,
    pub payload: FramePayload,
}

/// The per-kind frame body.
#[derive(Debug, Clone)]
pub enum FramePayload {
    SignonUpdate(Update),
    Update(Update),
    TickSync,
    ConsoleCommand(String),
    UserCmdDelta { sequence: u32, frame: UserCmdFrame },
    DataTables(DataTablesFrame),
    Stop,
    StringTables(StringTablesFrame),
}

impl FramePayload {
    /// The kind this payload belongs to.
    pub open spec fn spec_kind(self) -> FrameKind {
        match self {
            FramePayload::SignonUpdate(_) => FrameKind::SignonUpdate,
            FramePayload::Update(_) => FrameKind::Update,
            FramePayload::TickSync => FrameKind::TickSync,
            FramePayload::ConsoleCommand(_) => FrameKind::ConsoleCommand,
            FramePayload::UserCmdDelta { .. } => FrameKind::UserCmdDelta,
            FramePayload::DataTables(_) => FrameKind::DataTables,
            FramePayload::Stop => FrameKind::Stop,
            FramePayload::StringTables(_) => FrameKind::StringTables,
        }
    }

    pub fn kind(&self) -> (r: FrameKind)
        ensures
            r == self.spec_kind(),
    {
        match self {
            FramePayload::SignonUpdate(_) => FrameKind::SignonUpdate,
            FramePayload::Update(_) => FrameKind::Update,
            FramePayload::TickSync => FrameKind::TickSync,
            FramePayload::ConsoleCommand(_) => FrameKind::ConsoleCommand,
            FramePayload::UserCmdDelta { .. } => FrameKind::UserCmdDelta,
            FramePayload::DataTables(_) => FrameKind::DataTables,
            FramePayload::Stop => FrameKind::Stop,
            FramePayload::StringTables(_) => FrameKind::StringTables,
        }
    }
}

/// An update frame's body: a 76-byte position record, two sequence numbers,
/// and a length-prefixed opaque packet blob.
#[derive(Debug, Clone)]
pub struct Update {
    pub position: PositionUpdate,
    pub sequence_in: u32,
    pub sequence_out: u32,
    pub packets: Vec<u8>,
}

/// Length of an update body at the front of `s`, when it fits.
pub open spec fn update_len(s: Seq<u8>) -> Option<int> {
    if s.len() < 88 {
        None
    } else {
        let n = 88 + le_bytes_val(s.subrange(84, 88));
        if s.len() < n {
            None
        } else {
            Some(n as int)
        }
    }
}

/// Field-by-field correspondence of an update body with the bytes at the
/// front of `s`.
pub open spec fn update_decodes(u: Update, s: Seq<u8>) -> bool {
    &&& u.position.decodes(s.subrange(0, 76))
    &&& u.sequence_in as nat == le_bytes_val(s.subrange(76, 80))
    &&& u.sequence_out as nat == le_bytes_val(s.subrange(80, 84))
    &&& u.packets@ == s.subrange(88, 88 + le_bytes_val(s.subrange(84, 88)) as int)
}

impl Update {
    /// Decode an update body.
    pub fn parse(input: &mut Reader) -> (r: Result<Update, ParseError>)
        requires
            old(input).wf(),
        ensures
            final(input).wf(),
            final(input).spec_data() == old(input).spec_data(),
            old(input).spec_pos() <= final(input).spec_pos(),
            match r {
                Ok(u) => {
                    &&& update_len(old(input).remaining()) matches Some(n)
                    &&& update_decodes(u, old(input).remaining())
                    &&& final(input).spec_pos() == old(input).spec_pos() + update_len(
                        old(input).remaining(),
                    )->Some_0
                },
                Err(e) => update_len(old(input).remaining()) is None && e matches
                    ParseError::Needed(_),
            },
    {
        let ghost s = old(input).remaining();
        let position = PositionUpdate::read(input)?;
        proof {
            assert(input.remaining() =~= s.skip(76));
        }
        let sequence_in = read_u32(input)?;
        proof {
            assert(input.remaining() =~= s.skip(80));
            assert(s.skip(76).take(4) =~= s.subrange(76, 80));
        }
        let sequence_out = read_u32(input)?;
        proof {
            assert(input.remaining() =~= s.skip(84));
            assert(s.skip(80).take(4) =~= s.subrange(80, 84));
            if s.len() >= 88 {
                assert(s.skip(84).subrange(0, 4) =~= s.subrange(84, 88));
            }
        }
        let packets = read_u8_array(input)?;
        proof {
            assert(s.skip(84).subrange(4, 4 + packets@.len() as int) =~= s.subrange(
                88,
                88 + packets@.len() as int,
            ));
            assert(s.take(76) =~= s.subrange(0, 76));
        }
        Ok(Update { position, sequence_in, sequence_out, packets })
    }
}

/// Read a little-endian 32-bit word.
fn read_u32(input: &mut Reader) -> (r: Result<u32, ParseError>)
    requires
        old(input).wf(),
    ensures
        final(input).wf(),
        final(input).spec_data() == old(input).spec_data(),
        match r {
            Ok(v) => {
                &&& old(input).remaining().len() >= 4
                &&& v as nat == le_bytes_val(old(input).remaining().take(4))
                &&& final(input).spec_pos() == old(input).spec_pos() + 4
            },
            Err(e) => {
                &&& *final(input) == *old(input)
                &&& old(input).remaining().len() < 4
                &&& e matches ParseError::Needed(_)
            },
        },
{
    input.u32()
}

/// Read a length-prefixed byte buffer: a little-endian 32-bit count, then
/// that many bytes.
fn read_u8_array(input: &mut Reader) -> (r: Result<Vec<u8>, ParseError>)
    requires
        old(input).wf(),
    ensures
        final(input).wf(),
        final(input).spec_data() == old(input).spec_data(),
        old(input).spec_pos() <= final(input).spec_pos(),
        ({
            let s = old(input).remaining();
            match r {
                Ok(v) => {
                    &&& s.len() >= 4
                    &&& v@.len() == le_bytes_val(s.subrange(0, 4))
                    &&& s.len() >= 4 + v@.len()
                    &&& v@ == s.subrange(4, 4 + v@.len() as int)
                    &&& final(input).spec_pos() == old(input).spec_pos() + 4 + v@.len()
                },
                Err(e) => (s.len() < 4 || s.len() < 4 + le_bytes_val(s.subrange(0, 4))) && e
                    matches ParseError::Needed(_),
            }
        }),
{
    let ghost s = old(input).remaining();
    let len = input.u32()?;
    proof {
        assert(s.take(4) =~= s.subrange(0, 4));
    }
    let bytes = input.bytes(len as usize)?;
    proof {
        assert(s.skip(4).take(len as int) =~= s.subrange(4, 4 + len as int));
    }
    Ok(vstd::slice::slice_to_vec(bytes))
}

/// An opaque data-tables frame body, parsed on demand.
#[derive(Debug, Clone)]
pub struct DataTablesFrame(Vec<u8>);

/// An opaque string-tables frame body, parsed on demand.
#[derive(Debug, Clone)]
pub struct StringTablesFrame(Vec<u8>);

/// An opaque player-command frame body, parsed on demand.
#[derive(Debug, Clone)]
pub struct UserCmdFrame(Vec<u8>);

impl View for DataTablesFrame {
    type V = Seq<u8>;

    closed spec fn view(&self) -> Seq<u8> {
        self.0@
    }
}

impl View for StringTablesFrame {
    type V = Seq<u8>;

    closed spec fn view(&self) -> Seq<u8> {
        self.0@
    }
}

impl View for UserCmdFrame {
    type V = Seq<u8>;

    closed spec fn view(&self) -> Seq<u8> {
        self.0@
    }
}

impl DataTablesFrame {
    pub fn from_raw(data: Vec<u8>) -> (r: Self)
        ensures
            r@ == data@,
    {
        DataTablesFrame(data)
    }

    pub fn raw(&self) -> (r: &[u8])
        ensures
            r@ == self@,
    {
        self.0.as_slice()
    }

    pub fn into_raw(self) -> (r: Vec<u8>)
        ensures
            r@ == self@,
    {
        self.0
    }
}

impl StringTablesFrame {
    pub fn from_raw(data: Vec<u8>) -> (r: Self)
        ensures
            r@ == data@,
    {
        StringTablesFrame(data)
    }

    /// Decode the stored bytes as a full string-table dump. A whole unread
    /// byte left after the dump is an inconsistency the original treats as
    /// fatal; this decoder reports it as an unsupported frame.
    pub fn parse(&self) -> (r: Result<crate::string_table::StringTables, ParseError>)
        requires
            8 * self@.len() + 8 <= usize::MAX,
        ensures
            ({
                let s = crate::bitseq::stream_bits(self@);
                let n = crate::packets::field(s, 0, 8) as int;
                match r {
                    Ok(tables) => {
                        &&& s.len() >= 8
                        &&& crate::string_table::tables_decode(s.skip(8), n) matches Some(d)
                        &&& tables.0@.len() == crate::packets::field(s, 0, 8)
                        &&& tables.spec_view() == crate::string_table::tables_decode(
                            s.skip(8),
                            n,
                        )->Some_0.0
                        &&& s.len() - (8 + crate::string_table::tables_decode(
                            s.skip(8),
                            n,
                        )->Some_0.1) < 8
                    },
                    Err(e) => {
                        &&& ((e matches ParseError::Unsupported { .. }) <==> (s.len() >= 8
                            && crate::string_table::tables_decode(s.skip(8), n) is Some && s.len()
                            - (8 + crate::string_table::tables_decode(s.skip(8), n)->Some_0.1)
                            >= 8))
                        &&& (!(e matches ParseError::Unsupported { .. }) ==> !(s.len() >= 8
                            && crate::string_table::tables_decode(s.skip(8), n) is Some))
                    },
                }
            }),
    {
        let mut bits = BitReader::new(self.0.as_slice());
        let tables = crate::string_table::StringTables::parse(&mut bits)?;
        if bits.remaining_bits() >= 8 {
            return Err(ParseError::Unsupported { name: "StringTablesFrame" });
        }
        Ok(tables)
    }

    pub fn raw(&self) -> (r: &[u8])
        ensures
            r@ == self@,
    {
        self.0.as_slice()
    }

    pub fn into_raw(self) -> (r: Vec<u8>)
        ensures
            r@ == self@,
    {
        self.0
    }
}

impl UserCmdFrame {
    pub fn from_raw(data: Vec<u8>) -> (r: Self)
        ensures
            r@ == data@,
    {
        UserCmdFrame(data)
    }

    pub fn raw(&self) -> (r: &[u8])
        ensures
            r@ == self@,
    {
        self.0.as_slice()
    }

    pub fn into_raw(self) -> (r: Vec<u8>)
        ensures
            r@ == self@,
    {
        self.0
    }

    /// Decode the stored bytes as a player-command delta.
    pub fn parse(&self) -> (r: Result<UserCmdDelta, ParseError>)
        requires
            8 * self@.len() + 8 <= usize::MAX,
        ensures
            match r {
                Ok(cmd) => {
                    &&& usercmd_decode(crate::bitseq::stream_bits(self@)) matches Some(d)
                    &&& cmd == usercmd_decode(crate::bitseq::stream_bits(self@))->Some_0.0
                },
                Err(_) => usercmd_decode(crate::bitseq::stream_bits(self@)) is None,
            },
    {
        let mut bits = BitReader::new(self.0.as_slice());
        UserCmdDelta::parse(&mut bits)
    }
}

/// Length of the body of a `kind` frame at the front of `s`, when it fits.
pub open spec fn payload_len(kind: FrameKind, s: Seq<u8>) -> Option<int> {
    match kind {
        FrameKind::SignonUpdate => update_len(s),
        FrameKind::Update => update_len(s),
        FrameKind::TickSync => Some(0int),
        FrameKind::Stop => Some(0int),
        FrameKind::ConsoleCommand => prefixed_len(s, 4),
        FrameKind::UserCmdDelta => prefixed_len(s, 8),
        FrameKind::DataTables => prefixed_len(s, 4),
        FrameKind::StringTables => prefixed_len(s, 4),
    }
}

/// Length of a body made of `h` header bytes whose last four are a byte
/// count, then that many bytes.
pub open spec fn prefixed_len(s: Seq<u8>, h: int) -> Option<int> {
    if s.len() < h {
        None
    } else {
        let n = h + le_bytes_val(s.subrange(h - 4, h));
        if s.len() < n {
            None
        } else {
            Some(n as int)
        }
    }
}

/// Whether a `kind` frame body at the front of `s` decodes without error.
pub open spec fn payload_ok(kind: FrameKind, s: Seq<u8>) -> bool {
    &&& payload_len(kind, s) is Some
    &&& (kind is ConsoleCommand ==> vstd::utf8::valid_utf8(console_text(s)))
}

/// The text of a console-command body: its bytes cut at the first zero.
pub open spec fn console_text(s: Seq<u8>) -> Seq<u8> {
    let raw = s.subrange(4, 4 + le_bytes_val(s.subrange(0, 4)) as int);
    raw.take(first_zero(raw))
}

/// Field-by-field correspondence of a frame body with the bytes at the front
/// of `s`.
pub open spec fn payload_decodes(p: FramePayload, kind: FrameKind, s: Seq<u8>) -> bool {
    match kind {
        FrameKind::SignonUpdate => p matches FramePayload::SignonUpdate(u) && update_decodes(u, s),
        FrameKind::Update => p matches FramePayload::Update(u) && update_decodes(u, s),
        FrameKind::TickSync => p is TickSync,
        FrameKind::Stop => p is Stop,
        FrameKind::ConsoleCommand => p matches FramePayload::ConsoleCommand(c) && c@
            == vstd::utf8::decode_utf8(console_text(s)),
        FrameKind::UserCmdDelta => p matches FramePayload::UserCmdDelta { sequence, frame } && {
            &&& sequence as nat == le_bytes_val(s.subrange(0, 4))
            &&& frame@ == s.subrange(8, 8 + le_bytes_val(s.subrange(4, 8)) as int)
        },
        FrameKind::DataTables => p matches FramePayload::DataTables(d) && d@ == s.subrange(
            4,
            4 + le_bytes_val(s.subrange(0, 4)) as int,
        ),
        FrameKind::StringTables => p matches FramePayload::StringTables(d) && d@ == s.subrange(
            4,
            4 + le_bytes_val(s.subrange(0, 4)) as int,
        ),
    }
}

/// Whether a whole frame at the front of `s` decodes without error.
pub open spec fn frame_ok(s: Seq<u8>) -> bool {
    &&& s.len() >= 1
    &&& FrameKind::spec_from_id(s[0]) matches Some(kind) && {
        &&& s.len() >= 1 + kind.spec_tick_len()
        &&& payload_ok(kind, s.skip(1 + kind.spec_tick_len()))
    }
}

/// Total length of the frame at the front of `s`: tag, tick, and body.
pub open spec fn frame_len(s: Seq<u8>) -> int
    recommends
        frame_ok(s),
{
    let kind = FrameKind::spec_from_id(s[0])->Some_0;
    1 + kind.spec_tick_len() + payload_len(kind, s.skip(1 + kind.spec_tick_len()))->Some_0
}

/// Field-by-field correspondence of a frame with the bytes at the front of
/// `s`.
pub open spec fn frame_decodes(f: Frame, s: Seq<u8>) -> bool {
    let kind = FrameKind::spec_from_id(s[0])->Some_0;
    &&& f.tick as nat == le_bytes_val(s.subrange(1, 1 + kind.spec_tick_len()))
    &&& payload_decodes(f.payload, kind, s.skip(1 + kind.spec_tick_len()))
}

impl Frame {
    /// Decode one frame: tag byte, tick, and kind-specific body. Fails with
    /// `BadEnumIndex` exactly when the tag byte is outside one through eight.
    pub fn parse(input: &mut Reader) -> (r: Result<Frame, ParseError>)
        requires
            old(input).wf(),
        ensures
            final(input).wf(),
            final(input).spec_data() == old(input).spec_data(),
            old(input).spec_pos() <= final(input).spec_pos(),
            ({
                let s = old(input).remaining();
                match r {
                    Ok(f) => {
                        &&& frame_ok(s)
                        &&& frame_decodes(f, s)
                        &&& final(input).spec_pos() == old(input).spec_pos() + frame_len(s)
                    },
                    Err(e) => {
                        &&& !frame_ok(s)
                        &&& ((e matches ParseError::BadEnumIndex { value, .. } && value == s[0])
                            <==> (s.len() >= 1 && FrameKind::spec_from_id(s[0]) is None))
                    },
                }
            }),
    {
        let kind_id = input.u8()?;
        let kind = match FrameKind::from_id(kind_id) {
            Some(kind) => kind,
            None => {
                return Err(
                    ParseError::BadEnumIndex { name: "FrameKind", value: kind_id as u32 },
                );
            },
        };
        let r = Self::parse_with_kind(input, kind);
        proof {
            let s = old(input).remaining();
            if r is Ok {
                assert(s.skip(1).subrange(0, kind.spec_tick_len()) =~= s.subrange(
                    1,
                    1 + kind.spec_tick_len(),
                ));
                assert(s.skip(1).skip(kind.spec_tick_len()) =~= s.skip(1 + kind.spec_tick_len()));
            }
        }
        r
    }

    /// Decode the tick and body of a frame whose kind byte was already read.
    pub fn parse_with_kind(input: &mut Reader, kind: FrameKind) -> (r: Result<Frame, ParseError>)
        requires
            old(input).wf(),
        ensures
            final(input).wf(),
            final(input).spec_data() == old(input).spec_data(),
            old(input).spec_pos() <= final(input).spec_pos(),
            ({
                let s = old(input).remaining();
                match r {
                    Ok(f) => {
                        &&& s.len() >= kind.spec_tick_len()
                        &&& payload_ok(kind, s.skip(kind.spec_tick_len()))
                        &&& f.tick as nat == le_bytes_val(s.subrange(0, kind.spec_tick_len()))
                        &&& payload_decodes(f.payload, kind, s.skip(kind.spec_tick_len()))
                        &&& f.payload.spec_kind() == kind
                        &&& final(input).spec_pos() == old(input).spec_pos()
                            + kind.spec_tick_len() + payload_len(
                            kind,
                            s.skip(kind.spec_tick_len()),
                        )->Some_0
                    },
                    Err(e) => {
                        &&& !(s.len() >= kind.spec_tick_len() && payload_ok(
                            kind,
                            s.skip(kind.spec_tick_len()),
                        ))
                        &&& !(e matches ParseError::BadEnumIndex { .. })
                    },
                }
            }),
    {
        let ghost s = old(input).remaining();
        let tick = if matches!(kind, FrameKind::Stop) {
            let t = input.u24()?;
            proof {
                assert(s.take(3) =~= s.subrange(0, 3));
            }
            t
        } else {
            let t = input.u32()?;
            proof {
                assert(s.take(4) =~= s.subrange(0, 4));
            }
            t
        };
        let ghost body = s.skip(kind.spec_tick_len());
        proof {
            assert(input.remaining() =~= body);
        }
        let payload = match kind {
            FrameKind::SignonUpdate => FramePayload::SignonUpdate(Update::parse(input)?),
            FrameKind::Update => FramePayload::Update(Update::parse(input)?),
            FrameKind::TickSync => FramePayload::TickSync,
            FrameKind::Stop => FramePayload::Stop,
            FrameKind::ConsoleCommand => {
                let buf = read_u8_array(input)?;
                let text = zero_prefix(buf.as_slice());
                proof {
                    assert(text@ == console_text(body));
                }
                let st = match crate::bits::string_from_utf8(vstd::slice::slice_to_vec(text)) {
                    Some(st) => st,
                    None => {
                        return Err(ParseError::Utf8);
                    },
                };
                FramePayload::ConsoleCommand(st)
            },
            FrameKind::UserCmdDelta => {
                let sequence = read_u32(input)?;
                proof {
                    assert(input.remaining() =~= body.skip(4));
                    assert(body.take(4) =~= body.subrange(0, 4));
                    if body.len() >= 8 {
                        assert(body.skip(4).subrange(0, 4) =~= body.subrange(4, 8));
                    }
                }
                let arr = read_u8_array(input)?;
                proof {
                    assert(body.skip(4).subrange(4, 4 + arr@.len() as int) =~= body.subrange(
                        8,
                        8 + arr@.len() as int,
                    ));
                }
                let frame = UserCmdFrame::from_raw(arr);
                FramePayload::UserCmdDelta { sequence, frame }
            },
            FrameKind::DataTables => FramePayload::DataTables(
                DataTablesFrame::from_raw(read_u8_array(input)?),
            ),
            FrameKind::StringTables => FramePayload::StringTables(
                StringTablesFrame::from_raw(read_u8_array(input)?),
            ),
        };
        Ok(Frame { tick, payload })
    }
}

/// Whether `k` frames decode one after another and exactly exhaust the
/// bytes.
pub open spec fn frames_fill(s: Seq<u8>, k: int) -> bool
    decreases k,
{
    if k <= 0 {
        s.len() == 0
    } else {
        &&& frame_ok(s)
        &&& 0 < frame_len(s) <= s.len()
        &&& frames_fill(s.skip(frame_len(s)), k - 1)
    }
}

/// The lengths of `k` frames laid end to end.
pub open spec fn frame_lens_sum(s: Seq<u8>, k: int) -> int
    decreases k,
{
    if k <= 0 {
        0
    } else if !(frame_ok(s) && 0 < frame_len(s) <= s.len()) {
        0
    } else {
        frame_len(s) + frame_lens_sum(s.skip(frame_len(s)), k - 1)
    }
}

/// For every demo whose frames exactly fill the bytes after the header, the
/// header's fixed size plus the sum of the frame lengths is the demo's
/// length.
pub proof fn lemma_demo_length(data: Seq<u8>, k: int)
    requires
        data.len() >= 1072,
        frames_fill(data.skip(1072), k),
    ensures
        1072 + frame_lens_sum(data.skip(1072), k) == data.len(),
{
    lemma_frames_fill_sum(data.skip(1072), k);
}

/// Frames that exactly fill a byte buffer have lengths summing to its size.
proof fn lemma_frames_fill_sum(s: Seq<u8>, k: int)
    requires
        frames_fill(s, k),
    ensures
        frame_lens_sum(s, k) == s.len(),
    decreases k,
{
    if k > 0 {
        lemma_frames_fill_sum(s.skip(frame_len(s)), k - 1);
    }
}

/// The prefix of a slice before its first zero byte.
fn zero_prefix(slice: &[u8]) -> (r: &[u8])
    ensures
        r@ == slice@.take(first_zero(slice@)),
        first_zero(slice@) <= slice@.len(),
{
    let ghost s = slice@;
    let mut index: usize = 0;
    proof {
        assert(s.skip(0) =~= s);
    }
    while index < slice.len()
        invariant
            s == slice@,
            index <= s.len(),
            forall|j: int| 0 <= j < index ==> s[j] != 0,
            first_zero(s.skip(index as int)) + index == first_zero(s),
        decreases s.len() - index,
    {
        proof {
            assert(s.skip(index as int)[0] == s[index as int]);
        }
        if slice[index] == 0 {
            proof {
                assert(first_zero(s) == index);
            }
            let r = vstd::slice::slice_subrange(slice, 0, index);
            proof {
                assert(r@ =~= s.take(first_zero(s)));
            }
            return r;
        }
        proof {
            assert(s.skip(index as int).skip(1) =~= s.skip(index as int + 1));
        }
        index = index + 1;
    }
    proof {
        assert(s.skip(s.len() as int) =~= Seq::<u8>::empty());
        assert(first_zero(s) == s.len());
    }
    let r = vstd::slice::slice_subrange(slice, 0, slice.len());
    proof {
        assert(r@ =~= s.take(first_zero(s)));
    }
    r
}

} // verus!
