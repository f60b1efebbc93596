//! The game-event schema: a one-shot list mapping event indices to typed
//! property lists, parsed from a nested bit blob.

use vstd::prelude::*;

verus! {

broadcast use {
    vstd::seq_lib::lemma_seq_skip_of_skip,
    vstd::std_specs::control_flow::group_control_flow_axioms,
};

use crate::bits::{BitReader, Bits, cstr_len, cstr_bytes, lemma_cstr_len_bound};
use crate::bitseq::bits_val;
use crate::packets::field;
use crate::parse::ParseError;

/// A game-event property's type. `End` terminates a schema record on the
/// wire; `Unused` never appears in a fully parsed schema.
#[derive(Debug, Eq, PartialEq, Copy, Clone, Structural)]
pub enum Kind {
    End,
    Str,
    F32,
    I32,
    I16,
    U8,
    Bool,
    Unused,
}

impl Kind {
    /// The kind a three-bit wire value denotes.
    pub open spec fn spec_from_id(id: u32) -> Option<Kind> {
        if id == 0 {
            Some(Kind::End)
        } else if id == 1 {
            Some(Kind::Str)
        } else if id == 2 {
            Some(Kind::F32)
        } else if id == 3 {
            Some(Kind::I32)
        } else if id == 4 {
            Some(Kind::I16)
        } else if id == 5 {
            Some(Kind::U8)
        } else if id == 6 {
            Some(Kind::Bool)
        } else if id == 7 {
            Some(Kind::Unused)
        } else {
            None
        }
    }

    fn from_id(id: u32) -> (r: Option<Self>)
        ensures
            r == Self::spec_from_id(id),
    {
        match id {
            0 => Some(Kind::End),
            1 => Some(Kind::Str),
            2 => Some(Kind::F32),
            3 => Some(Kind::I32),
            4 => Some(Kind::I16),
            5 => Some(Kind::U8),
            6 => Some(Kind::Bool),
            7 => Some(Kind::Unused),
            _ => None,
        }
    }
}

/// Decode of a record's property list: each property is three kind bits and
/// a name, and a zero kind terminates the list. Nothing when the stream runs
/// out or a name is not UTF-8.
pub open spec fn props_decode(s: Seq<bool>) -> Option<(Seq<(Kind, Seq<char>)>, int)>
    decreases s.len(),
{
    if s.len() < 3 {
        None
    } else {
        let kid = field(s, 0, 3);
        if kid == 0 {
            Some((Seq::empty(), 3int))
        } else {
            let kind = Kind::spec_from_id(kid as u32)->Some_0;
            match cstr_len(s.skip(3)) {
                None => None,
                Some(k) => {
                    if !vstd::utf8::valid_utf8(cstr_bytes(s.skip(3))) {
                        None
                    } else {
                        let c = 3 + 8 * (k + 1);
                        let name = vstd::utf8::decode_utf8(cstr_bytes(s.skip(3)));
                        if c <= 0 || c > s.len() {
                            None
                        } else {
                            match props_decode(s.skip(c)) {
                                None => None,
                                Some((rest, c2)) => Some(
                                    (Seq::empty().push((kind, name)) + rest, c + c2),
                                ),
                            }
                        }
                    }
                },
            }
        }
    }
}

/// Decode of one schema record: a nine-bit index, a name, and properties up
/// to the terminator.
pub open spec fn info_decode(s: Seq<bool>) -> Option<((u16, Seq<char>, Seq<(Kind, Seq<char>)>), int)> {
    if s.len() < 9 {
        None
    } else {
        match cstr_len(s.skip(9)) {
            None => None,
            Some(k) => {
                if !vstd::utf8::valid_utf8(cstr_bytes(s.skip(9))) {
                    None
                } else {
                    let c = 9 + 8 * (k + 1);
                    let name = vstd::utf8::decode_utf8(cstr_bytes(s.skip(9)));
                    match props_decode(s.skip(c)) {
                        None => None,
                        Some((props, c2)) => Some(
                            ((field(s, 0, 9) as u16, name, props), c + c2),
                        ),
                    }
                }
            },
        }
    }
}

/// Decode of `n` schema records laid end to end.
pub open spec fn infos_decode(s: Seq<bool>, n: int) -> Option<(
    Seq<(u16, Seq<char>, Seq<(Kind, Seq<char>)>)>,
    int,
)>
    decreases n,
{
    if n <= 0 {
        Some((Seq::empty(), 0int))
    } else {
        match info_decode(s) {
            None => None,
            Some((i, c)) => match infos_decode(s.skip(c), n - 1) {
                None => None,
                Some((rest, c2)) => Some((Seq::empty().push(i) + rest, c + c2)),
            },
        }
    }
}

/// One schema record: an event index, its name, and its typed properties.
#[derive(Debug, Eq, PartialEq, Clone)]
pub struct GameEventInfo {
    pub index: u16,
    pub name: String,
    pub properties: Vec<(Kind, String)>,
}

impl GameEventInfo {
    /// The record's fields as mathematical values.
    pub open spec fn spec_view(self) -> (u16, Seq<char>, Seq<(Kind, Seq<char>)>) {
        (self.index, self.name@, self.properties@.map_values(|p: (Kind, String)| (p.0, p.1@)))
    }

    /// Decode one schema record.
    #[verifier::rlimit(100)]
    #[verifier::spinoff_prover]
    pub fn parse(bits: &mut BitReader) -> (r: Result<GameEventInfo, ParseError>)
        requires
            old(bits).wf(),
        ensures
            final(bits).wf(),
            match r {
                Ok(info) => {
                    &&& info_decode(old(bits).remaining()) matches Some(d)
                    &&& info.spec_view() == info_decode(old(bits).remaining())->Some_0.0
                    &&& final(bits).remaining() == old(bits).remaining().skip(
                        info_decode(old(bits).remaining())->Some_0.1,
                    )
                },
                Err(_) => info_decode(old(bits).remaining()) is None,
            },
    {
        let ghost s = old(bits).remaining();
        let index = read_bits9(bits)?;
        let name = read_string_wrapped(bits)?;
        let ghost c = 9 + 8 * (cstr_len(s.skip(9))->Some_0 + 1);
        proof {
            lemma_cstr_len_bound(s.skip(9));
            assert(bits.remaining() =~= s.skip(c));
        }
        let ghost inner = s.skip(c);
        let mut properties: Vec<(Kind, String)> = Vec::new();
        loop
            invariant_except_break
                bits.wf(),
                0 <= c <= s.len(),
                s == old(bits).remaining(),
                s.len() >= 9,
                cstr_len(s.skip(9)) is Some,
                vstd::utf8::valid_utf8(cstr_bytes(s.skip(9))),
                c == 9 + 8 * (cstr_len(s.skip(9))->Some_0 + 1),
                inner == s.skip(c),
                bits.remaining() == inner.skip(inner.len() - bits.remaining().len()),
                bits.remaining().len() <= inner.len(),
                props_decode(inner) == match props_decode(
                    inner.skip(inner.len() - bits.remaining().len()),
                ) {
                    Some((v2, c2)) => Some(
                        (
                            properties@.map_values(|p: (Kind, String)| (p.0, p.1@)) + v2,
                            inner.len() - bits.remaining().len() + c2,
                        ),
                    ),
                    None => None::<(Seq<(Kind, Seq<char>)>, int)>,
                },
            ensures
                bits.wf(),
                props_decode(inner) matches Some(d),
                props_decode(inner)->Some_0.0 == properties@.map_values(
                    |p: (Kind, String)| (p.0, p.1@),
                ),
                bits.remaining() == inner.skip(props_decode(inner)->Some_0.1),
            decreases bits.remaining().len(),
        {
            let ghost cur = bits.remaining();
            let kid = match bits.read_bits(3) {
                Ok(v) => v,
                Err(e) => {
                    proof {
                        assert(props_decode(cur) is None);
                    }
                    return Err(ParseError::InsufficientBits(e));
                },
            };
            proof {
                crate::bitseq::lemma_bits_val_bound(cur.take(3));
                vstd::arithmetic::power2::lemma2_to64();
                assert(cur.take(3) =~= cur.subrange(0, 3));
            }
            let kind = match Kind::from_id(kid) {
                Some(kind) => kind,
                None => {
                    proof {
                        assert(false);
                    }
                    return Err(ParseError::Utf8);
                },
            };
            if matches!(kind, Kind::End) {
                proof {
                    assert(props_decode(cur)->Some_0.0 =~= Seq::<(Kind, Seq<char>)>::empty());
                    assert(bits.remaining() =~= inner.skip(
                        inner.len() - cur.len() + props_decode(cur)->Some_0.1,
                    ));
                }
                break ;
            }
            let pname = match read_string_wrapped(bits) {
                Ok(st) => st,
                Err(e) => {
                    proof {
                        assert(props_decode(cur) is None);
                    }
                    return Err(e);
                },
            };
            let ghost pc = 3 + 8 * (cstr_len(cur.skip(3))->Some_0 + 1);
            proof {
                lemma_cstr_len_bound(cur.skip(3));
                assert(bits.remaining() =~= cur.skip(pc));
                assert(cur.skip(pc) =~= inner.skip(inner.len() - cur.len() + pc));
            }
            let ghost prev = properties@;
            properties.push((kind, pname));
            proof {
                let m = |p: (Kind, String)| (p.0, p.1@);
                assert(properties@.map_values(m) =~= prev.map_values(m).push((kind, pname@)));
                if props_decode(bits.remaining()) is Some {
                    let v2 = props_decode(bits.remaining())->Some_0.0;
                    assert(prev.map_values(m) + (Seq::empty().push((kind, pname@)) + v2)
                        =~= properties@.map_values(m) + v2);
                }
            }
        }
        proof {
            GameEventList::lemma_props_len_bound(inner);
            let pc = props_decode(inner)->Some_0.1;
            assert(inner.skip(pc) =~= s.skip(c + pc));
        }
        Ok(GameEventInfo { index, name, properties })
    }
}

/// Read a nine-bit field as an event index.
fn read_bits9(bits: &mut BitReader) -> (r: Result<u16, ParseError>)
    requires
        old(bits).wf(),
    ensures
        final(bits).wf(),
        match r {
            Ok(v) => {
                &&& old(bits).remaining().len() >= 9
                &&& v as nat == field(old(bits).remaining(), 0, 9)
                &&& final(bits).remaining() == old(bits).remaining().skip(9)
            },
            Err(e) => {
                &&& *final(bits) == *old(bits)
                &&& old(bits).remaining().len() < 9
                &&& e matches ParseError::InsufficientBits(_)
            },
        },
{
    proof {
        assert(old(bits).remaining().take(9) =~= old(bits).remaining().subrange(0, 9));
        crate::bitseq::lemma_bits_val_bound(old(bits).remaining().take(9));
        vstd::arithmetic::power2::lemma2_to64();
    }
    match bits.read_bits(9) {
        Ok(v) => Ok(v as u16),
        Err(e) => Err(ParseError::InsufficientBits(e)),
    }
}

/// Read a null-terminated UTF-8 string, wrapping the errors.
fn read_string_wrapped(bits: &mut BitReader) -> (r: Result<String, ParseError>)
    requires
        old(bits).wf(),
    ensures
        final(bits).wf(),
        ({
            let s = old(bits).remaining();
            match r {
                Ok(st) => match cstr_len(s) {
                    Some(k) => {
                        &&& vstd::utf8::valid_utf8(cstr_bytes(s))
                        &&& st@ == vstd::utf8::decode_utf8(cstr_bytes(s))
                        &&& final(bits).remaining() == s.skip(8 * (k + 1))
                    },
                    None => false,
                },
                Err(e) => {
                    &&& !(cstr_len(s) is Some && vstd::utf8::valid_utf8(cstr_bytes(s)))
                    &&& (e matches ParseError::InsufficientBits(_) || e is Utf8)
                },
            }
        }),
{
    match bits.read_string() {
        Ok(st) => Ok(st),
        Err(crate::bits::ReadStringError::Utf8) => Err(ParseError::Utf8),
        Err(crate::bits::ReadStringError::InsufficientBits(e)) => Err(
            ParseError::InsufficientBits(e),
        ),
    }
}

/// The full event schema, one record per declared event.
#[derive(Debug, Eq, PartialEq, Clone)]
pub struct GameEventList(pub Vec<GameEventInfo>);

impl GameEventList {
    /// The schema's records as mathematical values.
    pub open spec fn spec_view(self) -> Seq<(u16, Seq<char>, Seq<(Kind, Seq<char>)>)> {
        self.0@.map_values(|i: GameEventInfo| i.spec_view())
    }

    /// Decode the schema list: a nine-bit record count, a twenty-bit blob
    /// length, and the records inside the blob (read with zero padding up to
    /// a whole byte).
    pub fn parse(bits: &mut BitReader) -> (r: Result<GameEventList, ParseError>)
        requires
            old(bits).wf(),
        ensures
            final(bits).wf(),
            ({
                let s = old(bits).remaining();
                match r {
                    Ok(list) => {
                        &&& s.len() >= 29
                        &&& 29 + field(s, 9, 29) <= s.len()
                        &&& infos_decode(
                            crate::bits::pad_to_byte(
                                s.subrange(29, 29 + field(s, 9, 29) as int),
                            ),
                            field(s, 0, 9) as int,
                        ) matches Some(d)
                        &&& list.spec_view() == infos_decode(
                            crate::bits::pad_to_byte(
                                s.subrange(29, 29 + field(s, 9, 29) as int),
                            ),
                            field(s, 0, 9) as int,
                        )->Some_0.0
                        &&& final(bits).remaining() == s.skip(29 + field(s, 9, 29) as int)
                    },
                    Err(_) => !(s.len() >= 29 && 29 + field(s, 9, 29) <= s.len()
                        && infos_decode(
                        crate::bits::pad_to_byte(s.subrange(29, 29 + field(s, 9, 29) as int)),
                        field(s, 0, 9) as int,
                    ) is Some),
                }
            }),
    {
        let ghost s = old(bits).remaining();
        let count = read_bits9(bits)?;
        let bits_len = match bits.read_bits(20) {
            Ok(v) => v,
            Err(e) => {
                return Err(ParseError::InsufficientBits(e));
            },
        };
        proof {
            assert(s.skip(9).take(20) =~= s.subrange(9, 29));
            assert(s.skip(9).skip(20) =~= s.skip(29));
        }
        let payload = match Bits::copy_into(bits, bits_len as usize) {
            Ok(b) => b,
            Err(e) => {
                return Err(ParseError::InsufficientBits(e));
            },
        };
        proof {
            assert(s.skip(29).take(bits_len as int) =~= s.subrange(29, 29 + bits_len as int));
            assert(s.skip(29).skip(bits_len as int) =~= s.skip(29 + bits_len as int));
        }
        let mut inner = payload.reader();
        proof {
            crate::bits::lemma_reader_of_blob(&payload, &inner);
        }
        let ghost istream = inner.remaining();
        let mut infos: Vec<GameEventInfo> = Vec::new();
        let mut i: u16 = 0;
        proof {
            assert(istream.skip(0) =~= istream);
            assert(infos@ =~= Seq::<GameEventInfo>::empty());
            if infos_decode(istream, count as int) is Some {
                let v2 = infos_decode(istream, count as int)->Some_0.0;
                assert(infos@.map_values(|x: GameEventInfo| x.spec_view()) + v2 =~= v2);
            }
        }
        while i < count
            invariant
                inner.wf(),
                bits.wf(),
                i <= count,
                s == old(bits).remaining(),
                s.len() >= 29,
                29 + field(s, 9, 29) <= s.len(),
                count as nat == field(s, 0, 9),
                bits.remaining() == s.skip(29 + field(s, 9, 29) as int),
                istream == crate::bits::pad_to_byte(s.subrange(29, 29 + field(s, 9, 29) as int)),
                inner.remaining() == istream.skip(istream.len() - inner.remaining().len()),
                inner.remaining().len() <= istream.len(),
                infos_decode(istream, count as int) == match infos_decode(
                    istream.skip(istream.len() - inner.remaining().len()),
                    count - i,
                ) {
                    Some((v2, c2)) => Some(
                        (
                            infos@.map_values(|x: GameEventInfo| x.spec_view()) + v2,
                            istream.len() - inner.remaining().len() + c2,
                        ),
                    ),
                    None => None::<(Seq<(u16, Seq<char>, Seq<(Kind, Seq<char>)>)>, int)>,
                },
            decreases count - i,
        {
            let ghost cur = inner.remaining();
            let info = match GameEventInfo::parse(&mut inner) {
                Ok(info) => info,
                Err(e) => {
                    proof {
                        assert(infos_decode(cur, count - i) is None);
                    }
                    return Err(e);
                },
            };
            let ghost c = info_decode(cur)->Some_0.1;
            proof {
                assert(0 <= c <= cur.len()) by {
                    Self::lemma_info_len_bound(cur);
                }
                assert(inner.remaining() =~= istream.skip(istream.len() - cur.len() + c));
            }
            let ghost prev = infos@;
            infos.push(info);
            i = i + 1;
            proof {
                let m = |x: GameEventInfo| x.spec_view();
                assert(infos@.map_values(m) =~= prev.map_values(m).push(info.spec_view()));
                if infos_decode(inner.remaining(), count - i) is Some {
                    let v2 = infos_decode(inner.remaining(), count - i)->Some_0.0;
                    assert(prev.map_values(m) + (Seq::empty().push(info.spec_view()) + v2)
                        =~= infos@.map_values(m) + v2);
                }
            }
        }
        proof {
            assert(inner.remaining().len() == 0 || true);
            assert(infos_decode(istream.skip(istream.len() - inner.remaining().len()), 0)
                == Some((Seq::<(u16, Seq<char>, Seq<(Kind, Seq<char>)>)>::empty(), 0int)));
            assert(infos@.map_values(|x: GameEventInfo| x.spec_view()) + Seq::<(
                u16,
                Seq<char>,
                Seq<(Kind, Seq<char>)>,
            )>::empty() =~= infos@.map_values(|x: GameEventInfo| x.spec_view()));
        }
        Ok(GameEventList(infos))
    }

    /// A decoded record occupies at most the whole stream.
    proof fn lemma_info_len_bound(s: Seq<bool>)
        ensures
            info_decode(s) matches Some(d) ==> 0 <= d.1 <= s.len(),
    {
        if info_decode(s) is Some {
            lemma_cstr_len_bound(s.skip(9));
            let c = 9 + 8 * (cstr_len(s.skip(9))->Some_0 + 1);
            Self::lemma_props_len_bound(s.skip(c));
        }
    }

    /// A decoded property list occupies at most the whole stream.
    proof fn lemma_props_len_bound(s: Seq<bool>)
        ensures
            props_decode(s) matches Some(d) ==> 0 <= d.1 <= s.len(),
        decreases s.len(),
    {
        if s.len() >= 3 && field(s, 0, 3) != 0 {
            if cstr_len(s.skip(3)) is Some {
                lemma_cstr_len_bound(s.skip(3));
                let c = 3 + 8 * (cstr_len(s.skip(3))->Some_0 + 1);
                Self::lemma_props_len_bound(s.skip(c));
            }
        }
    }
}

} // verus!
