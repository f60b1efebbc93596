//! Decoding of game-event instances against the live schema: the payload's
//! first nine bits name the event, and the schema's property list drives the
//! typed values that follow.

use vstd::prelude::*;

verus! {

broadcast use {
    vstd::seq_lib::lemma_seq_skip_of_skip,
    vstd::std_specs::control_flow::group_control_flow_axioms,
};

use crate::bits::{Bits, BitReader, cstr_len, cstr_bytes, lemma_cstr_len_bound};
use crate::game_events::{GameEventList, GameEventInfo, Kind};
use crate::packets::field;

/// A decoded property value. The floating-point variant carries the raw
/// IEEE-754 bit pattern.
#[derive(Debug, Clone, PartialEq, Eq)]
pub enum Value {
    Str(String),
    F32(u32),
    I32(i32),
    I16(i16),
    U8(u8),
    Bool(bool),
}

/// Ghost mirror of [`Value`].
pub enum ValueV {
    StrV(Seq<char>),
    F32V(u32),
    I32V(i32),
    I16V(i16),
    U8V(u8),
    BoolV(bool),
}

impl Value {
    /// The value as a mathematical value.
    pub open spec fn spec_view(self) -> ValueV {
        match self {
            Value::Str(s) => ValueV::StrV(s@),
            Value::F32(v) => ValueV::F32V(v),
            Value::I32(v) => ValueV::I32V(v),
            Value::I16(v) => ValueV::I16V(v),
            Value::U8(v) => ValueV::U8V(v),
            Value::Bool(v) => ValueV::BoolV(v),
        }
    }
}

/// Why a game-event instance could not be decoded.
#[derive(Debug, Clone, PartialEq, Eq)]
pub enum GameEventError {
    /// The payload is too small to even hold an event index.
    TooSmall,
    /// The schema has no record for the payload's event index.
    UnknownEventIndex(u16),
    /// The schema names a property kind live data cannot carry.
    UnsupportedEventProperty,
    /// The payload ran out or a string was not UTF-8.
    Payload,
}

/// A decoded event's values, in schema order.
#[derive(Debug, Clone, PartialEq, Eq)]
pub struct GameEventData(pub Vec<(String, Value)>);

impl GameEventData {
    /// The values as mathematical pairs, in schema order.
    pub open spec fn spec_view(self) -> Seq<(Seq<char>, ValueV)> {
        self.0@.map_values(|p: (String, Value)| (p.0@, p.1.spec_view()))
    }

    /// The first value stored under a name, when any.
    pub open spec fn spec_get(self, name: Seq<char>) -> Option<ValueV> {
        assoc_first(self.spec_view(), name)
    }

    /// The first value stored under a name, when any.
    pub fn get<'a>(&'a self, name: &str) -> (r: Option<&'a Value>)
        ensures
            match r {
                Some(v) => self.spec_get(name@) == Some(v.spec_view()),
                None => self.spec_get(name@) is None,
            },
    {
        let ghost view = self.spec_view();
        let mut i: usize = 0;
        proof {
            assert(view.skip(0) =~= view);
        }
        while i < self.0.len()
            invariant
                i <= self.0@.len(),
                view == self.spec_view(),
                view.len() == self.0@.len(),
                assoc_first(view.skip(i as int), name@) == assoc_first(view, name@),
            decreases self.0@.len() - i,
        {
            proof {
                assert(view.skip(i as int)[0] == view[i as int]);
                assert(view.skip(i as int).skip(1) =~= view.skip(i as int + 1));
            }
            if str_eq(self.0[i].0.as_str(), name) {
                return Some(&self.0[i].1);
            }
            i = i + 1;
        }
        proof {
            assert(view.skip(view.len() as int).len() == 0);
        }
        None
    }

    /// The first string value stored under a name, when any.
    pub fn get_str<'a>(&'a self, name: &str) -> (r: Option<&'a String>)
        ensures
            match r {
                Some(v) => self.spec_get(name@) == Some(ValueV::StrV(v@)),
                None => !(self.spec_get(name@) matches Some(ValueV::StrV(_))),
            },
    {
        match self.get(name) {
            Some(Value::Str(v)) => Some(v),
            _ => None,
        }
    }

    /// The first floating-point bit pattern stored under a name, when any.
    pub fn get_f32(&self, name: &str) -> (r: Option<u32>)
        ensures
            match r {
                Some(v) => self.spec_get(name@) == Some(ValueV::F32V(v)),
                None => !(self.spec_get(name@) matches Some(ValueV::F32V(_))),
            },
    {
        match self.get(name) {
            Some(Value::F32(v)) => Some(*v),
            _ => None,
        }
    }

    /// The first signed 32-bit value stored under a name, when any.
    pub fn get_i32(&self, name: &str) -> (r: Option<i32>)
        ensures
            match r {
                Some(v) => self.spec_get(name@) == Some(ValueV::I32V(v)),
                None => !(self.spec_get(name@) matches Some(ValueV::I32V(_))),
            },
    {
        match self.get(name) {
            Some(Value::I32(v)) => Some(*v),
            _ => None,
        }
    }

    /// The first signed 16-bit value stored under a name, when any.
    pub fn get_i16(&self, name: &str) -> (r: Option<i16>)
        ensures
            match r {
                Some(v) => self.spec_get(name@) == Some(ValueV::I16V(v)),
                None => !(self.spec_get(name@) matches Some(ValueV::I16V(_))),
            },
    {
        match self.get(name) {
            Some(Value::I16(v)) => Some(*v),
            _ => None,
        }
    }

    /// The first byte value stored under a name, when any.
    pub fn get_u8(&self, name: &str) -> (r: Option<u8>)
        ensures
            match r {
                Some(v) => self.spec_get(name@) == Some(ValueV::U8V(v)),
                None => !(self.spec_get(name@) matches Some(ValueV::U8V(_))),
            },
    {
        match self.get(name) {
            Some(Value::U8(v)) => Some(*v),
            _ => None,
        }
    }

    /// The first boolean value stored under a name, when any.
    pub fn get_bool(&self, name: &str) -> (r: Option<bool>)
        ensures
            match r {
                Some(v) => self.spec_get(name@) == Some(ValueV::BoolV(v)),
                None => !(self.spec_get(name@) matches Some(ValueV::BoolV(_))),
            },
    {
        match self.get(name) {
            Some(Value::Bool(v)) => Some(*v),
            _ => None,
        }
    }
}

/// The first pair with the given name, when any.
pub open spec fn assoc_first(v: Seq<(Seq<char>, ValueV)>, name: Seq<char>) -> Option<ValueV>
    decreases v.len(),
{
    if v.len() == 0 {
        None
    } else if v[0].0 == name {
        Some(v[0].1)
    } else {
        assoc_first(v.skip(1), name)
    }
}

/// Whether two text slices hold the same characters.
fn str_eq(a: &str, b: &str) -> (r: bool)
    ensures
        r == (a@ == b@),
{
    let ab = a.as_bytes();
    let bb = b.as_bytes();
    proof {
        if a@ == b@ {
            assert(ab@ == bb@);
        }
        vstd::utf8::encode_utf8_decode_utf8(a@);
        vstd::utf8::encode_utf8_decode_utf8(b@);
    }
    if ab.len() != bb.len() {
        return false;
    }
    let mut i: usize = 0;
    while i < ab.len()
        invariant
            ab@ == vstd::utf8::encode_utf8(a@),
            bb@ == vstd::utf8::encode_utf8(b@),
            ab@.len() == bb@.len(),
            i <= ab@.len(),
            forall|j: int| 0 <= j < i ==> ab@[j] == bb@[j],
        decreases ab@.len() - i,
    {
        if ab[i] != bb[i] {
            return false;
        }
        i = i + 1;
    }
    proof {
        assert(ab@ =~= bb@);
        vstd::utf8::encode_utf8_decode_utf8(a@);
        vstd::utf8::encode_utf8_decode_utf8(b@);
    }
    true
}

/// Outcome of decoding property values against a schema record.
pub enum EvOutcome {
    EvOk { values: Seq<(Seq<char>, ValueV)>, used: int },
    EvShort,
    EvBadUtf8,
    EvUnused,
}

/// Decode of property values in schema order from a bit stream.
pub open spec fn values_decode(props: Seq<(Kind, Seq<char>)>, s: Seq<bool>) -> EvOutcome
    decreases props.len(),
{
    if props.len() == 0 {
        EvOutcome::EvOk { values: Seq::empty(), used: 0int }
    } else {
        let (kind, name) = props[0];
        let one: Result<(ValueV, int), EvOutcome> = match kind {
            Kind::End => Err(EvOutcome::EvUnused),
            Kind::Unused => Err(EvOutcome::EvUnused),
            Kind::Str => match cstr_len(s) {
                None => Err(EvOutcome::EvShort),
                Some(k) => {
                    if !vstd::utf8::valid_utf8(cstr_bytes(s)) {
                        Err(EvOutcome::EvBadUtf8)
                    } else {
                        Ok((ValueV::StrV(vstd::utf8::decode_utf8(cstr_bytes(s))), 8 * (k + 1)))
                    }
                },
            },
            Kind::F32 => if s.len() < 32 {
                Err(EvOutcome::EvShort)
            } else {
                Ok((ValueV::F32V(field(s, 0, 32) as u32), 32int))
            },
            Kind::I32 => if s.len() < 32 {
                Err(EvOutcome::EvShort)
            } else {
                Ok((ValueV::I32V((field(s, 0, 32) as u32) as i32), 32int))
            },
            Kind::I16 => if s.len() < 16 {
                Err(EvOutcome::EvShort)
            } else {
                Ok((ValueV::I16V((field(s, 0, 16) as u16) as i16), 16int))
            },
            Kind::U8 => if s.len() < 8 {
                Err(EvOutcome::EvShort)
            } else {
                Ok((ValueV::U8V(field(s, 0, 8) as u8), 8int))
            },
            Kind::Bool => if s.len() < 1 {
                Err(EvOutcome::EvShort)
            } else {
                Ok((ValueV::BoolV(s[0]), 1int))
            },
        };
        match one {
            Err(out) => out,
            Ok((v, used)) => {
                if !(0 <= used <= s.len()) {
                    EvOutcome::EvShort
                } else {
                    match values_decode(props.skip(1), s.skip(used)) {
                        EvOutcome::EvOk { values, used: u2 } => EvOutcome::EvOk {
                            values: Seq::empty().push((name, v)) + values,
                            used: used + u2,
                        },
                        other => other,
                    }
                }
            },
        }
    }
}

/// The first schema record with the given index, when any.
pub open spec fn find_event(
    schema: Seq<(u16, Seq<char>, Seq<(Kind, Seq<char>)>)>,
    index: u16,
) -> Option<(u16, Seq<char>, Seq<(Kind, Seq<char>)>)>
    decreases schema.len(),
{
    if schema.len() == 0 {
        None
    } else if schema[0].0 == index {
        Some(schema[0])
    } else {
        find_event(schema.skip(1), index)
    }
}

/// A decoded game-event instance: the schema name of the event and its
/// values in schema order.
#[derive(Debug, Clone, PartialEq, Eq)]
pub struct DecodedEvent {
    pub name: String,
    pub data: GameEventData,
}

impl DecodedEvent {
    /// Decode a game-event payload against the schema. Payloads without room
    /// for an index fail with `TooSmall` before any lookup; an index missing
    /// from the schema fails with `UnknownEventIndex`.
    #[verifier::rlimit(100)]
    #[verifier::spinoff_prover]
    pub fn parse(list: &GameEventList, payload: &Bits) -> (r: Result<
        DecodedEvent,
        GameEventError,
    >)
        requires
            payload.wf(),
        ensures
            ({
                let s = crate::bits::pad_to_byte(payload@);
                let idx = field(s, 0, 9) as u16;
                let too_small = 8 * payload.spec_raw().len() + payload.spec_trailing_bits() < 9;
                match r {
                    Ok(ev) => {
                        &&& !too_small
                        &&& find_event(list.spec_view(), idx) matches Some(info)
                        &&& ev.name@ == find_event(list.spec_view(), idx)->Some_0.1
                        &&& values_decode(find_event(list.spec_view(), idx)->Some_0.2, s.skip(9))
                            matches EvOutcome::EvOk { values, .. }
                        &&& ev.data.spec_view() == values_decode(
                            find_event(list.spec_view(), idx)->Some_0.2,
                            s.skip(9),
                        )->EvOk_values
                    },
                    Err(e) => {
                        &&& (e == GameEventError::TooSmall <==> too_small)
                        &&& (e matches GameEventError::UnknownEventIndex(i) ==> i == idx
                            && !too_small && find_event(list.spec_view(), idx) is None)
                        &&& (!too_small && s.len() >= 9 && find_event(list.spec_view(), idx)
                            is None ==> e == GameEventError::UnknownEventIndex(idx))
                        &&& (e == GameEventError::UnsupportedEventProperty <==> (!too_small
                            && s.len() >= 9 && find_event(list.spec_view(), idx) is Some
                            && values_decode(
                            find_event(list.spec_view(), idx)->Some_0.2,
                            s.skip(9),
                        ) is EvUnused))
                        &&& (e == GameEventError::Payload ==> !too_small && (s.len() < 9 || (
                        find_event(list.spec_view(), idx) is Some && (values_decode(
                            find_event(list.spec_view(), idx)->Some_0.2,
                            s.skip(9),
                        ) is EvShort || values_decode(
                            find_event(list.spec_view(), idx)->Some_0.2,
                            s.skip(9),
                        ) is EvBadUtf8))))
                    },
                }
            }),
            ({
                let s = crate::bits::pad_to_byte(payload@);
                let idx = field(s, 0, 9) as u16;
                let too_small = 8 * payload.spec_raw().len() + payload.spec_trailing_bits() < 9;
                // Success is owed whenever the payload carries a known index
                // and every property value decodes.
                (!too_small && s.len() >= 9 && find_event(list.spec_view(), idx) is Some
                    && values_decode(find_event(list.spec_view(), idx)->Some_0.2, s.skip(9))
                    is EvOk) ==> r is Ok
            }),
    {
        if payload.bits_len() < 9 {
            return Err(GameEventError::TooSmall);
        }
        let mut reader = payload.reader();
        proof {
            crate::bits::lemma_reader_of_blob(payload, &reader);
        }
        let ghost s = reader.remaining();
        let index = match reader.read_bits(9) {
            Ok(v) => v,
            Err(_) => {
                return Err(GameEventError::Payload);
            },
        };
        proof {
            crate::bitseq::lemma_bits_val_bound(s.take(9));
            vstd::arithmetic::power2::lemma2_to64();
            assert(s.take(9) =~= s.subrange(0, 9));
        }
        let info = match Self::find(list, index as u16) {
            Some(info) => info,
            None => {
                return Err(GameEventError::UnknownEventIndex(index as u16));
            },
        };
        let mut values: Vec<(String, Value)> = Vec::new();
        let ghost body = s.skip(9);
        let ghost props = info.spec_view().2;
        let mut i: usize = 0;
        proof {
            assert(body.skip(0) =~= body);
            assert(values@.map_values(|p: (String, Value)| (p.0@, p.1.spec_view())) =~= Seq::<(
                Seq<char>,
                ValueV,
            )>::empty());
        }
        while i < info.properties.len()
            invariant
                reader.wf(),
                i <= info.properties@.len(),
                props == info.spec_view().2,
                props.len() == info.properties@.len(),
                s == crate::bits::pad_to_byte(payload@),
                s.len() >= 9,
                8 * payload.spec_raw().len() + payload.spec_trailing_bits() >= 9,
                find_event(list.spec_view(), field(s, 0, 9) as u16) == Some(info.spec_view()),
                index as u16 == field(s, 0, 9) as u16,
                body == s.skip(9),
                reader.remaining() == body.skip(body.len() - reader.remaining().len()),
                reader.remaining().len() <= body.len(),
                values_decode(props, body) == (match values_decode(
                    props.skip(i as int),
                    reader.remaining(),
                ) {
                    EvOutcome::EvOk { values: v2, used } => EvOutcome::EvOk {
                        values: values@.map_values(|p: (String, Value)| (p.0@, p.1.spec_view()))
                            + v2,
                        used: body.len() - reader.remaining().len() + used,
                    },
                    other => other,
                }),
            decreases info.properties@.len() - i,
        {
            let ghost cur = reader.remaining();
            let (kind, name) = Self::prop_at(info, i);
            proof {
                assert(props[i as int] == (kind, name@));
                assert(props.skip(i as int)[0] == props[i as int]);
                assert(props.skip(i as int).skip(1) =~= props.skip(i as int + 1));
            }
            let value: Value = match kind {
                Kind::End => {
                    proof {
                        assert(values_decode(props, body) is EvUnused);
                    }
                    return Err(GameEventError::UnsupportedEventProperty);
                },
                Kind::Unused => {
                    proof {
                        assert(values_decode(props, body) is EvUnused);
                    }
                    return Err(GameEventError::UnsupportedEventProperty);
                },
                Kind::Str => {
                    let st = match reader.read_string() {
                        Ok(st) => st,
                        Err(crate::bits::ReadStringError::Utf8) => {
                            proof {
                                assert(values_decode(props, body) is EvBadUtf8);
                            }
                            return Err(GameEventError::Payload);
                        },
                        Err(crate::bits::ReadStringError::InsufficientBits(_)) => {
                            proof {
                                assert(values_decode(props, body) is EvShort);
                            }
                            return Err(GameEventError::Payload);
                        },
                    };
                    proof {
                        lemma_cstr_len_bound(cur);
                    }
                    Value::Str(st)
                },
                Kind::F32 => {
                    let v = match reader.read_bits(32) {
                        Ok(v) => v,
                        Err(_) => {
                            proof {
                                assert(values_decode(props, body) is EvShort);
                            }
                            return Err(GameEventError::Payload);
                        },
                    };
                    proof {
                        assert(cur.take(32) =~= cur.subrange(0, 32));
                    }
                    Value::F32(v)
                },
                Kind::I32 => {
                    let v = match reader.read_bits(32) {
                        Ok(v) => v,
                        Err(_) => {
                            proof {
                                assert(values_decode(props, body) is EvShort);
                            }
                            return Err(GameEventError::Payload);
                        },
                    };
                    proof {
                        assert(cur.take(32) =~= cur.subrange(0, 32));
                    }
                    Value::I32(v as i32)
                },
                Kind::I16 => {
                    let v = match reader.read_bits(16) {
                        Ok(v) => v,
                        Err(_) => {
                            proof {
                                assert(values_decode(props, body) is EvShort);
                            }
                            return Err(GameEventError::Payload);
                        },
                    };
                    proof {
                        assert(cur.take(16) =~= cur.subrange(0, 16));
                        crate::bitseq::lemma_bits_val_bound(cur.subrange(0, 16));
                        vstd::arithmetic::power2::lemma2_to64();
                    }
                    Value::I16(v as u16 as i16)
                },
                Kind::U8 => {
                    let v = match reader.read_bits(8) {
                        Ok(v) => v,
                        Err(_) => {
                            proof {
                                assert(values_decode(props, body) is EvShort);
                            }
                            return Err(GameEventError::Payload);
                        },
                    };
                    proof {
                        assert(cur.take(8) =~= cur.subrange(0, 8));
                        crate::bitseq::lemma_bits_val_bound(cur.subrange(0, 8));
                        vstd::arithmetic::power2::lemma2_to64();
                    }
                    Value::U8(v as u8)
                },
                Kind::Bool => {
                    let v = match reader.read_bit() {
                        Ok(v) => v,
                        Err(_) => {
                            proof {
                                assert(values_decode(props, body) is EvShort);
                            }
                            return Err(GameEventError::Payload);
                        },
                    };
                    Value::Bool(v)
                },
            };
            let ghost prev = values@;
            values.push((name, value));
            i = i + 1;
            proof {
                let m = |p: (String, Value)| (p.0@, p.1.spec_view());
                assert(values@.map_values(m) =~= prev.map_values(m).push(
                    (props[i - 1].1, value.spec_view()),
                ));
                match values_decode(props.skip(i as int), reader.remaining()) {
                    EvOutcome::EvOk { values: v2, used } => {
                        assert(prev.map_values(m) + (Seq::empty().push(
                            (props[i - 1].1, value.spec_view()),
                        ) + v2) =~= values@.map_values(m) + v2);
                    },
                    _ => {},
                }
            }
        }
        proof {
            let m = |p: (String, Value)| (p.0@, p.1.spec_view());
            assert(values@.map_values(m) + Seq::<(Seq<char>, ValueV)>::empty() =~= values@
                .map_values(m));
        }
        let name = clone_string(&info.name);
        Ok(DecodedEvent { name, data: GameEventData(values) })
    }

    /// The first schema record with the given index, when any.
    fn find<'a>(list: &'a GameEventList, index: u16) -> (r: Option<&'a GameEventInfo>)
        ensures
            match r {
                Some(info) => find_event(list.spec_view(), index) == Some(info.spec_view()),
                None => find_event(list.spec_view(), index) is None,
            },
    {
        let ghost schema = list.spec_view();
        let mut i: usize = 0;
        proof {
            assert(schema.skip(0) =~= schema);
        }
        while i < list.0.len()
            invariant
                i <= list.0@.len(),
                schema == list.spec_view(),
                schema.len() == list.0@.len(),
                find_event(schema.skip(i as int), index) == find_event(schema, index),
                forall|j: int| 0 <= j < i ==> #[trigger] schema[j].0 != index,
            decreases list.0@.len() - i,
        {
            proof {
                assert(schema.skip(i as int)[0] == schema[i as int]);
                assert(schema.skip(i as int).skip(1) =~= schema.skip(i as int + 1));
            }
            if list.0[i].index == index {
                return Some(&list.0[i]);
            }
            i = i + 1;
        }
        proof {
            assert(schema.skip(list.0@.len() as int).len() == 0);
        }
        None
    }

    /// Property `i` of a schema record.
    fn prop_at(info: &GameEventInfo, i: usize) -> (r: (Kind, String))
        requires
            i < info.properties@.len(),
        ensures
            (r.0, r.1@) == info.spec_view().2[i as int],
    {
        let kind = info.properties[i].0;
        let name = clone_string(&info.properties[i].1);
        (kind, name)
    }
}

/// A copy of a string.
fn clone_string(s: &String) -> (r: String)
    ensures
        r@ == s@,
{
    s.clone()
}

} // verus!
