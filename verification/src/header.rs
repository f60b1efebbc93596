//! The fixed 1072-byte demo header.

use vstd::prelude::*;

verus! {

use crate::bytes::{Reader, le_bytes_val};

/// Length of each zero-padded path field.
pub const PATH_LENGTH: usize = 260;

/// Total header length: magic, two protocol words, four path fields, and
/// four trailing words.
pub const HEADER_LENGTH: usize = 1072;

/// The eight magic bytes that open every demo file.
pub open spec fn spec_magic() -> Seq<u8> {
    seq![0x48u8, 0x4cu8, 0x32u8, 0x44u8, 0x45u8, 0x4du8, 0x4fu8, 0x00u8]
}

/// Index of the first zero byte, or the length when none occurs.
pub open spec fn first_zero(s: Seq<u8>) -> int
    decreases s.len(),
{
    if s.len() == 0 {
        0
    } else if s[0] == 0 {
        0
    } else {
        1 + first_zero(s.skip(1))
    }
}

/// An owned, zero-padded 260-byte header string field.
#[derive(Debug, Clone)]
pub struct HeaderStr(Vec<u8>);

impl View for HeaderStr {
    type V = Seq<u8>;

    closed spec fn view(&self) -> Seq<u8> {
        self.0@
    }
}

impl HeaderStr {
    pub open spec fn wf(self) -> bool {
        self@.len() == PATH_LENGTH
    }

    /// Copy a slice of exactly 260 bytes into an owned field.
    pub fn from_slice(slice: &[u8]) -> (r: Option<Self>)
        ensures
            r is Some <==> slice@.len() == PATH_LENGTH,
            r matches Some(h) ==> h.wf() && h@ == slice@,
    {
        if slice.len() != PATH_LENGTH {
            None
        } else {
            Some(HeaderStr(vstd::slice::slice_to_vec(slice)))
        }
    }

    /// All 260 bytes, padding included.
    pub fn bytes(&self) -> (r: &[u8])
        ensures
            r@ == self@,
    {
        self.0.as_slice()
    }

    /// The bytes before the first zero.
    pub fn str_bytes(&self) -> (r: &[u8])
        requires
            self.wf(),
        ensures
            r@ == self@.take(first_zero(self@)),
            first_zero(self@) <= self@.len(),
    {
        let ghost s = self@;
        let mut index: usize = 0;
        proof {
            assert(s.skip(0) =~= s);
        }
        while index < self.0.len()
            invariant
                self.wf(),
                s == self@,
                index <= s.len(),
                forall|j: int| 0 <= j < index ==> s[j] != 0,
                first_zero(s.skip(index as int)) + index == first_zero(s),
            decreases s.len() - index,
        {
            proof {
                assert(s.skip(index as int)[0] == s[index as int]);
            }
            if self.0[index] == 0 {
                proof {
                    assert(first_zero(s) == index);
                }
                let r = vstd::slice::slice_subrange(self.0.as_slice(), 0, index);
                proof {
                    assert(r@ =~= self@.take(first_zero(self@)));
                }
                return r;
            }
            proof {
                assert(s.skip(index as int).skip(1) =~= s.skip(index as int + 1));
            }
            index = index + 1;
        }
        proof {
            assert(s.skip(s.len() as int) =~= Seq::<u8>::empty());
            assert(first_zero(s) == s.len());
        }
        let r = vstd::slice::slice_subrange(self.0.as_slice(), 0, self.0.len());
        proof {
            assert(r@ =~= self@.take(first_zero(self@)));
        }
        r
    }

    /// The field's text: the bytes before the first zero, decoded as UTF-8.
    pub fn to_str(&self) -> (r: Option<String>)
        requires
            self.wf(),
        ensures
            ({
                let prefix = self@.take(first_zero(self@));
                match r {
                    Some(st) => vstd::utf8::valid_utf8(prefix) && st@ == vstd::utf8::decode_utf8(
                        prefix,
                    ),
                    None => !vstd::utf8::valid_utf8(prefix),
                }
            }),
    {
        let bytes = self.str_bytes();
        crate::bits::string_from_utf8(vstd::slice::slice_to_vec(bytes))
    }
}

/// Wrong magic bytes at the start of a demo file; carries what was found.
#[derive(Debug, Clone, PartialEq, Eq)]
pub struct IncorrectMagic(pub Vec<u8>);

/// The decoded fixed-size demo header.
#[derive(Debug, Clone)]
pub struct DemoHeader {
    pub demo_protocol: i32,
    pub network_protocol: i32,
    pub server_name: HeaderStr,
    pub client_name: HeaderStr,
    pub map_name: HeaderStr,
    pub game_directory: HeaderStr,
    /// Playback length in seconds, as the raw bit pattern of an IEEE-754
    /// single-precision value.
    pub playback_seconds: u32,
    pub ticks: i32,
    pub frames: i32,
    pub signon_length: i32,
}

impl DemoHeader {
    /// Field-by-field correspondence with the header bytes.
    pub open spec fn decodes(self, data: Seq<u8>) -> bool {
        &&& self.demo_protocol == (le_bytes_val(data.subrange(8, 12)) as u32) as i32
        &&& self.network_protocol == (le_bytes_val(data.subrange(12, 16)) as u32) as i32
        &&& self.server_name@ == data.subrange(16, 276)
        &&& self.client_name@ == data.subrange(276, 536)
        &&& self.map_name@ == data.subrange(536, 796)
        &&& self.game_directory@ == data.subrange(796, 1056)
        &&& self.playback_seconds == le_bytes_val(data.subrange(1056, 1060)) as u32
        &&& self.ticks == (le_bytes_val(data.subrange(1060, 1064)) as u32) as i32
        &&& self.frames == (le_bytes_val(data.subrange(1064, 1068)) as u32) as i32
        &&& self.signon_length == (le_bytes_val(data.subrange(1068, 1072)) as u32) as i32
    }

    /// Decode the fixed 1072-byte header. Fails exactly when the magic does
    /// not read `HL2DEMO` followed by a zero byte.
    pub fn parse(data: &[u8; 1072]) -> (r: Result<DemoHeader, IncorrectMagic>)
        ensures
            match r {
                Ok(h) => data@.take(8) == spec_magic() && h.decodes(data@) && h.server_name.wf()
                    && h.client_name.wf() && h.map_name.wf() && h.game_directory.wf(),
                Err(e) => data@.take(8) != spec_magic() && e.0@ == data@.take(8),
            },
    {
        let slice = data.as_slice();
        let mut reader = Reader::new(slice);
        let magic = match reader.bytes(8) {
            Ok(m) => m,
            Err(_) => {
                proof {
                    assert(false);
                }
                return Err(IncorrectMagic(Vec::new()));
            },
        };
        let ok = magic.len() == 8 && magic[0] == 0x48 && magic[1] == 0x4c && magic[2] == 0x32
            && magic[3] == 0x44 && magic[4] == 0x45 && magic[5] == 0x4d && magic[6] == 0x4f
            && magic[7] == 0x00;
        proof {
            assert(data@.skip(0) =~= data@);
            assert(magic@ =~= data@.take(8));
            if ok {
                assert(magic@ =~= spec_magic());
            } else {
                assert(magic@ != spec_magic());
            }
        }
        if !ok {
            return Err(IncorrectMagic(vstd::slice::slice_to_vec(magic)));
        }
        let demo_protocol = Self::take_i32(&mut reader);
        let network_protocol = Self::take_i32(&mut reader);
        let server_name = Self::take_str(&mut reader);
        let client_name = Self::take_str(&mut reader);
        let map_name = Self::take_str(&mut reader);
        let game_directory = Self::take_str(&mut reader);
        let playback_seconds = Self::take_u32(&mut reader);
        let ticks = Self::take_i32(&mut reader);
        let frames = Self::take_i32(&mut reader);
        let signon_length = Self::take_i32(&mut reader);
        proof {
            Self::lemma_field_offsets(data@);
        }
        Ok(
            DemoHeader {
                demo_protocol,
                network_protocol,
                server_name,
                client_name,
                map_name,
                game_directory,
                playback_seconds,
                ticks,
                frames,
                signon_length,
            },
        )
    }

    /// Reading a field at a cursor reads the matching subrange of the data.
    proof fn lemma_field_offsets(data: Seq<u8>)
        requires
            data.len() == 1072,
        ensures
            forall|p: int, n: int|
                0 <= p && 0 <= n && p + n <= 1072 ==> #[trigger] data.skip(p).take(n)
                    =~= data.subrange(p, p + n),
    {
    }

    fn take_i32(reader: &mut Reader) -> (r: i32)
        requires
            old(reader).wf(),
            old(reader).remaining().len() >= 4,
        ensures
            final(reader).wf(),
            final(reader).spec_data() == old(reader).spec_data(),
            final(reader).spec_pos() == old(reader).spec_pos() + 4,
            r == (le_bytes_val(old(reader).remaining().take(4)) as u32) as i32,
    {
        match reader.i32() {
            Ok(v) => v,
            Err(_) => {
                proof {
                    assert(false);
                }
                0
            },
        }
    }

    fn take_u32(reader: &mut Reader) -> (r: u32)
        requires
            old(reader).wf(),
            old(reader).remaining().len() >= 4,
        ensures
            final(reader).wf(),
            final(reader).spec_data() == old(reader).spec_data(),
            final(reader).spec_pos() == old(reader).spec_pos() + 4,
            r as nat == le_bytes_val(old(reader).remaining().take(4)),
    {
        match reader.u32() {
            Ok(v) => v,
            Err(_) => {
                proof {
                    assert(false);
                }
                0
            },
        }
    }

    fn take_str(reader: &mut Reader) -> (r: HeaderStr)
        requires
            old(reader).wf(),
            old(reader).remaining().len() >= 260,
        ensures
            final(reader).wf(),
            final(reader).spec_data() == old(reader).spec_data(),
            final(reader).spec_pos() == old(reader).spec_pos() + 260,
            r.wf(),
            r@ == old(reader).remaining().take(260),
    {
        let slice = match reader.bytes(260) {
            Ok(s) => s,
            Err(_) => {
                proof {
                    assert(false);
                }
                &[]
            },
        };
        match HeaderStr::from_slice(slice) {
            Some(h) => h,
            None => {
                proof {
                    assert(false);
                }
                HeaderStr(Vec::new())
            },
        }
    }
}

} // verus!
