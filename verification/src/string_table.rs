//! String tables: full snapshots carried by string-tables frames, and the
//! incremental update protocol with history-based partial-string compression
//! used by create and update messages.

use vstd::prelude::*;

verus! {

broadcast use {
    vstd::seq_lib::lemma_seq_skip_of_skip,
    vstd::std_specs::control_flow::group_control_flow_axioms,
};

use crate::bits::{BitReader, cstr_len, cstr_bytes, lemma_cstr_len_bound};
use crate::bitseq::ceil_log2;
use crate::packets::field;
use crate::parse::ParseError;

/// Per-row auxiliary data: a small fixed-width bit field, a byte buffer, or
/// nothing.
#[derive(Debug, Clone, PartialEq, Eq)]
pub enum Extra {
    Bits { count: u8, data: u16 },
    Bytes(Vec<u8>),
    Empty,
}

/// Ghost mirror of [`Extra`].
pub enum ExtraV {
    BitsV { count: u8, data: u16 },
    BytesV(Seq<u8>),
    EmptyV,
}

impl Extra {
    /// The row data as a mathematical value.
    pub open spec fn spec_view(self) -> ExtraV {
        match self {
            Extra::Bits { count, data } => ExtraV::BitsV { count, data },
            Extra::Bytes(v) => ExtraV::BytesV(v@),
            Extra::Empty => ExtraV::EmptyV,
        }
    }
}

/// A table's rows as mathematical values.
pub open spec fn rows_view(rows: Seq<(String, Extra)>) -> Seq<(Seq<char>, ExtraV)> {
    rows.map_values(|r: (String, Extra)| (r.0@, r.1.spec_view()))
}

/// Why one row of an update failed.
pub enum UpdErr {
    /// The stream ran out.
    EBits,
    /// A string was not UTF-8.
    EUtf8,
    /// A history back-reference named a slot at or past the history length.
    EHistory { index: u8, len: int },
    /// A back-reference asked for a longer prefix than the entry has.
    EPrefix { matching: u8, len: int },
    /// A row index at or past the row count.
    EIndex { index: u32, max: int },
}

/// Outcome of an update run: the rows after all updates and the bits used,
/// or the rows written before the failing row and why that row failed.
pub enum UpdOutcome {
    Done { rows: Seq<(Seq<char>, ExtraV)>, used: int },
    Fail { rows: Seq<(Seq<char>, ExtraV)>, err: UpdErr },
}

/// The wire fields of one row up to its string.
pub enum RowHead {
    HeadOk {
        use_pred: bool,
        index: u32,
        has_string: bool,
        partial: Option<(u8, u8)>,
        suffix: Seq<u8>,
        used: int,
    },
    HeadShort,
    HeadUtf8,
}

/// Decode of one row's fields up to its string, with `w` index bits: the
/// prediction bit, an explicit index when the bit is clear, the string flag,
/// a back-reference when flagged partial, and the suffix bytes.
pub open spec fn row_head(s: Seq<bool>, w: int) -> RowHead {
    if s.len() < 1 {
        RowHead::HeadShort
    } else {
        let use_pred = s[0];
        let iw = if use_pred {
            0int
        } else {
            w
        };
        if s.len() < 1 + iw + 1 {
            RowHead::HeadShort
        } else {
            let index = field(s, 1, 1 + iw) as u32;
            let has_string = s[1 + iw];
            let o = 1 + iw + 1;
            if !has_string {
                RowHead::HeadOk {
                    use_pred,
                    index,
                    has_string,
                    partial: None,
                    suffix: Seq::empty(),
                    used: o,
                }
            } else {
                if s.len() < o + 1 {
                    RowHead::HeadShort
                } else {
                    let has_partial = s[o];
                    let pw = if has_partial {
                        10int
                    } else {
                        0int
                    };
                    if s.len() < o + 1 + pw {
                        RowHead::HeadShort
                    } else {
                        let partial = if has_partial {
                            Some((field(s, o + 1, o + 6) as u8, field(s, o + 6, o + 11) as u8))
                        } else {
                            None::<(u8, u8)>
                        };
                        let so = o + 1 + pw;
                        match cstr_len(s.skip(so)) {
                            None => RowHead::HeadShort,
                            Some(k) => {
                                if !vstd::utf8::valid_utf8(cstr_bytes(s.skip(so))) {
                                    RowHead::HeadUtf8
                                } else {
                                    RowHead::HeadOk {
                                        use_pred,
                                        index,
                                        has_string,
                                        partial,
                                        suffix: cstr_bytes(s.skip(so)),
                                        used: so + 8 * (k + 1),
                                    }
                                }
                            },
                        }
                    }
                }
            }
        }
    }
}

/// Decode of one row's extra data, starting after its string: a presence
/// bit, then either the table's fixed-width bit field or a fourteen-bit byte
/// count and that many bytes.
pub open spec fn row_extra(s: Seq<bool>, fixed: Option<u8>) -> Option<(ExtraV, int)> {
    if s.len() < 1 {
        None
    } else if !s[0] {
        Some((ExtraV::EmptyV, 1int))
    } else {
        match fixed {
            Some(b) => {
                if s.len() < 1 + b {
                    None
                } else {
                    Some(
                        (
                            ExtraV::BitsV { count: b, data: field(s, 1, 1 + b as int) as u16 },
                            1 + b as int,
                        ),
                    )
                }
            },
            None => {
                if s.len() < 15 {
                    None
                } else {
                    let blen = field(s, 1, 15);
                    if s.len() < 15 + 8 * blen {
                        None
                    } else {
                        Some(
                            (
                                ExtraV::BytesV(
                                    Seq::new(blen, |j: int| crate::bitseq::group8(s.skip(15), j)),
                                ),
                                15 + 8 * blen as int,
                            ),
                        )
                    }
                }
            },
        }
    }
}

/// The history after inserting one string: the oldest entries leave so that
/// at most thirty-two remain.
pub open spec fn hist_push(hist: Seq<Seq<u8>>, full: Seq<u8>) -> Seq<Seq<u8>> {
    let trimmed = if hist.len() >= 32 {
        hist.skip(hist.len() - 31)
    } else {
        hist
    };
    trimmed.push(full)
}

/// Resolve one row against the update state: pick the row index, settle the
/// string through the history, and remember it.
pub open spec fn resolve_row(
    pred: int,
    hist: Seq<Seq<u8>>,
    use_pred: bool,
    index: u32,
    has_string: bool,
    partial: Option<(u8, u8)>,
    suffix: Seq<u8>,
) -> Result<(int, Seq<Seq<u8>>, Option<Seq<u8>>), UpdErr> {
    let row_index = if use_pred {
        pred
    } else {
        index as int
    };
    if !has_string {
        Ok((row_index, hist, None::<Seq<u8>>))
    } else {
        match partial {
            None => Ok((row_index, hist_push(hist, suffix), Some(suffix))),
            Some((hi, matching)) => {
                if hi >= hist.len() {
                    Err(UpdErr::EHistory { index: hi, len: hist.len() as int })
                } else if matching > hist[hi as int].len() {
                    Err(UpdErr::EPrefix { matching, len: hist[hi as int].len() as int })
                } else {
                    let full = hist[hi as int].take(matching as int) + suffix;
                    if !vstd::utf8::valid_utf8(full) {
                        Err(UpdErr::EUtf8)
                    } else {
                        Ok((row_index, hist_push(hist, full), Some(full)))
                    }
                }
            },
        }
    }
}

/// One row written back: the string and the extra overwrite the row named by
/// the index, each only when present on the wire.
pub open spec fn write_row(
    rows: Seq<(Seq<char>, ExtraV)>,
    index: int,
    string: Option<Seq<u8>>,
    extra: ExtraV,
) -> Seq<(Seq<char>, ExtraV)>
    recommends
        0 <= index < rows.len(),
{
    let with_string = match string {
        Some(bytes) => rows.update(index, (vstd::utf8::decode_utf8(bytes), rows[index].1)),
        None => rows,
    };
    match extra {
        ExtraV::EmptyV => with_string,
        _ => with_string.update(index, (with_string[index].0, extra)),
    }
}

/// Outcome of one update row against the table state.
pub enum RowStep {
    StepOk {
        rows: Seq<(Seq<char>, ExtraV)>,
        pred: int,
        hist: Seq<Seq<u8>>,
        used: int,
    },
    StepFail { err: UpdErr },
}

/// Run one update row: decode its head, resolve it against the state, decode
/// its extra, and write it back.
pub open spec fn row_step(
    rows: Seq<(Seq<char>, ExtraV)>,
    s: Seq<bool>,
    w: int,
    fixed: Option<u8>,
    pred: int,
    hist: Seq<Seq<u8>>,
) -> RowStep {
    match row_head(s, w) {
        RowHead::HeadShort => RowStep::StepFail { err: UpdErr::EBits },
        RowHead::HeadUtf8 => RowStep::StepFail { err: UpdErr::EUtf8 },
        RowHead::HeadOk { use_pred, index, has_string, partial, suffix, used } => {
            match resolve_row(pred, hist, use_pred, index, has_string, partial, suffix) {
                Err(e) => RowStep::StepFail { err: e },
                Ok((row_index, hist2, string)) => {
                    if !(0 <= used <= s.len()) {
                        RowStep::StepFail { err: UpdErr::EBits }
                    } else {
                        match row_extra(s.skip(used), fixed) {
                            None => RowStep::StepFail { err: UpdErr::EBits },
                            Some((extra, used2)) => {
                                if !(0 <= row_index < rows.len()) {
                                    RowStep::StepFail {
                                        err: UpdErr::EIndex {
                                            index: if use_pred {
                                                pred as u32
                                            } else {
                                                index
                                            },
                                            max: rows.len() - 1,
                                        },
                                    }
                                } else {
                                    RowStep::StepOk {
                                        rows: write_row(rows, row_index, string, extra),
                                        pred: row_index + 1,
                                        hist: hist2,
                                        used: used + used2,
                                    }
                                }
                            },
                        }
                    }
                },
            }
        },
    }
}

/// Run `n` update rows against the table state.
pub open spec fn upd_rows(
    rows: Seq<(Seq<char>, ExtraV)>,
    s: Seq<bool>,
    n: int,
    w: int,
    fixed: Option<u8>,
    pred: int,
    hist: Seq<Seq<u8>>,
) -> UpdOutcome
    decreases n,
{
    if n <= 0 {
        UpdOutcome::Done { rows, used: 0int }
    } else {
        match row_step(rows, s, w, fixed, pred, hist) {
            RowStep::StepFail { err } => UpdOutcome::Fail { rows, err },
            RowStep::StepOk { rows: rows2, pred: pred2, hist: hist2, used } => {
                if !(0 <= used <= s.len()) {
                    UpdOutcome::Fail { rows: rows2, err: UpdErr::EBits }
                } else {
                    match upd_rows(rows2, s.skip(used), n - 1, w, fixed, pred2, hist2) {
                        UpdOutcome::Done { rows: r3, used: u3 } => UpdOutcome::Done {
                            rows: r3,
                            used: used + u3,
                        },
                        UpdOutcome::Fail { rows: r3, err } => UpdOutcome::Fail { rows: r3, err },
                    }
                }
            },
        }
    }
}

/// An update error rendered as the matching parse error.
pub open spec fn upd_err_matches(e: ParseError, u: UpdErr) -> bool {
    match u {
        UpdErr::EBits => e matches ParseError::InsufficientBits(_),
        UpdErr::EUtf8 => e is Utf8,
        UpdErr::EHistory { index, len } => e matches ParseError::OutOfBounds {
            name,
            value,
            min,
            max,
        } && name@ == "string_table::HistoryIndex"@ && value == index as u32 && min == 0 && max
            == (if len == 0 {
            0int
        } else {
            len - 1
        }),
        UpdErr::EPrefix { matching, len } => e matches ParseError::OutOfBounds {
            name,
            value,
            min,
            max,
        } && name@ == "string_table::PrefixLength"@ && value == matching as u32 && min == 0 && max
            == len,
        UpdErr::EIndex { index, max } => e matches ParseError::OutOfBounds {
            name,
            value,
            min,
            max: m,
        } && name@ == "string_table::StringIndex"@ && value == index && min == 0 && m == (if max
            < 0 {
            0int
        } else {
            max
        }),
    }
}

/// A run of update rows that all select their index by prediction, as far
/// as it succeeds.
pub open spec fn predicted_run(
    rows: Seq<(Seq<char>, ExtraV)>,
    s: Seq<bool>,
    n: int,
    w: int,
    fixed: Option<u8>,
    pred: int,
    hist: Seq<Seq<u8>>,
) -> bool
    decreases n,
{
    if n <= 0 {
        true
    } else {
        &&& row_head(s, w) matches RowHead::HeadOk { use_pred: true, .. }
        &&& match row_step(rows, s, w, fixed, pred, hist) {
            RowStep::StepOk { rows: r2, pred: p2, hist: h2, used } => 0 <= used <= s.len()
                && predicted_run(r2, s.skip(used), n - 1, w, fixed, p2, h2),
            RowStep::StepFail { .. } => true,
        }
    }
}

/// The row indices a run writes, in order: each step's new predicted cursor
/// is one past the index it wrote.
pub open spec fn written_indices(
    rows: Seq<(Seq<char>, ExtraV)>,
    s: Seq<bool>,
    n: int,
    w: int,
    fixed: Option<u8>,
    pred: int,
    hist: Seq<Seq<u8>>,
) -> Seq<int>
    decreases n,
{
    if n <= 0 {
        Seq::empty()
    } else {
        match row_step(rows, s, w, fixed, pred, hist) {
            RowStep::StepFail { .. } => Seq::empty(),
            RowStep::StepOk { rows: r2, pred: p2, hist: h2, used } => {
                if !(0 <= used <= s.len()) {
                    Seq::empty()
                } else {
                    Seq::empty().push(p2 - 1) + written_indices(
                        r2,
                        s.skip(used),
                        n - 1,
                        w,
                        fixed,
                        p2,
                        h2,
                    )
                }
            },
        }
    }
}

/// When every row of a successful update selects its index by prediction,
/// the written row indices are the arithmetic sequence starting at the
/// predicted cursor: with a fresh cursor, zero, one, two, and so on.
pub proof fn lemma_predicted_indices(
    rows: Seq<(Seq<char>, ExtraV)>,
    s: Seq<bool>,
    n: int,
    w: int,
    fixed: Option<u8>,
    pred: int,
    hist: Seq<Seq<u8>>,
)
    requires
        n >= 0,
        predicted_run(rows, s, n, w, fixed, pred, hist),
        upd_rows(rows, s, n, w, fixed, pred, hist) matches UpdOutcome::Done { .. },
    ensures
        written_indices(rows, s, n, w, fixed, pred, hist) == Seq::new(n as nat, |i: int| pred + i),
    decreases n,
{
    if n <= 0 {
        assert(written_indices(rows, s, n, w, fixed, pred, hist) =~= Seq::new(
            n as nat,
            |i: int| pred + i,
        ));
    } else {
        match row_step(rows, s, w, fixed, pred, hist) {
            RowStep::StepFail { .. } => {},
            RowStep::StepOk { rows: r2, pred: p2, hist: h2, used } => {
                assert(p2 == pred + 1);
                lemma_predicted_indices(r2, s.skip(used), n - 1, w, fixed, p2, h2);
                assert(written_indices(rows, s, n, w, fixed, pred, hist) =~= Seq::new(
                    n as nat,
                    |i: int| pred + i,
                ));
            },
        }
    }
}

/// The history state after inserting the given strings in order, starting
/// empty.
pub open spec fn hist_after_inserts(strings: Seq<Seq<u8>>) -> Seq<Seq<u8>>
    decreases strings.len(),
{
    if strings.len() == 0 {
        Seq::empty()
    } else {
        hist_push(hist_after_inserts(strings.drop_last()), strings.last())
    }
}

/// History invariant: after every inserted row the history holds the last
/// insertions, at most thirty-two of them — its length is the smaller of
/// the insertion count and thirty-two.
pub proof fn lemma_history_length(strings: Seq<Seq<u8>>)
    ensures
        hist_after_inserts(strings).len() == if strings.len() < 32 {
            strings.len() as int
        } else {
            32int
        },
    decreases strings.len(),
{
    if strings.len() > 0 {
        lemma_history_length(strings.drop_last());
    }
}

/// An ordered, capacity-bounded array of named rows with optional per-row
/// auxiliary data.
#[derive(Debug, Clone)]
pub struct StringTable {
    pub strings: Vec<(String, Extra)>,
    pub capacity: Option<usize>,
    pub fixed_extra_size: Option<u8>,
}

impl StringTable {
    /// The capacity fixed at creation, when known.
    pub open spec fn spec_capacity(self) -> Option<usize> {
        self.capacity
    }

    /// The fixed extra bit width, when the table declares one.
    pub open spec fn spec_fixed_extra_size(self) -> Option<u8> {
        self.fixed_extra_size
    }

    /// Make a table of `entries` empty rows with a fixed capacity.
    pub fn create(entries: usize, capacity: usize, fixed_extra_size: Option<u8>) -> (r: Self)
        requires
            entries <= capacity,
        ensures
            r.spec_capacity() == Some(capacity),
            r.spec_fixed_extra_size() == fixed_extra_size,
            r.strings@.len() == entries,
            forall|i: int|
                0 <= i < entries ==> #[trigger] r.strings@[i].0@ == Seq::<char>::empty()
                    && r.strings@[i].1 == Extra::Empty,
    {
        let mut strings: Vec<(String, Extra)> = Vec::new();
        let mut i: usize = 0;
        while i < entries
            invariant
                i <= entries,
                strings@.len() == i,
                forall|j: int|
                    0 <= j < i ==> #[trigger] strings@[j].0@ == Seq::<char>::empty()
                        && strings@[j].1 == Extra::Empty,
            decreases entries - i,
        {
            let empty = String::new();
            proof {
                vstd::utf8::encode_utf8_decode_utf8(Seq::<char>::empty());
            }
            strings.push((empty, Extra::Empty));
            i = i + 1;
        }
        StringTable { strings, capacity: Some(capacity), fixed_extra_size }
    }

    pub fn fixed_extra_size(&self) -> (r: Option<u8>)
        ensures
            r == self.spec_fixed_extra_size(),
    {
        self.fixed_extra_size
    }

    pub fn capacity(&self) -> (r: Option<usize>)
        ensures
            r == self.spec_capacity(),
    {
        self.capacity
    }

    /// Run `updated` incremental rows against this table. The index width is
    /// fixed by the capacity; rows not mentioned are preserved, and a failing
    /// row leaves every earlier row's write in place.
    pub fn update(&mut self, bits: &mut BitReader, updated: u16) -> (r: Result<(), ParseError>)
        requires
            old(self).spec_capacity() matches Some(c) && 1 <= c <= 0xffff,
            old(self).strings@.len() <= 0xffff,
            old(self).spec_fixed_extra_size() matches Some(b) ==> b <= 32,
            old(bits).wf(),
        ensures
            final(bits).wf(),
            final(self).spec_capacity() == old(self).spec_capacity(),
            final(self).spec_fixed_extra_size() == old(self).spec_fixed_extra_size(),
            ({
                let s = old(bits).remaining();
                let w = ceil_log2(old(self).spec_capacity()->Some_0 as nat) as int;
                let out = upd_rows(
                    rows_view(old(self).strings@),
                    s,
                    updated as int,
                    w,
                    old(self).spec_fixed_extra_size(),
                    0,
                    Seq::empty(),
                );
                match r {
                    Ok(()) => {
                        &&& out matches UpdOutcome::Done { rows, used }
                        &&& rows_view(final(self).strings@) == out->Done_rows
                        &&& final(bits).remaining() == s.skip(out->Done_used)
                        &&& 0 <= out->Done_used <= s.len()
                    },
                    Err(e) => {
                        &&& out matches UpdOutcome::Fail { rows, err }
                        &&& rows_view(final(self).strings@) == out->Fail_rows
                        &&& upd_err_matches(e, out->Fail_err)
                    },
                }
            }),
    {
        let cap = match self.capacity {
            Some(c) => c,
            None => {
                proof {
                    assert(false);
                }
                1
            },
        };
        let w = crate::packets::ceil_log2_u16(cap as u16);
        let fixed = self.fixed_extra_size;
        let ghost s0 = old(bits).remaining();
        let ghost rows0 = rows_view(self.strings@);
        let mut pred: u32 = 0;
        let mut history: Vec<Vec<u8>> = Vec::new();
        let mut i: u16 = 0;
        proof {
            assert(s0.skip(0) =~= s0);
            assert(history@.map_values(|v: Vec<u8>| v@) =~= Seq::<Seq<u8>>::empty());
        }
        while i < updated
            invariant
                bits.wf(),
                i <= updated,
                self.capacity == old(self).capacity,
                self.fixed_extra_size == old(self).fixed_extra_size,
                fixed == old(self).spec_fixed_extra_size(),
                fixed matches Some(b) ==> b <= 32,
                s0 == old(bits).remaining(),
                w as int == ceil_log2(old(self).spec_capacity()->Some_0 as nat),
                w <= 16,
                pred <= 0x10000 + i,
                self.strings@.len() <= 0xffff,
                old(self).strings@.len() <= 0xffff,
                history@.map_values(|v: Vec<u8>| v@).len() <= 32,
                bits.remaining() == s0.skip(s0.len() - bits.remaining().len()),
                bits.remaining().len() <= s0.len(),
                upd_rows(rows0, s0, updated as int, w as int, fixed, 0, Seq::empty()) == ({
                    let inner = upd_rows(
                        rows_view(self.strings@),
                        bits.remaining(),
                        updated - i,
                        w as int,
                        fixed,
                        pred as int,
                        history@.map_values(|v: Vec<u8>| v@),
                    );
                    match inner {
                        UpdOutcome::Done { rows, used } => UpdOutcome::Done {
                            rows,
                            used: s0.len() - bits.remaining().len() + used,
                        },
                        UpdOutcome::Fail { rows, err } => UpdOutcome::Fail { rows, err },
                    }
                }),
                rows0 == rows_view(old(self).strings@),
            decreases updated - i,
        {
            let ghost cur = bits.remaining();
            let r = Self::apply_row(&mut self.strings, bits, w, fixed, &mut pred, &mut history);
            match r {
                Ok(()) => (),
                Err(e) => {
                    return Err(e);
                },
            }
            i = i + 1;
            proof {
                assert(bits.remaining() =~= s0.skip(s0.len() - bits.remaining().len()));
            }
        }
        Ok(())
    }

    /// Decode one row's fields up to its string.
    #[verifier::rlimit(100)]
    #[verifier::spinoff_prover]
    fn read_row_head(bits: &mut BitReader, w: u8) -> (r: Result<
        (bool, u32, Option<(Option<(u8, u8)>, String)>),
        ParseError,
    >)
        requires
            old(bits).wf(),
            w <= 16,
        ensures
            final(bits).wf(),
            ({
                let head = row_head(old(bits).remaining(), w as int);
                match r {
                    Ok((use_pred, windex, string_in)) => {
                        &&& head matches RowHead::HeadOk {
                            use_pred: hu,
                            index,
                            has_string,
                            partial,
                            suffix,
                            used,
                        }
                        &&& use_pred == head->HeadOk_use_pred
                        &&& windex == head->HeadOk_index
                        &&& (string_in is Some) == head->HeadOk_has_string
                        &&& (match string_in {
                            Some((p, _)) => p,
                            None => None::<(u8, u8)>,
                        }) == head->HeadOk_partial
                        &&& (string_in matches Some((_, st)) ==> st@ == vstd::utf8::decode_utf8(
                            head->HeadOk_suffix,
                        ) && vstd::utf8::valid_utf8(head->HeadOk_suffix)
                            && vstd::utf8::encode_utf8(st@) == head->HeadOk_suffix)
                        &&& 0 <= head->HeadOk_used <= old(bits).remaining().len()
                        &&& final(bits).remaining() == old(bits).remaining().skip(
                            head->HeadOk_used,
                        )
                    },
                    Err(e) => {
                        &&& (head is HeadShort || head is HeadUtf8)
                        &&& (head is HeadShort ==> e matches ParseError::InsufficientBits(_))
                        &&& (head is HeadUtf8 ==> e is Utf8)
                    },
                }
            }),
    {
        let ghost s = old(bits).remaining();
        let use_pred = read_bit(bits)?;
        let ghost iw: int = if use_pred {
            0int
        } else {
            w as int
        };
        let windex: u32 = if use_pred {
            0
        } else {
            let v = read_bits(bits, w)?;
            proof {
                assert(s.skip(1).subrange(0, iw) =~= s.subrange(1, 1 + iw));
                assert(s.skip(1).skip(iw) =~= s.skip(1 + iw));
                crate::bitseq::lemma_bits_val_bound(s.subrange(1, 1 + iw));
                vstd::arithmetic::power2::lemma2_to64();
                if (iw as nat) < 17 {
                    vstd::arithmetic::power2::lemma_pow2_strictly_increases(iw as nat, 17);
                }
            }
            v
        };
        proof {
            if use_pred {
                assert(s.skip(1) =~= s.skip(1 + iw));
                assert(field(s, 1, 1) == 0) by {
                    assert(s.subrange(1, 1) =~= Seq::<bool>::empty());
                }
            }
            if s.len() >= 1 + iw + 1 {
                assert(s.skip(1 + iw)[0] == s[1 + iw]);
                assert(s.skip(1 + iw).skip(1) =~= s.skip(1 + iw + 1));
            }
        }
        let has_string = read_bit(bits)?;
        let ghost o = 1 + iw + 1;
        let string_in: Option<(Option<(u8, u8)>, String)> = if has_string {
            proof {
                if s.len() >= o + 1 {
                    assert(s.skip(o)[0] == s[o]);
                    assert(s.skip(o).skip(1) =~= s.skip(o + 1));
                }
            }
            let has_partial = read_bit(bits)?;
            let ghost pw: int = if has_partial {
                10int
            } else {
                0int
            };
            let partial: Option<(u8, u8)> = if has_partial {
                let hi = read_bits(bits, 5)?;
                proof {
                    assert(s.skip(o + 1).subrange(0, 5) =~= s.subrange(o + 1, o + 6));
                    assert(s.skip(o + 1).skip(5) =~= s.skip(o + 6));
                    crate::bitseq::lemma_bits_val_bound(s.subrange(o + 1, o + 6));
                    vstd::arithmetic::power2::lemma2_to64();
                }
                let matching = read_bits(bits, 5)?;
                proof {
                    assert(s.skip(o + 6).subrange(0, 5) =~= s.subrange(o + 6, o + 11));
                    assert(s.skip(o + 6).skip(5) =~= s.skip(o + 11));
                    crate::bitseq::lemma_bits_val_bound(s.subrange(o + 6, o + 11));
                }
                Some((hi as u8, matching as u8))
            } else {
                None
            };
            proof {
                if !has_partial {
                    assert(s.skip(o + 1) =~= s.skip(o + 1 + pw));
                }
                assert(bits.remaining() == s.skip(o + 1 + pw));
            }
            let suffix = read_string_wrapped(bits)?;
            proof {
                lemma_cstr_len_bound(s.skip(o + 1 + pw));
                let k = cstr_len(s.skip(o + 1 + pw))->Some_0;
                assert(bits.remaining() =~= s.skip(o + 1 + pw + 8 * (k + 1)));
                vstd::utf8::decode_utf8_encode_utf8(cstr_bytes(s.skip(o + 1 + pw)));
            }
            Some((partial, suffix))
        } else {
            None
        };
        Ok((use_pred, windex, string_in))
    }

    /// Run one incremental row: decode it, resolve it against the state, and
    /// write it back.
    #[verifier::rlimit(100)]
    #[verifier::spinoff_prover]
    fn apply_row(
        strings: &mut Vec<(String, Extra)>,
        bits: &mut BitReader,
        w: u8,
        fixed: Option<u8>,
        pred: &mut u32,
        history: &mut Vec<Vec<u8>>,
    ) -> (r: Result<(), ParseError>)
        requires
            old(bits).wf(),
            w <= 16,
            *old(pred) <= 0x1ffff,
            old(strings)@.len() <= 0xffff,
            fixed matches Some(b) ==> b <= 32,
            old(history)@.map_values(|v: Vec<u8>| v@).len() <= 32,
        ensures
            final(bits).wf(),
            ({
                let step = row_step(
                    rows_view(old(strings)@),
                    old(bits).remaining(),
                    w as int,
                    fixed,
                    *old(pred) as int,
                    old(history)@.map_values(|v: Vec<u8>| v@),
                );
                match r {
                    Ok(()) => {
                        &&& step matches RowStep::StepOk { rows, pred: p2, hist, used }
                        &&& rows_view(final(strings)@) == step->StepOk_rows
                        &&& *final(pred) as int == step->StepOk_pred
                        &&& final(history)@.map_values(|v: Vec<u8>| v@) == step->StepOk_hist
                        &&& 0 <= step->StepOk_used <= old(bits).remaining().len()
                        &&& final(bits).remaining() == old(bits).remaining().skip(
                            step->StepOk_used,
                        )
                        &&& final(strings)@.len() == old(strings)@.len()
                        &&& step->StepOk_pred <= old(strings)@.len()
                        &&& step->StepOk_hist.len() <= 32
                    },
                    Err(e) => {
                        &&& step matches RowStep::StepFail { err }
                        &&& upd_err_matches(e, step->StepFail_err)
                        &&& *final(strings) == *old(strings)
                    },
                }
            }),
    {
        let ghost s = old(bits).remaining();
        let ghost rows0 = rows_view(strings@);
        let ghost hist0 = history@.map_values(|v: Vec<u8>| v@);
        let (use_pred, windex, string_in) = Self::read_row_head(bits, w)?;
        let ghost head = row_head(s, w as int);
        let ghost used1 = head->HeadOk_used;
        // Resolve the string through the history.
        let resolved: Option<(String, Ghost<Seq<u8>>, Vec<u8>)> = match string_in {
            None => None,
            Some((partial, suffix)) => match partial {
                None => {
                    let bytes = string_bytes(&suffix);
                    proof {
                        assert(bytes@ == head->HeadOk_suffix);
                    }
                    Some((suffix, Ghost(bytes@), bytes))
                },
                Some((hi, matching)) => {
                    if hi as usize >= history.len() {
                        let hl = history.len();
                        let max: u32 = if hl == 0 {
                            0
                        } else {
                            (hl - 1) as u32
                        };
                        return Err(
                            ParseError::OutOfBounds {
                                name: "string_table::HistoryIndex",
                                value: hi as u32,
                                min: 0,
                                max,
                            },
                        );
                    }
                    let hlen = history[hi as usize].len();
                    if matching as usize > hlen {
                        return Err(
                            ParseError::OutOfBounds {
                                name: "string_table::PrefixLength",
                                value: matching as u32,
                                min: 0,
                                max: hlen as u32,
                            },
                        );
                    }
                    let mut full: Vec<u8> = Vec::new();
                    let mut j: usize = 0;
                    while j < matching as usize
                        invariant
                            (hi as int) < history@.len(),
                            j <= matching,
                            matching <= history@[hi as int]@.len(),
                            full@ == history@[hi as int]@.take(j as int),
                        decreases matching as int - j,
                    {
                        let b = history[hi as usize][j];
                        full.push(b);
                        j = j + 1;
                        proof {
                            assert(full@ =~= history@[hi as int]@.take(j as int));
                        }
                    }
                    let sb = string_bytes(&suffix);
                    proof {
                        assert(sb@ == head->HeadOk_suffix);
                    }
                    let mut k: usize = 0;
                    let ghost pre = full@;
                    while k < sb.len()
                        invariant
                            k <= sb@.len(),
                            full@ == pre + sb@.take(k as int),
                        decreases sb@.len() - k,
                    {
                        let b = sb[k];
                        full.push(b);
                        k = k + 1;
                        proof {
                            assert(full@ =~= pre + sb@.take(k as int));
                        }
                    }
                    proof {
                        assert(sb@.take(sb@.len() as int) =~= sb@);
                        assert(hist0[hi as int] == history@[hi as int]@);
                    }
                    let ghost fullv = full@;
                    let st = match crate::bits::string_from_utf8(clone_bytes(&full)) {
                        Some(st) => st,
                        None => {
                            return Err(ParseError::Utf8);
                        },
                    };
                    Some((st, Ghost(fullv), full))
                },
            },
        };
        // Remember the inserted string.
        let row_string: Option<(String, Ghost<Seq<u8>>)> = match resolved {
            None => None,
            Some((st, b, full)) => {
                push_history(history, full);
                Some((st, b))
            },
        };
        let ghost resolvedv = resolve_row(
            *old(pred) as int,
            hist0,
            use_pred,
            windex,
            head->HeadOk_has_string,
            head->HeadOk_partial,
            head->HeadOk_suffix,
        );
        proof {
            assert(resolvedv matches Ok(t));
            assert(history@.map_values(|v: Vec<u8>| v@) == resolvedv->Ok_0.1);
        }
        // Read the extra data.
        let ghost s2 = s.skip(used1);
        proof {
            assert(bits.remaining() == s2);
        }
        let has_extra = read_bit(bits)?;
        let extra: Extra = if has_extra {
            proof {
                assert(s2.skip(1) =~= bits.remaining());
            }
            match fixed {
                Some(b) => {
                    let data = read_bits(bits, b)?;
                    proof {
                        assert(s2.skip(1).subrange(0, b as int) =~= s2.subrange(1, 1 + b as int));
                        crate::bitseq::lemma_bits_val_bound(s2.subrange(1, 1 + b as int));
                        vstd::arithmetic::power2::lemma2_to64();
                        if (b as nat) < 17 {
                            vstd::arithmetic::power2::lemma_pow2_strictly_increases(b as nat, 17);
                        }
                        assert(s2.skip(1).skip(b as int) =~= s2.skip(1 + b as int));
                    }
                    Extra::Bits { count: b, data: data as u16 }
                },
                None => {
                    let blen = read_bits(bits, 14)?;
                    proof {
                        assert(s2.skip(1).subrange(0, 14) =~= s2.subrange(1, 15));
                        assert(s2.skip(1).skip(14) =~= s2.skip(15));
                    }
                    let data = match bits.read_u8_array(blen as usize) {
                        Ok(d) => d,
                        Err(e) => {
                            return Err(ParseError::InsufficientBits(e));
                        },
                    };
                    proof {
                        assert(data@ =~= Seq::new(
                            field(s2, 1, 15),
                            |j: int| crate::bitseq::group8(s2.skip(15), j),
                        ));
                        assert(s2.skip(15).skip(8 * blen as int) =~= s2.skip(15 + 8 * blen as int));
                    }
                    Extra::Bytes(data)
                },
            }
        } else {
            Extra::Empty
        };
        proof {
            assert(row_extra(s2, fixed) matches Some(d));
            assert(extra.spec_view() == row_extra(s2, fixed)->Some_0.0);
            assert(bits.remaining() == s2.skip(row_extra(s2, fixed)->Some_0.1));
            assert(0 <= row_extra(s2, fixed)->Some_0.1 <= s2.len());
            assert(s2.skip(row_extra(s2, fixed)->Some_0.1) =~= s.skip(
                used1 + row_extra(s2, fixed)->Some_0.1,
            ));
        }
        // Write the row back.
        let row_index: u32 = if use_pred {
            *pred
        } else {
            windex
        };
        if row_index as usize >= strings.len() {
            let sl = strings.len();
            let max: u32 = if sl == 0 {
                0
            } else {
                (sl - 1) as u32
            };
            return Err(
                ParseError::OutOfBounds {
                    name: "string_table::StringIndex",
                    value: row_index,
                    min: 0,
                    max,
                },
            );
        }
        let idx = row_index as usize;
        match row_string {
            Some((st, b)) => {
                let keep = duplicate_extra(&strings[idx].1);
                strings[idx] = (st, keep);
                proof {
                    assert(rows_view(strings@) =~= rows_view(old(strings)@).update(
                        idx as int,
                        (vstd::utf8::decode_utf8(b@), rows_view(old(strings)@)[idx as int].1),
                    ));
                }
            },
            None => (),
        }
        let ghost mid_rows = rows_view(strings@);
        if !matches!(extra, Extra::Empty) {
            let keep = strings[idx].0.clone();
            let ghost ev = extra.spec_view();
            strings[idx] = (keep, extra);
            proof {
                assert(rows_view(strings@) =~= mid_rows.update(
                    idx as int,
                    (mid_rows[idx as int].0, ev),
                ));
            }
        }
        *pred = row_index + 1;
        proof {
            assert(rows_view(strings@) == write_row(
                rows0,
                row_index as int,
                resolvedv->Ok_0.2,
                row_extra(s2, fixed)->Some_0.0,
            ));
        }
        Ok(())
    }
}

/// Decode of one snapshot row: a name, then an optional byte buffer behind a
/// sixteen-bit length. Nothing when the stream runs out or the name is not
/// UTF-8.
pub open spec fn snap_row_decode(s: Seq<bool>) -> Option<((Seq<char>, ExtraV), int)> {
    match cstr_len(s) {
        None => None,
        Some(k) => {
            if !vstd::utf8::valid_utf8(cstr_bytes(s)) {
                None
            } else {
                let name = vstd::utf8::decode_utf8(cstr_bytes(s));
                let o = 8 * (k + 1);
                if !(0 <= o < s.len()) {
                    None
                } else if !s[o] {
                    Some(((name, ExtraV::EmptyV), o + 1))
                } else {
                    let t = s.skip(o + 1);
                    if t.len() < 16 {
                        None
                    } else {
                        let blen = field(t, 0, 16);
                        if t.len() < 16 + 8 * blen {
                            None
                        } else {
                            Some(
                                (
                                    (
                                        name,
                                        ExtraV::BytesV(
                                            Seq::new(
                                                blen,
                                                |j: int|
                                                    crate::bitseq::group8(t.skip(16), j),
                                            ),
                                        ),
                                    ),
                                    o + 17 + 8 * blen as int,
                                ),
                            )
                        }
                    }
                }
            }
        },
    }
}

/// Decode of `n` snapshot rows laid end to end.
pub open spec fn snap_rows_decode(s: Seq<bool>, n: int) -> Option<(Seq<(Seq<char>, ExtraV)>, int)>
    decreases n,
{
    if n <= 0 {
        Some((Seq::empty(), 0int))
    } else {
        match snap_row_decode(s) {
            None => None,
            Some((row, c)) => {
                if !(0 <= c <= s.len()) {
                    None
                } else {
                    match snap_rows_decode(s.skip(c), n - 1) {
                        None => None,
                        Some((rest, c2)) => Some((Seq::empty().push(row) + rest, c + c2)),
                    }
                }
            },
        }
    }
}

/// Decode of one full table snapshot: a sixteen-bit row count, then the rows.
pub open spec fn snapshot_decode(s: Seq<bool>) -> Option<(Seq<(Seq<char>, ExtraV)>, int)> {
    if s.len() < 16 {
        None
    } else {
        match snap_rows_decode(s.skip(16), field(s, 0, 16) as int) {
            None => None,
            Some((rows, c)) => Some((rows, 16 + c)),
        }
    }
}

impl StringTable {
    /// Decode a full snapshot into a table without a known capacity.
    pub fn parse(bits: &mut BitReader) -> (r: Result<StringTable, ParseError>)
        requires
            old(bits).wf(),
        ensures
            final(bits).wf(),
            match r {
                Ok(t) => {
                    &&& snapshot_decode(old(bits).remaining()) matches Some(d)
                    &&& rows_view(t.strings@) == snapshot_decode(old(bits).remaining())->Some_0.0
                    &&& t.spec_capacity() is None
                    &&& t.spec_fixed_extra_size() is None
                    &&& 0 <= snapshot_decode(old(bits).remaining())->Some_0.1 <= old(
                        bits,
                    ).remaining().len()
                    &&& final(bits).remaining() == old(bits).remaining().skip(
                        snapshot_decode(old(bits).remaining())->Some_0.1,
                    )
                },
                Err(e) => {
                    &&& snapshot_decode(old(bits).remaining()) is None
                    &&& (e matches ParseError::InsufficientBits(_) || e is Utf8)
                },
            },
    {
        let ghost s = old(bits).remaining();
        let count = read_bits(bits, 16)?;
        proof {
            assert(s.take(16) =~= s.subrange(0, 16));
            crate::bitseq::lemma_bits_val_bound(s.subrange(0, 16));
            vstd::arithmetic::power2::lemma2_to64();
        }
        let ghost body = s.skip(16);
        let mut strings: Vec<(String, Extra)> = Vec::new();
        let mut i: u32 = 0;
        proof {
            assert(body.skip(0) =~= body);
            assert(rows_view(strings@) =~= Seq::<(Seq<char>, ExtraV)>::empty());
        }
        while i < count
            invariant
                bits.wf(),
                i <= count,
                count < 0x10000,
                s == old(bits).remaining(),
                s.len() >= 16,
                count as nat == field(s, 0, 16),
                body == s.skip(16),
                bits.remaining() == body.skip(body.len() - bits.remaining().len()),
                bits.remaining().len() <= body.len(),
                snap_rows_decode(body, count as int) == (match snap_rows_decode(
                    bits.remaining(),
                    count - i,
                ) {
                    Some((v2, c2)) => Some(
                        (
                            rows_view(strings@) + v2,
                            body.len() - bits.remaining().len() + c2,
                        ),
                    ),
                    None => None::<(Seq<(Seq<char>, ExtraV)>, int)>,
                }),
            decreases count - i,
        {
            let ghost cur = bits.remaining();
            let row = match Self::parse_snapshot_row(bits) {
                Ok(row) => row,
                Err(e) => {
                    proof {
                        assert(snap_rows_decode(cur, count - i) is None);
                    }
                    return Err(e);
                },
            };
            let ghost c = snap_row_decode(cur)->Some_0.1;
            proof {
                assert(bits.remaining() =~= body.skip(body.len() - cur.len() + c));
            }
            let ghost prev = strings@;
            strings.push(row);
            i = i + 1;
            proof {
                assert(rows_view(strings@) =~= rows_view(prev).push(
                    (strings@.last().0@, strings@.last().1.spec_view()),
                ));
                match snap_rows_decode(bits.remaining(), count - i) {
                    Some((v2, c2)) => {
                        assert(rows_view(prev) + (Seq::empty().push(
                            snap_row_decode(cur)->Some_0.0,
                        ) + v2) =~= rows_view(strings@) + v2);
                    },
                    None => {},
                }
            }
        }
        proof {
            assert(rows_view(strings@) + Seq::<(Seq<char>, ExtraV)>::empty() =~= rows_view(
                strings@,
            ));
        }
        Ok(StringTable { strings, capacity: None, fixed_extra_size: None })
    }

    /// Decode one snapshot row.
    #[verifier::rlimit(100)]
    #[verifier::spinoff_prover]
    fn parse_snapshot_row(bits: &mut BitReader) -> (r: Result<(String, Extra), ParseError>)
        requires
            old(bits).wf(),
        ensures
            final(bits).wf(),
            match r {
                Ok(row) => {
                    &&& snap_row_decode(old(bits).remaining()) matches Some(d)
                    &&& (row.0@, row.1.spec_view()) == snap_row_decode(
                        old(bits).remaining(),
                    )->Some_0.0
                    &&& 0 <= snap_row_decode(old(bits).remaining())->Some_0.1 <= old(
                        bits,
                    ).remaining().len()
                    &&& final(bits).remaining() == old(bits).remaining().skip(
                        snap_row_decode(old(bits).remaining())->Some_0.1,
                    )
                },
                Err(e) => {
                    &&& snap_row_decode(old(bits).remaining()) is None
                    &&& (e matches ParseError::InsufficientBits(_) || e is Utf8)
                },
            },
    {
        let ghost s = old(bits).remaining();
        let name = read_string_wrapped(bits)?;
        let ghost o = 8 * (cstr_len(s)->Some_0 + 1);
        proof {
            lemma_cstr_len_bound(s);
            if s.len() > o {
                assert(s.skip(o)[0] == s[o]);
                assert(s.skip(o).skip(1) =~= s.skip(o + 1));
            }
        }
        let has_extra = read_bit(bits)?;
        let ghost t = s.skip(o + 1);
        let extra: Extra = if has_extra {
            let blen = read_bits(bits, 16)?;
            proof {
                assert(t.take(16) =~= t.subrange(0, 16));
            }
            let data = match bits.read_u8_array(blen as usize) {
                Ok(d) => d,
                Err(e) => {
                    return Err(ParseError::InsufficientBits(e));
                },
            };
            proof {
                assert(data@ =~= Seq::new(
                    field(t, 0, 16),
                    |j: int| crate::bitseq::group8(t.skip(16), j),
                ));
                assert(t.skip(16).skip(8 * blen as int) =~= s.skip(o + 17 + 8 * blen as int));
            }
            Extra::Bytes(data)
        } else {
            Extra::Empty
        };
        Ok((name, extra))
    }
}

/// A full table snapshot and its optional client-side companion.
#[derive(Debug, Clone)]
pub struct StringTablePair {
    /// Primary string table.
    pub primary: StringTable,
    /// A client-side companion table, when the frame carries one.
    pub client: Option<StringTable>,
}

/// Decode of a snapshot pair: a snapshot, a presence bit, and a second
/// snapshot when flagged.
pub open spec fn pair_decode(s: Seq<bool>) -> Option<
    ((Seq<(Seq<char>, ExtraV)>, Option<Seq<(Seq<char>, ExtraV)>>), int),
> {
    match snapshot_decode(s) {
        None => None,
        Some((primary, c)) => {
            if !(0 <= c < s.len()) {
                None
            } else if !s[c] {
                Some(((primary, None::<Seq<(Seq<char>, ExtraV)>>), c + 1))
            } else {
                match snapshot_decode(s.skip(c + 1)) {
                    None => None,
                    Some((client, c2)) => Some(((primary, Some(client)), c + 1 + c2)),
                }
            }
        },
    }
}

impl StringTablePair {
    /// Decode a snapshot pair.
    pub fn parse(bits: &mut BitReader) -> (r: Result<StringTablePair, ParseError>)
        requires
            old(bits).wf(),
        ensures
            final(bits).wf(),
            match r {
                Ok(p) => {
                    &&& pair_decode(old(bits).remaining()) matches Some(d)
                    &&& 0 <= pair_decode(old(bits).remaining())->Some_0.1 <= old(
                        bits,
                    ).remaining().len()
                    &&& rows_view(p.primary.strings@) == pair_decode(
                        old(bits).remaining(),
                    )->Some_0.0.0
                    &&& (match p.client {
                        Some(c) => pair_decode(old(bits).remaining())->Some_0.0.1 == Some(
                            rows_view(c.strings@),
                        ),
                        None => pair_decode(old(bits).remaining())->Some_0.0.1 is None,
                    })
                    &&& final(bits).remaining() == old(bits).remaining().skip(
                        pair_decode(old(bits).remaining())->Some_0.1,
                    )
                },
                Err(e) => {
                    &&& pair_decode(old(bits).remaining()) is None
                    &&& (e matches ParseError::InsufficientBits(_) || e is Utf8)
                },
            },
    {
        let ghost s = old(bits).remaining();
        let primary = StringTable::parse(bits)?;
        let ghost c = snapshot_decode(s)->Some_0.1;
        proof {
            if s.len() > c {
                assert(s.skip(c)[0] == s[c]);
                assert(s.skip(c).skip(1) =~= s.skip(c + 1));
            }
        }
        let has_client = read_bit(bits)?;
        let client: Option<StringTable> = if has_client {
            let t = StringTable::parse(bits)?;
            proof {
                let c2 = snapshot_decode(s.skip(c + 1))->Some_0.1;
                assert(s.skip(c + 1).skip(c2) =~= s.skip(c + 1 + c2));
            }
            Some(t)
        } else {
            None
        };
        Ok(StringTablePair { primary, client })
    }
}

/// The full string-table dump a string-tables frame carries: named snapshot
/// pairs in file order.
#[derive(Debug, Clone)]
pub struct StringTables(pub Vec<(String, StringTablePair)>);

/// A named snapshot pair as mathematical values: the name, the primary rows,
/// and the client rows when present.
pub open spec fn pair_view(p: (String, StringTablePair)) -> (
    Seq<char>,
    (Seq<(Seq<char>, ExtraV)>, Option<Seq<(Seq<char>, ExtraV)>>),
) {
    (
        p.0@,
        (
            rows_view(p.1.primary.strings@),
            match p.1.client {
                Some(c) => Some(rows_view(c.strings@)),
                None => None,
            },
        ),
    )
}

impl StringTables {
    /// The dump's tables as mathematical values, in file order.
    pub open spec fn spec_view(self) -> Seq<
        (Seq<char>, (Seq<(Seq<char>, ExtraV)>, Option<Seq<(Seq<char>, ExtraV)>>)),
    > {
        self.0@.map_values(|p: (String, StringTablePair)| pair_view(p))
    }
}

/// Decode of `n` named snapshot pairs laid end to end: the decoded tables
/// and the bits consumed.
pub open spec fn tables_decode(s: Seq<bool>, n: int) -> Option<
    (Seq<(Seq<char>, (Seq<(Seq<char>, ExtraV)>, Option<Seq<(Seq<char>, ExtraV)>>))>, int),
>
    decreases n,
{
    if n <= 0 {
        Some((Seq::empty(), 0int))
    } else {
        match cstr_len(s) {
            None => None,
            Some(k) => {
                if !vstd::utf8::valid_utf8(cstr_bytes(s)) {
                    None
                } else {
                    let name = vstd::utf8::decode_utf8(cstr_bytes(s));
                    let o = 8 * (k + 1);
                    if !(0 <= o <= s.len()) {
                        None
                    } else {
                        match pair_decode(s.skip(o)) {
                            None => None,
                            Some((pv, c)) => {
                                if !(0 <= c <= s.len() - o) {
                                    None
                                } else {
                                    match tables_decode(s.skip(o + c), n - 1) {
                                        None => None,
                                        Some((rest, c2)) => Some(
                                            (Seq::empty().push((name, pv)) + rest, o + c + c2),
                                        ),
                                    }
                                }
                            },
                        }
                    }
                }
            },
        }
    }
}

impl StringTables {
    /// Decode a full string-table dump: a table count, then that many named
    /// snapshot pairs.
    #[verifier::rlimit(100)]
    #[verifier::spinoff_prover]
    pub fn parse(bits: &mut BitReader) -> (r: Result<StringTables, ParseError>)
        requires
            old(bits).wf(),
        ensures
            final(bits).wf(),
            match r {
                Ok(tables) => {
                    &&& old(bits).remaining().len() >= 8
                    &&& tables.0@.len() == field(old(bits).remaining(), 0, 8)
                    &&& tables_decode(
                        old(bits).remaining().skip(8),
                        field(old(bits).remaining(), 0, 8) as int,
                    ) matches Some(d)
                    &&& tables.spec_view() == tables_decode(
                        old(bits).remaining().skip(8),
                        field(old(bits).remaining(), 0, 8) as int,
                    )->Some_0.0
                    &&& 0 <= tables_decode(
                        old(bits).remaining().skip(8),
                        field(old(bits).remaining(), 0, 8) as int,
                    )->Some_0.1 <= old(bits).remaining().len() - 8
                    &&& final(bits).remaining() == old(bits).remaining().skip(
                        8 + tables_decode(
                            old(bits).remaining().skip(8),
                            field(old(bits).remaining(), 0, 8) as int,
                        )->Some_0.1,
                    )
                },
                Err(e) => {
                    &&& !(old(bits).remaining().len() >= 8 && tables_decode(
                        old(bits).remaining().skip(8),
                        field(old(bits).remaining(), 0, 8) as int,
                    ) is Some)
                    &&& (e matches ParseError::InsufficientBits(_) || e is Utf8)
                },
            },
    {
        let ghost s = old(bits).remaining();
        let count = read_bits(bits, 8)?;
        proof {
            assert(s.take(8) =~= s.subrange(0, 8));
            crate::bitseq::lemma_bits_val_bound(s.subrange(0, 8));
            vstd::arithmetic::power2::lemma2_to64();
        }
        let ghost body = s.skip(8);
        let mut tables: Vec<(String, StringTablePair)> = Vec::new();
        let mut i: u32 = 0;
        proof {
            assert(body.skip(0) =~= body);
            assert(tables@.map_values(|p: (String, StringTablePair)| pair_view(p)) =~= Seq::<
                (Seq<char>, (Seq<(Seq<char>, ExtraV)>, Option<Seq<(Seq<char>, ExtraV)>>)),
            >::empty());
        }
        while i < count
            invariant
                bits.wf(),
                i <= count,
                count < 0x100,
                s == old(bits).remaining(),
                s.len() >= 8,
                count as nat == field(s, 0, 8),
                body == s.skip(8),
                tables@.len() == i,
                bits.remaining() == body.skip(body.len() - bits.remaining().len()),
                bits.remaining().len() <= body.len(),
                tables_decode(body, count as int) == (match tables_decode(
                    bits.remaining(),
                    count - i,
                ) {
                    Some((v2, c2)) => Some(
                        (
                            tables@.map_values(|p: (String, StringTablePair)| pair_view(p)) + v2,
                            body.len() - bits.remaining().len() + c2,
                        ),
                    ),
                    None => None::<
                        (
                            Seq<
                                (
                                    Seq<char>,
                                    (
                                        Seq<(Seq<char>, ExtraV)>,
                                        Option<Seq<(Seq<char>, ExtraV)>>,
                                    ),
                                ),
                            >,
                            int,
                        ),
                    >,
                }),
            decreases count - i,
        {
            let ghost cur = bits.remaining();
            let name = match read_string_wrapped(bits) {
                Ok(name) => name,
                Err(e) => {
                    proof {
                        assert(tables_decode(cur, count - i) is None);
                    }
                    return Err(e);
                },
            };
            let ghost o = 8 * (cstr_len(cur)->Some_0 + 1);
            proof {
                lemma_cstr_len_bound(cur);
            }
            let pair = match StringTablePair::parse(bits) {
                Ok(pair) => pair,
                Err(e) => {
                    proof {
                        assert(tables_decode(cur, count - i) is None);
                    }
                    return Err(e);
                },
            };
            let ghost c = pair_decode(cur.skip(o))->Some_0.1;
            proof {
                assert(cur.skip(o).skip(c) =~= cur.skip(o + c));
                assert(bits.remaining() =~= body.skip(body.len() - cur.len() + o + c));
            }
            let ghost prev = tables@;
            tables.push((name, pair));
            i = i + 1;
            proof {
                let m = |p: (String, StringTablePair)| pair_view(p);
                assert(tables@.map_values(m) =~= prev.map_values(m).push(
                    pair_view(tables@.last()),
                ));
                match tables_decode(bits.remaining(), count - i) {
                    Some((v2, c2)) => {
                        assert(prev.map_values(m) + (Seq::empty().push(
                            pair_view(tables@.last()),
                        ) + v2) =~= tables@.map_values(m) + v2);
                    },
                    None => {},
                }
            }
        }
        proof {
            assert(tables@.map_values(|p: (String, StringTablePair)| pair_view(p)) + Seq::<
                (Seq<char>, (Seq<(Seq<char>, ExtraV)>, Option<Seq<(Seq<char>, ExtraV)>>)),
            >::empty() =~= tables@.map_values(|p: (String, StringTablePair)| pair_view(p)));
        }
        Ok(StringTables(tables))
    }
}

/// A copy of a row's extra data.
fn duplicate_extra(e: &Extra) -> (r: Extra)
    ensures
        r.spec_view() == e.spec_view(),
{
    match e {
        Extra::Bits { count, data } => Extra::Bits { count: *count, data: *data },
        Extra::Bytes(v) => Extra::Bytes(clone_bytes(v)),
        Extra::Empty => Extra::Empty,
    }
}

/// Rows of a freshly created table: empty names and no extra data.
pub open spec fn empty_rows(n: int) -> Seq<(Seq<char>, ExtraV)> {
    Seq::new(n as nat, |i: int| (Seq::<char>::empty(), ExtraV::EmptyV))
}

/// A four-byte magic read little-endian and reversed into its on-wire
/// big-endian value.
pub open spec fn spec_swap32(x: u32) -> u32 {
    (x >> 24) | ((x >> 8) & 0xFF00u32) | ((x << 8) & 0xFF0000u32) | (x << 24)
}

/// What the Snappy codec yields for the given compressed bytes, when it
/// accepts them.
pub uninterp spec fn snappy_decode(compressed: Seq<u8>) -> Option<Seq<u8>>;

/// Relies on snap::raw::Decoder::decompress_vec: it fails on invalid data,
/// the result depends on the compressed bytes alone, and a successful result
/// is shorter than two to the thirty-two.
#[verifier::external_body]
fn snappy_decompress(compressed: &Vec<u8>) -> (r: Option<Vec<u8>>)
    ensures
        r is Some <==> snappy_decode(compressed@) is Some,
        r matches Some(v) ==> v@ == snappy_decode(compressed@)->Some_0 && v@.len()
            < 0x1_0000_0000,
{
    let mut decoder = snap::raw::Decoder::new();
    decoder.decompress_vec(compressed.as_slice()).ok()
}

/// The Snappy and LZSS compression magics, as on-wire big-endian values.
#[derive(Copy, Clone, Eq, PartialEq, Debug, Structural)]
pub enum CompressionType {
    Snappy,
    Lzss,
}

impl CompressionType {
    /// The compression a magic value denotes.
    pub open spec fn spec_from_id(id: u32) -> Result<CompressionType, u32> {
        if id == 0x534E4150 {
            Ok(CompressionType::Snappy)
        } else if id == 0x4C5A5353 {
            Ok(CompressionType::Lzss)
        } else {
            Err(id)
        }
    }

    fn from_id(id: u32) -> (r: Result<Self, u32>)
        ensures
            r == Self::spec_from_id(id),
    {
        if id == 0x534E4150 {
            Ok(CompressionType::Snappy)
        } else if id == 0x4C5A5353 {
            Ok(CompressionType::Lzss)
        } else {
            Err(id)
        }
    }
}

/// A named table built from a create-string-table message.
#[derive(Debug)]
pub struct NewStringTable {
    pub name: String,
    pub table: StringTable,
}

/// The compressed byte run of a compressed create payload: the bytes after
/// the two size words and the magic.
pub open spec fn cst_compressed_bytes(inner: Seq<bool>) -> Seq<u8> {
    Seq::new(
        (field(inner, 32, 64) - 4) as nat,
        |j: int| crate::bitseq::group8(inner.skip(96), j),
    )
}

/// Outcome of decoding a create message's initial rows: the table rows, or
/// the reason the payload was rejected.
pub open spec fn from_packet_rows(packet: crate::packets::CreateStringTable) -> UpdOutcome {
    let ent = packet.entries as int;
    let w = ceil_log2(packet.max_entries as nat) as int;
    let fixed = match packet.fixed_userdata_size {
        Some((_, b)) => Some(b),
        None => None::<u8>,
    };
    let inner = crate::bits::pad_to_byte(packet.data@);
    if !packet.compressed {
        upd_rows(empty_rows(ent), inner, ent, w, fixed, 0, Seq::empty())
    } else {
        let decompressed = snappy_decode(cst_compressed_bytes(inner));
        upd_rows(
            empty_rows(ent),
            crate::bitseq::stream_bits(decompressed->Some_0),
            ent,
            w,
            fixed,
            0,
            Seq::empty(),
        )
    }
}

impl NewStringTable {
    /// Build the named table a create message declares, decompressing its
    /// payload when flagged, and running the initial rows against a fresh
    /// table. An unsupported LZSS payload yields the empty table.
    #[verifier::rlimit(100)]
    #[verifier::spinoff_prover]
    pub fn from_packet(packet: crate::packets::CreateStringTable) -> (r: Result<
        NewStringTable,
        ParseError,
    >)
        requires
            packet.data.wf(),
        ensures
            ({
                let ent = packet.entries as int;
                let inner = crate::bits::pad_to_byte(packet.data@);
                let csize = field(inner, 32, 64);
                let magic = spec_swap32(field(inner, 64, 96) as u32);
                let bytes_fit = 96 + 8 * (csize - 4) <= inner.len();
                let ok_shape = packet.max_entries != 0 && packet.entries <= packet.max_entries
                    && (packet.fixed_userdata_size matches Some((_, b)) ==> b <= 32);
                match r {
                    Ok(t) => {
                        &&& ok_shape
                        &&& t.name == packet.name
                        &&& t.table.spec_capacity() == Some(packet.max_entries as usize)
                        &&& t.table.spec_fixed_extra_size() == (match packet.fixed_userdata_size {
                            Some((_, b)) => Some(b),
                            None => None::<u8>,
                        })
                        &&& if packet.compressed {
                            &&& inner.len() >= 96
                            &&& csize >= 4
                            &&& if magic == 0x4C5A5353 {
                                rows_view(t.table.strings@) == empty_rows(ent)
                            } else {
                                &&& magic == 0x534E4150
                                &&& bytes_fit
                                &&& from_packet_rows(packet) matches UpdOutcome::Done { .. }
                                &&& rows_view(t.table.strings@) == from_packet_rows(
                                    packet,
                                )->Done_rows
                            }
                        } else {
                            &&& from_packet_rows(packet) matches UpdOutcome::Done { .. }
                            &&& rows_view(t.table.strings@) == from_packet_rows(packet)->Done_rows
                        }
                    },
                    Err(e) => {
                        &&& (packet.max_entries == 0 ==> e matches ParseError::Unsupported { .. })
                        &&& (packet.max_entries != 0 && packet.entries > packet.max_entries ==> e
                            matches ParseError::OutOfBounds { .. })
                        &&& (packet.max_entries != 0 && packet.entries <= packet.max_entries && !(
                        packet.fixed_userdata_size matches Some((_, b)) ==> b <= 32) ==> e matches
                            ParseError::Unsupported { .. })
                        &&& (ok_shape ==> if !packet.compressed {
                            &&& from_packet_rows(packet) matches UpdOutcome::Fail { .. }
                            &&& upd_err_matches(e, from_packet_rows(packet)->Fail_err)
                        } else if inner.len() < 64 {
                            e matches ParseError::InsufficientBits(_)
                        } else if csize < 4 {
                            e == ParseError::Decompression(
                                crate::parse::DecompressionError::CompressedSizeTooSmall,
                            )
                        } else if inner.len() < 96 {
                            e matches ParseError::InsufficientBits(_)
                        } else if magic != 0x534E4150 && magic != 0x4C5A5353 {
                            e == ParseError::Decompression(
                                crate::parse::DecompressionError::BadCompressionType(magic),
                            )
                        } else if !bytes_fit {
                            e matches ParseError::InsufficientBits(_)
                        } else if magic == 0x4C5A5353 {
                            false
                        } else if snappy_decode(cst_compressed_bytes(inner)) is None
                            || snappy_decode(cst_compressed_bytes(inner))->Some_0.len()
                            > usize::MAX / 8 - 8 {
                            e == ParseError::Decompression(
                                crate::parse::DecompressionError::Snappy,
                            )
                        } else {
                            &&& from_packet_rows(packet) matches UpdOutcome::Fail { .. }
                            &&& upd_err_matches(e, from_packet_rows(packet)->Fail_err)
                        })
                    },
                }
            }),
    {
        if packet.max_entries == 0 {
            return Err(ParseError::Unsupported { name: "CreateStringTable" });
        }
        if packet.entries > packet.max_entries {
            return Err(
                ParseError::OutOfBounds {
                    name: "string_table::Entries",
                    value: packet.entries as u32,
                    min: 0,
                    max: packet.max_entries as u32,
                },
            );
        }
        let fixed: Option<u8> = match packet.fixed_userdata_size {
            Some((_, b)) => Some(b),
            None => None,
        };
        match fixed {
            Some(b) => {
                if b > 32 {
                    return Err(ParseError::Unsupported { name: "CreateStringTable" });
                }
            },
            None => (),
        }
        let mut table = StringTable::create(
            packet.entries as usize,
            packet.max_entries as usize,
            fixed,
        );
        proof {
            assert(rows_view(table.strings@) =~= empty_rows(packet.entries as int));
        }
        let mut bits = packet.data.reader();
        proof {
            crate::bits::lemma_reader_of_blob(&packet.data, &bits);
        }
        let ghost inner = bits.remaining();
        if packet.compressed {
            let _uncompressed_size = match bits.read_u32() {
                Ok(v) => v,
                Err(e) => {
                    return Err(ParseError::InsufficientBits(e));
                },
            };
            let compressed_size = match bits.read_u32() {
                Ok(v) => v,
                Err(e) => {
                    return Err(ParseError::InsufficientBits(e));
                },
            };
            proof {
                assert(inner.skip(32).take(32) =~= inner.subrange(32, 64));
                assert(inner.skip(32).skip(32) =~= inner.skip(64));
            }
            if compressed_size < 4 {
                return Err(
                    ParseError::Decompression(
                        crate::parse::DecompressionError::CompressedSizeTooSmall,
                    ),
                );
            }
            let magic_le = match bits.read_u32() {
                Ok(v) => v,
                Err(e) => {
                    return Err(ParseError::InsufficientBits(e));
                },
            };
            proof {
                assert(inner.skip(64).take(32) =~= inner.subrange(64, 96));
                assert(inner.skip(64).skip(32) =~= inner.skip(96));
            }
            let magic = (magic_le >> 24u32) | ((magic_le >> 8u32) & 0xFF00) | ((magic_le
                << 8u32) & 0xFF0000) | (magic_le << 24u32);
            let compression = match CompressionType::from_id(magic) {
                Ok(c) => c,
                Err(id) => {
                    return Err(
                        ParseError::Decompression(
                            crate::parse::DecompressionError::BadCompressionType(id),
                        ),
                    );
                },
            };
            let compressed = match bits.read_u8_array((compressed_size - 4) as usize) {
                Ok(v) => v,
                Err(e) => {
                    return Err(ParseError::InsufficientBits(e));
                },
            };
            match compression {
                CompressionType::Lzss => Ok(NewStringTable { name: packet.name, table }),
                CompressionType::Snappy => {
                    let decompressed = match snappy_decompress(&compressed) {
                        Some(v) => v,
                        None => {
                            return Err(
                                ParseError::Decompression(
                                    crate::parse::DecompressionError::Snappy,
                                ),
                            );
                        },
                    };
                    if decompressed.len() > usize::MAX / 8 - 8 {
                        return Err(
                            ParseError::Decompression(crate::parse::DecompressionError::Snappy),
                        );
                    }
                    let mut inner_bits = crate::bits::BitReader::new(decompressed.as_slice());
                    match table.update(&mut inner_bits, packet.entries) {
                        Ok(()) => Ok(NewStringTable { name: packet.name, table }),
                        Err(e) => Err(e),
                    }
                },
            }
        } else {
            match table.update(&mut bits, packet.entries) {
                Ok(()) => Ok(NewStringTable { name: packet.name, table }),
                Err(e) => Err(e),
            }
        }
    }
}

/// Insert one string into the history ring, evicting the oldest beyond
/// thirty-two.
fn push_history(history: &mut Vec<Vec<u8>>, full: Vec<u8>)
    requires
        old(history)@.map_values(|v: Vec<u8>| v@).len() <= 32,
    ensures
        final(history)@.map_values(|v: Vec<u8>| v@) == hist_push(
            old(history)@.map_values(|v: Vec<u8>| v@),
            full@,
        ),
        final(history)@.len() == if old(history)@.len() < 32 {
            old(history)@.len() + 1
        } else {
            32
        },
{
    let ghost h0 = history@.map_values(|v: Vec<u8>| v@);
    if history.len() >= 32 {
        history.remove(0);
        proof {
            assert(history@.map_values(|v: Vec<u8>| v@) =~= h0.skip(1));
            assert(h0.skip(h0.len() - 31) =~= h0.skip(1));
        }
    }
    history.push(full);
    proof {
        if h0.len() >= 32 {
            assert(history@.map_values(|v: Vec<u8>| v@) =~= h0.skip(h0.len() - 31).push(full@));
        } else {
            assert(history@.map_values(|v: Vec<u8>| v@) =~= h0.push(full@));
        }
    }
}

/// Read one bit, wrapping the underflow error.
fn read_bit(bits: &mut BitReader) -> (r: Result<bool, ParseError>)
    requires
        old(bits).wf(),
    ensures
        final(bits).wf(),
        match r {
            Ok(b) => {
                &&& old(bits).remaining().len() >= 1
                &&& b == old(bits).remaining()[0]
                &&& final(bits).remaining() == old(bits).remaining().skip(1)
            },
            Err(e) => {
                &&& *final(bits) == *old(bits)
                &&& old(bits).remaining().len() == 0
                &&& e matches ParseError::InsufficientBits(_)
            },
        },
{
    match bits.read_bit() {
        Ok(b) => Ok(b),
        Err(e) => Err(ParseError::InsufficientBits(e)),
    }
}

/// Read `count` bits, wrapping the underflow error.
fn read_bits(bits: &mut BitReader, count: u8) -> (r: Result<u32, ParseError>)
    requires
        old(bits).wf(),
        count <= 32,
    ensures
        final(bits).wf(),
        match r {
            Ok(v) => {
                &&& count as int <= old(bits).remaining().len()
                &&& v as nat == field(old(bits).remaining(), 0, count as int)
                &&& final(bits).remaining() == old(bits).remaining().skip(count as int)
            },
            Err(e) => {
                &&& *final(bits) == *old(bits)
                &&& count as int > old(bits).remaining().len()
                &&& e matches ParseError::InsufficientBits(_)
            },
        },
{
    proof {
        assert(old(bits).remaining().take(count as int) =~= old(bits).remaining().subrange(
            0,
            count as int,
        ));
    }
    match bits.read_bits(count) {
        Ok(v) => Ok(v),
        Err(e) => Err(ParseError::InsufficientBits(e)),
    }
}

/// Read a null-terminated UTF-8 string, wrapping the errors.
fn read_string_wrapped(bits: &mut BitReader) -> (r: Result<String, ParseError>)
    requires
        old(bits).wf(),
    ensures
        final(bits).wf(),
        ({
            let s = old(bits).remaining();
            match r {
                Ok(st) => match cstr_len(s) {
                    Some(k) => {
                        &&& vstd::utf8::valid_utf8(cstr_bytes(s))
                        &&& st@ == vstd::utf8::decode_utf8(cstr_bytes(s))
                        &&& final(bits).remaining() == s.skip(8 * (k + 1))
                    },
                    None => false,
                },
                Err(e) => {
                    &&& !(cstr_len(s) is Some && vstd::utf8::valid_utf8(cstr_bytes(s)))
                    &&& (cstr_len(s) is None ==> e matches ParseError::InsufficientBits(_))
                    &&& (cstr_len(s) is Some ==> e is Utf8)
                },
            }
        }),
{
    match bits.read_string() {
        Ok(st) => Ok(st),
        Err(crate::bits::ReadStringError::Utf8) => Err(ParseError::Utf8),
        Err(crate::bits::ReadStringError::InsufficientBits(e)) => Err(
            ParseError::InsufficientBits(e),
        ),
    }
}

/// The bytes of a string, as an owned buffer.
fn string_bytes(s: &String) -> (r: Vec<u8>)
    ensures
        r@ == vstd::utf8::encode_utf8(s@),
{
    let slice = s.as_str().as_bytes();
    vstd::slice::slice_to_vec(slice)
}

/// Copy a byte buffer.
fn clone_bytes(v: &Vec<u8>) -> (r: Vec<u8>)
    ensures
        r@ == v@,
{
    let mut out: Vec<u8> = Vec::new();
    let mut i: usize = 0;
    while i < v.len()
        invariant
            i <= v@.len(),
            out@ == v@.take(i as int),
        decreases v@.len() - i,
    {
        out.push(v[i]);
        i = i + 1;
        proof {
            assert(out@ =~= v@.take(i as int));
        }
    }
    proof {
        assert(v@.take(v@.len() as int) =~= v@);
    }
    out
}

} // verus!