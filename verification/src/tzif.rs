//! An independent, bounds-checked TZif reader (RFC 9636).
//!
//! Reads v1/v2/v3/v4 files; for v2+ it parses the 64-bit data block (the one modern readers use)
//! and keeps the POSIX footer string. Malformed or truncated input yields `Err`, never a panic.
use vstd::prelude::*;
use crate::posix::{tz_observe_spec, tz_parse_spec};
use crate::text::{
    chars_of, hex_digits, hex_digits_of, int_text, lossy_string, push_chars, push_int, push_str,
    string_of, decoded_text,
};

verus! {

// ---------------------------------------------------------------------------
// Data model.
// ---------------------------------------------------------------------------

/// A local-time type (`ttinfo`): UT offset, DST flag, and abbreviation.
#[derive(Debug, Clone, PartialEq, Eq)]
pub struct TtInfo {
    pub utoff: i32,
    pub is_dst: bool,
    pub abbr: String,
}

/// A leap-second record (occurrence in UT, cumulative correction).
#[derive(Debug, Clone, Copy, PartialEq, Eq)]
pub struct LeapSecond {
    pub occur: i64,
    pub corr: i32,
}

/// A parsed TZif file (the data this witness reasons over).
#[derive(Debug, Clone)]
pub struct Tzif {
    pub version: u8,
    pub transitions: Vec<i64>,
    pub type_indices: Vec<u8>,
    pub types: Vec<TtInfo>,
    pub leaps: Vec<LeapSecond>,
    pub footer: Option<String>,
}

/// One explicit transition: the instant, and the local-time type just before and at it.
#[derive(Debug, Clone, PartialEq, Eq)]
pub struct TransitionRow {
    pub at: i64,
    pub before: Observation,
    pub after: Observation,
}

/// What the witness observed at one instant.
#[derive(Debug, Clone, PartialEq, Eq)]
pub struct Observation {
    pub utoff: i32,
    pub is_dst: bool,
    pub abbr: String,
}

/// Offset, DST flag and abbreviation, as mathematical values.
pub struct LocalTime {
    pub utoff: i32,
    pub is_dst: bool,
    pub abbr: Seq<char>,
}

impl View for TtInfo {
    type V = LocalTime;

    open spec fn view(&self) -> LocalTime {
        LocalTime { utoff: self.utoff, is_dst: self.is_dst, abbr: self.abbr@ }
    }
}

impl View for Observation {
    type V = LocalTime;

    open spec fn view(&self) -> LocalTime {
        LocalTime { utoff: self.utoff, is_dst: self.is_dst, abbr: self.abbr@ }
    }
}

/// The contents of a TZif file, as mathematical values.
pub struct TzifModel {
    pub version: u8,
    pub transitions: Seq<i64>,
    pub type_indices: Seq<u8>,
    pub types: Seq<LocalTime>,
    pub leaps: Seq<LeapSecond>,
    pub footer: Option<Seq<char>>,
}

impl View for Tzif {
    type V = TzifModel;

    open spec fn view(&self) -> TzifModel {
        TzifModel {
            version: self.version,
            transitions: self.transitions@,
            type_indices: self.type_indices@,
            types: self.types@.map_values(|t: TtInfo| t@),
            leaps: self.leaps@,
            footer: match self.footer {
                Some(f) => Some(f@),
                None => None,
            },
        }
    }
}

/// A table the lookups can index safely: at least one type, a type index for every transition,
/// and each of those type indices naming a type.
pub open spec fn model_wf(z: TzifModel) -> bool {
    &&& z.types.len() >= 1
    &&& z.type_indices.len() >= z.transitions.len()
    &&& forall|i: int| 0 <= i < z.transitions.len() ==> (#[trigger] z.type_indices[i] as int)
        < z.types.len()
}

impl Tzif {
    /// See [`model_wf`].
    pub open spec fn wf(&self) -> bool {
        model_wf(self@)
    }
}

// ---------------------------------------------------------------------------
// The byte cursor.
// ---------------------------------------------------------------------------

pub open spec fn truncated_message(n: int, p: int) -> Seq<char> {
    "truncated: need "@ + int_text(n) + " bytes at "@ + int_text(p)
}

/// Taking `n` bytes at position `p` of a buffer of length `len`: the new position, or the error.
pub open spec fn take_spec(len: int, p: int, n: int) -> Result<int, Seq<char>> {
    if p + n > usize::MAX {
        Err("offset overflow"@)
    } else if p + n > len {
        Err(truncated_message(n, p))
    } else {
        Ok(p + n)
    }
}

/// Big-endian value of a byte sequence.
pub open spec fn be_value(s: Seq<u8>) -> nat
    decreases s.len(),
{
    if s.len() == 0 {
        0
    } else {
        be_value(s.drop_last()) * 256 + s.last() as nat
    }
}

/// Two's-complement reading of an unsigned `bits`-bit value.
pub open spec fn signed_of(v: int, half: int) -> int {
    if v >= half {
        v - 2 * half
    } else {
        v
    }
}

/// Reading a big-endian `u32` at `p`.
pub open spec fn read_u32(b: Seq<u8>, p: int) -> Result<(u32, int), Seq<char>> {
    match take_spec(b.len() as int, p, 4) {
        Err(e) => Err(e),
        Ok(q) => Ok((be_value(b.subrange(p, q)) as u32, q)),
    }
}

/// Reading a big-endian two's-complement `i32` at `p`.
pub open spec fn read_i32(b: Seq<u8>, p: int) -> Result<(i32, int), Seq<char>> {
    match read_u32(b, p) {
        Err(e) => Err(e),
        Ok((v, q)) => Ok((signed_of(v as int, 0x8000_0000) as i32, q)),
    }
}

/// Reading a big-endian two's-complement `i64` at `p`.
pub open spec fn read_i64(b: Seq<u8>, p: int) -> Result<(i64, int), Seq<char>> {
    match take_spec(b.len() as int, p, 8) {
        Err(e) => Err(e),
        Ok(q) => Ok(
            (signed_of(be_value(b.subrange(p, q)) as int, 0x8000_0000_0000_0000) as i64, q),
        ),
    }
}

/// Reading one byte at `p`.
pub open spec fn read_u8(b: Seq<u8>, p: int) -> Result<(u8, int), Seq<char>> {
    match take_spec(b.len() as int, p, 1) {
        Err(e) => Err(e),
        Ok(q) => Ok((b[p], q)),
    }
}

/// A big-endian cursor with explicit bounds checks.
struct Cur<'a> {
    b: &'a [u8],
    p: usize,
}

impl<'a> Cur<'a> {
    spec fn ok(&self) -> bool {
        self.p <= self.b.len()
    }

    fn new(b: &'a [u8]) -> (c: Self)
        ensures
            c.b@ == b@,
            c.p == 0,
    {
        Cur { b, p: 0 }
    }

    fn take(&mut self, n: usize) -> (r: Result<&'a [u8], String>)
        requires
            old(self).ok(),
        ensures
            final(self).ok(),
            final(self).b@ == old(self).b@,
            match r {
                Ok(s) => take_spec(old(self).b.len() as int, old(self).p as int, n as int) == Ok::<
                    int,
                    Seq<char>,
                >(final(self).p as int) && s@ == old(self).b@.subrange(
                    old(self).p as int,
                    final(self).p as int,
                ),
                Err(e) => take_spec(old(self).b.len() as int, old(self).p as int, n as int) == Err::<
                    int,
                    Seq<char>,
                >(e@),
            },
    {
        let end = match self.p.checked_add(n) {
            Some(e) => e,
            None => return Err(string_of(&crate::text::chars_of("offset overflow"))),
        };
        if end > self.b.len() {
            let mut msg: Vec<char> = Vec::new();
            push_str(&mut msg, "truncated: need ");
            push_int(&mut msg, n as i128);
            push_str(&mut msg, " bytes at ");
            push_int(&mut msg, self.p as i128);
            return Err(string_of(&msg));
        }
        let s = &self.b[self.p..end];
        self.p = end;
        Ok(s)
    }

    fn u32(&mut self) -> (r: Result<u32, String>)
        requires
            old(self).ok(),
        ensures
            final(self).ok(),
            final(self).b@ == old(self).b@,
            match r {
                Ok(v) => read_u32(old(self).b@, old(self).p as int) == Ok::<(u32, int), Seq<char>>(
                    (v, final(self).p as int),
                ),
                Err(e) => read_u32(old(self).b@, old(self).p as int) == Err::<
                    (u32, int),
                    Seq<char>,
                >(e@),
            },
    {
        let s = self.take(4)?;
        let ghost q = s@;
        assert(be_value(q) == (((q[0] as nat) * 256 + q[1]) * 256 + q[2]) * 256 + q[3]) by {
            reveal_with_fuel(be_value, 5);
            assert(q.drop_last().drop_last().drop_last().drop_last() == Seq::<u8>::empty());
        }
        Ok((s[0] as u32) * 0x100_0000 + (s[1] as u32) * 0x1_0000 + (s[2] as u32) * 0x100 + (
        s[3] as u32))
    }

    fn i32(&mut self) -> (r: Result<i32, String>)
        requires
            old(self).ok(),
        ensures
            final(self).ok(),
            final(self).b@ == old(self).b@,
            match r {
                Ok(v) => read_i32(old(self).b@, old(self).p as int) == Ok::<(i32, int), Seq<char>>(
                    (v, final(self).p as int),
                ),
                Err(e) => read_i32(old(self).b@, old(self).p as int) == Err::<
                    (i32, int),
                    Seq<char>,
                >(e@),
            },
    {
        let v = self.u32()?;
        let w: i64 = if v >= 0x8000_0000 { v as i64 - 0x1_0000_0000 } else { v as i64 };
        Ok(w as i32)
    }

    fn i64(&mut self) -> (r: Result<i64, String>)
        requires
            old(self).ok(),
        ensures
            final(self).ok(),
            final(self).b@ == old(self).b@,
            match r {
                Ok(v) => read_i64(old(self).b@, old(self).p as int) == Ok::<(i64, int), Seq<char>>(
                    (v, final(self).p as int),
                ),
                Err(e) => read_i64(old(self).b@, old(self).p as int) == Err::<
                    (i64, int),
                    Seq<char>,
                >(e@),
            },
    {
        let s = self.take(8)?;
        let mut v: u128 = 0;
        let mut i: usize = 0;
        while i < 8
            invariant
                s@.len() == 8,
                i <= 8,
                v == be_value(s@.take(i as int)),
                v < pow256(i as nat),
            decreases 8 - i,
        {
            assert(s@.take(i + 1).drop_last() == s@.take(i as int));
            proof {
                lemma_pow256_step(i as nat);
                lemma_pow256_mono(i as nat, 7);
                reveal_with_fuel(pow256, 8);
            }
            assert(v * 256 + s@[i as int] < pow256((i + 1) as nat)) by (nonlinear_arith)
                requires
                    v < pow256(i as nat),
                    pow256((i + 1) as nat) == pow256(i as nat) * 256,
                    s@[i as int] < 256,
            ;
            v = v * 256 + s[i] as u128;
            i = i + 1;
        }
        assert(s@.take(8) == s@);
        proof { reveal_with_fuel(pow256, 9); }
        let w: i128 = if v >= 0x8000_0000_0000_0000 {
            v as i128 - 0x1_0000_0000_0000_0000
        } else {
            v as i128
        };
        proof { reveal_with_fuel(pow256, 9); }
        Ok(w as i64)
    }

    fn u8(&mut self) -> (r: Result<u8, String>)
        requires
            old(self).ok(),
        ensures
            final(self).ok(),
            final(self).b@ == old(self).b@,
            match r {
                Ok(v) => read_u8(old(self).b@, old(self).p as int) == Ok::<(u8, int), Seq<char>>(
                    (v, final(self).p as int),
                ),
                Err(e) => read_u8(old(self).b@, old(self).p as int) == Err::<
                    (u8, int),
                    Seq<char>,
                >(e@),
            },
    {
        let s = self.take(1)?;
        Ok(s[0])
    }
}

pub open spec fn pow256(i: nat) -> nat
    decreases i,
{
    if i == 0 {
        1
    } else {
        256 * pow256((i - 1) as nat)
    }
}

proof fn lemma_pow256_step(i: nat)
    ensures
        pow256(i + 1) == pow256(i) * 256,
{
}

proof fn lemma_pow256_mono(i: nat, j: nat)
    requires
        i <= j,
    ensures
        pow256(i) <= pow256(j),
    decreases j,
{
    if i < j {
        lemma_pow256_mono(i, (j - 1) as nat);
    }
}

// ---------------------------------------------------------------------------
// Header.
// ---------------------------------------------------------------------------

/// The six counts of a TZif header.
#[derive(Clone, Copy)]
pub struct Counts {
    pub isutcnt: u32,
    pub isstdcnt: u32,
    pub leapcnt: u32,
    pub timecnt: u32,
    pub typecnt: u32,
    pub charcnt: u32,
}

/// The version a header's version byte announces, if it is one of 1..=4.
pub open spec fn version_of(ver: u8) -> Option<u8> {
    if ver == 0 {
        Some(1u8)
    } else if ver == 0x32 {
        Some(2u8)
    } else if ver == 0x33 {
        Some(3u8)
    } else if ver == 0x34 {
        Some(4u8)
    } else {
        None
    }
}

pub open spec fn unknown_version_message(ver: u8) -> Seq<char> {
    "unknown version byte 0x"@ + hex_digits(ver as nat)
}

/// The ASCII bytes `TZif`.
pub open spec fn is_magic(m: Seq<u8>) -> bool {
    m == seq![0x54u8, 0x5au8, 0x69u8, 0x66u8]
}

/// Reading the six counts at `p`.
pub open spec fn read_counts(b: Seq<u8>, p: int) -> Result<(Counts, int), Seq<char>> {
    match read_u32(b, p) {
        Err(e) => Err(e),
        Ok((isutcnt, p1)) => match read_u32(b, p1) {
            Err(e) => Err(e),
            Ok((isstdcnt, p2)) => match read_u32(b, p2) {
                Err(e) => Err(e),
                Ok((leapcnt, p3)) => match read_u32(b, p3) {
                    Err(e) => Err(e),
                    Ok((timecnt, p4)) => match read_u32(b, p4) {
                        Err(e) => Err(e),
                        Ok((typecnt, p5)) => match read_u32(b, p5) {
                            Err(e) => Err(e),
                            Ok((charcnt, p6)) => Ok(
                                (Counts { isutcnt, isstdcnt, leapcnt, timecnt, typecnt, charcnt }, p6),
                            ),
                        },
                    },
                },
            },
        },
    }
}

/// Reading a header at `p`: magic, version byte, 15 reserved bytes, six counts.
pub open spec fn read_header_spec(b: Seq<u8>, p: int) -> Result<(u8, Counts, int), Seq<char>> {
    match take_spec(b.len() as int, p, 4) {
        Err(e) => Err(e),
        Ok(p1) => if !is_magic(b.subrange(p, p1)) {
            Err("bad magic (not TZif)"@)
        } else {
            match read_u8(b, p1) {
                Err(e) => Err(e),
                Ok((ver, p2)) => match version_of(ver) {
                    None => Err(unknown_version_message(ver)),
                    Some(version) => match take_spec(b.len() as int, p2, 15) {
                        Err(e) => Err(e),
                        Ok(p3) => match read_counts(b, p3) {
                            Err(e) => Err(e),
                            Ok((counts, p4)) => Ok((version, counts, p4)),
                        },
                    },
                },
            }
        },
    }
}

fn read_header(c: &mut Cur) -> (r: Result<(u8, Counts), String>)
    requires
        old(c).ok(),
    ensures
        final(c).ok(),
        final(c).b@ == old(c).b@,
        match r {
            Ok((v, n)) => read_header_spec(old(c).b@, old(c).p as int) == Ok::<
                (u8, Counts, int),
                Seq<char>,
            >((v, n, final(c).p as int)),
            Err(e) => read_header_spec(old(c).b@, old(c).p as int) == Err::<
                (u8, Counts, int),
                Seq<char>,
            >(e@),
        },
{
    let magic = c.take(4)?;
    if !(magic[0] == 0x54 && magic[1] == 0x5a && magic[2] == 0x69 && magic[3] == 0x66) {
        assert(!is_magic(magic@)) by {
            if is_magic(magic@) {
                assert(magic@[0] == 0x54u8);
            }
        }
        return Err(string_of(&crate::text::chars_of("bad magic (not TZif)")));
    }
    assert(is_magic(magic@)) by {
        assert(magic@ =~= seq![0x54u8, 0x5au8, 0x69u8, 0x66u8]);
    }
    let ver = c.u8()?;
    let version: u8 = if ver == 0 {
        1
    } else if ver == 0x32 {
        2
    } else if ver == 0x33 {
        3
    } else if ver == 0x34 {
        4
    } else {
        let mut msg: Vec<char> = Vec::new();
        push_str(&mut msg, "unknown version byte 0x");
        let hx = hex_digits_of(ver as u128);
        push_chars(&mut msg, &hx);
        return Err(string_of(&msg));
    };
    c.take(15)?;
    let isutcnt = c.u32()?;
    let isstdcnt = c.u32()?;
    let leapcnt = c.u32()?;
    let timecnt = c.u32()?;
    let typecnt = c.u32()?;
    let charcnt = c.u32()?;
    Ok((version, Counts { isutcnt, isstdcnt, leapcnt, timecnt, typecnt, charcnt }))
}

// ---------------------------------------------------------------------------
// Data block.
// ---------------------------------------------------------------------------

/// `s` prepended to the values read by `r`, errors passed through.
pub open spec fn prepend<T>(s: Seq<T>, r: Result<(Seq<T>, int), Seq<char>>) -> Result<
    (Seq<T>, int),
    Seq<char>,
> {
    match r {
        Ok((t, q)) => Ok((s + t, q)),
        Err(e) => Err(e),
    }
}

/// Reading one transition time: 64-bit in a wide block, 32-bit (sign-extended) otherwise.
pub open spec fn read_time(b: Seq<u8>, p: int, wide: bool) -> Result<(i64, int), Seq<char>> {
    if wide {
        read_i64(b, p)
    } else {
        match read_i32(b, p) {
            Err(e) => Err(e),
            Ok((v, q)) => Ok((v as i64, q)),
        }
    }
}

/// Reading `k` transition times in sequence.
pub open spec fn read_times(b: Seq<u8>, p: int, k: nat, wide: bool) -> Result<
    (Seq<i64>, int),
    Seq<char>,
>
    decreases k,
{
    if k == 0 {
        Ok((Seq::empty(), p))
    } else {
        match read_time(b, p, wide) {
            Err(e) => Err(e),
            Ok((v, q)) => prepend(seq![v], read_times(b, q, (k - 1) as nat, wide)),
        }
    }
}

pub open spec fn type_index_message(ti: u8, typecnt: u32) -> Seq<char> {
    "transition type index "@ + int_text(ti as int) + " >= typecnt "@ + int_text(typecnt as int)
}

/// Reading one transition type index, which must name one of the `typecnt` types.
pub open spec fn read_index(b: Seq<u8>, p: int, typecnt: u32) -> Result<(u8, int), Seq<char>> {
    match read_u8(b, p) {
        Err(e) => Err(e),
        Ok((ti, q)) => if ti as u32 >= typecnt {
            Err(type_index_message(ti, typecnt))
        } else {
            Ok((ti, q))
        },
    }
}

/// Reading `k` transition type indices in sequence.
pub open spec fn read_indices(b: Seq<u8>, p: int, k: nat, typecnt: u32) -> Result<
    (Seq<u8>, int),
    Seq<char>,
>
    decreases k,
{
    if k == 0 {
        Ok((Seq::empty(), p))
    } else {
        match read_index(b, p, typecnt) {
            Err(e) => Err(e),
            Ok((v, q)) => prepend(seq![v], read_indices(b, q, (k - 1) as nat, typecnt)),
        }
    }
}

pub open spec fn desig_message(di: u8, charcnt: u32) -> Seq<char> {
    "designation index "@ + int_text(di as int) + " >= charcnt "@ + int_text(charcnt as int)
}

/// Reading one `ttinfo` record (UT offset, DST byte, designation index); the index must fall
/// inside the `charcnt` designation bytes.
pub open spec fn read_raw_type(b: Seq<u8>, p: int, charcnt: u32) -> Result<
    ((i32, bool, u8), int),
    Seq<char>,
> {
    match read_i32(b, p) {
        Err(e) => Err(e),
        Ok((utoff, p1)) => match read_u8(b, p1) {
            Err(e) => Err(e),
            Ok((isdst, p2)) => match read_u8(b, p2) {
                Err(e) => Err(e),
                Ok((di, p3)) => if di as u32 >= charcnt {
                    Err(desig_message(di, charcnt))
                } else {
                    Ok(((utoff, isdst != 0, di), p3))
                },
            },
        },
    }
}

/// Reading `k` `ttinfo` records in sequence.
pub open spec fn read_raw_types(b: Seq<u8>, p: int, k: nat, charcnt: u32) -> Result<
    (Seq<(i32, bool, u8)>, int),
    Seq<char>,
>
    decreases k,
{
    if k == 0 {
        Ok((Seq::empty(), p))
    } else {
        match read_raw_type(b, p, charcnt) {
            Err(e) => Err(e),
            Ok((v, q)) => prepend(seq![v], read_raw_types(b, q, (k - 1) as nat, charcnt)),
        }
    }
}

/// Index of the first NUL byte of `d` at or after `start`, or `d.len()` when there is none.
pub open spec fn nul_end(d: Seq<u8>, start: int) -> int
    decreases d.len() - start,
{
    if start >= d.len() {
        d.len() as int
    } else if d[start] == 0 {
        start
    } else {
        nul_end(d, start + 1)
    }
}

/// The local-time type a `ttinfo` record denotes, its abbreviation being the NUL-terminated
/// designation starting at its index (decoded lossily).
pub open spec fn local_type_of(raw: (i32, bool, u8), desig: Seq<u8>) -> LocalTime {
    LocalTime {
        utoff: raw.0,
        is_dst: raw.1,
        abbr: decoded_text(desig.subrange(raw.2 as int, nul_end(desig, raw.2 as int))),
    }
}

/// Reading one leap-second record (occurrence, then correction).
pub open spec fn read_leap(b: Seq<u8>, p: int, wide: bool) -> Result<(LeapSecond, int), Seq<char>> {
    match read_time(b, p, wide) {
        Err(e) => Err(e),
        Ok((occur, p1)) => match read_i32(b, p1) {
            Err(e) => Err(e),
            Ok((corr, p2)) => Ok((LeapSecond { occur, corr }, p2)),
        },
    }
}

/// Reading `k` leap-second records in sequence.
pub open spec fn read_leaps(b: Seq<u8>, p: int, k: nat, wide: bool) -> Result<
    (Seq<LeapSecond>, int),
    Seq<char>,
>
    decreases k,
{
    if k == 0 {
        Ok((Seq::empty(), p))
    } else {
        match read_leap(b, p, wide) {
            Err(e) => Err(e),
            Ok((v, q)) => prepend(seq![v], read_leaps(b, q, (k - 1) as nat, wide)),
        }
    }
}

/// Skipping `k` single bytes, one read at a time.
pub open spec fn skip_bytes(b: Seq<u8>, p: int, k: nat) -> Result<int, Seq<char>>
    decreases k,
{
    if k == 0 {
        Ok(p)
    } else {
        match read_u8(b, p) {
            Err(e) => Err(e),
            Ok((_, q)) => skip_bytes(b, q, (k - 1) as nat),
        }
    }
}

/// The decoded contents of one data block.
pub struct BlockModel {
    pub transitions: Seq<i64>,
    pub type_indices: Seq<u8>,
    pub types: Seq<LocalTime>,
    pub leaps: Seq<LeapSecond>,
}

/// Reading a data block at `p` with the given counts: transition times, type indices,
/// `ttinfo` records, designation bytes, leap records, then the standard/UT indicator bytes.
pub open spec fn read_block_spec(b: Seq<u8>, p: int, n: Counts, wide: bool) -> Result<
    (BlockModel, int),
    Seq<char>,
> {
    if n.typecnt == 0 {
        Err("typecnt == 0"@)
    } else {
        match read_times(b, p, n.timecnt as nat, wide) {
            Err(e) => Err(e),
            Ok((transitions, p1)) => match read_indices(b, p1, n.timecnt as nat, n.typecnt) {
                Err(e) => Err(e),
                Ok((type_indices, p2)) => match read_raw_types(b, p2, n.typecnt as nat, n.charcnt) {
                    Err(e) => Err(e),
                    Ok((raw, p3)) => match take_spec(b.len() as int, p3, n.charcnt as int) {
                        Err(e) => Err(e),
                        Ok(p4) => match read_leaps(b, p4, n.leapcnt as nat, wide) {
                            Err(e) => Err(e),
                            Ok((leaps, p5)) => match skip_bytes(b, p5, n.isstdcnt as nat) {
                                Err(e) => Err(e),
                                Ok(p6) => match skip_bytes(b, p6, n.isutcnt as nat) {
                                    Err(e) => Err(e),
                                    Ok(p7) => Ok(
                                        (
                                            BlockModel {
                                                transitions,
                                                type_indices,
                                                types: raw.map_values(
                                                    |r: (i32, bool, u8)|
                                                        local_type_of(r, b.subrange(p3, p4)),
                                                ),
                                                leaps,
                                            },
                                            p7,
                                        ),
                                    ),
                                },
                            },
                        },
                    },
                },
            },
        }
    }
}

proof fn lemma_prepend_push<T>(s: Seq<T>, v: T, r: Result<(Seq<T>, int), Seq<char>>)
    ensures
        prepend(s, prepend(seq![v], r)) == prepend(s.push(v), r),
{
    match r {
        Ok((t, q)) => {
            assert(s + (seq![v] + t) == s.push(v) + t);
        },
        Err(_) => {},
    }
}

proof fn lemma_prepend_empty<T>(r: Result<(Seq<T>, int), Seq<char>>)
    ensures
        prepend(Seq::<T>::empty(), r) == r,
{
    match r {
        Ok((t, q)) => {
            assert(Seq::<T>::empty() + t == t);
        },
        Err(_) => {},
    }
}

fn read_time_exec(c: &mut Cur, wide: bool) -> (r: Result<i64, String>)
    requires
        old(c).ok(),
    ensures
        final(c).ok(),
        final(c).b@ == old(c).b@,
        match r {
            Ok(v) => read_time(old(c).b@, old(c).p as int, wide) == Ok::<(i64, int), Seq<char>>(
                (v, final(c).p as int),
            ),
            Err(e) => read_time(old(c).b@, old(c).p as int, wide) == Err::<(i64, int), Seq<char>>(
                e@,
            ),
        },
{
    if wide {
        c.i64()
    } else {
        match c.i32() {
            Ok(v) => Ok(v as i64),
            Err(e) => Err(e),
        }
    }
}

fn read_times_exec(c: &mut Cur, k: u32, wide: bool) -> (r: Result<Vec<i64>, String>)
    requires
        old(c).ok(),
    ensures
        final(c).ok(),
        final(c).b@ == old(c).b@,
        match r {
            Ok(v) => read_times(old(c).b@, old(c).p as int, k as nat, wide) == Ok::<
                (Seq<i64>, int),
                Seq<char>,
            >((v@, final(c).p as int)),
            Err(e) => read_times(old(c).b@, old(c).p as int, k as nat, wide) == Err::<
                (Seq<i64>, int),
                Seq<char>,
            >(e@),
        },
{
    let ghost b0 = c.b@;
    let ghost p0 = c.p as int;
    let mut out: Vec<i64> = Vec::new();
    let mut i: u32 = 0;
    proof { lemma_prepend_empty(read_times(b0, p0, k as nat, wide)); }
    while i < k
        invariant
            c.ok(),
            c.b@ == b0,
            b0 == old(c).b@,
            p0 == old(c).p as int,
            i <= k,
            read_times(b0, p0, k as nat, wide) == prepend(
                out@,
                read_times(b0, c.p as int, (k - i) as nat, wide),
            ),
        decreases k - i,
    {
        let ghost q = c.p as int;
        match read_time_exec(c, wide) {
            Ok(v) => {
                proof { lemma_prepend_push(out@, v, read_times(b0, c.p as int, (k - i - 1) as nat, wide)); }
                out.push(v);
            },
            Err(e) => return Err(e),
        }
        i = i + 1;
    }
    Ok(out)
}

fn read_indices_exec(c: &mut Cur, k: u32, typecnt: u32) -> (r: Result<Vec<u8>, String>)
    requires
        old(c).ok(),
    ensures
        final(c).ok(),
        final(c).b@ == old(c).b@,
        match r {
            Ok(v) => read_indices(old(c).b@, old(c).p as int, k as nat, typecnt) == Ok::<
                (Seq<u8>, int),
                Seq<char>,
            >((v@, final(c).p as int)),
            Err(e) => read_indices(old(c).b@, old(c).p as int, k as nat, typecnt) == Err::<
                (Seq<u8>, int),
                Seq<char>,
            >(e@),
        },
{
    let ghost b0 = c.b@;
    let ghost p0 = c.p as int;
    let mut out: Vec<u8> = Vec::new();
    let mut i: u32 = 0;
    proof { lemma_prepend_empty(read_indices(b0, p0, k as nat, typecnt)); }
    while i < k
        invariant
            c.ok(),
            c.b@ == b0,
            b0 == old(c).b@,
            p0 == old(c).p as int,
            i <= k,
            read_indices(b0, p0, k as nat, typecnt) == prepend(
                out@,
                read_indices(b0, c.p as int, (k - i) as nat, typecnt),
            ),
        decreases k - i,
    {
        let ti = match c.u8() {
            Ok(v) => v,
            Err(e) => return Err(e),
        };
        if ti as u32 >= typecnt {
            let mut msg: Vec<char> = Vec::new();
            push_str(&mut msg, "transition type index ");
            push_int(&mut msg, ti as i128);
            push_str(&mut msg, " >= typecnt ");
            push_int(&mut msg, typecnt as i128);
            return Err(string_of(&msg));
        }
        proof { lemma_prepend_push(out@, ti, read_indices(b0, c.p as int, (k - i - 1) as nat, typecnt)); }
        out.push(ti);
        i = i + 1;
    }
    Ok(out)
}

fn read_raw_types_exec(c: &mut Cur, k: u32, charcnt: u32) -> (r: Result<Vec<(i32, bool, u8)>, String>)
    requires
        old(c).ok(),
    ensures
        final(c).ok(),
        final(c).b@ == old(c).b@,
        match r {
            Ok(v) => read_raw_types(old(c).b@, old(c).p as int, k as nat, charcnt) == Ok::<
                (Seq<(i32, bool, u8)>, int),
                Seq<char>,
            >((v@, final(c).p as int)),
            Err(e) => read_raw_types(old(c).b@, old(c).p as int, k as nat, charcnt) == Err::<
                (Seq<(i32, bool, u8)>, int),
                Seq<char>,
            >(e@),
        },
{
    let ghost b0 = c.b@;
    let ghost p0 = c.p as int;
    let mut out: Vec<(i32, bool, u8)> = Vec::new();
    let mut i: u32 = 0;
    proof { lemma_prepend_empty(read_raw_types(b0, p0, k as nat, charcnt)); }
    while i < k
        invariant
            c.ok(),
            c.b@ == b0,
            b0 == old(c).b@,
            p0 == old(c).p as int,
            i <= k,
            read_raw_types(b0, p0, k as nat, charcnt) == prepend(
                out@,
                read_raw_types(b0, c.p as int, (k - i) as nat, charcnt),
            ),
        decreases k - i,
    {
        let utoff = match c.i32() {
            Ok(v) => v,
            Err(e) => return Err(e),
        };
        let isdst = match c.u8() {
            Ok(v) => v != 0,
            Err(e) => return Err(e),
        };
        let di = match c.u8() {
            Ok(v) => v,
            Err(e) => return Err(e),
        };
        if di as u32 >= charcnt {
            let mut msg: Vec<char> = Vec::new();
            push_str(&mut msg, "designation index ");
            push_int(&mut msg, di as i128);
            push_str(&mut msg, " >= charcnt ");
            push_int(&mut msg, charcnt as i128);
            return Err(string_of(&msg));
        }
        proof {
            lemma_prepend_push(
                out@,
                (utoff, isdst, di),
                read_raw_types(b0, c.p as int, (k - i - 1) as nat, charcnt),
            );
        }
        out.push((utoff, isdst, di));
        i = i + 1;
    }
    Ok(out)
}

fn read_leaps_exec(c: &mut Cur, k: u32, wide: bool) -> (r: Result<Vec<LeapSecond>, String>)
    requires
        old(c).ok(),
    ensures
        final(c).ok(),
        final(c).b@ == old(c).b@,
        match r {
            Ok(v) => read_leaps(old(c).b@, old(c).p as int, k as nat, wide) == Ok::<
                (Seq<LeapSecond>, int),
                Seq<char>,
            >((v@, final(c).p as int)),
            Err(e) => read_leaps(old(c).b@, old(c).p as int, k as nat, wide) == Err::<
                (Seq<LeapSecond>, int),
                Seq<char>,
            >(e@),
        },
{
    let ghost b0 = c.b@;
    let ghost p0 = c.p as int;
    let mut out: Vec<LeapSecond> = Vec::new();
    let mut i: u32 = 0;
    proof { lemma_prepend_empty(read_leaps(b0, p0, k as nat, wide)); }
    while i < k
        invariant
            c.ok(),
            c.b@ == b0,
            b0 == old(c).b@,
            p0 == old(c).p as int,
            i <= k,
            read_leaps(b0, p0, k as nat, wide) == prepend(
                out@,
                read_leaps(b0, c.p as int, (k - i) as nat, wide),
            ),
        decreases k - i,
    {
        let occur = match read_time_exec(c, wide) {
            Ok(v) => v,
            Err(e) => return Err(e),
        };
        let corr = match c.i32() {
            Ok(v) => v,
            Err(e) => return Err(e),
        };
        let l = LeapSecond { occur, corr };
        proof { lemma_prepend_push(out@, l, read_leaps(b0, c.p as int, (k - i - 1) as nat, wide)); }
        out.push(l);
        i = i + 1;
    }
    Ok(out)
}

fn skip_bytes_exec(c: &mut Cur, k: u32) -> (r: Result<(), String>)
    requires
        old(c).ok(),
    ensures
        final(c).ok(),
        final(c).b@ == old(c).b@,
        match r {
            Ok(_) => skip_bytes(old(c).b@, old(c).p as int, k as nat) == Ok::<int, Seq<char>>(
                final(c).p as int,
            ),
            Err(e) => skip_bytes(old(c).b@, old(c).p as int, k as nat) == Err::<int, Seq<char>>(
                e@,
            ),
        },
{
    let ghost b0 = c.b@;
    let ghost p0 = c.p as int;
    let mut i: u32 = 0;
    while i < k
        invariant
            c.ok(),
            c.b@ == b0,
            b0 == old(c).b@,
            p0 == old(c).p as int,
            i <= k,
            skip_bytes(b0, p0, k as nat) == skip_bytes(b0, c.p as int, (k - i) as nat),
        decreases k - i,
    {
        match c.u8() {
            Ok(_) => {},
            Err(e) => return Err(e),
        }
        i = i + 1;
    }
    Ok(())
}

proof fn lemma_raw_types_ok(b: Seq<u8>, p: int, k: nat, charcnt: u32)
    ensures
        read_raw_types(b, p, k, charcnt) matches Ok((s, q)) ==> s.len() == k && forall|j: int|
            0 <= j < s.len() ==> (#[trigger] s[j]).2 < charcnt,
    decreases k,
{
    if k > 0 {
        match read_raw_type(b, p, charcnt) {
            Ok((v, q)) => {
                lemma_raw_types_ok(b, q, (k - 1) as nat, charcnt);
                match read_raw_types(b, q, (k - 1) as nat, charcnt) {
                    Ok((t, q2)) => {
                        let s = seq![v] + t;
                        assert forall|j: int| 0 <= j < s.len() implies (#[trigger] s[j]).2
                            < charcnt by {
                            if j > 0 {
                                assert(s[j] == t[j - 1]);
                            }
                        }
                    },
                    Err(_) => {},
                }
            },
            Err(_) => {},
        }
    }
}

proof fn lemma_indices_ok(b: Seq<u8>, p: int, k: nat, typecnt: u32)
    ensures
        read_indices(b, p, k, typecnt) matches Ok((s, q)) ==> s.len() == k && forall|j: int|
            0 <= j < s.len() ==> (#[trigger] s[j]) < typecnt,
    decreases k,
{
    if k > 0 {
        match read_index(b, p, typecnt) {
            Ok((v, q)) => {
                lemma_indices_ok(b, q, (k - 1) as nat, typecnt);
                match read_indices(b, q, (k - 1) as nat, typecnt) {
                    Ok((t, q2)) => {
                        let s = seq![v] + t;
                        assert forall|j: int| 0 <= j < s.len() implies (#[trigger] s[j])
                            < typecnt by {
                            if j > 0 {
                                assert(s[j] == t[j - 1]);
                            }
                        }
                    },
                    Err(_) => {},
                }
            },
            Err(_) => {},
        }
    }
}

proof fn lemma_times_ok(b: Seq<u8>, p: int, k: nat, wide: bool)
    ensures
        read_times(b, p, k, wide) matches Ok((s, q)) ==> s.len() == k,
    decreases k,
{
    if k > 0 {
        match read_time(b, p, wide) {
            Ok((v, q)) => lemma_times_ok(b, q, (k - 1) as nat, wide),
            Err(_) => {},
        }
    }
}

/// The decoded contents of one TZif data block.
struct Block {
    transitions: Vec<i64>,
    type_indices: Vec<u8>,
    types: Vec<TtInfo>,
    leaps: Vec<LeapSecond>,
}

impl View for Block {
    type V = BlockModel;

    closed spec fn view(&self) -> BlockModel {
        BlockModel {
            transitions: self.transitions@,
            type_indices: self.type_indices@,
            types: self.types@.map_values(|t: TtInfo| t@),
            leaps: self.leaps@,
        }
    }
}

/// `nul_end(d, start)`.
fn find_nul(d: &[u8], start: usize) -> (e: usize)
    requires
        start <= d.len(),
    ensures
        e == nul_end(d@, start as int),
        start <= e <= d.len(),
{
    let mut j = start;
    while j < d.len() && d[j] != 0
        invariant
            start <= j <= d.len(),
            nul_end(d@, start as int) == nul_end(d@, j as int),
        decreases d.len() - j,
    {
        j = j + 1;
    }
    j
}

/// Parse a TZif data block. `wide` selects 64-bit (`true`, v2+ block) vs 32-bit (`false`, v1
/// block) transition/leap-occurrence widths.
fn read_block(c: &mut Cur, n: Counts, wide: bool) -> (r: Result<Block, String>)
    requires
        old(c).ok(),
    ensures
        final(c).ok(),
        final(c).b@ == old(c).b@,
        match r {
            Ok(blk) => read_block_spec(old(c).b@, old(c).p as int, n, wide) == Ok::<
                (BlockModel, int),
                Seq<char>,
            >((blk@, final(c).p as int)),
            Err(e) => read_block_spec(old(c).b@, old(c).p as int, n, wide) == Err::<
                (BlockModel, int),
                Seq<char>,
            >(e@),
        },
{
    if n.typecnt == 0 {
        return Err(string_of(&crate::text::chars_of("typecnt == 0")));
    }
    let ghost b = c.b@;
    let transitions = read_times_exec(c, n.timecnt, wide)?;
    let type_indices = read_indices_exec(c, n.timecnt, n.typecnt)?;
    let ghost p2 = c.p as int;
    let raw_types = read_raw_types_exec(c, n.typecnt, n.charcnt)?;
    proof { lemma_raw_types_ok(b, p2, n.typecnt as nat, n.charcnt); }
    let ghost p3 = c.p as int;
    let desig = c.take(n.charcnt as usize)?;
    let ghost p4 = c.p as int;
    let mut types: Vec<TtInfo> = Vec::new();
    let mut i: usize = 0;
    while i < raw_types.len()
        invariant
            i <= raw_types.len(),
            desig@ == b.subrange(p3, p4),
            desig@.len() == n.charcnt,
            forall|j: int| 0 <= j < raw_types@.len() ==> (#[trigger] raw_types@[j]).2 < n.charcnt,
            types@.len() == i,
            forall|j: int|
                0 <= j < i ==> (#[trigger] types@[j])@ == local_type_of(
                    raw_types@[j],
                    b.subrange(p3, p4),
                ),
        decreases raw_types.len() - i,
    {
        let (utoff, is_dst, di) = raw_types[i];
        let start = di as usize;
        let end = find_nul(desig, start);
        let abbr = lossy_string(&desig[start..end]);
        types.push(TtInfo { utoff, is_dst, abbr });
        i = i + 1;
    }
    let leaps = read_leaps_exec(c, n.leapcnt, wide)?;
    skip_bytes_exec(c, n.isstdcnt)?;
    skip_bytes_exec(c, n.isutcnt)?;
    let blk = Block { transitions, type_indices, types, leaps };
    proof {
        assert(blk@.types =~= raw_types@.map_values(
            |r: (i32, bool, u8)| local_type_of(r, b.subrange(p3, p4)),
        ));
    }
    Ok(blk)
}

// ---------------------------------------------------------------------------
// Whole file.
// ---------------------------------------------------------------------------

/// The characters trimmed from both ends of the footer.
pub open spec fn is_footer_pad(c: char) -> bool {
    c == '\n' || c == '\r' || c == '\0'
}

/// `s` without leading footer padding.
pub open spec fn trim_pad_start(s: Seq<char>) -> Seq<char>
    decreases s.len(),
{
    if s.len() > 0 && is_footer_pad(s[0]) {
        trim_pad_start(s.drop_first())
    } else {
        s
    }
}

/// `s` without trailing footer padding.
pub open spec fn trim_pad_end(s: Seq<char>) -> Seq<char>
    decreases s.len(),
{
    if s.len() > 0 && is_footer_pad(s.last()) {
        trim_pad_end(s.drop_last())
    } else {
        s
    }
}

/// The footer text after position `p`: the rest of the file decoded lossily, newline / carriage
/// return / NUL characters trimmed from both ends; absent when nothing is left.
pub open spec fn footer_of(b: Seq<u8>, p: int) -> Option<Seq<char>> {
    let s = trim_pad_end(trim_pad_start(decoded_text(b.subrange(p, b.len() as int))));
    if s.len() == 0 {
        None
    } else {
        Some(s)
    }
}

pub open spec fn mismatch_message(version: u8, v2: u8) -> Seq<char> {
    "v1/v2 header version mismatch: "@ + int_text(version as int) + " vs "@ + int_text(v2 as int)
}

/// The table a block denotes, with the given version and footer.
pub open spec fn model_of(version: u8, blk: BlockModel, footer: Option<Seq<char>>) -> TzifModel {
    TzifModel {
        version,
        transitions: blk.transitions,
        type_indices: blk.type_indices,
        types: blk.types,
        leaps: blk.leaps,
        footer,
    }
}

/// What a TZif file denotes, or the message of the first check that fails: a v1 file is its
/// header and 32-bit block; a v2+ file skips the 32-bit block and is the second header (whose
/// version must repeat the first), the 64-bit block and the footer.
pub open spec fn parse_spec(b: Seq<u8>) -> Result<TzifModel, Seq<char>> {
    match read_header_spec(b, 0) {
        Err(e) => Err(e),
        Ok((version, counts, p1)) => if version == 1 {
            match read_block_spec(b, p1, counts, false) {
                Err(e) => Err(e),
                Ok((blk, _)) => Ok(model_of(version, blk, None)),
            }
        } else {
            match read_block_spec(b, p1, counts, false) {
                Err(e) => Err(e),
                Ok((_, p2)) => match read_header_spec(b, p2) {
                    Err(e) => Err(e),
                    Ok((v2, counts2, p3)) => if v2 != version {
                        Err(mismatch_message(version, v2))
                    } else {
                        match read_block_spec(b, p3, counts2, true) {
                            Err(e) => Err(e),
                            Ok((blk, p4)) => Ok(model_of(version, blk, footer_of(b, p4))),
                        }
                    },
                },
            }
        },
    }
}

proof fn lemma_block_wf(b: Seq<u8>, p: int, n: Counts, wide: bool)
    ensures
        read_block_spec(b, p, n, wide) matches Ok((blk, q)) ==> model_wf(
            model_of(1, blk, None),
        ),
{
    if n.typecnt != 0 {
        lemma_times_ok(b, p, n.timecnt as nat, wide);
        match read_times(b, p, n.timecnt as nat, wide) {
            Ok((tr, p1)) => {
                lemma_indices_ok(b, p1, n.timecnt as nat, n.typecnt);
                match read_indices(b, p1, n.timecnt as nat, n.typecnt) {
                    Ok((ti, p2)) => {
                        lemma_raw_types_ok(b, p2, n.typecnt as nat, n.charcnt);
                    },
                    Err(_) => {},
                }
            },
            Err(_) => {},
        }
    }
}

/// Trim footer padding from both ends of `cs`.
fn trim_pad_range(cs: &[char]) -> (r: (usize, usize))
    ensures
        r.0 <= r.1 <= cs.len(),
        cs@.subrange(r.0 as int, r.1 as int) == trim_pad_end(trim_pad_start(cs@)),
{
    let mut lo: usize = 0;
    assert(cs@.skip(0) == cs@);
    while lo < cs.len() && (cs[lo] == '\n' || cs[lo] == '\r' || cs[lo] == '\0')
        invariant
            lo <= cs.len(),
            trim_pad_start(cs@.skip(lo as int)) == trim_pad_start(cs@),
        decreases cs.len() - lo,
    {
        assert(cs@.skip(lo as int).drop_first() == cs@.skip(lo + 1));
        lo = lo + 1;
    }
    assert(trim_pad_start(cs@) == cs@.subrange(lo as int, cs.len() as int));
    let mut hi: usize = cs.len();
    while hi > lo && (cs[hi - 1] == '\n' || cs[hi - 1] == '\r' || cs[hi - 1] == '\0')
        invariant
            lo <= hi <= cs.len(),
            trim_pad_end(cs@.subrange(lo as int, hi as int)) == trim_pad_end(trim_pad_start(cs@)),
        decreases hi,
    {
        assert(cs@.subrange(lo as int, hi as int).drop_last() == cs@.subrange(lo as int, hi - 1));
        hi = hi - 1;
    }
    (lo, hi)
}

/// The footer carried by decoded trailing text: the text with newline, carriage-return and NUL
/// characters trimmed from both ends, or `None` when nothing is left.
pub fn footer_from_text(text: &str) -> (r: Option<String>)
    ensures
        match r {
            Some(f) => f@ == trim_pad_end(trim_pad_start(text@)) && f@.len() > 0,
            None => trim_pad_end(trim_pad_start(text@)).len() == 0,
        },
{
    let cs = chars_of(text);
    let (lo, hi) = trim_pad_range(&cs);
    if lo == hi {
        None
    } else {
        Some(string_of(&cs[lo..hi]))
    }
}

fn read_footer(c: &Cur) -> (r: Option<String>)
    requires
        c.ok(),
    ensures
        match r {
            Some(f) => footer_of(c.b@, c.p as int) == Some(f@),
            None => footer_of(c.b@, c.p as int) is None,
        },
{
    let rest = &c.b[c.p..c.b.len()];
    let s = lossy_string(rest);
    footer_from_text(s.as_str())
}

/// Parse a complete TZif file. Malformed or truncated input yields `Err`, never a panic, and a
/// parsed table is well-formed.
pub fn parse(bytes: &[u8]) -> (r: Result<Tzif, String>)
    ensures
        match r {
            Ok(z) => parse_spec(bytes@) == Ok::<TzifModel, Seq<char>>(z@) && z.wf(),
            Err(e) => parse_spec(bytes@) == Err::<TzifModel, Seq<char>>(e@),
        },
{
    let mut c = Cur::new(bytes);
    let (version, counts) = read_header(&mut c)?;
    let ghost p1 = c.p as int;
    if version == 1 {
        let blk = read_block(&mut c, counts, false)?;
        proof { lemma_block_wf(bytes@, p1, counts, false); }
        let z = Tzif {
            version,
            transitions: blk.transitions,
            type_indices: blk.type_indices,
            types: blk.types,
            leaps: blk.leaps,
            footer: None,
        };
        assert(z@ == model_of(version, blk@, None));
        return Ok(z);
    }
    let _ = read_block(&mut c, counts, false)?;
    let ghost p2 = c.p as int;
    let (v2, counts2) = read_header(&mut c)?;
    let ghost p3 = c.p as int;
    if v2 != version {
        let mut msg: Vec<char> = Vec::new();
        push_str(&mut msg, "v1/v2 header version mismatch: ");
        push_int(&mut msg, version as i128);
        push_str(&mut msg, " vs ");
        push_int(&mut msg, v2 as i128);
        return Err(string_of(&msg));
    }
    let blk = read_block(&mut c, counts2, true)?;
    proof { lemma_block_wf(bytes@, p3, counts2, true); }
    let footer = read_footer(&c);
    let z = Tzif {
        version,
        transitions: blk.transitions,
        type_indices: blk.type_indices,
        types: blk.types,
        leaps: blk.leaps,
        footer,
    };
    assert(z@ == model_of(version, blk@, footer_of(bytes@, c.p as int)));
    Ok(z)
}

// ---------------------------------------------------------------------------
// Lookups in the explicit table.
// ---------------------------------------------------------------------------

/// Index of the first non-DST type at or after `i`, or 0 when there is none.
pub open spec fn first_std_from(types: Seq<LocalTime>, i: int) -> int
    decreases types.len() - i,
{
    if i >= types.len() {
        0
    } else if !types[i].is_dst {
        i
    } else {
        first_std_from(types, i + 1)
    }
}

/// The type in effect before the first transition (RFC 9636: the first non-DST type, else type 0).
pub open spec fn pre_first_index(types: Seq<LocalTime>) -> int {
    first_std_from(types, 0)
}

/// Transition times in non-decreasing order.
pub open spec fn is_sorted(tr: Seq<i64>) -> bool {
    forall|i: int, j: int| 0 <= i <= j < tr.len() ==> tr[i] <= tr[j]
}

/// Index of the last transition at or before `t`, or -1 when there is none.
pub open spec fn last_at_or_before(tr: Seq<i64>, t: int) -> int
    decreases tr.len(),
{
    if tr.len() == 0 {
        -1
    } else if tr.last() <= t {
        tr.len() - 1
    } else {
        last_at_or_before(tr.drop_last(), t)
    }
}

/// Index of the type in effect at `t` according to the explicit table: that of the last
/// transition at or before `t`, or the pre-first type.
pub open spec fn explicit_type_index(z: TzifModel, t: int) -> int {
    let k = last_at_or_before(z.transitions, t);
    if k < 0 {
        pre_first_index(z.types)
    } else {
        z.type_indices[k] as int
    }
}

/// The instant lies at or after the last explicit transition (or there is none), so the footer
/// governs it.
pub open spec fn beyond_spec(z: TzifModel, t: int) -> bool {
    z.transitions.len() == 0 || t >= z.transitions.last()
}

proof fn lemma_first_std_bound(types: Seq<LocalTime>, i: int)
    requires
        0 <= i,
        types.len() >= 1,
    ensures
        0 <= first_std_from(types, i) < types.len(),
    decreases types.len() - i,
{
    if i < types.len() && types[i].is_dst {
        lemma_first_std_bound(types, i + 1);
    }
}

proof fn lemma_last_at_or_before(tr: Seq<i64>, t: int, k: int)
    requires
        -1 <= k < tr.len(),
        k >= 0 ==> tr[k] <= t,
        forall|j: int| k < j < tr.len() ==> tr[j] > t,
    ensures
        last_at_or_before(tr, t) == k,
    decreases tr.len(),
{
    if tr.len() > 0 && tr.len() - 1 != k {
        lemma_last_at_or_before(tr.drop_last(), t, k);
    }
}

proof fn lemma_last_at_or_before_range(tr: Seq<i64>, t: int)
    ensures
        -1 <= last_at_or_before(tr, t) < tr.len(),
    decreases tr.len(),
{
    if tr.len() > 0 {
        lemma_last_at_or_before_range(tr.drop_last(), t);
    }
}

/// The binary search over transitions `lo..hi` that the lookup performs: the probe at the middle
/// index moves the lower bound past it when that transition is at or before `t`, and the upper
/// bound down to it otherwise; the result is where the bounds meet.
pub open spec fn search_split(tr: Seq<i64>, t: int, lo: int, hi: int) -> int
    decreases hi - lo,
{
    if lo < 0 || hi > tr.len() || lo >= hi {
        lo
    } else {
        let mid = lo + (hi - lo) / 2;
        if tr[mid] <= t {
            search_split(tr, t, mid + 1, hi)
        } else {
            search_split(tr, t, lo, mid)
        }
    }
}

/// Index of the type the explicit-table lookup answers at `t`, for any table: the type of the
/// transition just before where the binary search over the whole table ends, or the pre-first
/// type when it ends at the start.
pub open spec fn lookup_type_index(z: TzifModel, t: int) -> int {
    let k = search_split(z.transitions, t, 0, z.transitions.len() as int);
    if k <= 0 {
        pre_first_index(z.types)
    } else {
        z.type_indices[k - 1] as int
    }
}

proof fn lemma_search_range(tr: Seq<i64>, t: int, lo: int, hi: int)
    requires
        0 <= lo <= hi <= tr.len(),
    ensures
        lo <= search_split(tr, t, lo, hi) <= hi,
    decreases hi - lo,
{
    if lo < hi {
        let mid = lo + (hi - lo) / 2;
        if tr[mid] <= t {
            lemma_search_range(tr, t, mid + 1, hi);
        } else {
            lemma_search_range(tr, t, lo, mid);
        }
    }
}

proof fn lemma_search_sorted(tr: Seq<i64>, t: int, lo: int, hi: int)
    requires
        is_sorted(tr),
        0 <= lo <= hi <= tr.len(),
        forall|j: int| 0 <= j < lo ==> tr[j] <= t,
        forall|j: int| hi <= j < tr.len() ==> tr[j] > t,
    ensures
        ({
            let r = search_split(tr, t, lo, hi);
            &&& lo <= r <= hi
            &&& forall|j: int| 0 <= j < r ==> tr[j] <= t
            &&& forall|j: int| r <= j < tr.len() ==> tr[j] > t
        }),
    decreases hi - lo,
{
    if lo < hi {
        let mid = lo + (hi - lo) / 2;
        if tr[mid] <= t {
            lemma_search_sorted(tr, t, mid + 1, hi);
        } else {
            lemma_search_sorted(tr, t, lo, mid);
        }
    }
}

/// Law: for a table in ascending order the lookup's binary search stops right after the last
/// transition at or before `t` (every transition before the stop is at or before `t`, every one
/// from it on is after `t`), so its answer is the type that transition set (the pre-first type
/// before them all); and for any well-formed table the answer names one of its types.
pub proof fn lemma_lookup_type_index(z: TzifModel, t: int)
    requires
        model_wf(z),
    ensures
        0 <= lookup_type_index(z, t) < z.types.len(),
        is_sorted(z.transitions) ==> lookup_type_index(z, t) == explicit_type_index(z, t),
        is_sorted(z.transitions) ==> ({
            let k = search_split(z.transitions, t, 0, z.transitions.len() as int);
            &&& forall|j: int| 0 <= j < k ==> z.transitions[j] <= t
            &&& forall|j: int| k <= j < z.transitions.len() ==> z.transitions[j] > t
        }),
{
    let tr = z.transitions;
    lemma_search_range(tr, t, 0, tr.len() as int);
    lemma_first_std_bound(z.types, 0);
    let k = search_split(tr, t, 0, tr.len() as int);
    if k > 0 {
        assert((z.type_indices[k - 1] as int) < z.types.len());
    }
    if is_sorted(tr) {
        lemma_search_sorted(tr, t, 0, tr.len() as int);
        lemma_last_at_or_before(tr, t, k - 1);
    }
}

/// The observation a local-time type gives.
fn observation_of(tt: &TtInfo) -> (o: Observation)
    ensures
        o@ == tt@,
{
    Observation { utoff: tt.utoff, is_dst: tt.is_dst, abbr: tt.abbr.clone() }
}

impl Tzif {
    /// The local-time type index in effect *before the first transition* (RFC 9636: the first
    /// non-DST type, else type 0).
    fn pre_first_type(&self) -> (r: usize)
        requires
            self.wf(),
        ensures
            r == pre_first_index(self@.types),
            r < self.types.len(),
    {
        proof { lemma_first_std_bound(self@.types, 0); }
        let mut i: usize = 0;
        while i < self.types.len()
            invariant
                i <= self.types.len(),
                self@.types.len() == self.types.len(),
                first_std_from(self@.types, 0) == first_std_from(self@.types, i as int),
            decreases self.types.len() - i,
        {
            assert(self@.types[i as int] == self.types@[i as int]@);
            if !self.types[i].is_dst {
                return i;
            }
            i = i + 1;
        }
        0
    }

    /// The explicit-table-only lookup (no footer projection): a binary search over the
    /// transitions. For a table in ascending order its answer is the type of the last transition
    /// at or before `t` (the pre-first type before them all).
    pub fn observe_explicit(&self, t: i64) -> (o: Observation)
        requires
            self.wf(),
        ensures
            o@ == self@.types[lookup_type_index(self@, t as int)],
            is_sorted(self@.transitions) ==> o@ == self@.types[explicit_type_index(self@, t as int)],
    {
        let n = self.transitions.len();
        let ghost tr = self@.transitions;
        let mut lo: usize = 0;
        let mut hi: usize = n;
        while lo < hi
            invariant
                lo <= hi <= n,
                n == tr.len(),
                tr == self.transitions@,
                search_split(tr, t as int, lo as int, hi as int) == search_split(
                    tr,
                    t as int,
                    0,
                    n as int,
                ),
            decreases hi - lo,
        {
            let mid = lo + (hi - lo) / 2;
            if self.transitions[mid] <= t {
                lo = mid + 1;
            } else {
                hi = mid;
            }
        }
        proof { lemma_lookup_type_index(self@, t as int); }
        let ti = if lo == 0 {
            self.pre_first_type()
        } else {
            assert((self.type_indices@[lo - 1] as int) < self@.types.len());
            self.type_indices[lo - 1] as usize
        };
        assert(self@.types[ti as int] == self.types@[ti as int]@);
        observation_of(&self.types[ti])
    }

    /// True when `t` is at or beyond the last explicit transition, so the answer is
    /// footer-governed.
    pub fn beyond_explicit(&self, t: i64) -> (r: bool)
        ensures
            r == beyond_spec(self@, t as int),
    {
        let n = self.transitions.len();
        if n == 0 {
            true
        } else {
            t >= self.transitions[n - 1]
        }
    }
}

/// One explicit transition as mathematical values.
pub struct RowModel {
    pub at: i64,
    pub before: LocalTime,
    pub after: LocalTime,
}

impl View for TransitionRow {
    type V = RowModel;

    open spec fn view(&self) -> RowModel {
        RowModel { at: self.at, before: self.before@, after: self.after@ }
    }
}

/// The row for transition `i`: its instant, the type in effect before it (that of transition
/// `i - 1`, or the pre-first type for the first one) and the type it selects.
pub open spec fn row_at(z: TzifModel, i: int) -> RowModel {
    RowModel {
        at: z.transitions[i],
        before: if i == 0 {
            z.types[pre_first_index(z.types)]
        } else {
            z.types[z.type_indices[i - 1] as int]
        },
        after: z.types[z.type_indices[i] as int],
    }
}

/// The rows of the first `n` transitions whose instant lies in `[lo, hi)`, in table order.
pub open spec fn rows_in(z: TzifModel, lo: int, hi: int, n: nat) -> Seq<RowModel>
    decreases n,
{
    if n == 0 {
        Seq::empty()
    } else {
        let prev = rows_in(z, lo, hi, (n - 1) as nat);
        let at = z.transitions[n - 1];
        if lo <= at < hi {
            prev.push(row_at(z, n - 1))
        } else {
            prev
        }
    }
}

impl Tzif {
    /// Every explicit transition with `lo <= at < hi`, each with the type in effect just before and
    /// at it, in table order.
    pub fn transitions_in(&self, lo: i64, hi: i64) -> (rows: Vec<TransitionRow>)
        requires
            self.wf(),
        ensures
            rows@.map_values(|r: TransitionRow| r@) == rows_in(
                self@,
                lo as int,
                hi as int,
                self@.transitions.len(),
            ),
    {
        let mut out: Vec<TransitionRow> = Vec::new();
        let mut i: usize = 0;
        let pre = self.pre_first_type();
        while i < self.transitions.len()
            invariant
                self.wf(),
                i <= self.transitions.len(),
                pre == pre_first_index(self@.types),
                pre < self.types.len(),
                out@.map_values(|r: TransitionRow| r@) == rows_in(self@, lo as int, hi as int, i as nat),
            decreases self.transitions.len() - i,
        {
            let at = self.transitions[i];
            let ghost prev = out@;
            if !(at < lo || at >= hi) {
                let before = if i == 0 {
                    assert(self@.types[pre as int] == self.types@[pre as int]@);
                    observation_of(&self.types[pre])
                } else {
                    let k = self.type_indices[i - 1] as usize;
                    assert((self.type_indices@[i - 1] as int) < self@.types.len());
                    assert(self@.types[k as int] == self.types@[k as int]@);
                    observation_of(&self.types[k])
                };
                let k = self.type_indices[i] as usize;
                assert((self.type_indices@[i as int] as int) < self@.types.len());
                assert(self@.types[k as int] == self.types@[k as int]@);
                let after = observation_of(&self.types[k]);
                let row = TransitionRow { at, before, after };
                assert(row@ == row_at(self@, i as int));
                out.push(row);
                assert(out@.map_values(|r: TransitionRow| r@) =~= prev.map_values(
                    |r: TransitionRow| r@,
                ).push(row@));
            }
            i = i + 1;
        }
        out
    }
}

/// The footer governs `t` and parses as a POSIX TZ string.
pub open spec fn footer_projects(z: TzifModel, t: int) -> bool {
    beyond_spec(z, t) && (z.footer matches Some(f) && tz_parse_spec(f) is Some)
}

/// What [`Tzif::observe`] answers at `t`: the footer's projection when the footer governs and
/// parses; otherwise the explicit table's lookup.
pub open spec fn observe_spec(z: TzifModel, t: int) -> LocalTime {
    if footer_projects(z, t) {
        tz_observe_spec(tz_parse_spec(z.footer->Some_0)->Some_0, t)
    } else {
        z.types[lookup_type_index(z, t)]
    }
}

impl Tzif {
    /// The type in effect at Unix instant `t`. Within the explicit transition table this is the
    /// table lookup; at or beyond the last explicit transition the POSIX footer governs when it
    /// parses; otherwise the table's answer stands (and `beyond_explicit` flags it).
    pub fn observe(&self, t: i64) -> (o: Observation)
        requires
            self.wf(),
        ensures
            o@ == observe_spec(self@, t as int),
    {
        if self.beyond_explicit(t) {
            if let Some(f) = &self.footer {
                if let Some(tz) = crate::posix::parse(f.as_str()) {
                    return tz.observe(t);
                }
            }
        }
        self.observe_explicit(t)
    }
}

// ---------------------------------------------------------------------------
// Laws.
// ---------------------------------------------------------------------------

/// Law: a table with no transitions and no footer (a fixed zone such as UTC) observes its
/// pre-first type at every instant.
pub proof fn lemma_fixed_table(z: TzifModel, t: int)
    requires
        model_wf(z),
        z.transitions.len() == 0,
        z.footer is None,
    ensures
        observe_spec(z, t) == z.types[pre_first_index(z.types)],
{
}

/// Law: inside the explicit table (before its last transition) the answer is the table's, never
/// the footer's.
pub proof fn lemma_inside_table_is_explicit(z: TzifModel, t: int)
    requires
        model_wf(z),
        is_sorted(z.transitions),
        !beyond_spec(z, t),
    ensures
        observe_spec(z, t) == z.types[explicit_type_index(z, t)],
{
    lemma_lookup_type_index(z, t);
}

/// Transition times in strictly ascending order.
pub open spec fn is_strictly_sorted(tr: Seq<i64>) -> bool {
    forall|i: int, j: int| 0 <= i < j < tr.len() ==> tr[i] < tr[j]
}

proof fn lemma_rows_in_members(z: TzifModel, lo: int, hi: int, n: nat, k: int)
    requires
        n <= z.transitions.len(),
        0 <= k < rows_in(z, lo, hi, n).len(),
    ensures
        exists|i: int|
            0 <= i < n && lo <= z.transitions[i] < hi && #[trigger] rows_in(z, lo, hi, n)[k]
                == row_at(z, i),
    decreases n,
{
    if n > 0 {
        let prev = rows_in(z, lo, hi, (n - 1) as nat);
        if k < prev.len() {
            lemma_rows_in_members(z, lo, hi, (n - 1) as nat, k);
            let i = choose|i: int|
                0 <= i < n - 1 && lo <= z.transitions[i] < hi && #[trigger] rows_in(
                    z,
                    lo,
                    hi,
                    (n - 1) as nat,
                )[k] == row_at(z, i);
            assert(rows_in(z, lo, hi, n)[k] == prev[k]);
        } else {
            assert(rows_in(z, lo, hi, n)[k] == row_at(z, n - 1));
        }
    }
}

/// Law: for a table in strictly ascending order, every row `transitions_in` reports lies in the
/// window, its `after` type is what the table observes at the transition instant, and its
/// `before` type is what the table observes one second earlier.
pub proof fn lemma_transition_rows(z: TzifModel, lo: int, hi: int, k: int)
    requires
        model_wf(z),
        is_strictly_sorted(z.transitions),
        0 <= k < rows_in(z, lo, hi, z.transitions.len()).len(),
    ensures
        ({
            let r = rows_in(z, lo, hi, z.transitions.len())[k];
            &&& lo <= r.at < hi
            &&& r.after == z.types[explicit_type_index(z, r.at as int)]
            &&& r.before == z.types[explicit_type_index(z, r.at - 1)]
        }),
{
    let n = z.transitions.len();
    lemma_rows_in_members(z, lo, hi, n, k);
    let i = choose|i: int|
        0 <= i < n && lo <= z.transitions[i] < hi && #[trigger] rows_in(z, lo, hi, n)[k]
            == row_at(z, i);
    let tr = z.transitions;
    lemma_last_at_or_before(tr, tr[i] as int, i);
    lemma_last_at_or_before(tr, tr[i] - 1, i - 1);
}


// ---------------------------------------------------------------------------
// Laws of the byte reader and of transition listing.
// ---------------------------------------------------------------------------

proof fn lemma_be_bound(s: Seq<u8>)
    ensures
        be_value(s) < pow256(s.len()),
    decreases s.len(),
{
    if s.len() > 0 {
        let p = s.drop_last();
        lemma_be_bound(p);
        lemma_pow256_step(p.len());
        let bp = be_value(p);
        let pp = pow256(p.len());
        let l = s.last() as nat;
        assert(bp * 256 + l < pp * 256) by (nonlinear_arith)
            requires
                bp < pp,
                l < 256,
        ;
    }
}

/// Law: a 4-byte field read as an `i32` carries the bytes' bits, most significant first: the
/// value differs from `b0·2^24 + b1·2^16 + b2·2^8 + b3` by a multiple of 2^32 (so a set top bit
/// reads as a negative number), and the read moves past the four bytes.
pub proof fn lemma_read_i32_bits(b: Seq<u8>, p: int)
    requires
        0 <= p,
        p + 4 <= b.len(),
        b.len() <= usize::MAX,
    ensures
        read_i32(b, p) matches Ok((v, q)) && q == p + 4 && (b[p] * 0x100_0000 + b[p + 1]
            * 0x1_0000 + b[p + 2] * 0x100 + b[p + 3] - v) % 0x1_0000_0000 == 0,
{
    let s = b.subrange(p, p + 4);
    let u = be_value(s);
    assert(u == b[p] * 0x100_0000 + b[p + 1] * 0x1_0000 + b[p + 2] * 0x100 + b[p + 3]) by {
        reveal_with_fuel(be_value, 5);
        assert(s.drop_last().drop_last().drop_last().drop_last().len() == 0);
    }
    lemma_be_bound(s);
    assert(pow256(4) == 0x1_0000_0000) by {
        reveal_with_fuel(pow256, 5);
    }
    assert((u as u32) as int == u);
    if u >= 0x8000_0000 {
        assert((u - 0x1_0000_0000) as i32 == u - 0x1_0000_0000);
        assert((u - (u - 0x1_0000_0000)) % 0x1_0000_0000 == 0);
    } else {
        assert((u as i32) == u);
        assert((u - u) % 0x1_0000_0000 == 0);
    }
}

/// The unsigned value of the eight bytes at `p`, most significant first.
pub open spec fn bytes8_value(b: Seq<u8>, p: int) -> int {
    b[p] * 0x100_0000_0000_0000 + b[p + 1] * 0x1_0000_0000_0000 + b[p + 2] * 0x100_0000_0000
        + b[p + 3] * 0x1_0000_0000 + b[p + 4] * 0x100_0000 + b[p + 5] * 0x1_0000 + b[p + 6] * 0x100
        + b[p + 7]
}

/// Law: an 8-byte field read as an `i64` carries the bytes' bits, most significant first: the
/// value differs from the bytes' unsigned value by a multiple of 2^64, and the read moves past
/// the eight bytes.
pub proof fn lemma_read_i64_bits(b: Seq<u8>, p: int)
    requires
        0 <= p,
        p + 8 <= b.len(),
        b.len() <= usize::MAX,
    ensures
        read_i64(b, p) matches Ok((v, q)) && q == p + 8 && (bytes8_value(b, p) - v)
            % 0x1_0000_0000_0000_0000 == 0,
{
    let s = b.subrange(p, p + 8);
    let u = be_value(s);
    assert(u == bytes8_value(b, p)) by {
        reveal_with_fuel(be_value, 9);
        let s4 = s.drop_last().drop_last().drop_last().drop_last();
        assert(s4.drop_last().drop_last().drop_last().drop_last().len() == 0);
    }
    lemma_be_bound(s);
    assert(pow256(8) == 0x1_0000_0000_0000_0000) by {
        reveal_with_fuel(pow256, 9);
    }
    if u >= 0x8000_0000_0000_0000 {
        assert((u - 0x1_0000_0000_0000_0000) as i64 == u - 0x1_0000_0000_0000_0000);
        assert((u - (u - 0x1_0000_0000_0000_0000)) % 0x1_0000_0000_0000_0000 == 0);
    } else {
        assert((u as i64) == u);
        assert((u - u) % 0x1_0000_0000_0000_0000 == 0);
    }
}

proof fn lemma_rows_in_complete(z: TzifModel, lo: int, hi: int, n: nat, i: int)
    requires
        n <= z.transitions.len(),
        0 <= i < n,
        lo <= z.transitions[i] < hi,
    ensures
        exists|k: int|
            0 <= k < rows_in(z, lo, hi, n).len() && #[trigger] rows_in(z, lo, hi, n)[k] == row_at(
                z,
                i,
            ),
    decreases n,
{
    let prev = rows_in(z, lo, hi, (n - 1) as nat);
    if i == n - 1 {
        assert(rows_in(z, lo, hi, n)[prev.len() as int] == row_at(z, i));
    } else {
        lemma_rows_in_complete(z, lo, hi, (n - 1) as nat, i);
        let k = choose|k: int|
            0 <= k < prev.len() && #[trigger] rows_in(z, lo, hi, (n - 1) as nat)[k] == row_at(
                z,
                i,
            );
        assert(rows_in(z, lo, hi, n)[k] == prev[k]);
    }
}

/// Law: the transition listing misses nothing: for every transition whose instant lies in
/// `[lo, hi)`, the rows reported hold that transition's row.
pub proof fn lemma_transitions_complete(z: TzifModel, lo: int, hi: int, i: int)
    requires
        0 <= i < z.transitions.len(),
        lo <= z.transitions[i] < hi,
    ensures
        exists|k: int|
            0 <= k < rows_in(z, lo, hi, z.transitions.len()).len() && #[trigger] rows_in(
                z,
                lo,
                hi,
                z.transitions.len(),
            )[k] == row_at(z, i),
{
    lemma_rows_in_complete(z, lo, hi, z.transitions.len(), i);
}
} // verus!
