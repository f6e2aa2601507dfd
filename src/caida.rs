use vstd::prelude::*;
use crate::topology::{built, RelKind, Relationship, Topology};

verus! {

pub const NEWLINE: u8 = 10;
pub const BAR: u8 = 124;
pub const HASH: u8 = 35;
pub const ZERO: u8 = 48;
pub const NINE: u8 = 57;
pub const MINUS: u8 = 45;
pub const ONE: u8 = 49;

/// Why an interchange file could not be read.
#[derive(Clone, Copy, PartialEq, Eq, Debug, Structural)]
pub enum BuildError {
    /// The line with this number (counted from 1) is neither a comment nor
    /// a record `AS1|AS2|code[|...]` with a known code.
    MalformedRecord { line: usize },
}

/// How one line of an interchange file reads.
#[derive(Clone, Copy, PartialEq, Eq, Debug, Structural)]
pub enum LineParse {
    /// An empty line or a comment.
    Skip,
    Record(Relationship),
    Malformed,
}

/// The first index in `from..end` that holds `c`, or `end`.
pub open spec fn next_in(s: Seq<u8>, from: int, end: int, c: u8) -> int
    decreases end - from,
{
    if from >= end {
        end
    } else if s[from] == c {
        from
    } else {
        next_in(s, from + 1, end, c)
    }
}

pub open spec fn all_digits(s: Seq<u8>, from: int, to: int) -> bool {
    forall|i: int| from <= i < to ==> ZERO <= #[trigger] s[i] <= NINE
}

/// The decimal value of the digits in `from..to`.
pub open spec fn digits_val(s: Seq<u8>, from: int, to: int) -> int
    decreases to - from,
{
    if to <= from {
        0
    } else {
        digits_val(s, from, to - 1) * 10 + (s[to - 1] - ZERO)
    }
}

/// The AS number written in `from..to`: one or more digits, at most `u32::MAX`.
pub open spec fn u32_field(s: Seq<u8>, from: int, to: int) -> Option<u32> {
    if from < to && all_digits(s, from, to) && digits_val(s, from, to) <= u32::MAX {
        Some(digits_val(s, from, to) as u32)
    } else {
        None
    }
}

/// The relationship code in `from..to`: `-1` (the first AS provides for the
/// second) or `0` (peers).
pub open spec fn code_kind(s: Seq<u8>, from: int, to: int) -> Option<RelKind> {
    if to - from == 2 && s[from] == MINUS && s[from + 1] == ONE {
        Some(RelKind::ProviderToCustomer)
    } else if to - from == 1 && s[from] == ZERO {
        Some(RelKind::PeerToPeer)
    } else {
        None
    }
}

/// How the line in `start..end` reads: fields are separated by `|`, and
/// fields after the third are ignored.
pub open spec fn parse_line(s: Seq<u8>, start: int, end: int) -> LineParse {
    if start >= end || s[start] == HASH {
        LineParse::Skip
    } else {
        let i = next_in(s, start, end, BAR);
        let j = next_in(s, i + 1, end, BAR);
        let k = next_in(s, j + 1, end, BAR);
        if i < end && j < end {
            match (u32_field(s, start, i), u32_field(s, i + 1, j), code_kind(s, j + 1, k)) {
                (Some(a), Some(b), Some(kind)) => LineParse::Record(Relationship { a, b, kind }),
                _ => LineParse::Malformed,
            }
        } else {
            LineParse::Malformed
        }
    }
}

/// The records of `s` from byte `from` on, whose first line has number
/// `line`; or the number of the first malformed line.
pub open spec fn parse_from(s: Seq<u8>, from: int, line: nat) -> Result<Seq<Relationship>, nat>
    decreases s.len() + 1 - from,
{
    if from >= s.len() {
        Ok(Seq::empty())
    } else {
        let e = next_in(s, from, s.len() as int, NEWLINE);
        if !(from <= e <= s.len()) {
            Ok(Seq::empty())
        } else {
            match parse_line(s, from, e) {
                LineParse::Malformed => Err(line),
                LineParse::Skip => parse_from(s, e + 1, line + 1),
                LineParse::Record(r) => match parse_from(s, e + 1, line + 1) {
                    Ok(rs) => Ok(seq![r] + rs),
                    Err(n) => Err(n),
                },
            }
        }
    }
}

/// The records of a whole interchange file, or the number of its first
/// malformed line.
pub open spec fn parse_file(s: Seq<u8>) -> Result<Seq<Relationship>, nat> {
    parse_from(s, 0, 1)
}

pub proof fn lemma_next_in_bounds(s: Seq<u8>, from: int, end: int, c: u8)
    requires
        from <= end,
    ensures
        from <= next_in(s, from, end, c) <= end,
        forall|i: int| from <= i < next_in(s, from, end, c) ==> s[i] != c,
    decreases end - from,
{
    if from < end && s[from] != c {
        lemma_next_in_bounds(s, from + 1, end, c);
    }
}

/// The first index in `from..end` of `data` that holds `c`, or `end`.
fn find_byte(data: &[u8], from: usize, end: usize, c: u8) -> (k: usize)
    requires
        from <= end <= data@.len(),
    ensures
        k == next_in(data@, from as int, end as int, c),
        from <= k <= end,
{
    let mut i = from;
    while i < end
        invariant
            from <= i <= end,
            end <= data@.len(),
            next_in(data@, from as int, end as int, c) == next_in(data@, i as int, end as int, c),
        decreases end - i,
    {
        if data[i] == c {
            return i;
        }
        i = i + 1;
    }
    i
}

proof fn lemma_digits_mono(s: Seq<u8>, from: int, i: int, to: int)
    requires
        from <= i <= to,
        all_digits(s, from, to),
    ensures
        digits_val(s, from, i) <= digits_val(s, from, to),
    decreases to - i,
{
    if i < to {
        lemma_digits_mono(s, from, i, to - 1);
        assert(all_digits(s, from, to - 1));
        assert(ZERO <= s[to - 1]);
        lemma_digits_nonneg(s, from, to - 1);
    }
}

proof fn lemma_digits_nonneg(s: Seq<u8>, from: int, to: int)
    requires
        all_digits(s, from, to),
    ensures
        digits_val(s, from, to) >= 0,
    decreases to - from,
{
    if from < to {
        assert(all_digits(s, from, to - 1));
        lemma_digits_nonneg(s, from, to - 1);
        assert(ZERO <= s[to - 1]);
    }
}

/// The AS number written in `from..to` of `data`.
fn parse_u32_field(data: &[u8], from: usize, to: usize) -> (r: Option<u32>)
    requires
        from <= to <= data@.len(),
    ensures
        r == u32_field(data@, from as int, to as int),
{
    if from >= to {
        return None;
    }
    let mut acc: u64 = 0;
    let mut i = from;
    while i < to
        invariant
            from <= i <= to,
            to <= data@.len(),
            all_digits(data@, from as int, i as int),
            acc == digits_val(data@, from as int, i as int),
            acc <= u32::MAX,
        decreases to - i,
    {
        let c = data[i];
        if c < ZERO || c > NINE {
            assert(!all_digits(data@, from as int, to as int));
            return None;
        }
        acc = acc * 10 + (c - ZERO) as u64;
        assert(all_digits(data@, from as int, i + 1));
        if acc > 0xFFFF_FFFFu64 {
            proof {
                if all_digits(data@, from as int, to as int) {
                    lemma_digits_mono(data@, from as int, i + 1, to as int);
                }
            }
            return None;
        }
        i = i + 1;
    }
    Some(acc as u32)
}

fn parse_code(data: &[u8], from: usize, to: usize) -> (r: Option<RelKind>)
    requires
        from <= to <= data@.len(),
    ensures
        r == code_kind(data@, from as int, to as int),
{
    if to - from == 2 && data[from] == MINUS && data[from + 1] == ONE {
        Some(RelKind::ProviderToCustomer)
    } else if to - from == 1 && data[from] == ZERO {
        Some(RelKind::PeerToPeer)
    } else {
        None
    }
}

/// How the line in `start..end` of `data` reads.
pub fn read_line(data: &[u8], start: usize, end: usize) -> (r: LineParse)
    requires
        start <= end <= data@.len(),
    ensures
        r == parse_line(data@, start as int, end as int),
{
    if start >= end || data[start] == HASH {
        return LineParse::Skip;
    }
    let i = find_byte(data, start, end, BAR);
    if i >= end {
        return LineParse::Malformed;
    }
    let j = find_byte(data, i + 1, end, BAR);
    if j >= end {
        return LineParse::Malformed;
    }
    let k = find_byte(data, j + 1, end, BAR);
    match (parse_u32_field(data, start, i), parse_u32_field(data, i + 1, j), parse_code(data, j + 1, k)) {
        (Some(a), Some(b), Some(kind)) => LineParse::Record(Relationship { a, b, kind }),
        _ => LineParse::Malformed,
    }
}

/// `acc` followed by the records of `r`, or the error of `r`.
pub open spec fn prepend(acc: Seq<Relationship>, r: Result<Seq<Relationship>, nat>) -> Result<Seq<Relationship>, nat> {
    match r {
        Ok(rs) => Ok(acc + rs),
        Err(n) => Err(n),
    }
}

impl Topology {
    /// The topology of an interchange file: one relationship per record,
    /// in both directions, or the number of the first malformed line.
    pub fn from_caida(data: &[u8]) -> (r: Result<Topology, BuildError>)
        requires
            data@.len() < usize::MAX / 2,
        ensures
            match parse_file(data@) {
                Ok(rs) => r matches Ok(t) && t.wf() && t@ == built(rs),
                Err(n) => r matches Err(BuildError::MalformedRecord { line }) && line == n,
            },
    {
        let mut t = Topology::new();
        let mut pos: usize = 0;
        let mut line: usize = 1;
        let ghost mut acc: Seq<Relationship> = Seq::empty();
        assert(acc + parse_from(data@, 0, 1)->Ok_0 =~= parse_from(data@, 0, 1)->Ok_0);
        while pos < data.len()
            invariant
                pos <= data@.len() + 1,
                data@.len() < usize::MAX / 2,
                t.wf(),
                t@ == built(acc),
                t.slots() <= 2 * acc.len(),
                acc.len() <= pos,
                1 <= line <= pos + 1,
                parse_file(data@) == prepend(acc, parse_from(data@, pos as int, line as nat)),
            decreases data@.len() + 1 - pos,
        {
            let e = find_byte(data, pos, data.len(), NEWLINE);
            let ghost rest = parse_from(data@, e + 1, (line + 1) as nat);
            assert(parse_from(data@, pos as int, line as nat) == match parse_line(data@, pos as int, e as int) {
                LineParse::Malformed => Err(line as nat),
                LineParse::Skip => rest,
                LineParse::Record(r) => match rest {
                    Ok(rs) => Ok(seq![r] + rs),
                    Err(n) => Err(n),
                },
            });
            match read_line(data, pos, e) {
                LineParse::Malformed => {
                    return Err(BuildError::MalformedRecord { line });
                },
                LineParse::Skip => {},
                LineParse::Record(rel) => {
                    t.add_relationship(rel.a, rel.b, rel.kind);
                    proof {
                        let acc2 = acc.push(rel);
                        assert(acc2.drop_last() =~= acc);
                        match rest {
                            Ok(rs) => {
                                assert(acc + (seq![rel] + rs) =~= acc2 + rs);
                            },
                            Err(n) => {},
                        }
                        acc = acc2;
                    }
                },
            }
            pos = e + 1;
            line = line + 1;
        }
        assert(acc + Seq::<Relationship>::empty() =~= acc);
        Ok(t)
    }
}

} // verus!
