//! The edge list format: one edge per line, two unsigned 32-bit integers in
//! decimal digits with a single tab between them.

use vstd::prelude::*;

verus! {

/// The tab that separates the two fields of a line.
pub const TAB: u8 = 9;

/// The byte is a decimal digit.
pub open spec fn is_digit(b: u8) -> bool {
    48 <= b <= 57
}

/// Every byte of `s` is a decimal digit.
pub open spec fn all_digits(s: Seq<u8>) -> bool {
    forall|i: int| 0 <= i < s.len() ==> is_digit(#[trigger] s[i])
}

/// The number that the decimal digits `s` denote.
pub open spec fn decimal(s: Seq<u8>) -> int
    decreases s.len(),
{
    if s.len() == 0 {
        0
    } else {
        decimal(s.drop_last()) * 10 + (s.last() - 48)
    }
}

/// `s` is a field that holds an unsigned 32-bit integer: at least one
/// digit, nothing but digits, and a value that fits.
pub open spec fn is_number(s: Seq<u8>) -> bool {
    s.len() > 0 && all_digits(s) && decimal(s) <= u32::MAX
}

/// Where the field that starts at `from` ends: at the next tab, or at the
/// end of the line.
pub open spec fn field_end(s: Seq<u8>, from: int) -> int
    decreases s.len() - from,
{
    if from < 0 || from >= s.len() || s[from] == TAB {
        from
    } else {
        field_end(s, from + 1)
    }
}

/// The edge that the line `s` holds, if it is well formed: a number, the
/// first tab of the line, and a number up to the end of the line.
pub open spec fn parsed(s: Seq<u8>) -> Option<(u32, u32)> {
    let t = field_end(s, 0);
    if t < s.len() && is_number(s.subrange(0, t)) && is_number(s.subrange(t + 1, s.len() as int)) {
        Some((decimal(s.subrange(0, t)) as u32, decimal(s.subrange(t + 1, s.len() as int)) as u32))
    } else {
        None
    }
}

/// Digits denote a number that no prefix of them exceeds.
pub proof fn lemma_decimal_grows(s: Seq<u8>, i: int)
    requires
        all_digits(s),
        0 <= i <= s.len(),
    ensures
        0 <= decimal(s.take(i)) <= decimal(s),
    decreases s.len(),
{
    if i == s.len() {
        assert(s.take(i) =~= s);
        if s.len() > 0 {
            assert(all_digits(s.drop_last())) by {
                assert forall|j: int| 0 <= j < s.drop_last().len() implies is_digit(
                    #[trigger] s.drop_last()[j],
                ) by {
                    assert(s.drop_last()[j] == s[j]);
                }
            }
            lemma_decimal_grows(s.drop_last(), i - 1);
            assert(is_digit(s[s.len() - 1]));
        }
    } else {
        let t = s.drop_last();
        assert(all_digits(t)) by {
            assert forall|j: int| 0 <= j < t.len() implies is_digit(#[trigger] t[j]) by {
                assert(t[j] == s[j]);
            }
        }
        lemma_decimal_grows(t, i);
        lemma_decimal_grows(t, t.len() as int);
        assert(t.take(i) =~= s.take(i));
        assert(is_digit(s[s.len() - 1]));
    }
}

/// The number in the bytes of `line` from `start` up to `end`, if they are
/// a number.
pub fn parse_field(line: &[u8], start: usize, end: usize) -> (value: Option<u32>)
    requires
        start <= end <= line@.len(),
    ensures
        value == if is_number(line@.subrange(start as int, end as int)) {
            Some(decimal(line@.subrange(start as int, end as int)) as u32)
        } else {
            None
        },
{
    let ghost field = line@.subrange(start as int, end as int);
    if start == end {
        return None;
    }
    let mut acc: u64 = 0;
    let mut i: usize = start;
    while i < end
        invariant
            start <= i <= end <= line@.len(),
            field == line@.subrange(start as int, end as int),
            all_digits(field.take(i - start)),
            acc == decimal(field.take(i - start)),
            acc <= u32::MAX,
        decreases end - i,
    {
        let b = line[i];
        proof {
            assert(field[i - start] == b);
            assert(field.take(i - start + 1).drop_last() =~= field.take(i - start));
        }
        if b < 48 || b > 57 {
            return None;
        }
        acc = acc * 10 + (b - 48) as u64;
        proof {
            assert forall|j: int| 0 <= j < i - start + 1 implies is_digit(
                #[trigger] field.take(i - start + 1)[j],
            ) by {
                if j < i - start {
                    assert(field.take(i - start + 1)[j] == field.take(i - start)[j]);
                }
            }
        }
        if acc > 0xffff_ffff {
            proof {
                if all_digits(field) {
                    lemma_decimal_grows(field, i - start + 1);
                }
            }
            return None;
        }
        i = i + 1;
    }
    proof {
        assert(field.take(end - start) =~= field);
    }
    Some(acc as u32)
}

/// The edge that one line of an edge list holds, or nothing where the line
/// is malformed: a field that is not a number, no tab, or no second field.
pub fn parse_line(line: &[u8]) -> (edge: Option<(u32, u32)>)
    ensures
        edge == parsed(line@),
{
    let mut t: usize = 0;
    while t < line.len() && line[t] != TAB
        invariant
            0 <= t <= line@.len(),
            field_end(line@, 0) == field_end(line@, t as int),
        decreases line@.len() - t,
    {
        t = t + 1;
    }
    if t == line.len() {
        return None;
    }
    match parse_field(line, 0, t) {
        Some(from) => match parse_field(line, t + 1, line.len()) {
            Some(to) => Some((from, to)),
            None => None,
        },
        None => None,
    }
}

/// The edges that the lines of an edge list hold, in order, or nothing
/// where some line is malformed.
pub fn parse_lines(lines: &Vec<Vec<u8>>) -> (edges: Option<Vec<(u32, u32)>>)
    ensures
        match edges {
            Some(v) => v@.len() == lines@.len() && forall|i: int|
                0 <= i < lines@.len() ==> parsed((#[trigger] lines@[i])@) == Some(v@[i]),
            None => exists|i: int| 0 <= i < lines@.len() && parsed((#[trigger] lines@[i])@) is None,
        },
{
    let mut out: Vec<(u32, u32)> = Vec::new();
    let mut i: usize = 0;
    while i < lines.len()
        invariant
            0 <= i <= lines@.len(),
            out@.len() == i,
            forall|j: int| 0 <= j < i ==> parsed((#[trigger] lines@[j])@) == Some(out@[j]),
        decreases lines@.len() - i,
    {
        match parse_line(lines[i].as_slice()) {
            Some(edge) => {
                out.push(edge);
            },
            None => {
                assert(parsed(lines@[i as int]@) is None);
                return None;
            },
        }
        i = i + 1;
    }
    Some(out)
}

} // verus!
