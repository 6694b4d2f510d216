//! Sprite templates read from text: one cell per line, written `<x> <y> <glyph>`.
use crate::geometry::Coord;
use vstd::prelude::*;
use vstd::string::StrSliceExecFns;

verus! {

/// Why a sprite description could not be read.
#[derive(Debug, Clone, Copy, PartialEq, Eq, Structural)]
pub enum AssetError {
    /// A line lacks its x or its y field.
    MissingField,
    /// An x or y field is not a decimal number in `0..=65535`.
    InvalidNumber,
    /// A shape has fewer cells than its role needs.
    TooFewCells,
}

/// Unicode's `White_Space` characters.
pub open spec fn is_space(c: char) -> bool {
    let u = c as u32;
    (0x9 <= u <= 0xd) || u == 0x20 || u == 0x85 || u == 0xa0 || u == 0x1680 || (0x2000 <= u
        <= 0x200a) || u == 0x2028 || u == 0x2029 || u == 0x202f || u == 0x205f || u == 0x3000
}

/// Length of the run of non-space characters that starts `s`.
pub open spec fn word_len(s: Seq<char>) -> nat
    decreases s.len(),
{
    if s.len() == 0 || is_space(s[0]) {
        0
    } else {
        1 + word_len(s.drop_first())
    }
}

/// The whitespace-separated fields of `s`, in order.
pub open spec fn tokens(s: Seq<char>) -> Seq<Seq<char>>
    decreases s.len(),
    via tokens_decreases
{
    if s.len() == 0 {
        Seq::empty()
    } else if is_space(s[0]) {
        tokens(s.drop_first())
    } else {
        let n = word_len(s);
        if n == 0 {
            Seq::empty()
        } else {
            seq![s.take(n as int)] + tokens(s.skip(n as int))
        }
    }
}

proof fn lemma_word_len_bound(s: Seq<char>)
    ensures
        word_len(s) <= s.len(),
    decreases s.len(),
{
    if s.len() > 0 && !is_space(s[0]) {
        lemma_word_len_bound(s.drop_first());
    }
}

#[via_fn]
proof fn tokens_decreases(s: Seq<char>) {
    lemma_word_len_bound(s);
}

/// Length of the first line of `s`, without its newline.
pub open spec fn line_len(s: Seq<char>) -> nat
    decreases s.len(),
{
    if s.len() == 0 || s[0] == '\n' {
        0
    } else {
        1 + line_len(s.drop_first())
    }
}

pub open spec fn is_digit(c: char) -> bool {
    '0' <= c <= '9'
}

/// The number that a string of decimal digits spells.
pub open spec fn digits_value(d: Seq<char>) -> int
    decreases d.len(),
{
    if d.len() == 0 {
        0
    } else {
        digits_value(d.drop_last()) * 10 + (d.last() as int - '0' as int)
    }
}

/// A field without its optional leading `+`.
pub open spec fn unsigned_part(t: Seq<char>) -> Seq<char> {
    if t.len() > 0 && t[0] == '+' {
        t.drop_first()
    } else {
        t
    }
}

pub open spec fn all_digits(d: Seq<char>) -> bool {
    forall|i: int| 0 <= i < d.len() ==> is_digit(#[trigger] d[i])
}

/// A field read as an unsigned 16-bit decimal number, with an optional leading `+`.
pub open spec fn u16_field(t: Seq<char>) -> Option<u16> {
    let d = unsigned_part(t);
    if d.len() > 0 && all_digits(d) && digits_value(d) <= 0xffff {
        Some(digits_value(d) as u16)
    } else {
        None
    }
}

/// One line read as a cell: x, then y, then the glyph (first character of the
/// third field; a space where there is none). Further fields are ignored.
pub open spec fn parse_line(line: Seq<char>) -> Result<Coord, AssetError> {
    let t = tokens(line);
    if t.len() == 0 {
        Err(AssetError::MissingField)
    } else if u16_field(t[0]) is None {
        Err(AssetError::InvalidNumber)
    } else if t.len() == 1 {
        Err(AssetError::MissingField)
    } else if u16_field(t[1]) is None {
        Err(AssetError::InvalidNumber)
    } else {
        Ok(
            Coord {
                x: u16_field(t[0])->0,
                y: u16_field(t[1])->0,
                ch: if t.len() >= 3 {
                    t[2][0]
                } else {
                    ' '
                },
            },
        )
    }
}

/// A whole text read line by line; the first bad line decides the error. A
/// final newline ends the last line and starts no new one.
pub open spec fn parse_text(s: Seq<char>) -> Result<Seq<Coord>, AssetError>
    decreases s.len(),
{
    if s.len() == 0 {
        Ok(Seq::empty())
    } else {
        let n = line_len(s);
        let rest = if n < s.len() {
            s.skip(n + 1 as int)
        } else {
            Seq::empty()
        };
        match parse_line(s.take(n as int)) {
            Err(e) => Err(e),
            Ok(c) => match parse_text(rest) {
                Err(e) => Err(e),
                Ok(cells) => Ok(seq![c] + cells),
            },
        }
    }
}

proof fn lemma_word_len_at(s: Seq<char>, m: int)
    requires
        0 <= m <= s.len(),
        forall|k: int| 0 <= k < m ==> !is_space(#[trigger] s[k]),
        m == s.len() || is_space(s[m]),
    ensures
        word_len(s) == m,
    decreases m,
{
    if m > 0 {
        lemma_word_len_at(s.drop_first(), m - 1);
    }
}

proof fn lemma_line_len_at(s: Seq<char>, m: int)
    requires
        0 <= m <= s.len(),
        forall|k: int| 0 <= k < m ==> #[trigger] s[k] != '\n',
        m == s.len() || s[m] == '\n',
    ensures
        line_len(s) == m,
    decreases m,
{
    if m > 0 {
        lemma_line_len_at(s.drop_first(), m - 1);
    }
}

fn is_space_char(c: char) -> (r: bool)
    ensures
        r == is_space(c),
{
    let u = c as u32;
    (0x9 <= u && u <= 0xd) || u == 0x20 || u == 0x85 || u == 0xa0 || u == 0x1680 || (0x2000 <= u
        && u <= 0x200a) || u == 0x2028 || u == 0x2029 || u == 0x202f || u == 0x205f || u == 0x3000
}

/// The characters of `content`, in order.
fn text_chars(content: &str) -> (r: Vec<char>)
    ensures
        r@ == content@,
{
    let n = content.unicode_len();
    let mut r: Vec<char> = Vec::new();
    let mut i: usize = 0;
    while i < n
        invariant
            n == content@.len(),
            i <= n,
            r@ == content@.subrange(0, i as int),
        decreases n - i,
    {
        r.push(content.get_char(i));
        i += 1;
        assert(r@ =~= content@.subrange(0, i as int));
    }
    assert(r@ =~= content@);
    r
}

/// Finds the first field of `t[from..end]`: its bounds, or `(end, end)` where there is none.
fn next_token(t: &Vec<char>, from: usize, end: usize) -> (r: (usize, usize))
    requires
        from <= end <= t.len(),
    ensures
        from <= r.0 <= r.1 <= end,
        r.0 == end ==> tokens(t@.subrange(from as int, end as int)).len() == 0,
        r.0 < end ==> r.0 < r.1 && tokens(t@.subrange(from as int, end as int)) == seq![
            t@.subrange(r.0 as int, r.1 as int),
        ] + tokens(t@.subrange(r.1 as int, end as int)),
{
    let mut i = from;
    while i < end && is_space_char(t[i])
        invariant
            from <= i <= end <= t.len(),
            tokens(t@.subrange(from as int, end as int)) == tokens(
                t@.subrange(i as int, end as int),
            ),
        decreases end - i,
    {
        assert(t@.subrange(i as int, end as int).drop_first() =~= t@.subrange(
            i + 1,
            end as int,
        ));
        i += 1;
    }
    if i == end {
        return (end, end);
    }
    let mut j = i;
    while j < end && !is_space_char(t[j])
        invariant
            i <= j <= end <= t.len(),
            forall|k: int| i <= k < j ==> !is_space(#[trigger] t@[k]),
        decreases end - j,
    {
        j += 1;
    }
    proof {
        let s = t@.subrange(i as int, end as int);
        assert forall|k: int| 0 <= k < j - i implies !is_space(#[trigger] s[k]) by {
            assert(s[k] == t@[i + k]);
        }
        lemma_word_len_at(s, j - i);
        assert(s.take(j - i) =~= t@.subrange(i as int, j as int));
        assert(s.skip(j - i) =~= t@.subrange(j as int, end as int));
    }
    (i, j)
}

/// Reads `t[start..stop]` as a decimal `u16`.
fn parse_field(t: &Vec<char>, start: usize, stop: usize) -> (r: Option<u16>)
    requires
        start <= stop <= t.len(),
    ensures
        r == u16_field(t@.subrange(start as int, stop as int)),
{
    let ghost f = t@.subrange(start as int, stop as int);
    let mut ds = start;
    if start < stop && t[start] == '+' {
        ds = start + 1;
        assert(f.drop_first() =~= t@.subrange(ds as int, stop as int));
    } else {
        assert(f =~= t@.subrange(ds as int, stop as int));
    }
    let ghost d = t@.subrange(ds as int, stop as int);
    assert(d == unsigned_part(f));
    if ds == stop {
        return None;
    }
    let mut acc: u32 = 0;
    let mut big = false;
    let mut k = ds;
    while k < stop
        invariant
            start <= ds <= k <= stop <= t.len(),
            d == t@.subrange(ds as int, stop as int),
            f == t@.subrange(start as int, stop as int),
            d == unsigned_part(f),
            forall|i: int| ds <= i < k ==> is_digit(#[trigger] t@[i]),
            !big ==> acc == digits_value(t@.subrange(ds as int, k as int)) && acc <= 0xffff,
            big ==> digits_value(t@.subrange(ds as int, k as int)) > 0xffff,
        decreases stop - k,
    {
        let c = t[k];
        if !('0' <= c && c <= '9') {
            assert(!is_digit(d[k - ds]));
            assert(!all_digits(d));
            return None;
        }
        let ghost prev = digits_value(t@.subrange(ds as int, k as int));
        assert(t@.subrange(ds as int, k + 1).drop_last() =~= t@.subrange(ds as int, k as int));
        assert(digits_value(t@.subrange(ds as int, k + 1)) == prev * 10 + (c as int - '0' as int));
        if !big {
            let v = acc * 10 + (c as u32 - '0' as u32);
            if v > 0xffff {
                big = true;
            } else {
                acc = v;
            }
        }
        k += 1;
    }
    assert(t@.subrange(ds as int, k as int) =~= d);
    assert forall|i: int| 0 <= i < d.len() implies is_digit(#[trigger] d[i]) by {
        assert(d[i] == t@[ds + i]);
    }
    if big {
        None
    } else {
        Some(acc as u16)
    }
}

/// Reads the line `t[start..end]` as one cell.
fn parse_line_at(t: &Vec<char>, start: usize, end: usize) -> (r: Result<Coord, AssetError>)
    requires
        start <= end <= t.len(),
    ensures
        r == parse_line(t@.subrange(start as int, end as int)),
{
    let ghost line = t@.subrange(start as int, end as int);
    let (s0, e0) = next_token(t, start, end);
    if s0 == end {
        return Err(AssetError::MissingField);
    }
    let x = parse_field(t, s0, e0);
    if x.is_none() {
        return Err(AssetError::InvalidNumber);
    }
    let (s1, e1) = next_token(t, e0, end);
    if s1 == end {
        assert(tokens(line) =~= seq![t@.subrange(s0 as int, e0 as int)]);
        return Err(AssetError::MissingField);
    }
    let y = parse_field(t, s1, e1);
    assert(tokens(line)[1] == t@.subrange(s1 as int, e1 as int));
    if y.is_none() {
        return Err(AssetError::InvalidNumber);
    }
    let (s2, e2) = next_token(t, e1, end);
    let ch = if s2 == end {
        assert(tokens(line).len() == 2);
        ' '
    } else {
        assert(tokens(line)[2] == t@.subrange(s2 as int, e2 as int));
        t[s2]
    };
    Ok(Coord { x: x.unwrap(), y: y.unwrap(), ch })
}

/// Reads a sprite template: each line of `content` gives one cell.
pub fn parse_prototype(content: &str) -> (r: Result<Vec<Coord>, AssetError>)
    ensures
        match r {
            Ok(cells) => parse_text(content@) == Ok::<Seq<Coord>, AssetError>(cells@),
            Err(e) => parse_text(content@) == Err::<Seq<Coord>, AssetError>(e),
        },
{
    let t = text_chars(content);
    let n = t.len();
    let ghost s = t@;
    let mut buffer: Vec<Coord> = Vec::new();
    let mut pos: usize = 0;
    assert(s.skip(0) =~= s);
    while pos < n
        invariant
            n == t.len(),
            s == t@,
            s == content@,
            pos <= n,
            parse_text(s) == match parse_text(s.skip(pos as int)) {
                Ok(rest) => Ok::<Seq<Coord>, AssetError>(buffer@ + rest),
                Err(e) => Err(e),
            },
        decreases n - pos,
    {
        let mut end = pos;
        while end < n && t[end] != '\n'
            invariant
                pos <= end <= n,
                n == t.len(),
                forall|k: int| pos <= k < end ==> #[trigger] t@[k] != '\n',
            decreases n - end,
        {
            end += 1;
        }
        let ghost rem = s.skip(pos as int);
        proof {
            assert forall|k: int| 0 <= k < end - pos implies #[trigger] rem[k] != '\n' by {
                assert(rem[k] == t@[pos + k]);
            }
            lemma_line_len_at(rem, end - pos);
            assert(rem.take(end - pos) =~= t@.subrange(pos as int, end as int));
        }
        let cell = parse_line_at(&t, pos, end);
        match cell {
            Err(e) => {
                assert(parse_text(rem) == Err::<Seq<Coord>, AssetError>(e));
                return Err(e);
            },
            Ok(c) => {
                let ghost old_buffer = buffer@;
                buffer.push(c);
                if end < n {
                    assert(rem.skip(end - pos + 1) =~= s.skip(end + 1));
                    pos = end + 1;
                } else {
                    assert(s.skip(n as int) =~= Seq::<char>::empty());
                    pos = n;
                }
                proof {
                    match parse_text(s.skip(pos as int)) {
                        Ok(rest) => {
                            assert(buffer@ + rest =~= old_buffer + (seq![c] + rest));
                        },
                        Err(e) => {},
                    }
                }
            },
        }
    }
    assert(s.skip(n as int) =~= Seq::<char>::empty());
    assert(buffer@ + Seq::<Coord>::empty() =~= buffer@);
    Ok(buffer)
}

} // verus!
