use vstd::prelude::*;

use crate::vec::{copy_all, copy_prefix};

verus! {

/// One data line of a skeleton file: its line number (from 1), the integer
/// fields, and the text of the four coordinate fields (x, y, z, radius).
pub struct SwcRecord {
    pub line: usize,
    pub id: i32,
    pub structure: i32,
    pub pid: i32,
    pub x: Vec<u8>,
    pub y: Vec<u8>,
    pub z: Vec<u8>,
    pub radius: Vec<u8>,
}

/// A data line whose id, structure or parent id is not an integer; `line`
/// counts from 1.
#[derive(Debug, Clone, Copy, PartialEq, Eq)]
pub struct MalformedLine {
    pub line: usize,
}

pub const NEWLINE: u8 = 10;
pub const CARRIAGE_RETURN: u8 = 13;
pub const SPACE: u8 = 32;
pub const HASH: u8 = 35;
pub const PLUS: u8 = 43;
pub const MINUS: u8 = 45;
pub const DIGIT_ZERO: u8 = 48;
pub const DIGIT_NINE: u8 = 57;

/// The pieces of `s` between occurrences of `sep`; an empty text is one
/// empty piece.
pub open spec fn split_on(s: Seq<u8>, sep: u8) -> Seq<Seq<u8>>
    decreases s.len(),
{
    if s.len() == 0 {
        seq![Seq::<u8>::empty()]
    } else {
        let init = split_on(s.drop_last(), sep);
        if s.last() == sep {
            init.push(Seq::<u8>::empty())
        } else {
            init.update(init.len() - 1, init.last().push(s.last()))
        }
    }
}

proof fn lemma_split_nonempty(s: Seq<u8>, sep: u8)
    ensures
        split_on(s, sep).len() >= 1,
    decreases s.len(),
{
    if s.len() > 0 {
        lemma_split_nonempty(s.drop_last(), sep);
    }
}

/// The value of a run of decimal digits.
pub open spec fn digits_value(s: Seq<u8>) -> int
    decreases s.len(),
{
    if s.len() == 0 {
        0
    } else {
        digits_value(s.drop_last()) * 10 + (s.last() - DIGIT_ZERO)
    }
}

pub open spec fn is_digit(b: u8) -> bool {
    DIGIT_ZERO <= b <= DIGIT_NINE
}

pub open spec fn all_digits(s: Seq<u8>) -> bool {
    forall|i: int| 0 <= i < s.len() ==> is_digit(#[trigger] s[i])
}

/// The integer that `s` writes: an optional sign and at least one decimal
/// digit, within the range of `i32`.
pub open spec fn parse_i32_spec(s: Seq<u8>) -> Option<int> {
    let signed = s.len() > 0 && (s[0] == MINUS || s[0] == PLUS);
    let digits = if signed { s.skip(1) } else { s };
    let magnitude = digits_value(digits);
    let v = if s.len() > 0 && s[0] == MINUS { -magnitude } else { magnitude };
    if digits.len() > 0 && all_digits(digits) && i32::MIN <= v <= i32::MAX {
        Some(v)
    } else {
        None
    }
}

proof fn lemma_digits_value_grows(s: Seq<u8>, k: int)
    requires
        all_digits(s),
        0 <= k <= s.len(),
    ensures
        0 <= digits_value(s.subrange(0, k)) <= digits_value(s),
    decreases s.len(),
{
    if s.len() > 0 {
        let init = s.drop_last();
        assert(all_digits(init)) by {
            assert forall|i: int| 0 <= i < init.len() implies is_digit(#[trigger] init[i]) by {
                assert(init[i] == s[i]);
            }
        }
        assert(is_digit(s[s.len() - 1]));
        if k == s.len() {
            assert(s.subrange(0, k) =~= s);
            lemma_digits_value_grows(init, init.len() as int);
            assert(init.subrange(0, init.len() as int) =~= init);
        } else {
            assert(s.subrange(0, k) =~= init.subrange(0, k));
            lemma_digits_value_grows(init, k);
        }
    }
}

/// Parses an integer field, as `str::parse::<i32>` reads one.
pub fn parse_i32(s: &[u8]) -> (r: Option<i32>)
    ensures
        r matches Some(v) ==> parse_i32_spec(s@) == Some(v as int),
        r is None ==> parse_i32_spec(s@) is None,
{
    let n = s.len();
    let negative = n > 0 && s[0] == MINUS;
    let start: usize = if n > 0 && (s[0] == MINUS || s[0] == PLUS) { 1 } else { 0 };
    let ghost digits = s@.subrange(start as int, n as int);
    assert(digits =~= if start == 1 { s@.skip(1) } else { s@ });
    if start == n {
        return None;
    }
    let mut acc: i64 = 0;
    let mut i: usize = start;
    while i < n
        invariant
            n == s@.len(),
            start <= i <= n,
            negative == (n > 0 && s@[0] == MINUS),
            start == (if n > 0 && (s@[0] == MINUS || s@[0] == PLUS) { 1usize } else { 0usize }),
            digits == s@.subrange(start as int, n as int),
            digits =~= if start == 1 { s@.skip(1) } else { s@ },
            all_digits(s@.subrange(start as int, i as int)),
            acc == digits_value(s@.subrange(start as int, i as int)),
            0 <= acc <= 0x8000_0000,
        decreases n - i,
    {
        let b = s[i];
        if b < DIGIT_ZERO || b > DIGIT_NINE {
            proof {
                assert(!is_digit(digits[i - start]));
            }
            return None;
        }
        let ghost prefix = s@.subrange(start as int, i + 1);
        assert(prefix.drop_last() =~= s@.subrange(start as int, i as int));
        acc = acc * 10 + (b - DIGIT_ZERO) as i64;
        i = i + 1;
        assert(all_digits(prefix)) by {
            assert forall|j: int| 0 <= j < prefix.len() implies is_digit(#[trigger] prefix[j]) by {
                if j < prefix.len() - 1 {
                    assert(prefix[j] == s@.subrange(start as int, i - 1)[j]);
                }
            }
        }
        if acc > 0x8000_0000 {
            proof {
                let rest_ok = all_digits(digits);
                if rest_ok {
                    lemma_digits_value_grows(digits, i - start);
                    assert(digits.subrange(0, i - start) =~= prefix);
                }
            }
            return None;
        }
    }
    assert(s@.subrange(start as int, i as int) =~= digits);
    let v: i64 = if negative { -acc } else { acc };
    if v < -0x8000_0000 || v > 0x7fff_ffff {
        return None;
    }
    Some(v as i32)
}

/// The pieces of a list of byte strings.
pub open spec fn pieces_view(v: Seq<Vec<u8>>) -> Seq<Seq<u8>> {
    v.map_values(|p: Vec<u8>| p@)
}

/// Splits `s` at each `sep`, as `str::split` does.
pub fn split_bytes(s: &[u8], sep: u8) -> (r: Vec<Vec<u8>>)
    ensures
        pieces_view(r@) == split_on(s@, sep),
{
    let mut out: Vec<Vec<u8>> = Vec::new();
    let mut cur: Vec<u8> = Vec::new();
    let mut i: usize = 0;
    assert(s@.subrange(0, 0) =~= Seq::<u8>::empty());
    while i < s.len()
        invariant
            i <= s@.len(),
            pieces_view(out@).push(cur@) == split_on(s@.subrange(0, i as int), sep),
        decreases s@.len() - i,
    {
        let ghost before = s@.subrange(0, i as int);
        let ghost now = s@.subrange(0, i + 1);
        assert(now.drop_last() =~= before);
        proof {
            lemma_split_nonempty(before, sep);
        }
        if s[i] == sep {
            let piece = cur;
            out.push(piece);
            cur = Vec::new();
            assert(pieces_view(out@).push(cur@) =~= split_on(now, sep));
        } else {
            let ghost old_out = out@;
            cur.push(s[i]);
            assert(pieces_view(out@).push(cur@) =~= split_on(now, sep));
        }
        i = i + 1;
    }
    assert(s@.subrange(0, i as int) =~= s@);
    out.push(cur);
    assert(pieces_view(out@) =~= split_on(s@, sep));
    out
}

/// A line without its line-ending carriage return.
pub open spec fn strip_cr(l: Seq<u8>) -> Seq<u8> {
    if l.len() > 0 && l.last() == CARRIAGE_RETURN {
        l.drop_last()
    } else {
        l
    }
}

/// A line that holds no record: empty, or a comment.
pub open spec fn line_skipped(l: Seq<u8>) -> bool {
    l.len() == 0 || l[0] == HASH
}

/// A record line has at least seven fields, and its integer fields parse.
pub open spec fn fields_ok(f: Seq<Seq<u8>>) -> bool {
    &&& f.len() >= 7
    &&& parse_i32_spec(f[0]) is Some
    &&& parse_i32_spec(f[1]) is Some
    &&& parse_i32_spec(f[6]) is Some
}

/// The positions and fields of the record lines among `lines`, in order, or
/// the position of the first line whose integer fields do not parse.
pub open spec fn parse_lines(lines: Seq<Seq<u8>>) -> Result<Seq<(int, Seq<Seq<u8>>)>, int>
    decreases lines.len(),
{
    if lines.len() == 0 {
        Ok(seq![])
    } else {
        match parse_lines(lines.drop_last()) {
            Err(e) => Err(e),
            Ok(acc) => {
                let l = strip_cr(lines.last());
                if line_skipped(l) {
                    Ok(acc)
                } else if fields_ok(split_on(l, SPACE)) {
                    Ok(acc.push((lines.len() - 1, split_on(l, SPACE))))
                } else {
                    Err(lines.len() - 1)
                }
            },
        }
    }
}

/// Record `r` holds the fields `f` of the line at position `at`.
pub open spec fn record_of_line(r: SwcRecord, at: int, f: Seq<Seq<u8>>) -> bool {
    &&& r.line == at + 1
    &&& parse_i32_spec(f[0]) == Some(r.id as int)
    &&& parse_i32_spec(f[1]) == Some(r.structure as int)
    &&& parse_i32_spec(f[6]) == Some(r.pid as int)
    &&& r.x@ == f[2]
    &&& r.y@ == f[3]
    &&& r.z@ == f[4]
    &&& r.radius@ == f[5]
}


/// Reads the records of a skeleton file: one per line, its fields separated
/// by single spaces (`id structure x y z radius parent_id`, more fields
/// ignored). Empty lines and lines that start with `#` are skipped. Any other
/// line with fewer than seven fields, or whose id, structure or parent id is
/// not an integer, fails the whole read.
pub fn parse_swc(text: &[u8]) -> (r: Result<Vec<SwcRecord>, MalformedLine>)
    ensures
        r matches Ok(recs) ==> parse_lines(split_on(text@, NEWLINE)) matches Ok(fs) && recs@.len() == fs.len()
            && forall|i: int| 0 <= i < fs.len() ==> #[trigger] record_of_line(recs@[i], fs[i].0, fs[i].1),
        r matches Err(e) ==> parse_lines(split_on(text@, NEWLINE)) == Err::<Seq<(int, Seq<Seq<u8>>)>, int>(e.line - 1),
        r is Ok <==> parse_lines(split_on(text@, NEWLINE)) is Ok,
{
    let lines = split_bytes(text, NEWLINE);
    let ghost ls = pieces_view(lines@);
    let mut recs: Vec<SwcRecord> = Vec::new();
    let mut k: usize = 0;
    while k < lines.len()
        invariant
            k <= lines@.len(),
            ls == pieces_view(lines@),
            ls == split_on(text@, NEWLINE),
            parse_lines(ls.subrange(0, k as int)) matches Ok(fs) && recs@.len() == fs.len()
                && forall|i: int| 0 <= i < fs.len() ==> #[trigger] record_of_line(recs@[i], fs[i].0, fs[i].1),
        decreases lines@.len() - k,
    {
        let ghost pre = ls.subrange(0, k as int);
        let ghost now = ls.subrange(0, k + 1);
        assert(now.drop_last() =~= pre);
        assert(now.last() == lines@[k as int]@);
        let raw = &lines[k];
        let len = if raw.len() > 0 && raw[raw.len() - 1] == CARRIAGE_RETURN { raw.len() - 1 } else { raw.len() };
        let line = copy_prefix(raw.as_slice(), len);
        assert(line@ == strip_cr(lines@[k as int]@));
        if len == 0 || line[0] == HASH {
            k = k + 1;
            continue;
        }
        let cells = split_bytes(line.as_slice(), SPACE);
        let ghost f = pieces_view(cells@);
        if cells.len() < 7 {
            assert(parse_lines(now) == Err::<Seq<(int, Seq<Seq<u8>>)>, int>(k as int));
            proof {
                lemma_parse_lines_err_stays(ls, k as int + 1);
            }
            return Err(MalformedLine { line: k + 1 });
        }
        assert(forall|j: int| 0 <= j < 7 ==> #[trigger] f[j] == cells@[j]@);
        let id = parse_i32(cells[0].as_slice());
        let structure = parse_i32(cells[1].as_slice());
        let pid = parse_i32(cells[6].as_slice());
        match (id, structure, pid) {
            (Some(id), Some(structure), Some(pid)) => {
                let rec = SwcRecord {
                    line: k + 1,
                    id,
                    structure,
                    pid,
                    x: copy_all(cells[2].as_slice()),
                    y: copy_all(cells[3].as_slice()),
                    z: copy_all(cells[4].as_slice()),
                    radius: copy_all(cells[5].as_slice()),
                };
                let ghost fs0 = parse_lines(pre)->Ok_0;
                recs.push(rec);
                let ghost entry = (k as int, f);
                assert(parse_lines(now) == Ok::<Seq<(int, Seq<Seq<u8>>)>, int>(fs0.push(entry)));
                assert forall|i: int| 0 <= i < fs0.len() + 1 implies #[trigger] record_of_line(recs@[i], fs0.push(entry)[i].0, fs0.push(entry)[i].1) by {
                    if i < fs0.len() {
                        assert(record_of_line(recs@[i], fs0[i].0, fs0[i].1));
                    }
                }
            },
            _ => {
                assert(parse_lines(now) == Err::<Seq<(int, Seq<Seq<u8>>)>, int>(k as int));
                proof {
                    lemma_parse_lines_err_stays(ls, k as int + 1);
                }
                return Err(MalformedLine { line: k + 1 });
            },
        }
        k = k + 1;
    }
    assert(ls.subrange(0, k as int) =~= ls);
    Ok(recs)
}

proof fn lemma_parse_lines_err_stays(ls: Seq<Seq<u8>>, k: int)
    requires
        0 <= k <= ls.len(),
        parse_lines(ls.subrange(0, k)) is Err,
    ensures
        parse_lines(ls) == parse_lines(ls.subrange(0, k)),
    decreases ls.len() - k,
{
    if k < ls.len() {
        let now = ls.subrange(0, k + 1);
        assert(now.drop_last() =~= ls.subrange(0, k));
        lemma_parse_lines_err_stays(ls, k + 1);
    } else {
        assert(ls.subrange(0, k) =~= ls);
    }
}


} // verus!
