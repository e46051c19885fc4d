//! The cue text format: parsing, serialization and construction.

use vstd::prelude::*;
use vstd::string::*;

use crate::entry::SubtitleEntry;
use crate::errors::Error;
use crate::grammar::{
    arrow, cue_lines, entries_of, file_lines, fmt_timepoint, header, render_cues, render_file,
    ts_line, wf_cue, ParseErr, VttLineModel,
};
use crate::grammar::{
    digits_end, lemma_digits_end_block, lemma_digits_end_bounds, lemma_skip_blank_block,
    lemma_skip_blank_bounds, lemma_text_end_block, lemma_text_end_bounds, line_no, parse_cues,
    parse_index_line, parse_timepoint_at, parse_timestamp_line, skip_blank, spec_parse_vtt,
    text_end,
};
use crate::text::{
    all_digits, digit_val, digits_val, is_blank, is_digit, is_ws, lemma_digits_val_bound,
    lemma_digits_val_lower, lemma_digits_val_zeros, lemma_pow10_19, lemma_pow10_mono,
    lemma_split_lines_shape, pow10, zeros,
};
use crate::text::{
    copy_strings, dec_digits, join_string_lines, push_dec, push_dec_pad2, push_dec_pad3,
    split_lines, split_str_lines, unlines,
};
use crate::timetypes::{TimePoint, TimeSpan};

verus! {

/// A parse failure of the cue text grammar: an index line that is not an
/// integer, a timing line that does not match the timestamp shape, or a
/// structural failure at a 1-based line number.
#[derive(Clone, Debug, PartialEq, Eq)]
pub enum ErrorKind {
    ExpectedIndexLine { line: String },
    ExpectedTimestampLine { line: String },
    ErrorAtLine { line_num: usize },
}

impl View for ErrorKind {
    type V = ParseErr;

    open spec fn view(&self) -> ParseErr {
        match self {
            ErrorKind::ExpectedIndexLine { line } => ParseErr::ExpectedIndex { line: line@ },
            ErrorKind::ExpectedTimestampLine { line } => ParseErr::ExpectedTimestamp {
                line: line@,
            },
            ErrorKind::ErrorAtLine { line_num } => ParseErr::ErrorAt {
                line_num: *line_num as int,
            },
        }
    }
}

/// One complete cue: its interval, its declared index, and its text
/// lines.
#[derive(Clone, Debug)]
pub(crate) struct VttLine {
    /// Start and end time of the cue.
    pub(crate) timespan: TimeSpan,
    /// The declared numeric label of the cue.
    pub(crate) index: i64,
    /// The text lines of the cue.
    pub(crate) texts: Vec<String>,
}

impl View for VttLine {
    type V = VttLineModel;

    closed spec fn view(&self) -> VttLineModel {
        VttLineModel {
            index: self.index as int,
            start: self.timespan@.0,
            end: self.timespan@.1,
            texts: self.texts.deep_view(),
        }
    }
}

impl DeepView for VttLine {
    type V = VttLineModel;

    open spec fn deep_view(&self) -> VttLineModel {
        self@
    }
}

/// A cue text file: an ordered sequence of cues, in file order.
#[derive(Clone, Debug)]
pub struct VttFile {
    v: Vec<VttLine>,
}

impl View for VttFile {
    type V = Seq<VttLineModel>;

    closed spec fn view(&self) -> Seq<VttLineModel> {
        self.v.deep_view()
    }
}

/// The cue built from the timing and text pair at 0-based position `i`.
pub open spec fn created_cue(p: (TimeSpan, String), i: int) -> VttLineModel {
    VttLineModel { index: i + 1, start: p.0@.0, end: p.0@.1, texts: split_lines(p.1@) }
}

/// Whether the character at `k` is a decimal digit.
fn is_digit_at(l: &String, k: usize) -> (b: bool)
    requires
        k < l@.len(),
    ensures
        b == is_digit(l@[k as int]),
{
    let c = l.as_str().get_char(k);
    let u = c as u32;
    48 <= u && u <= 57
}

/// Whether the character at `k` is the zero digit.
fn is_zero_at(l: &String, k: usize) -> (b: bool)
    requires
        k < l@.len(),
    ensures
        b == (l@[k as int] == '0'),
{
    l.as_str().get_char(k) == '0'
}

/// The numeric value of the digit at `k`.
fn digit_at(l: &String, k: usize) -> (d: u64)
    requires
        k < l@.len(),
        is_digit(l@[k as int]),
    ensures
        d as int == digit_val(l@[k as int]),
        d <= 9,
{
    let c = l.as_str().get_char(k);
    let u = c as u32;
    ((u - 48) as u64)
}

/// Whether the line is blank: empty or whitespace only.
fn is_blank_str(l: &String) -> (b: bool)
    ensures
        b == is_blank(l@),
{
    let n = l.as_str().unicode_len();
    let mut k: usize = 0;
    while k < n
        invariant
            0 <= k <= n,
            n == l@.len(),
            forall|m: int| 0 <= m < k ==> is_ws(#[trigger] l@[m]),
        decreases n - k,
    {
        let c = l.as_str().get_char(k);
        if !(c == ' ' || c == '\t' || c == '\r') {
            assert(!is_ws(l@[k as int]));
            return false;
        }
        k = k + 1;
    }
    true
}

/// Whether the line is exactly the file header.
fn is_header_str(l: &String) -> (b: bool)
    ensures
        b == (l@ == header()),
{
    let n = l.as_str().unicode_len();
    if n != 6 {
        proof {
            assert(header().len() == 6);
        }
        return false;
    }
    let ok = l.as_str().get_char(0) == 'W' && l.as_str().get_char(1) == 'E' && l.as_str().get_char(
        2,
    ) == 'B' && l.as_str().get_char(3) == 'V' && l.as_str().get_char(4) == 'T' && l.as_str()
        .get_char(5) == 'T';
    proof {
        if ok {
            assert(l@ =~= header());
        } else {
            if l@ == header() {
                assert(l@[0] == 'W' && l@[1] == 'E' && l@[2] == 'B' && l@[3] == 'V' && l@[4] == 'T'
                    && l@[5] == 'T');
            }
        }
    }
    ok
}

/// The end of the digit block starting at `from`.
fn digits_end_str(l: &String, from: usize) -> (r: usize)
    requires
        from <= l@.len(),
    ensures
        r as int == digits_end(l@, from as int),
        from <= r <= l@.len(),
{
    let n = l.as_str().unicode_len();
    let mut k: usize = from;
    while k < n && is_digit_at(l, k)
        invariant
            from <= k <= n,
            n == l@.len(),
            forall|m: int| from <= m < k ==> is_digit(#[trigger] l@[m]),
        decreases n - k,
    {
        k = k + 1;
    }
    proof {
        lemma_digits_end_block(l@, from as int, k as int);
    }
    k
}

/// The value of the digit block from `from` to `to`, when it fits the
/// index type.
fn parse_digits_val(l: &String, from: usize, to: usize) -> (r: Option<i64>)
    requires
        from < to <= l@.len(),
        forall|m: int| from <= m < to ==> is_digit(#[trigger] l@[m]),
    ensures
        match r {
            Some(v) => 0 <= v && digits_val(l@.subrange(from as int, to as int)) == v as int,
            None => digits_val(l@.subrange(from as int, to as int)) > i64::MAX,
        },
{
    let ghost full = l@.subrange(from as int, to as int);
    let mut z: usize = from;
    while z < to && is_zero_at(l, z)
        invariant
            from <= z <= to <= l@.len(),
            forall|m: int| from <= m < z ==> l@[m] == '0',
            forall|m: int| from <= m < to ==> is_digit(#[trigger] l@[m]),
        decreases to - z,
    {
        z = z + 1;
    }
    let ghost tail = l@.subrange(z as int, to as int);
    proof {
        assert(l@.subrange(from as int, z as int) =~= zeros(z as int - from as int));
        assert(zeros(z as int - from as int) + tail =~= full);
        lemma_digits_val_zeros(z as int - from as int, tail);
        assert(digits_val(full) == digits_val(tail));
        assert(all_digits(tail));
        lemma_digits_val_bound(tail);
    }
    if to - z > 19 {
        proof {
            assert(z < to);
            assert(l@[z as int] != '0');
            assert(tail[0] == l@[z as int]);
            lemma_digits_val_lower(tail);
            lemma_pow10_mono(19, tail.len() as int - 1);
            lemma_pow10_19();
            assert(digits_val(tail) > i64::MAX);
        }
        return None;
    }
    let mut acc: u64 = 0;
    let mut k: usize = z;
    proof {
        assert(l@.subrange(z as int, z as int) =~= Seq::<char>::empty());
        assert(pow10(0) == 1);
    }
    while k < to
        invariant
            from <= z <= k <= to <= l@.len(),
            to - z <= 19,
            forall|m: int| from <= m < to ==> is_digit(#[trigger] l@[m]),
            acc as int == digits_val(l@.subrange(z as int, k as int)),
            (acc as int) < pow10(k as int - z as int),
        decreases to - k,
    {
        proof {
            lemma_pow10_19();
            lemma_pow10_mono(k as int - z as int + 1, 19);
            assert(pow10(k as int - z as int + 1) == 10 * pow10(k as int - z as int));
        }
        let d = digit_at(l, k);
        proof {
            let sub1 = l@.subrange(z as int, k as int + 1);
            assert(sub1.drop_last() =~= l@.subrange(z as int, k as int));
            assert(sub1.last() == l@[k as int]);
            assert(digits_val(sub1) == digits_val(l@.subrange(z as int, k as int)) * 10
                + digit_val(l@[k as int]));
        }
        acc = acc * 10 + d;
        k = k + 1;
    }
    proof {
        assert(l@.subrange(z as int, to as int) == tail);
        assert(acc as int == digits_val(full));
    }
    if acc <= 9_223_372_036_854_775_807u64 {
        Some(acc as i64)
    } else {
        None
    }
}

/// Reads a whole line as a cue index.
fn parse_index_str(l: &String) -> (r: Option<i64>)
    ensures
        match r {
            Some(v) => 0 <= v && parse_index_line(l@) == Option::Some(v as int),
            None => parse_index_line(l@) is None,
        },
{
    let n = l.as_str().unicode_len();
    if n == 0 {
        return None;
    }
    let de = digits_end_str(l, 0);
    proof {
        lemma_digits_end_bounds(l@, 0);
    }
    if de != n {
        proof {
            assert(!is_digit(l@[de as int]));
            assert(!all_digits(l@));
        }
        return None;
    }
    proof {
        assert(all_digits(l@));
    }
    let r = parse_digits_val(l, 0, n);
    proof {
        assert(l@.subrange(0, n as int) =~= l@);
    }
    r
}

/// Reads one timestamp starting at `from`.
fn parse_timepoint_str(l: &String, from: usize) -> (r: Option<(i64, usize)>)
    requires
        from <= l@.len(),
    ensures
        match r {
            Some((ms, p)) => 0 <= ms && from < p <= l@.len() && parse_timepoint_at(
                l@,
                from as int,
            ) == Option::Some((ms as int, p as int)),
            None => parse_timepoint_at(l@, from as int) is None,
        },
{
    let n = l.as_str().unicode_len();
    let k = digits_end_str(l, from);
    proof {
        lemma_digits_end_bounds(l@, from as int);
    }
    if k == from {
        return None;
    }
    if n - k < 10 {
        return None;
    }
    if !(l.as_str().get_char(k) == ':') {
        return None;
    }
    if !is_digit_at(l, k + 1) {
        return None;
    }
    if !is_digit_at(l, k + 2) {
        return None;
    }
    if !(l.as_str().get_char(k + 3) == ':') {
        return None;
    }
    if !is_digit_at(l, k + 4) {
        return None;
    }
    if !is_digit_at(l, k + 5) {
        return None;
    }
    if !(l.as_str().get_char(k + 6) == '.') {
        return None;
    }
    if !is_digit_at(l, k + 7) {
        return None;
    }
    if !is_digit_at(l, k + 8) {
        return None;
    }
    if !is_digit_at(l, k + 9) {
        return None;
    }
    let ghost hours_val = digits_val(l@.subrange(from as int, k as int));
    let hh: u64 = match parse_digits_val(l, from, k) {
        Some(v) => v as u64,
        None => {
            proof {
                let ms = hours_val * 3_600_000 + (digit_val(l@[k as int + 1]) * 10 + digit_val(
                    l@[k as int + 2],
                )) * 60_000 + (digit_val(l@[k as int + 4]) * 10 + digit_val(l@[k as int + 5]))
                    * 1_000 + digit_val(l@[k as int + 7]) * 100 + digit_val(l@[k as int + 8]) * 10
                    + digit_val(l@[k as int + 9]);
                assert(hours_val * 3_600_000 >= hours_val * 1);
                assert(ms > i64::MAX);
            }
            return None;
        },
    };
    let d1 = digit_at(l, k + 1);
    let d2 = digit_at(l, k + 2);
    let d3 = digit_at(l, k + 4);
    let d4 = digit_at(l, k + 5);
    let d5 = digit_at(l, k + 7);
    let d6 = digit_at(l, k + 8);
    let d7 = digit_at(l, k + 9);
    let mm: u64 = d1 * 10 + d2;
    let ss: u64 = d3 * 10 + d4;
    let qq: u64 = d5 * 100 + d6 * 10 + d7;
    if hh > 2_562_047_788_015u64 {
        proof {
            let ms = hours_val * 3_600_000 + (mm as int) * 60_000 + (ss as int) * 1_000 + (
            qq as int);
            assert(hours_val * 3_600_000 >= 2_562_047_788_016 * 3_600_000);
            assert(ms > i64::MAX);
        }
        return None;
    }
    let total: u64 = hh * 3_600_000 + mm * 60_000 + ss * 1_000 + qq;
    if total > 9_223_372_036_854_775_807u64 {
        return None;
    }
    proof {
        assert(total as int == hours_val * 3_600_000 + (digit_val(l@[k as int + 1]) * 10
            + digit_val(l@[k as int + 2])) * 60_000 + (digit_val(l@[k as int + 4]) * 10 + digit_val(
            l@[k as int + 5],
        )) * 1_000 + digit_val(l@[k as int + 7]) * 100 + digit_val(l@[k as int + 8]) * 10
            + digit_val(l@[k as int + 9]));
    }
    Some((total as i64, k + 10))
}

/// Reads a whole line as a timing line.
fn parse_timestamp_str(l: &String) -> (r: Option<(i64, i64)>)
    ensures
        match r {
            Some((s, e)) => 0 <= s <= e && parse_timestamp_line(l@) == Option::Some(
                (s as int, e as int),
            ),
            None => parse_timestamp_line(l@) is None,
        },
{
    let n = l.as_str().unicode_len();
    let (s, p) = match parse_timepoint_str(l, 0) {
        Some(v) => v,
        None => {
            return None;
        },
    };
    if n - p < 5 {
        return None;
    }
    let a0 = l.as_str().get_char(p);
    let a1 = l.as_str().get_char(p + 1);
    let a2 = l.as_str().get_char(p + 2);
    let a3 = l.as_str().get_char(p + 3);
    let a4 = l.as_str().get_char(p + 4);
    let arrow_ok = a0 == ' ' && a1 == '-' && a2 == '-' && a3 == '>' && a4 == ' ';
    proof {
        if arrow_ok {
            assert(l@.subrange(p as int, p as int + 5) =~= arrow());
        } else {
            if l@.subrange(p as int, p as int + 5) == arrow() {
                assert(l@[p as int] == ' ' && l@[p as int + 1] == '-' && l@[p as int + 2] == '-'
                    && l@[p as int + 3] == '>' && l@[p as int + 4] == ' ') by {
                    assert(l@.subrange(p as int, p as int + 5)[0] == l@[p as int]);
                    assert(l@.subrange(p as int, p as int + 5)[1] == l@[p as int + 1]);
                    assert(l@.subrange(p as int, p as int + 5)[2] == l@[p as int + 2]);
                    assert(l@.subrange(p as int, p as int + 5)[3] == l@[p as int + 3]);
                    assert(l@.subrange(p as int, p as int + 5)[4] == l@[p as int + 4]);
                }
            }
        }
    }
    if !arrow_ok {
        return None;
    }
    let (e, q) = match parse_timepoint_str(l, p + 5) {
        Some(v) => v,
        None => {
            return None;
        },
    };
    if q == n && s <= e {
        Some((s, e))
    } else {
        None
    }
}

/// The first non-blank line at or after `from`.
fn skip_blank_vec(lines: &Vec<String>, from: usize) -> (r: usize)
    requires
        from <= lines@.len(),
    ensures
        r as int == skip_blank(lines.deep_view(), from as int),
        from <= r <= lines@.len(),
{
    let n = lines.len();
    let mut k: usize = from;
    while k < n && is_blank_str(&lines[k])
        invariant
            from <= k <= n,
            n == lines@.len(),
            forall|m: int| from <= m < k ==> is_blank(#[trigger] lines.deep_view()[m]),
        decreases n - k,
    {
        proof {
            assert(lines.deep_view()[k as int] == lines@[k as int]@);
        }
        k = k + 1;
    }
    proof {
        if k < n {
            assert(lines.deep_view()[k as int] == lines@[k as int]@);
        }
        lemma_skip_blank_block(lines.deep_view(), from as int, k as int);
    }
    k
}

/// The first blank line at or after `from`.
fn text_end_vec(lines: &Vec<String>, from: usize) -> (r: usize)
    requires
        from <= lines@.len(),
    ensures
        r as int == text_end(lines.deep_view(), from as int),
        from <= r <= lines@.len(),
{
    let n = lines.len();
    let mut k: usize = from;
    while k < n && !is_blank_str(&lines[k])
        invariant
            from <= k <= n,
            n == lines@.len(),
            forall|m: int| from <= m < k ==> !is_blank(#[trigger] lines.deep_view()[m]),
        decreases n - k,
    {
        proof {
            assert(lines.deep_view()[k as int] == lines@[k as int]@);
        }
        k = k + 1;
    }
    proof {
        if k < n {
            assert(lines.deep_view()[k as int] == lines@[k as int]@);
        }
        lemma_text_end_block(lines.deep_view(), from as int, k as int);
    }
    k
}

/// The result of parsing from a later position, prefixed with the cues
/// already parsed.
spec fn prepend_cues(a: Seq<VttLineModel>, r: Result<Seq<VttLineModel>, ParseErr>) -> Result<
    Seq<VttLineModel>,
    ParseErr,
> {
    match r {
        Ok(c) => Ok(a + c),
        Err(e) => Err(e),
    }
}

/// Parses all cues from position `start` on.
fn parse_cues_str(lines: &Vec<String>, start: usize) -> (r: Result<Vec<VttLine>, ErrorKind>)
    requires
        start <= lines@.len(),
    ensures
        match r {
            Ok(v) => parse_cues(lines.deep_view(), start as int) == Ok::<_, ParseErr>(
                v.deep_view(),
            ),
            Err(k) => parse_cues(lines.deep_view(), start as int) == Err::<Seq<VttLineModel>, _>(
                k@,
            ),
        },
{
    let ghost dv = lines.deep_view();
    let n = lines.len();
    let empty_line = String::from_str("");
    proof {
        reveal_strlit("");
        assert(empty_line@ =~= Seq::<char>::empty());
    }
    let mut cues: Vec<VttLine> = Vec::new();
    let mut i: usize = start;
    proof {
        match parse_cues(dv, start as int) {
            Ok(c) => {
                assert(Seq::<VttLineModel>::empty() + c =~~= c);
                assert(cues.deep_view() =~~= Seq::<VttLineModel>::empty());
            },
            Err(_) => {},
        }
    }
    while i < n
        invariant
            start <= i <= n,
            n == dv.len(),
            dv == lines.deep_view(),
            empty_line@ == Seq::<char>::empty(),
            parse_cues(dv, start as int) == prepend_cues(cues.deep_view(), parse_cues(dv, i as int)),
        decreases n - i,
    {
        let j = skip_blank_vec(lines, i);
        proof {
            lemma_skip_blank_bounds(dv, i as int);
        }
        if j == n {
            proof {
                assert(parse_cues(dv, i as int) == Ok::<_, ParseErr>(Seq::<VttLineModel>::empty()));
                assert(cues.deep_view() + Seq::<VttLineModel>::empty() =~~= cues.deep_view());
            }
            return Ok(cues);
        }
        proof {
            assert(dv[j as int] == lines@[j as int]@);
        }
        let idx = match parse_index_str(&lines[j]) {
            Some(v) => v,
            None => {
                return Err(
                    ErrorKind::ExpectedIndexLine { line: String::from_str(lines[j].as_str()) },
                );
            },
        };
        let tline: &String = if j + 1 < n {
            &lines[j + 1]
        } else {
            &empty_line
        };
        let ghost tl = if j + 1 < dv.len() {
            dv[j as int + 1]
        } else {
            Seq::<char>::empty()
        };
        proof {
            if j + 1 < n {
                assert(dv[j as int + 1] == lines@[j as int + 1]@);
            }
            assert(tline@ == tl);
        }
        let (s_ms, e_ms) = match parse_timestamp_str(tline) {
            Some(v) => v,
            None => {
                return Err(
                    ErrorKind::ExpectedTimestampLine { line: String::from_str(tline.as_str()) },
                );
            },
        };
        if n - j <= 2 || is_blank_str(&lines[j + 2]) {
            let ln: usize = if j <= usize::MAX - 3 {
                j + 3
            } else {
                usize::MAX
            };
            proof {
                if j + 2 < n {
                    assert(dv[j as int + 2] == lines@[j as int + 2]@);
                }
                assert(ln as int == line_no(j as int + 2));
            }
            return Err(ErrorKind::ErrorAtLine { line_num: ln });
        }
        proof {
            assert(dv[j as int + 2] == lines@[j as int + 2]@);
        }
        let te = text_end_vec(lines, j + 2);
        proof {
            lemma_text_end_bounds(dv, j as int + 2);
        }
        let mut texts: Vec<String> = Vec::new();
        let mut k: usize = j + 2;
        proof {
            assert(texts.deep_view() =~~= dv.subrange(j as int + 2, k as int));
        }
        while k < te
            invariant
                j + 2 <= k <= te <= n,
                n == dv.len(),
                dv == lines.deep_view(),
                texts.deep_view() == dv.subrange(j as int + 2, k as int),
            decreases te - k,
        {
            let ghost prev_t = texts.deep_view();
            let t = String::from_str(lines[k].as_str());
            texts.push(t);
            proof {
                assert(dv[k as int] == lines@[k as int]@);
                assert(texts.deep_view() =~~= prev_t.push(dv[k as int]));
                assert(texts.deep_view() =~~= dv.subrange(j as int + 2, k as int + 1));
            }
            k = k + 1;
        }
        let start_tp = TimePoint::from_msecs(s_ms);
        let end_tp = TimePoint::from_msecs(e_ms);
        let span = TimeSpan::new(start_tp, end_tp);
        let ghost prev = cues.deep_view();
        let line = VttLine { timespan: span, index: idx, texts };
        cues.push(line);
        proof {
            let model = VttLineModel {
                index: idx as int,
                start: s_ms as int,
                end: e_ms as int,
                texts: dv.subrange(j as int + 2, te as int),
            };
            assert(line@ == model);
            assert(cues.deep_view() =~~= prev.push(model));
            assert(parse_cues(dv, i as int) == (match parse_cues(dv, te as int) {
                Ok(rest) => Ok::<_, ParseErr>(seq![model] + rest),
                Err(er) => Err::<Seq<VttLineModel>, _>(er),
            }));
            match parse_cues(dv, te as int) {
                Ok(rest) => {
                    assert(prev.push(model) + rest =~~= prev + (seq![model] + rest));
                },
                Err(_) => {},
            }
            assert(parse_cues(dv, start as int) == prepend_cues(
                cues.deep_view(),
                parse_cues(dv, te as int),
            ));
        }
        i = te;
    }
    proof {
        assert(skip_blank(dv, n as int) == n);
        assert(parse_cues(dv, n as int) == Ok::<_, ParseErr>(Seq::<VttLineModel>::empty()));
        assert(cues.deep_view() + Seq::<VttLineModel>::empty() =~~= cues.deep_view());
    }
    Ok(cues)
}

/// Appends the timestamp of a time point to `out`.
fn push_timepoint(out: &mut String, t: TimePoint)
    requires
        t.wf(),
    ensures
        final(out)@ == old(out)@ + fmt_timepoint(t@),
{
    let h = t.hours();
    push_dec_pad2(out, h as u64);
    out.append(":");
    let m = t.mins_comp();
    push_dec_pad2(out, m as u64);
    out.append(":");
    let s = t.secs_comp();
    push_dec_pad2(out, s as u64);
    out.append(".");
    let q = t.msecs_comp();
    push_dec_pad3(out, q as u64);
    proof {
        reveal_strlit(":");
        reveal_strlit(".");
        assert(":"@ =~= seq![':']);
        assert("."@ =~= seq!['.']);
        assert(final(out)@ =~= old(out)@ + fmt_timepoint(t@));
    }
}

impl VttFile {
    /// Every cue of the file is numerically valid: the invariant that
    /// construction and parsing establish and updates preserve.
    pub open spec fn wf(self) -> bool {
        forall|i: int| 0 <= i < self@.len() ==> wf_cue(#[trigger] self@[i])
    }

    /// Builds a file from timing and text pairs: indices are assigned one
    /// up in input order, regardless of input content, and each text is
    /// split into its lines. Never fails.
    pub fn create(v: Vec<(TimeSpan, String)>) -> (r: Result<VttFile, Error>)
        requires
            v@.len() <= i64::MAX,
            forall|i: int| 0 <= i < v@.len() ==> (#[trigger] v@[i]).0.wf(),
        ensures
            r is Ok,
            match r {
                Ok(f) => {
                    &&& f.wf()
                    &&& f@.len() == v@.len()
                    &&& forall|i: int|
                        0 <= i < v@.len() ==> f@[i] == created_cue(#[trigger] v@[i], i)
                },
                Err(_) => false,
            },
    {
        let mut lines: Vec<VttLine> = Vec::new();
        let mut i: usize = 0;
        while i < v.len()
            invariant
                0 <= i <= v.len(),
                v@.len() <= i64::MAX,
                forall|m: int| 0 <= m < v@.len() ==> (#[trigger] v@[m]).0.wf(),
                lines.deep_view().len() == i,
                forall|m: int|
                    0 <= m < i ==> lines.deep_view()[m] == created_cue(#[trigger] v@[m], m),
            decreases v.len() - i,
        {
            let ghost prev = lines.deep_view();
            let ts = v[i].0;
            let texts = split_str_lines(v[i].1.as_str());
            let line = VttLine { timespan: ts, index: (i as i64) + 1, texts };
            lines.push(line);
            proof {
                assert(lines.deep_view() =~~= prev.push(line@));
                assert(line@ == created_cue(v@[i as int], i as int));
            }
            i = i + 1;
        }
        let f = VttFile { v: lines };
        proof {
            assert forall|i2: int| 0 <= i2 < f@.len() implies wf_cue(#[trigger] f@[i2]) by {
                assert(f@[i2] == created_cue(v@[i2], i2));
                assert(v@[i2].0.wf());
            }
        }
        Ok(f)
    }

    /// Parses a cue text file, yielding the format-specific error kind on
    /// failure: the whole grammar of [`spec_parse_vtt`], line by line.
    pub fn parse_file(i: &str) -> (r: Result<VttFile, ErrorKind>)
        ensures
            match r {
                Ok(f) => spec_parse_vtt(i@) == Ok::<_, ParseErr>(f@) && f.wf(),
                Err(k) => spec_parse_vtt(i@) == Err::<Seq<VttLineModel>, _>(k@),
            },
    {
        let lines = split_str_lines(i);
        proof {
            lemma_split_lines_shape(i@);
            assert(lines.deep_view()[0] == lines@[0]@);
        }
        let start: usize = if is_header_str(&lines[0]) {
            1
        } else {
            0
        };
        match parse_cues_str(&lines, start) {
            Ok(v) => {
                let f = VttFile { v };
                proof {
                    assert forall|m: int|
                        0 <= m < lines.deep_view().len() implies crate::text::no_nl(
                        #[trigger] lines.deep_view()[m],
                    ) by {
                        assert(lines.deep_view()[m] == split_lines(i@)[m]);
                    }
                    crate::grammar::lemma_parse_cues_wf(lines.deep_view(), start as int);
                    match parse_cues(lines.deep_view(), start as int) {
                        Ok(cs) => {
                            assert(cs == f@);
                            assert forall|m: int| 0 <= m < f@.len() implies wf_cue(
                                #[trigger] f@[m],
                            ) by {
                                assert(crate::grammar::wf_cue_strict(cs[m]));
                            }
                        },
                        Err(_) => {
                            assert(false);
                        },
                    }
                }
                Ok(f)
            },
            Err(k) => Err(k),
        }
    }

    /// Parses a cue text file, wrapping any failure in the crate's
    /// uniform error with the specific kind kept as a field.
    pub fn parse(s: &str) -> (r: Result<VttFile, Error>)
        ensures
            match r {
                Ok(f) => spec_parse_vtt(s@) == Ok::<_, ParseErr>(f@) && f.wf(),
                Err(e) => spec_parse_vtt(s@) == Err::<Seq<VttLineModel>, _>(e@),
            },
    {
        match Self::parse_file(s) {
            Ok(f) => Ok(f),
            Err(k) => Err(Error::ParsingError(k)),
        }
    }

    /// The ordered entries currently held: each cue's interval, and its
    /// text lines joined with line breaks. Never fails.
    pub fn get_subtitle_entries(&self) -> (r: Result<Vec<SubtitleEntry>, Error>)
        ensures
            r is Ok,
            match r {
                Ok(es) => es.deep_view() == entries_of(self@),
                Err(_) => false,
            },
    {
        let mut es: Vec<SubtitleEntry> = Vec::new();
        let mut i: usize = 0;
        while i < self.v.len()
            invariant
                0 <= i <= self.v.len(),
                es.deep_view() =~~= entries_of(self@).take(i as int),
            decreases self.v.len() - i,
        {
            let ghost prev = es.deep_view();
            let line = &self.v[i];
            let joined = join_string_lines(&line.texts);
            let e = SubtitleEntry::new(line.timespan, Some(joined));
            es.push(e);
            proof {
                assert(self@[i as int] == self.v@[i as int]@);
                assert(e@ == entries_of(self@)[i as int]);
                assert(es.deep_view() =~~= prev.push(e@));
                assert(es.deep_view() =~~= entries_of(self@).take(i as int + 1));
            }
            i = i + 1;
        }
        proof {
            assert(entries_of(self@).take(self.v@.len() as int) =~~= entries_of(self@));
        }
        Ok(es)
    }

    /// Replaces each cue's interval with the corresponding entry's, and
    /// its text with the corresponding entry's text when that text is
    /// present; an absent text leaves the cue's text untouched. The
    /// entries must be exactly as many as the cues: a caller that breaks
    /// that contract is a defect, and the call faults rather than
    /// truncating or ignoring entries.
    pub fn update_subtitle_entries(&mut self, new_entries: &[SubtitleEntry]) -> (r: Result<
        (),
        Error,
    >)
        requires
            old(self).wf(),
            new_entries@.len() == old(self)@.len(),
            forall|i: int| 0 <= i < new_entries@.len() ==> (#[trigger] new_entries@[i]).timespan.wf(),
        ensures
            r is Ok,
            final(self).wf(),
            final(self)@.len() == old(self)@.len(),
            forall|i: int|
                0 <= i < old(self)@.len() ==> {
                    let n = final(self)@[i];
                    let o = old(self)@[i];
                    let e = (#[trigger] new_entries@[i])@;
                    &&& n.index == o.index
                    &&& n.start == e.start
                    &&& n.end == e.end
                    &&& n.texts == (match e.line {
                        Some(t) => split_lines(t),
                        None => o.texts,
                    })
                },
    {
        if new_entries.len() != self.v.len() {
            // The length precondition rules this out for verified
            // callers; an unverified caller that violates it faults here.
            return vstd::pervasive::unreached();
        }
        let ghost orig = self@;
        let mut nv: Vec<VttLine> = Vec::new();
        let mut i: usize = 0;
        while i < self.v.len()
            invariant
                0 <= i <= self.v.len(),
                self@ == orig,
                old(self)@ == orig,
                new_entries@.len() == self@.len(),
                old(self).wf(),
                forall|m: int|
                    0 <= m < new_entries@.len() ==> (#[trigger] new_entries@[m]).timespan.wf(),
                nv.deep_view().len() == i,
                forall|m: int|
                    0 <= m < i ==> {
                        let n = nv.deep_view()[m];
                        let o = orig[m];
                        let e = (#[trigger] new_entries@[m])@;
                        &&& n.index == o.index
                        &&& n.start == e.start
                        &&& n.end == e.end
                        &&& n.texts == (match e.line {
                            Some(t) => split_lines(t),
                            None => o.texts,
                        })
                    },
            decreases self.v.len() - i,
        {
            let ghost prev = nv.deep_view();
            let e = &new_entries[i];
            let texts: Vec<String> = match &e.line {
                Some(t) => split_str_lines(t.as_str()),
                None => copy_strings(&self.v[i].texts),
            };
            let line = VttLine { timespan: e.timespan, index: self.v[i].index, texts };
            nv.push(line);
            proof {
                assert(self@[i as int] == self.v@[i as int]@);
                assert(nv.deep_view() =~~= prev.push(line@));
            }
            i = i + 1;
        }
        self.v = nv;
        proof {
            assert forall|i2: int| 0 <= i2 < self@.len() implies wf_cue(#[trigger] self@[i2]) by {
                assert(wf_cue(orig[i2]));
                assert(new_entries@[i2].timespan.wf());
            }
        }
        Ok(())
    }

    /// Serializes the file: the header line, a blank line, then each cue
    /// as its index line, its timing line, its text lines, and one blank
    /// line, in order.
    pub fn to_data(&self) -> (r: Result<Vec<u8>, Error>)
        requires
            self.wf(),
        ensures
            r is Ok,
            match r {
                Ok(d) => d@ == vstd::utf8::encode_utf8(render_file(self@)),
                Err(_) => false,
            },
    {
        let ghost hl = seq![header(), Seq::<char>::empty()];
        let mut out = String::from_str("WEBVTT\n\n");
        proof {
            reveal_strlit("WEBVTT\n\n");
            assert(hl.drop_first() =~~= seq![Seq::<char>::empty()]);
            assert(seq![Seq::<char>::empty()].drop_first() =~~= Seq::<Seq<char>>::empty());
            assert(unlines(Seq::<Seq<char>>::empty()) == Seq::<char>::empty());
            assert(unlines(seq![Seq::<char>::empty()]) =~= seq!['\n']);
            assert(unlines(hl) =~= header() + seq!['\n'] + seq!['\n']);
            assert(self@.take(0) =~~= Seq::<VttLineModel>::empty());
            assert(render_cues(self@.take(0)) =~~= Seq::<Seq<char>>::empty());
            assert(hl + render_cues(self@.take(0)) =~~= hl);
            assert(out@ =~= unlines(hl + render_cues(self@.take(0))));
        }
        let mut i: usize = 0;
        while i < self.v.len()
            invariant
                0 <= i <= self.v.len(),
                self.wf(),
                hl == seq![header(), Seq::<char>::empty()],
                out@ == unlines(hl + render_cues(self@.take(i as int))),
            decreases self.v.len() - i,
        {
            let ghost base = out@;
            let ghost l = self@[i as int];
            proof {
                assert(self@[i as int] == self.v@[i as int]@);
                assert(wf_cue(l));
            }
            let line = &self.v[i];
            push_dec(&mut out, line.index as u64);
            out.append("\n");
            push_timepoint(&mut out, line.timespan.start());
            out.append(" --> ");
            push_timepoint(&mut out, line.timespan.end());
            out.append("\n");
            proof {
                reveal_strlit("\n");
                reveal_strlit(" --> ");
                assert("\n"@ =~= seq!['\n']);
                assert(" --> "@ =~= arrow());
                assert(out@ =~= base + dec_digits(l.index) + seq!['\n'] + ts_line(l.start, l.end)
                    + seq!['\n']);
            }
            let ghost base2 = out@;
            let mut k: usize = 0;
            while k < line.texts.len()
                invariant
                    0 <= k <= line.texts.len(),
                    l.texts == line.texts.deep_view(),
                    out@ == base2 + unlines(l.texts.take(k as int)),
                decreases line.texts.len() - k,
            {
                out.append(line.texts[k].as_str());
                out.append("\n");
                proof {
                    reveal_strlit("\n");
                    assert("\n"@ =~= seq!['\n']);
                    let t = l.texts[k as int];
                    assert(line.texts@[k as int]@ == t);
                    assert(l.texts.take(k as int + 1) =~~= l.texts.take(k as int) + seq![t]);
                    crate::text::lemma_unlines_concat(l.texts.take(k as int), seq![t]);
                    crate::grammar::lemma_unlines_one(t);
                    assert(out@ =~= base2 + unlines(l.texts.take(k as int + 1)));
                }
                k = k + 1;
            }
            out.append("\n");
            proof {
                reveal_strlit("\n");
                assert("\n"@ =~= seq!['\n']);
                assert(l.texts.take(l.texts.len() as int) =~~= l.texts);
                crate::grammar::lemma_unlines_cue(l);
                assert(out@ =~= base + unlines(cue_lines(l)));
                // extend the rendered prefix by this cue
                crate::grammar::lemma_render_cues_push(self@.take(i as int), l);
                assert(self@.take(i as int + 1) =~~= self@.take(i as int).push(l));
                crate::text::lemma_unlines_concat(
                    hl + render_cues(self@.take(i as int)),
                    cue_lines(l),
                );
                assert(hl + render_cues(self@.take(i as int + 1)) =~~= (hl + render_cues(
                    self@.take(i as int),
                )) + cue_lines(l));
                assert(out@ =~= unlines(hl + render_cues(self@.take(i as int + 1))));
            }
            i = i + 1;
        }
        proof {
            assert(self@.take(self.v@.len() as int) =~~= self@);
            assert(hl + render_cues(self@) =~~= file_lines(self@));
            assert(out@ == render_file(self@));
        }
        let bytes = out.as_str().as_bytes_vec();
        Ok(bytes)
    }
}

impl crate::interface::SubtitleFileInterface for VttFile {
    open spec fn spec_entries(&self) -> Seq<crate::entry::SubtitleEntryModel> {
        entries_of(self@)
    }

    open spec fn inv(&self) -> bool {
        self.wf()
    }

    open spec fn spec_serialized(&self) -> Seq<u8> {
        vstd::utf8::encode_utf8(render_file(self@))
    }

    fn get_subtitle_entries(&self) -> (r: Result<Vec<SubtitleEntry>, Error>) {
        VttFile::get_subtitle_entries(self)
    }

    fn update_subtitle_entries(&mut self, new_entries: &[SubtitleEntry]) -> (r: Result<
        (),
        Error,
    >) {
        let r = VttFile::update_subtitle_entries(self, new_entries);
        proof {
            assert forall|i: int|
                0 <= i < entries_of(old(self)@).len() implies {
                let n = entries_of(self@)[i];
                let o = entries_of(old(self)@)[i];
                let e = (#[trigger] new_entries@[i])@;
                &&& n.start == e.start
                &&& n.end == e.end
                &&& n.line == (match e.line {
                    Some(t) => Some(t),
                    None => o.line,
                })
            } by {
                match new_entries@[i]@.line {
                    Some(t) => {
                        crate::text::lemma_join_split(t);
                    },
                    None => {},
                }
            }
        }
        r
    }

    fn to_data(&self) -> (r: Result<Vec<u8>, Error>) {
        VttFile::to_data(self)
    }
}

} // verus!

