//! The cue text grammar: what the serializer emits and what the parser
//! accepts, as mathematical functions over character sequences.

use vstd::prelude::*;

use crate::entry::SubtitleEntryModel;
use crate::text::{
    dec_digits, digit_val, digits_val, is_blank, is_digit, join_lines, lemma_digits_val_bound,
    split_lines, unlines, zero_pad,
};
use crate::timetypes::{hours_of, mins_comp_of, msecs_comp_of, secs_comp_of};

verus! {

/// The mathematical value of one cue: its declared index, its interval in
/// milliseconds, and its text lines.
pub ghost struct VttLineModel {
    pub index: int,
    pub start: int,
    pub end: int,
    pub texts: Seq<Seq<char>>,
}

/// A parse failure: an index line that is not an integer, a timing line
/// that does not match the timestamp grammar, or a structural failure at
/// a 1-based line number.
pub ghost enum ParseErr {
    ExpectedIndex { line: Seq<char> },
    ExpectedTimestamp { line: Seq<char> },
    ErrorAt { line_num: int },
}

/// Numeric validity of a cue: a non-negative index and an ordered,
/// non-negative interval, all within machine range.
pub open spec fn wf_cue(l: VttLineModel) -> bool {
    &&& 0 <= l.index <= i64::MAX
    &&& 0 <= l.start <= l.end <= i64::MAX
}

/// A cue that serializes to parseable lines: numerically valid, with at
/// least one text line, each free of line breaks and not blank.
pub open spec fn wf_cue_strict(l: VttLineModel) -> bool {
    &&& wf_cue(l)
    &&& l.texts.len() >= 1
    &&& forall|i: int|
        0 <= i < l.texts.len() ==> !is_blank(#[trigger] l.texts[i]) && crate::text::no_nl(
            l.texts[i],
        )
}

/// The file header line.
pub open spec fn header() -> Seq<char> {
    seq!['W', 'E', 'B', 'V', 'T', 'T']
}

/// The separator between the two timestamps of a timing line.
pub open spec fn arrow() -> Seq<char> {
    seq![' ', '-', '-', '>', ' ']
}

/// The timestamp of a millisecond offset: hours, minutes, seconds and
/// milliseconds, zero-padded to widths two, two, two and three.
pub open spec fn fmt_timepoint(ms: int) -> Seq<char> {
    zero_pad(dec_digits(hours_of(ms)), 2) + seq![':'] + zero_pad(dec_digits(mins_comp_of(ms)), 2)
        + seq![':'] + zero_pad(dec_digits(secs_comp_of(ms)), 2) + seq!['.'] + zero_pad(
        dec_digits(msecs_comp_of(ms)),
        3,
    )
}

/// A timing line: two timestamps around the arrow separator.
pub open spec fn ts_line(start: int, end: int) -> Seq<char> {
    fmt_timepoint(start) + arrow() + fmt_timepoint(end)
}

/// The lines of one serialized cue: index, timing, texts, one blank
/// separator.
pub open spec fn cue_lines(l: VttLineModel) -> Seq<Seq<char>> {
    seq![dec_digits(l.index), ts_line(l.start, l.end)] + l.texts + seq![Seq::<char>::empty()]
}

/// The lines of all serialized cues, in order.
pub open spec fn render_cues(f: Seq<VttLineModel>) -> Seq<Seq<char>>
    decreases f.len(),
{
    if f.len() == 0 {
        Seq::empty()
    } else {
        cue_lines(f[0]) + render_cues(f.drop_first())
    }
}

/// The lines of a serialized file: header, blank line, cues.
pub open spec fn file_lines(f: Seq<VttLineModel>) -> Seq<Seq<char>> {
    seq![header(), Seq::<char>::empty()] + render_cues(f)
}

/// The serialized file: every line followed by a line break.
pub open spec fn render_file(f: Seq<VttLineModel>) -> Seq<char> {
    unlines(file_lines(f))
}

/// The first position at or after `i` that holds a non-digit, or the end.
pub open spec fn digits_end(l: Seq<char>, i: int) -> int
    decreases l.len() - i,
{
    if i < 0 || i >= l.len() {
        i
    } else if is_digit(l[i]) {
        digits_end(l, i + 1)
    } else {
        i
    }
}

/// The first position at or after `i` that holds a non-blank line, or the
/// end.
pub open spec fn skip_blank(ls: Seq<Seq<char>>, i: int) -> int
    decreases ls.len() - i,
{
    if i < 0 || i >= ls.len() {
        i
    } else if is_blank(ls[i]) {
        skip_blank(ls, i + 1)
    } else {
        i
    }
}

/// The first position at or after `i` that holds a blank line, or the
/// end.
pub open spec fn text_end(ls: Seq<Seq<char>>, i: int) -> int
    decreases ls.len() - i,
{
    if i < 0 || i >= ls.len() {
        i
    } else if is_blank(ls[i]) {
        i
    } else {
        text_end(ls, i + 1)
    }
}

/// An index line is one or more digits whose value fits the index type.
pub open spec fn parse_index_line(l: Seq<char>) -> Option<int> {
    if l.len() >= 1 && crate::text::all_digits(l) && digits_val(l) <= i64::MAX {
        Some(digits_val(l))
    } else {
        None
    }
}

/// Reads one timestamp starting at `i`: one or more hour digits, then
/// colon, two minute digits, colon, two second digits, period, three
/// millisecond digits. Yields the offset in milliseconds, if it fits the
/// time type, and the position one past the timestamp.
pub open spec fn parse_timepoint_at(l: Seq<char>, i: int) -> Option<(int, int)> {
    let k = digits_end(l, i);
    if k == i || k + 10 > l.len() {
        None
    } else if l[k] == ':' && is_digit(l[k + 1]) && is_digit(l[k + 2]) && l[k + 3] == ':'
        && is_digit(l[k + 4]) && is_digit(l[k + 5]) && l[k + 6] == '.' && is_digit(l[k + 7])
        && is_digit(l[k + 8]) && is_digit(l[k + 9]) {
        let ms = digits_val(l.subrange(i, k)) * 3_600_000 + (digit_val(l[k + 1]) * 10 + digit_val(
            l[k + 2],
        )) * 60_000 + (digit_val(l[k + 4]) * 10 + digit_val(l[k + 5])) * 1_000 + digit_val(
            l[k + 7],
        ) * 100 + digit_val(l[k + 8]) * 10 + digit_val(l[k + 9]);
        if ms <= i64::MAX {
            Some((ms, k + 10))
        } else {
            None
        }
    } else {
        None
    }
}

/// A timing line is exactly two timestamps around the arrow, the first at
/// or before the second.
pub open spec fn parse_timestamp_line(l: Seq<char>) -> Option<(int, int)> {
    match parse_timepoint_at(l, 0) {
        Option::None => Option::None,
        Option::Some((start, p)) => {
            if p + 5 <= l.len() && l.subrange(p, p + 5) == arrow() {
                match parse_timepoint_at(l, p + 5) {
                    Option::None => Option::None,
                    Option::Some((end, q)) => {
                        if q == l.len() && start <= end {
                            Option::Some((start, end))
                        } else {
                            Option::None
                        }
                    },
                }
            } else {
                Option::None
            }
        },
    }
}

/// The 1-based number of the line at 0-based position `i`, saturated at
/// the machine's largest index.
pub open spec fn line_no(i: int) -> int {
    if i + 1 <= usize::MAX {
        i + 1
    } else {
        usize::MAX as int
    }
}

/// Parses cues from position `i` on: skips blank lines, then expects an
/// index line, a timing line and one or more non-blank text lines, and
/// repeats until the lines are exhausted.
pub open spec fn parse_cues(ls: Seq<Seq<char>>, i: int) -> Result<Seq<VttLineModel>, ParseErr>
    decreases ls.len() - i,
    via parse_cues_dec
{
    let j = skip_blank(ls, i);
    if j >= ls.len() {
        Ok(Seq::empty())
    } else {
        match parse_index_line(ls[j]) {
            Option::None => Err(ParseErr::ExpectedIndex { line: ls[j] }),
            Option::Some(idx) => {
                let tl = if j + 1 < ls.len() {
                    ls[j + 1]
                } else {
                    Seq::<char>::empty()
                };
                match parse_timestamp_line(tl) {
                    Option::None => Err(ParseErr::ExpectedTimestamp { line: tl }),
                    Option::Some((s, e)) => {
                        if j + 2 >= ls.len() || is_blank(ls[j + 2]) {
                            Err(ParseErr::ErrorAt { line_num: line_no(j + 2) })
                        } else {
                            let te = text_end(ls, j + 2);
                            match parse_cues(ls, te) {
                                Err(er) => Err(er),
                                Ok(rest) => Ok(
                                    seq![
                                        VttLineModel {
                                            index: idx,
                                            start: s,
                                            end: e,
                                            texts: ls.subrange(j + 2, te),
                                        },
                                    ] + rest,
                                ),
                            }
                        }
                    },
                }
            },
        }
    }
}

#[via_fn]
proof fn parse_cues_dec(ls: Seq<Seq<char>>, i: int) {
    lemma_skip_blank_bounds(ls, i);
    let j = skip_blank(ls, i);
    lemma_text_end_bounds(ls, j + 2);
}

/// The whole file: its lines, an optional header line, then cues.
pub open spec fn spec_parse_vtt(s: Seq<char>) -> Result<Seq<VttLineModel>, ParseErr> {
    let ls = split_lines(s);
    let start: int = if ls[0] == header() {
        1
    } else {
        0
    };
    parse_cues(ls, start)
}

/// The format-neutral entries of a cue sequence: each cue's interval and
/// its text lines joined with line breaks.
pub open spec fn entries_of(f: Seq<VttLineModel>) -> Seq<SubtitleEntryModel> {
    Seq::new(
        f.len(),
        |i: int|
            SubtitleEntryModel {
                start: f[i].start,
                end: f[i].end,
                line: Some(join_lines(f[i].texts)),
            },
    )
}

/// The cues built from timing and text pairs: indices one up, in input
/// order, each text split into its lines.
pub open spec fn create_cues(ps: Seq<((int, int), Seq<char>)>) -> Seq<VttLineModel> {
    Seq::new(
        ps.len(),
        |i: int|
            VttLineModel {
                index: i + 1,
                start: ps[i].0.0,
                end: ps[i].0.1,
                texts: split_lines(ps[i].1),
            },
    )
}

/// The serialized text of one cue: index, break, timing, break, each
/// text line with its break, and the final break of the blank separator.
pub proof fn lemma_unlines_cue(l: VttLineModel)
    ensures
        unlines(cue_lines(l)) == dec_digits(l.index) + seq!['\n'] + ts_line(l.start, l.end) + seq![
            '\n',
        ] + unlines(l.texts) + seq!['\n'],
{
    let head2 = seq![dec_digits(l.index), ts_line(l.start, l.end)];
    crate::text::lemma_unlines_concat(head2, l.texts + seq![Seq::<char>::empty()]);
    crate::text::lemma_unlines_concat(l.texts, seq![Seq::<char>::empty()]);
    assert(unlines(Seq::<Seq<char>>::empty()) == Seq::<char>::empty());
    assert(head2.drop_first() =~~= seq![ts_line(l.start, l.end)]);
    assert(seq![ts_line(l.start, l.end)].drop_first() =~~= Seq::<Seq<char>>::empty());
    assert(unlines(seq![ts_line(l.start, l.end)]) =~= ts_line(l.start, l.end) + seq!['\n']);
    assert(unlines(head2) =~= dec_digits(l.index) + seq!['\n'] + ts_line(l.start, l.end) + seq![
        '\n',
    ]);
    assert(seq![Seq::<char>::empty()].drop_first() =~~= Seq::<Seq<char>>::empty());
    assert(unlines(seq![Seq::<char>::empty()]) =~= seq!['\n']);
    assert(cue_lines(l) =~~= head2 + (l.texts + seq![Seq::<char>::empty()]));
    assert(unlines(cue_lines(l)) =~= dec_digits(l.index) + seq!['\n'] + ts_line(l.start, l.end)
        + seq!['\n'] + unlines(l.texts) + seq!['\n']);
}

/// One more line before the final break extends the joined text by that
/// line and a break.
pub proof fn lemma_unlines_one(t: Seq<char>)
    ensures
        unlines(seq![t]) == t + seq!['\n'],
{
    assert(seq![t].drop_first() =~~= Seq::<Seq<char>>::empty());
    assert(unlines(Seq::<Seq<char>>::empty()) == Seq::<char>::empty());
    assert(unlines(seq![t]) =~= t + seq!['\n']);
}

/// Serializing one more cue appends that cue's lines.
pub proof fn lemma_render_cues_push(f: Seq<VttLineModel>, l: VttLineModel)
    ensures
        render_cues(f.push(l)) == render_cues(f) + cue_lines(l),
    decreases f.len(),
{
    if f.len() == 0 {
        let w = f.push(l);
        assert(w[0] == l);
        assert(w.drop_first() =~~= Seq::<VttLineModel>::empty());
        assert(render_cues(w) == cue_lines(l) + render_cues(Seq::<VttLineModel>::empty()));
        assert(render_cues(f) =~~= Seq::<Seq<char>>::empty());
        assert(render_cues(w) =~~= render_cues(f) + cue_lines(l));
    } else {
        lemma_render_cues_push(f.drop_first(), l);
        let w = f.push(l);
        assert(w[0] == f[0]);
        assert(w.drop_first() =~~= f.drop_first().push(l));
        assert(render_cues(w) == cue_lines(f[0]) + render_cues(f.drop_first().push(l)));
        assert(render_cues(f) == cue_lines(f[0]) + render_cues(f.drop_first()));
        assert(render_cues(w) =~~= render_cues(f) + cue_lines(l));
    }
}

/// A scan for a digit block never moves backward and never passes the
/// end.
pub proof fn lemma_digits_end_bounds(l: Seq<char>, i: int)
    ensures
        digits_end(l, i) >= i,
        i <= l.len() ==> digits_end(l, i) <= l.len(),
        forall|m: int| i <= m < digits_end(l, i) ==> is_digit(#[trigger] l[m]),
        0 <= digits_end(l, i) < l.len() ==> !is_digit(l[digits_end(l, i)]),
    decreases l.len() - i,
{
    if 0 <= i < l.len() && is_digit(l[i]) {
        lemma_digits_end_bounds(l, i + 1);
    }
}

/// A digit block bounded by a non-digit or the end scans exactly to its
/// bound.
pub proof fn lemma_digits_end_block(l: Seq<char>, i: int, m: int)
    requires
        0 <= i <= m <= l.len(),
        forall|x: int| i <= x < m ==> is_digit(#[trigger] l[x]),
        m == l.len() || !is_digit(l[m]),
    ensures
        digits_end(l, i) == m,
    decreases m - i,
{
    if i < m {
        lemma_digits_end_block(l, i + 1, m);
    }
}

/// A blank scan never moves backward and never passes the end.
pub proof fn lemma_skip_blank_bounds(ls: Seq<Seq<char>>, i: int)
    ensures
        skip_blank(ls, i) >= i,
        i <= ls.len() ==> skip_blank(ls, i) <= ls.len(),
        forall|m: int| i <= m < skip_blank(ls, i) ==> is_blank(#[trigger] ls[m]),
        0 <= skip_blank(ls, i) < ls.len() ==> !is_blank(ls[skip_blank(ls, i)]),
    decreases ls.len() - i,
{
    if 0 <= i < ls.len() && is_blank(ls[i]) {
        lemma_skip_blank_bounds(ls, i + 1);
    }
}

/// A block of blank lines bounded by a non-blank line or the end scans
/// exactly to its bound.
pub proof fn lemma_skip_blank_block(ls: Seq<Seq<char>>, i: int, m: int)
    requires
        0 <= i <= m <= ls.len(),
        forall|x: int| i <= x < m ==> is_blank(#[trigger] ls[x]),
        m == ls.len() || !is_blank(ls[m]),
    ensures
        skip_blank(ls, i) == m,
    decreases m - i,
{
    if i < m {
        lemma_skip_blank_block(ls, i + 1, m);
    }
}

/// A text scan never moves backward and never passes the end.
pub proof fn lemma_text_end_bounds(ls: Seq<Seq<char>>, i: int)
    ensures
        text_end(ls, i) >= i,
        i <= ls.len() ==> text_end(ls, i) <= ls.len(),
        forall|m: int| i <= m < text_end(ls, i) ==> !is_blank(#[trigger] ls[m]),
        0 <= text_end(ls, i) < ls.len() ==> is_blank(ls[text_end(ls, i)]),
    decreases ls.len() - i,
{
    if 0 <= i < ls.len() && !is_blank(ls[i]) {
        lemma_text_end_bounds(ls, i + 1);
    }
}

/// A block of non-blank lines bounded by a blank line or the end scans
/// exactly to its bound.
pub proof fn lemma_text_end_block(ls: Seq<Seq<char>>, i: int, m: int)
    requires
        0 <= i <= m <= ls.len(),
        forall|x: int| i <= x < m ==> !is_blank(#[trigger] ls[x]),
        m == ls.len() || is_blank(ls[m]),
    ensures
        text_end(ls, i) == m,
    decreases m - i,
{
    if i < m {
        lemma_text_end_block(ls, i + 1, m);
    }
}

/// A parsed timestamp is a machine-range offset and consumes at least one
/// character.
pub proof fn lemma_parse_timepoint_props(l: Seq<char>, i: int)
    requires
        0 <= i <= l.len(),
    ensures
        match parse_timepoint_at(l, i) {
            Option::Some((ms, p)) => 0 <= ms <= i64::MAX && i < p <= l.len(),
            Option::None => true,
        },
{
    let k = digits_end(l, i);
    lemma_digits_end_bounds(l, i);
    match parse_timepoint_at(l, i) {
        Option::Some((ms, p)) => {
            let h = l.subrange(i, k);
            assert(crate::text::all_digits(h));
            lemma_digits_val_bound(h);
            assert(is_digit(l[k + 1]) && is_digit(l[k + 2]) && is_digit(l[k + 4]) && is_digit(
                l[k + 5],
            ) && is_digit(l[k + 7]) && is_digit(l[k + 8]) && is_digit(l[k + 9]));
        },
        Option::None => {},
    }
}

/// A parsed timing line yields an ordered, machine-range interval.
pub proof fn lemma_parse_timestamp_props(l: Seq<char>)
    ensures
        match parse_timestamp_line(l) {
            Option::Some((s, e)) => 0 <= s <= e <= i64::MAX,
            Option::None => true,
        },
{
    lemma_parse_timepoint_props(l, 0);
    match parse_timepoint_at(l, 0) {
        Option::Some((s, p)) => {
            if p + 5 <= l.len() && l.subrange(p, p + 5) == arrow() {
                lemma_parse_timepoint_props(l, p + 5);
            }
        },
        Option::None => {},
    }
}

/// Every cue of a successful parse is strictly well formed, provided no
/// input line holds a line break.
pub proof fn lemma_parse_cues_wf(ls: Seq<Seq<char>>, i: int)
    requires
        0 <= i <= ls.len(),
        forall|m: int| 0 <= m < ls.len() ==> crate::text::no_nl(#[trigger] ls[m]),
    ensures
        match parse_cues(ls, i) {
            Ok(cs) => forall|m: int| 0 <= m < cs.len() ==> wf_cue_strict(#[trigger] cs[m]),
            Err(_) => true,
        },
    decreases ls.len() - i,
{
    let j = skip_blank(ls, i);
    lemma_skip_blank_bounds(ls, i);
    if j >= ls.len() {
    } else {
        match parse_index_line(ls[j]) {
            Option::None => {},
            Option::Some(idx) => {
                lemma_digits_val_bound(ls[j]);
                let tl = if j + 1 < ls.len() {
                    ls[j + 1]
                } else {
                    Seq::<char>::empty()
                };
                match parse_timestamp_line(tl) {
                    Option::None => {},
                    Option::Some((s, e)) => {
                        lemma_parse_timestamp_props(tl);
                        if j + 2 >= ls.len() || is_blank(ls[j + 2]) {
                        } else {
                            let te = text_end(ls, j + 2);
                            lemma_text_end_bounds(ls, j + 2);
                            lemma_parse_cues_wf(ls, te);
                            match parse_cues(ls, te) {
                                Err(_) => {},
                                Ok(rest) => {
                                    let texts = ls.subrange(j + 2, te);
                                    let model = VttLineModel { index: idx, start: s, end: e, texts
                                    };
                                    assert(text_end(ls, j + 2) == text_end(ls, j + 3));
                                    assert(te >= j + 3);
                                    assert(wf_cue_strict(model)) by {
                                        assert(texts.len() >= 1);
                                        assert forall|x: int| 0 <= x < texts.len() implies
                                            !is_blank(#[trigger] texts[x]) && crate::text::no_nl(
                                            texts[x],
                                        ) by {
                                            assert(texts[x] == ls[j + 2 + x]);
                                        }
                                    }
                                    let cs = seq![model] + rest;
                                    assert forall|m: int| 0 <= m < cs.len() implies wf_cue_strict(
                                        #[trigger] cs[m],
                                    ) by {
                                        if m >= 1 {
                                            assert(cs[m] == rest[m - 1]);
                                        }
                                    }
                                },
                            }
                        }
                    },
                }
            },
        }
    }
}

} // verus!
