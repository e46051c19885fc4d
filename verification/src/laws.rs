//! The laws of the library: serializing cues and parsing the result
//! restores them exactly, both for files built from pairs and for files
//! that were themselves parsed.

use vstd::prelude::*;

use crate::entry::SubtitleEntryModel;
use crate::grammar::{
    arrow, cue_lines, digits_end, entries_of, file_lines, fmt_timepoint, header,
    lemma_digits_end_block, lemma_parse_cues_wf, lemma_skip_blank_block, lemma_text_end_block,
    parse_cues, parse_index_line, parse_timepoint_at, parse_timestamp_line, render_cues,
    render_file, skip_blank, spec_parse_vtt, text_end, ts_line, wf_cue_strict, VttLineModel,
    ParseErr,
};
use crate::text::{
    all_digits, dec_digits, digit_val, digits_val, is_blank, is_digit, is_ws, lemma_dec_digits,
    lemma_dec_digits_len, lemma_digits_val_zeros, lemma_join_split, lemma_split_lines_shape,
    lemma_split_unlines, no_nl, split_lines, zero_pad, zeros,
};
use crate::timetypes::{hours_of, mins_comp_of, msecs_comp_of, secs_comp_of};

verus! {

/// A text whose lines are all non-blank: the texts that serialize to a
/// parseable cue block. A text with a blank line cannot round-trip, since
/// a blank line ends the cue's text block on parse.
pub open spec fn renderable_text(t: Seq<char>) -> bool {
    forall|i: int| 0 <= i < split_lines(t).len() ==> !is_blank(#[trigger] split_lines(t)[i])
}

/// The digit string of a machine-range number parses back as an index
/// line, and is neither blank nor broken by a line break.
proof fn lemma_index_line_roundtrip(n: int)
    requires
        0 <= n <= i64::MAX,
    ensures
        parse_index_line(dec_digits(n)) == Option::Some(n),
        !is_blank(dec_digits(n)),
        no_nl(dec_digits(n)),
{
    lemma_dec_digits(n);
    let d = dec_digits(n);
    assert(is_digit(d[0]));
    assert(!is_ws(d[0]));
    assert forall|i: int| 0 <= i < d.len() implies #[trigger] d[i] != '\n' by {
        assert(is_digit(d[i]));
    }
}

/// A zero-padded two-digit field: exactly two digit characters carrying
/// the value.
proof fn lemma_two_digits(m: int)
    requires
        0 <= m < 100,
    ensures
        zero_pad(dec_digits(m), 2).len() == 2,
        all_digits(zero_pad(dec_digits(m), 2)),
        digit_val(zero_pad(dec_digits(m), 2)[0]) * 10 + digit_val(zero_pad(dec_digits(m), 2)[1])
            == m,
{
    lemma_dec_digits(m);
    lemma_dec_digits_len(m);
    let w = zero_pad(dec_digits(m), 2);
    if m < 10 {
        assert(w =~= zeros(1) + dec_digits(m));
        assert(w[0] == '0');
        assert(w[1] == dec_digits(m)[0]);
        crate::text::lemma_digit_char(m);
        assert(digit_val(w[0]) == 0);
        assert(digit_val(w[1]) == m);
        assert forall|i: int| 0 <= i < w.len() implies is_digit(#[trigger] w[i]) by {
            assert(i == 0 || i == 1);
            assert(is_digit(w[0]) && is_digit(w[1]));
        }
    } else {
        assert(w == dec_digits(m));
        assert(dec_digits(m) == dec_digits(m / 10).push(crate::text::digit_char(m % 10)));
        assert(dec_digits(m / 10) == seq![crate::text::digit_char(m / 10)]);
        crate::text::lemma_digit_char(m / 10);
        crate::text::lemma_digit_char(m % 10);
        assert(w[0] == crate::text::digit_char(m / 10));
        assert(w[1] == crate::text::digit_char(m % 10));
        assert(digit_val(w[0]) * 10 + digit_val(w[1]) == (m / 10) * 10 + m % 10);
        assert((m / 10) * 10 + m % 10 == m);
    }
}

/// A zero-padded three-digit field: exactly three digit characters
/// carrying the value.
proof fn lemma_three_digits(q: int)
    requires
        0 <= q < 1000,
    ensures
        zero_pad(dec_digits(q), 3).len() == 3,
        all_digits(zero_pad(dec_digits(q), 3)),
        digit_val(zero_pad(dec_digits(q), 3)[0]) * 100 + digit_val(zero_pad(dec_digits(q), 3)[1])
            * 10 + digit_val(zero_pad(dec_digits(q), 3)[2]) == q,
{
    lemma_dec_digits(q);
    lemma_dec_digits_len(q);
    let w = zero_pad(dec_digits(q), 3);
    crate::text::lemma_digit_char(q % 10);
    if q < 10 {
        assert(w =~= zeros(2) + dec_digits(q));
        crate::text::lemma_digit_char(q);
        assert(w[0] == '0' && w[1] == '0');
        assert(w[2] == dec_digits(q)[0]);
        assert(digit_val(w[0]) == 0 && digit_val(w[1]) == 0 && digit_val(w[2]) == q);
        assert forall|i: int| 0 <= i < w.len() implies is_digit(#[trigger] w[i]) by {
            assert(i == 0 || i == 1 || i == 2);
            assert(is_digit(w[0]) && is_digit(w[1]) && is_digit(w[2]));
        }
    } else if q < 100 {
        assert(dec_digits(q) == dec_digits(q / 10).push(crate::text::digit_char(q % 10)));
        assert(dec_digits(q / 10) == seq![crate::text::digit_char(q / 10)]);
        crate::text::lemma_digit_char(q / 10);
        assert(w =~= zeros(1) + dec_digits(q));
        assert(w[0] == '0');
        assert(w[1] == crate::text::digit_char(q / 10));
        assert(w[2] == crate::text::digit_char(q % 10));
        assert(digit_val(w[0]) * 100 + digit_val(w[1]) * 10 + digit_val(w[2]) == (q / 10) * 10 + q
            % 10);
        assert((q / 10) * 10 + q % 10 == q);
        assert forall|i: int| 0 <= i < w.len() implies is_digit(#[trigger] w[i]) by {
            assert(i == 0 || i == 1 || i == 2);
            assert(is_digit(w[0]) && is_digit(w[1]) && is_digit(w[2]));
        }
    } else {
        assert(w == dec_digits(q));
        assert(dec_digits(q) == dec_digits(q / 10).push(crate::text::digit_char(q % 10)));
        assert(dec_digits(q / 10) == dec_digits(q / 10 / 10).push(
            crate::text::digit_char(q / 10 % 10),
        ));
        assert(dec_digits(q / 10 / 10) == seq![crate::text::digit_char(q / 10 / 10)]);
        crate::text::lemma_digit_char(q / 10 % 10);
        crate::text::lemma_digit_char(q / 10 / 10);
        assert(w[0] == crate::text::digit_char(q / 10 / 10));
        assert(w[1] == crate::text::digit_char(q / 10 % 10));
        assert(w[2] == crate::text::digit_char(q % 10));
        assert(q / 10 / 10 == q / 100) by (nonlinear_arith)
            requires
                q >= 0,
        ;
        assert(digit_val(w[0]) * 100 + digit_val(w[1]) * 10 + digit_val(w[2]) == (q / 100) * 100 + (
        q / 10 % 10) * 10 + q % 10);
        assert((q / 10) * 10 + q % 10 == q);
        assert((q / 100) * 10 + q / 10 % 10 == q / 10);
        assert((q / 100) * 100 + (q / 10 % 10) * 10 + q % 10 == q);
    }
}

/// The timestamp of a machine-range offset is free of line breaks, holds
/// no whitespace, and its components carry the offset.
proof fn lemma_fmt_timepoint_shape(ms: int)
    requires
        0 <= ms <= i64::MAX,
    ensures
        no_nl(fmt_timepoint(ms)),
        !is_blank(fmt_timepoint(ms)),
        fmt_timepoint(ms).len() >= 12,
{
    let h = hours_of(ms);
    lemma_dec_digits(h);
    lemma_dec_digits_len(h);
    lemma_two_digits(mins_comp_of(ms));
    lemma_two_digits(secs_comp_of(ms));
    lemma_three_digits(msecs_comp_of(ms));
    let hh = zero_pad(dec_digits(h), 2);
    assert(all_digits(hh)) by {
        if dec_digits(h).len() >= 2 {
        } else {
            assert(hh =~= zeros(1) + dec_digits(h));
            assert(is_digit(hh[0]));
            assert(forall|i: int|
                1 <= i < hh.len() ==> #[trigger] hh[i] == dec_digits(h)[i - 1]);
        }
    }
    assert(hh.len() >= 2);
    let t = fmt_timepoint(ms);
    assert forall|i: int| 0 <= i < t.len() implies #[trigger] t[i] != '\n' by {
        if t[i] == '\n' {
            assert(!is_digit(t[i]));
            assert(t[i] == ':' || t[i] == '.' || is_digit(t[i]));
        }
    }
    assert(is_digit(t[0])) by {
        assert(t[0] == hh[0]);
    }
    assert(!is_ws(t[0]));
}

/// A timestamp embedded in a line, followed by nothing or by a non-digit,
/// parses back to its offset and consumes exactly its own characters.
proof fn lemma_parse_timepoint_render(a: Seq<char>, ms: int, b: Seq<char>)
    requires
        0 <= ms <= i64::MAX,
        b.len() == 0 || !is_digit(b[0]),
    ensures
        parse_timepoint_at(a + fmt_timepoint(ms) + b, a.len() as int) == Option::Some(
            (ms, a.len() + fmt_timepoint(ms).len() as int),
        ),
{
    let h = hours_of(ms);
    let m = mins_comp_of(ms);
    let s = secs_comp_of(ms);
    let q = msecs_comp_of(ms);
    assert(0 <= ms % 3_600_000 < 3_600_000);
    assert(0 <= (ms % 3_600_000) % 60_000 < 60_000);
    assert(0 <= m < 60) by {
        assert(m == (ms % 3_600_000) / 60_000);
        assert((ms % 3_600_000) / 60_000 < 60) by (nonlinear_arith)
            requires
                0 <= ms % 3_600_000 < 3_600_000,
        ;
    }
    assert(0 <= s < 60) by {
        assert(s == ((ms % 3_600_000) % 60_000) / 1_000);
        assert(((ms % 3_600_000) % 60_000) / 1_000 < 60) by (nonlinear_arith)
            requires
                0 <= (ms % 3_600_000) % 60_000 < 60_000,
        ;
    }
    assert(0 <= q < 1000);
    assert(0 <= h);
    lemma_dec_digits(h);
    lemma_dec_digits_len(h);
    lemma_two_digits(m);
    lemma_two_digits(s);
    lemma_three_digits(q);
    let hh = zero_pad(dec_digits(h), 2);
    let mm = zero_pad(dec_digits(m), 2);
    let ss = zero_pad(dec_digits(s), 2);
    let qq = zero_pad(dec_digits(q), 3);
    assert(all_digits(hh)) by {
        if dec_digits(h).len() >= 2 {
        } else {
            assert(hh =~= zeros(1) + dec_digits(h));
            assert(is_digit(hh[0]));
            assert(forall|i: int|
                1 <= i < hh.len() ==> #[trigger] hh[i] == dec_digits(h)[i - 1]);
        }
    }
    assert(digits_val(hh) == h) by {
        if dec_digits(h).len() >= 2 {
        } else {
            assert(hh =~= zeros(1) + dec_digits(h));
            lemma_digits_val_zeros(1, dec_digits(h));
        }
    }
    let t = fmt_timepoint(ms);
    let l = a + t + b;
    let i = a.len() as int;
    let k = i + hh.len();
    assert(t =~= hh + seq![':'] + mm + seq![':'] + ss + seq!['.'] + qq);
    assert(t.len() == hh.len() + 10);
    // the hour digits end exactly at the first colon
    assert forall|x: int| i <= x < k implies is_digit(#[trigger] l[x]) by {
        assert(l[x] == hh[x - i]);
    }
    assert(l[k] == ':');
    assert(!is_digit(':'));
    lemma_digits_end_block(l, i, k);
    assert(digits_end(l, i) == k);
    assert(k != i);
    assert(k + 10 <= l.len());
    // the fixed-width fields
    assert(l[k + 1] == mm[0] && l[k + 2] == mm[1]);
    assert(l[k + 3] == ':');
    assert(l[k + 4] == ss[0] && l[k + 5] == ss[1]);
    assert(l[k + 6] == '.');
    assert(l[k + 7] == qq[0] && l[k + 8] == qq[1] && l[k + 9] == qq[2]);
    assert(l.subrange(i, k) =~= hh);
    // the components reassemble the offset
    let r1 = ms % 3_600_000;
    let r2 = r1 % 60_000;
    assert(ms == h * 3_600_000 + r1);
    assert(r1 == m * 60_000 + r2);
    assert(r2 == s * 1_000 + q);
    assert(digits_val(l.subrange(i, k)) * 3_600_000 + (digit_val(l[k + 1]) * 10 + digit_val(
        l[k + 2],
    )) * 60_000 + (digit_val(l[k + 4]) * 10 + digit_val(l[k + 5])) * 1_000 + digit_val(l[k + 7])
        * 100 + digit_val(l[k + 8]) * 10 + digit_val(l[k + 9]) == ms);
}

/// A serialized timing line parses back to its interval.
#[verifier::rlimit(100)]
#[verifier::spinoff_prover]
proof fn lemma_parse_ts_render(s: int, e: int)
    requires
        0 <= s <= e <= i64::MAX,
    ensures
        parse_timestamp_line(ts_line(s, e)) == Option::Some((s, e)),
        no_nl(ts_line(s, e)),
        !is_blank(ts_line(s, e)),
{
    let l = ts_line(s, e);
    let fs = fmt_timepoint(s);
    let fe = fmt_timepoint(e);
    lemma_fmt_timepoint_shape(s);
    lemma_fmt_timepoint_shape(e);
    assert(l == fs + arrow() + fe);
    // the first timestamp, followed by the arrow
    assert(Seq::<char>::empty() + fs + (arrow() + fe) =~= l);
    assert(!is_digit(' '));
    lemma_parse_timepoint_render(Seq::<char>::empty(), s, arrow() + fe);
    assert((arrow() + fe)[0] == ' ');
    let p = fs.len() as int;
    assert(parse_timepoint_at(l, 0) == Option::Some((s, p)));
    assert(l.subrange(p, p + 5) =~= arrow());
    // the second timestamp, at the end of the line
    assert((fs + arrow()) + fe + Seq::<char>::empty() =~= l);
    lemma_parse_timepoint_render(fs + arrow(), e, Seq::<char>::empty());
    assert(parse_timepoint_at(l, p + 5) == Option::Some((e, l.len() as int)));
    // shape facts
    assert forall|i: int| 0 <= i < l.len() implies #[trigger] l[i] != '\n' by {
        if i < fs.len() {
            assert(l[i] == fs[i]);
        } else if i < fs.len() + 5 {
            assert(l[i] == arrow()[i - fs.len()]);
        } else {
            assert(l[i] == fe[i - fs.len() - 5]);
        }
    }
    assert(l[0] == fs[0]);
    assert(!is_ws(l[0]));
}

/// Parsing is unmoved by one leading blank line.
proof fn lemma_parse_cues_skip(ls: Seq<Seq<char>>, t: int)
    requires
        0 <= t < ls.len(),
        is_blank(ls[t]),
    ensures
        parse_cues(ls, t) == parse_cues(ls, t + 1),
{
    assert(skip_blank(ls, t) == skip_blank(ls, t + 1));
}

/// The placement of the first serialized cue's lines and of the rest,
/// within a line sequence whose suffix serializes the cues.
#[verifier::rlimit(100)]
#[verifier::spinoff_prover]
proof fn lemma_cue_layout(ls: Seq<Seq<char>>, i: int, cues: Seq<VttLineModel>)
    requires
        0 <= i <= ls.len(),
        cues.len() > 0,
        ls.subrange(i, ls.len() as int) == render_cues(cues) + seq![Seq::<char>::empty()],
    ensures
        ls.len() == i + cues[0].texts.len() + 3 + render_cues(cues.drop_first()).len() + 1,
        ls[i] == dec_digits(cues[0].index),
        ls[i + 1] == ts_line(cues[0].start, cues[0].end),
        forall|x: int| 0 <= x < cues[0].texts.len() ==> ls[i + 2 + x] == #[trigger] cues[0].texts[x],
        ls[i + 2 + cues[0].texts.len()] == Seq::<char>::empty(),
        ls.subrange(i + cues[0].texts.len() + 3, ls.len() as int) == render_cues(
            cues.drop_first(),
        ) + seq![Seq::<char>::empty()],
{
    let suf = ls.subrange(i, ls.len() as int);
    let c0 = cues[0];
    let rest = cues.drop_first();
    assert(render_cues(cues) == cue_lines(c0) + render_cues(rest));
    let t_cnt = c0.texts.len() as int;
    let head = cue_lines(c0);
    assert(head.len() == t_cnt + 3);
    let rend = render_cues(cues) + seq![Seq::<char>::empty()];
    assert(suf.len() == rend.len());
    assert(ls.len() == i + head.len() + render_cues(rest).len() + 1);
    assert(ls[i] == dec_digits(c0.index)) by {
        assert(suf[0] == ls[i + 0]);
        assert(rend[0] == render_cues(cues)[0]);
        assert(render_cues(cues)[0] == head[0]);
        assert(head[0] == dec_digits(c0.index));
    }
    assert(ls[i + 1] == ts_line(c0.start, c0.end)) by {
        assert(suf[1] == ls[i + 1]);
        assert(rend[1] == render_cues(cues)[1]);
        assert(render_cues(cues)[1] == head[1]);
        assert(head[1] == ts_line(c0.start, c0.end));
    }
    assert forall|x: int| 0 <= x < t_cnt implies ls[i + 2 + x] == #[trigger] c0.texts[x] by {
        assert(suf[2 + x] == ls[i + 2 + x]);
        assert(rend[2 + x] == render_cues(cues)[2 + x]);
        assert(render_cues(cues)[2 + x] == head[2 + x]);
        assert(head[2 + x] == (seq![dec_digits(c0.index), ts_line(c0.start, c0.end)] + c0.texts
            + seq![Seq::<char>::empty()])[2 + x]);
        assert(head[2 + x] == c0.texts[x]);
    }
    assert(ls[i + 2 + t_cnt] =~= Seq::<char>::empty()) by {
        assert(suf[2 + t_cnt] == ls[i + 2 + t_cnt]);
        assert(rend[2 + t_cnt] == render_cues(cues)[2 + t_cnt]);
        assert(render_cues(cues)[2 + t_cnt] == head[2 + t_cnt]);
        assert(head[2 + t_cnt] =~= Seq::<char>::empty());
    }
    let te = i + 2 + t_cnt;
    assert(ls.subrange(te + 1, ls.len() as int) =~~= render_cues(rest) + seq![
        Seq::<char>::empty(),
    ]) by {
        assert forall|x: int|
            0 <= x < ls.len() - te - 1 implies ls.subrange(te + 1, ls.len() as int)[x] == (
        render_cues(rest) + seq![Seq::<char>::empty()])[x] by {
            assert(ls.subrange(te + 1, ls.len() as int)[x] == ls[te + 1 + x]);
            assert(suf[2 + t_cnt + 1 + x] == ls[i + 2 + t_cnt + 1 + x]);
            assert(suf[2 + t_cnt + 1 + x] == rend[head.len() + x]);
            if x < render_cues(rest).len() {
                assert(rend[head.len() + x] == render_cues(cues)[head.len() + x]);
                assert(render_cues(cues)[head.len() + x] == render_cues(rest)[x]);
                assert((render_cues(rest) + seq![Seq::<char>::empty()])[x] == render_cues(
                    rest,
                )[x]);
            } else {
                assert(x == render_cues(rest).len());
                assert(head.len() + x == render_cues(cues).len());
                assert(rend[head.len() + x] == Seq::<char>::empty());
                assert((render_cues(rest) + seq![Seq::<char>::empty()])[x]
                    == Seq::<char>::empty());
            }
        }
    }
}

/// Parsing the serialized lines of strictly well-formed cues, terminated
/// by one empty line, restores the cues exactly.
#[verifier::rlimit(100)]
#[verifier::spinoff_prover]
proof fn lemma_parse_render_cues(ls: Seq<Seq<char>>, i: int, cues: Seq<VttLineModel>)
    requires
        0 <= i <= ls.len(),
        ls.subrange(i, ls.len() as int) == render_cues(cues) + seq![Seq::<char>::empty()],
        forall|m: int| 0 <= m < cues.len() ==> wf_cue_strict(#[trigger] cues[m]),
    ensures
        parse_cues(ls, i) == Ok::<_, ParseErr>(cues),
    decreases cues.len(),
{
    let suf = ls.subrange(i, ls.len() as int);
    if cues.len() == 0 {
        assert(render_cues(cues) =~~= Seq::<Seq<char>>::empty());
        assert(suf =~~= seq![Seq::<char>::empty()]);
        assert(ls.len() == i + 1);
        assert(suf[0] == ls[i + 0]);
        assert(ls[i] =~= Seq::<char>::empty());
        assert(is_blank(ls[i]));
        lemma_skip_blank_block(ls, i, ls.len() as int);
        assert(parse_cues(ls, i) == Ok::<_, ParseErr>(Seq::<VttLineModel>::empty()));
        assert(Seq::<VttLineModel>::empty() =~~= cues);
    } else {
        let c0 = cues[0];
        let rest = cues.drop_first();
        assert(wf_cue_strict(c0));
        let t_cnt = c0.texts.len() as int;
        lemma_cue_layout(ls, i, cues);
        // index line
        lemma_index_line_roundtrip(c0.index);
        lemma_skip_blank_block(ls, i, i);
        assert(skip_blank(ls, i) == i);
        assert(parse_index_line(ls[i]) == Option::Some(c0.index));
        // timing line
        lemma_parse_ts_render(c0.start, c0.end);
        assert(i + 1 < ls.len());
        assert(parse_timestamp_line(ls[i + 1]) == Option::Some((c0.start, c0.end)));
        // text block
        assert(i + 2 < ls.len());
        assert(!is_blank(ls[i + 2])) by {
            assert(c0.texts[0] == ls[i + 2]);
        }
        assert forall|x: int| i + 2 <= x < i + 2 + t_cnt implies !is_blank(#[trigger] ls[x]) by {
            assert(ls[x] == c0.texts[x - i - 2]);
            assert(!is_blank(c0.texts[x - i - 2]));
        }
        lemma_text_end_block(ls, i + 2, i + 2 + t_cnt);
        assert(text_end(ls, i + 2) == i + 2 + t_cnt);
        assert(ls.subrange(i + 2, i + 2 + t_cnt) =~~= c0.texts);
        // the remaining cues
        let te = i + 2 + t_cnt;
        assert(is_blank(ls[te]));
        lemma_parse_cues_skip(ls, te);
        assert forall|m: int| 0 <= m < rest.len() implies wf_cue_strict(#[trigger] rest[m]) by {
            assert(rest[m] == cues[m + 1]);
        }
        lemma_parse_render_cues(ls, te + 1, rest);
        assert(parse_cues(ls, te) == Ok::<_, ParseErr>(rest));
        assert(parse_cues(ls, i) == Ok::<_, ParseErr>(seq![c0] + rest));
        assert(seq![c0] + rest =~~= cues);
    }
}

/// Serializing strictly well-formed cues and parsing the result restores
/// them exactly.
pub proof fn lemma_render_parse(cues: Seq<VttLineModel>)
    requires
        forall|m: int| 0 <= m < cues.len() ==> wf_cue_strict(#[trigger] cues[m]),
    ensures
        spec_parse_vtt(render_file(cues)) == Ok::<_, ParseErr>(cues),
{
    let fl = file_lines(cues);
    // no rendered line holds a line break
    assert forall|m: int| 0 <= m < fl.len() implies no_nl(#[trigger] fl[m]) by {
        lemma_render_lines_no_nl(cues);
    }
    lemma_split_unlines(fl);
    let ls = split_lines(render_file(cues));
    assert(ls == fl.push(Seq::<char>::empty()));
    assert(ls[0] == header());
    assert(ls[1] =~= Seq::<char>::empty());
    lemma_parse_cues_skip(ls, 1);
    assert(ls.subrange(2, ls.len() as int) =~~= render_cues(cues) + seq![Seq::<char>::empty()]) by {
        assert forall|x: int|
            0 <= x < ls.len() - 2 implies ls.subrange(2, ls.len() as int)[x] == (render_cues(cues)
            + seq![Seq::<char>::empty()])[x] by {
            if x < ls.len() - 3 {
                assert(ls.subrange(2, ls.len() as int)[x] == fl[2 + x]);
                assert(fl[2 + x] == render_cues(cues)[x]);
            }
        }
    }
    lemma_parse_render_cues(ls, 2, cues);
    assert(spec_parse_vtt(render_file(cues)) == parse_cues(ls, 1));
}

/// Round trip: building a file from timing and text pairs whose texts
/// have no blank lines, serializing it and parsing the result restores
/// exactly the built cues, and the entries of those cues carry back each
/// original interval and each original text unchanged.
pub proof fn lemma_create_serialize_parse_round_trip(ps: Seq<((int, int), Seq<char>)>)
    requires
        ps.len() <= i64::MAX,
        forall|i: int| 0 <= i < ps.len() ==> 0 <= (#[trigger] ps[i]).0.0 <= ps[i].0.1 <= i64::MAX,
        forall|i: int| 0 <= i < ps.len() ==> renderable_text((#[trigger] ps[i]).1),
    ensures
        spec_parse_vtt(render_file(crate::grammar::create_cues(ps))) == Ok::<_, ParseErr>(
            crate::grammar::create_cues(ps),
        ),
        entries_of(crate::grammar::create_cues(ps)) == Seq::new(
            ps.len(),
            |i: int|
                SubtitleEntryModel { start: ps[i].0.0, end: ps[i].0.1, line: Some(ps[i].1) },
        ),
{
    let cs = crate::grammar::create_cues(ps);
    assert forall|m: int| 0 <= m < cs.len() implies wf_cue_strict(#[trigger] cs[m]) by {
        lemma_split_lines_shape(ps[m].1);
        assert(cs[m].texts == split_lines(ps[m].1));
        assert(renderable_text(ps[m].1));
    }
    lemma_render_parse(cs);
    assert(entries_of(cs) =~= Seq::new(
        ps.len(),
        |i: int| SubtitleEntryModel { start: ps[i].0.0, end: ps[i].0.1, line: Some(ps[i].1) },
    )) by {
        assert forall|i: int|
            0 <= i < ps.len() implies entries_of(cs)[i] == (SubtitleEntryModel {
            start: ps[i].0.0,
            end: ps[i].0.1,
            line: Some(ps[i].1),
        }) by {
            lemma_join_split(ps[i].1);
        }
    }
}

/// Idempotence: serializing a freshly parsed file and parsing the result
/// reproduces exactly the parsed cues, and with them the same entries.
pub proof fn lemma_parse_serialize_parse_idempotent(s: Seq<char>)
    ensures
        match spec_parse_vtt(s) {
            Ok(f) => spec_parse_vtt(render_file(f)) == Ok::<_, ParseErr>(f),
            Err(_) => true,
        },
{
    let ls = split_lines(s);
    lemma_split_lines_shape(s);
    let start: int = if ls[0] == header() {
        1
    } else {
        0
    };
    lemma_parse_cues_wf(ls, start);
    match spec_parse_vtt(s) {
        Ok(f) => {
            lemma_render_parse(f);
        },
        Err(_) => {},
    }
}

/// No line of a serialized file holds a line break.
#[verifier::rlimit(100)]
#[verifier::spinoff_prover]
proof fn lemma_render_lines_no_nl(cues: Seq<VttLineModel>)
    requires
        forall|m: int| 0 <= m < cues.len() ==> wf_cue_strict(#[trigger] cues[m]),
    ensures
        forall|m: int| 0 <= m < file_lines(cues).len() ==> no_nl(#[trigger] file_lines(cues)[m]),
    decreases cues.len(),
{
    let fl = file_lines(cues);
    if cues.len() == 0 {
        assert forall|m: int| 0 <= m < fl.len() implies no_nl(#[trigger] fl[m]) by {
            assert(render_cues(cues) =~~= Seq::<Seq<char>>::empty());
            assert(m == 0 || m == 1);
        }
    } else {
        let c0 = cues[0];
        let rest = cues.drop_first();
        assert forall|m: int| 0 <= m < rest.len() implies wf_cue_strict(#[trigger] rest[m]) by {
            assert(rest[m] == cues[m + 1]);
        }
        lemma_render_lines_no_nl(rest);
        lemma_index_line_roundtrip(c0.index);
        lemma_parse_ts_render(c0.start, c0.end);
        assert(render_cues(cues) == cue_lines(c0) + render_cues(rest));
        let head = cue_lines(c0);
        let t_cnt = c0.texts.len() as int;
        assert forall|m: int| 0 <= m < fl.len() implies no_nl(#[trigger] fl[m]) by {
            if m >= 2 {
                let x = m - 2;
                assert(fl[m] == render_cues(cues)[x]);
                if x < head.len() {
                    assert(render_cues(cues)[x] == head[x]);
                    if x == 0 {
                        assert(head[x] == dec_digits(c0.index));
                    } else if x == 1 {
                        assert(head[x] == ts_line(c0.start, c0.end));
                    } else if x < 2 + t_cnt {
                        assert(head[x] == c0.texts[x - 2]);
                    } else {
                        assert(head[x] =~= Seq::<char>::empty());
                    }
                } else {
                    assert(render_cues(cues)[x] == render_cues(rest)[x - head.len()]);
                    assert(file_lines(rest)[x - head.len() + 2] == render_cues(rest)[x
                        - head.len()]);
                }
            } else {
                assert(fl[0] == header() && fl[1] =~= Seq::<char>::empty());
            }
        }
    }
}

} // verus!
