//! Characters, decimal digit strings, and line splitting and joining.

use vstd::prelude::*;
use vstd::string::*;

verus! {

/// Whitespace that may pad a blank separator line.
pub open spec fn is_ws(c: char) -> bool {
    c == ' ' || c == '\t' || c == '\r'
}

/// A blank line: empty or made of whitespace only.
pub open spec fn is_blank(l: Seq<char>) -> bool {
    forall|i: int| 0 <= i < l.len() ==> is_ws(#[trigger] l[i])
}

/// An ASCII decimal digit.
pub open spec fn is_digit(c: char) -> bool {
    48 <= c as u32 <= 57
}

/// The numeric value of a digit character.
pub open spec fn digit_val(c: char) -> int {
    c as u32 - 48
}

/// The digit character of a value between 0 and 9.
pub open spec fn digit_char(d: int) -> char {
    ((48 + d) as u8) as char
}

/// Whether every character of `s` is a decimal digit.
pub open spec fn all_digits(s: Seq<char>) -> bool {
    forall|i: int| 0 <= i < s.len() ==> is_digit(#[trigger] s[i])
}

/// The numeric value of a digit string, most significant digit first.
pub open spec fn digits_val(s: Seq<char>) -> int
    decreases s.len(),
{
    if s.len() == 0 {
        0
    } else {
        digits_val(s.drop_last()) * 10 + digit_val(s.last())
    }
}

/// The shortest decimal digit string of a non-negative number.
pub open spec fn dec_digits(n: int) -> Seq<char>
    decreases n,
{
    if n < 10 {
        seq![digit_char(n)]
    } else {
        dec_digits(n / 10).push(digit_char(n % 10))
    }
}

/// `k` zero characters.
pub open spec fn zeros(k: int) -> Seq<char> {
    Seq::new(k as nat, |i: int| '0')
}

/// `s` left-padded with zeros to at least width `w`.
pub open spec fn zero_pad(s: Seq<char>, w: int) -> Seq<char> {
    if s.len() >= w {
        s
    } else {
        zeros(w - s.len()) + s
    }
}

/// Whether `s` contains no line break.
pub open spec fn no_nl(s: Seq<char>) -> bool {
    forall|i: int| 0 <= i < s.len() ==> #[trigger] s[i] != '\n'
}

/// The lines of `s`, split at each line break. The empty text is one
/// empty line; a trailing line break yields a trailing empty line.
pub open spec fn split_lines(s: Seq<char>) -> Seq<Seq<char>>
    decreases s.len(),
{
    if s.len() == 0 {
        seq![Seq::<char>::empty()]
    } else if s[0] == '\n' {
        seq![Seq::<char>::empty()] + split_lines(s.drop_first())
    } else {
        let r = split_lines(s.drop_first());
        seq![seq![s[0]] + r[0]] + r.drop_first()
    }
}

/// The lines of `ls` joined with single line breaks, none at the end.
pub open spec fn join_lines(ls: Seq<Seq<char>>) -> Seq<char>
    decreases ls.len(),
{
    if ls.len() == 0 {
        Seq::empty()
    } else if ls.len() == 1 {
        ls[0]
    } else {
        ls[0] + seq!['\n'] + join_lines(ls.drop_first())
    }
}

/// The lines of `ls` each followed by a line break.
pub open spec fn unlines(ls: Seq<Seq<char>>) -> Seq<char>
    decreases ls.len(),
{
    if ls.len() == 0 {
        Seq::empty()
    } else {
        ls[0] + seq!['\n'] + unlines(ls.drop_first())
    }
}

/// Ten to the power `k` (one for `k` at or below zero).
pub open spec fn pow10(k: int) -> int
    decreases k,
{
    if k <= 0 {
        1
    } else {
        10 * pow10(k - 1)
    }
}

/// A digit character is a digit, is not whitespace, is not a line break,
/// and carries its value.
pub proof fn lemma_digit_char(d: int)
    requires
        0 <= d <= 9,
    ensures
        is_digit(digit_char(d)),
        digit_val(digit_char(d)) == d,
        !is_ws(digit_char(d)),
        digit_char(d) != '\n',
{
}

/// The decimal digit string of a non-negative number is non-empty, is all
/// digits, and evaluates back to the number.
pub proof fn lemma_dec_digits(n: int)
    requires
        n >= 0,
    ensures
        dec_digits(n).len() >= 1,
        all_digits(dec_digits(n)),
        digits_val(dec_digits(n)) == n,
    decreases n,
{
    if n < 10 {
        lemma_digit_char(n);
        let s = dec_digits(n);
        assert(s == seq![digit_char(n)]);
        assert(s.drop_last() =~= Seq::<char>::empty());
        assert(s.last() == digit_char(n));
        assert(digits_val(Seq::<char>::empty()) == 0);
        assert(digits_val(s) == digits_val(s.drop_last()) * 10 + digit_val(s.last()));
    } else {
        lemma_dec_digits(n / 10);
        lemma_digit_char(n % 10);
        let s = dec_digits(n);
        assert(s == dec_digits(n / 10).push(digit_char(n % 10)));
        assert(s.drop_last() =~= dec_digits(n / 10));
        assert(s.last() == digit_char(n % 10));
        assert(digits_val(s) == (n / 10) * 10 + n % 10);
        assert(n / 10 * 10 + n % 10 == n);
        assert forall|i: int| 0 <= i < s.len() implies is_digit(#[trigger] s[i]) by {
            if i < s.len() - 1 {
                assert(s[i] == dec_digits(n / 10)[i]);
            } else {
                assert(s[i] == digit_char(n % 10));
            }
        }
    }
}

/// Numbers of ten or more have at least two digits; of one hundred or
/// more, at least three.
pub proof fn lemma_dec_digits_len(n: int)
    requires
        n >= 0,
    ensures
        n < 10 ==> dec_digits(n).len() == 1,
        n >= 10 ==> dec_digits(n).len() >= 2,
        n >= 100 ==> dec_digits(n).len() >= 3,
        n < 100 ==> dec_digits(n).len() <= 2,
        n < 1000 ==> dec_digits(n).len() <= 3,
{
    if n >= 10 {
        assert(dec_digits(n) == dec_digits(n / 10).push(digit_char(n % 10)));
        if n / 10 >= 10 {
            assert(dec_digits(n / 10) == dec_digits(n / 10 / 10).push(digit_char(n / 10 % 10)));
            if n / 10 / 10 < 10 {
                assert(dec_digits(n / 10 / 10).len() == 1);
            }
        } else {
            assert(dec_digits(n / 10).len() == 1);
        }
    }
}

/// Leading zeros do not change the value of a digit string.
pub proof fn lemma_digits_val_zeros(k: int, s: Seq<char>)
    requires
        k >= 0,
    ensures
        digits_val(zeros(k) + s) == digits_val(s),
    decreases s.len(), k,
{
    if s.len() == 0 {
        if k == 0 {
            assert(zeros(0) + s =~= Seq::<char>::empty());
        } else {
            assert((zeros(k) + s).drop_last() =~= zeros(k - 1) + s);
            assert((zeros(k) + s).last() == '0');
            lemma_digits_val_zeros(k - 1, s);
            assert(digit_val('0') == 0);
        }
    } else {
        assert((zeros(k) + s).drop_last() =~= zeros(k) + s.drop_last());
        assert((zeros(k) + s).last() == s.last());
        lemma_digits_val_zeros(k, s.drop_last());
    }
}

/// A digit string's value is non-negative and below ten to its length.
pub proof fn lemma_digits_val_bound(s: Seq<char>)
    requires
        all_digits(s),
    ensures
        0 <= digits_val(s) < pow10(s.len() as int),
    decreases s.len(),
{
    if s.len() > 0 {
        assert(all_digits(s.drop_last()));
        lemma_digits_val_bound(s.drop_last());
        assert(is_digit(s.last()));
        assert(0 <= digit_val(s.last()) <= 9);
    }
}

/// A digit string with a leading non-zero digit has a value of at least
/// ten to one less than its length.
pub proof fn lemma_digits_val_lower(s: Seq<char>)
    requires
        all_digits(s),
        s.len() >= 1,
        s[0] != '0',
    ensures
        digits_val(s) >= pow10(s.len() - 1),
    decreases s.len(),
{
    if s.len() == 1 {
        assert(s.drop_last() =~= Seq::<char>::empty());
        assert(is_digit(s[0]));
        let c = s[0];
        if digit_val(c) == 0 {
            assert(c as u32 == 48);
            vstd::utf8::char_u32_cast(c, 48u32);
            vstd::utf8::char_u32_cast('0', 48u32);
            assert(c == '0');
        }
        assert(digit_val(s[0]) >= 1);
        assert(digits_val(s) == digits_val(s.drop_last()) * 10 + digit_val(s.last()));
        assert(s.last() == s[0]);
        assert(pow10(0) == 1);
    } else {
        assert(all_digits(s.drop_last()));
        assert(s.drop_last()[0] == s[0]);
        lemma_digits_val_lower(s.drop_last());
        assert(is_digit(s.last()));
        assert(0 <= digit_val(s.last()));
        assert(digits_val(s) == digits_val(s.drop_last()) * 10 + digit_val(s.last()));
        assert(digits_val(s.drop_last()) >= pow10(s.len() - 2));
        assert(pow10(s.len() - 1) == 10 * pow10(s.len() - 2));
    }
}

/// Ten to any power is at least one.
pub proof fn lemma_pow10_pos(k: int)
    ensures
        pow10(k) >= 1,
    decreases k,
{
    if k > 0 {
        lemma_pow10_pos(k - 1);
    }
}

/// The concrete value of ten to the nineteenth power, one order above
/// what a 64-bit signed value can hold.
pub proof fn lemma_pow10_19()
    ensures
        pow10(19) == 10_000_000_000_000_000_000,
{
    reveal_with_fuel(pow10, 20);
}

/// Ten to the power is monotone.
pub proof fn lemma_pow10_mono(a: int, b: int)
    requires
        a <= b,
    ensures
        pow10(a) <= pow10(b),
        pow10(a) >= 1,
    decreases b - a,
{
    lemma_pow10_pos(a);
    if a < b {
        lemma_pow10_mono(a, b - 1);
        lemma_pow10_pos(b - 1);
    }
}

/// Splitting always yields at least one line, and no line contains a
/// line break.
pub proof fn lemma_split_lines_shape(s: Seq<char>)
    ensures
        split_lines(s).len() >= 1,
        forall|i: int| 0 <= i < split_lines(s).len() ==> no_nl(#[trigger] split_lines(s)[i]),
    decreases s.len(),
{
    if s.len() == 0 {
    } else if s[0] == '\n' {
        lemma_split_lines_shape(s.drop_first());
    } else {
        lemma_split_lines_shape(s.drop_first());
        let r = split_lines(s.drop_first());
        assert(no_nl(seq![s[0]] + r[0]));
    }
}

/// Joining the lines of a text restores the text.
pub proof fn lemma_join_split(s: Seq<char>)
    ensures
        join_lines(split_lines(s)) == s,
    decreases s.len(),
{
    lemma_split_lines_shape(s);
    if s.len() == 0 {
        assert(join_lines(split_lines(s)) =~= s);
    } else if s[0] == '\n' {
        lemma_join_split(s.drop_first());
        let r = split_lines(s.drop_first());
        let w = seq![Seq::<char>::empty()] + r;
        assert(w.len() >= 2);
        assert(w[0] =~= Seq::<char>::empty());
        assert(w.drop_first() =~= r);
        assert(join_lines(w) =~= w[0] + seq!['\n'] + join_lines(r));
        assert(join_lines(w) =~= s);
    } else {
        lemma_join_split(s.drop_first());
        lemma_split_lines_shape(s.drop_first());
        let r = split_lines(s.drop_first());
        let w = seq![seq![s[0]] + r[0]] + r.drop_first();
        assert(w[0] == seq![s[0]] + r[0]);
        if r.len() == 1 {
            assert(w.len() == 1);
            assert(join_lines(w) == w[0]);
            assert(join_lines(r) == r[0]);
            assert(join_lines(w) =~= s);
        } else {
            assert(w.drop_first() =~= r.drop_first());
            assert(w.len() == r.len());
            assert(w.len() >= 2);
            assert(join_lines(w) == w[0] + seq!['\n'] + join_lines(w.drop_first()));
            assert(join_lines(w) == (seq![s[0]] + r[0]) + seq!['\n'] + join_lines(r.drop_first()));
            assert(join_lines(r) == r[0] + seq!['\n'] + join_lines(r.drop_first()));
            assert(s.drop_first() == r[0] + seq!['\n'] + join_lines(r.drop_first()));
            assert(s =~= seq![s[0]] + s.drop_first());
            assert(join_lines(w) =~= seq![s[0]] + s.drop_first());
            assert(join_lines(w) =~= s);
        }
    }
}

/// Splitting a break-free line, a line break, and a remainder yields the
/// line followed by the lines of the remainder.
pub proof fn lemma_split_concat(a: Seq<char>, b: Seq<char>)
    requires
        no_nl(a),
    ensures
        split_lines(a + seq!['\n'] + b) == seq![a] + split_lines(b),
    decreases a.len(),
{
    lemma_split_lines_shape(b);
    let s = a + seq!['\n'] + b;
    if a.len() == 0 {
        assert(s[0] == '\n');
        assert(s.drop_first() =~= b);
        assert(split_lines(s) == seq![Seq::<char>::empty()] + split_lines(b));
        assert(a =~= Seq::<char>::empty());
        assert(seq![Seq::<char>::empty()] + split_lines(b) =~~= seq![a] + split_lines(b));
    } else {
        assert(s[0] == a[0]);
        assert(s[0] != '\n');
        assert(s.drop_first() =~= a.drop_first() + seq!['\n'] + b);
        assert(no_nl(a.drop_first()));
        lemma_split_concat(a.drop_first(), b);
        let r = split_lines(s.drop_first());
        assert(r == seq![a.drop_first()] + split_lines(b));
        assert(r[0] == a.drop_first());
        assert(r.drop_first() =~= split_lines(b));
        assert(seq![s[0]] + r[0] =~= a);
        assert(split_lines(s) =~~= seq![a] + split_lines(b));
    }
}

/// Splitting a break-terminated sequence of break-free lines yields those
/// lines followed by one empty line.
pub proof fn lemma_split_unlines(ls: Seq<Seq<char>>)
    requires
        forall|i: int| 0 <= i < ls.len() ==> no_nl(#[trigger] ls[i]),
    ensures
        split_lines(unlines(ls)) == ls.push(Seq::<char>::empty()),
    decreases ls.len(),
{
    if ls.len() == 0 {
        assert(unlines(ls) =~= Seq::<char>::empty());
        assert(split_lines(unlines(ls)) =~~= ls.push(Seq::<char>::empty()));
    } else {
        lemma_split_unlines(ls.drop_first());
        assert(unlines(ls) == ls[0] + seq!['\n'] + unlines(ls.drop_first()));
        lemma_split_concat(ls[0], unlines(ls.drop_first()));
        assert(split_lines(unlines(ls)) == seq![ls[0]] + ls.drop_first().push(
            Seq::<char>::empty(),
        ));
        assert(seq![ls[0]] + ls.drop_first().push(Seq::<char>::empty()) =~~= ls.push(
            Seq::<char>::empty(),
        ));
    }
}

/// A line prepended to the first line of a split.
spec fn prepend_first(p: Seq<char>, l: Seq<Seq<char>>) -> Seq<Seq<char>> {
    seq![p + l[0]] + l.drop_first()
}

/// Establishes the identity of `digit_char` and a digit character.
pub proof fn lemma_digit_char_eq(d: int, c: char)
    requires
        0 <= d <= 9,
        c as u32 == 48 + d,
    ensures
        digit_char(d) == c,
{
    let u = (48 + d) as u32;
    vstd::utf8::char_u32_cast(c, u);
    vstd::utf8::char_u32_cast(digit_char(d), u);
}

/// The single-character string of a decimal digit.
pub fn digit_str(d: u64) -> (r: &'static str)
    requires
        d <= 9,
    ensures
        r@ == seq![digit_char(d as int)],
{
    match d {
        0u64 => {
            proof {
                reveal_strlit("0");
                lemma_digit_char_eq(0, '0');
                assert("0"@ =~= seq![digit_char(0)]);
            }
            "0"
        },
        1u64 => {
            proof {
                reveal_strlit("1");
                lemma_digit_char_eq(1, '1');
                assert("1"@ =~= seq![digit_char(1)]);
            }
            "1"
        },
        2u64 => {
            proof {
                reveal_strlit("2");
                lemma_digit_char_eq(2, '2');
                assert("2"@ =~= seq![digit_char(2)]);
            }
            "2"
        },
        3u64 => {
            proof {
                reveal_strlit("3");
                lemma_digit_char_eq(3, '3');
                assert("3"@ =~= seq![digit_char(3)]);
            }
            "3"
        },
        4u64 => {
            proof {
                reveal_strlit("4");
                lemma_digit_char_eq(4, '4');
                assert("4"@ =~= seq![digit_char(4)]);
            }
            "4"
        },
        5u64 => {
            proof {
                reveal_strlit("5");
                lemma_digit_char_eq(5, '5');
                assert("5"@ =~= seq![digit_char(5)]);
            }
            "5"
        },
        6u64 => {
            proof {
                reveal_strlit("6");
                lemma_digit_char_eq(6, '6');
                assert("6"@ =~= seq![digit_char(6)]);
            }
            "6"
        },
        7u64 => {
            proof {
                reveal_strlit("7");
                lemma_digit_char_eq(7, '7');
                assert("7"@ =~= seq![digit_char(7)]);
            }
            "7"
        },
        8u64 => {
            proof {
                reveal_strlit("8");
                lemma_digit_char_eq(8, '8');
                assert("8"@ =~= seq![digit_char(8)]);
            }
            "8"
        },
        _ => {
            proof {
                reveal_strlit("9");
                lemma_digit_char_eq(9, '9');
                assert("9"@ =~= seq![digit_char(9)]);
            }
            "9"
        },
    }
}

/// Appends the decimal digits of `n` to `out`.
pub fn push_dec(out: &mut String, n: u64)
    ensures
        final(out)@ == old(out)@ + dec_digits(n as int),
    decreases n,
{
    if n < 10 {
        let s = digit_str(n);
        out.append(s);
        assert(final(out)@ =~= old(out)@ + dec_digits(n as int));
    } else {
        push_dec(out, n / 10);
        let s = digit_str(n % 10);
        out.append(s);
        proof {
            assert(dec_digits(n as int) == dec_digits(n as int / 10).push(
                digit_char(n as int % 10),
            ));
            assert(n as int / 10 == (n / 10) as int);
            assert(final(out)@ =~= old(out)@ + dec_digits(n as int));
        }
    }
}

/// Appends the decimal digits of `n`, zero-padded to width two.
pub fn push_dec_pad2(out: &mut String, n: u64)
    ensures
        final(out)@ == old(out)@ + zero_pad(dec_digits(n as int), 2),
{
    proof {
        lemma_dec_digits(n as int);
        lemma_dec_digits_len(n as int);
        reveal_strlit("0");
    }
    if n < 10 {
        out.append("0");
        push_dec(out, n);
        proof {
            assert(zeros(1) =~= "0"@);
            assert(zero_pad(dec_digits(n as int), 2) == zeros(1) + dec_digits(n as int));
            assert(final(out)@ =~= old(out)@ + zero_pad(dec_digits(n as int), 2));
        }
    } else {
        push_dec(out, n);
        assert(final(out)@ =~= old(out)@ + zero_pad(dec_digits(n as int), 2));
    }
}

/// Appends the decimal digits of `n`, zero-padded to width three.
pub fn push_dec_pad3(out: &mut String, n: u64)
    ensures
        final(out)@ == old(out)@ + zero_pad(dec_digits(n as int), 3),
{
    proof {
        lemma_dec_digits(n as int);
        lemma_dec_digits_len(n as int);
        reveal_strlit("0");
    }
    if n < 10 {
        out.append("0");
        out.append("0");
        push_dec(out, n);
        proof {
            assert(zeros(2) =~= "0"@ + "0"@);
            assert(zero_pad(dec_digits(n as int), 3) == zeros(2) + dec_digits(n as int));
            assert(final(out)@ =~= old(out)@ + zero_pad(dec_digits(n as int), 3));
        }
    } else if n < 100 {
        out.append("0");
        push_dec(out, n);
        proof {
            assert(zeros(1) =~= "0"@);
            assert(zero_pad(dec_digits(n as int), 3) == zeros(1) + dec_digits(n as int));
            assert(final(out)@ =~= old(out)@ + zero_pad(dec_digits(n as int), 3));
        }
    } else {
        push_dec(out, n);
        assert(final(out)@ =~= old(out)@ + zero_pad(dec_digits(n as int), 3));
    }
}

/// The lines of a text, split at each line break.
pub fn split_str_lines(s: &str) -> (r: Vec<String>)
    ensures
        r.deep_view() == split_lines(s@),
        r.len() >= 1,
{
    let n = s.unicode_len();
    let mut out: Vec<String> = Vec::new();
    let mut start: usize = 0;
    let mut i: usize = 0;
    proof {
        lemma_split_lines_shape(s@);
        assert(s@.subrange(0, n as int) =~= s@);
        assert(Seq::<char>::empty() + split_lines(s@)[0] =~= split_lines(s@)[0]);
        assert(prepend_first(s@.subrange(0, 0), split_lines(s@)) =~~= split_lines(s@));
        assert(out.deep_view() =~~= Seq::<Seq<char>>::empty());
    }
    while i < n
        invariant
            0 <= start <= i <= n,
            n == s@.len(),
            split_lines(s@) =~~= out.deep_view() + prepend_first(
                s@.subrange(start as int, i as int),
                split_lines(s@.subrange(i as int, n as int)),
            ),
        decreases n - i,
    {
        let ghost cur = s@.subrange(start as int, i as int);
        let ghost sub = s@.subrange(i as int, n as int);
        let ghost sub2 = s@.subrange(i as int + 1, n as int);
        proof {
            assert(sub.len() > 0);
            assert(sub[0] == s@[i as int]);
            assert(sub.drop_first() =~= sub2);
            lemma_split_lines_shape(sub2);
        }
        let ghost out_dv = out.deep_view();
        let c = s.get_char(i);
        if c == '\n' {
            let piece = s.substring_char(start, i);
            out.push(String::from_str(piece));
            proof {
                assert(split_lines(sub) == seq![Seq::<char>::empty()] + split_lines(sub2));
                assert(prepend_first(cur, split_lines(sub)) =~~= seq![cur] + split_lines(sub2));
                assert(prepend_first(Seq::<char>::empty(), split_lines(sub2)) =~~= split_lines(
                    sub2,
                ));
                assert(out.deep_view() =~~= out_dv.push(cur));
            }
            start = i + 1;
            proof {
                assert(s@.subrange(start as int, i as int + 1) =~= Seq::<char>::empty());
            }
        } else {
            proof {
                let r = split_lines(sub2);
                assert(split_lines(sub) == seq![seq![sub[0]] + r[0]] + r.drop_first());
                assert(cur + (seq![s@[i as int]] + r[0]) =~= s@.subrange(
                    start as int,
                    i as int + 1,
                ) + r[0]);
                assert(prepend_first(cur, split_lines(sub)) =~~= prepend_first(
                    s@.subrange(start as int, i as int + 1),
                    r,
                ));
            }
        }
        i = i + 1;
    }
    let piece = s.substring_char(start, n);
    out.push(String::from_str(piece));
    proof {
        let cur = s@.subrange(start as int, n as int);
        assert(s@.subrange(n as int, n as int) =~= Seq::<char>::empty());
        assert(split_lines(Seq::<char>::empty()) == seq![Seq::<char>::empty()]);
        assert(prepend_first(cur, seq![Seq::<char>::empty()]) =~~= seq![cur]);
        assert(out.deep_view() =~~= split_lines(s@));
    }
    out
}

/// The lines joined with single line breaks, none at the end.
pub fn join_string_lines(v: &Vec<String>) -> (r: String)
    ensures
        r@ == join_lines(v.deep_view()),
{
    let mut out = String::from_str("");
    proof {
        reveal_strlit("");
        reveal_strlit("\n");
        assert(out@ =~= join_lines(v.deep_view().take(0)));
    }
    let mut k: usize = 0;
    while k < v.len()
        invariant
            0 <= k <= v.len(),
            out@ == join_lines(v.deep_view().take(k as int)),
        decreases v.len() - k,
    {
        let ghost dv = v.deep_view();
        if k > 0 {
            out.append("\n");
        }
        out.append(v[k].as_str());
        proof {
            assert("\n"@ =~= seq!['\n']) by {
                reveal_strlit("\n");
            }
            assert(dv.take(k as int + 1) =~~= dv.take(k as int).push(dv[k as int]));
            if k == 0 {
                assert(join_lines(seq![dv[0]]) == dv[0]);
                assert(dv.take(1) =~~= seq![dv[0]]);
                assert(out@ =~= join_lines(dv.take(1)));
            } else {
                lemma_join_push(dv.take(k as int), dv[k as int]);
                assert(out@ =~= join_lines(dv.take(k as int + 1)));
            }
        }
        k = k + 1;
    }
    proof {
        assert(v.deep_view().take(v.len() as int) =~~= v.deep_view());
    }
    out
}

/// A copy of the given lines.
pub fn copy_strings(v: &Vec<String>) -> (r: Vec<String>)
    ensures
        r.deep_view() == v.deep_view(),
{
    let mut out: Vec<String> = Vec::new();
    let mut k: usize = 0;
    while k < v.len()
        invariant
            0 <= k <= v.len(),
            out.deep_view() =~~= v.deep_view().take(k as int),
        decreases v.len() - k,
    {
        let ghost out_dv = out.deep_view();
        let c = String::from_str(v[k].as_str());
        out.push(c);
        proof {
            assert(v.deep_view()[k as int] == v@[k as int]@);
            assert(out.deep_view() =~~= out_dv.push(c@));
            assert(out.deep_view() =~~= v.deep_view().take(k as int + 1));
        }
        k = k + 1;
    }
    proof {
        assert(v.deep_view().take(v.len() as int) =~~= v.deep_view());
    }
    out
}

/// Break-terminating concatenation distributes over line concatenation.
pub proof fn lemma_unlines_concat(a: Seq<Seq<char>>, b: Seq<Seq<char>>)
    ensures
        unlines(a + b) == unlines(a) + unlines(b),
    decreases a.len(),
{
    if a.len() == 0 {
        assert(a + b =~~= b);
        assert(unlines(a) =~= Seq::<char>::empty());
        assert(unlines(a) + unlines(b) =~= unlines(b));
    } else {
        lemma_unlines_concat(a.drop_first(), b);
        assert((a + b)[0] == a[0]);
        assert((a + b).drop_first() =~~= a.drop_first() + b);
        assert(unlines(a + b) == a[0] + seq!['\n'] + unlines(a.drop_first() + b));
        assert(unlines(a) == a[0] + seq!['\n'] + unlines(a.drop_first()));
        assert(unlines(a + b) =~= unlines(a) + unlines(b));
    }
}

/// Joining after appending one more line appends a line break and the
/// line.
pub proof fn lemma_join_push(ls: Seq<Seq<char>>, x: Seq<char>)
    requires
        ls.len() >= 1,
    ensures
        join_lines(ls.push(x)) == join_lines(ls) + seq!['\n'] + x,
    decreases ls.len(),
{
    if ls.len() == 1 {
        let w = ls.push(x);
        assert(w.len() == 2);
        assert(w[0] == ls[0]);
        assert(w.drop_first() =~= seq![x]);
        assert(join_lines(seq![x]) == x);
        assert(join_lines(w) == w[0] + seq!['\n'] + join_lines(w.drop_first()));
        assert(join_lines(w) == ls[0] + seq!['\n'] + x);
        assert(join_lines(ls) == ls[0]);
    } else {
        lemma_join_push(ls.drop_first(), x);
        let w = ls.push(x);
        assert(w[0] == ls[0]);
        assert(w.len() == ls.len() + 1);
        assert(w.drop_first() =~= ls.drop_first().push(x));
        assert(join_lines(w) == w[0] + seq!['\n'] + join_lines(w.drop_first()));
        assert(join_lines(w) == ls[0] + seq!['\n'] + join_lines(ls.drop_first().push(x)));
        assert(join_lines(ls) == ls[0] + seq!['\n'] + join_lines(ls.drop_first()));
        assert(join_lines(w) =~= join_lines(ls) + seq!['\n'] + x);
    }
}

} // verus!
