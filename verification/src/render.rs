//! Human-readable sizes and colour-gradient rendering.

use vstd::prelude::*;
use crate::text::{decimal, push_char, push_decimal, push_decimal_wide, push_str, push_zero_padded, zero_padded};
use crate::binary64::{
    at_least, at_least_exec, divide, divide_exec, fraction, from_integer, from_integer_exec,
    lemma_two_pow_mono, lemma_two_pow_pos, lemma_two_pow_values, round_half_even, round_half_even_div,
    two_pow, two_pow_exec, SIG_END, SIG_MIN, lemma_normalize_up_value,
};
use crate::binary32::{
    add_exec, div_exec, f32_add, f32_div, f32_from_int, f32_le, f32_mul, f32_one, f32_one_minus,
    f32_to_u8, from_int_exec, lemma_byte_round_trip, lemma_div_at_most_one, lemma_from_int_le,
    lemma_nearest_sig, lemma_unit_ops, mul_exec, one_minus_exec, to_u8_exec,
};
use owo_colors::OwoColorize;

verus! {

/// The base between consecutive units: 1000 for SI units, 1024 otherwise.
pub open spec fn size_divisor(use_si: bool) -> nat {
    if use_si {
        1000
    } else {
        1024
    }
}

/// The suffix of unit `k`: B, KB, MB, GB, TB, PB, EB.
pub open spec fn unit_name(k: nat) -> Seq<char> {
    if k == 0 {
        seq!['B']
    } else if k == 1 {
        seq!['K', 'B']
    } else if k == 2 {
        seq!['M', 'B']
    } else if k == 3 {
        seq!['G', 'B']
    } else if k == 4 {
        seq!['T', 'B']
    } else if k == 5 {
        seq!['P', 'B']
    } else {
        seq!['E', 'B']
    }
}

/// The unit reached and the value shown for it: starting from unit `k`, the
/// value is divided by the base while it is at least the base, up to EB.
pub open spec fn scaled(x: (nat, int), d: nat, k: nat) -> (nat, (nat, int))
    decreases 6 - k,
{
    if k < 6 && at_least(x, d) {
        scaled(divide(x, d), d, k + 1)
    } else {
        (k, x)
    }
}

/// The text `format_size` gives for `bytes`. The size is taken as a binary64
/// value and divided by the base (in binary64 arithmetic) while it is at
/// least the base, up to EB. Below one unit it is shown in whole bytes;
/// otherwise a whole value without decimals, any other with two decimals
/// (the value rounded to hundredths, ties to even).
pub open spec fn spec_format_size(bytes: u64, use_si: bool) -> Seq<char> {
    let d = size_divisor(use_si);
    if bytes == 0 {
        decimal(0) + seq![' '] + unit_name(0)
    } else {
        let r = scaled(from_integer(bytes as nat), d, 0);
        let k = r.0;
        let f = fraction(r.1);
        if k == 0 {
            decimal(bytes as nat) + seq![' '] + unit_name(0)
        } else if f.0 % f.1 == 0 {
            decimal(f.0 / f.1) + seq![' '] + unit_name(k)
        } else {
            let h = round_half_even_div(f.0 * 100, f.1);
            decimal(h / 100) + seq!['.'] + zero_padded(h % 100, 2) + seq![' '] + unit_name(k)
        }
    }
}

fn push_unit(s: &mut String, k: usize)
    requires
        k <= 6,
    ensures
        final(s)@ == old(s)@ + unit_name(k as nat),
{
    if k == 1 {
        push_char(s, 'K');
    } else if k == 2 {
        push_char(s, 'M');
    } else if k == 3 {
        push_char(s, 'G');
    } else if k == 4 {
        push_char(s, 'T');
    } else if k == 5 {
        push_char(s, 'P');
    } else if k == 6 {
        push_char(s, 'E');
    }
    push_char(s, 'B');
    assert(s@ =~= old(s)@ + unit_name(k as nat));
}

/// Renders a byte count in human-readable form, e.g. `1023 B`, `1 KB`,
/// `1.46 KB`; `use_si` switches the unit base from 1024 to 1000.
pub fn format_size(bytes: u64, use_si: bool) -> (s: String)
    ensures
        s@ == spec_format_size(bytes, use_si),
{
    let mut s = String::new();
    if bytes == 0 {
        push_decimal(&mut s, 0);
        push_char(&mut s, ' ');
        push_unit(&mut s, 0);
        return s;
    }
    let d: u128 = if use_si {
        1000
    } else {
        1024
    };
    let mut x = from_integer_exec(bytes);
    let mut k: usize = 0;
    while k < 6 && at_least_exec(x, d)
        invariant
            k <= 6,
            d == size_divisor(use_si),
            SIG_MIN <= x.0 < SIG_END,
            -52 - 10 * k <= x.1 <= 13,
            k >= 1 ==> x.1 <= 5,
            scaled(from_integer(bytes as nat), d as nat, 0) == scaled(
                (x.0 as nat, x.1 as int),
                d as nat,
                k as nat,
            ),
        decreases 6 - k,
    {
        x = divide_exec(x, d);
        k = k + 1;
    }
    if k == 0 {
        push_decimal(&mut s, bytes);
        push_char(&mut s, ' ');
        push_unit(&mut s, 0);
    } else {
        let (num, den): (u128, u128) = if x.1 >= 0 {
            let p = two_pow_exec(x.1 as u32);
            proof {
                lemma_two_pow_values();
                lemma_two_pow_mono(x.1 as nat, 5);
                assert(two_pow(5) == 32) by {
                    reveal_with_fuel(two_pow, 6);
                }
            }
            assert(x.0 * p <= SIG_END * 32) by (nonlinear_arith)
                requires
                    x.0 < SIG_END,
                    p <= 32,
            ;
            (x.0 * p, 1)
        } else {
            (x.0, two_pow_exec((-x.1) as u32))
        };
        proof {
            lemma_two_pow_pos((-x.1) as nat);
        }
        assert(num <= SIG_END * 32);
        if num % den == 0 {
            push_decimal_wide(&mut s, num / den);
        } else {
            let h = round_half_even(num * 100, den);
            push_decimal_wide(&mut s, h / 100);
            push_char(&mut s, '.');
            push_zero_padded(&mut s, (h % 100) as u64, 2);
        }
        push_char(&mut s, ' ');
        push_unit(&mut s, k);
    }
    assert(s@ =~= spec_format_size(bytes, use_si));
    s
}

/// Below one unit of the base, sizes are shown in bytes: `format_size(b)` is
/// the decimal number followed by ` B`.
pub proof fn lemma_format_size_in_bytes(bytes: u64, use_si: bool)
    requires
        bytes < size_divisor(use_si),
    ensures
        spec_format_size(bytes, use_si) == decimal(bytes as nat) + seq![' ', 'B'],
{
    if bytes > 0 {
        lemma_normalize_up_value(bytes as nat, 0);
        let x = from_integer(bytes as nat);
        let j = (-x.1) as nat;
        assert(x.0 == bytes * two_pow(j));
        assert(!at_least(x, size_divisor(use_si))) by {
            if x.1 >= 0 {
                assert(x.1 == 0);
                assert(two_pow(0) == 1);
                assert(x.0 * two_pow(0) == x.0);
            }
            assert(x.0 < size_divisor(use_si) * two_pow(j)) by (nonlinear_arith)
                requires
                    x.0 == bytes * two_pow(j),
                    bytes < size_divisor(use_si),
                    two_pow(j) >= 1,
            ;
        }
    }
    assert(decimal(bytes as nat) + seq![' '] + unit_name(0) =~= decimal(bytes as nat) + seq![' ', 'B']);
}

/// Along a gradient of at least two characters the first one is painted in
/// the start colour and the last one in the end colour.
pub proof fn lemma_gradient_endpoints(start: (u8, u8, u8), end: (u8, u8, u8), last: nat)
    requires
        last >= 1,
    ensures
        lerp_rgb(start, end, 0, last) == start,
        lerp_rgb(start, end, last, last) == end,
{
    lemma_lerp_channel_ends(start.0, end.0, last);
    lemma_lerp_channel_ends(start.1, end.1, last);
    lemma_lerp_channel_ends(start.2, end.2, last);
}

/// The escape sequence that sets the terminal's foreground to the colour (r, g, b).
pub open spec fn ansi_truecolor_prefix(r: u8, g: u8, b: u8) -> Seq<char> {
    seq!['\x1b', '[', '3', '8', ';', '2', ';'] + decimal(r as nat) + seq![';'] + decimal(g as nat)
        + seq![';'] + decimal(b as nat) + seq!['m']
}

/// The escape sequence that restores the default foreground colour.
pub open spec fn ansi_default_fg() -> Seq<char> {
    seq!['\x1b', '[', '3', '9', 'm']
}

/// `text` shown in the colour (r, g, b).
pub open spec fn painted(text: Seq<char>, r: u8, g: u8, b: u8) -> Seq<char> {
    ansi_truecolor_prefix(r, g, b) + text + ansi_default_fg()
}

/// Renders `text` in the 24-bit foreground colour (r, g, b) through
/// `owo_colors::OwoColorize::truecolor` and `ToString`. In owo-colors 4.4 the
/// display of `FgDynColorDisplay<Rgb, _>` writes `ESC[38;2;{r};{g};{b}m`, the
/// text, then `ESC[39m`; this is what the contract states.
#[verifier::external_body]
pub(crate) fn paint_truecolor(text: &str, r: u8, g: u8, b: u8) -> (res: String)
    ensures
        res@ == painted(text@, r, g, b),
{
    text.truecolor(r, g, b).to_string()
}

/// Where step `i` of `last` lies along a gradient: `i as f32 / last as f32`.
pub open spec fn gradient_position(i: nat, last: nat) -> (nat, int) {
    f32_div(f32_from_int(i), f32_from_int(last))
}

/// The value of one colour channel at step `i` of `last` on the line from `a`
/// (step 0) to `b` (step `last`): with `t` the position,
/// `(a as f32 * (1.0 - t) + b as f32 * t) as u8`, in binary32 arithmetic.
pub open spec fn lerp_channel(a: u8, b: u8, i: nat, last: nat) -> u8 {
    let t = gradient_position(i, last);
    f32_to_u8(
        f32_add(
            f32_mul(f32_from_int(a as nat), f32_one_minus(t)),
            f32_mul(f32_from_int(b as nat), t),
        ),
    )
}

/// The colour at step `i` of `last` between `start` and `end`.
pub open spec fn lerp_rgb(start: (u8, u8, u8), end: (u8, u8, u8), i: nat, last: nat) -> (
    u8,
    u8,
    u8,
) {
    (
        lerp_channel(start.0, end.0, i, last),
        lerp_channel(start.1, end.1, i, last),
        lerp_channel(start.2, end.2, i, last),
    )
}

/// The first `i` characters of `chars`, each painted with its colour on the
/// gradient from `start` (first character) to `end` (last character).
pub open spec fn gradient_prefix(chars: Seq<char>, start: (u8, u8, u8), end: (u8, u8, u8), i: nat) -> Seq<
    char,
>
    decreases i,
{
    if i == 0 {
        Seq::empty()
    } else {
        let c = lerp_rgb(start, end, (i - 1) as nat, (chars.len() - 1) as nat);
        gradient_prefix(chars, start, end, (i - 1) as nat) + painted(
            seq![chars[i - 1]],
            c.0,
            c.1,
            c.2,
        )
    }
}

/// What `apply_gradient` gives: a text of at most one character is painted
/// in the start colour; a longer one character by character along the gradient.
pub open spec fn spec_apply_gradient(text: Seq<char>, start: (u8, u8, u8), end: (u8, u8, u8)) -> Seq<
    char,
> {
    if text.len() <= 1 {
        painted(text, start.0, start.1, start.2)
    } else {
        gradient_prefix(text, start, end, text.len())
    }
}

/// Along a gradient the position of every step is at most one.
pub proof fn lemma_gradient_position_at_most_one(i: nat, last: nat)
    requires
        i <= last,
        last >= 1,
    ensures
        f32_le(gradient_position(i, last), f32_one()),
{
    lemma_from_int_le(i, last);
    lemma_nearest_sig(last, 1, 0);
    if i >= 1 {
        lemma_nearest_sig(i, 1, 0);
    }
    lemma_div_at_most_one(f32_from_int(i), f32_from_int(last));
}

/// The end points of a channel: `a` at step 0 and `b` at step `last`.
pub proof fn lemma_lerp_channel_ends(a: u8, b: u8, last: nat)
    requires
        last >= 1,
    ensures
        lerp_channel(a, b, 0, last) == a,
        lerp_channel(a, b, last, last) == b,
{
    let fd = f32_from_int(last);
    lemma_nearest_sig(last, 1, 0);
    lemma_unit_ops(fd);
    lemma_byte_round_trip(a);
    lemma_byte_round_trip(b);
    let fa = f32_from_int(a as nat);
    let fb = f32_from_int(b as nat);
    let zero: (nat, int) = (0, 0);
    assert(f32_from_int(0) == zero);
    assert(gradient_position(0, last) == zero);
    assert(gradient_position(last, last) == f32_one());
    if a != 0 {
        lemma_unit_ops(fa);
    } else {
        assert(f32_mul(fa, f32_one()) == zero);
        assert(f32_mul(fa, zero) == zero);
    }
    if b != 0 {
        lemma_unit_ops(fb);
    } else {
        assert(f32_mul(fb, f32_one()) == zero);
        assert(f32_mul(fb, zero) == zero);
    }
    assert(f32_add(zero, zero) == zero);
}

/// The channel value at step `i` of `last` between `a` and `b`.
pub fn lerp_u8(a: u8, b: u8, i: usize, last: usize) -> (c: u8)
    requires
        i <= last,
        last >= 1,
    ensures
        c == lerp_channel(a, b, i as nat, last as nat),
{
    let fi = from_int_exec(i as u64);
    let fd = from_int_exec(last as u64);
    proof {
        lemma_gradient_position_at_most_one(i as nat, last as nat);
    }
    let t = div_exec(fi, fd);
    let u = one_minus_exec(t);
    let fa = from_int_exec(a as u64);
    let fb = from_int_exec(b as u64);
    let pa = mul_exec(fa, u);
    let pb = mul_exec(fb, t);
    let sum = add_exec(pa, pb);
    to_u8_exec(sum)
}

/// The characters of a string slice, in order.
pub fn collect_chars(s: &str) -> (v: Vec<char>)
    ensures
        v@ == s@,
{
    let mut v: Vec<char> = Vec::new();
    for c in iter: s.chars()
        invariant
            iter.seq() == s@,
            v@ == s@.take(iter.index()),
    {
        v.push(c);
        assert(v@ =~= s@.take(iter.index() + 1));
    }
    assert(v@ =~= s@);
    v
}

/// Paints `s` with a colour gradient from `start_rgb` (first character) to
/// `end_rgb` (last character); a string of at most one character is painted
/// in `start_rgb`.
pub fn apply_gradient(s: &str, start_rgb: (u8, u8, u8), end_rgb: (u8, u8, u8)) -> (res: String)
    ensures
        res@ == spec_apply_gradient(s@, start_rgb, end_rgb),
{
    let chars = collect_chars(s);
    let n = chars.len();
    if n <= 1 {
        return paint_truecolor(s, start_rgb.0, start_rgb.1, start_rgb.2);
    }
    let last = n - 1;
    let mut result = String::new();
    let mut i: usize = 0;
    while i < n
        invariant
            n == chars@.len(),
            chars@ == s@,
            last == n - 1,
            n > 1,
            i <= n,
            result@ == gradient_prefix(s@, start_rgb, end_rgb, i as nat),
        decreases n - i,
    {
        let r = lerp_u8(start_rgb.0, end_rgb.0, i, last);
        let g = lerp_u8(start_rgb.1, end_rgb.1, i, last);
        let b = lerp_u8(start_rgb.2, end_rgb.2, i, last);
        let mut one = String::new();
        push_char(&mut one, chars[i]);
        assert(one@ =~= seq![s@[i as int]]);
        let cell = paint_truecolor(one.as_str(), r, g, b);
        push_str(&mut result, cell.as_str());
        i = i + 1;
    }
    result
}

/// The gradient step of the last bar cell: `width - 1`, but at least 1.
pub open spec fn bar_last(width: nat) -> nat {
    if width <= 2 {
        1
    } else {
        (width - 1) as nat
    }
}

/// The first `i` cells of a bar of `width` cells whose first `filled` cells
/// are full blocks coloured along the gradient and whose others are blanks.
pub open spec fn bar_cells(
    width: nat,
    filled: nat,
    start: (u8, u8, u8),
    end: (u8, u8, u8),
    i: nat,
) -> Seq<char>
    decreases i,
{
    if i == 0 {
        Seq::empty()
    } else {
        let j = (i - 1) as nat;
        let cell = if j < filled {
            let c = lerp_rgb(start, end, j, bar_last(width));
            painted(seq!['█'], c.0, c.1, c.2)
        } else {
            seq![' ']
        };
        bar_cells(width, filled, start, end, j) + cell
    }
}

/// A bar of `width` cells between the delimiters `▕` and `▏`.
pub open spec fn spec_gradient_bar(width: nat, filled: nat, start: (u8, u8, u8), end: (u8, u8, u8)) -> Seq<
    char,
> {
    seq!['▕'] + bar_cells(width, filled, start, end, width) + seq!['▏']
}

/// Draws a bar of `width` cells of which the first `filled` are full blocks
/// coloured along the gradient from `start_rgb` to `end_rgb`.
pub fn gradient_bar(width: usize, filled: usize, start_rgb: (u8, u8, u8), end_rgb: (u8, u8, u8)) -> (res: String)
    ensures
        res@ == spec_gradient_bar(width as nat, filled as nat, start_rgb, end_rgb),
{
    let last: usize = if width <= 2 {
        1
    } else {
        width - 1
    };
    let block = "█";
    proof {
        reveal_strlit("█");
    }
    let mut result = String::new();
    push_char(&mut result, '▕');
    let mut i: usize = 0;
    while i < width
        invariant
            i <= width,
            last == bar_last(width as nat),
            block@ == seq!['█'],
            result@ == seq!['▕'] + bar_cells(width as nat, filled as nat, start_rgb, end_rgb, i as nat),
        decreases width - i,
    {
        if i < filled {
            let r = lerp_u8(start_rgb.0, end_rgb.0, i, last);
            let g = lerp_u8(start_rgb.1, end_rgb.1, i, last);
            let b = lerp_u8(start_rgb.2, end_rgb.2, i, last);
            let cell = paint_truecolor(block, r, g, b);
            push_str(&mut result, cell.as_str());
        } else {
            push_char(&mut result, ' ');
        }
        i = i + 1;
        assert(result@ =~= seq!['▕'] + bar_cells(width as nat, filled as nat, start_rgb, end_rgb, i as nat));
    }
    push_char(&mut result, '▏');
    result
}

/// Filled cell `j` of a bar of `width` cells has the colour of step `j` of
/// `width - 1` (of 1 for bars of at most two cells), whatever the number of
/// filled cells; an unfilled cell is a blank.
pub proof fn lemma_bar_cell(width: nat, filled: nat, start: (u8, u8, u8), end: (u8, u8, u8), j: nat)
    ensures
        bar_cells(width, filled, start, end, j + 1) == bar_cells(width, filled, start, end, j) + (if j
            < filled {
            let c = lerp_rgb(start, end, j, if width >= 2 {
                (width - 1) as nat
            } else {
                1nat
            });
            painted(seq!['█'], c.0, c.1, c.2)
        } else {
            seq![' ']
        }),
{
    assert(bar_cells(width, filled, start, end, j + 1) == bar_cells(width, filled, start, end, (
    (j + 1) - 1) as nat) + (if j < filled {
        let c = lerp_rgb(start, end, j, bar_last(width));
        painted(seq!['█'], c.0, c.1, c.2)
    } else {
        seq![' ']
    }));
}

/// The filled cells of a partly filled bar are the first cells of the full
/// bar of the same width: a cell's colour does not depend on how much of the
/// bar is filled.
pub proof fn lemma_bar_prefix_of_full(width: nat, filled: nat, start: (u8, u8, u8), end: (u8, u8, u8), i: nat)
    requires
        i <= filled,
        filled <= width,
    ensures
        bar_cells(width, filled, start, end, i) == bar_cells(width, width, start, end, i),
    decreases i,
{
    if i > 0 {
        lemma_bar_prefix_of_full(width, filled, start, end, (i - 1) as nat);
        lemma_bar_cell(width, filled, start, end, (i - 1) as nat);
        lemma_bar_cell(width, width, start, end, (i - 1) as nat);
    }
}

/// The first filled cell has the start colour; the last cell of a full bar of
/// at least two cells has the end colour.
pub proof fn lemma_bar_end_colours(width: nat, start: (u8, u8, u8), end: (u8, u8, u8))
    requires
        width >= 2,
    ensures
        bar_cells(width, width, start, end, 1) == painted(seq!['█'], start.0, start.1, start.2),
        bar_cells(width, width, start, end, width) == bar_cells(width, width, start, end, (width
            - 1) as nat) + painted(seq!['█'], end.0, end.1, end.2),
{
    lemma_bar_cell(width, width, start, end, 0);
    lemma_bar_cell(width, width, start, end, (width - 1) as nat);
    lemma_gradient_endpoints(start, end, (width - 1) as nat);
    assert(bar_cells(width, width, start, end, 0) == Seq::<char>::empty());
    assert(Seq::<char>::empty() + painted(seq!['█'], start.0, start.1, start.2) =~= painted(
        seq!['█'],
        start.0,
        start.1,
        start.2,
    ));
}

/// Character `i` of a text of at least two characters is painted with the
/// colour of step `i` of `n - 1`, whatever the characters are.
pub proof fn lemma_gradient_char(text: Seq<char>, start: (u8, u8, u8), end: (u8, u8, u8), i: nat)
    requires
        text.len() >= 2,
        i < text.len(),
    ensures
        gradient_prefix(text, start, end, i + 1) == gradient_prefix(text, start, end, i) + ({
            let c = lerp_rgb(start, end, i, (text.len() - 1) as nat);
            painted(seq![text[i as int]], c.0, c.1, c.2)
        }),
{
    assert(((i + 1) - 1) as nat == i);
}

/// A painted gradient over a text of at least two characters starts with its
/// first character in the start colour and ends with its last character in
/// the end colour.
pub proof fn lemma_apply_gradient_ends(text: Seq<char>, start: (u8, u8, u8), end: (u8, u8, u8))
    requires
        text.len() >= 2,
    ensures
        spec_apply_gradient(text, start, end) == gradient_prefix(text, start, end, (text.len()
            - 1) as nat) + painted(seq![text.last()], end.0, end.1, end.2),
        gradient_prefix(text, start, end, 1) == painted(seq![text[0]], start.0, start.1, start.2),
{
    let n = text.len();
    lemma_gradient_endpoints(start, end, (n - 1) as nat);
    lemma_gradient_char(text, start, end, (n - 1) as nat);
    lemma_gradient_char(text, start, end, 0);
    assert(gradient_prefix(text, start, end, 0) == Seq::<char>::empty());
    assert(Seq::<char>::empty() + painted(seq![text[0]], start.0, start.1, start.2) =~= painted(
        seq![text[0]],
        start.0,
        start.1,
        start.2,
    ));
}

} // verus!
