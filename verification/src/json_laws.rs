//! What printing and reading promise of each other: a value printed in
//! compact form reads back as the same value.

use vstd::prelude::*;

use crate::json::{
    at_char, escaped, escaped_char, exp_part_end, frac_part_end, hex_val, int_part_end, is_digit,
    is_hex, is_json_ws, is_raw_control, items_text, items_well_keyed, json_text, members_text,
    members_well_keyed, p_array, p_document, p_hex4, p_hex_digits, p_items, p_members, p_number,
    p_object, p_string, p_string_rest, p_unicode, p_value, quoted, simple_escape, skip_digits,
    skip_ws, well_keyed, JsonView,
};
use crate::number::{
    abs_lt, all_digits, decimal_value, digit_char, digit_chars, digit_val, digit_vals,
    end_nonzero, exponent_part, find_exp, first_nonzero, float_text_value, lemma_end_nonzero,
    lemma_find_char_contains, lemma_find_char_unique, lemma_first_nonzero, mantissa_parts,
    num_text, num_wf, num_zero, overflow_bound, underflow_bound, zeros, NumView,
};
use crate::text::{hex_digit, hex_digits};
use crate::textmap::{
    has_key, key_lt, keys_increasing, lemma_append_sorted, lemma_key_lt_irreflexive, sorted_insert,
};

verus! {

/// A number that prints and reads back unchanged: in normal form, and
/// zero or strictly inside the range that `f64` reading keeps.
pub open spec fn num_readable(n: NumView) -> bool {
    &&& num_wf(n)
    &&& n.digits.len() > 0 ==> abs_lt(n, overflow_bound()) && abs_lt(underflow_bound(), n)
}

proof fn lemma_first_nonzero_at(d: Seq<u8>, p: int)
    requires
        0 <= p < d.len(),
        forall|k: int| 0 <= k < p ==> d[k] == 0,
        d[p] != 0,
    ensures
        first_nonzero(d) == p,
{
    lemma_first_nonzero(d);
    let f = first_nonzero(d);
    if f < p {
        assert(d[f] == 0);
    } else if f > p {
        assert(d[p] == 0);
    }
}

proof fn lemma_end_nonzero_at(d: Seq<u8>, p: int)
    requires
        0 < p <= d.len(),
        forall|k: int| p <= k < d.len() ==> d[k] == 0,
        d[p - 1] != 0,
    ensures
        end_nonzero(d) == p,
{
    lemma_end_nonzero(d);
    let l = end_nonzero(d);
    if l < p {
        assert(d[p - 1] == 0);
    } else if l > p {
        assert(d[l - 1] == 0);
    }
}

proof fn lemma_digit_vals_chars(d: Seq<u8>)
    requires
        forall|i: int| 0 <= i < d.len() ==> #[trigger] d[i] <= 9,
    ensures
        digit_vals(digit_chars(d)) == d,
        all_digits(digit_chars(d)),
{
    assert forall|i: int| 0 <= i < d.len() implies digit_val(#[trigger] digit_char(d[i])) == d[i]
        && '0' <= digit_char(d[i]) <= '9' by {
        let x = d[i];
        assert(x <= 9);
        assert((((48 + x) as u8) as char) as u32 == 48 + x);
    }
    assert(digit_vals(digit_chars(d)) =~= d);
}

proof fn lemma_zeros_digits(k: nat)
    ensures
        all_digits(zeros(k)),
        forall|i: int| 0 <= i < k ==> #[trigger] digit_vals(zeros(k))[i] == 0,
        digit_vals(zeros(k)).len() == k,
{
    assert forall|i: int| 0 <= i < k implies #[trigger] digit_vals(zeros(k))[i] == 0 by {
        assert(zeros(k)[i] == '0');
        assert(('0' as u32) == 48);
    }
}

/// A text of digits with an optional point reads as the decimal it spells.
proof fn lemma_plain_value(neg: bool, whole: Seq<char>, frac: Seq<char>, dot: bool)
    requires
        whole.len() > 0,
        all_digits(whole),
        all_digits(frac),
        !dot ==> frac.len() == 0,
    ensures
        ({
            let body = if dot {
                whole + seq!['.'] + frac
            } else {
                whole
            };
            let s = if neg {
                seq!['-'] + body
            } else {
                body
            };
            float_text_value(s) == decimal_value(
                neg,
                digit_vals(whole + frac),
                whole.len() as int,
                0,
            )
        }),
{
    let body = if dot {
        whole + seq!['.'] + frac
    } else {
        whole
    };
    let s = if neg {
        seq!['-'] + body
    } else {
        body
    };
    assert(body[0] == whole[0]);
    assert('0' <= whole[0] <= '9');
    if neg {
        assert(s.drop_first() =~= body);
    }
    assert forall|i: int| 0 <= i < body.len() implies ('0' <= #[trigger] body[i] <= '9') || body[i]
        == '.' by {
        if i < whole.len() {
            assert(body[i] == whole[i]);
        } else if dot && i > whole.len() {
            assert(body[i] == frac[i - whole.len() - 1]);
        }
    }
    assert(!body.contains('e')) by {
        if body.contains('e') {
            let i = choose|i: int| 0 <= i < body.len() && body[i] == 'e';
            assert(('0' <= body[i] <= '9') || body[i] == '.');
        }
    }
    assert(!body.contains('E')) by {
        if body.contains('E') {
            let i = choose|i: int| 0 <= i < body.len() && body[i] == 'E';
            assert(('0' <= body[i] <= '9') || body[i] == '.');
        }
    }
    lemma_find_char_contains(body, 'e');
    lemma_find_char_contains(body, 'E');
    assert(find_exp(body) == body.len());
    assert(body.take(body.len() as int) =~= body);
    assert(body.skip(body.len() as int) =~= Seq::<char>::empty());
    assert(exponent_part(Seq::<char>::empty()) == Some(0int));
    if dot {
        assert forall|k: int| 0 <= k < whole.len() implies body[k] != '.' by {
            assert(body[k] == whole[k]);
        }
        lemma_find_char_unique(body, '.', whole.len() as int);
        assert(body.take(whole.len() as int) =~= whole);
        assert(body.skip(whole.len() + 1int) =~= frac);
    } else {
        assert(!body.contains('.')) by {
            if body.contains('.') {
                let i = choose|i: int| 0 <= i < body.len() && body[i] == '.';
                assert('0' <= whole[i] <= '9');
            }
        }
        lemma_find_char_contains(body, '.');
        assert(frac =~= Seq::<char>::empty());
        assert(whole + frac =~= whole);
    }
    assert(mantissa_parts(body) == Some((whole, frac)));
}

proof fn lemma_num_text_integral(n: NumView)
    requires
        num_readable(n),
        n.digits.len() > 0,
        n.exp >= n.digits.len(),
    ensures
        float_text_value(num_text(n)) == Some(n),
{
    let len = n.digits.len() as int;
    let d = digit_chars(n.digits);
    lemma_digit_vals_chars(n.digits);
    let k = (n.exp - len) as nat;
    let whole = d + zeros(k);
    lemma_zeros_digits(k);
    assert(all_digits(whole)) by {
        assert forall|i: int| 0 <= i < whole.len() implies '0' <= #[trigger] whole[i] <= '9' by {
            if i < len {
                assert(whole[i] == d[i]);
            } else {
                assert(whole[i] == zeros(k)[i - len]);
            }
        }
    }
    lemma_plain_value(n.neg, whole, Seq::empty(), false);
    assert(whole + Seq::<char>::empty() =~= whole);
    let v = digit_vals(whole);
    assert(v =~= n.digits + digit_vals(zeros(k)));
    lemma_first_nonzero_at(v, 0);
    lemma_end_nonzero_at(v, len);
    assert(v.subrange(0, len) =~= n.digits);
    assert(decimal_value(n.neg, v, whole.len() as int, 0) == Some(n));
    assert(num_text(n) =~= if n.neg {
        seq!['-'] + whole
    } else {
        whole
    });
}

proof fn lemma_num_text_below_one(n: NumView)
    requires
        num_readable(n),
        n.digits.len() > 0,
        n.exp <= 0,
    ensures
        float_text_value(num_text(n)) == Some(n),
{
    let len = n.digits.len() as int;
    let d = digit_chars(n.digits);
    lemma_digit_vals_chars(n.digits);
    let m = (-n.exp) as nat;
    let frac = zeros(m) + d;
    lemma_zeros_digits(m);
    assert(all_digits(frac)) by {
        assert forall|i: int| 0 <= i < frac.len() implies '0' <= #[trigger] frac[i] <= '9' by {
            if i < m {
                assert(frac[i] == zeros(m)[i]);
            } else {
                assert(frac[i] == d[i - m]);
            }
        }
    }
    assert(all_digits(seq!['0']));
    lemma_plain_value(n.neg, seq!['0'], frac, true);
    let v = digit_vals(seq!['0'] + frac);
    assert(v =~= seq![0u8] + digit_vals(zeros(m)) + n.digits);
    lemma_first_nonzero_at(v, 1 + m as int);
    lemma_end_nonzero_at(v, 1 + m + len);
    assert(v.subrange(1 + m as int, 1 + m + len) =~= n.digits);
    assert(decimal_value(n.neg, v, 1, 0) == Some(n));
    assert(num_text(n) =~= if n.neg {
        seq!['-'] + (seq!['0'] + seq!['.'] + frac)
    } else {
        seq!['0'] + seq!['.'] + frac
    });
}

proof fn lemma_num_text_fraction(n: NumView)
    requires
        num_readable(n),
        0 < n.exp < n.digits.len(),
    ensures
        float_text_value(num_text(n)) == Some(n),
{
    let len = n.digits.len() as int;
    let d = digit_chars(n.digits);
    lemma_digit_vals_chars(n.digits);
    let whole = d.take(n.exp);
    let frac = d.skip(n.exp);
    lemma_plain_value(n.neg, whole, frac, true);
    assert(whole + frac =~= d);
    let v = digit_vals(whole + frac);
    assert(v == n.digits);
    lemma_first_nonzero_at(v, 0);
    lemma_end_nonzero_at(v, len);
    assert(v.subrange(0, len) =~= n.digits);
    assert(decimal_value(n.neg, v, n.exp, 0) == Some(n));
    assert(num_text(n) =~= if n.neg {
        seq!['-'] + (whole + seq!['.'] + frac)
    } else {
        whole + seq!['.'] + frac
    });
}

/// A readable number's text reads as the number.
pub proof fn lemma_num_text_value(n: NumView)
    requires
        num_readable(n),
    ensures
        float_text_value(num_text(n)) == Some(n),
{
    let len = n.digits.len() as int;
    if len == 0 {
        lemma_plain_value(false, seq!['0'], Seq::empty(), false);
        assert(seq!['0'] + Seq::<char>::empty() =~= seq!['0']);
        let v = digit_vals(seq!['0']);
        assert(v =~= seq![0u8]);
        assert(first_nonzero(v) == 1 + first_nonzero(v.drop_first()));
        assert(end_nonzero(v) == end_nonzero(v.drop_last()));
        assert(n.digits =~= Seq::<u8>::empty());
        assert(n == num_zero());
        assert(num_text(n) =~= seq!['0']);
    } else if n.exp >= len {
        lemma_num_text_integral(n);
    } else if n.exp <= 0 {
        lemma_num_text_below_one(n);
    } else {
        lemma_num_text_fraction(n);
    }
}

/// Where a value's text may end: at the end of the input, or before a
/// comma or a closing bracket.
pub open spec fn value_end(s: Seq<char>, j: int) -> bool {
    j == s.len() || (0 <= j < s.len() && (s[j] == ',' || s[j] == ']' || s[j] == '}'))
}

proof fn lemma_skip_digits(s: Seq<char>, a: int, b: int)
    requires
        0 <= a <= b <= s.len(),
        forall|k: int| a <= k < b ==> is_digit(#[trigger] s[k]),
        b == s.len() || !is_digit(s[b]),
    ensures
        skip_digits(s, a) == b,
    decreases b - a,
{
    if a < b {
        lemma_skip_digits(s, a + 1, b);
    }
}

/// The text of a number in plain notation: a sign, an integer part
/// without leading zeros, and an optional nonempty fraction.
pub open spec fn plain_text(neg: bool, whole: Seq<char>, frac: Seq<char>, dot: bool) -> Seq<char> {
    let sign = if neg {
        seq!['-']
    } else {
        Seq::<char>::empty()
    };
    if dot {
        sign + whole + seq!['.'] + frac
    } else {
        sign + whole
    }
}

proof fn lemma_p_number_plain(
    s: Seq<char>,
    i: int,
    neg: bool,
    whole: Seq<char>,
    frac: Seq<char>,
    dot: bool,
    n: NumView,
)
    requires
        whole.len() > 0,
        all_digits(whole),
        all_digits(frac),
        whole[0] == '0' ==> whole.len() == 1,
        dot ==> frac.len() > 0,
        0 <= i,
        i + plain_text(neg, whole, frac, dot).len() <= s.len(),
        s.subrange(i, i + plain_text(neg, whole, frac, dot).len()) == plain_text(
            neg,
            whole,
            frac,
            dot,
        ),
        value_end(s, i + plain_text(neg, whole, frac, dot).len()),
        float_text_value(plain_text(neg, whole, frac, dot)) == Some(n),
    ensures
        p_number(s, i) == Ok::<(JsonView, int), (int, Seq<char>)>(
            (JsonView::Num(n), i + plain_text(neg, whole, frac, dot).len()),
        ),
{
    let t = plain_text(neg, whole, frac, dot);
    let e = i + t.len();
    let j0 = if neg {
        i + 1
    } else {
        i
    };
    let w = whole.len() as int;
    assert forall|k: int| 0 <= k < t.len() implies #[trigger] s[i + k] == t[k] by {
        assert(s.subrange(i, e)[k] == s[i + k]);
    }
    assert(s[j0] == whole[0]);
    assert(at_char(s, i, '-') == neg);
    assert forall|k: int| j0 <= k < j0 + w implies is_digit(#[trigger] s[k]) by {
        assert(s[k] == t[k - i]);
        assert(t[k - i] == whole[k - j0]);
    }
    assert(!(e < s.len() && (is_digit(s[e]) || s[e] == '.' || s[e] == 'e' || s[e] == 'E')));
    let j1 = j0 + w;
    if dot {
        assert(s[j1] == t[j1 - i]);
        assert(t[j1 - i] == '.');
        assert forall|k: int| j1 + 1 <= k < e implies is_digit(#[trigger] s[k]) by {
            assert(s[k] == t[k - i]);
            assert(t[k - i] == frac[k - j1 - 1]);
        }
        assert(s[j1 + 1] == t[j1 + 1 - i]);
        assert(t[j1 + 1 - i] == frac[0]);
        assert(is_digit(s[j1 + 1]));
        lemma_skip_digits(s, j1 + 1, e);
        if whole[0] == '0' {
            assert(!is_digit(s[j0 + 1]));
            assert(int_part_end(s, j0) == Ok::<int, int>(j1));
        } else {
            lemma_skip_digits(s, j0, j1);
            assert(int_part_end(s, j0) == Ok::<int, int>(j1));
        }
        assert(frac_part_end(s, j1) == Ok::<int, int>(e));
    } else {
        assert(j1 == e);
        if whole[0] == '0' {
            assert(int_part_end(s, j0) == Ok::<int, int>(j1));
        } else {
            lemma_skip_digits(s, j0, j1);
            assert(int_part_end(s, j0) == Ok::<int, int>(j1));
        }
        assert(frac_part_end(s, j1) == Ok::<int, int>(e));
    }
    assert(exp_part_end(s, e) == Ok::<int, int>(e));
    assert(s.subrange(i, e) == t);
}

/// The integer part of a readable number's text.
pub open spec fn num_whole(n: NumView) -> Seq<char> {
    let len = n.digits.len() as int;
    let d = digit_chars(n.digits);
    if len == 0 || n.exp <= 0 {
        seq!['0']
    } else if n.exp >= len {
        d + zeros((n.exp - len) as nat)
    } else {
        d.take(n.exp)
    }
}

/// The fraction digits of a readable number's text.
pub open spec fn num_frac(n: NumView) -> Seq<char> {
    let len = n.digits.len() as int;
    let d = digit_chars(n.digits);
    if len == 0 || n.exp >= len {
        Seq::empty()
    } else if n.exp <= 0 {
        zeros((-n.exp) as nat) + d
    } else {
        d.skip(n.exp)
    }
}

proof fn lemma_num_text_plain(n: NumView)
    requires
        num_readable(n),
    ensures
        ({
            let dot = num_frac(n).len() > 0;
            &&& num_text(n) == plain_text(n.neg, num_whole(n), num_frac(n), dot)
            &&& num_whole(n).len() > 0
            &&& all_digits(num_whole(n))
            &&& all_digits(num_frac(n))
            &&& num_whole(n)[0] == '0' ==> num_whole(n).len() == 1
        }),
{
    let len = n.digits.len() as int;
    let d = digit_chars(n.digits);
    let w = num_whole(n);
    let f = num_frac(n);
    if len == 0 {
        assert(n.digits =~= Seq::<u8>::empty());
        assert(num_text(n) =~= plain_text(n.neg, w, f, false));
        assert(all_digits(w));
    } else {
        lemma_digit_vals_chars(n.digits);
        assert(d[0] != '0') by {
            assert(n.digits[0] != 0);
            assert(digit_val(d[0]) == n.digits[0]);
        }
        if n.exp >= len {
            let k = (n.exp - len) as nat;
            lemma_zeros_digits(k);
            assert forall|i: int| 0 <= i < w.len() implies '0' <= #[trigger] w[i] <= '9' by {
                if i < len {
                    assert(w[i] == d[i]);
                } else {
                    assert(w[i] == zeros(k)[i - len]);
                }
            }
            assert(num_text(n) =~= plain_text(n.neg, w, f, false));
        } else if n.exp <= 0 {
            let m = (-n.exp) as nat;
            lemma_zeros_digits(m);
            assert forall|i: int| 0 <= i < f.len() implies '0' <= #[trigger] f[i] <= '9' by {
                if i < m {
                    assert(f[i] == zeros(m)[i]);
                } else {
                    assert(f[i] == d[i - m]);
                }
            }
            assert(all_digits(w));
            assert(num_text(n) =~= plain_text(n.neg, w, f, true));
        } else {
            assert(w[0] == d[0]);
            assert(num_text(n) =~= plain_text(n.neg, w, f, true));
        }
    }
}

/// A readable number's text, followed by the end of a value, parses as the
/// number.
pub proof fn lemma_p_number_text(s: Seq<char>, i: int, n: NumView)
    requires
        num_readable(n),
        0 <= i,
        i + num_text(n).len() <= s.len(),
        s.subrange(i, i + num_text(n).len()) == num_text(n),
        value_end(s, i + num_text(n).len()),
    ensures
        p_number(s, i) == Ok::<(JsonView, int), (int, Seq<char>)>(
            (JsonView::Num(n), i + num_text(n).len()),
        ),
{
    lemma_num_text_plain(n);
    lemma_num_text_value(n);
    lemma_p_number_plain(s, i, n.neg, num_whole(n), num_frac(n), num_frac(n).len() > 0, n);
}

proof fn lemma_hex_digit(d: u64)
    requires
        d < 16,
    ensures
        is_hex(hex_digit(d)),
        hex_val(hex_digit(d)) == d,
{
    if d < 10 {
        assert((((48 + d) as u8) as char) as u32 == 48 + d);
    } else {
        assert((((87 + d) as u8) as char) as u32 == 87 + d);
    }
}

/// The four hex digits written for a control character read back as it.
proof fn lemma_p_hex4_control(s: Seq<char>, i: int, c: char)
    requires
        is_raw_control(c),
        0 <= i,
        i + 4 <= s.len(),
        s.subrange(i, i + 4) == hex_digits(c as u64, 4),
    ensures
        p_hex4(s, i) == Ok::<(u32, int), (int, Seq<char>)>((c as u32, i + 4)),
{
    let x = c as u64;
    assert(x < 32);
    let h = hex_digits(x, 4);
    assert(h == seq![hex_digit(x / 4096 % 16), hex_digit(x / 256 % 16), hex_digit(x / 16 % 16), hex_digit(x % 16)]) by {
        reveal_with_fuel(hex_digits, 5);
        assert(x / 16 / 16 == x / 256);
        assert(x / 256 / 16 == x / 4096);
        assert(hex_digits(x, 4) =~= seq![hex_digit(x / 4096 % 16), hex_digit(x / 256 % 16), hex_digit(x / 16 % 16), hex_digit(x % 16)]);
    }
    assert(x / 4096 == 0 && x / 256 == 0 && x / 16 < 2);
    lemma_hex_digit(0);
    lemma_hex_digit(x / 16);
    lemma_hex_digit(x % 16);
    assert forall|k: int| 0 <= k < 4 implies #[trigger] s[i + k] == h[k] by {
        assert(s.subrange(i, i + 4)[k] == s[i + k]);
    }
    assert(s[i + 3] == hex_digit(x % 16));
    assert((x / 16) * 16 + x % 16 == x);
    assert(p_hex_digits(s, i, 4, x as int) == Ok::<(u32, int), (int, Seq<char>)>((c as u32, i + 4)));
    assert(p_hex_digits(s, i, 3, (x / 16) as int) == Ok::<(u32, int), (int, Seq<char>)>((c as u32, i + 4)));
    assert(p_hex_digits(s, i, 2, 0) == p_hex_digits(s, i, 3, (x / 16) as int));
    assert(p_hex_digits(s, i, 1, 0) == p_hex_digits(s, i, 2, 0));
    assert(p_hex_digits(s, i, 0, 0) == p_hex_digits(s, i, 1, 0));
}

proof fn lemma_escaped_concat(a: Seq<char>, b: Seq<char>)
    ensures
        escaped(a + b) == escaped(a) + escaped(b),
    decreases b.len(),
{
    if b.len() == 0 {
        assert(a + b =~= a);
        assert(escaped(a) + escaped(b) =~= escaped(a));
    } else {
        lemma_escaped_concat(a, b.drop_last());
        assert((a + b).drop_last() =~= a + b.drop_last());
        assert(escaped(a + b) =~= escaped(a) + escaped(b));
    }
}

/// Reading the rest of a quoted text, from after its first `k` characters,
/// gives the whole text and the position after the closing quote.
proof fn lemma_p_string_rest(s: Seq<char>, i: int, t: Seq<char>, k: int)
    requires
        0 <= i,
        i + quoted(t).len() <= s.len(),
        s.subrange(i, i + quoted(t).len()) == quoted(t),
        0 <= k <= t.len(),
    ensures
        p_string_rest(s, i + 1 + escaped(t.take(k)).len(), t.take(k)) == Ok::<
            (Seq<char>, int),
            (int, Seq<char>),
        >((t, i + quoted(t).len())),
    decreases t.len() - k,
{
    let q = quoted(t);
    let pos = i + 1 + escaped(t.take(k)).len();
    assert forall|r: int| 0 <= r < q.len() implies #[trigger] s[i + r] == q[r] by {
        assert(s.subrange(i, i + q.len())[r] == s[i + r]);
    }
    lemma_escaped_concat(t.take(k), t.skip(k));
    assert(t.take(k) + t.skip(k) =~= t);
    if k == t.len() {
        assert(t.take(k) =~= t);
        assert(s[pos] == q[pos - i]);
        assert(q[pos - i] == '"');
    } else {
        let c = t[k];
        let ec = escaped_char(c);
        assert(t.take(k + 1).drop_last() =~= t.take(k));
        assert(escaped(t.take(k + 1)) == escaped(t.take(k)) + ec);
        lemma_escaped_concat(t.take(k + 1), t.skip(k + 1));
        assert(t.take(k + 1) + t.skip(k + 1) =~= t);
        assert(t.take(k).push(c) =~= t.take(k + 1));
        assert forall|r: int| 0 <= r < ec.len() implies #[trigger] s[pos + r] == ec[r] by {
            assert(s[pos + r] == q[pos + r - i]);
            assert(q[pos + r - i] == escaped(t)[pos + r - i - 1]);
            assert(escaped(t) == escaped(t.take(k)) + ec + escaped(t.skip(k + 1)));
        }
        assert(pos + ec.len() < i + q.len());
        assert(s[pos + 0] == ec[0]);
        assert(ec.len() >= 2 ==> s[pos + 1] == ec[1]);
        lemma_p_string_rest(s, i, t, k + 1);
        if c == '"' || c == '\\' || c == '\n' || c == '\r' || c == '\t' {
            assert(s[pos] == '\\');
            assert(simple_escape(s[pos + 1]) == Some(c));
        } else if is_raw_control(c) {
            assert(s[pos] == '\\');
            assert(s[pos + 1] == 'u');
            assert(hex_digits(#[verifier::truncate] (c as u64), 4).len() == 4) by {
                reveal_with_fuel(hex_digits, 5);
            }
            assert(s.subrange(pos + 2, pos + 6) =~= hex_digits(c as u64, 4)) by {
                assert forall|r: int| 0 <= r < 4 implies #[trigger] s.subrange(pos + 2, pos + 6)[r]
                    == hex_digits(c as u64, 4)[r] by {
                    assert(s[pos + (2 + r)] == ec[2 + r]);
                }
            }
            lemma_p_hex4_control(s, pos + 2, c);
            vstd::utf8::char_u32_cast(c, c as u32);
            assert(p_unicode(s, pos + 2) == Ok::<(char, int), (int, Seq<char>)>((c, pos + 6)));
        } else {
            assert(s[pos] == c);
        }
    }
}

/// A quoted text at `i` reads as the text, ending after its closing quote.
pub proof fn lemma_p_string_quoted(s: Seq<char>, i: int, t: Seq<char>)
    requires
        0 <= i,
        i + quoted(t).len() <= s.len(),
        s.subrange(i, i + quoted(t).len()) == quoted(t),
    ensures
        p_string(s, i) == Ok::<(Seq<char>, int), (int, Seq<char>)>((t, i + quoted(t).len())),
{
    lemma_p_string_rest(s, i, t, 0);
    assert(t.take(0) =~= Seq::<char>::empty());
    assert(escaped(Seq::<char>::empty()).len() == 0);
}

/// A value that prints and reads back unchanged: objects keep their keys
/// in increasing order, and every number is [`num_readable`].
pub open spec fn readable(v: JsonView) -> bool
    decreases v, 1nat,
{
    match v {
        JsonView::Num(n) => num_readable(n),
        JsonView::Arr(items) => items_readable(items),
        JsonView::Obj(members) => keys_increasing(members) && members_readable(members),
        _ => true,
    }
}

/// Every item is [`readable`].
pub open spec fn items_readable(items: Seq<JsonView>) -> bool
    decreases items, 0nat,
{
    if items.len() == 0 {
        true
    } else {
        items_readable(items.drop_last()) && readable(items.last())
    }
}

/// Every member's value is [`readable`].
pub open spec fn members_readable(members: Seq<(Seq<char>, JsonView)>) -> bool
    decreases members, 0nat,
{
    if members.len() == 0 {
        true
    } else {
        members_readable(members.drop_last()) && readable(members.last().1)
    }
}

proof fn lemma_items_readable(items: Seq<JsonView>)
    requires
        items_readable(items),
    ensures
        forall|i: int| 0 <= i < items.len() ==> #[trigger] readable(items[i]),
    decreases items.len(),
{
    if items.len() > 0 {
        lemma_items_readable(items.drop_last());
        assert forall|i: int| 0 <= i < items.len() implies #[trigger] readable(items[i]) by {
            if i < items.len() - 1 {
                assert(items.drop_last()[i] == items[i]);
            }
        }
    }
}

proof fn lemma_members_readable(members: Seq<(Seq<char>, JsonView)>)
    requires
        members_readable(members),
    ensures
        forall|i: int| 0 <= i < members.len() ==> #[trigger] readable(members[i].1),
    decreases members.len(),
{
    if members.len() > 0 {
        lemma_members_readable(members.drop_last());
        assert forall|i: int| 0 <= i < members.len() implies #[trigger] readable(members[i].1) by {
            if i < members.len() - 1 {
                assert(members.drop_last()[i] == members[i]);
            }
        }
    }
}

proof fn lemma_items_text_concat(a: Seq<JsonView>, b: Seq<JsonView>)
    requires
        a.len() > 0,
        b.len() > 0,
    ensures
        items_text(a + b) == items_text(a) + seq![','] + items_text(b),
    decreases b.len(),
{
    assert((a + b).drop_last() =~= a + b.drop_last());
    assert((a + b).last() == b.last());
    if b.len() == 1 {
        assert(a + b.drop_last() =~= a);
    } else {
        lemma_items_text_concat(a, b.drop_last());
        assert(items_text(a + b) =~= items_text(a) + seq![','] + items_text(b));
    }
}

proof fn lemma_members_text_concat(a: Seq<(Seq<char>, JsonView)>, b: Seq<(Seq<char>, JsonView)>)
    requires
        a.len() > 0,
        b.len() > 0,
    ensures
        members_text(a + b) == members_text(a) + seq![','] + members_text(b),
    decreases b.len(),
{
    assert((a + b).drop_last() =~= a + b.drop_last());
    assert((a + b).last() == b.last());
    if b.len() == 1 {
        assert(a + b.drop_last() =~= a);
        assert(members_text(a + b) =~= members_text(a) + seq![','] + members_text(b));
    } else {
        lemma_members_text_concat(a, b.drop_last());
        assert(members_text(a + b) =~= members_text(a) + seq![','] + members_text(b));
    }
}

/// The first character of a value's text: never white space, a comma or a
/// closing bracket.
proof fn lemma_first_char(v: JsonView)
    requires
        readable(v),
    ensures
        json_text(v).len() > 0,
        !is_json_ws(json_text(v)[0]),
        json_text(v)[0] != ',' && json_text(v)[0] != ']' && json_text(v)[0] != '}',
        json_text(v)[0] != '"' ==> !(v is Str),
{
    reveal_strlit("null");
    reveal_strlit("true");
    reveal_strlit("false");
    match v {
        JsonView::Num(n) => {
            lemma_num_text_plain(n);
            let w = num_whole(n);
            assert('0' <= w[0] <= '9');
            let t = plain_text(n.neg, w, num_frac(n), num_frac(n).len() > 0);
            assert(t[0] == if n.neg {
                '-'
            } else {
                w[0]
            });
        },
        _ => {},
    }
}

/// A text laid out as `a + t + b` at `i` holds `t` at `i + a.len()`.
proof fn lemma_sub_text(s: Seq<char>, i: int, a: Seq<char>, t: Seq<char>, b: Seq<char>)
    requires
        0 <= i,
        i + (a + t + b).len() <= s.len(),
        s.subrange(i, i + (a + t + b).len()) == a + t + b,
    ensures
        s.subrange(i + a.len(), i + a.len() + t.len()) == t,
        b.len() > 0 ==> s[i + a.len() + t.len()] == b[0],
        t.len() > 0 ==> s[i + a.len()] == t[0],
{
    let f = a + t + b;
    assert forall|r: int| 0 <= r < f.len() implies #[trigger] s[i + r] == f[r] by {
        assert(s.subrange(i, i + f.len())[r] == s[i + r]);
    }
    assert forall|r: int| 0 <= r < t.len() implies #[trigger] s.subrange(
        i + a.len(),
        i + a.len() + t.len(),
    )[r] == t[r] by {
        assert(s[i + (a.len() + r)] == f[a.len() + r]);
    }
    assert(s.subrange(i + a.len(), i + a.len() + t.len()) =~= t);
    if b.len() > 0 {
        assert(s[i + (a.len() + t.len())] == f[a.len() + t.len() as int]);
    }
    if t.len() > 0 {
        assert(s[i + (a.len() + 0)] == f[a.len() + 0int]);
    }
}

/// Where item `k` of an array printed at `i` starts.
spec fn item_start(i: int, items: Seq<JsonView>, k: int) -> int {
    if k == 0 {
        i + 1
    } else {
        i + 2 + items_text(items.take(k)).len()
    }
}

/// Where member `k` of an object printed at `i` starts.
spec fn member_start(i: int, members: Seq<(Seq<char>, JsonView)>, k: int) -> int {
    if k == 0 {
        i + 1
    } else {
        i + 2 + members_text(members.take(k)).len()
    }
}

/// A readable value's text at `i`, followed by the end of a value, reads
/// as the value.
proof fn lemma_p_value_text(s: Seq<char>, i: int, v: JsonView)
    requires
        readable(v),
        0 <= i,
        i + json_text(v).len() <= s.len(),
        s.subrange(i, i + json_text(v).len()) == json_text(v),
        value_end(s, i + json_text(v).len()),
    ensures
        p_value(s, i) == Ok::<(JsonView, int), (int, Seq<char>)>((v, i + json_text(v).len())),
    decreases v, 0int,
{
    reveal_strlit("null");
    reveal_strlit("true");
    reveal_strlit("false");
    let t = json_text(v);
    lemma_first_char(v);
    assert(s[i] == t[0]) by {
        assert(s.subrange(i, i + t.len())[0] == s[i]);
    }
    match v {
        JsonView::Null => {},
        JsonView::Bool(b) => {},
        JsonView::Num(n) => {
            lemma_p_number_text(s, i, n);
        },
        JsonView::Str(x) => {
            lemma_p_string_quoted(s, i, x);
        },
        JsonView::Arr(items) => {
            if items.len() == 0 {
                assert(items =~= Seq::<JsonView>::empty());
                assert(s[i + 1] == t[1]) by {
                    assert(s.subrange(i, i + t.len())[1] == s[i + 1]);
                }
            } else {
                lemma_p_items_text(s, i, items, 0);
                assert(items.take(0) =~= Seq::<JsonView>::empty());
            }
        },
        JsonView::Obj(members) => {
            if members.len() == 0 {
                assert(members =~= Seq::<(Seq<char>, JsonView)>::empty());
                assert(s[i + 1] == t[1]) by {
                    assert(s.subrange(i, i + t.len())[1] == s[i + 1]);
                }
            } else {
                lemma_p_members_text(s, i, members, 0);
                assert(members.take(0) =~= Seq::<(Seq<char>, JsonView)>::empty());
            }
        },
    }
}

/// Reading the items of a readable array printed at `i`, from item `k` on,
/// gives the array and the position after its closing bracket.
proof fn lemma_p_items_text(s: Seq<char>, i: int, items: Seq<JsonView>, k: int)
    requires
        items_readable(items),
        0 <= k < items.len(),
        0 <= i,
        i + json_text(JsonView::Arr(items)).len() <= s.len(),
        s.subrange(i, i + json_text(JsonView::Arr(items)).len()) == json_text(
            JsonView::Arr(items),
        ),
    ensures
        0 <= item_start(i, items, k) < s.len(),
        !is_json_ws(s[item_start(i, items, k)]),
        s[item_start(i, items, k)] != ']',
        p_items(s, item_start(i, items, k), items.take(k)) == Ok::<
            (JsonView, int),
            (int, Seq<char>),
        >((JsonView::Arr(items), i + json_text(JsonView::Arr(items)).len())),
    decreases items, items.len() - k,
{
    let n = items.len() as int;
    let full = json_text(JsonView::Arr(items));
    let x = items[k];
    let tx = json_text(x);
    lemma_items_readable(items);
    let pre = if k == 0 {
        Seq::<char>::empty()
    } else {
        items_text(items.take(k)) + seq![',']
    };
    let post = if k + 1 < n {
        seq![','] + items_text(items.skip(k + 1))
    } else {
        Seq::<char>::empty()
    };
    assert(items.take(k + 1).drop_last() =~= items.take(k));
    assert(items.take(k + 1).last() == x);
    assert(items_text(items.take(k + 1)) =~= pre + tx);
    if k + 1 < n {
        lemma_items_text_concat(items.take(k + 1), items.skip(k + 1));
        assert(items.take(k + 1) + items.skip(k + 1) =~= items);
        assert(items_text(items) =~= pre + tx + post);
    } else {
        assert(items.take(k + 1) =~= items);
        assert(items_text(items) =~= pre + tx + post);
    }
    let a = seq!['['] + pre;
    let b = post + seq![']'];
    assert(full =~= a + tx + b);
    lemma_sub_text(s, i, a, tx, b);
    let pos = i + a.len();
    assert(pos == item_start(i, items, k));
    lemma_first_char(x);
    let e = pos + tx.len();
    assert(b[0] == if k + 1 < n {
        ','
    } else {
        ']'
    });
    assert(value_end(s, e));
    lemma_p_value_text(s, pos, x);
    assert(items.take(k).push(x) =~= items.take(k + 1));
    if k + 1 < n {
        lemma_p_items_text(s, i, items, k + 1);
        assert(item_start(i, items, k + 1) == e + 1);
    } else {
        assert(items.take(k + 1) =~= items);
        assert(e + 1 == i + full.len());
    }
}

/// The text of the members before member `k`, with its comma.
spec fn members_before(members: Seq<(Seq<char>, JsonView)>, k: int) -> Seq<char> {
    if k == 0 {
        Seq::<char>::empty()
    } else {
        members_text(members.take(k)) + seq![',']
    }
}

/// The text of the members after member `k`, with its comma.
spec fn members_after(members: Seq<(Seq<char>, JsonView)>, k: int) -> Seq<char> {
    if k + 1 < members.len() {
        seq![','] + members_text(members.skip(k + 1))
    } else {
        Seq::<char>::empty()
    }
}

proof fn lemma_members_split(members: Seq<(Seq<char>, JsonView)>, k: int)
    requires
        0 <= k < members.len(),
    ensures
        members_text(members) == members_before(members, k) + quoted(members[k].0) + seq![':']
            + json_text(members[k].1) + members_after(members, k),
{
    let n = members.len() as int;
    let pre = members_before(members, k);
    let post = members_after(members, k);
    let q = quoted(members[k].0);
    let tx = json_text(members[k].1);
    assert(members.take(k + 1).drop_last() =~= members.take(k));
    assert(members.take(k + 1).last() == members[k]);
    assert(members_text(members.take(k + 1)) =~= pre + q + seq![':'] + tx);
    if k + 1 < n {
        lemma_members_text_concat(members.take(k + 1), members.skip(k + 1));
        assert(members.take(k + 1) + members.skip(k + 1) =~= members);
    } else {
        assert(members.take(k + 1) =~= members);
    }
    assert(members_text(members) =~= pre + q + seq![':'] + tx + post);
}

/// How member `k` of an object printed at `i` lies in the text: its quoted
/// key, a colon, its value's text, then a comma or the closing brace.
proof fn lemma_member_layout(s: Seq<char>, i: int, members: Seq<(Seq<char>, JsonView)>, k: int)
    requires
        0 <= k < members.len(),
        0 <= i,
        i + json_text(JsonView::Obj(members)).len() <= s.len(),
        s.subrange(i, i + json_text(JsonView::Obj(members)).len()) == json_text(
            JsonView::Obj(members),
        ),
    ensures
        ({
            let pos = member_start(i, members, k);
            let q = quoted(members[k].0);
            let j4 = pos + q.len() + 1;
            let e = j4 + json_text(members[k].1).len();
            &&& 0 <= pos
            &&& e < s.len()
            &&& s.subrange(pos, pos + q.len()) == q
            &&& s[pos + q.len()] == ':'
            &&& s.subrange(j4, e) == json_text(members[k].1)
            &&& s[e] == if k + 1 < members.len() {
                ','
            } else {
                '}'
            }
            &&& k + 1 < members.len() ==> member_start(i, members, k + 1) == e + 1
            &&& k + 1 == members.len() ==> e + 1 == i + json_text(JsonView::Obj(members)).len()
        }),
{
    let full = json_text(JsonView::Obj(members));
    let q = quoted(members[k].0);
    let tx = json_text(members[k].1);
    let pre = members_before(members, k);
    let post = members_after(members, k);
    lemma_members_split(members, k);
    let a1 = seq!['{'] + pre;
    let b1 = seq![':'] + tx + post + seq!['}'];
    assert(full =~= a1 + q + b1);
    lemma_sub_text(s, i, a1, q, b1);
    let a2 = seq!['{'] + pre + q + seq![':'];
    let b2 = post + seq!['}'];
    assert(full =~= a2 + tx + b2);
    lemma_sub_text(s, i, a2, tx, b2);
    if k + 1 < members.len() {
        lemma_members_split(members, k + 1);
        assert(members.take(k + 2).drop_last() =~= members.take(k + 1));
        assert(members_text(members.take(k + 1)) =~= pre + q + seq![':'] + tx) by {
            assert(members.take(k + 1).drop_last() =~= members.take(k));
        }
    }
}

/// In key-ordered members, member `k`'s key is not among those before it,
/// and inserting it after them appends it.
proof fn lemma_member_next(members: Seq<(Seq<char>, JsonView)>, k: int)
    requires
        keys_increasing(members),
        0 <= k < members.len(),
    ensures
        !has_key(members.take(k), members[k].0),
        sorted_insert(members.take(k), members[k].0, members[k].1) == members.take(k + 1),
{
    let key = members[k].0;
    lemma_key_lt_irreflexive(key);
    if has_key(members.take(k), key) {
        let j = choose|j: int|
            0 <= j < members.take(k).len() && #[trigger] members.take(k)[j].0 == key;
        assert(key_lt(members[j].0, members[k].0));
    }
    lemma_append_sorted(members.take(k), key, members[k].1, members, k);
    assert(members.take(k).push((key, members[k].1)) =~= members.take(k + 1));
}

/// Reading the members of a readable object printed at `i`, from member
/// `k` on, gives the object and the position after its closing brace.
proof fn lemma_p_members_text(s: Seq<char>, i: int, members: Seq<(Seq<char>, JsonView)>, k: int)
    requires
        keys_increasing(members),
        members_readable(members),
        0 <= k < members.len(),
        0 <= i,
        i + json_text(JsonView::Obj(members)).len() <= s.len(),
        s.subrange(i, i + json_text(JsonView::Obj(members)).len()) == json_text(
            JsonView::Obj(members),
        ),
    ensures
        0 <= member_start(i, members, k) < s.len(),
        s[member_start(i, members, k)] == '"',
        p_members(s, member_start(i, members, k), members.take(k)) == Ok::<
            (JsonView, int),
            (int, Seq<char>),
        >((JsonView::Obj(members), i + json_text(JsonView::Obj(members)).len())),
    decreases members, members.len() - k,
{
    let key = members[k].0;
    let x = members[k].1;
    lemma_members_readable(members);
    lemma_member_layout(s, i, members, k);
    lemma_member_next(members, k);
    let pos = member_start(i, members, k);
    let q = quoted(key);
    let j4 = pos + q.len() + 1;
    let e = j4 + json_text(x).len();
    assert(s[pos] == '"') by {
        assert(s.subrange(pos, pos + q.len())[0] == s[pos]);
    }
    lemma_p_string_quoted(s, pos, key);
    lemma_first_char(x);
    assert(s[j4] == json_text(x)[0]) by {
        assert(s.subrange(j4, e)[0] == s[j4]);
    }
    assert(value_end(s, e));
    lemma_p_value_text(s, j4, x);
    if k + 1 < members.len() {
        lemma_p_members_text(s, i, members, k + 1);
    } else {
        assert(members.take(k + 1) =~= members);
    }
}

/// A readable value, printed in compact form, reads back as itself.
pub proof fn law_printed_value_reads_back(v: JsonView)
    requires
        readable(v),
    ensures
        p_document(json_text(v)) == Ok::<JsonView, (int, Seq<char>)>(v),
{
    let s = json_text(v);
    lemma_first_char(v);
    assert(s.subrange(0, s.len() as int) =~= s);
    lemma_p_value_text(s, 0, v);
}

// ---------------------------------------------------------------------------
// What the strict parser accepts is readable
// ---------------------------------------------------------------------------

/// Every number `f64` reading gives is readable.
proof fn lemma_float_text_readable(t: Seq<char>)
    ensures
        float_text_value(t) matches Some(n) ==> num_readable(n),
{
    let body = if t.len() > 0 && (t[0] == '+' || t[0] == '-') {
        t.drop_first()
    } else {
        t
    };
    let ep = find_exp(body);
    if let (Some((whole, frac)), Some(e)) = (
        mantissa_parts(body.take(ep)),
        exponent_part(body.skip(ep)),
    ) {
        let wf = whole + frac;
        let d = digit_vals(wf);
        assert forall|i: int| 0 <= i < d.len() implies #[trigger] d[i] <= 9 by {
            if i < whole.len() {
                assert(wf[i] == whole[i]);
            } else {
                assert(wf[i] == frac[i - whole.len()]);
            }
            assert('0' <= wf[i] <= '9');
        }
        lemma_first_nonzero(d);
        lemma_end_nonzero(d);
        let f = first_nonzero(d);
        let l = end_nonzero(d);
        if f < l {
            let c = d.subrange(f, l);
            assert(c[0] == d[f]);
            assert(c.last() == d[l - 1]);
        }
    }
}

proof fn lemma_members_readable_from(members: Seq<(Seq<char>, JsonView)>)
    requires
        forall|i: int| 0 <= i < members.len() ==> #[trigger] readable(members[i].1),
    ensures
        members_readable(members),
    decreases members.len(),
{
    if members.len() > 0 {
        let pre = members.drop_last();
        assert forall|i: int| 0 <= i < pre.len() implies #[trigger] readable(pre[i].1) by {
            assert(pre[i] == members[i]);
        }
        lemma_members_readable_from(pre);
        assert(readable(members[members.len() - 1].1));
    }
}

proof fn lemma_insert_readable(acc: Seq<(Seq<char>, JsonView)>, k: Seq<char>, v: JsonView)
    requires
        keys_increasing(acc),
        members_readable(acc),
        readable(v),
    ensures
        keys_increasing(sorted_insert(acc, k, v)),
        members_readable(sorted_insert(acc, k, v)),
{
    let r = sorted_insert(acc, k, v);
    crate::textmap::lemma_sorted_insert(acc, k, v);
    lemma_members_readable(acc);
    assert forall|i: int| 0 <= i < r.len() implies #[trigger] readable(r[i].1) by {
        crate::textmap::lemma_lookup_index(r, r[i].0, i);
        if r[i].0 != k {
            assert(crate::textmap::lookup(acc, r[i].0) == Some(r[i].1));
            crate::textmap::lemma_lookup_member(acc, r[i].0);
            let j = choose|j: int| 0 <= j < acc.len() && #[trigger] acc[j].1 == r[i].1;
            assert(readable(acc[j].1));
        }
    }
    lemma_members_readable_from(r);
}

proof fn lemma_value_readable(s: Seq<char>, i: int)
    ensures
        p_value(s, i) matches Ok((v, _)) ==> readable(v),
    decreases s.len() - i, 1nat,
{
    if 0 <= i < s.len() {
        let c = s[i];
        if c == '{' {
            lemma_object_readable(s, i);
        } else if c == '[' {
            lemma_array_readable(s, i);
        } else if c == '-' || is_digit(c) {
            let j0 = if at_char(s, i, '-') {
                i + 1
            } else {
                i
            };
            if let Ok(j1) = int_part_end(s, j0) {
                if let Ok(j2) = frac_part_end(s, j1) {
                    if let Ok(j3) = exp_part_end(s, j2) {
                        lemma_float_text_readable(s.subrange(i, j3));
                    }
                }
            }
        }
    }
}

proof fn lemma_array_readable(s: Seq<char>, i: int)
    ensures
        p_array(s, i) matches Ok((v, _)) ==> readable(v),
    decreases s.len() - i, 0nat,
{
    let j = skip_ws(s, i + 1);
    if !at_char(s, j, ']') && i < j <= s.len() {
        lemma_items_readable_step(s, j, Seq::empty());
    }
}

proof fn lemma_items_readable_step(s: Seq<char>, j: int, acc: Seq<JsonView>)
    requires
        items_readable(acc),
    ensures
        p_items(s, j, acc) matches Ok((v, _)) ==> readable(v),
    decreases s.len() - j, 2nat,
{
    let j1 = skip_ws(s, j);
    if j <= j1 <= s.len() {
        lemma_value_readable(s, j1);
        match p_value(s, j1) {
            Ok((v, j2)) => {
                let j3 = skip_ws(s, j2);
                assert(acc.push(v).drop_last() =~= acc);
                if j3 > j1 && at_char(s, j3, ',') {
                    lemma_items_readable_step(s, j3 + 1, acc.push(v));
                }
            },
            Err(_) => {},
        }
    }
}

proof fn lemma_object_readable(s: Seq<char>, i: int)
    ensures
        p_object(s, i) matches Ok((v, _)) ==> readable(v),
    decreases s.len() - i, 0nat,
{
    let j = skip_ws(s, i + 1);
    if !at_char(s, j, '}') && i < j <= s.len() {
        lemma_members_readable_step(s, j, Seq::empty());
    }
}

proof fn lemma_members_readable_step(s: Seq<char>, j: int, acc: Seq<(Seq<char>, JsonView)>)
    requires
        keys_increasing(acc),
        members_readable(acc),
    ensures
        p_members(s, j, acc) matches Ok((v, _)) ==> readable(v),
    decreases s.len() - j, 2nat,
{
    let j1 = skip_ws(s, j);
    if j <= j1 <= s.len() && at_char(s, j1, '"') {
        match p_string(s, j1) {
            Ok((key, j2)) => {
                let j3 = skip_ws(s, j2);
                let j4 = skip_ws(s, j3 + 1);
                if at_char(s, j3, ':') && j1 < j4 <= s.len() {
                    lemma_value_readable(s, j4);
                    match p_value(s, j4) {
                        Ok((v, j5)) => {
                            if !has_key(acc, key) {
                                lemma_insert_readable(acc, key, v);
                                let j6 = skip_ws(s, j5);
                                if j6 > j1 && at_char(s, j6, ',') {
                                    lemma_members_readable_step(
                                        s,
                                        j6 + 1,
                                        sorted_insert(acc, key, v),
                                    );
                                }
                            }
                        },
                        Err(_) => {},
                    }
                }
            },
            Err(_) => {},
        }
    }
}

/// Every value the strict parser accepts is readable.
pub proof fn lemma_document_readable(s: Seq<char>)
    ensures
        p_document(s) matches Ok(v) ==> readable(v),
{
    lemma_value_readable(s, skip_ws(s, 0));
}

/// A readable value keeps its object keys in order.
pub proof fn lemma_readable_well_keyed(v: JsonView)
    requires
        readable(v),
    ensures
        well_keyed(v),
    decreases v, 1nat,
{
    match v {
        JsonView::Arr(items) => lemma_items_readable_well_keyed(items),
        JsonView::Obj(members) => lemma_members_readable_well_keyed(members),
        _ => {},
    }
}

proof fn lemma_items_readable_well_keyed(items: Seq<JsonView>)
    requires
        items_readable(items),
    ensures
        items_well_keyed(items),
    decreases items, 0nat,
{
    if items.len() > 0 {
        lemma_items_readable_well_keyed(items.drop_last());
        lemma_readable_well_keyed(items.last());
    }
}

proof fn lemma_members_readable_well_keyed(members: Seq<(Seq<char>, JsonView)>)
    requires
        members_readable(members),
    ensures
        members_well_keyed(members),
    decreases members, 0nat,
{
    if members.len() > 0 {
        lemma_members_readable_well_keyed(members.drop_last());
        lemma_readable_well_keyed(members.last().1);
    }
}

/// Whatever the strict parser accepts, printed in compact form, reads back
/// as the same value.
pub proof fn law_parsed_value_reads_back(s: Seq<char>)
    ensures
        p_document(s) matches Ok(v) ==> p_document(json_text(v)) == Ok::<
            JsonView,
            (int, Seq<char>),
        >(v),
{
    lemma_document_readable(s);
    if let Ok(v) = p_document(s) {
        law_printed_value_reads_back(v);
    }
}

} // verus!
