//! Exact decimal numbers: what a JSON number says, as plain values.

use vstd::prelude::*;

use crate::text::{bytes_lt, slice_lt, string_from_chars};

verus! {

/// A decimal number as plain values: `±0.d₁d₂…dₙ × 10^exp`.
pub struct NumView {
    pub neg: bool,
    pub digits: Seq<u8>,
    pub exp: int,
}

/// Normal form: decimal digits, none leading or trailing zero; zero is the
/// empty digit string, unsigned, with exponent 0.
pub open spec fn num_wf(n: NumView) -> bool {
    &&& forall|i: int| 0 <= i < n.digits.len() ==> #[trigger] n.digits[i] <= 9
    &&& n.digits.len() == 0 ==> !n.neg && n.exp == 0
    &&& n.digits.len() > 0 ==> n.digits[0] != 0 && n.digits.last() != 0
}

pub open spec fn num_zero() -> NumView {
    NumView { neg: false, digits: Seq::empty(), exp: 0 }
}

/// Magnitude order of normal forms.
pub open spec fn abs_lt(a: NumView, b: NumView) -> bool {
    if b.digits.len() == 0 {
        false
    } else if a.digits.len() == 0 {
        true
    } else if a.exp != b.exp {
        a.exp < b.exp
    } else {
        bytes_lt(a.digits, b.digits)
    }
}

/// The numeric order of normal forms.
pub open spec fn num_lt(a: NumView, b: NumView) -> bool {
    if a.neg && !b.neg {
        true
    } else if !a.neg && b.neg {
        false
    } else if !a.neg {
        abs_lt(a, b)
    } else {
        abs_lt(b, a)
    }
}

pub open spec fn digit_char(d: u8) -> char {
    ((48 + d) as u8) as char
}

pub open spec fn digit_chars(d: Seq<u8>) -> Seq<char> {
    d.map_values(|x: u8| digit_char(x))
}

pub open spec fn zeros(n: nat) -> Seq<char> {
    Seq::new(n, |i: int| '0')
}

/// Plain positional notation, never an exponent: integral values print
/// without a decimal point, others with the shortest exact fraction.
pub open spec fn num_text(n: NumView) -> Seq<char> {
    let sign = if n.neg {
        seq!['-']
    } else {
        Seq::empty()
    };
    let d = digit_chars(n.digits);
    let len = n.digits.len() as int;
    if n.digits.len() == 0 {
        seq!['0']
    } else if n.exp >= len {
        sign + d + zeros((n.exp - len) as nat)
    } else if n.exp <= 0 {
        sign + seq!['0', '.'] + zeros((-n.exp) as nat) + d
    } else {
        sign + d.take(n.exp) + seq!['.'] + d.skip(n.exp)
    }
}

/// A number in normal form. Equality is equality of value.
#[derive(Debug, PartialEq, Eq)]
pub struct Number {
    neg: bool,
    digits: Vec<u8>,
    exp: i64,
}

impl View for Number {
    type V = NumView;

    closed spec fn view(&self) -> NumView {
        NumView { neg: self.neg, digits: self.digits@, exp: self.exp as int }
    }
}

pub open spec fn digit_val(c: char) -> u8 {
    if (c as u32) >= 48 {
        ((c as u32) - 48) as u8
    } else {
        0
    }
}

pub open spec fn literal_digits(s: Seq<char>) -> Seq<u8> {
    s.map_values(|c: char| digit_val(c))
}

/// The digits of 2^1024 − 2^970, the least magnitude a finite `f64`
/// parse refuses: values from it upward round to infinity.
pub open spec fn overflow_bound() -> NumView {
    NumView { neg: false, digits: literal_digits("179769313486231580793728971405303415079934132710037826936173778980444968292764750946649017977587207096330286416692887910946555547851940402630657488671505820681908902000708383676273854845817711531764475730270069855571366959622842914819860834936475292719074168444365510704342711559699508093042880177904174497792"@), exp: 309 }
}

/// The digits of 2^-1075: magnitudes up to it round to zero.
pub open spec fn underflow_bound() -> NumView {
    NumView { neg: false, digits: literal_digits("24703282292062327208828439643411068618252990130716238221279284125033775363510437593264991818081799618989828234772285886546332835517796989819938739800539093906315035659515570226392290858392449105184435931802849936536152500319370457678249219365623669863658480757001585769269903706311928279558551332927834338409351978015531246597263579574622766465272827220056374006485499977096599470454020828166226237857393450736339007967761930577506740176324673600968951340535537458516661134223766678604162159680461914467291840300530057530849048765391711386591646239524912623653881879636239373280423891018672348497668235089863388587925628302755995657524455507255189313690836254779186948667994968324049705821028513185451396213837722826145437693412532098591327667236328125"@), exp: -323 }
}

fn literal_digits_exec(s: &str) -> (v: Vec<u8>)
    ensures
        v@ == literal_digits(s@),
{
    let cs = crate::text::chars_of(s);
    let mut v: Vec<u8> = Vec::new();
    let mut i: usize = 0;
    while i < cs.len()
        invariant
            cs@ == s@,
            i <= cs@.len(),
            v@ == literal_digits(cs@.take(i as int)),
        decreases cs@.len() - i,
    {
        let c = cs[i];
        let d: u8 = if (c as u32) >= 48 { ((c as u32) - 48) as u8 } else { 0 };
        v.push(d);
        assert(literal_digits(cs@.take(i + 1)) =~= literal_digits(cs@.take(i as int)).push(d));
        i = i + 1;
    }
    assert(cs@.take(i as int) =~= cs@);
    v
}

/// The first index holding a nonzero digit.
pub open spec fn first_nonzero(d: Seq<u8>) -> int
    decreases d.len(),
{
    if d.len() == 0 {
        0
    } else if d[0] != 0 {
        0
    } else {
        1 + first_nonzero(d.drop_first())
    }
}

/// One past the last index holding a nonzero digit.
pub open spec fn end_nonzero(d: Seq<u8>) -> int
    decreases d.len(),
{
    if d.len() == 0 {
        0
    } else if d.last() != 0 {
        d.len() as int
    } else {
        end_nonzero(d.drop_last())
    }
}

/// Zero, or a magnitude strictly inside the range `f64` reading keeps:
/// below the overflow bound and above the underflow bound.
pub open spec fn in_f64_range(n: NumView) -> bool {
    n.digits.len() > 0 ==> abs_lt(n, overflow_bound()) && abs_lt(underflow_bound(), n)
}

/// The value of `±0.d × 10^point × 10^e`, rounded to zero or refused as
/// `f64` parsing does at the ends of its range. Inside the range every
/// digit is kept exactly: numbers are exact decimals, not binary floats, so
/// a number with more than 17 significant digits keeps digits that `f64`
/// would round away, and prints and compares by its exact value.
pub open spec fn decimal_value(neg: bool, d: Seq<u8>, point: int, e: int) -> Option<NumView> {
    let f = first_nonzero(d);
    let l = end_nonzero(d);
    if f >= l {
        Some(num_zero())
    } else {
        let c = NumView { neg, digits: d.subrange(f, l), exp: point - f + e };
        if !abs_lt(c, overflow_bound()) {
            None
        } else if !abs_lt(underflow_bound(), c) {
            Some(num_zero())
        } else {
            Some(c)
        }
    }
}

} // verus!

verus! {

pub proof fn lemma_bounds_nonzero()
    ensures
        overflow_bound().digits.len() == 309,
        underflow_bound().digits.len() == 752,
{
    reveal_strlit("179769313486231580793728971405303415079934132710037826936173778980444968292764750946649017977587207096330286416692887910946555547851940402630657488671505820681908902000708383676273854845817711531764475730270069855571366959622842914819860834936475292719074168444365510704342711559699508093042880177904174497792");
    reveal_strlit("24703282292062327208828439643411068618252990130716238221279284125033775363510437593264991818081799618989828234772285886546332835517796989819938739800539093906315035659515570226392290858392449105184435931802849936536152500319370457678249219365623669863658480757001585769269903706311928279558551332927834338409351978015531246597263579574622766465272827220056374006485499977096599470454020828166226237857393450736339007967761930577506740176324673600968951340535537458516661134223766678604162159680461914467291840300530057530849048765391711386591646239524912623653881879636239373280423891018672348497668235089863388587925628302755995657524455507255189313690836254779186948667994968324049705821028513185451396213837722826145437693412532098591327667236328125");
}

pub(crate) proof fn lemma_first_nonzero(d: Seq<u8>)
    ensures
        0 <= first_nonzero(d) <= d.len(),
        forall|k: int| 0 <= k < first_nonzero(d) ==> d[k] == 0,
        first_nonzero(d) < d.len() ==> d[first_nonzero(d)] != 0,
    decreases d.len(),
{
    if d.len() > 0 && d[0] == 0 {
        lemma_first_nonzero(d.drop_first());
        assert forall|k: int| 0 <= k < first_nonzero(d) implies d[k] == 0 by {
            if k > 0 {
                assert(d[k] == d.drop_first()[k - 1]);
            }
        }
    }
}

pub(crate) proof fn lemma_end_nonzero(d: Seq<u8>)
    ensures
        0 <= end_nonzero(d) <= d.len(),
        forall|k: int| end_nonzero(d) <= k < d.len() ==> d[k] == 0,
        end_nonzero(d) > 0 ==> d[end_nonzero(d) - 1] != 0,
    decreases d.len(),
{
    if d.len() > 0 && d.last() == 0 {
        lemma_end_nonzero(d.drop_last());
        assert forall|k: int| end_nonzero(d) <= k < d.len() implies d[k] == 0 by {
            if k < d.len() - 1 {
                assert(d[k] == d.drop_last()[k]);
            }
        }
    }
}

fn first_nonzero_exec(d: &Vec<u8>) -> (f: usize)
    ensures
        f == first_nonzero(d@),
{
    proof {
        lemma_first_nonzero(d@);
    }
    let mut f: usize = 0;
    while f < d.len() && d[f] == 0
        invariant
            f <= first_nonzero(d@),
            first_nonzero(d@) <= d@.len(),
            forall|k: int| 0 <= k < first_nonzero(d@) ==> d@[k] == 0,
            first_nonzero(d@) < d@.len() ==> d@[first_nonzero(d@)] != 0,
        decreases d@.len() - f,
    {
        f = f + 1;
    }
    f
}

fn end_nonzero_exec(d: &Vec<u8>) -> (l: usize)
    ensures
        l == end_nonzero(d@),
{
    proof {
        lemma_end_nonzero(d@);
    }
    let mut l: usize = d.len();
    while l > 0 && d[l - 1] == 0
        invariant
            end_nonzero(d@) <= l <= d@.len(),
            forall|k: int| end_nonzero(d@) <= k < d@.len() ==> d@[k] == 0,
            end_nonzero(d@) > 0 ==> d@[end_nonzero(d@) - 1] != 0,
        decreases l,
    {
        l = l - 1;
    }
    l
}

/// The clamp applied to exponents while reading them: far beyond any
/// exponent that keeps a number in range.
pub open spec fn exp_clamp() -> int {
    0x1_0000_0000_0000_0000_0000
}

fn sub_vec(d: &Vec<u8>, f: usize, l: usize) -> (r: Vec<u8>)
    requires
        f <= l <= d@.len(),
    ensures
        r@ == d@.subrange(f as int, l as int),
{
    let mut r: Vec<u8> = Vec::new();
    let mut i: usize = f;
    while i < l
        invariant
            f <= i <= l <= d@.len(),
            r@ == d@.subrange(f as int, i as int),
        decreases l - i,
    {
        r.push(d[i]);
        assert(d@.subrange(f as int, i + 1) =~= d@.subrange(f as int, i as int).push(d@[i as int]));
        i = i + 1;
    }
    r
}

impl Number {
    #[verifier::type_invariant]
    pub open spec fn normal(&self) -> bool {
        num_wf(self@) && in_f64_range(self@)
    }

    /// Whether two numbers are equal.
    pub fn same(&self, other: &Number) -> (r: bool)
        ensures
            r == (self@ == other@),
    {
        if self.neg != other.neg || self.exp != other.exp || self.digits.len()
            != other.digits.len() {
            return false;
        }
        let mut i: usize = 0;
        while i < self.digits.len()
            invariant
                i <= self.digits@.len(),
                self.digits@.len() == other.digits@.len(),
                forall|k: int| 0 <= k < i ==> self.digits@[k] == other.digits@[k],
            decreases self.digits@.len() - i,
        {
            if self.digits[i] != other.digits[i] {
                return false;
            }
            i = i + 1;
        }
        assert(self.digits@ =~= other.digits@);
        true
    }

    /// A copy of this number.
    pub fn duplicate(&self) -> (r: Number)
        ensures
            r@ == self@,
    {
        proof {
            use_type_invariant(self);
        }
        let mut digits: Vec<u8> = Vec::new();
        let mut i: usize = 0;
        while i < self.digits.len()
            invariant
                i <= self.digits@.len(),
                digits@ == self.digits@.take(i as int),
            decreases self.digits@.len() - i,
        {
            digits.push(self.digits[i]);
            assert(digits@ =~= self.digits@.take(i + 1));
            i = i + 1;
        }
        assert(digits@ =~= self.digits@);
        Number { neg: self.neg, digits, exp: self.exp }
    }

    pub fn zero() -> (r: Number)
        ensures
            r@ == num_zero(),
    {
        let v: Vec<u8> = Vec::new();
        let r = Number { neg: false, digits: v, exp: 0 };
        assert(r@ =~= num_zero());
        r
    }

    /// The number `±0.d × 10^point × 10^e` (`None` where `f64` parsing
    /// gives infinity), given `e` clamped to the reading range.
    pub fn from_decimal(neg: bool, d: &Vec<u8>, point: usize, e: i128, Ghost(exact): Ghost<int>) -> (r:
        Option<Number>)
        requires
            forall|i: int| 0 <= i < d@.len() ==> #[trigger] d@[i] <= 9,
            -exp_clamp() <= e <= exp_clamp(),
            e == exact || (e == exp_clamp() && exact >= exp_clamp()) || (e == -exp_clamp()
                && exact <= -exp_clamp()),
        ensures
            match r {
                Some(n) => decimal_value(neg, d@, point as int, exact) == Some(n@),
                None => decimal_value(neg, d@, point as int, exact) is None,
            },
    {
        proof {
            lemma_first_nonzero(d@);
            lemma_end_nonzero(d@);
            lemma_bounds_nonzero();
        }
        let f = first_nonzero_exec(d);
        let l = end_nonzero_exec(d);
        if f >= l {
            return Some(Number::zero());
        }
        let digits = sub_vec(d, f, l);
        let exp: i128 = point as i128 - f as i128 + e;
        let ghost c = NumView { neg, digits: digits@, exp: point - f + exact };
        let tb = literal_digits_exec("179769313486231580793728971405303415079934132710037826936173778980444968292764750946649017977587207096330286416692887910946555547851940402630657488671505820681908902000708383676273854845817711531764475730270069855571366959622842914819860834936475292719074168444365510704342711559699508093042880177904174497792");
        // c < overflow bound?
        let below_overflow = if exp != 309 {
            exp < 309
        } else {
            slice_lt(digits.as_slice(), tb.as_slice())
        };
        assert(below_overflow == abs_lt(c, overflow_bound()));
        if !below_overflow {
            return None;
        }
        let ub = literal_digits_exec("24703282292062327208828439643411068618252990130716238221279284125033775363510437593264991818081799618989828234772285886546332835517796989819938739800539093906315035659515570226392290858392449105184435931802849936536152500319370457678249219365623669863658480757001585769269903706311928279558551332927834338409351978015531246597263579574622766465272827220056374006485499977096599470454020828166226237857393450736339007967761930577506740176324673600968951340535537458516661134223766678604162159680461914467291840300530057530849048765391711386591646239524912623653881879636239373280423891018672348497668235089863388587925628302755995657524455507255189313690836254779186948667994968324049705821028513185451396213837722826145437693412532098591327667236328125");
        let above_underflow = if exp != -323 {
            -323 < exp
        } else {
            slice_lt(ub.as_slice(), digits.as_slice())
        };
        assert(above_underflow == abs_lt(underflow_bound(), c));
        if !above_underflow {
            return Some(Number::zero());
        }
        assert(exp == point - f + exact);
        let r = Number { neg, digits, exp: exp as i64 };
        assert(r@ =~= c);
        Some(r)
    }
}

} // verus!

verus! {

/// The decimal digits of `n`, most significant first.
pub open spec fn int_digits(n: nat) -> Seq<u8>
    decreases n,
{
    if n < 10 {
        seq![n as u8]
    } else {
        int_digits(n / 10).push((n % 10) as u8)
    }
}

pub open spec fn pow10(k: nat) -> nat
    decreases k,
{
    if k == 0 {
        1
    } else {
        10 * pow10((k - 1) as nat)
    }
}

proof fn lemma_int_digits(n: nat, k: nat)
    requires
        k >= 1,
        n < pow10(k),
    ensures
        forall|i: int| 0 <= i < int_digits(n).len() ==> #[trigger] int_digits(n)[i] <= 9,
        1 <= int_digits(n).len() <= k,
    decreases n,
{
    if n >= 10 {
        if k == 1 {
            assert(pow10(1) == 10) by {
                reveal_with_fuel(pow10, 2);
            }
        }
        lemma_int_digits(n / 10, (k - 1) as nat);
    }
}

fn int_digits_exec(n: u64) -> (v: Vec<u8>)
    ensures
        v@ == int_digits(n as nat),
    decreases n,
{
    if n < 10 {
        let mut v = Vec::new();
        v.push(n as u8);
        v
    } else {
        let mut v = int_digits_exec(n / 10);
        v.push((n % 10) as u8);
        v
    }
}

/// A text of decimal digits only.
pub open spec fn all_digits(s: Seq<char>) -> bool {
    forall|i: int| 0 <= i < s.len() ==> '0' <= #[trigger] s[i] <= '9'
}

pub open spec fn digit_vals(s: Seq<char>) -> Seq<u8> {
    s.map_values(|c: char| digit_val(c))
}

/// The value of a digit text.
pub open spec fn dec_value(s: Seq<char>) -> nat
    decreases s.len(),
{
    if s.len() == 0 {
        0
    } else {
        dec_value(s.drop_last()) * 10 + digit_val(s.last()) as nat
    }
}

/// The index of the first `c` in `s`, or its length.
pub open spec fn find_char(s: Seq<char>, c: char) -> int
    decreases s.len(),
{
    if s.len() == 0 {
        0
    } else if s[0] == c {
        0
    } else {
        1 + find_char(s.drop_first(), c)
    }
}

proof fn lemma_find_char(s: Seq<char>, c: char)
    ensures
        0 <= find_char(s, c) <= s.len(),
        forall|k: int| 0 <= k < find_char(s, c) ==> s[k] != c,
        find_char(s, c) < s.len() ==> s[find_char(s, c)] == c,
    decreases s.len(),
{
    if s.len() > 0 && s[0] != c {
        lemma_find_char(s.drop_first(), c);
        assert forall|k: int| 0 <= k < find_char(s, c) implies s[k] != c by {
            if k > 0 {
                assert(s[k] == s.drop_first()[k - 1]);
            }
        }
    }
}

pub(crate) proof fn lemma_find_char_unique(s: Seq<char>, c: char, i: int)
    requires
        0 <= i <= s.len(),
        forall|k: int| 0 <= k < i ==> s[k] != c,
        i < s.len() ==> s[i] == c,
    ensures
        find_char(s, c) == i,
{
    lemma_find_char(s, c);
}

/// `c` is missing from `s` exactly when the search for it runs off the end.
pub proof fn lemma_find_char_contains(s: Seq<char>, c: char)
    ensures
        (find_char(s, c) == s.len()) == !s.contains(c),
{
    lemma_find_char(s, c);
    if find_char(s, c) < s.len() {
        assert(s[find_char(s, c)] == c);
    }
}

pub fn find_char_exec(s: &[char], c: char) -> (i: usize)
    ensures
        i == find_char(s@, c),
{
    let mut i: usize = 0;
    while i < s.len() && s[i] != c
        invariant
            i <= s@.len(),
            forall|k: int| 0 <= k < i ==> s@[k] != c,
        decreases s@.len() - i,
    {
        i = i + 1;
    }
    proof {
        lemma_find_char_unique(s@, c, i as int);
    }
    i
}

/// The index of the first `e` or `E`.
pub open spec fn find_exp(s: Seq<char>) -> int {
    let a = find_char(s, 'e');
    let b = find_char(s, 'E');
    if a < b {
        a
    } else {
        b
    }
}

/// The integer and fraction digits of a mantissa: digits, an optional
/// point, digits, with at least one digit overall.
pub open spec fn mantissa_parts(m: Seq<char>) -> Option<(Seq<char>, Seq<char>)> {
    let dot = find_char(m, '.');
    let whole = m.take(dot);
    let frac = if dot < m.len() {
        m.skip(dot + 1)
    } else {
        Seq::empty()
    };
    if all_digits(whole) && all_digits(frac) && whole.len() + frac.len() > 0 {
        Some((whole, frac))
    } else {
        None
    }
}

/// The exponent written after the mantissa: nothing, or `e`/`E`, an
/// optional sign and at least one digit.
pub open spec fn exponent_part(x: Seq<char>) -> Option<int> {
    if x.len() == 0 {
        Some(0)
    } else {
        let y = x.drop_first();
        let eneg = y.len() > 0 && y[0] == '-';
        let ds = if y.len() > 0 && (y[0] == '+' || y[0] == '-') {
            y.drop_first()
        } else {
            y
        };
        if ds.len() > 0 && all_digits(ds) {
            Some(
                if eneg {
                    -(dec_value(ds) as int)
                } else {
                    dec_value(ds) as int
                },
            )
        } else {
            None
        }
    }
}

/// What `str::parse::<f64>` gives for `s`, when it gives a finite value:
/// an optional sign, a decimal mantissa and an optional exponent. Anything
/// else (including `inf` and `NaN`) gives no finite number.
pub open spec fn float_text_value(s: Seq<char>) -> Option<NumView> {
    let neg = s.len() > 0 && s[0] == '-';
    let body = if s.len() > 0 && (s[0] == '+' || s[0] == '-') {
        s.drop_first()
    } else {
        s
    };
    let ep = find_exp(body);
    match (mantissa_parts(body.take(ep)), exponent_part(body.skip(ep))) {
        (Some((whole, frac)), Some(e)) => decimal_value(
            neg,
            digit_vals(whole + frac),
            whole.len() as int,
            e,
        ),
        _ => None,
    }
}

pub open spec fn abs_int(x: int) -> nat {
    if x < 0 {
        (-x) as nat
    } else {
        x as nat
    }
}

impl Number {
    /// The number `x`.
    pub fn from_int(x: i64) -> (r: Number)
        ensures
            decimal_value(
                x < 0,
                int_digits(abs_int(x as int)),
                int_digits(abs_int(x as int)).len() as int,
                0,
            ) == Some(r@),
    {
        let mag: u64 = if x < 0 {
            if x == i64::MIN {
                0x8000_0000_0000_0000u64
            } else {
                (-x) as u64
            }
        } else {
            x as u64
        };
        let d = int_digits_exec(mag);
        proof {
            assert(pow10(20) == 100000000000000000000nat) by {
                reveal_with_fuel(pow10, 21);
            }
            lemma_int_digits(mag as nat, 20);
            lemma_first_nonzero(d@);
            lemma_end_nonzero(d@);
            lemma_bounds_nonzero();
        }
        match Number::from_decimal(x < 0, &d, d.len(), 0, Ghost(0)) {
            Some(n) => n,
            None => {
                assert(false);
                Number::zero()
            },
        }
    }

    /// Whether `self < other`.
    pub fn lt(&self, other: &Number) -> (r: bool)
        ensures
            r == num_lt(self@, other@),
    {
        if self.neg && !other.neg {
            true
        } else if !self.neg && other.neg {
            false
        } else if !self.neg {
            abs_less(self, other)
        } else {
            abs_less(other, self)
        }
    }

    /// The number in plain positional notation.
    pub fn to_text(&self) -> (r: String)
        ensures
            r@ == num_text(self@),
    {
        proof {
            use_type_invariant(self);
        }
        let mut out: Vec<char> = Vec::new();
        let len = self.digits.len();
        if len == 0 {
            out.push('0');
            let r = string_from_chars(out.as_slice());
            assert(out@ =~= num_text(self@));
            return r;
        }
        if self.neg {
            out.push('-');
        }
        let ghost sign = out@;
        let ghost d = digit_chars(self.digits@);
        if self.exp as i128 >= len as i128 {
            push_digits(&mut out, &self.digits, 0, len);
            assert(d.subrange(0, len as int) =~= d);
            assert(zeros(0) =~= Seq::<char>::empty());
            assert(out@ =~= sign + d + zeros(0));
            let mut k: i128 = len as i128;
            while k < self.exp as i128
                invariant
                    len <= k <= self.exp,
                    out@ == sign + d + zeros((k - len) as nat),
                    d.len() == len,
                decreases self.exp - k,
            {
                out.push('0');
                assert(zeros((k + 1 - len) as nat) =~= zeros((k - len) as nat).push('0'));
                k = k + 1;
            }
        } else if self.exp <= 0 {
            out.push('0');
            out.push('.');
            let mut k: i128 = 0;
            assert(zeros(0) =~= Seq::<char>::empty());
            while k < -(self.exp as i128)
                invariant
                    0 <= k <= -self.exp,
                    self.exp <= 0,
                    out@ == sign + seq!['0', '.'] + zeros(k as nat),
                decreases -self.exp - k,
            {
                out.push('0');
                assert(zeros((k + 1) as nat) =~= zeros(k as nat).push('0'));
                k = k + 1;
            }
            push_digits(&mut out, &self.digits, 0, len);
            assert(d.take(len as int) =~= d);
        } else {
            let e = self.exp as usize;
            push_digits(&mut out, &self.digits, 0, e);
            out.push('.');
            push_digits(&mut out, &self.digits, e, len);
            assert(d.subrange(e as int, len as int) =~= d.skip(e as int));
        }
        proof {
            assert(out@ =~= num_text(self@));
        }
        string_from_chars(out.as_slice())
    }
}

fn push_digits(out: &mut Vec<char>, d: &Vec<u8>, from: usize, to: usize)
    requires
        from <= to <= d@.len(),
        forall|i: int| 0 <= i < d@.len() ==> #[trigger] d@[i] <= 9,
    ensures
        final(out)@ == old(out)@ + digit_chars(d@).subrange(from as int, to as int),
{
    let mut i = from;
    while i < to
        invariant
            from <= i <= to <= d@.len(),
            forall|j: int| 0 <= j < d@.len() ==> #[trigger] d@[j] <= 9,
            out@ == old(out)@ + digit_chars(d@).subrange(from as int, i as int),
        decreases to - i,
    {
        out.push(((48 + d[i]) as u8) as char);
        assert(digit_chars(d@).subrange(from as int, i + 1) =~= digit_chars(d@).subrange(
            from as int,
            i as int,
        ).push(digit_char(d@[i as int])));
        i = i + 1;
    }
}

fn abs_less(a: &Number, b: &Number) -> (r: bool)
    ensures
        r == abs_lt(a@, b@),
{
    if b.digits.len() == 0 {
        false
    } else if a.digits.len() == 0 {
        true
    } else if a.exp != b.exp {
        a.exp < b.exp
    } else {
        slice_lt(a.digits.as_slice(), b.digits.as_slice())
    }
}

} // verus!

verus! {

pub fn all_digits_exec(s: &[char]) -> (r: bool)
    ensures
        r == all_digits(s@),
{
    let mut i: usize = 0;
    while i < s.len()
        invariant
            i <= s@.len(),
            forall|k: int| 0 <= k < i ==> '0' <= #[trigger] s@[k] <= '9',
        decreases s@.len() - i,
    {
        if !('0' <= s[i] && s[i] <= '9') {
            return false;
        }
        i = i + 1;
    }
    true
}

proof fn lemma_dec_value_grows(s: Seq<char>, c: char)
    ensures
        dec_value(s.push(c)) >= dec_value(s),
        dec_value(s.push(c)) == dec_value(s) * 10 + digit_val(c) as nat,
{
    assert(s.push(c).drop_last() =~= s);
}

/// The value of a digit text, clamped to the reading range.
pub fn dec_value_clamped(s: &[char]) -> (v: i128)
    ensures
        v == if dec_value(s@) < exp_clamp() {
            dec_value(s@) as int
        } else {
            exp_clamp()
        },
{
    let clamp: i128 = 0x1_0000_0000_0000_0000_0000;
    let mut v: i128 = 0;
    let mut i: usize = 0;
    while i < s.len()
        invariant
            i <= s@.len(),
            clamp == exp_clamp(),
            v == if dec_value(s@.take(i as int)) < exp_clamp() {
                dec_value(s@.take(i as int)) as int
            } else {
                exp_clamp()
            },
        decreases s@.len() - i,
    {
        let c = s[i];
        let d: i128 = if (c as u32) >= 48 { ((c as u32) - 48) as u8 as i128 } else { 0 };
        proof {
            assert(s@.take(i + 1) =~= s@.take(i as int).push(c));
            lemma_dec_value_grows(s@.take(i as int), c);
        }
        if v >= clamp {
            v = clamp;
        } else if v > (clamp - d) / 10 {
            v = clamp;
        } else {
            v = v * 10 + d;
            if v > clamp {
                v = clamp;
            }
        }
        i = i + 1;
    }
    assert(s@.take(i as int) =~= s@);
    v
}

fn digit_vals_exec(s: &[char]) -> (v: Vec<u8>)
    requires
        all_digits(s@),
    ensures
        v@ == digit_vals(s@),
        forall|i: int| 0 <= i < v@.len() ==> #[trigger] v@[i] <= 9,
{
    let mut v: Vec<u8> = Vec::new();
    let mut i: usize = 0;
    while i < s.len()
        invariant
            i <= s@.len(),
            all_digits(s@),
            v@ == digit_vals(s@.take(i as int)),
            forall|j: int| 0 <= j < v@.len() ==> #[trigger] v@[j] <= 9,
        decreases s@.len() - i,
    {
        let c = s[i];
        assert('0' <= s@[i as int] <= '9');
        v.push(((c as u32) - 48) as u8);
        assert(digit_vals(s@.take(i + 1)) =~= digit_vals(s@.take(i as int)).push(digit_val(c)));
        i = i + 1;
    }
    assert(s@.take(i as int) =~= s@);
    v
}

/// `v` stands for `e` after clamping to the reading range.
pub open spec fn clamped(v: int, e: int) -> bool {
    &&& -exp_clamp() <= v <= exp_clamp()
    &&& v == e || (v == exp_clamp() && e >= exp_clamp()) || (v == -exp_clamp() && e <= -exp_clamp())
}

fn concat_chars(a: &[char], b: &[char]) -> (r: Vec<char>)
    ensures
        r@ == a@ + b@,
{
    let mut all: Vec<char> = Vec::new();
    let mut i: usize = 0;
    while i < a.len()
        invariant
            i <= a@.len(),
            all@ == a@.take(i as int),
        decreases a@.len() - i,
    {
        all.push(a[i]);
        assert(a@.take(i + 1) =~= a@.take(i as int).push(a@[i as int]));
        i = i + 1;
    }
    assert(a@.take(i as int) =~= a@);
    let mut j: usize = 0;
    while j < b.len()
        invariant
            j <= b@.len(),
            all@ == a@ + b@.take(j as int),
        decreases b@.len() - j,
    {
        all.push(b[j]);
        assert(b@.take(j + 1) =~= b@.take(j as int).push(b@[j as int]));
        j = j + 1;
    }
    assert(b@.take(j as int) =~= b@);
    all
}

/// The digit values of a mantissa and the position of its point.
fn read_mantissa(m: &[char]) -> (r: Option<(Vec<u8>, usize)>)
    ensures
        match mantissa_parts(m@) {
            Some((whole, frac)) => r matches Some((d, p)) && d@ == digit_vals(whole + frac) && p
                == whole.len() && (forall|i: int| 0 <= i < d@.len() ==> #[trigger] d@[i] <= 9),
            None => r is None,
        },
{
    let dot = find_char_exec(m, '.');
    proof {
        lemma_find_char(m@, '.');
    }
    let whole = vstd::slice::slice_subrange(m, 0, dot);
    assert(whole@ =~= m@.take(dot as int));
    let frac: &[char] = if dot < m.len() {
        vstd::slice::slice_subrange(m, dot + 1, m.len())
    } else {
        vstd::slice::slice_subrange(m, 0, 0)
    };
    assert(dot < m@.len() ==> frac@ =~= m@.skip(dot + 1));
    assert(dot >= m@.len() ==> frac@ =~= Seq::<char>::empty());
    if !(all_digits_exec(whole) && all_digits_exec(frac) && whole.len() + frac.len() > 0) {
        return None;
    }
    let all = concat_chars(whole, frac);
    assert(all_digits(all@)) by {
        assert forall|k: int| 0 <= k < all@.len() implies '0' <= #[trigger] all@[k] <= '9' by {
            if k < whole@.len() {
                assert(all@[k] == whole@[k]);
            } else {
                assert(all@[k] == frac@[k - whole@.len()]);
            }
        }
    }
    let d = digit_vals_exec(all.as_slice());
    Some((d, whole.len()))
}

/// The exponent after a mantissa, clamped to the reading range.
fn read_exponent(x: &[char]) -> (r: Option<i128>)
    ensures
        match exponent_part(x@) {
            Some(e) => r matches Some(v) && clamped(v as int, e),
            None => r is None,
        },
{
    if x.len() == 0 {
        return Some(0);
    }
    let y = vstd::slice::slice_subrange(x, 1, x.len());
    assert(y@ =~= x@.drop_first());
    let eneg = y.len() > 0 && y[0] == '-';
    let ds: &[char] = if y.len() > 0 && (y[0] == '+' || y[0] == '-') {
        vstd::slice::slice_subrange(y, 1, y.len())
    } else {
        y
    };
    assert(y.len() > 0 && (y@[0] == '+' || y@[0] == '-') ==> ds@ =~= y@.drop_first());
    if !(ds.len() > 0 && all_digits_exec(ds)) {
        return None;
    }
    let v = dec_value_clamped(ds);
    Some(if eneg { -v } else { v })
}

/// `str::parse::<f64>` restricted to finite results, as a number.
pub fn parse_float_text(s: &[char]) -> (r: Option<Number>)
    ensures
        match r {
            Some(n) => float_text_value(s@) == Some(n@),
            None => float_text_value(s@) is None,
        },
{
    let neg = s.len() > 0 && s[0] == '-';
    let body: &[char] = if s.len() > 0 && (s[0] == '+' || s[0] == '-') {
        vstd::slice::slice_subrange(s, 1, s.len())
    } else {
        s
    };
    assert(s.len() > 0 && (s@[0] == '+' || s@[0] == '-') ==> body@ =~= s@.drop_first());
    let a = find_char_exec(body, 'e');
    let b = find_char_exec(body, 'E');
    let ep = if a < b { a } else { b };
    proof {
        lemma_find_char(body@, 'e');
        lemma_find_char(body@, 'E');
    }
    let m = vstd::slice::slice_subrange(body, 0, ep);
    let x = vstd::slice::slice_subrange(body, ep, body.len());
    assert(m@ =~= body@.take(ep as int));
    assert(x@ =~= body@.skip(ep as int));
    match read_mantissa(m) {
        None => None,
        Some((d, point)) => match read_exponent(x) {
            None => None,
            Some(e) => {
                let ghost exact = exponent_part(x@).unwrap();
                Number::from_decimal(neg, &d, point, e, Ghost(exact))
            },
        },
    }
}

/// The value of a digit string, most significant digit first.
pub open spec fn digits_value(d: Seq<u8>) -> nat
    decreases d.len(),
{
    if d.len() == 0 {
        0
    } else {
        digits_value(d.drop_last()) * 10 + d.last() as nat
    }
}

/// The magnitude of `n` cut off below the `k`-th decimal place, counted in
/// units of 10^-k: the digits down to that place, and zeros where the
/// number has no more digits.
pub open spec fn truncated_units(n: NumView, k: int) -> nat {
    let t = n.exp + k;
    if t <= 0 {
        0
    } else if t >= n.digits.len() {
        digits_value(n.digits) * pow10((t - n.digits.len()) as nat)
    } else {
        digits_value(n.digits.take(t))
    }
}

proof fn lemma_digits_value_prefix(d: Seq<u8>, i: int, j: int)
    requires
        0 <= i <= j <= d.len(),
    ensures
        digits_value(d.take(i)) <= digits_value(d.take(j)),
    decreases j - i,
{
    if i < j {
        lemma_digits_value_prefix(d, i, j - 1);
        assert(d.take(j).drop_last() =~= d.take(j - 1));
    }
}

proof fn lemma_pow10_positive(a: nat)
    ensures
        pow10(a) >= 1,
    decreases a,
{
    if a > 0 {
        lemma_pow10_positive((a - 1) as nat);
    }
}

proof fn lemma_pow10_mono(a: nat, b: nat)
    requires
        a <= b,
    ensures
        1 <= pow10(a) <= pow10(b),
    decreases b - a,
{
    lemma_pow10_positive(a);
    if a < b {
        lemma_pow10_mono(a, (b - 1) as nat);
    }
}

impl Number {
    /// Whether the number is below zero.
    pub fn is_negative(&self) -> (r: bool)
        ensures
            r == self@.neg,
    {
        self.neg
    }

    /// Whether the number is a whole number.
    pub fn is_integral(&self) -> (r: bool)
        ensures
            r == (self@.digits.len() <= self@.exp),
    {
        (self.digits.len() as i128) <= (self.exp as i128)
    }

    /// The magnitude cut off below the `k`-th decimal place, in units of
    /// 10^-k; `None` when that count does not fit in a `u128`.
    pub fn truncated_units(&self, k: u32) -> (r: Option<u128>)
        ensures
            match r {
                Some(v) => v == truncated_units(self@, k as int),
                None => truncated_units(self@, k as int) > u128::MAX,
            },
    {
        let t: i128 = self.exp as i128 + k as i128;
        if t <= 0 {
            return Some(0);
        }
        let len = self.digits.len();
        let take: usize = if t >= len as i128 {
            len
        } else {
            t as usize
        };
        let ghost d = self.digits@;
        let mut acc: u128 = 0;
        let mut i: usize = 0;
        assert(d.take(0) =~= Seq::<u8>::empty());
        while i < take
            invariant
                d == self.digits@,
                d.len() == len,
                t == self@.exp + k,
                t > 0,
                take == if t >= len {
                    len as int
                } else {
                    t as int
                },
                take <= d.len(),
                i <= take,
                acc == digits_value(d.take(i as int)),
            decreases take - i,
        {
            assert(d.take(i + 1).drop_last() =~= d.take(i as int));
            assert(d.take(i + 1).last() == d[i as int]);
            let digit = self.digits[i] as u128;
            match acc.checked_mul(10) {
                Some(m) => match m.checked_add(digit) {
                    Some(x) => {
                        acc = x;
                    },
                    None => {
                        proof {
                            lemma_digits_value_prefix(d, i + 1, take as int);
                            lemma_overflow_scaled(self@, k as int, take as int);
                        }
                        return None;
                    },
                },
                None => {
                    proof {
                        lemma_digits_value_prefix(d, i + 1, take as int);
                        lemma_overflow_scaled(self@, k as int, take as int);
                    }
                    return None;
                },
            }
            i = i + 1;
        }
        if t > len as i128 {
            let zeros: i128 = t - len as i128;
            assert(d.take(len as int) =~= d);
            let ghost base = digits_value(d);
            assert(i == take && take == len);
            assert(acc == base);
            assert(pow10(0) == 1);
            assert(base * pow10(0) == base);
            let mut j: i128 = 0;
            while j < zeros
                invariant
                    0 <= j <= zeros,
                    zeros == t - len,
                    base == digits_value(self@.digits),
                    t == self@.exp + k,
                    len == self@.digits.len(),
                    acc == base * pow10(j as nat),
                decreases zeros - j,
            {
                match acc.checked_mul(10) {
                    Some(m) => {
                        proof {
                            assert(pow10((j + 1) as nat) == 10 * pow10(j as nat));
                            assert(base * (10 * pow10(j as nat)) == (base * pow10(j as nat)) * 10)
                                by (nonlinear_arith);
                        }
                        acc = m;
                    },
                    None => {
                        proof {
                            lemma_pow10_mono((j + 1) as nat, zeros as nat);
                            assert(pow10((j + 1) as nat) == 10 * pow10(j as nat));
                            assert(base * pow10((j + 1) as nat) <= base * pow10(zeros as nat))
                                by (nonlinear_arith)
                                requires
                                    pow10((j + 1) as nat) <= pow10(zeros as nat),
                            ;
                            assert(base * (10 * pow10(j as nat)) == (base * pow10(j as nat)) * 10)
                                by (nonlinear_arith);
                        }
                        return None;
                    },
                }
                j = j + 1;
            }
            Some(acc)
        } else {
            proof {
                if t == len {
                    assert(d.take(len as int) =~= d);
                    assert(pow10(0) == 1);
                }
            }
            Some(acc)
        }
    }
}

/// When the kept digits alone exceed `u128`, so does the truncated count.
proof fn lemma_overflow_scaled(n: NumView, k: int, take: int)
    requires
        n.exp + k > 0,
        take == if n.exp + k >= n.digits.len() {
            n.digits.len() as int
        } else {
            n.exp + k
        },
        digits_value(n.digits.take(take)) > u128::MAX,
    ensures
        truncated_units(n, k) > u128::MAX,
{
    let t = n.exp + k;
    if t >= n.digits.len() {
        assert(n.digits.take(take) =~= n.digits);
        let z = (t - n.digits.len()) as nat;
        lemma_pow10_positive(z);
        let dv = digits_value(n.digits);
        assert(dv * pow10(z) >= dv) by (nonlinear_arith)
            requires
                pow10(z) >= 1,
        ;
    }
}

fn int_digits_u128(n: u128) -> (v: Vec<u8>)
    ensures
        v@ == int_digits(n as nat),
    decreases n,
{
    if n < 10 {
        let mut v = Vec::new();
        v.push(n as u8);
        v
    } else {
        let mut v = int_digits_u128(n / 10);
        v.push((n % 10) as u8);
        v
    }
}

/// A count of units of 10^-k written as a decimal number.
pub open spec fn units_text(u: nat, k: nat) -> Seq<char> {
    match decimal_value(false, int_digits(u), 0, int_digits(u).len() - k) {
        Some(n) => num_text(n),
        None => Seq::empty(),
    }
}

/// `u` units of 10^-k, in plain positional notation.
pub fn units_to_text(u: u128, k: u32) -> (r: String)
    ensures
        r@ == units_text(u as nat, k as nat),
{
    let d = int_digits_u128(u);
    proof {
        assert(pow10(40) == 10000000000000000000000000000000000000000nat) by {
            reveal_with_fuel(pow10, 41);
        }
        lemma_int_digits(u as nat, 40);
    }
    let e: i128 = d.len() as i128 - k as i128;
    match Number::from_decimal(false, &d, 0, e, Ghost(e as int)) {
        Some(n) => n.to_text(),
        None => String::new(),
    }
}

/// The normal form of a whole number.
pub open spec fn count_num(n: nat) -> NumView {
    decimal_value(false, int_digits(n), int_digits(n).len() as int, 0)->Some_0
}

impl Number {
    /// The whole number `x`.
    pub fn from_u64(x: u64) -> (r: Number)
        ensures
            r@ == count_num(x as nat),
            decimal_value(false, int_digits(x as nat), int_digits(x as nat).len() as int, 0) is Some,
    {
        let d = int_digits_exec(x);
        proof {
            assert(pow10(20) == 100000000000000000000nat) by {
                reveal_with_fuel(pow10, 21);
            }
            lemma_int_digits(x as nat, 20);
        }
        match Number::from_decimal(false, &d, d.len(), 0, Ghost(0)) {
            Some(n) => n,
            None => {
                proof {
                    lemma_first_nonzero(d@);
                    lemma_end_nonzero(d@);
                    lemma_bounds_nonzero();
                }
                assert(false);
                Number::zero()
            },
        }
    }
}

} // verus!
