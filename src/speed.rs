use vstd::prelude::*;
use vstd::string::*;
use vstd::arithmetic::div_mod::lemma_fundamental_div_mod;

verus! {

/// A non-negative speed held as an exact decimal: `mantissa / 10^scale`.
///
/// Speeds are read from decimal text, with or without an exponent, and
/// written as plain decimal text; a negative number is not a speed.
#[derive(Clone, Copy, Debug, PartialEq, Eq, Structural)]
pub struct Speed {
    pub mantissa: u64,
    pub scale: u32,
}

pub open spec fn pow10(n: nat) -> nat
    decreases n,
{
    if n == 0 {
        1
    } else {
        10 * pow10((n - 1) as nat)
    }
}

pub open spec fn is_digit(c: char) -> bool {
    '0' <= c && c <= '9'
}

pub open spec fn digit_value(c: char) -> nat {
    (c as u32 - '0' as u32) as nat
}

pub open spec fn digit_char(d: nat) -> char {
    if d == 0 {
        '0'
    } else if d == 1 {
        '1'
    } else if d == 2 {
        '2'
    } else if d == 3 {
        '3'
    } else if d == 4 {
        '4'
    } else if d == 5 {
        '5'
    } else if d == 6 {
        '6'
    } else if d == 7 {
        '7'
    } else if d == 8 {
        '8'
    } else {
        '9'
    }
}

/// The decimal digits of `n`, most significant first, without leading zeros.
pub open spec fn digits(n: nat) -> Seq<char>
    decreases n,
{
    if n < 10 {
        seq![digit_char(n)]
    } else {
        digits(n / 10).push(digit_char(n % 10))
    }
}

pub open spec fn zeros(n: nat) -> Seq<char>
    decreases n,
{
    if n == 0 {
        Seq::empty()
    } else {
        zeros((n - 1) as nat).push('0')
    }
}

/// The digits of `n`, with leading zeros up to `width` characters.
pub open spec fn padded(n: nat, width: nat) -> Seq<char> {
    if digits(n).len() >= width {
        digits(n)
    } else {
        zeros((width - digits(n).len()) as nat) + digits(n)
    }
}

impl Speed {
    /// No trailing zero in the fraction, so that equal speeds are equal values.
    pub open spec fn wf(self) -> bool {
        self.scale == 0 || self.mantissa % 10 != 0
    }
}

/// The shortest decimal text of a speed: `250`, `80.5`, `0.05`.
pub open spec fn speed_text(s: Speed) -> Seq<char> {
    if s.scale == 0 {
        digits(s.mantissa as nat)
    } else {
        digits(s.mantissa as nat / pow10(s.scale as nat)) + seq!['.'] + padded(
            s.mantissa as nat % pow10(s.scale as nat),
            s.scale as nat,
        )
    }
}

/// The number of dots in a text.
pub open spec fn count_dots(t: Seq<char>) -> nat
    decreases t.len(),
{
    if t.len() == 0 {
        0
    } else {
        count_dots(t.drop_last()) + if t.last() == '.' {
            1nat
        } else {
            0nat
        }
    }
}

/// The integer that the digits of a text spell, dots left out.
pub open spec fn dec_value(t: Seq<char>) -> nat
    decreases t.len(),
{
    if t.len() == 0 {
        0
    } else if t.last() == '.' {
        dec_value(t.drop_last())
    } else {
        dec_value(t.drop_last()) * 10 + digit_value(t.last())
    }
}

/// The number of digits after the dot (zero when there is none).
pub open spec fn frac_len(t: Seq<char>) -> nat
    decreases t.len(),
{
    if t.len() == 0 || t.last() == '.' {
        0
    } else if count_dots(t.drop_last()) > 0 {
        frac_len(t.drop_last()) + 1
    } else {
        0
    }
}

/// Digits with at most one dot, which stands neither first nor last.
pub open spec fn decimal_text(t: Seq<char>) -> bool {
    &&& t.len() > 0
    &&& t[0] != '.'
    &&& t.last() != '.'
    &&& count_dots(t) <= 1
    &&& forall|i: int| 0 <= i < t.len() ==> is_digit(#[trigger] t[i]) || t[i] == '.'
}

/// Drops trailing zeros of the fraction.
pub open spec fn normalize(m: nat, s: nat) -> (nat, nat)
    decreases s,
{
    if s > 0 && m % 10 == 0 {
        normalize(m / 10, (s - 1) as nat)
    } else {
        (m, s)
    }
}

/// The largest exponent that a speed's text may carry.
pub const MAX_EXPONENT: u64 = 65535;

/// The digits read as one integer and the length of the fraction, when the
/// text is a decimal whose digits fit in 64 bits.
pub open spec fn decimal_parts(d: Seq<char>) -> Option<(nat, nat)> {
    if decimal_text(d) && dec_value(d) <= u64::MAX && frac_len(d) <= u32::MAX {
        Some((dec_value(d), frac_len(d)))
    } else {
        None
    }
}

/// The speed `m / 10^f`, times `10^-x` when `neg`, else times `10^x`, when
/// it can be held.
pub open spec fn scaled(m: nat, f: nat, neg: bool, x: nat) -> Option<Speed> {
    if neg {
        if f + x <= u32::MAX {
            let (a, b) = normalize(m, f + x);
            Some(Speed { mantissa: a as u64, scale: b as u32 })
        } else {
            None
        }
    } else if x <= f {
        let (a, b) = normalize(m, (f - x) as nat);
        Some(Speed { mantissa: a as u64, scale: b as u32 })
    } else if m * pow10((x - f) as nat) <= u64::MAX {
        Some(Speed { mantissa: (m * pow10((x - f) as nat)) as u64, scale: 0 })
    } else {
        None
    }
}

pub open spec fn is_mark(c: char) -> bool {
    c == 'e' || c == 'E'
}

/// `t[k]` is the exponent mark: the first character that is neither a
/// digit nor a dot.
pub open spec fn mark_at(t: Seq<char>, k: int) -> bool {
    &&& 0 <= k < t.len()
    &&& is_mark(t[k])
    &&& forall|j: int| 0 <= j < k ==> is_digit(#[trigger] t[j]) || t[j] == '.'
}

/// The digits of an exponent, after its sign if it has one.
pub open spec fn exp_digits(x: Seq<char>) -> Seq<char> {
    if x.len() > 0 && (x[0] == '+' || x[0] == '-') {
        x.skip(1)
    } else {
        x
    }
}

pub open spec fn all_digits(s: Seq<char>) -> bool {
    s.len() > 0 && forall|i: int| 0 <= i < s.len() ==> is_digit(#[trigger] s[i])
}

/// The speed that a text denotes: a decimal (`250`, `80.5`), optionally
/// followed by `e` or `E`, a sign and an exponent of at most `MAX_EXPONENT`
/// (`1e16`, `5e-7`); `None` when the decimal's digits, read as one integer,
/// or the speed's own digits exceed 64 bits.
pub open spec fn parse_spec(t: Seq<char>) -> Option<Speed> {
    if exists|k: int| mark_at(t, k) {
        let k = choose|k: int| mark_at(t, k);
        let x = t.skip(k + 1);
        let xd = exp_digits(x);
        match decimal_parts(t.take(k)) {
            Some((m, f)) => if all_digits(xd) && dec_value(xd) <= MAX_EXPONENT {
                scaled(m, f, x[0] == '-', dec_value(xd))
            } else {
                None
            },
            None => None,
        }
    } else {
        match decimal_parts(t) {
            Some((m, f)) => scaled(m, f, false, 0),
            None => None,
        }
    }
}

proof fn lemma_pow10_add(a: nat, b: nat)
    ensures
        pow10(a + b) == pow10(a) * pow10(b),
    decreases b,
{
    if b == 0 {
        assert(pow10(0) == 1);
        assert(a + b == a);
    } else {
        lemma_pow10_add(a, (b - 1) as nat);
        assert((a + b - 1) as nat == a + (b - 1) as nat);
        assert(pow10(a + b) == 10 * pow10((a + b - 1) as nat));
        assert(pow10(b) == 10 * pow10((b - 1) as nat));
        assert(pow10(a) * (10 * pow10((b - 1) as nat)) == 10 * (pow10(a) * pow10((b - 1) as nat)))
            by (nonlinear_arith);
    }
}

proof fn lemma_normalize(m: nat, s: nat)
    ensures
        normalize(m, s).0 <= m,
        normalize(m, s).1 <= s,
        normalize(m, s).1 == 0 || normalize(m, s).0 % 10 != 0,
    decreases s,
{
    if s > 0 && m % 10 == 0 {
        lemma_normalize(m / 10, (s - 1) as nat);
    }
}

proof fn lemma_pow10_positive(n: nat)
    ensures
        pow10(n) >= 1,
    decreases n,
{
    if n > 0 {
        lemma_pow10_positive((n - 1) as nat);
    }
}

proof fn lemma_pow10_mono(a: nat, b: nat)
    requires
        a <= b,
    ensures
        pow10(a) <= pow10(b),
    decreases b,
{
    if a < b {
        lemma_pow10_mono(a, (b - 1) as nat);
        lemma_pow10_positive((b - 1) as nat);
    }
}

proof fn lemma_pow10_19()
    ensures
        pow10(19) == 10000000000000000000nat,
        pow10(20) == 100000000000000000000nat,
{
    reveal_with_fuel(pow10, 21);
}

proof fn lemma_prefix_mono(t: Seq<char>, j: int)
    requires
        0 <= j <= t.len(),
    ensures
        dec_value(t.take(j)) <= dec_value(t),
        count_dots(t.take(j)) <= count_dots(t),
    decreases t.len(),
{
    if j < t.len() {
        assert(t.drop_last().take(j) =~= t.take(j));
        lemma_prefix_mono(t.drop_last(), j);
    } else {
        assert(t.take(j) =~= t);
    }
}

proof fn lemma_concat(a: Seq<char>, b: Seq<char>)
    ensures
        count_dots(a + b) == count_dots(a) + count_dots(b),
        count_dots(b) == 0 ==> dec_value(a + b) == dec_value(a) * pow10(b.len()) + dec_value(b),
        count_dots(b) == 0 ==> frac_len(a + b) == if count_dots(a) > 0 {
            frac_len(a) + b.len()
        } else {
            0
        },
    decreases b.len(),
{
    if b.len() == 0 {
        assert(a + b =~= a);
        assert(pow10(0) == 1);
        assert(pow10(b.len()) == 1);
        assert(dec_value(b) == 0);
        let va = dec_value(a);
        let pb = pow10(b.len());
        assert(va * pb == va) by (nonlinear_arith)
            requires
                pb == 1,
        ;
        assert(dec_value(a + b) == dec_value(a) * pow10(b.len()) + dec_value(b));
        if a.len() > 0 && a.last() == '.' {
            assert(count_dots(a) > 0);
        }
    } else {
        let b1 = b.drop_last();
        assert((a + b).drop_last() =~= a + b1);
        assert((a + b).last() == b.last());
        assert(b1.len() + 1 == b.len());
        assert(pow10(b.len()) == 10 * pow10(b1.len()));
        lemma_concat(a, b1);
        if count_dots(b) == 0 {
            assert(b.last() != '.');
            assert(dec_value(b) == dec_value(b1) * 10 + digit_value(b.last()));
            assert(dec_value(a + b) == dec_value(a + b1) * 10 + digit_value(b.last()));
            let x = dec_value(a);
            let p = pow10(b1.len());
            let y = dec_value(b1);
            assert((x * p + y) * 10 + digit_value(b.last()) == x * (10 * p) + (y * 10 + digit_value(
                b.last(),
            ))) by (nonlinear_arith);
            assert(count_dots(b1) == 0);
            assert(dec_value(a + b1) == x * p + y);
            assert(pow10(b.len()) == 10 * p);
            assert(dec_value(a + b) == x * pow10(b.len()) + dec_value(b));
            if a.len() > 0 && a.last() == '.' && b1.len() == 0 {
                assert(count_dots(a) > 0);
            }
        }
    }
}

proof fn lemma_digit_char(d: nat)
    requires
        d < 10,
    ensures
        is_digit(digit_char(d)),
        digit_value(digit_char(d)) == d,
{
}

proof fn lemma_digits(n: nat)
    ensures
        digits(n).len() > 0,
        count_dots(digits(n)) == 0,
        dec_value(digits(n)) == n,
        forall|i: int| 0 <= i < digits(n).len() ==> is_digit(#[trigger] digits(n)[i]),
    decreases n,
{
    if n < 10 {
        lemma_digit_char(n);
        assert(digits(n).drop_last() =~= Seq::<char>::empty());
        assert(digits(n).last() == digit_char(n));
        assert(count_dots(Seq::<char>::empty()) == 0);
        assert(dec_value(Seq::<char>::empty()) == 0);
    } else {
        lemma_digits(n / 10);
        lemma_digit_char(n % 10);
        assert(digits(n).drop_last() =~= digits(n / 10));
        assert(digits(n).last() == digit_char(n % 10));
    }
}

proof fn lemma_digits_len(n: nat, k: nat)
    requires
        k >= 1,
        n < pow10(k),
    ensures
        digits(n).len() <= k,
    decreases n,
{
    if n >= 10 {
        let p = pow10((k - 1) as nat);
        if k == 1 {
            reveal_with_fuel(pow10, 2);
        }
        assert(n / 10 < p) by (nonlinear_arith)
            requires
                n < 10 * p,
        ;
        lemma_digits_len(n / 10, (k - 1) as nat);
    }
}

proof fn lemma_zeros(k: nat)
    ensures
        zeros(k).len() == k,
        count_dots(zeros(k)) == 0,
        dec_value(zeros(k)) == 0,
        forall|i: int| 0 <= i < k ==> #[trigger] zeros(k)[i] == '0',
    decreases k,
{
    if k > 0 {
        lemma_zeros((k - 1) as nat);
        assert(zeros(k).drop_last() =~= zeros((k - 1) as nat));
    }
}

proof fn lemma_padded(n: nat, w: nat)
    requires
        w >= 1,
        n < pow10(w),
    ensures
        padded(n, w).len() == w,
        count_dots(padded(n, w)) == 0,
        dec_value(padded(n, w)) == n,
        forall|i: int| 0 <= i < w ==> is_digit(#[trigger] padded(n, w)[i]),
{
    lemma_digits(n);
    lemma_digits_len(n, w);
    if digits(n).len() < w {
        let z = zeros((w - digits(n).len()) as nat);
        lemma_zeros((w - digits(n).len()) as nat);
        lemma_concat(z, digits(n));
        assert forall|i: int| 0 <= i < w implies is_digit(#[trigger] padded(n, w)[i]) by {
            if i >= z.len() {
                assert(padded(n, w)[i] == digits(n)[i - z.len()]);
            }
        }
    }
}

proof fn lemma_frac_mono(t: Seq<char>, j: int)
    requires
        0 <= j <= t.len(),
        count_dots(t) <= 1,
    ensures
        frac_len(t.take(j)) <= frac_len(t),
    decreases t.len(),
{
    if j < t.len() {
        assert(t.drop_last().take(j) =~= t.take(j));
        lemma_prefix_mono(t.drop_last(), j);
        lemma_frac_mono(t.drop_last(), j);
        if t.last() == '.' {
            lemma_dots_frac(t.drop_last(), j);
        }
    } else {
        assert(t.take(j) =~= t);
    }
}

/// With no dot, there is no fraction.
proof fn lemma_dots_frac(t: Seq<char>, j: int)
    requires
        0 <= j <= t.len(),
        count_dots(t) == 0,
    ensures
        frac_len(t.take(j)) == 0,
    decreases t.len(),
{
    if j < t.len() {
        assert(t.drop_last().take(j) =~= t.take(j));
        lemma_dots_frac(t.drop_last(), j);
    } else {
        assert(t.take(j) =~= t);
        lemma_no_dot_frac(t);
    }
}

proof fn lemma_no_dot_frac(t: Seq<char>)
    requires
        count_dots(t) == 0,
    ensures
        frac_len(t) == 0,
{
    if t.len() > 0 {
        assert(count_dots(t.drop_last()) == 0);
    }
}

/// The text of a speed has no exponent mark.
proof fn lemma_text_plain(s: Speed)
    ensures
        forall|i: int| 0 <= i < speed_text(s).len() ==> !is_mark(#[trigger] speed_text(s)[i]),
{
    let m = s.mantissa as nat;
    let t = speed_text(s);
    lemma_digits(m);
    if s.scale != 0 {
        let p = pow10(s.scale as nat);
        lemma_pow10_positive(s.scale as nat);
        let a = digits(m / p) + seq!['.'];
        let b = padded(m % p, s.scale as nat);
        lemma_digits(m / p);
        assert(m % p < p) by (nonlinear_arith)
            requires
                p >= 1,
        ;
        lemma_padded(m % p, s.scale as nat);
        assert(t =~= a + b);
        assert forall|i: int| 0 <= i < t.len() implies !is_mark(#[trigger] t[i]) by {
            if i < digits(m / p).len() {
                assert(t[i] == digits(m / p)[i]);
            } else if i > digits(m / p).len() {
                assert(t[i] == b[i - a.len()]);
            }
        }
    } else {
        assert forall|i: int| 0 <= i < t.len() implies !is_mark(#[trigger] t[i]) by {
            assert(is_digit(t[i]));
        }
    }
}

/// Reading the text of a well-formed speed gives the same speed back.
pub proof fn lemma_text_round_trip(s: Speed)
    requires
        s.wf(),
    ensures
        parse_spec(speed_text(s)) == Some(s),
{
    let m = s.mantissa as nat;
    let t = speed_text(s);
    lemma_digits(m);
    lemma_text_plain(s);
    lemma_normalize(m, s.scale as nat);
    if s.scale == 0 {
        assert(t.last() == t[t.len() - 1]);
    } else {
        let p = pow10(s.scale as nat);
        lemma_pow10_positive(s.scale as nat);
        lemma_fundamental_div_mod(m as int, p as int);
        let a = digits(m / p) + seq!['.'];
        let b = padded(m % p, s.scale as nat);
        lemma_digits(m / p);
        lemma_padded(m % p, s.scale as nat);
        assert(seq!['.'].drop_last() =~= Seq::<char>::empty());
        lemma_concat(digits(m / p), seq!['.']);
        lemma_concat(a, b);
        assert(t =~= a + b);
        assert(a.drop_last() =~= digits(m / p));
        assert(a.last() == '.');
        assert(dec_value(a) == m / p);
        assert((m / p) * p + m % p == m) by (nonlinear_arith)
            requires
                m == p * (m / p) + m % p,
        ;
        assert(t[0] == digits(m / p)[0]);
        assert(t.last() == b[b.len() - 1]);
        assert forall|i: int| 0 <= i < t.len() implies is_digit(#[trigger] t[i]) || t[i] == '.' by {
            if i < digits(m / p).len() {
                assert(t[i] == digits(m / p)[i]);
            } else if i > digits(m / p).len() {
                assert(t[i] == b[i - a.len()]);
            }
        }
    }
}


fn digit_str(d: u64) -> (r: &'static str)
    requires
        d < 10,
    ensures
        r@ == seq![digit_char(d as nat)],
{
    proof {
        reveal_strlit("0");
        reveal_strlit("1");
        reveal_strlit("2");
        reveal_strlit("3");
        reveal_strlit("4");
        reveal_strlit("5");
        reveal_strlit("6");
        reveal_strlit("7");
        reveal_strlit("8");
        reveal_strlit("9");
    }
    if d == 0 {
        "0"
    } else if d == 1 {
        "1"
    } else if d == 2 {
        "2"
    } else if d == 3 {
        "3"
    } else if d == 4 {
        "4"
    } else if d == 5 {
        "5"
    } else if d == 6 {
        "6"
    } else if d == 7 {
        "7"
    } else if d == 8 {
        "8"
    } else {
        "9"
    }
}

/// Appends the decimal digits of `n`.
fn push_digits(out: &mut String, n: u64)
    ensures
        final(out)@ == old(out)@ + digits(n as nat),
    decreases n,
{
    if n >= 10 {
        push_digits(out, n / 10);
    }
    out.append(digit_str(n % 10));
    assert(final(out)@ =~= old(out)@ + digits(n as nat));
}

fn digit_count(n: u64) -> (r: u32)
    ensures
        r as nat == digits(n as nat).len(),
    decreases n,
{
    if n < 10 {
        1
    } else {
        proof {
            lemma_pow10_19();
            lemma_digits_len(n as nat, 20);
        }
        digit_count(n / 10) + 1
    }
}

fn pow10_exec(n: u32) -> (r: u64)
    requires
        n <= 19,
    ensures
        r as nat == pow10(n as nat),
{
    let mut r: u64 = 1;
    let mut i: u32 = 0;
    while i < n
        invariant
            i <= n <= 19,
            r as nat == pow10(i as nat),
        decreases n - i,
    {
        proof {
            lemma_pow10_mono((i + 1) as nat, 19);
            lemma_pow10_19();
        }
        r = r * 10;
        i = i + 1;
    }
    r
}

impl Speed {
    /// The shortest decimal text of the speed, with no exponent: `250`, `80.5`.
    pub fn to_text(&self) -> (r: String)
        ensures
            r@ == speed_text(*self),
    {
        let mut r = String::new();
        if self.scale == 0 {
            push_digits(&mut r, self.mantissa);
            return r;
        }
        let m = self.mantissa;
        let whole: u64;
        let frac: u64;
        if self.scale <= 19 {
            let p = pow10_exec(self.scale);
            proof {
                lemma_pow10_positive(self.scale as nat);
            }
            whole = m / p;
            frac = m % p;
        } else {
            proof {
                lemma_pow10_19();
                lemma_pow10_mono(20, self.scale as nat);
                let p = pow10(self.scale as nat);
                assert(m as nat / p == 0 && m as nat % p == m as nat) by (nonlinear_arith)
                    requires
                        (m as nat) < p,
                ;
            }
            whole = 0;
            frac = m;
        }
        push_digits(&mut r, whole);
        proof {
            reveal_strlit(".");
            reveal_strlit("0");
        }
        r.append(".");
        let ghost head = r@;
        let n = digit_count(frac);
        let mut k: u32 = n;
        while k < self.scale
            invariant
                n as nat == digits(frac as nat).len(),
                k >= n,
                k <= self.scale || k == n,
                r@ == head + zeros((k - n) as nat),
            decreases self.scale - k,
        {
            proof {
                reveal_strlit("0");
            }
            r.append("0");
            k = k + 1;
            assert(zeros((k - n) as nat) =~= zeros((k - 1 - n) as nat).push('0'));
        }
        push_digits(&mut r, frac);
        proof {
            if n < self.scale {
                assert(k == self.scale);
            }
            assert(r@ =~= speed_text(*self));
        }
        r
    }

    /// Reads the first `len` characters of a text as a decimal: its digits
    /// as one integer, and the length of its fraction.
    fn parse_decimal(text: &str, len: usize) -> (r: Option<(u64, u32)>)
        requires
            len <= text@.len(),
        ensures
            match r {
                Some((v, f)) => decimal_parts(text@.take(len as int)) == Some((v as nat, f as nat)),
                None => decimal_parts(text@.take(len as int)) is None,
            },
    {
        let t = Ghost(text@.take(len as int));
        let mut v: u64 = 0;
        let mut dots: u32 = 0;
        let mut f: u32 = 0;
        let mut i: usize = 0;
        while i < len
            invariant
                len == t@.len(),
                len <= text@.len(),
                t@ == text@.take(len as int),
                i <= len,
                v as nat == dec_value(t@.take(i as int)),
                dots as nat == count_dots(t@.take(i as int)),
                dots <= 1,
                f as nat == frac_len(t@.take(i as int)),
                forall|j: int| 0 <= j < i ==> is_digit(#[trigger] t@[j]) || t@[j] == '.',
            decreases len - i,
        {
            let c = text.get_char(i);
            assert(t@[i as int] == text@[i as int]);
            assert(t@.take(i + 1).drop_last() =~= t@.take(i as int));
            assert(t@.take(i + 1).last() == c);
            if c == '.' {
                if dots > 0 {
                    proof {
                        lemma_prefix_mono(t@, i + 1);
                    }
                    return None;
                }
                dots = 1;
                f = 0;
            } else if '0' <= c && c <= '9' {
                let d = (c as u32 - '0' as u32) as u64;
                if v > (u64::MAX - d) / 10 {
                    proof {
                        lemma_prefix_mono(t@, i + 1);
                    }
                    return None;
                }
                v = v * 10 + d;
                if dots > 0 {
                    if f == u32::MAX {
                        proof {
                            if count_dots(t@) <= 1 {
                                lemma_frac_mono(t@, i + 1);
                            }
                        }
                        return None;
                    }
                    f = f + 1;
                } else {
                    f = 0;
                }
            } else {
                return None;
            }
            i = i + 1;
        }
        assert(t@.take(len as int) =~= t@);
        if len == 0 {
            return None;
        }
        let first = text.get_char(0);
        let last = text.get_char(len - 1);
        assert(t@[0] == first && t@.last() == last);
        if first == '.' || last == '.' {
            return None;
        }
        Some((v, f))
    }

    /// Strips trailing zeros of the fraction.
    fn normalized(m: u64, s: u32) -> (r: Speed)
        ensures
            r.mantissa as nat == normalize(m as nat, s as nat).0,
            r.scale as nat == normalize(m as nat, s as nat).1,
            r.wf(),
    {
        let mut a = m;
        let mut b = s;
        while b > 0 && a % 10 == 0
            invariant
                normalize(a as nat, b as nat) == normalize(m as nat, s as nat),
            decreases b,
        {
            a = a / 10;
            b = b - 1;
        }
        proof {
            lemma_normalize(m as nat, s as nat);
        }
        Speed { mantissa: a, scale: b }
    }

    /// `m / 10^f` scaled by the exponent `x`, negative when `neg`.
    fn scaled_exec(m: u64, f: u32, neg: bool, x: u64) -> (r: Option<Speed>)
        requires
            x <= MAX_EXPONENT,
        ensures
            r == scaled(m as nat, f as nat, neg, x as nat),
            r matches Some(s) ==> s.wf(),
    {
        if neg {
            if f as u64 + x > u32::MAX as u64 {
                None
            } else {
                Some(Self::normalized(m, (f as u64 + x) as u32))
            }
        } else if x <= f as u64 {
            Some(Self::normalized(m, (f as u64 - x) as u32))
        } else {
            let d = x - f as u64;
            let mut acc = m;
            let mut j: u64 = 0;
            proof {
                let p0 = pow10(0);
                assert(p0 == 1);
                assert(m as nat * p0 == m as nat) by (nonlinear_arith)
                    requires
                        p0 == 1,
                ;
            }
            while j < d
                invariant
                    j <= d,
                    d as nat == x as nat - f as nat,
                    !neg,
                    x > f as u64,
                    acc as nat == m as nat * pow10(j as nat),
                decreases d - j,
            {
                if acc > u64::MAX / 10 {
                    proof {
                        let rest = (d - j) as nat;
                        lemma_pow10_add(j as nat, rest);
                        assert(rest >= 1);
                        lemma_pow10_mono(1, rest);
                        assert(pow10(1) == 10) by {
                            reveal_with_fuel(pow10, 2);
                        }
                        let pr = pow10(rest);
                        let pj = pow10(j as nat);
                        assert(m as nat * pow10((j + rest) as nat) == acc as nat * pr) by (
                        nonlinear_arith)
                            requires
                                acc as nat == m as nat * pj,
                                pow10((j + rest) as nat) == pj * pr,
                        ;
                        assert(acc as nat * pr > u64::MAX) by (nonlinear_arith)
                            requires
                                acc > u64::MAX / 10,
                                pr >= 10,
                        ;
                        assert(d as nat == (x as nat - f as nat) as nat);
                        assert((j + rest) as nat == (x as nat - f as nat) as nat);
                    }
                    return None;
                }
                proof {
                    assert(pow10((j + 1) as nat) == 10 * pow10(j as nat));
                    assert(m as nat * (10 * pow10(j as nat)) == (m as nat * pow10(j as nat)) * 10)
                        by (nonlinear_arith);
                }
                acc = acc * 10;
                j = j + 1;
            }
            Some(Speed { mantissa: acc, scale: 0 })
        }
    }

    /// Reads `text[from..to]` as digits whose value is at most `bound`.
    fn digits_value(text: &str, from: usize, to: usize, bound: u64) -> (r: Option<u64>)
        requires
            from <= to <= text@.len(),
        ensures
            match r {
                Some(v) => all_digits(text@.subrange(from as int, to as int)) && v as nat
                    == dec_value(text@.subrange(from as int, to as int)) && v <= bound,
                None => !(all_digits(text@.subrange(from as int, to as int)) && dec_value(
                    text@.subrange(from as int, to as int),
                ) <= bound),
            },
    {
        let ghost sub = text@.subrange(from as int, to as int);
        if from == to {
            return None;
        }
        let mut v: u64 = 0;
        let mut i: usize = from;
        while i < to
            invariant
                from <= i <= to <= text@.len(),
                sub == text@.subrange(from as int, to as int),
                v as nat == dec_value(text@.subrange(from as int, i as int)),
                v <= bound,
                forall|j: int| from <= j < i ==> is_digit(#[trigger] text@[j]),
            decreases to - i,
        {
            let c = text.get_char(i);
            let ghost next = text@.subrange(from as int, i + 1);
            assert(next.drop_last() =~= text@.subrange(from as int, i as int));
            assert(next.last() == c);
            assert(sub.take(i + 1 - from) =~= next);
            if '0' <= c && c <= '9' {
                let d = (c as u32 - '0' as u32) as u64;
                if d > bound || v > (bound - d) / 10 {
                    proof {
                        lemma_prefix_mono(sub, i + 1 - from);
                    }
                    return None;
                }
                v = v * 10 + d;
            } else {
                assert(sub[i - from] == c);
                return None;
            }
            i = i + 1;
        }
        assert(text@.subrange(from as int, i as int) =~= sub);
        assert forall|j: int| 0 <= j < sub.len() implies is_digit(#[trigger] sub[j]) by {
            assert(sub[j] == text@[from + j]);
        }
        Some(v)
    }

    /// Reads a speed's text: a decimal (`250`, `250.0`, `80.5`), optionally
    /// with an exponent (`1e16`, `1.5e-7`); `None` for any other text, or
    /// when the digits do not fit in 64 bits.
    pub fn parse(text: &str) -> (r: Option<Speed>)
        ensures
            r == parse_spec(text@),
            r matches Some(s) ==> s.wf(),
    {
        let ghost t = text@;
        let len = text.unicode_len();
        let mut k: usize = 0;
        while k < len
            invariant
                k <= len,
                len == t.len(),
                t == text@,
                forall|j: int| 0 <= j < k ==> is_digit(#[trigger] t[j]) || t[j] == '.',
            ensures
                k <= len,
                forall|j: int| 0 <= j < k ==> is_digit(#[trigger] t[j]) || t[j] == '.',
                k < len ==> !(is_digit(t[k as int]) || t[k as int] == '.'),
            decreases len - k,
        {
            let c = text.get_char(k);
            if !(c == '.' || ('0' <= c && c <= '9')) {
                break;
            }
            k = k + 1;
        }
        assert forall|k2: int| mark_at(t, k2) implies k2 == k by {
            if k2 < k {
                assert(is_digit(t[k2]) || t[k2] == '.');
            } else if k2 > k {
                assert(is_digit(t[k as int]) || t[k as int] == '.');
            }
        }
        if k == len {
            assert(t.take(len as int) =~= t);
            return match Self::parse_decimal(text, len) {
                Some((m, f)) => Self::scaled_exec(m, f, false, 0),
                None => None,
            };
        }
        let c = text.get_char(k);
        if !(c == 'e' || c == 'E') {
            assert(!decimal_text(t)) by {
                assert(!(is_digit(t[k as int]) || t[k as int] == '.'));
            }
            return None;
        }
        assert(mark_at(t, k as int));
        let (m, f) = match Self::parse_decimal(text, k) {
            Some(p) => p,
            None => return None,
        };
        let ghost x = t.skip(k + 1);
        let mut from = k + 1;
        let mut neg = false;
        if from < len {
            let sign = text.get_char(from);
            if sign == '+' {
                from = from + 1;
            } else if sign == '-' {
                neg = true;
                from = from + 1;
            }
        }
        assert(exp_digits(x) =~= t.subrange(from as int, len as int));
        assert(neg == (x.len() > 0 && x[0] == '-'));
        match Self::digits_value(text, from, len, MAX_EXPONENT) {
            Some(e) => Self::scaled_exec(m, f, neg, e),
            None => None,
        }
    }
}

} // verus!
