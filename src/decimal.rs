use vstd::prelude::*;
use vstd::string::StrSliceExecFns;

verus! {

/// Most digits a decimal may hold, fractional ones included.
pub const MAX_DIGITS: usize = 18;

/// Most digits a decimal may hold after its point.
pub const MAX_SCALE: usize = 9;

/// `10` to the power `n`.
pub open spec fn pow10(n: nat) -> int
    decreases n,
{
    if n == 0 {
        1
    } else {
        10 * pow10((n - 1) as nat)
    }
}

pub proof fn lemma_pow10_positive(n: nat)
    ensures
        pow10(n) >= 1,
    decreases n,
{
    if n > 0 {
        lemma_pow10_positive((n - 1) as nat);
    }
}

pub proof fn lemma_pow10_monotonic(a: nat, b: nat)
    requires
        a <= b,
    ensures
        pow10(a) <= pow10(b),
    decreases b,
{
    if a < b {
        lemma_pow10_monotonic(a, (b - 1) as nat);
        lemma_pow10_positive((b - 1) as nat);
    }
}

pub proof fn lemma_pow10_18()
    ensures
        pow10(MAX_DIGITS as nat) == 1_000_000_000_000_000_000int,
        pow10(MAX_SCALE as nat) == 1_000_000_000int,
{
    reveal_with_fuel(pow10, 19);
}

/// A decimal number `±units / 10^scale`, as written in a score's text.
#[derive(Clone, Copy, Debug, PartialEq, Eq)]
pub struct Decimal {
    pub negative: bool,
    pub units: u64,
    pub scale: u8,
}

impl Decimal {
    pub open spec fn wf(self) -> bool {
        &&& (self.units as int) < pow10(MAX_DIGITS as nat)
        &&& self.scale <= MAX_SCALE
    }

    /// Numerator of the value over `den()`.
    pub open spec fn num(self) -> int {
        if self.negative {
            -(self.units as int)
        } else {
            self.units as int
        }
    }

    pub open spec fn den(self) -> int {
        pow10(self.scale as nat)
    }

    /// Whether the value is greater than zero.
    pub open spec fn is_positive(self) -> bool {
        !self.negative && self.units > 0
    }

    pub fn positive(&self) -> (r: bool)
        ensures
            r == self.is_positive(),
    {
        !self.negative && self.units > 0
    }
}

/// `10^n`, for `n` at most `MAX_DIGITS`.
pub fn pow10_u64(n: u8) -> (r: u64)
    requires
        n <= MAX_DIGITS,
    ensures
        r == pow10(n as nat),
{
    let mut r: u64 = 1;
    let mut i: u8 = 0;
    while i < n
        invariant
            i <= n <= MAX_DIGITS,
            r == pow10(i as nat),
        decreases n - i,
    {
        proof {
            lemma_pow10_monotonic((i + 1) as nat, MAX_DIGITS as nat);
            lemma_pow10_18();
        }
        r = r * 10;
        i = i + 1;
    }
    r
}

/// `p / q` rounded to the nearest whole number, halves upwards.
pub open spec fn round_div(p: int, q: int) -> int {
    (2 * p + q) / (2 * q)
}

impl Decimal {
    /// The value rounded to the nearest whole number, halves away from zero.
    pub open spec fn rounded(self) -> int {
        if self.negative {
            -round_div(self.units as int, self.den())
        } else {
            round_div(self.units as int, self.den())
        }
    }

    pub fn round(&self) -> (r: i64)
        requires
            self.wf(),
        ensures
            r == self.rounded(),
    {
        proof {
            lemma_pow10_18();
            lemma_pow10_monotonic(self.scale as nat, MAX_SCALE as nat);
            lemma_pow10_positive(self.scale as nat);
        }
        let den = pow10_u64(self.scale);
        let p = self.units as u128;
        let q = den as u128;
        let m = (2 * p + q) / (2 * q);
        proof {
            assert(m <= 2 * p + q) by (nonlinear_arith)
                requires
                    q >= 1,
                    m == (2 * p + q) / (2 * q),
            ;
        }
        if self.negative {
            -(m as i64)
        } else {
            m as i64
        }
    }
}

pub open spec fn is_space(c: char) -> bool {
    c == ' ' || c == '\t' || c == '\n' || c == '\r'
}

pub open spec fn is_digit(c: char) -> bool {
    '0' <= c <= '9'
}

pub open spec fn all_digits(s: Seq<char>) -> bool {
    forall|i: int| 0 <= i < s.len() ==> is_digit(#[trigger] s[i])
}

/// Value of a run of decimal digits.
pub open spec fn digits_value(s: Seq<char>) -> int
    decreases s.len(),
{
    if s.len() == 0 {
        0
    } else {
        digits_value(s.drop_last()) * 10 + (s.last() as int - '0' as int)
    }
}

/// `s` without its leading whitespace.
pub open spec fn trim_start(s: Seq<char>) -> Seq<char>
    decreases s.len(),
{
    if s.len() > 0 && is_space(s[0]) {
        trim_start(s.drop_first())
    } else {
        s
    }
}

/// `s` without its trailing whitespace.
pub open spec fn trim_end(s: Seq<char>) -> Seq<char>
    decreases s.len(),
{
    if s.len() > 0 && is_space(s.last()) {
        trim_end(s.drop_last())
    } else {
        s
    }
}

pub open spec fn trim(s: Seq<char>) -> Seq<char> {
    trim_end(trim_start(s))
}

/// Index of the first `.` in `s`, or its length when there is none.
pub open spec fn point_index(s: Seq<char>) -> nat
    decreases s.len(),
{
    if s.len() == 0 {
        0
    } else if s[0] == '.' {
        0
    } else {
        1 + point_index(s.drop_first())
    }
}

/// Whether `s` begins with a sign.
pub open spec fn has_sign(s: Seq<char>) -> bool {
    s.len() > 0 && (s[0] == '-' || s[0] == '+')
}

/// The digits and point of a trimmed number, without its sign.
pub open spec fn unsigned_part(t: Seq<char>) -> Seq<char> {
    if has_sign(t) {
        t.drop_first()
    } else {
        t
    }
}

pub open spec fn whole_digits(body: Seq<char>) -> Seq<char> {
    body.take(point_index(body) as int)
}

pub open spec fn fraction_digits(body: Seq<char>) -> Seq<char> {
    if point_index(body) < body.len() {
        body.skip(point_index(body) as int + 1)
    } else {
        Seq::empty()
    }
}

/// Whether `s` reads as a decimal: optional surrounding whitespace, an
/// optional sign, at least one digit, and optionally a point followed by
/// at least one digit; within the digit limits.
pub open spec fn is_decimal_text(s: Seq<char>) -> bool {
    let body = unsigned_part(trim(s));
    let w = whole_digits(body);
    let f = fraction_digits(body);
    &&& w.len() >= 1
    &&& all_digits(w)
    &&& point_index(body) < body.len() ==> f.len() >= 1
    &&& all_digits(f)
    &&& w.len() + f.len() <= MAX_DIGITS
    &&& f.len() <= MAX_SCALE
}

/// The decimal that `s` reads as, when `is_decimal_text(s)`.
pub open spec fn decimal_of(s: Seq<char>) -> Decimal {
    let t = trim(s);
    let body = unsigned_part(t);
    let w = whole_digits(body);
    let f = fraction_digits(body);
    Decimal {
        negative: has_sign(t) && t[0] == '-',
        units: digits_value(w + f) as u64,
        scale: f.len() as u8,
    }
}

/// Parses a decimal number, or `None` when `s` does not read as one.
pub open spec fn parse_decimal_spec(s: Seq<char>) -> Option<Decimal> {
    if is_decimal_text(s) {
        Some(decimal_of(s))
    } else {
        None
    }
}


pub proof fn lemma_digits_value_bound(s: Seq<char>)
    requires
        all_digits(s),
    ensures
        0 <= digits_value(s) < pow10(s.len()),
    decreases s.len(),
{
    if s.len() > 0 {
        let p = s.drop_last();
        assert(all_digits(p)) by {
            assert forall|i: int| 0 <= i < p.len() implies is_digit(#[trigger] p[i]) by {
                assert(p[i] == s[i]);
            }
        }
        lemma_digits_value_bound(p);
        assert(is_digit(s[s.len() - 1]));
    }
}

pub fn is_space_char(c: char) -> (r: bool)
    ensures
        r == is_space(c),
{
    c == ' ' || c == '\t' || c == '\n' || c == '\r'
}

/// The characters of `s`, in order.
pub fn chars_of(s: &str) -> (v: Vec<char>)
    ensures
        v@ == s@,
{
    let n = s.unicode_len();
    let mut v: Vec<char> = Vec::new();
    let mut i: usize = 0;
    while i < n
        invariant
            n == s@.len(),
            i <= n,
            v@ == s@.take(i as int),
        decreases n - i,
    {
        v.push(s.get_char(i));
        i = i + 1;
        assert(v@ =~= s@.take(i as int));
    }
    assert(v@ =~= s@);
    v
}

/// Bounds `(a, b)` of the text of `v` without surrounding whitespace.
pub fn trimmed_bounds(v: &Vec<char>) -> (r: (usize, usize))
    ensures
        r.0 <= r.1 <= v@.len(),
        v@.subrange(r.0 as int, r.1 as int) == trim(v@),
{
    let n = v.len();
    let mut a: usize = 0;
    assert(v@.skip(0) =~= v@);
    while a < n && is_space_char(v[a])
        invariant
            a <= n == v@.len(),
            trim_start(v@) == trim_start(v@.skip(a as int)),
        decreases n - a,
    {
        assert(v@.skip(a as int).drop_first() =~= v@.skip(a as int + 1));
        a = a + 1;
    }
    assert(trim_start(v@) =~= v@.subrange(a as int, n as int)) by {
        assert(v@.skip(a as int) =~= v@.subrange(a as int, n as int));
    }
    let mut b: usize = n;
    while b > a && is_space_char(v[b - 1])
        invariant
            a <= b <= n == v@.len(),
            trim(v@) == trim_end(v@.subrange(a as int, b as int)),
        decreases b,
    {
        assert(v@.subrange(a as int, b as int).drop_last() =~= v@.subrange(a as int, b - 1));
        b = b - 1;
    }
    (a, b)
}

/// Value of the digits `ds`, or `None` when one of them is not a digit.
fn digits_units(ds: &Vec<char>) -> (r: Option<u64>)
    requires
        ds@.len() <= MAX_DIGITS,
    ensures
        all_digits(ds@) ==> r == Some(digits_value(ds@) as u64),
        all_digits(ds@) ==> (digits_value(ds@) as int) < pow10(MAX_DIGITS as nat),
        !all_digits(ds@) ==> r is None,
{
    let n = ds.len();
    let mut units: u64 = 0;
    let mut k: usize = 0;
    proof {
        lemma_pow10_18();
        assert(ds@.take(0) =~= Seq::<char>::empty());
    }
    while k < n
        invariant
            k <= n == ds@.len() <= MAX_DIGITS,
            all_digits(ds@.take(k as int)),
            units == digits_value(ds@.take(k as int)),
            pow10(MAX_DIGITS as nat) == 1_000_000_000_000_000_000int,
        decreases n - k,
    {
        let c = ds[k];
        if !('0' <= c && c <= '9') {
            return None;
        }
        proof {
            let pre = ds@.take(k as int);
            lemma_digits_value_bound(pre);
            lemma_pow10_monotonic(k as nat, (MAX_DIGITS - 1) as nat);
            assert(ds@.take(k + 1).drop_last() =~= pre);
            reveal_with_fuel(pow10, 2);
            assert(pow10((MAX_DIGITS - 1) as nat) * 10 == pow10(MAX_DIGITS as nat));
            assert(all_digits(ds@.take(k + 1))) by {
                assert forall|j: int| 0 <= j < k + 1 implies is_digit(
                    #[trigger] ds@.take(k + 1)[j],
                ) by {
                    if j < k {
                        assert(ds@.take(k + 1)[j] == pre[j]);
                    }
                }
            }
        }
        units = units * 10 + (c as u64 - '0' as u64);
        k = k + 1;
    }
    proof {
        assert(ds@.take(n as int) =~= ds@);
        lemma_digits_value_bound(ds@);
        lemma_pow10_monotonic(n as nat, MAX_DIGITS as nat);
    }
    Some(units)
}

/// Reads `s` as a decimal number; `None` when it is not one (see
/// `is_decimal_text`).
pub fn parse_decimal(s: &str) -> (r: Option<Decimal>)
    ensures
        r == parse_decimal_spec(s@),
        r matches Some(d) ==> d.wf(),
{
    let v = chars_of(s);
    let (a, b) = trimmed_bounds(&v);
    let ghost t = v@.subrange(a as int, b as int);
    let negative = a < b && v[a] == '-';
    let p: usize = if a < b && (v[a] == '-' || v[a] == '+') {
        a + 1
    } else {
        a
    };
    let ghost body = v@.subrange(p as int, b as int);
    assert(body =~= unsigned_part(t));
    let mut q: usize = p;
    while q < b && v[q] != '.'
        invariant
            p <= q <= b <= v@.len(),
            body == v@.subrange(p as int, b as int),
            point_index(body) == (q - p) + point_index(v@.subrange(q as int, b as int)),
        decreases b - q,
    {
        assert(v@.subrange(q as int, b as int).drop_first() =~= v@.subrange(q + 1, b as int));
        q = q + 1;
    }
    assert(point_index(v@.subrange(q as int, b as int)) == 0);
    let ghost w = whole_digits(body);
    let ghost f = fraction_digits(body);
    assert(w =~= v@.subrange(p as int, q as int));
    let f_start: usize = if q < b {
        q + 1
    } else {
        b
    };
    assert(f =~= v@.subrange(f_start as int, b as int));
    if q == p || (q < b && f_start == b) || (q - p) + (b - f_start) > MAX_DIGITS || b
        - f_start > MAX_SCALE {
        return None;
    }
    // the digits of the whole part followed by those of the fraction
    let mut ds: Vec<char> = Vec::new();
    let mut i: usize = p;
    while i < q
        invariant
            p <= i <= q <= v@.len(),
            ds@ == v@.subrange(p as int, i as int),
        decreases q - i,
    {
        ds.push(v[i]);
        i = i + 1;
        assert(ds@ =~= v@.subrange(p as int, i as int));
    }
    let mut i: usize = f_start;
    while i < b
        invariant
            f_start <= i <= b <= v@.len(),
            ds@ == w + v@.subrange(f_start as int, i as int),
        decreases b - i,
    {
        ds.push(v[i]);
        i = i + 1;
        assert(ds@ =~= w + v@.subrange(f_start as int, i as int));
    }
    assert(ds@ =~= w + f);
    let units = match digits_units(&ds) {
        Some(u) => u,
        None => {
            proof {
                if all_digits(w) && all_digits(f) {
                    assert forall|j: int| 0 <= j < ds@.len() implies is_digit(#[trigger] ds@[j]) by {
                        if j < w.len() {
                            assert(ds@[j] == w[j]);
                        } else {
                            assert(ds@[j] == f[j - w.len()]);
                        }
                    }
                }
            }
            return None;
        },
    };
    proof {
        assert(all_digits(ds@));
        lemma_pow10_18();
        lemma_digits_value_bound(ds@);
        assert(units as int == digits_value(ds@));
        assert(all_digits(w)) by {
            assert forall|j: int| 0 <= j < w.len() implies is_digit(#[trigger] w[j]) by {
                assert(w[j] == ds@[j]);
            }
        }
        assert(all_digits(f)) by {
            assert forall|j: int| 0 <= j < f.len() implies is_digit(#[trigger] f[j]) by {
                assert(f[j] == ds@[w.len() + j]);
            }
        }
    }
    Some(Decimal { negative, units, scale: (b - f_start) as u8 })
}

} // verus!
