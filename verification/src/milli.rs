//! Numbers in steps of a thousandth.
use crate::scalar::Scalar;
use vstd::prelude::*;

verus! {

/// A number of thousandths. What would leave the range stops at its end, and the two ends
/// of the range count as overflow.
#[derive(Clone, Copy, PartialEq, Eq, Structural, Debug)]
pub struct Milli(pub i64);

/// Half a turn in thousandths of a radian.
pub const HALF_TURN: i64 = 3_142;

/// The number of that many thousandths, stopped at the ends of the range.
pub open spec fn clipped(n: int) -> Milli {
    if n > i64::MAX {
        Milli(i64::MAX)
    } else if n < i64::MIN {
        Milli(i64::MIN)
    } else {
        Milli(n as i64)
    }
}

/// The distance from zero.
pub open spec fn size_of(n: int) -> int {
    if n < 0 {
        -n
    } else {
        n
    }
}

/// A quotient without its fraction; a division by zero overflows in the direction of the
/// dividend.
pub open spec fn quotient(n: int, d: int) -> int {
    if d == 0 {
        if n > 0 {
            i64::MAX as int
        } else if n < 0 {
            i64::MIN as int
        } else {
            0
        }
    } else if (n < 0) == (d < 0) {
        size_of(n) / size_of(d)
    } else {
        -(size_of(n) / size_of(d))
    }
}

/// Whether `r` is the square root of `n` without its fraction.
pub open spec fn is_root(n: int, r: int) -> bool {
    0 <= r && r * r <= n && n < (r + 1) * (r + 1)
}

/// The square root of `n` without its fraction.
pub open spec fn root_of(n: int) -> int {
    choose|r: int| is_root(n, r)
}

/// The sine over the first half turn, in thousandths, by Bhaskara's rational formula.
pub open spec fn arch(x: int) -> int {
    let p = x * (HALF_TURN - x);
    16_000 * p / (5 * (HALF_TURN * HALF_TURN) - 4 * p)
}

/// The sine of an angle in thousandths of a radian, in thousandths.
pub open spec fn sine_of(angle: int) -> int {
    let turn = angle % (2 * HALF_TURN);
    if turn <= HALF_TURN {
        arch(turn)
    } else {
        -arch(turn - HALF_TURN)
    }
}

/// A digit as a character.
pub open spec fn digit_char(d: int) -> char {
    (d + 48) as u8 as char
}

/// A number in decimal digits, at least one.
pub open spec fn digits_of(n: nat) -> Seq<char>
    decreases n,
{
    if n < 10 {
        seq![digit_char(n as int)]
    } else {
        digits_of(n / 10).push(digit_char((n % 10) as int))
    }
}

/// A number of thousandths with its sign and three decimals.
pub open spec fn decimal_text(n: int) -> Seq<char> {
    let m = size_of(n);
    (if n < 0 {
        "-"@
    } else {
        ""@
    }) + digits_of((m / 1_000) as nat) + "."@ + seq![
        digit_char(m / 100 % 10),
        digit_char(m / 10 % 10),
        digit_char(m % 10),
    ]
}

/// Stops a number at the ends of the range.
fn clip(n: i128) -> (r: Milli)
    ensures
        r == clipped(n as int),
{
    if n > i64::MAX as i128 {
        Milli(i64::MAX)
    } else if n < i64::MIN as i128 {
        Milli(i64::MIN)
    } else {
        Milli(n as i64)
    }
}

/// The distance from zero.
fn size(n: i128) -> (r: u128)
    requires
        n > i128::MIN,
    ensures
        r == size_of(n as int),
{
    if n < 0 {
        (-n) as u128
    } else {
        n as u128
    }
}

/// A quotient without its fraction.
fn divide(n: i128, d: i128) -> (r: i128)
    requires
        n > i128::MIN,
        d > i128::MIN,
    ensures
        r == quotient(n as int, d as int),
{
    if d == 0 {
        if n > 0 {
            i64::MAX as i128
        } else if n < 0 {
            i64::MIN as i128
        } else {
            0
        }
    } else {
        let (a, b) = (size(n), size(d));
        let q: u128 = a / b;
        proof {
            assert(q <= a) by (nonlinear_arith)
                requires
                    q == a / b,
                    b > 0,
            ;
        }
        if (n < 0) == (d < 0) {
            q as i128
        } else {
            -(q as i128)
        }
    }
}

proof fn lemma_product_fits(a: i64, b: i64)
    ensures
        -0x4000_0000_0000_0000_0000_0000_0000_0000 <= a * b
            <= 0x4000_0000_0000_0000_0000_0000_0000_0000,
{
    let (x, y) = (a as int, b as int);
    assert(-0x4000_0000_0000_0000_0000_0000_0000_0000 <= x * y
        <= 0x4000_0000_0000_0000_0000_0000_0000_0000) by (nonlinear_arith)
        requires
            -0x8000_0000_0000_0000 <= x <= 0x8000_0000_0000_0000,
            -0x8000_0000_0000_0000 <= y <= 0x8000_0000_0000_0000,
    ;
}

/// There is a square root without its fraction.
pub proof fn lemma_root_exists(n: nat)
    ensures
        is_root(n as int, root_of(n as int)),
    decreases n,
{
    if n == 0 {
        assert(is_root(0, 0));
    } else {
        lemma_root_exists((n - 1) as nat);
        let r = root_of(n - 1);
        let m = n as int;
        if m < (r + 1) * (r + 1) {
            assert(is_root(m, r));
        } else {
            assert((r + 1) * (r + 1) <= m && m < (r + 2) * (r + 2)) by (nonlinear_arith)
                requires
                    0 <= r,
                    r * r <= m - 1,
                    m - 1 < (r + 1) * (r + 1),
                    m >= (r + 1) * (r + 1),
            ;
            assert(is_root(m, r + 1));
        }
    }
}

/// There is one square root without its fraction.
pub proof fn lemma_root_is_unique(n: int, r: int)
    requires
        is_root(n, r),
    ensures
        root_of(n) == r,
{
    let s = root_of(n);
    assert(is_root(n, s));
    assert(s == r) by (nonlinear_arith)
        requires
            0 <= r,
            0 <= s,
            r * r <= n,
            n < (r + 1) * (r + 1),
            s * s <= n,
            n < (s + 1) * (s + 1),
    ;
}

/// The square root without its fraction.
fn integer_root(n: u128) -> (r: u128)
    requires
        n <= 0x8000_0000_0000_0000_0000_0000_0000_0000,
    ensures
        r == root_of(n as int),
        r <= 0xffff_ffff_ffff_ffff,
{
    let mut low: u128 = 0;
    let mut high: u128 = 0x1_0000_0000_0000_0000;
    proof {
        assert(n < high * high) by (nonlinear_arith)
            requires
                n <= 0x8000_0000_0000_0000_0000_0000_0000_0000,
                high == 0x1_0000_0000_0000_0000,
        ;
    }
    while high - low > 1
        invariant
            low < high <= 0x1_0000_0000_0000_0000,
            low * low <= n < high * high,
        decreases high - low,
    {
        let mid: u128 = low + (high - low) / 2;
        proof {
            assert(mid * mid <= 0xffff_ffff_ffff_ffff_ffff_ffff_ffff_ffff) by (nonlinear_arith)
                requires
                    mid <= 0xffff_ffff_ffff_ffff,
            ;
        }
        if mid * mid <= n {
            low = mid;
        } else {
            high = mid;
        }
    }
    proof {
        assert(high == low + 1);
        assert(is_root(n as int, low as int));
        lemma_root_is_unique(n as int, low as int);
    }
    low
}

/// The remainder of a division, never negative.
fn remainder(n: i128, d: u128) -> (r: u128)
    requires
        -0x1_0000_0000_0000_0000 <= n <= 0x1_0000_0000_0000_0000,
        0 < d <= 0x1_0000_0000,
    ensures
        r == n as int % d as int,
{
    if n >= 0 {
        n as u128 % d
    } else {
        let m: u128 = (-n) as u128 % d;
        proof {
            let (k, e) = (-n as int, d as int);
            let q = k / e;
            vstd::arithmetic::div_mod::lemma_fundamental_div_mod(k, e);
            assert(e * (-q) == -(e * q)) by (nonlinear_arith);
            assert(e * (-q - 1) == -(e * q) - e) by (nonlinear_arith);
            if m == 0 {
                vstd::arithmetic::div_mod::lemma_fundamental_div_mod_converse(-k, e, -q, 0);
            } else {
                vstd::arithmetic::div_mod::lemma_fundamental_div_mod_converse(
                    -k,
                    e,
                    -q - 1,
                    e - m,
                );
            }
        }
        if m == 0 {
            0
        } else {
            d - m
        }
    }
}

proof fn lemma_arch_denominator(x: int)
    requires
        0 <= x <= HALF_TURN,
    ensures
        0 <= x * (HALF_TURN - x) <= 2_468_041,
{
    assert(0 <= x * (3_142 - x) <= 2_468_041) by (nonlinear_arith)
        requires
            0 <= x <= 3_142,
    ;
}

/// The sine of an angle.
fn find_sine(angle: i128) -> (r: i128)
    requires
        -0x1_0000_0000_0000_0000 <= angle <= 0x1_0000_0000_0000_0000,
    ensures
        r == sine_of(angle as int),
{
    let turn = remainder(angle, 6_284);
    let half: u128 = 3_142;
    let x: u128 = if turn <= half {
        turn
    } else {
        turn - half
    };
    proof {
        lemma_arch_denominator(x as int);
    }
    let p: u128 = x * (half - x);
    let height: u128 = 16_000 * p / (49_360_820 - 4 * p);
    proof {
        let d = (49_360_820 - 4 * p) as int;
        assert(height <= 16_000 * p) by (nonlinear_arith)
            requires
                height == (16_000 * p) as int / d,
                d > 0,
                p >= 0,
        ;
    }
    if turn <= half {
        height as i128
    } else {
        -(height as i128)
    }
}

/// The digit as text.
fn digit_text(d: u64) -> (r: &'static str)
    requires
        d < 10,
    ensures
        r@ == seq![digit_char(d as int)],
{
    proof {
        reveal_strlit("0");
        reveal_strlit("1");
        reveal_strlit("2");
        reveal_strlit("3");
        reveal_strlit("4");
        reveal_strlit("5");
        reveal_strlit("6");
        reveal_strlit("7");
        reveal_strlit("8");
        reveal_strlit("9");
    }
    let r = if d == 0 {
        "0"
    } else if d == 1 {
        "1"
    } else if d == 2 {
        "2"
    } else if d == 3 {
        "3"
    } else if d == 4 {
        "4"
    } else if d == 5 {
        "5"
    } else if d == 6 {
        "6"
    } else if d == 7 {
        "7"
    } else if d == 8 {
        "8"
    } else {
        "9"
    };
    assert(r@ =~= seq![digit_char(d as int)]);
    r
}

/// A number in decimal digits.
fn digits(n: u64) -> (r: String)
    ensures
        r@ == digits_of(n as nat),
    decreases n,
{
    if n < 10 {
        digit_text(n).to_owned()
    } else {
        let mut text = digits(n / 10);
        let ghost before = text@;
        text.append(digit_text(n % 10));
        proof {
            assert(text@ =~= before.push(digit_char(n as int % 10)));
        }
        text
    }
}

impl Scalar for Milli {
    open spec fn spec_add(self, other: Self) -> Self {
        clipped(self.0 + other.0)
    }

    open spec fn spec_sub(self, other: Self) -> Self {
        clipped(self.0 - other.0)
    }

    open spec fn spec_mul(self, other: Self) -> Self {
        clipped(quotient(self.0 * other.0, 1_000))
    }

    open spec fn spec_euclidean_or_real_div(self, other: Self) -> Self {
        clipped(quotient(self.0 * 1_000, other.0 as int))
    }

    open spec fn spec_neg(self) -> Self {
        clipped(-self.0)
    }

    open spec fn spec_lt(self, other: Self) -> bool {
        self.0 < other.0
    }

    open spec fn spec_le(self, other: Self) -> bool {
        self.0 <= other.0
    }

    open spec fn same(self, other: Self) -> bool {
        self.0 == other.0
    }

    open spec fn larger(self, other: Self) -> Self {
        if self.0 < other.0 {
            other
        } else {
            self
        }
    }

    open spec fn smaller(self, other: Self) -> Self {
        if other.0 < self.0 {
            other
        } else {
            self
        }
    }

    open spec fn held(self, low: Self, high: Self) -> Self {
        if self.0 < low.0 {
            low
        } else if high.0 < self.0 {
            high
        } else {
            self
        }
    }

    open spec fn magnitude(self) -> Self {
        clipped(size_of(self.0 as int))
    }

    open spec fn sine(self) -> Self {
        clipped(sine_of(self.0 as int))
    }

    open spec fn cosine(self) -> Self {
        clipped(sine_of(self.0 + 1_571))
    }

    open spec fn hypotenuse(self, other: Self) -> Self {
        clipped(root_of(self.0 * self.0 + other.0 * other.0))
    }

    open spec fn ceiling(self) -> Self {
        clipped(self.0 + (-self.0) % 1_000)
    }

    open spec fn nearest(self) -> Self {
        clipped(
            if self.0 < 0 {
                -((size_of(self.0 as int) + 500) / 1_000 * 1_000)
            } else {
                (self.0 + 500) / 1_000 * 1_000
            },
        )
    }

    open spec fn finite(self) -> bool {
        i64::MIN < self.0 < i64::MAX
    }

    open spec fn key(self) -> i64 {
        self.0
    }

    open spec fn of_key(key: i64) -> Self {
        Milli(key)
    }

    open spec fn mil(n: int) -> Self {
        clipped(n)
    }

    open spec fn counted(n: int) -> Self {
        clipped(n * 1_000)
    }

    open spec fn half_turn() -> Self {
        Milli(HALF_TURN)
    }

    open spec fn topmost() -> Self {
        Milli(i64::MAX)
    }

    open spec fn bottommost() -> Self {
        Milli(i64::MIN)
    }

    open spec fn count(self) -> usize {
        if self.0 <= 0 {
            0
        } else if self.0 as int / 1_000 > usize::MAX {
            usize::MAX
        } else {
            (self.0 as int / 1_000) as usize
        }
    }

    open spec fn written(self) -> Seq<char> {
        decimal_text(self.0 as int)
    }

    fn plus(self, other: Self) -> (r: Self) {
        clip(self.0 as i128 + other.0 as i128)
    }

    fn minus(self, other: Self) -> (r: Self) {
        clip(self.0 as i128 - other.0 as i128)
    }

    fn times(self, other: Self) -> (r: Self) {
        proof {
            lemma_product_fits(self.0, other.0);
        }
        clip(divide(self.0 as i128 * other.0 as i128, 1_000))
    }

    fn over(self, other: Self) -> (r: Self) {
        clip(divide(self.0 as i128 * 1_000, other.0 as i128))
    }

    fn negated(self) -> (r: Self) {
        clip(-(self.0 as i128))
    }

    fn lt(self, other: Self) -> (r: bool) {
        self.0 < other.0
    }

    fn le(self, other: Self) -> (r: bool) {
        self.0 <= other.0
    }

    fn is_same(self, other: Self) -> (r: bool) {
        self.0 == other.0
    }

    fn max(self, other: Self) -> (r: Self) {
        if self.0 < other.0 {
            other
        } else {
            self
        }
    }

    fn min(self, other: Self) -> (r: Self) {
        if other.0 < self.0 {
            other
        } else {
            self
        }
    }

    fn clamp(self, low: Self, high: Self) -> (r: Self) {
        if self.0 < low.0 {
            low
        } else if high.0 < self.0 {
            high
        } else {
            self
        }
    }

    fn abs(self) -> (r: Self) {
        clip(size(self.0 as i128) as i128)
    }

    fn sin(self) -> (r: Self) {
        clip(find_sine(self.0 as i128))
    }

    fn cos(self) -> (r: Self) {
        clip(find_sine(self.0 as i128 + 1_571))
    }

    fn hypot(self, other: Self) -> (r: Self) {
        let (a, b) = (self.0 as i128, other.0 as i128);
        proof {
            lemma_product_fits(self.0, self.0);
            lemma_product_fits(other.0, other.0);
            let (x, y) = (self.0 as int, other.0 as int);
            assert(0 <= x * x) by (nonlinear_arith);
            assert(0 <= y * y) by (nonlinear_arith);
        }
        let n: u128 = (a * a) as u128 + (b * b) as u128;
        clip(integer_root(n) as i128)
    }

    fn ceil(self) -> (r: Self) {
        let up = remainder(-(self.0 as i128), 1_000);
        clip(self.0 as i128 + up as i128)
    }

    fn round(self) -> (r: Self) {
        let rounded: u128 = (size(self.0 as i128) + 500) / 1_000 * 1_000;
        if self.0 < 0 {
            clip(-(rounded as i128))
        } else {
            clip(rounded as i128)
        }
    }

    fn is_finite(self) -> (r: bool) {
        i64::MIN < self.0 && self.0 < i64::MAX
    }

    fn to_key(self) -> (r: i64) {
        self.0
    }

    fn from_key(key: i64) -> (r: Self) {
        Milli(key)
    }

    fn milli(n: i32) -> (r: Self) {
        Milli(n as i64)
    }

    fn whole(n: usize) -> (r: Self) {
        clip(n as i128 * 1_000)
    }

    fn pi() -> (r: Self) {
        Milli(HALF_TURN)
    }

    fn infinity() -> (r: Self) {
        Milli(i64::MAX)
    }

    fn neg_infinity() -> (r: Self) {
        Milli(i64::MIN)
    }

    fn to_count(self) -> (r: usize) {
        if self.0 <= 0 {
            return 0;
        }
        let whole: u64 = self.0 as u64 / 1_000;
        if whole as u128 > usize::MAX as u128 {
            usize::MAX
        } else {
            whole as usize
        }
    }

    fn to_text(self) -> (r: String) {
        let m: u64 = size(self.0 as i128) as u64;
        let mut text = if self.0 < 0 {
            "-".to_owned()
        } else {
            "".to_owned()
        };
        text.append(digits(m / 1_000).as_str());
        text.append(".");
        text.append(digit_text(m / 100 % 10));
        text.append(digit_text(m / 10 % 10));
        text.append(digit_text(m % 10));
        proof {
            assert(text@ =~= decimal_text(self.0 as int));
        }
        text
    }
}

} // verus!
