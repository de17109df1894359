use vstd::prelude::*;

verus! {

/// A non-negative fraction `num / den`, used wherever a score is a quotient.
///
/// Two ratios with different fields may stand for the same value; compare
/// values with `same_value` / `greater` (spec) and `compare` (exec).
#[derive(Clone, Copy, Debug, PartialEq, Eq, Structural)]
pub struct Ratio {
    pub num: u128,
    pub den: u128,
}

/// Sign of `a * d - c * b`: the order of `a / b` against `c / d`.
pub open spec fn cross_sign(a: int, b: int, c: int, d: int) -> int {
    if a * d < c * b {
        -1
    } else if a * d > c * b {
        1
    } else {
        0
    }
}

impl Ratio {
    pub open spec fn wf(self) -> bool {
        self.den > 0
    }

    /// `self` and `o` denote the same rational number.
    pub open spec fn same_value(self, o: Ratio) -> bool {
        self.num * o.den == o.num * self.den
    }

    /// `self` denotes a strictly larger rational number than `o`.
    pub open spec fn greater(self, o: Ratio) -> bool {
        self.num * o.den > o.num * self.den
    }

    pub fn new(num: u128, den: u128) -> (r: Ratio)
        requires
            den > 0,
        ensures
            r.num == num,
            r.den == den,
            r.wf(),
    {
        Ratio { num, den }
    }

    /// The same value in lowest terms.
    pub fn reduced(&self) -> (r: Ratio)
        requires
            self.wf(),
        ensures
            r.wf(),
            r.same_value(*self),
            r.num <= self.num,
            r.den <= self.den,
            r.num as nat == self.num as nat / gcd(self.num as nat, self.den as nat),
            r.den as nat == self.den as nat / gcd(self.num as nat, self.den as nat),
    {
        let g = gcd_of(self.num, self.den);
        proof {
            lemma_gcd_divides(self.num as nat, self.den as nat);
            let k1 = choose|k: nat| self.num as nat == #[trigger] times(g as nat, k);
            let k2 = choose|k: nat| self.den as nat == #[trigger] times(g as nat, k);
            vstd::arithmetic::div_mod::lemma_div_multiples_vanish(k1 as int, g as int);
            vstd::arithmetic::div_mod::lemma_div_multiples_vanish(k2 as int, g as int);
            assert(self.num / g == k1);
            assert(self.den / g == k2);
            assert(k2 > 0) by (nonlinear_arith)
                requires
                    self.den as nat == g * k2,
                    self.den > 0,
            ;
            assert(k1 <= g * k1 && k2 <= g * k2) by (nonlinear_arith)
                requires
                    g > 0,
            ;
            assert(k1 * self.den == self.num * k2) by (nonlinear_arith)
                requires
                    self.num as nat == g * k1,
                    self.den as nat == g * k2,
            ;
        }
        Ratio { num: self.num / g, den: self.den / g }
    }

    /// Compares the values of two ratios: -1, 0 or 1 as `self` is less than,
    /// equal to or greater than `o`.
    pub fn compare(&self, o: &Ratio) -> (r: i8)
        requires
            self.wf(),
            o.wf(),
        ensures
            r as int == cross_sign(self.num as int, self.den as int, o.num as int, o.den as int),
            r == 1 <==> self.greater(*o),
            r == -1 <==> o.greater(*self),
            r == 0 <==> self.same_value(*o),
    {
        compare_fractions(self.num, self.den, o.num, o.den)
    }

    /// `self` is strictly greater in value than `o`.
    pub fn is_greater(&self, o: &Ratio) -> (r: bool)
        requires
            self.wf(),
            o.wf(),
        ensures
            r == self.greater(*o),
    {
        self.compare(o) == 1
    }
}

/// Greatest common divisor, by Euclid's algorithm.
pub open spec fn gcd(a: nat, b: nat) -> nat
    decreases b,
{
    if b == 0 {
        a
    } else {
        gcd(b, a % b)
    }
}

pub open spec fn times(g: nat, k: nat) -> nat {
    g * k
}

pub open spec fn divides(g: nat, a: nat) -> bool {
    exists|k: nat| a == #[trigger] times(g, k)
}

pub proof fn lemma_gcd_divides(a: nat, b: nat)
    ensures
        divides(gcd(a, b), a),
        divides(gcd(a, b), b),
        a > 0 || b > 0 ==> gcd(a, b) > 0,
    decreases b,
{
    if b == 0 {
        assert(a == times(a, 1));
        assert(0 == times(a, 0));
    } else {
        lemma_gcd_divides(b, a % b);
        let g = gcd(b, a % b);
        let k1 = choose|k: nat| b == #[trigger] times(g, k);
        let k2 = choose|k: nat| a % b == #[trigger] times(g, k);
        vstd::arithmetic::div_mod::lemma_fundamental_div_mod(a as int, b as int);
        let q = a / b;
        assert(a == g * (k1 * q + k2)) by (nonlinear_arith)
            requires
                b == g * k1,
                a % b == g * k2,
                a == b * q + a % b,
        ;
        assert(a == times(g, k1 * q + k2));
        assert(b > 0 ==> gcd(b, a % b) > 0);
    }
}

fn gcd_of(a: u128, b: u128) -> (g: u128)
    ensures
        g as nat == gcd(a as nat, b as nat),
{
    let mut x = a;
    let mut y = b;
    while y != 0
        invariant
            gcd(x as nat, y as nat) == gcd(a as nat, b as nat),
        decreases y,
    {
        let t = x % y;
        x = y;
        y = t;
    }
    x
}

/// Orders `a / b` against `c / d` by comparing integer parts and then the
/// reciprocals of the remainders, so that no product is ever formed.
fn compare_fractions(a: u128, b: u128, c: u128, d: u128) -> (r: i8)
    requires
        b > 0,
        d > 0,
    ensures
        r as int == cross_sign(a as int, b as int, c as int, d as int),
    decreases b + d,
{
    let q1 = a / b;
    let q2 = c / d;
    let r1 = a % b;
    let r2 = c % d;
    proof {
        lemma_split(a as int, b as int, q1 as int, r1 as int, c as int, d as int, q2 as int, r2 as int);
    }
    if q1 < q2 {
        -1
    } else if q1 > q2 {
        1
    } else if r1 == 0 {
        if r2 == 0 { 0 } else { -1 }
    } else if r2 == 0 {
        1
    } else {
        compare_fractions(d, r2, b, r1)
    }
}

proof fn lemma_split(a: int, b: int, q1: int, r1: int, c: int, d: int, q2: int, r2: int)
    requires
        b > 0,
        d > 0,
        q1 == a / b,
        r1 == a % b,
        q2 == c / d,
        r2 == c % d,
        a >= 0,
        c >= 0,
    ensures
        q1 < q2 ==> a * d < c * b,
        q1 > q2 ==> a * d > c * b,
        q1 == q2 ==> a * d - c * b == d * r1 - b * r2,
        r1 == 0 ==> d * r1 == 0,
        r2 == 0 ==> b * r2 == 0,
        r1 > 0 ==> d * r1 > 0,
        r2 > 0 ==> b * r2 > 0,
        0 <= r1 < b,
        0 <= r2 < d,
{
    vstd::arithmetic::div_mod::lemma_fundamental_div_mod(a, b);
    vstd::arithmetic::div_mod::lemma_fundamental_div_mod(c, d);
    vstd::arithmetic::div_mod::lemma_mod_bound(a, b);
    vstd::arithmetic::div_mod::lemma_mod_bound(c, d);
    assert(a == b * q1 + r1);
    assert(c == d * q2 + r2);
    assert(a * d - c * b == (q1 - q2) * (b * d) + r1 * d - r2 * b) by (nonlinear_arith)
        requires
            a == b * q1 + r1,
            c == d * q2 + r2,
    ;
    assert(r1 * d == d * r1 && r2 * b == b * r2) by (nonlinear_arith);
    assert(r1 == 0 ==> d * r1 == 0) by (nonlinear_arith);
    assert(r2 == 0 ==> b * r2 == 0) by (nonlinear_arith);
    assert(q1 == q2 ==> (q1 - q2) * (b * d) == 0) by (nonlinear_arith);
    assert(r1 > 0 ==> d * r1 > 0) by (nonlinear_arith)
        requires
            d > 0,
    ;
    assert(r2 > 0 ==> b * r2 > 0) by (nonlinear_arith)
        requires
            b > 0,
    ;
    if q1 < q2 {
        assert((q1 - q2) * (b * d) <= -(b * d)) by (nonlinear_arith)
            requires
                q1 < q2,
                b > 0,
                d > 0,
        ;
        assert(r1 * d < b * d) by (nonlinear_arith)
            requires
                r1 < b,
                d > 0,
        ;
        assert(r2 * b >= 0) by (nonlinear_arith)
            requires
                r2 >= 0,
                b > 0,
        ;
    }
    if q1 > q2 {
        assert((q1 - q2) * (b * d) >= b * d) by (nonlinear_arith)
            requires
                q1 > q2,
                b > 0,
                d > 0,
        ;
        assert(r2 * b < d * b) by (nonlinear_arith)
            requires
                r2 < d,
                b > 0,
        ;
        assert(r1 * d >= 0) by (nonlinear_arith)
            requires
                r1 >= 0,
                d > 0,
        ;
    }
}

/// `greater` is a strict order on values and `same_value` an equivalence
/// compatible with it.
pub proof fn lemma_ratio_order(x: Ratio, y: Ratio, z: Ratio)
    requires
        x.wf(),
        y.wf(),
        z.wf(),
    ensures
        x.greater(y) ==> !y.greater(x) && !x.same_value(y),
        x.same_value(y) ==> y.same_value(x),
        !x.greater(y) && !y.greater(x) ==> x.same_value(y),
        x.greater(y) && y.greater(z) ==> x.greater(z),
        x.greater(y) && y.same_value(z) ==> x.greater(z),
        x.same_value(y) && y.greater(z) ==> x.greater(z),
        x.same_value(y) && y.same_value(z) ==> x.same_value(z),
        x.greater(z) ==> x.greater(y) || y.greater(z),
{
    let (a, b, c, d, e, f) = (x.num as int, x.den as int, y.num as int, y.den as int, z.num as int, z.den as int);
    assert(a * d > c * b && c * f > e * d ==> a * f > e * b) by (nonlinear_arith)
        requires
            b > 0,
            d > 0,
            f > 0,
    ;
    assert(a * d > c * b && c * f == e * d ==> a * f > e * b) by (nonlinear_arith)
        requires
            b > 0,
            d > 0,
            f > 0,
    ;
    assert(a * d == c * b && c * f > e * d ==> a * f > e * b) by (nonlinear_arith)
        requires
            b > 0,
            d > 0,
            f > 0,
    ;
    assert(a * d == c * b && c * f == e * d ==> a * f == e * b) by (nonlinear_arith)
        requires
            b > 0,
            d > 0,
            f > 0,
    ;
    assert(a * d <= c * b && c * f <= e * d ==> a * f <= e * b) by (nonlinear_arith)
        requires
            b > 0,
            d > 0,
            f > 0,
    ;
}

} // verus!
