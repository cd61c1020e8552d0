//! Open intervals of ray parameters with exact rational ends, on which the
//! ray-box test is decided without rounding.

use vstd::prelude::*;

verus! {

/// One end of an interval of ray parameters: a fraction `num / den`, counted
/// in ticks as the parameters are, or one of the two infinities.
#[derive(Clone, Copy, Debug)]
pub enum Bound {
    NegInf,
    Finite { num: i64, den: i64 },
    PosInf,
}

/// An open interval of ray parameters; it is empty unless `low` is below
/// `high`.
#[derive(Clone, Copy, Debug)]
pub struct Interval {
    pub low: Bound,
    pub high: Bound,
}

/// Chains two comparisons of fractions with positive denominators, the
/// second of them strict.
pub proof fn lemma_fraction_le_lt(n1: int, d1: int, n2: int, d2: int, n3: int, d3: int)
    requires
        d1 > 0,
        d2 > 0,
        d3 > 0,
        n1 * d2 <= n2 * d1,
        n2 * d3 < n3 * d2,
    ensures
        n1 * d3 < n3 * d1,
{
    assert(n1 * d3 < n3 * d1) by (nonlinear_arith)
        requires
            d1 > 0,
            d2 > 0,
            d3 > 0,
            n1 * d2 <= n2 * d1,
            n2 * d3 < n3 * d2,
    {
        assert((n1 * d2) * d3 <= (n2 * d1) * d3);
        assert((n2 * d3) * d1 < (n3 * d2) * d1);
        assert((n1 * d3) * d2 < (n3 * d1) * d2);
    }
}

/// Chains two comparisons of fractions with positive denominators, the first
/// of them strict.
pub proof fn lemma_fraction_lt_le(n1: int, d1: int, n2: int, d2: int, n3: int, d3: int)
    requires
        d1 > 0,
        d2 > 0,
        d3 > 0,
        n1 * d2 < n2 * d1,
        n2 * d3 <= n3 * d2,
    ensures
        n1 * d3 < n3 * d1,
{
    assert(n1 * d3 < n3 * d1) by (nonlinear_arith)
        requires
            d1 > 0,
            d2 > 0,
            d3 > 0,
            n1 * d2 < n2 * d1,
            n2 * d3 <= n3 * d2,
    {
        assert((n1 * d2) * d3 < (n2 * d1) * d3);
        assert((n2 * d3) * d1 <= (n3 * d2) * d1);
        assert((n1 * d3) * d2 < (n3 * d1) * d2);
    }
}

proof fn lemma_product_fits(a: int, b: int)
    requires
        -0x8000_0000_0000_0000 <= a <= 0x8000_0000_0000_0000,
        -0x8000_0000_0000_0000 <= b <= 0x8000_0000_0000_0000,
    ensures
        -0x4000_0000_0000_0000_0000_0000_0000_0000 <= a * b
            <= 0x4000_0000_0000_0000_0000_0000_0000_0000,
{
    assert(-0x4000_0000_0000_0000_0000_0000_0000_0000 <= a * b
        <= 0x4000_0000_0000_0000_0000_0000_0000_0000) by (nonlinear_arith)
        requires
            -0x8000_0000_0000_0000 <= a <= 0x8000_0000_0000_0000,
            -0x8000_0000_0000_0000 <= b <= 0x8000_0000_0000_0000,
    {
        assert((0x8000_0000_0000_0000 - a) * (0x8000_0000_0000_0000 - b) >= 0);
        assert((0x8000_0000_0000_0000 + a) * (0x8000_0000_0000_0000 + b) >= 0);
        assert((0x8000_0000_0000_0000 - a) * (0x8000_0000_0000_0000 + b) >= 0);
        assert((0x8000_0000_0000_0000 + a) * (0x8000_0000_0000_0000 - b) >= 0);
    }
}

impl Bound {
    /// A finite end has a positive denominator.
    pub open spec fn wf(self) -> bool {
        self matches Bound::Finite { den, .. } ==> den > 0
    }

    /// Whether `self` is strictly below `other` in the order of the extended
    /// rationals. Neither infinity is below itself.
    pub open spec fn below(self, other: Bound) -> bool {
        match (self, other) {
            (Bound::PosInf, _) => false,
            (_, Bound::NegInf) => false,
            (Bound::NegInf, _) => true,
            (_, Bound::PosInf) => true,
            (Bound::Finite { num: n1, den: d1 }, Bound::Finite { num: n2, den: d2 }) => n1 * d2
                < n2 * d1,
        }
    }

    /// The greater of two ends; `self` where neither is below the other.
    pub open spec fn upper(self, other: Bound) -> Bound {
        if self.below(other) {
            other
        } else {
            self
        }
    }

    /// The lesser of two ends; `self` where neither is below the other.
    pub open spec fn lower(self, other: Bound) -> Bound {
        if other.below(self) {
            other
        } else {
            self
        }
    }

    /// Decides [`Bound::below`] by cross-multiplication.
    pub fn is_below(&self, other: &Bound) -> (r: bool)
        ensures
            r == self.below(*other),
    {
        match (*self, *other) {
            (Bound::PosInf, _) => false,
            (_, Bound::NegInf) => false,
            (Bound::NegInf, _) => true,
            (_, Bound::PosInf) => true,
            (Bound::Finite { num: n1, den: d1 }, Bound::Finite { num: n2, den: d2 }) => {
                proof {
                    lemma_product_fits(n1 as int, d2 as int);
                    lemma_product_fits(n2 as int, d1 as int);
                }
                (n1 as i128) * (d2 as i128) < (n2 as i128) * (d1 as i128)
            },
        }
    }

    /// Below is transitive on well-formed ends.
    pub proof fn lemma_below_transitive(a: Bound, b: Bound, c: Bound)
        requires
            a.wf(),
            b.wf(),
            c.wf(),
            a.below(b),
            b.below(c),
        ensures
            a.below(c),
    {
        match (a, b, c) {
            (
                Bound::Finite { num: n1, den: d1 },
                Bound::Finite { num: n2, den: d2 },
                Bound::Finite { num: n3, den: d3 },
            ) => {
                lemma_fraction_le_lt(
                    n1 as int,
                    d1 as int,
                    n2 as int,
                    d2 as int,
                    n3 as int,
                    d3 as int,
                );
            },
            _ => {},
        }
    }

    /// An end that is not above `b` is below whatever `b` is below.
    pub proof fn lemma_not_above_then_below(a: Bound, b: Bound, c: Bound)
        requires
            a.wf(),
            b.wf(),
            c.wf(),
            !b.below(a),
            b.below(c),
        ensures
            a.below(c),
    {
        match (a, b, c) {
            (
                Bound::Finite { num: n1, den: d1 },
                Bound::Finite { num: n2, den: d2 },
                Bound::Finite { num: n3, den: d3 },
            ) => {
                lemma_fraction_le_lt(
                    n1 as int,
                    d1 as int,
                    n2 as int,
                    d2 as int,
                    n3 as int,
                    d3 as int,
                );
            },
            _ => {},
        }
    }

    /// Whatever is below `a` is below an end that `a` is not above.
    pub proof fn lemma_below_then_not_above(a: Bound, b: Bound, c: Bound)
        requires
            a.wf(),
            b.wf(),
            c.wf(),
            a.below(b),
            !c.below(b),
        ensures
            a.below(c),
    {
        match (a, b, c) {
            (
                Bound::Finite { num: n1, den: d1 },
                Bound::Finite { num: n2, den: d2 },
                Bound::Finite { num: n3, den: d3 },
            ) => {
                lemma_fraction_lt_le(
                    n1 as int,
                    d1 as int,
                    n2 as int,
                    d2 as int,
                    n3 as int,
                    d3 as int,
                );
            },
            _ => {},
        }
    }

    /// The greater of two ends is below `c` exactly when both are.
    pub proof fn lemma_upper_below(a: Bound, b: Bound, c: Bound)
        requires
            a.wf(),
            b.wf(),
            c.wf(),
        ensures
            a.upper(b).below(c) <==> a.below(c) && b.below(c),
    {
        if a.below(b) {
            if b.below(c) {
                Self::lemma_below_transitive(a, b, c);
            }
        } else {
            if a.below(c) {
                Self::lemma_not_above_then_below(b, a, c);
            }
        }
    }

    /// `c` is below the lesser of two ends exactly when it is below both.
    pub proof fn lemma_below_lower(a: Bound, b: Bound, c: Bound)
        requires
            a.wf(),
            b.wf(),
            c.wf(),
        ensures
            c.below(a.lower(b)) <==> c.below(a) && c.below(b),
    {
        if b.below(a) {
            if c.below(b) {
                Self::lemma_below_transitive(c, b, a);
            }
        } else {
            if c.below(a) {
                Self::lemma_below_then_not_above(c, a, b);
            }
        }
    }

    /// The greater of two ends, `self` on a tie.
    pub fn max(self, other: Bound) -> (m: Bound)
        ensures
            m == self.upper(other),
    {
        if self.is_below(&other) {
            other
        } else {
            self
        }
    }

    /// The lesser of two ends, `self` on a tie.
    pub fn min(self, other: Bound) -> (m: Bound)
        ensures
            m == self.lower(other),
    {
        if other.is_below(&self) {
            other
        } else {
            self
        }
    }
}

impl Bound {
    /// Whether the end lies strictly before the parameter `n / m`, for a
    /// positive `m`.
    pub open spec fn before(self, n: int, m: int) -> bool {
        match self {
            Bound::NegInf => true,
            Bound::Finite { num, den } => num * m < n * den,
            Bound::PosInf => false,
        }
    }

    /// Whether the end lies strictly after the parameter `n / m`, for a
    /// positive `m`.
    pub open spec fn after(self, n: int, m: int) -> bool {
        match self {
            Bound::NegInf => false,
            Bound::Finite { num, den } => n * den < num * m,
            Bound::PosInf => true,
        }
    }

    /// An end before a parameter is below an end after it.
    pub proof fn lemma_around_a_parameter(a: Bound, b: Bound, n: int, m: int)
        requires
            a.wf(),
            b.wf(),
            m > 0,
            a.before(n, m),
            b.after(n, m),
        ensures
            a.below(b),
    {
        match (a, b) {
            (Bound::Finite { num: n1, den: d1 }, Bound::Finite { num: n2, den: d2 }) => {
                lemma_fraction_le_lt(n1 as int, d1 as int, n, m, n2 as int, d2 as int);
            },
            _ => {},
        }
    }
}

impl Bound {
    /// An end that `a` is not below lies before every parameter that `a`
    /// lies before.
    pub proof fn lemma_not_above_then_before(a: Bound, x: Bound, n: int, m: int)
        requires
            a.wf(),
            x.wf(),
            m > 0,
            !a.below(x),
            a.before(n, m),
        ensures
            x.before(n, m),
    {
        match (a, x) {
            (Bound::Finite { num: n1, den: d1 }, Bound::Finite { num: n2, den: d2 }) => {
                lemma_fraction_le_lt(n2 as int, d2 as int, n1 as int, d1 as int, n, m);
            },
            _ => {},
        }
    }

    /// An end that is not below `a` lies after every parameter that `a`
    /// lies after.
    pub proof fn lemma_not_below_then_after(a: Bound, x: Bound, n: int, m: int)
        requires
            a.wf(),
            x.wf(),
            m > 0,
            !x.below(a),
            a.after(n, m),
        ensures
            x.after(n, m),
    {
        match (a, x) {
            (Bound::Finite { num: n1, den: d1 }, Bound::Finite { num: n2, den: d2 }) => {
                lemma_fraction_lt_le(n, m, n1 as int, d1 as int, n2 as int, d2 as int);
            },
            _ => {},
        }
    }

    /// Between two finite ends of which the first is below the second lies
    /// their mean.
    pub proof fn lemma_mean_lies_between(a: Bound, b: Bound)
        requires
            a.wf(),
            b.wf(),
            a is Finite,
            b is Finite,
            a.below(b),
        ensures
            2 * a->den * b->den > 0,
            a.before(a->num * b->den + b->num * a->den, 2 * a->den * b->den),
            b.after(a->num * b->den + b->num * a->den, 2 * a->den * b->den),
    {
        let n1 = a->num as int;
        let d1 = a->den as int;
        let n2 = b->num as int;
        let d2 = b->den as int;
        assert(2 * d1 * d2 > 0 && n1 * (2 * d1 * d2) < (n1 * d2 + n2 * d1) * d1 && (n1 * d2 + n2
            * d1) * d2 < n2 * (2 * d1 * d2)) by (nonlinear_arith)
            requires
                d1 > 0,
                d2 > 0,
                n1 * d2 < n2 * d1,
        {
            assert((n1 * d2) * d1 < (n2 * d1) * d1);
            assert((n1 * d2) * d2 < (n2 * d1) * d2);
        }
    }
}

impl Interval {
    /// Whether the interval holds the parameter `n / m`, for a positive
    /// `m`.
    pub open spec fn holds(self, n: int, m: int) -> bool {
        self.low.before(n, m) && self.high.after(n, m)
    }

    /// Four intervals that hold one parameter overlap two by two.
    pub proof fn lemma_common_parameter(
        a: Interval,
        b: Interval,
        c: Interval,
        d: Interval,
        n: int,
        m: int,
    )
        requires
            a.wf() && b.wf() && c.wf() && d.wf(),
            m > 0,
            a.holds(n, m),
            b.holds(n, m),
            c.holds(n, m),
            d.holds(n, m),
        ensures
            Self::pairwise(a, b, c, d),
    {
        let all = seq![a, b, c, d];
        assert forall|i: int, j: int| 0 <= i < 4 && 0 <= j < 4 implies (#[trigger] all[i]).low.below(
            (#[trigger] all[j]).high,
        ) by {
            Bound::lemma_around_a_parameter(all[i].low, all[j].high, n, m);
        }
    }

    /// The common part of four intervals lies within each of them: its low
    /// end is below none of their low ends, and none of their high ends is
    /// below its high end.
    pub proof fn lemma_meet_lies_within(a: Interval, b: Interval, c: Interval, d: Interval)
        requires
            a.wf() && b.wf() && c.wf() && d.wf(),
        ensures
            a.meet(b).meet(c).meet(d).wf(),
            !a.meet(b).meet(c).meet(d).low.below(a.low),
            !a.meet(b).meet(c).meet(d).low.below(b.low),
            !a.meet(b).meet(c).meet(d).low.below(c.low),
            !a.meet(b).meet(c).meet(d).low.below(d.low),
            !a.high.below(a.meet(b).meet(c).meet(d).high),
            !b.high.below(a.meet(b).meet(c).meet(d).high),
            !c.high.below(a.meet(b).meet(c).meet(d).high),
            !d.high.below(a.meet(b).meet(c).meet(d).high),
    {
        let ab = a.meet(b);
        let abc = ab.meet(c);
        assert forall|h: Bound| h.wf() implies (abc.meet(d).low.below(h) <==> a.low.below(h)
            && b.low.below(h) && c.low.below(h) && d.low.below(h)) by {
            Bound::lemma_upper_below(a.low, b.low, h);
            Bound::lemma_upper_below(ab.low, c.low, h);
            Bound::lemma_upper_below(abc.low, d.low, h);
        }
        assert forall|l: Bound| l.wf() implies (l.below(abc.meet(d).high) <==> l.below(a.high)
            && l.below(b.high) && l.below(c.high) && l.below(d.high)) by {
            Bound::lemma_below_lower(a.high, b.high, l);
            Bound::lemma_below_lower(ab.high, c.high, l);
            Bound::lemma_below_lower(abc.high, d.high, l);
        }
    }

    /// Both ends are well formed.
    pub open spec fn wf(self) -> bool {
        self.low.wf() && self.high.wf()
    }

    /// The interval of parameters strictly between `t_min` and `t_max`.
    pub open spec fn range(t_min: i64, t_max: i64) -> Interval {
        Interval {
            low: Bound::Finite { num: t_min, den: 1 },
            high: Bound::Finite { num: t_max, den: 1 },
        }
    }

    /// The interval of all parameters.
    pub open spec fn everything() -> Interval {
        Interval { low: Bound::NegInf, high: Bound::PosInf }
    }

    /// The canonical empty interval.
    pub open spec fn nothing() -> Interval {
        Interval { low: Bound::PosInf, high: Bound::NegInf }
    }

    /// The parameters at which a ray with origin `o` and direction `d` on one
    /// axis lies strictly between `lo` and `hi` on that axis. The position at
    /// parameter `t` is `o + d * t / ONE`.
    ///
    /// A ray that does not move along the axis is inside at every parameter
    /// or at none.
    pub open spec fn slab(lo: i32, hi: i32, o: i32, d: i32) -> Interval {
        if d > 0 {
            Interval {
                low: Bound::Finite { num: ((lo - o) * crate::vec3::ONE) as i64, den: d as i64 },
                high: Bound::Finite { num: ((hi - o) * crate::vec3::ONE) as i64, den: d as i64 },
            }
        } else if d < 0 {
            Interval {
                low: Bound::Finite { num: ((o - hi) * crate::vec3::ONE) as i64, den: (-d) as i64 },
                high: Bound::Finite { num: ((o - lo) * crate::vec3::ONE) as i64, den: (-d) as i64 },
            }
        } else if lo < o < hi {
            Self::everything()
        } else {
            Self::nothing()
        }
    }

    /// The common part of two intervals.
    pub open spec fn meet(self, other: Interval) -> Interval {
        Interval { low: self.low.upper(other.low), high: self.high.lower(other.high) }
    }

    /// Whether the interval holds a parameter.
    pub open spec fn inhabited(self) -> bool {
        self.low.below(self.high)
    }

    /// Whether the four intervals overlap two by two: the low end of each is
    /// below the high end of each, its own included.
    pub open spec fn pairwise(a: Interval, b: Interval, c: Interval, d: Interval) -> bool {
        let all = seq![a, b, c, d];
        forall|i: int, j: int| 0 <= i < 4 && 0 <= j < 4 ==> (#[trigger] all[i]).low.below((#[trigger] all[j]).high)
    }

    /// Computes [`Interval::slab`].
    pub fn for_axis(lo: i32, hi: i32, o: i32, d: i32) -> (s: Interval)
        ensures
            s == Self::slab(lo, hi, o, d),
            s.wf(),
    {
        if d > 0 {
            Interval {
                low: Bound::Finite { num: (lo as i64 - o as i64) * 65536, den: d as i64 },
                high: Bound::Finite { num: (hi as i64 - o as i64) * 65536, den: d as i64 },
            }
        } else if d < 0 {
            Interval {
                low: Bound::Finite { num: (o as i64 - hi as i64) * 65536, den: -(d as i64) },
                high: Bound::Finite { num: (o as i64 - lo as i64) * 65536, den: -(d as i64) },
            }
        } else if lo < o && o < hi {
            Interval { low: Bound::NegInf, high: Bound::PosInf }
        } else {
            Interval { low: Bound::PosInf, high: Bound::NegInf }
        }
    }

    /// Computes [`Interval::meet`].
    pub fn intersect(self, other: Interval) -> (m: Interval)
        ensures
            m == self.meet(other),
            self.wf() && other.wf() ==> m.wf(),
    {
        Interval { low: self.low.max(other.low), high: self.high.min(other.high) }
    }

    /// Four intervals have a common part exactly when they overlap two by
    /// two.
    pub proof fn lemma_meet_is_pairwise(a: Interval, b: Interval, c: Interval, d: Interval)
        requires
            a.wf(),
            b.wf(),
            c.wf(),
            d.wf(),
        ensures
            a.meet(b).meet(c).meet(d).inhabited() <==> Self::pairwise(a, b, c, d),
    {
        let ab = a.meet(b);
        let abc = ab.meet(c);
        let abcd = abc.meet(d);
        let all = seq![a, b, c, d];
        assert(ab.wf() && abc.wf() && abcd.wf());
        assert forall|h: Bound| h.wf() implies (abcd.low.below(h) <==> a.low.below(h) && b.low.below(
            h,
        ) && c.low.below(h) && d.low.below(h)) by {
            Bound::lemma_upper_below(a.low, b.low, h);
            Bound::lemma_upper_below(ab.low, c.low, h);
            Bound::lemma_upper_below(abc.low, d.low, h);
        }
        assert forall|l: Bound| l.wf() implies (l.below(abcd.high) <==> l.below(a.high) && l.below(
            b.high,
        ) && l.below(c.high) && l.below(d.high)) by {
            Bound::lemma_below_lower(a.high, b.high, l);
            Bound::lemma_below_lower(ab.high, c.high, l);
            Bound::lemma_below_lower(abc.high, d.high, l);
        }
        if abcd.inhabited() {
            assert(abcd.low.below(abcd.high));
            assert(a.low.below(abcd.high));
            assert(b.low.below(abcd.high));
            assert(c.low.below(abcd.high));
            assert(d.low.below(abcd.high));
            assert forall|i: int, j: int| 0 <= i < 4 && 0 <= j < 4 implies (#[trigger] all[i]).low.below(
                (#[trigger] all[j]).high,
            ) by {}
        }
        if Self::pairwise(a, b, c, d) {
            assert(all[0] == a && all[1] == b && all[2] == c && all[3] == d);
            assert(all[0].low.below(all[0].high) && all[0].low.below(all[1].high) && all[0].low.below(
                all[2].high,
            ) && all[0].low.below(all[3].high));
            assert(all[1].low.below(all[0].high) && all[1].low.below(all[1].high) && all[1].low.below(
                all[2].high,
            ) && all[1].low.below(all[3].high));
            assert(all[2].low.below(all[0].high) && all[2].low.below(all[1].high) && all[2].low.below(
                all[2].high,
            ) && all[2].low.below(all[3].high));
            assert(all[3].low.below(all[0].high) && all[3].low.below(all[1].high) && all[3].low.below(
                all[2].high,
            ) && all[3].low.below(all[3].high));
            assert(a.low.below(abcd.high));
            assert(b.low.below(abcd.high));
            assert(c.low.below(abcd.high));
            assert(d.low.below(abcd.high));
            assert(abcd.low.below(abcd.high));
        }
    }
}

} // verus!
