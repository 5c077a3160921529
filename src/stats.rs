//! Exact one-sided statistics over integer readings.
//!
//! A series of readings is summarised by four integers: how many readings
//! there are (`count`), their sum (`total`), how many lie strictly above the
//! mean (`above`), and the summed excursions above the mean (`excess`), the
//! latter scaled by `count` so that everything stays an integer:
//! `excess == Σ_{x > mean} (x * count - total)`.
//! The mean is `total / count`; the one-sided deviation is
//! `excess / (count * above)` when `above > 0`, and zero otherwise.
use vstd::prelude::*;

verus! {

/// Largest number of readings a series may hold.
pub const MAX_SAMPLES: usize = 0xffff_ffff;

/// Largest magnitude of a single reading.
pub const READING_BOUND: i64 = 0x1_0000_0000;

pub open spec fn reading_ok(x: int) -> bool {
    -READING_BOUND <= x <= READING_BOUND
}

/// Readings as mathematical integers.
pub open spec fn ints(v: Seq<i64>) -> Seq<int> {
    v.map_values(|x: i64| x as int)
}

/// Sum of a series.
pub open spec fn total_of(s: Seq<int>) -> int
    decreases s.len(),
{
    if s.len() == 0 {
        0
    } else {
        total_of(s.drop_last()) + s.last()
    }
}

/// How many readings `x` satisfy `x * n > t`, that is `x > t / n`.
pub open spec fn count_above(s: Seq<int>, n: int, t: int) -> int
    decreases s.len(),
{
    if s.len() == 0 {
        0
    } else {
        count_above(s.drop_last(), n, t) + if s.last() * n > t {
            1int
        } else {
            0int
        }
    }
}

/// Sum of `x * n - t` over the readings with `x * n > t`.
pub open spec fn excess_above(s: Seq<int>, n: int, t: int) -> int
    decreases s.len(),
{
    if s.len() == 0 {
        0
    } else {
        excess_above(s.drop_last(), n, t) + if s.last() * n > t {
            s.last() * n - t
        } else {
            0int
        }
    }
}

/// Mean and one-sided deviation of a series of readings, kept exact.
#[derive(Clone, Copy, Debug, PartialEq, Eq)]
pub struct Stat {
    pub count: u64,
    pub total: i128,
    pub above: u64,
    pub excess: i128,
}

impl Stat {
    /// `self` is the summary of the series `s`.
    pub open spec fn describes(&self, s: Seq<int>) -> bool {
        &&& self.count == s.len()
        &&& self.total == total_of(s)
        &&& self.above == count_above(s, s.len() as int, total_of(s))
        &&& self.excess == excess_above(s, s.len() as int, total_of(s))
    }

    /// The ranges that every summary of a non-empty admissible series keeps.
    pub open spec fn wf(&self) -> bool {
        &&& 1 <= self.count <= MAX_SAMPLES
        &&& -self.count * READING_BOUND <= self.total <= self.count * READING_BOUND
        &&& self.above <= self.count
        &&& 0 <= self.excess <= self.above * (4 * READING_BOUND * READING_BOUND)
        &&& (self.above == 0) == (self.excess == 0)
    }

    /// `u` lies above the mean by more than `m` times the one-sided
    /// deviation: `u - total / count > m * excess / (count * above)`,
    /// where the deviation is zero when no reading lay above the mean.
    pub open spec fn exceeded_by(&self, u: int, m: int) -> bool {
        if self.above == 0 {
            u * self.count > self.total
        } else {
            self.above * (u * self.count - self.total) > m * self.excess
        }
    }

    /// Whether the reading `u` is anomalous against this summary under the
    /// sensitivity multiplier `m`.
    pub fn is_exceeded_by(&self, u: i64, m: u64) -> (r: bool)
        requires
            self.wf(),
            reading_ok(u as int),
        ensures
            r == self.exceeded_by(u as int, m as int),
    {
        let n = self.count as i128;
        assert(-0x1_0000_0000_0000_0000 <= u * self.count <= 0x1_0000_0000_0000_0000)
            by (nonlinear_arith)
            requires
                -0x1_0000_0000 <= u <= 0x1_0000_0000,
                0 <= self.count <= 0xffff_ffff,
        ;
        assert(self.count * 0x1_0000_0000 <= 0x1_0000_0000_0000_0000) by (nonlinear_arith)
            requires
                0 <= self.count <= 0xffff_ffff,
        ;
        let d: i128 = (u as i128) * n - self.total;
        if self.above == 0 {
            d > 0
        } else if d <= 0 {
            assert(self.above * d <= 0) by (nonlinear_arith)
                requires
                    self.above >= 0,
                    d <= 0,
            ;
            assert(m * self.excess >= 0) by (nonlinear_arith)
                requires
                    m >= 0,
                    self.excess >= 0,
            ;
            false
        } else {
            assert(self.above * d <= 0xffff_ffff * 0x2_0000_0000_0000_0000) by (nonlinear_arith)
                requires
                    0 <= self.above <= 0xffff_ffff,
                    0 < d <= 0x2_0000_0000_0000_0000,
            ;
            let l: i128 = (self.above as i128) * d;
            match (m as u128).checked_mul(self.excess as u128) {
                None => false,
                Some(p) => (l as u128) > p,
            }
        }
    }
}

/// Summarises a non-empty series of admissible readings.
pub fn summarize(values: &Vec<i64>) -> (r: Stat)
    requires
        1 <= values.len() <= MAX_SAMPLES,
        forall|i: int| 0 <= i < values.len() ==> reading_ok(values@[i] as int),
    ensures
        r.describes(ints(values@)),
        r.wf(),
{
    let ghost s = ints(values@);
    let len = values.len();
    let mut t: i128 = 0;
    let mut i: usize = 0;
    while i < len
        invariant
            len == values.len(),
            s == ints(values@),
            len <= MAX_SAMPLES,
            forall|j: int| 0 <= j < values.len() ==> reading_ok(values@[j] as int),
            0 <= i <= len,
            t == total_of(s.take(i as int)),
            -i * READING_BOUND <= t <= i * READING_BOUND,
        decreases len - i,
    {
        assert(s.take(i + 1).drop_last() =~= s.take(i as int));
        t = t + values[i] as i128;
        i = i + 1;
    }
    assert(s.take(len as int) =~= s);
    let n = len as i128;
    let ghost ni = len as int;
    let mut k: u64 = 0;
    let mut e: i128 = 0;
    let mut i: usize = 0;
    while i < len
        invariant
            len == values.len(),
            n == len,
            ni == len,
            s == ints(values@),
            len <= MAX_SAMPLES,
            forall|j: int| 0 <= j < values.len() ==> reading_ok(values@[j] as int),
            -len * READING_BOUND <= t <= len * READING_BOUND,
            t == total_of(s),
            0 <= i <= len,
            k == count_above(s.take(i as int), ni, t as int),
            e == excess_above(s.take(i as int), ni, t as int),
            k <= i,
            0 <= e <= k * (4 * READING_BOUND * READING_BOUND),
            (k == 0) == (e == 0),
        decreases len - i,
    {
        assert(s.take(i + 1).drop_last() =~= s.take(i as int));
        let x = values[i] as i128;
        assert(-0x1_0000_0000_0000_0000 <= x * ni <= 0x1_0000_0000_0000_0000) by (nonlinear_arith)
            requires
                -0x1_0000_0000 <= x <= 0x1_0000_0000,
                0 <= ni <= 0xffff_ffff,
        ;
        assert(ni * 0x1_0000_0000 <= 0x1_0000_0000_0000_0000) by (nonlinear_arith)
            requires
                0 <= ni <= 0xffff_ffff,
        ;
        assert(k * 0x4_0000_0000_0000_0000 <= 0xffff_ffff * 0x4_0000_0000_0000_0000)
            by (nonlinear_arith)
            requires
                0 <= k <= 0xffff_ffff,
        ;
        assert((k + 1) * 0x4_0000_0000_0000_0000 == k * 0x4_0000_0000_0000_0000
            + 0x4_0000_0000_0000_0000);
        let y = x * n;
        if y > t {
            e = e + (y - t);
            k = k + 1;
        }
        i = i + 1;
    }
    assert(s.take(len as int) =~= s);
    Stat { count: len as u64, total: t, above: k, excess: e }
}

proof fn lemma_none_above(s: Seq<int>, n: int, t: int)
    requires
        forall|i: int| 0 <= i < s.len() ==> s[i] * n <= t,
    ensures
        count_above(s, n, t) == 0,
        excess_above(s, n, t) == 0,
    decreases s.len(),
{
    if s.len() > 0 {
        lemma_none_above(s.drop_last(), n, t);
    }
}

proof fn lemma_total_constant(s: Seq<int>, c: int)
    requires
        forall|i: int| 0 <= i < s.len() ==> s[i] == c,
    ensures
        total_of(s) == c * s.len(),
    decreases s.len(),
{
    if s.len() > 0 {
        lemma_total_constant(s.drop_last(), c);
        assert(c * (s.len() - 1) + c == c * s.len()) by (nonlinear_arith);
    }
}

/// A series whose readings all equal `c` has mean `c` and one-sided
/// deviation zero: no reading lies above the mean.
pub proof fn lemma_constant_series(st: Stat, s: Seq<int>, c: int)
    requires
        st.describes(s),
        forall|i: int| 0 <= i < s.len() ==> s[i] == c,
    ensures
        st.total == c * st.count,
        st.above == 0,
        st.excess == 0,
{
    lemma_total_constant(s, c);
    assert forall|i: int| 0 <= i < s.len() implies s[i] * s.len() <= total_of(s) by {
        assert(s[i] * s.len() == c * s.len());
    }
    lemma_none_above(s, s.len() as int, total_of(s));
}

/// A reading equal to the mean is never anomalous, whatever the multiplier.
pub proof fn lemma_mean_not_exceeded(st: Stat, u: int, m: int)
    requires
        st.wf(),
        m >= 0,
        u * st.count == st.total,
    ensures
        !st.exceeded_by(u, m),
{
    assert(m * st.excess >= 0) by (nonlinear_arith)
        requires
            m >= 0,
            st.excess >= 0,
    ;
}

/// With multiplier zero a reading is anomalous exactly when it lies above the
/// mean by any positive amount.
pub proof fn lemma_zero_multiplier(st: Stat, u: int)
    requires
        st.wf(),
    ensures
        st.exceeded_by(u, 0) <==> u * st.count > st.total,
{
    if st.above > 0 {
        let d = u * st.count - st.total;
        assert(st.above * d > 0 <==> d > 0) by (nonlinear_arith)
            requires
                st.above > 0,
        ;
    }
}

} // verus!
