//! Scores as exact fractions.
//!
//! A candidate's score blends its lexical similarity to the query with its
//! proximity to a location. Both terms are kept as fractions of integers, and
//! every decision of the ranking (the threshold, the order) is taken on the
//! exact value of the blend.

use vstd::prelude::*;
use crate::store::CityData;

verus! {

/// A non-negative fraction. It is well formed when its denominator is not 0.
#[derive(Clone, Copy, Debug, PartialEq, Eq)]
pub struct Ratio {
    pub num: u64,
    pub den: u64,
}

/// The score of one candidate: its similarity to the query, and its
/// proximity to the location where one was given.
#[derive(Clone, Copy, Debug, PartialEq, Eq)]
pub struct Score {
    pub similarity: Ratio,
    pub proximity: Option<Ratio>,
}

/// Weight of the similarity in the blend.
pub const SIMILARITY_WEIGHT: u64 = 5;

/// Weight of the proximity in the blend.
pub const PROXIMITY_WEIGHT: u64 = 3;

/// Sum of the two weights.
pub const TOTAL_WEIGHT: u64 = 8;

/// A candidate is kept when its score is more than 13/20.
pub const THRESHOLD_NUM: u64 = 13;

pub const THRESHOLD_DEN: u64 = 20;

/// Distances below this many metres count as perfect proximity.
pub const NEAR_LIMIT: u32 = 400_000;

/// From `NEAR_LIMIT` on, proximity is `FALLOFF_SCALE` over the difference of
/// the squares of the distance and of `FALLOFF_OFFSET`, both in metres.
pub const FALLOFF_OFFSET: u64 = 399_900;

pub const FALLOFF_SCALE: u64 = 400_000_000;

impl Ratio {
    pub open spec fn wf(self) -> bool {
        self.den > 0
    }

    /// `self` is the larger fraction.
    pub open spec fn gt(self, other: Ratio) -> bool {
        self.num * other.den > other.num * self.den
    }
}

/// Proximity of a candidate `distance` metres away.
pub open spec fn proximity(distance: u32) -> Ratio {
    if distance < NEAR_LIMIT {
        Ratio { num: 1, den: 1 }
    } else {
        Ratio {
            num: FALLOFF_SCALE,
            den: (distance * distance - FALLOFF_OFFSET * FALLOFF_OFFSET) as u64,
        }
    }
}

/// Similarity of a query of `term_len` bytes to a name at edit distance
/// `str_dist`: the share of the query that needs no edit, and 0 when the
/// distance reaches the query's length.
pub open spec fn similarity(str_dist: nat, term_len: nat) -> Ratio {
    if str_dist >= term_len {
        Ratio { num: 0, den: 1 }
    } else {
        Ratio { num: (term_len - str_dist) as u64, den: term_len as u64 }
    }
}

/// Score of a candidate at edit distance `str_dist` from a query of
/// `term_len` bytes, `distance` metres from the location if one was given.
/// A candidate of similarity 0 has no proximity.
pub open spec fn score_of(str_dist: nat, term_len: nat, distance: Option<u32>) -> Score {
    if str_dist >= term_len {
        Score { similarity: similarity(str_dist, term_len), proximity: None }
    } else {
        Score {
            similarity: similarity(str_dist, term_len),
            proximity: match distance {
                Some(d) => Some(proximity(d)),
                None => None,
            },
        }
    }
}

impl Score {
    pub open spec fn wf(self) -> bool {
        &&& self.similarity.den > 0
        &&& self.similarity.num <= self.similarity.den
        &&& self.proximity matches Some(p) ==> p.den > 0 && p.num <= FALLOFF_SCALE
    }

    /// The proximity where one is known; the similarity stands in for it
    /// where none is.
    pub open spec fn proximity_term(self) -> Ratio {
        match self.proximity {
            Some(p) => p,
            None => self.similarity,
        }
    }

    /// Numerator of the blend `(5 * similarity + 3 * proximity) / 8`. The
    /// blend of a candidate of similarity 0 is 0.
    pub open spec fn composite_num(self) -> int {
        if self.similarity.num == 0 {
            0
        } else {
            SIMILARITY_WEIGHT * self.similarity.num * self.proximity_term().den + PROXIMITY_WEIGHT
                * self.proximity_term().num * self.similarity.den
        }
    }

    /// Denominator of the blend.
    pub open spec fn composite_den(self) -> int {
        if self.similarity.num == 0 {
            1
        } else {
            TOTAL_WEIGHT * self.similarity.den * self.proximity_term().den
        }
    }

    /// The blend is more than the threshold.
    pub open spec fn exceeds_threshold(self) -> bool {
        THRESHOLD_DEN * self.composite_num() > THRESHOLD_NUM * self.composite_den()
    }

    /// The blend of `self` is more than that of `other`.
    pub open spec fn higher_than(self, other: Score) -> bool {
        self.composite_num() * other.composite_den() > other.composite_num() * self.composite_den()
    }

    /// The two blends have the same value.
    pub open spec fn level_with(self, other: Score) -> bool {
        self.composite_num() * other.composite_den() == other.composite_num() * self.composite_den()
    }

    /// Two scores of one search: they rate the same query, and both with a
    /// location or both without.
    pub open spec fn comparable(self, other: Score) -> bool {
        &&& self.similarity.num > 0
        &&& other.similarity.num > 0
        &&& self.similarity.den == other.similarity.den
        &&& self.proximity is Some <==> other.proximity is Some
    }
}

impl CityData {
    /// Proximity of a candidate `dist` metres away: 1 below 400 km, and from
    /// there on `400 / (km^2 - 399.9^2)`, with `km` the distance in
    /// kilometres.
    pub fn dist_score(dist: u32) -> (r: Ratio)
        ensures
            r == proximity(dist),
            r.den > 0,
            r.num <= FALLOFF_SCALE,
    {
        if dist < NEAR_LIMIT {
            Ratio { num: 1, den: 1 }
        } else {
            let d: u64 = dist as u64;
            assert(d * d >= 400_000 * 400_000) by (nonlinear_arith)
                requires
                    d >= 400_000,
            ;
            assert(d * d <= 0xFFFF_FFFF * 0xFFFF_FFFF) by (nonlinear_arith)
                requires
                    d <= 0xFFFF_FFFF,
            ;
            Ratio { num: FALLOFF_SCALE, den: d * d - FALLOFF_OFFSET * FALLOFF_OFFSET }
        }
    }
}

/// Below 400 km proximity is 1.
pub proof fn lemma_proximity_near(distance: u32)
    requires
        distance < NEAR_LIMIT,
    ensures
        proximity(distance) == (Ratio { num: 1, den: 1 }),
{
}

/// From 400 km on proximity falls strictly with the distance.
pub proof fn lemma_proximity_falls(near: u32, far: u32)
    requires
        NEAR_LIMIT <= near < far,
    ensures
        proximity(near).wf(),
        proximity(far).wf(),
        proximity(near).gt(proximity(far)),
{
    let offset = FALLOFF_OFFSET * FALLOFF_OFFSET;
    assert(near * near >= 400_000 * 400_000) by (nonlinear_arith)
        requires
            near >= 400_000,
    ;
    assert(far * far > near * near) by (nonlinear_arith)
        requires
            0 <= near < far,
    ;
    assert(far * far <= 0xFFFF_FFFF * 0xFFFF_FFFF) by (nonlinear_arith)
        requires
            0 <= far <= 0xFFFF_FFFF,
    ;
    let dn = near * near - offset;
    let df = far * far - offset;
    assert(FALLOFF_SCALE * df > FALLOFF_SCALE * dn) by (nonlinear_arith)
        requires
            df > dn,
            FALLOFF_SCALE == 400_000_000,
    ;
}

/// Scores a candidate from its edit distance to the query, the query's
/// length in bytes, and its distance in metres from the location, if any.
pub fn score_from_distance(str_dist: usize, term_len: usize, distance: Option<u32>) -> (s: Score)
    ensures
        s == score_of(str_dist as nat, term_len as nat, distance),
        s.wf(),
{
    if str_dist >= term_len {
        Score { similarity: Ratio { num: 0, den: 1 }, proximity: None }
    } else {
        let sim = Ratio { num: (term_len - str_dist) as u64, den: term_len as u64 };
        let prox = match distance {
            Some(d) => Some(CityData::dist_score(d)),
            None => None,
        };
        Score { similarity: sim, proximity: prox }
    }
}

/// Comparing two sums of a whole part and a proper fraction: the whole
/// parts decide, and the fractions where those are equal.
proof fn lemma_compare_mixed(ix: int, rx: int, qx: int, iy: int, ry: int, qy: int)
    requires
        0 <= rx < qx,
        0 <= ry < qy,
    ensures
        ((ix * qx + rx) * qy > (iy * qy + ry) * qx) <==> (ix > iy || (ix == iy && rx * qy > ry
            * qx)),
{
    let d = qx * qy;
    assert((ix * qx + rx) * qy == ix * d + rx * qy) by (nonlinear_arith)
        requires
            d == qx * qy,
    ;
    assert((iy * qy + ry) * qx == iy * d + ry * qx) by (nonlinear_arith)
        requires
            d == qx * qy,
    ;
    assert(0 <= rx * qy < d) by (nonlinear_arith)
        requires
            0 <= rx < qx,
            0 < qy,
            d == qx * qy,
    ;
    assert(0 <= ry * qx < d) by (nonlinear_arith)
        requires
            0 <= ry < qy,
            0 < qx,
            d == qx * qy,
    ;
    if ix > iy {
        assert(ix * d >= iy * d + d) by (nonlinear_arith)
            requires
                ix >= iy + 1,
                d > 0,
        ;
    } else if ix < iy {
        assert(iy * d >= ix * d + d) by (nonlinear_arith)
            requires
                iy >= ix + 1,
                d > 0,
        ;
    }
}

/// Scaling both sides by a positive factor does not change a comparison.
proof fn lemma_scaled_comparison(a: int, b: int, k: int)
    requires
        k > 0,
    ensures
        (a * k > b * k) <==> (a > b),
        (a * k == b * k) <==> (a == b),
{
    assert((a * k > b * k) <==> (a > b)) by (nonlinear_arith)
        requires
            k > 0,
    ;
    assert((a * k == b * k) <==> (a == b)) by (nonlinear_arith)
        requires
            k > 0,
    ;
}

/// The weighted similarity plus the whole part of the weighted proximity,
/// and what is left of the latter, for a score with a location.
struct Mixed {
    whole: u128,
    rest: u128,
}

impl Score {
    /// The score's blend times `8 * similarity.den`, as a whole part and a
    /// remainder over the proximity's denominator.
    fn mixed(&self) -> (m: Mixed)
        requires
            self.wf(),
            self.proximity is Some,
        ensures
            m.rest < self.proximity->0.den,
            m.whole * self.proximity->0.den + m.rest == SIMILARITY_WEIGHT * self.similarity.num
                * self.proximity->0.den + PROXIMITY_WEIGHT * self.proximity->0.num
                * self.similarity.den,
            m.whole <= 0x8_0000_0000_0000_0000_0000_0000,
    {
        let p = self.proximity.unwrap();
        let a: u128 = self.similarity.num as u128;
        let l: u128 = self.similarity.den as u128;
        let q: u128 = p.den as u128;
        assert(3 * l * (p.num as u128) <= 3 * 0xFFFF_FFFF_FFFF_FFFF * 400_000_000)
            by (nonlinear_arith)
            requires
                l <= 0xFFFF_FFFF_FFFF_FFFF,
                p.num <= 400_000_000,
        ;
        let weighted: u128 = 3 * l * (p.num as u128);
        let whole_part: u128 = weighted / q;
        let rest: u128 = weighted % q;
        proof {
            vstd::arithmetic::div_mod::lemma_fundamental_div_mod(weighted as int, q as int);
            vstd::arithmetic::div_mod::lemma_mod_pos_bound(weighted as int, q as int);
            vstd::arithmetic::div_mod::lemma_div_pos_is_pos(weighted as int, q as int);
            assert(whole_part <= weighted) by (nonlinear_arith)
                requires
                    weighted == q * whole_part + rest,
                    q >= 1,
                    rest >= 0,
                    whole_part >= 0,
            ;
            assert((5 * a + whole_part) * q + rest == 5 * a * q + 3 * (p.num as u128) * l)
                by (nonlinear_arith)
                requires
                    weighted == q * whole_part + rest,
                    weighted == 3 * l * (p.num as u128),
            ;
        }
        Mixed { whole: 5 * a + whole_part, rest }
    }

    /// Decides whether the score is well formed.
    pub fn is_wf(&self) -> (b: bool)
        ensures
            b == self.wf(),
    {
        self.similarity.den > 0 && self.similarity.num <= self.similarity.den && match self.proximity {
            Some(p) => p.den > 0 && p.num <= FALLOFF_SCALE,
            None => true,
        }
    }

    /// Decides whether two scores can be of one search.
    pub fn is_comparable(&self, other: &Score) -> (b: bool)
        ensures
            b == self.comparable(*other),
    {
        self.similarity.num > 0 && other.similarity.num > 0 && self.similarity.den
            == other.similarity.den && self.proximity.is_some() == other.proximity.is_some()
    }

    /// Decides whether the score is above the threshold.
    pub fn passes(&self) -> (b: bool)
        requires
            self.wf(),
        ensures
            b == self.exceeds_threshold(),
    {
        if self.similarity.num == 0 {
            return false;
        }
        let a: u128 = self.similarity.num as u128;
        let l: u128 = self.similarity.den as u128;
        match self.proximity {
            None => {
                proof {
                    let al = a * l;
                    let ll = l * l;
                    assert(self.composite_num() == 8 * al) by (nonlinear_arith)
                        requires
                            self.composite_num() == 5 * a * l + 3 * a * l,
                            al == a * l,
                    ;
                    assert(self.composite_den() == 8 * ll) by (nonlinear_arith)
                        requires
                            self.composite_den() == 8 * l * l,
                            ll == l * l,
                    ;
                    assert(al == a * l && ll == l * l);
                    assert((20 * a) * l == 20 * al) by (nonlinear_arith)
                        requires
                            al == a * l,
                    ;
                    assert((13 * l) * l == 13 * ll) by (nonlinear_arith)
                        requires
                            ll == l * l,
                    ;
                    lemma_scaled_comparison(20 * a, 13 * l, l as int);
                }
                20 * a > 13 * l
            },
            Some(p) => {
                let q: u128 = p.den as u128;
                let m = self.mixed();
                proof {
                    let n = m.whole * q + m.rest;
                    let lq = l * q;
                    assert(self.composite_num() == n);
                    assert(self.composite_den() == 8 * lq) by (nonlinear_arith)
                        requires
                            self.composite_den() == 8 * l * q,
                            lq == l * q,
                    ;
                    // 20 n > 104 l q  <==>  5 (whole q + rest) > 26 l q
                    assert((5 * m.whole) * q == 5 * (m.whole * q)) by (nonlinear_arith);
                    assert((26 * l) * q == 26 * lq) by (nonlinear_arith)
                        requires
                            lq == l * q,
                    ;
                    if 5 * m.whole > 26 * l {
                        assert((5 * m.whole) * q >= (26 * l) * q + q) by (nonlinear_arith)
                            requires
                                5 * m.whole >= 26 * l + 1,
                                q > 0,
                        ;
                    } else {
                        let short = 26 * l - 5 * m.whole;
                        assert(short * q == (26 * l) * q - (5 * m.whole) * q) by (nonlinear_arith)
                            requires
                                short == 26 * l - 5 * m.whole,
                        ;
                        if short >= 5 {
                            assert(short * q >= 5 * q) by (nonlinear_arith)
                                requires
                                    short >= 5,
                                    q > 0,
                            ;
                        }
                    }
                }
                if 5 * m.whole > 26 * l {
                    true
                } else {
                    let short: u128 = 26 * l - 5 * m.whole;
                    if short >= 5 {
                        false
                    } else {
                        assert(short * q <= 4 * q) by (nonlinear_arith)
                            requires
                                0 <= short <= 4,
                                q > 0,
                        ;
                        5 * m.rest > short * q
                    }
                }
            },
        }
    }

    /// Decides whether the score is higher than another score of the same
    /// search.
    pub fn outranks(&self, other: &Score) -> (b: bool)
        requires
            self.wf(),
            other.wf(),
            self.comparable(*other),
        ensures
            b == self.higher_than(*other),
    {
        let l: u128 = self.similarity.den as u128;
        match (self.proximity, other.proximity) {
            (Some(p), Some(o)) => {
                let x = self.mixed();
                let y = other.mixed();
                let qx: u128 = p.den as u128;
                let qy: u128 = o.den as u128;
                proof {
                    let nx = x.whole * qx + x.rest;
                    let ny = y.whole * qy + y.rest;
                    let k = 8 * l;
                    assert(self.composite_num() == nx);
                    assert(other.composite_num() == ny);
                    assert(nx * other.composite_den() == (nx * qy) * k) by (nonlinear_arith)
                        requires
                            other.composite_den() == 8 * l * qy,
                            k == 8 * l,
                    ;
                    assert(ny * self.composite_den() == (ny * qx) * k) by (nonlinear_arith)
                        requires
                            self.composite_den() == 8 * l * qx,
                            k == 8 * l,
                    ;
                    lemma_scaled_comparison(nx * qy, ny * qx, k as int);
                    lemma_compare_mixed(
                        x.whole as int,
                        x.rest as int,
                        qx as int,
                        y.whole as int,
                        y.rest as int,
                        qy as int,
                    );
                    assert(x.rest * qy <= 0xFFFF_FFFF_FFFF_FFFF * 0xFFFF_FFFF_FFFF_FFFF)
                        by (nonlinear_arith)
                        requires
                            0 <= x.rest <= 0xFFFF_FFFF_FFFF_FFFF,
                            0 <= qy <= 0xFFFF_FFFF_FFFF_FFFF,
                    ;
                    assert(y.rest * qx <= 0xFFFF_FFFF_FFFF_FFFF * 0xFFFF_FFFF_FFFF_FFFF)
                        by (nonlinear_arith)
                        requires
                            0 <= y.rest <= 0xFFFF_FFFF_FFFF_FFFF,
                            0 <= qx <= 0xFFFF_FFFF_FFFF_FFFF,
                    ;
                }
                if x.whole != y.whole {
                    x.whole > y.whole
                } else {
                    x.rest * qy > y.rest * qx
                }
            },
            _ => {
                let a: u128 = self.similarity.num as u128;
                let c: u128 = other.similarity.num as u128;
                proof {
                    let ll = l * l;
                    let k = 64 * (ll * l);
                    assert(self.composite_num() * other.composite_den() == a * k)
                        by (nonlinear_arith)
                        requires
                            self.composite_num() == 5 * a * l + 3 * a * l,
                            other.composite_den() == 8 * l * l,
                            ll == l * l,
                            k == 64 * (ll * l),
                    ;
                    assert(other.composite_num() * self.composite_den() == c * k)
                        by (nonlinear_arith)
                        requires
                            other.composite_num() == 5 * c * l + 3 * c * l,
                            self.composite_den() == 8 * l * l,
                            ll == l * l,
                            k == 64 * (ll * l),
                    ;
                    assert(k > 0) by (nonlinear_arith)
                        requires
                            l > 0,
                            ll == l * l,
                            k == 64 * (ll * l),
                    ;
                    lemma_scaled_comparison(a as int, c as int, k);
                }
                a > c
            },
        }
    }
}

/// Fractions with positive denominators are ordered as their values are:
/// from `a/b >= c/d` and `c/d >= e/f` follows `a/b >= e/f`, and strictly so
/// where one of the two steps is strict.
pub proof fn lemma_fraction_order(a: int, b: int, c: int, d: int, e: int, f: int)
    requires
        b > 0,
        d > 0,
        f > 0,
        a * d >= c * b,
        c * f >= e * d,
    ensures
        a * f >= e * b,
        (a * d > c * b || c * f > e * d) ==> a * f > e * b,
{
    let ad = a * d;
    let cb = c * b;
    let cf = c * f;
    let ed = e * d;
    assert(ad * f >= cb * f) by (nonlinear_arith)
        requires
            ad >= cb,
            f > 0,
    ;
    assert(cf * b >= ed * b) by (nonlinear_arith)
        requires
            cf >= ed,
            b > 0,
    ;
    assert(cb * f == cf * b) by (nonlinear_arith)
        requires
            cb == c * b,
            cf == c * f,
    ;
    assert(ad * f == (a * f) * d) by (nonlinear_arith)
        requires
            ad == a * d,
    ;
    assert(ed * b == (e * b) * d) by (nonlinear_arith)
        requires
            ed == e * d,
    ;
    lemma_scaled_comparison(a * f, e * b, d);
    if ad > cb {
        assert(ad * f > cb * f) by (nonlinear_arith)
            requires
                ad > cb,
                f > 0,
        ;
    }
    if cf > ed {
        assert(cf * b > ed * b) by (nonlinear_arith)
            requires
                cf > ed,
                b > 0,
        ;
    }
}

impl Score {
    /// The blend of a well-formed score is a fraction of a non-negative
    /// numerator and a positive denominator.
    pub proof fn lemma_composite_sign(self)
        requires
            self.wf(),
        ensures
            self.composite_num() >= 0,
            self.composite_den() > 0,
            self.exceeds_threshold() ==> self.similarity.num > 0,
    {
        if self.similarity.num != 0 {
            let a = self.similarity.num as int;
            let l = self.similarity.den as int;
            let p = self.proximity_term().num as int;
            let q = self.proximity_term().den as int;
            assert(q > 0);
            assert(8 * l * q > 0) by (nonlinear_arith)
                requires
                    l > 0,
                    q > 0,
            ;
            assert(5 * a * q + 3 * p * l >= 0) by (nonlinear_arith)
                requires
                    a >= 0,
                    q >= 0,
                    p >= 0,
                    l >= 0,
            ;
        }
    }

    /// The order of the blends is transitive.
    pub proof fn lemma_order_transitive(self, mid: Score, low: Score)
        requires
            self.wf(),
            mid.wf(),
            low.wf(),
            !mid.higher_than(self),
            !low.higher_than(mid),
        ensures
            !low.higher_than(self),
            self.higher_than(mid) || mid.higher_than(low) ==> self.higher_than(low),
    {
        self.lemma_composite_sign();
        mid.lemma_composite_sign();
        low.lemma_composite_sign();
        lemma_fraction_order(
            self.composite_num(),
            self.composite_den(),
            mid.composite_num(),
            mid.composite_den(),
            low.composite_num(),
            low.composite_den(),
        );
    }
}

} // verus!
