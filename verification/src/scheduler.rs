//! Scoring: turns (staleness, static weight, outcome, strategy) into the
//! per-folder priority that is frozen into a sweep at open time. Higher score =
//! handed out first. Every function is pure and takes its inputs explicitly (no
//! clock, no global RNG), so it is trivially testable and reproducible.
//!
//! What is exact here is everything but the final arithmetic on reals: a
//! [`ScoreExpr`] says which numbers are to be combined and how, and the store
//! hands it to the caller's scorer, which returns the [`crate::model::Score`].

use vstd::prelude::*;
use crate::model::{Real, Strategy};

verus! {

/// A number between 0 and 1 as an undivided fraction.
#[derive(Debug, Clone, Copy, PartialEq, Eq, Structural)]
pub struct Fraction {
    pub num: i64,
    pub den: i64,
}

impl Fraction {
    /// The fraction lies between 0 and 1 and has a positive denominator.
    pub open spec fn proper(self) -> bool {
        0 <= self.num <= self.den && 0 < self.den
    }
}

/// How long ago a folder was last visited, as far as its priority goes. The
/// priority is `1 - 2^(-secs / half_life)` for `Aged`, 0 for `Fresh` and 1 for
/// `Never`.
#[derive(Debug, Clone, Copy, PartialEq, Eq, Structural)]
pub enum Recency {
    /// Never visited: maximally stale.
    Never,
    /// Visited `secs > 0` seconds ago, under a half-life of at least a second.
    Aged { secs: i64, half_life: u64 },
    /// Visited now, or later than now by a skewed clock: lowest priority.
    Fresh,
}

/// A score before its arithmetic on reals is carried out. `unit` and `tie`
/// stand for the number in `[0, 1)` that they make when divided by `2^53`.
#[derive(Debug, Clone, Copy, PartialEq, Eq, Structural)]
pub enum ScoreExpr {
    /// The value of `unit`.
    Unit { unit: u64 },
    /// `recency + 1e-9 * tie`.
    LeastRecent { recency: Recency, tie: u64 },
    /// `(1 - outcome_weight) * (alpha * recency + (1 - alpha) * weight)
    /// + outcome_weight * outcome + 1e-9 * tie`, where `alpha` and
    /// `outcome_weight` lie between 0 and 1.
    Blend {
        recency: Recency,
        weight: Fraction,
        outcome: Fraction,
        alpha: Real,
        outcome_weight: Real,
        tie: u64,
    },
}

/// What the score of a folder is made from.
pub struct ScoreInputs<'a> {
    pub recency: Recency,
    pub weight: Fraction,
    /// Most recent reported outcome, against the greatest of them.
    pub outcome: Fraction,
    pub alpha: Real,
    pub outcome_weight: Real,
    pub seed: u64,
    pub sweep: i64,
    pub path: &'a str,
}

/// The recency of a folder that was last visited `staleness` seconds ago.
pub open spec fn recency_of(staleness: i64, half_life: u64) -> Recency {
    if staleness <= 0 {
        Recency::Fresh
    } else {
        Recency::Aged { secs: staleness, half_life: if half_life < 1 { 1 } else { half_life } }
    }
}

/// Recency priority from staleness via exponential decay.
///
/// A never-visited folder (or one visited a long time ago) approaches 1.0; a
/// just-visited folder approaches 0.0. After exactly one half-life, a folder
/// sits at 0.5.
pub fn recency_priority(staleness_secs: i64, half_life_secs: u64) -> (r: Recency)
    ensures
        r == recency_of(staleness_secs, half_life_secs),
{
    if staleness_secs <= 0 {
        return Recency::Fresh;
    }
    let half_life: u64 = if half_life_secs < 1 {
        1
    } else {
        half_life_secs
    };
    Recency::Aged { secs: staleness_secs, half_life }
}

/// `value / max`, held between 0 and 1; zero if there is no positive maximum.
pub open spec fn normalized(value: i64, max: i64) -> Fraction {
    if max <= 0 || value <= 0 {
        Fraction { num: 0, den: if max <= 0 { 1 } else { max } }
    } else if value >= max {
        Fraction { num: max, den: max }
    } else {
        Fraction { num: value, den: max }
    }
}

/// Normalize a raw static signal to `[0, 1]` against the sweep's max value.
pub fn normalize(value: i64, max: i64) -> (r: Fraction)
    ensures
        r == normalized(value, max),
        r.proper(),
{
    if max <= 0 {
        Fraction { num: 0, den: 1 }
    } else if value <= 0 {
        Fraction { num: 0, den: max }
    } else if value >= max {
        Fraction { num: max, den: max }
    } else {
        Fraction { num: value, den: max }
    }
}

/// FNV-1a over bytes, from a given state.
pub open spec fn fnv(h: u64, bytes: Seq<u8>) -> u64
    decreases bytes.len(),
{
    if bytes.len() == 0 {
        h
    } else {
        (fnv(h, bytes.drop_last()) ^ (bytes.last() as u64)).wrapping_mul(0x0000_0100_0000_01B3u64)
    }
}

/// The splitmix64 step.
pub open spec fn splitmix(h: u64) -> u64 {
    let a = h.wrapping_add(0x9E37_79B9_7F4A_7C15u64);
    let b = (a ^ (a >> 30u64)).wrapping_mul(0xBF58_476D_1CE4_E5B9u64);
    let c = (b ^ (b >> 27u64)).wrapping_mul(0x94D0_49BB_1331_11EBu64);
    c ^ (c >> 31u64)
}

/// The state that a hash starts from.
pub open spec fn hash_start(seed: u64, sweep: i64) -> u64 {
    seed ^ 0x9E37_79B9_7F4A_7C15u64.wrapping_mul((sweep as u64) ^ 0xD1B5_4A32_D192_ED03u64)
}

/// The pseudo-random number of `(seed, sweep, path)`, below `2^53`.
pub open spec fn unit_of(seed: u64, sweep: i64, path: Seq<char>) -> u64 {
    splitmix(fnv(hash_start(seed, sweep), vstd::utf8::encode_utf8(path))) >> 11u64
}

/// Deterministic pseudo-random unit value for `(seed, sweep, path)`: the number
/// in `[0, 1)` that is the result divided by `2^53`.
///
/// Used by the `random` strategy and as a tiny tie-break elsewhere. Built from
/// an FNV-1a pass over the path mixed with a splitmix64 finalizer, so it needs
/// no RNG state and is reproducible across runs and machines.
pub fn deterministic_unit(seed: u64, sweep: i64, path: &str) -> (r: u64)
    ensures
        r == unit_of(seed, sweep, path@),
        r < 0x20_0000_0000_0000,
{
    let bytes = path.as_bytes();
    #[verifier::truncate]
    let number: u64 = sweep as u64;
    let mut h: u64 = seed ^ 0x9E37_79B9_7F4A_7C15u64.wrapping_mul(
        number ^ 0xD1B5_4A32_D192_ED03u64,
    );
    let mut i: usize = 0;
    assert(bytes@.take(0) =~= Seq::<u8>::empty());
    while i < bytes.len()
        invariant
            i <= bytes@.len(),
            bytes@ == vstd::utf8::encode_utf8(path@),
            h == fnv(hash_start(seed, sweep), bytes@.take(i as int)),
        decreases bytes@.len() - i,
    {
        assert(bytes@.take(i + 1).drop_last() =~= bytes@.take(i as int));
        assert(bytes@.take(i + 1).last() == bytes@[i as int]);
        h = (h ^ (bytes[i] as u64)).wrapping_mul(0x0000_0100_0000_01B3u64);
        i = i + 1;
    }
    assert(bytes@.take(bytes@.len() as int) =~= bytes@);
    let a: u64 = h.wrapping_add(0x9E37_79B9_7F4A_7C15u64);
    let b: u64 = (a ^ (a >> 30u64)).wrapping_mul(0xBF58_476D_1CE4_E5B9u64);
    let c: u64 = (b ^ (b >> 27u64)).wrapping_mul(0x94D0_49BB_1331_11EBu64);
    let z: u64 = c ^ (c >> 31u64);
    let r: u64 = z >> 11u64;
    assert(r < 0x20_0000_0000_0000) by (bit_vector)
        requires
            r == z >> 11u64,
    ;
    r
}

/// The tie-break of `(seed, sweep, path)`, below `2^53`.
pub open spec fn tie_of(seed: u64, sweep: i64, path: Seq<char>) -> u64 {
    unit_of(seed.wrapping_add(sweep as u64), 0, path)
}

/// A negligible, sweep-varying nudge to make orderings total and rotate the
/// truncation tail across sweeps.
pub fn tie_break(seed: u64, sweep: i64, path: &str) -> (r: u64)
    ensures
        r == tie_of(seed, sweep, path@),
        r < 0x20_0000_0000_0000,
{
    #[verifier::truncate]
    let number: u64 = sweep as u64;
    deterministic_unit(seed.wrapping_add(number), 0, path)
}

/// The score of a folder.
pub open spec fn score_of(
    strategy: Strategy,
    recency: Recency,
    weight: Fraction,
    outcome: Fraction,
    alpha: Real,
    outcome_weight: Real,
    seed: u64,
    sweep: i64,
    path: Seq<char>,
) -> ScoreExpr {
    match strategy {
        Strategy::Random => ScoreExpr::Unit { unit: unit_of(seed, sweep, path) },
        Strategy::RoundRobin => ScoreExpr::LeastRecent { recency, tie: tie_of(seed, sweep, path) },
        Strategy::Weighted => ScoreExpr::Blend {
            recency,
            weight,
            outcome,
            alpha: alpha.held(),
            outcome_weight: outcome_weight.held(),
            tie: tie_of(seed, sweep, path),
        },
    }
}

/// Final priority for a folder in a sweep.
///
/// - `round-robin`: pure recency (least-recently-visited first).
/// - `weighted`: a blend of recency, weight and outcome.
/// - `random`: the deterministic unit value (the rest is ignored).
///
/// For round-robin and weighted a vanishing tie-break (seeded by the sweep
/// number) is added so the order is total and the set of folders surfaced first
/// rotates from sweep to sweep, instead of always truncating the same tail.
pub fn score(strategy: Strategy, inputs: &ScoreInputs) -> (r: ScoreExpr)
    ensures
        r == score_of(
            strategy,
            inputs.recency,
            inputs.weight,
            inputs.outcome,
            inputs.alpha,
            inputs.outcome_weight,
            inputs.seed,
            inputs.sweep,
            inputs.path@,
        ),
{
    match strategy {
        Strategy::Random => ScoreExpr::Unit {
            unit: deterministic_unit(inputs.seed, inputs.sweep, inputs.path),
        },
        Strategy::RoundRobin => ScoreExpr::LeastRecent {
            recency: inputs.recency,
            tie: tie_break(inputs.seed, inputs.sweep, inputs.path),
        },
        Strategy::Weighted => ScoreExpr::Blend {
            recency: inputs.recency,
            weight: inputs.weight,
            outcome: inputs.outcome,
            alpha: inputs.alpha.clamp_unit(),
            outcome_weight: inputs.outcome_weight.clamp_unit(),
            tie: tie_break(inputs.seed, inputs.sweep, inputs.path),
        },
    }
}

// --- laws ----------------------------------------------------------------------------

/// A weight lies between 0 and 1: it is 0 for the least, 1 for the greatest, and
/// no signal gets less weight than a smaller one.
pub proof fn law_weights_follow_signals(a: i64, b: i64, max: i64)
    requires
        a <= b,
    ensures
        normalized(a, max).proper(),
        normalized(a, max).num * normalized(b, max).den <= normalized(b, max).num * normalized(
            a,
            max,
        ).den,
        max > 0 ==> normalized(max, max).num == normalized(max, max).den,
        normalized(0, max).num == 0,
{
    let x = normalized(a, max);
    let y = normalized(b, max);
    assert(x.den == y.den && x.num <= y.num);
    assert(x.num * y.den <= y.num * x.den) by (nonlinear_arith)
        requires
            x.den == y.den,
            x.num <= y.num,
            x.den > 0,
    ;
}

/// The order of a random sweep depends on nothing but the seed, the sweep and
/// the path; that of a round-robin sweep not on weights or outcomes.
pub proof fn law_strategies_ignore_what_they_should(
    recency: Recency,
    recency2: Recency,
    weight: Fraction,
    weight2: Fraction,
    outcome: Fraction,
    outcome2: Fraction,
    alpha: Real,
    alpha2: Real,
    outcome_weight: Real,
    outcome_weight2: Real,
    seed: u64,
    sweep: i64,
    path: Seq<char>,
)
    ensures
        score_of(
            Strategy::Random,
            recency,
            weight,
            outcome,
            alpha,
            outcome_weight,
            seed,
            sweep,
            path,
        ) == score_of(
            Strategy::Random,
            recency2,
            weight2,
            outcome2,
            alpha2,
            outcome_weight2,
            seed,
            sweep,
            path,
        ),
        score_of(
            Strategy::RoundRobin,
            recency,
            weight,
            outcome,
            alpha,
            outcome_weight,
            seed,
            sweep,
            path,
        ) == score_of(
            Strategy::RoundRobin,
            recency,
            weight2,
            outcome2,
            alpha2,
            outcome_weight2,
            seed,
            sweep,
            path,
        ),
{
}

/// A value is to its maximum as its share is to one: all of it from the maximum on,
/// and none where the value or the maximum is not positive.
pub proof fn law_a_share_is_a_proportion(value: i64, max: i64)
    ensures
        ({
            let w = normalized(value, max);
            &&& 0 <= w.num <= w.den
            &&& 0 < w.den
            &&& value <= 0 || max <= 0 ==> w.num == 0
            &&& 0 < max <= value ==> w.num == w.den
            &&& 0 < value <= max ==> w.num * max == value * w.den
        }),
{
}

/// Only a visit in the past has an age, which is the time since then, under a
/// half-life of at least a second.
pub proof fn law_staleness_counts_from_the_visit(staleness: i64, half_life: u64)
    ensures
        match recency_of(staleness, half_life) {
            Recency::Fresh => staleness <= 0,
            Recency::Aged { secs, half_life: h } => staleness > 0 && secs == staleness && h >= 1 && (
            half_life >= 1 ==> h == half_life) && (half_life == 0 ==> h == 1),
            Recency::Never => false,
        },
{
}

/// A score is made of what is handed in, each in its own place.
pub proof fn law_a_score_is_made_of_its_inputs(
    strategy: Strategy,
    age: Recency,
    share: Fraction,
    reported: Fraction,
    a: Real,
    o: Real,
    seed: u64,
    n: i64,
    path: Seq<char>,
)
    ensures
        match score_of(strategy, age, share, reported, a, o, seed, n, path) {
            ScoreExpr::Unit { unit } => strategy == Strategy::Random && unit == unit_of(
                seed,
                n,
                path,
            ),
            ScoreExpr::LeastRecent { recency, tie } => strategy == Strategy::RoundRobin && recency
                == age && tie == tie_of(seed, n, path),
            ScoreExpr::Blend { recency, weight, outcome, alpha, outcome_weight, tie } => {
                &&& strategy == Strategy::Weighted
                &&& recency == age
                &&& weight == share
                &&& outcome == reported
                &&& a.bits <= 0x3FF0_0000_0000_0000 ==> alpha == a
                &&& o.bits <= 0x3FF0_0000_0000_0000 ==> outcome_weight == o
                &&& tie == tie_of(seed, n, path)
            },
        },
{
}

/// The tie-break rotates from sweep to sweep as from seed to seed: it is the unit of
/// the seed `k` that lies as far after the given one as the sweep counts.
pub proof fn law_ties_rotate(seed: u64, n: i64, path: Seq<char>, k: u64)
    requires
        k as int == (seed + (n as u64)) % 0x1_0000_0000_0000_0000,
    ensures
        tie_of(seed, n, path) == unit_of(k, 0, path),
        0 <= n < i64::MAX ==> tie_of(seed, (n + 1) as i64, path) == tie_of(
            seed.wrapping_add(1),
            n,
            path,
        ),
{
}

/// Every byte of a text is hashed, one after the other: nothing changes nothing, a
/// byte is taken in and multiplied up as FNV-1a has it, and hashing two texts in a
/// row is hashing them as one.
pub proof fn law_every_byte_is_hashed(h: u64, a: Seq<u8>, b: Seq<u8>, x: u8)
    ensures
        fnv(h, Seq::<u8>::empty()) == h,
        fnv(h, seq![x]) as int == ((h ^ (x as u64)) * 0x100_0000_01B3) % 0x1_0000_0000_0000_0000,
        fnv(h, a + b) == fnv(fnv(h, a), b),
    decreases b.len(),
{
    assert(seq![x].drop_last() =~= Seq::<u8>::empty());
    assert(fnv(h, seq![x].drop_last()) == h);
    if b.len() == 0 {
        assert(a + b =~= a);
    } else {
        law_every_byte_is_hashed(h, a, b.drop_last(), x);
        assert((a + b).drop_last() =~= a + b.drop_last());
        assert((a + b).last() == b.last());
    }
}

/// The pseudo-random number is the upper 53 bits of a splitmix64 step on the hash of
/// the path, which starts from the seed and the sweep: `z` is that step taken, by its
/// stages `x` and `y`.
pub proof fn law_the_unit_is_hashed_and_mixed(
    seed: u64,
    n: i64,
    path: Seq<char>,
    k: u64,
    w: u64,
    x: u64,
    y: u64,
    z: u64,
)
    requires
        k as int == (0x9E37_79B9_7F4A_7C15 * ((n as u64) ^ 0xD1B5_4A32_D192_ED03u64))
            % 0x1_0000_0000_0000_0000,
        w as int == (fnv(seed ^ k, vstd::utf8::encode_utf8(path)) + 0x9E37_79B9_7F4A_7C15)
            % 0x1_0000_0000_0000_0000,
        x as int == ((w ^ (w >> 30u64)) * 0xBF58_476D_1CE4_E5B9) % 0x1_0000_0000_0000_0000,
        y as int == ((x ^ (x >> 27u64)) * 0x94D0_49BB_1331_11EB) % 0x1_0000_0000_0000_0000,
        z == y ^ (y >> 31u64),
    ensures
        unit_of(seed, n, path) == z >> 11u64,
        unit_of(seed, n, path) == z / 2048,
        unit_of(seed, n, path) < 0x20_0000_0000_0000,
{
    assert(z >> 11u64 == z / 2048) by (bit_vector);
    assert(z >> 11u64 < 0x20_0000_0000_0000) by (bit_vector);
}

}
