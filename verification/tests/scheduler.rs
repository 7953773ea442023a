//! Scoring: recency, weights, hashes and the numbers that they make.

use trail::scheduler::{
    deterministic_unit, normalize, recency_priority, score, tie_break, Fraction, Recency,
    ScoreExpr, ScoreInputs,
};
use trail::{Real, Score, Strategy};

fn binary64(x: f64) -> Real {
    Real { bits: x.to_bits() }
}

fn unit(n: u64) -> f64 {
    n as f64 / 9_007_199_254_740_992.0
}

fn fraction(f: Fraction) -> f64 {
    f.num as f64 / f.den as f64
}

fn priority(r: Recency) -> f64 {
    match r {
        Recency::Never => 1.0,
        Recency::Fresh => 0.0,
        Recency::Aged { secs, half_life } => {
            1.0 - (-std::f64::consts::LN_2 * secs as f64 / half_life as f64).exp()
        }
    }
}

/// A recency of 0.9: as many half-lives as the binary logarithm of ten.
const NINE_TENTHS: Recency =
    Recency::Aged { secs: 3_321_928_094_887_362_348, half_life: 1_000_000_000_000_000_000 };

fn inputs(alpha: f64, sweep: i64, path: &str) -> ScoreInputs<'_> {
    ScoreInputs {
        recency: Recency::Never,
        weight: Fraction { num: 1, den: 10 },
        outcome: Fraction { num: 0, den: 1 },
        alpha: binary64(alpha),
        outcome_weight: binary64(0.0),
        seed: 1,
        sweep,
        path,
    }
}

#[test]
fn recency_monotonic_and_bounded() {
    let hl = 100;
    let never = priority(recency_priority(i64::MAX / 2, hl));
    let old = priority(recency_priority(1000, hl));
    let recent = priority(recency_priority(10, hl));
    let now = priority(recency_priority(0, hl));
    assert!((0.0..=1.0).contains(&never));
    assert!(never > old, "older = higher priority");
    assert!(old > recent);
    assert!(recent > now);
    assert_eq!(now, 0.0);
}

#[test]
fn recency_half_life_midpoint() {
    // One half-life of staleness -> ~0.5.
    let r = priority(recency_priority(100, 100));
    assert!((r - 0.5).abs() < 1e-9, "got {r}");
}

#[test]
fn recency_is_exact_in_whole_numbers() {
    assert_eq!(recency_priority(7, 3), Recency::Aged { secs: 7, half_life: 3 });
    assert_eq!(recency_priority(7, 0), Recency::Aged { secs: 7, half_life: 1 });
    assert_eq!(recency_priority(0, 3), Recency::Fresh);
    assert_eq!(recency_priority(i64::MIN, 3), Recency::Fresh);
}

#[test]
fn normalize_bounds() {
    assert_eq!(fraction(normalize(0, 0)), 0.0);
    assert_eq!(fraction(normalize(5, 10)), 0.5);
    assert_eq!(fraction(normalize(20, 10)), 1.0); // clamped
}

#[test]
fn normalize_edges() {
    assert_eq!(normalize(5, -3), Fraction { num: 0, den: 1 });
    assert_eq!(normalize(-5, 10), Fraction { num: 0, den: 10 });
    assert_eq!(normalize(i64::MAX, i64::MAX), Fraction { num: i64::MAX, den: i64::MAX });
    assert_eq!(normalize(9, 10), Fraction { num: 9, den: 10 });
}

#[test]
fn deterministic_unit_is_stable_and_in_range() {
    for sweep in 0..5 {
        for path in ["a", "src/api", "crates/trail-core"] {
            let v = unit(deterministic_unit(42, sweep, path));
            assert!((0.0..1.0).contains(&v), "v={v}");
            // Reproducible.
            assert_eq!(v, unit(deterministic_unit(42, sweep, path)));
        }
    }
}

/// The hash, computed step by step.
fn hash(seed: u64, sweep: i64, path: &str) -> u64 {
    let mut h = seed ^ 0x9E37_79B9_7F4A_7C15u64.wrapping_mul((sweep as u64) ^ 0xD1B5_4A32_D192_ED03);
    for b in path.bytes() {
        h ^= b as u64;
        h = h.wrapping_mul(0x0000_0100_0000_01B3);
    }
    let mut z = h.wrapping_add(0x9E37_79B9_7F4A_7C15);
    z = (z ^ (z >> 30)).wrapping_mul(0xBF58_476D_1CE4_E5B9);
    z = (z ^ (z >> 27)).wrapping_mul(0x94D0_49BB_1331_11EB);
    (z ^ (z >> 31)) >> 11
}

#[test]
fn deterministic_unit_values() {
    for (seed, sweep, path) in
        [(0, 0, ""), (42, 1, "src/api"), (7, -3, "\u{e9}t\u{e9}/\u{1f980}"), (u64::MAX, i64::MIN, "x")]
    {
        assert_eq!(deterministic_unit(seed, sweep, path), hash(seed, sweep, path));
        assert_eq!(
            tie_break(seed, sweep, path),
            hash(seed.wrapping_add(sweep as u64), 0, path)
        );
    }
}

#[test]
fn random_strategy_changes_order_across_sweeps() {
    let paths = ["a", "b", "c", "d", "e", "f"];
    let order = |sweep: i64| {
        let mut v: Vec<_> = paths
            .iter()
            .map(|p| match score(Strategy::Random, &inputs(0.6, sweep, p)) {
                ScoreExpr::Unit { unit: u } => (unit(u), *p),
                other => panic!("expected a unit, got {other:?}"),
            })
            .collect();
        v.sort_by(|x, y| y.0.partial_cmp(&x.0).unwrap());
        v.into_iter().map(|(_, p)| p).collect::<Vec<_>>()
    };
    assert_ne!(order(1), order(2), "seeded random should rotate by sweep");
}

#[test]
fn weighted_blends_recency_and_weight() {
    // alpha=1.0 -> pure recency; weight irrelevant. alpha=0.0 -> pure weight.
    let blend = |alpha: f64| {
        let given = ScoreInputs { recency: NINE_TENTHS, ..inputs(alpha, 1, "x") };
        match score(Strategy::Weighted, &given) {
            ScoreExpr::Blend { recency, weight, alpha, tie, .. } => {
                let a = f64::from_bits(alpha.bits);
                a * priority(recency) + (1.0 - a) * fraction(weight) + 1e-9 * unit(tie)
            }
            other => panic!("expected a blend, got {other:?}"),
        }
    };
    let tie = 1e-9 * unit(tie_break(1, 1, "x"));
    assert!((blend(1.0) - (0.9 + tie)).abs() < 1e-12);
    assert!((blend(0.0) - (0.1 + tie)).abs() < 1e-12);
}

#[test]
fn round_robin_is_recency_with_a_tie_break() {
    assert_eq!(
        score(Strategy::RoundRobin, &inputs(0.6, 3, "x")),
        ScoreExpr::LeastRecent { recency: Recency::Never, tie: tie_break(1, 3, "x") }
    );
}

#[test]
fn blend_weights_are_held_in_the_unit_interval() {
    let held = |x: f64| match score(Strategy::Weighted, &inputs(x, 1, "x")) {
        ScoreExpr::Blend { alpha, .. } => f64::from_bits(alpha.bits),
        other => panic!("expected a blend, got {other:?}"),
    };
    for x in [
        -1.0,
        -f64::MIN_POSITIVE,
        -0.0,
        0.0,
        5e-324,
        0.6,
        1.0,
        1.0000000000000002,
        2.0,
        f64::INFINITY,
        f64::NEG_INFINITY,
    ] {
        assert_eq!(held(x).to_bits(), x.clamp(0.0, 1.0).to_bits(), "{x}");
    }
    assert!(held(f64::NAN).is_nan());
}

#[test]
fn score_is_always_finite() {
    let number = |e: ScoreExpr| match e {
        ScoreExpr::Unit { unit: u } => unit(u),
        ScoreExpr::LeastRecent { recency, tie } => priority(recency) + 1e-9 * unit(tie),
        ScoreExpr::Blend { recency, weight, outcome, alpha, outcome_weight, tie } => {
            let a = f64::from_bits(alpha.bits);
            let o = f64::from_bits(outcome_weight.bits);
            (1.0 - o) * (a * priority(recency) + (1.0 - a) * fraction(weight))
                + o * fraction(outcome)
                + 1e-9 * unit(tie)
        }
    };
    let recencies = [
        Recency::Fresh,
        recency_priority(1, u64::MAX),
        recency_priority(1, 86_400),
        recency_priority(86_400, 86_400),
        NINE_TENTHS,
        recency_priority(i64::MAX, 0),
        Recency::Never,
    ];
    let weights = [normalize(0, 0), normalize(1, i64::MAX), normalize(3, 7), normalize(9, 9)];
    for recency in recencies {
        for weight in weights {
            for alpha in [-1.0, -0.5, 0.0, 0.3, 1.0, 2.0] {
                for sweep in [1, 17, 9_999] {
                    for strategy in [Strategy::RoundRobin, Strategy::Weighted, Strategy::Random] {
                        let given = ScoreInputs {
                            recency,
                            weight,
                            seed: 7,
                            ..inputs(alpha, sweep, "some/path/here")
                        };
                        let s = number(score(strategy, &given));
                        assert!(s.is_finite(), "score not finite: {s}");
                    }
                }
            }
        }
    }
}

#[test]
fn scores_order_and_read_back() {
    let xs = [
        f64::NEG_INFINITY,
        -2.5,
        -1.0,
        -5e-324,
        -0.0,
        0.0,
        5e-324,
        0.25,
        0.5,
        1.0,
        1.6,
        f64::INFINITY,
    ];
    for (i, x) in xs.iter().enumerate() {
        let a = Score::from_bits(x.to_bits());
        assert_eq!(a.bits(), x.to_bits());
        for y in &xs[i + 1..] {
            assert!(a < Score::from_bits(y.to_bits()), "{x} before {y}");
        }
    }
}

#[test]
fn strategies_ignore_what_they_should() {
    let a = inputs(0.6, 1, "x");
    let mut b = inputs(0.1, 1, "x");
    b.weight = Fraction { num: 3, den: 4 };
    b.outcome = Fraction { num: 1, den: 1 };
    b.outcome_weight = binary64(0.5);
    assert_eq!(score(Strategy::RoundRobin, &a), score(Strategy::RoundRobin, &b));
    b.recency = Recency::Fresh;
    assert_eq!(score(Strategy::Random, &a), score(Strategy::Random, &b));
    assert_ne!(score(Strategy::RoundRobin, &a), score(Strategy::RoundRobin, &b));
}
