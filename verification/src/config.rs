//! Settings. Every field has a default, so a missing or partial configuration
//! is always valid.

use vstd::prelude::*;
use crate::error::{ConfigIssue, Error};
use crate::model::{Real, StaticSignal, Strategy};
use crate::text;

verus! {

/// Parsed `.trail.toml`. Missing sections/fields fall back to defaults.
#[derive(Debug, Clone)]
pub struct Config {
    pub scan: ScanConfig,
    pub strategy: StrategyConfig,
    pub lease: LeaseConfig,
}

#[derive(Debug, Clone)]
pub struct ScanConfig {
    /// Extra include globs layered on top of the walker's defaults. The
    /// catch-all `["**/*"]` (the default) is treated as "no whitelist".
    pub includes: Vec<String>,
    /// Extra exclude globs (gitignore syntax, applied as overrides).
    pub exclude: Vec<String>,
    /// Honor `.gitignore` / `.ignore` files while walking.
    pub respect_gitignore: bool,
    /// Skip folders that directly contain fewer than this many files.
    pub min_files: usize,
}

#[derive(Debug, Clone, Copy, PartialEq, Eq, Structural)]
pub struct StrategyConfig {
    pub default: Strategy,
    pub seed: u64,
    /// Weighted blend: 1.0 = pure recency, 0.0 = pure static weight.
    pub alpha: Real,
    /// Recency decay half-life in seconds.
    pub half_life_secs: u64,
    pub static_signal: StaticSignal,
    /// Weighted strategy only: how much a folder's most recent reported outcome
    /// pulls future priority. 0.0 ignores outcomes (the default); 1.0 lets
    /// outcome dominate.
    pub outcome_weight: Real,
}

#[derive(Debug, Clone, Copy, PartialEq, Eq, Structural)]
pub struct LeaseConfig {
    /// Seconds a leased folder is held before it can be reclaimed.
    pub ttl_secs: i64,
}

/// The texts of a list of strings.
pub open spec fn texts(v: Seq<String>) -> Seq<Seq<char>> {
    v.map_values(|s: String| s@)
}

/// An include list that narrows nothing: empty, or the universal glob alone.
pub open spec fn catch_all(globs: Seq<Seq<char>>) -> bool {
    ||| globs == Seq::<Seq<char>>::empty()
    ||| globs == seq!["**/*"@]
    ||| globs == seq!["**"@]
}

impl Default for ScanConfig {
    fn default() -> (r: Self)
        ensures
            texts(r.includes@) == seq!["**/*"@],
            texts(r.exclude@) == Seq::<Seq<char>>::empty(),
            r.respect_gitignore,
            r.min_files == 1,
    {
        let mut globs: Vec<String> = Vec::new();
        globs.push("**/*".to_owned());
        let r = ScanConfig {
            includes: globs,
            exclude: Vec::new(),
            respect_gitignore: true,
            min_files: 1,
        };
        proof {
            assert(texts(r.includes@) =~= seq!["**/*"@]);
            assert(texts(r.exclude@) =~= Seq::<Seq<char>>::empty());
        }
        r
    }
}

impl Default for StrategyConfig {
    fn default() -> (r: Self)
        ensures
            r.default == Strategy::Weighted,
            r.seed == 42,
            // The bit patterns of 0.6 and of 0.0.
            r.alpha.bits == 0x3FE3_3333_3333_3333,
            r.half_life_secs == 604_800,
            r.static_signal == StaticSignal::FileCount,
            r.outcome_weight.bits == 0,
    {
        StrategyConfig {
            default: Strategy::Weighted,
            seed: 42,
            alpha: Real { bits: 0x3FE3_3333_3333_3333 },
            half_life_secs: 604_800,  // 7 days
            static_signal: StaticSignal::FileCount,
            outcome_weight: Real { bits: 0 },
        }
    }
}

impl Default for LeaseConfig {
    fn default() -> (r: Self)
        ensures
            r.ttl_secs == 900,
    {
        LeaseConfig { ttl_secs: 900 }  // 15 minutes
    }
}

impl Default for Config {
    fn default() -> (r: Self)
        ensures
            texts(r.scan.includes@) == seq!["**/*"@],
            texts(r.scan.exclude@) == Seq::<Seq<char>>::empty(),
            r.scan.respect_gitignore,
            r.scan.min_files == 1,
            r.strategy.default == Strategy::Weighted,
            r.strategy.seed == 42,
            r.strategy.alpha.bits == 0x3FE3_3333_3333_3333,
            r.strategy.half_life_secs == 604_800,
            r.strategy.static_signal == StaticSignal::FileCount,
            r.strategy.outcome_weight.bits == 0,
            r.lease.ttl_secs == 900,
            r.issue() is None,
    {
        Config {
            scan: ScanConfig::default(),
            strategy: StrategyConfig::default(),
            lease: LeaseConfig::default(),
        }
    }
}

impl Config {
    /// The first setting that is not acceptable, if there is one.
    pub open spec fn issue(self) -> Option<ConfigIssue> {
        if self.lease.ttl_secs <= 0 {
            Some(ConfigIssue::Ttl(self.lease.ttl_secs))
        } else if !self.strategy.alpha.in_unit_interval() {
            Some(ConfigIssue::Alpha(self.strategy.alpha))
        } else if self.strategy.half_life_secs < 1 {
            Some(ConfigIssue::HalfLife)
        } else if !self.strategy.outcome_weight.in_unit_interval() {
            Some(ConfigIssue::OutcomeWeight(self.strategy.outcome_weight))
        } else {
            None
        }
    }

    /// Reject semantically invalid settings. A non-positive lease TTL is the
    /// dangerous one: it would make every freshly leased folder look already
    /// expired, so two agents could claim the same folder.
    pub fn validate(&self) -> (r: Result<(), Error>)
        ensures
            match self.issue() {
                None => r is Ok,
                Some(issue) => r matches Err(e) && e == Error::Config(issue),
            },
    {
        if self.lease.ttl_secs <= 0 {
            return Err(Error::Config(ConfigIssue::Ttl(self.lease.ttl_secs)));
        }
        if !self.strategy.alpha.is_in_unit_interval() {
            return Err(Error::Config(ConfigIssue::Alpha(self.strategy.alpha)));
        }
        if self.strategy.half_life_secs < 1 {
            return Err(Error::Config(ConfigIssue::HalfLife));
        }
        if !self.strategy.outcome_weight.is_in_unit_interval() {
            return Err(Error::Config(ConfigIssue::OutcomeWeight(self.strategy.outcome_weight)));
        }
        Ok(())
    }

    /// True when the include list is the universal catch-all (no real
    /// whitelist), so the walker should not narrow to a whitelist.
    pub fn include_is_catch_all(&self) -> (r: bool)
        ensures
            r == catch_all(texts(self.scan.includes@)),
    {
        let globs = &self.scan.includes;
        if globs.len() == 0 {
            assert(texts(globs@) =~= Seq::<Seq<char>>::empty());
            return true;
        }
        if globs.len() == 1 {
            let g = globs[0].as_str();
            assert(texts(globs@) =~= seq![g@]);
            let r = text::same(g, "**/*") || text::same(g, "**");
            proof {
                assert(seq![g@][0] == g@);
                assert(seq!["**/*"@][0] == "**/*"@);
                assert(seq!["**"@][0] == "**"@);
            }
            return r;
        }
        assert(texts(globs@).len() == globs@.len());
        false
    }
}

/// Settings are refused exactly if a lease would end as it begins, a number that
/// lies between 0 and 1 does not, or the half-life is zero; and the first of these,
/// in this order, is what is wrong.
pub proof fn law_settings_are_judged(cfg: Config)
    ensures
        ({
            let ttl = cfg.lease.ttl_secs > 0;
            let alpha = cfg.strategy.alpha.bits <= 0x3FF0_0000_0000_0000 || cfg.strategy.alpha.bits
                == 0x8000_0000_0000_0000;
            let half_life = cfg.strategy.half_life_secs > 0;
            let outcomes = cfg.strategy.outcome_weight.bits <= 0x3FF0_0000_0000_0000
                || cfg.strategy.outcome_weight.bits == 0x8000_0000_0000_0000;
            &&& cfg.issue() is None <==> ttl && alpha && half_life && outcomes
            &&& !ttl ==> cfg.issue() == Some(ConfigIssue::Ttl(cfg.lease.ttl_secs))
            &&& ttl && !alpha ==> cfg.issue() == Some(ConfigIssue::Alpha(cfg.strategy.alpha))
            &&& ttl && alpha && !half_life ==> cfg.issue() == Some(ConfigIssue::HalfLife)
            &&& ttl && alpha && half_life && !outcomes ==> cfg.issue() == Some(
                ConfigIssue::OutcomeWeight(cfg.strategy.outcome_weight),
            )
        }),
{
}

/// A list of globs narrows nothing if it is empty or its only glob matches anything.
pub proof fn law_a_catch_all_stands_alone(globs: Seq<Seq<char>>)
    ensures
        catch_all(globs) <==> globs.len() == 0 || (globs.len() == 1 && (globs[0] == "**/*"@
            || globs[0] == "**"@)),
{
    if globs.len() == 0 {
        assert(globs =~= Seq::<Seq<char>>::empty());
    }
    if globs.len() == 1 && globs[0] == "**/*"@ {
        assert(globs =~= seq!["**/*"@]);
    }
    if globs.len() == 1 && globs[0] == "**"@ {
        assert(globs =~= seq!["**"@]);
    }
}

}
