//! Tiers of confidence in a signal.

use crate::binary64::Binary64;
use vstd::prelude::*;

verus! {

/// How much a signal is trusted.
#[derive(Clone, Copy, Debug, PartialEq, Eq, Hash, Structural)]
pub enum Tier {
    Strong,
    Medium,
    Early,
    Weak,
}

/// How many readings each tier asks for.
#[derive(Clone, Copy, Debug, PartialEq, Eq, Structural)]
pub struct Requirements {
    pub strong: usize,
    pub medium: usize,
    pub early: usize,
}

pub open spec fn label_spec(t: Tier) -> Seq<char> {
    match t {
        Tier::Strong => "STRONG"@,
        Tier::Medium => "MEDIUM"@,
        Tier::Early => "EARLY"@,
        Tier::Weak => "WEAK"@,
    }
}

pub open spec fn rank_spec(t: Tier) -> nat {
    match t {
        Tier::Strong => 3,
        Tier::Medium => 2,
        Tier::Early => 1,
        Tier::Weak => 0,
    }
}

/// The rank of a tier, one above it for being in a tier at all.
pub open spec fn standing(t: Option<Tier>) -> nat {
    match t {
        Some(t) => rank_spec(t) + 1,
        None => 0,
    }
}

/// The tier of a reading: none where the deviation is above 70 percent or the score not above 30.
pub open spec fn classify_spec(
    score: Binary64,
    std_pct: Binary64,
    count: nat,
    need: Requirements,
) -> Option<Tier> {
    if std_pct.above(70) {
        None
    } else if score.above(70) && std_pct.below(30) && count >= need.strong {
        Some(Tier::Strong)
    } else if score.above(50) && std_pct.below(50) && count >= need.medium {
        Some(Tier::Medium)
    } else if score.above(40) && count >= need.early {
        Some(Tier::Early)
    } else if score.above(30) {
        Some(Tier::Weak)
    } else {
        None
    }
}

/// The name of a tier.
pub fn tier_label(t: Tier) -> (r: &'static str)
    ensures
        r@ == label_spec(t),
{
    match t {
        Tier::Strong => "STRONG",
        Tier::Medium => "MEDIUM",
        Tier::Early => "EARLY",
        Tier::Weak => "WEAK",
    }
}

/// The rank of a tier, the highest for the strongest.
pub fn tier_rank(t: Tier) -> (r: u8)
    ensures
        r == rank_spec(t),
{
    match t {
        Tier::Strong => 3,
        Tier::Medium => 2,
        Tier::Early => 1,
        Tier::Weak => 0,
    }
}

/// The tier of a reading.
pub fn classify(score: Binary64, std_pct: Binary64, count: usize, need: Requirements) -> (r: Option<
    Tier,
>)
    ensures
        r == classify_spec(score, std_pct, count as nat, need),
{
    if std_pct.is_above(70) {
        return None;
    }
    if score.is_above(70) && std_pct.is_below(30) && count >= need.strong {
        Some(Tier::Strong)
    } else if score.is_above(50) && std_pct.is_below(50) && count >= need.medium {
        Some(Tier::Medium)
    } else if score.is_above(40) && count >= need.early {
        Some(Tier::Early)
    } else if score.is_above(30) {
        Some(Tier::Weak)
    } else {
        None
    }
}

/// A better score, a smaller deviation and more readings never lower the tier.
pub proof fn better_readings_never_lower_the_tier(
    score: Binary64,
    std_pct: Binary64,
    count: nat,
    better_score: Binary64,
    better_std: Binary64,
    better_count: nat,
    need: Requirements,
)
    requires
        score.at_most(better_score),
        better_std.at_most(std_pct),
        count <= better_count,
    ensures
        standing(classify_spec(score, std_pct, count, need)) <= standing(
            classify_spec(better_score, better_std, better_count, need),
        ),
{
}

/// Two tiers of one rank are one tier.
pub proof fn ranks_tell_tiers_apart(a: Tier, b: Tier)
    ensures
        rank_spec(a) == rank_spec(b) ==> a == b,
{
}

} // verus!
