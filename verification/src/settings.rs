//! The rules an actor's settings must meet before a game starts, and the order
//! in which they are checked: the first rule broken is the one reported.

use vstd::prelude::*;

verus! {

/// A rule of an actor's settings, in the order the rules are checked.
#[derive(Clone, Copy, Debug, PartialEq, Eq, Structural)]
pub enum ActorRule {
    /// The radius is greater than zero.
    Radius,
    /// The maximum hit points are greater than zero.
    MaxHp,
    /// The movement speed is greater than zero.
    MovementSpeed,
    /// The damage bounds are non-negative and ordered.
    AttackDamage,
    /// The attack range is greater than zero.
    AttackRange,
    /// The attack cooldown is not negative.
    AttackCooldown,
    /// The attack animation lasts longer than zero seconds.
    AnimationSeconds,
    /// The moment of impact lies within the animation.
    ImpactSeconds,
}

/// An actor's settings as the rules read them: the integer settings as they
/// are, and for each setting in tiles or seconds whether it meets its rule.
#[derive(Clone, Copy, Debug)]
pub struct ActorSettings {
    pub radius_positive: bool,
    pub max_hp: i32,
    pub movement_speed_positive: bool,
    pub attack_damage_min: i32,
    pub attack_damage_max: i32,
    pub attack_range_positive: bool,
    pub attack_cooldown_not_negative: bool,
    pub animation_seconds_positive: bool,
    pub impact_within_animation: bool,
}

/// The place of `rule` in the order of the checks.
pub open spec fn rule_rank(rule: ActorRule) -> int {
    match rule {
        ActorRule::Radius => 0,
        ActorRule::MaxHp => 1,
        ActorRule::MovementSpeed => 2,
        ActorRule::AttackDamage => 3,
        ActorRule::AttackRange => 4,
        ActorRule::AttackCooldown => 5,
        ActorRule::AnimationSeconds => 6,
        ActorRule::ImpactSeconds => 7,
    }
}

/// Whether the settings `s` meet `rule`.
pub open spec fn rule_holds(s: ActorSettings, rule: ActorRule) -> bool {
    match rule {
        ActorRule::Radius => s.radius_positive,
        ActorRule::MaxHp => s.max_hp > 0,
        ActorRule::MovementSpeed => s.movement_speed_positive,
        ActorRule::AttackDamage => 0 <= s.attack_damage_min <= s.attack_damage_max,
        ActorRule::AttackRange => s.attack_range_positive,
        ActorRule::AttackCooldown => s.attack_cooldown_not_negative,
        ActorRule::AnimationSeconds => s.animation_seconds_positive,
        ActorRule::ImpactSeconds => s.impact_within_animation,
    }
}

/// The first rule, in the order of the checks, that the settings `s` break;
/// `None` when they meet every rule.
pub open spec fn first_broken_spec(s: ActorSettings) -> Option<ActorRule> {
    if !rule_holds(s, ActorRule::Radius) {
        Some(ActorRule::Radius)
    } else if !rule_holds(s, ActorRule::MaxHp) {
        Some(ActorRule::MaxHp)
    } else if !rule_holds(s, ActorRule::MovementSpeed) {
        Some(ActorRule::MovementSpeed)
    } else if !rule_holds(s, ActorRule::AttackDamage) {
        Some(ActorRule::AttackDamage)
    } else if !rule_holds(s, ActorRule::AttackRange) {
        Some(ActorRule::AttackRange)
    } else if !rule_holds(s, ActorRule::AttackCooldown) {
        Some(ActorRule::AttackCooldown)
    } else if !rule_holds(s, ActorRule::AnimationSeconds) {
        Some(ActorRule::AnimationSeconds)
    } else if !rule_holds(s, ActorRule::ImpactSeconds) {
        Some(ActorRule::ImpactSeconds)
    } else {
        None
    }
}

/// Checks the settings `s` rule by rule and reports the first rule broken.
pub fn first_broken_rule(s: &ActorSettings) -> (r: Option<ActorRule>)
    ensures
        r == first_broken_spec(*s),
{
    if !s.radius_positive {
        return Some(ActorRule::Radius);
    }
    if s.max_hp <= 0 {
        return Some(ActorRule::MaxHp);
    }
    if !s.movement_speed_positive {
        return Some(ActorRule::MovementSpeed);
    }
    if s.attack_damage_min < 0 || s.attack_damage_max < s.attack_damage_min {
        return Some(ActorRule::AttackDamage);
    }
    if !s.attack_range_positive {
        return Some(ActorRule::AttackRange);
    }
    if !s.attack_cooldown_not_negative {
        return Some(ActorRule::AttackCooldown);
    }
    if !s.animation_seconds_positive {
        return Some(ActorRule::AnimationSeconds);
    }
    if !s.impact_within_animation {
        return Some(ActorRule::ImpactSeconds);
    }
    None
}

/// The check passes exactly when every rule holds, and the rule it reports is
/// broken while every rule checked before it holds.
pub proof fn law_first_broken_rule(s: ActorSettings)
    ensures
        first_broken_spec(s) is None <==> forall|rule: ActorRule| #[trigger] rule_holds(s, rule),
        first_broken_spec(s) matches Some(broken) ==> !rule_holds(s, broken) && forall|rule: ActorRule|
            rule_rank(rule) < rule_rank(broken) ==> #[trigger] rule_holds(s, rule),
{
    if first_broken_spec(s) is None {
        assert forall|rule: ActorRule| #[trigger] rule_holds(s, rule) by {
            match rule {
                ActorRule::Radius => {},
                ActorRule::MaxHp => {},
                ActorRule::MovementSpeed => {},
                ActorRule::AttackDamage => {},
                ActorRule::AttackRange => {},
                ActorRule::AttackCooldown => {},
                ActorRule::AnimationSeconds => {},
                ActorRule::ImpactSeconds => {},
            }
        }
    }
}

/// Settings that pass the checks give an attack a damage range that can be
/// drawn from: `roll_damage` may be called with it.
pub proof fn law_checked_damage_range(s: ActorSettings)
    requires
        first_broken_spec(s) is None,
    ensures
        0 <= s.attack_damage_min <= s.attack_damage_max,
        s.max_hp > 0,
{
}

/// The settings pass the check exactly when the radius, speed and attack
/// range are positive, the maximum hit points are at least one, the damage
/// bounds satisfy 0 <= min <= max, the cooldown is not negative, the animation
/// lasts some time and the impact lies within it.
pub proof fn law_settings_pass(s: ActorSettings)
    ensures
        first_broken_spec(s) is None <==> (s.radius_positive && s.max_hp >= 1 && s.movement_speed_positive && 0
            <= s.attack_damage_min && s.attack_damage_min <= s.attack_damage_max && s.attack_range_positive
            && s.attack_cooldown_not_negative && s.animation_seconds_positive && s.impact_within_animation),
{
}

/// The hit-point rule is reported only for maximum hit points of zero or less:
/// any positive maximum, one included, meets it.
pub proof fn law_max_hp_rule(s: ActorSettings)
    ensures
        s.max_hp > 0 ==> rule_holds(s, ActorRule::MaxHp),
        s.max_hp <= 0 <==> !rule_holds(s, ActorRule::MaxHp),
        first_broken_spec(s) == Some(ActorRule::MaxHp) ==> s.max_hp <= 0 && s.radius_positive,
        first_broken_spec(s) == Some(ActorRule::AttackDamage) ==> (s.attack_damage_min < 0
            || s.attack_damage_max < s.attack_damage_min),
{
}

} // verus!
