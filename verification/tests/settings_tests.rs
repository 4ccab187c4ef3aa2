use ht_dungeon_core::settings::{first_broken_rule, ActorRule, ActorSettings};
use ht_dungeon_core::world::{roll_damage, simulation_rng};
use ht_dungeon_core::random::SeededRng;
use rand::{Rng, SeedableRng};
use rand_chacha::ChaCha8Rng;

fn good_settings() -> ActorSettings {
    ActorSettings {
        radius_positive: true,
        max_hp: 30,
        movement_speed_positive: true,
        attack_damage_min: 2,
        attack_damage_max: 5,
        attack_range_positive: true,
        attack_cooldown_not_negative: true,
        animation_seconds_positive: true,
        impact_within_animation: true,
    }
}

#[test]
fn valid_actor_settings_pass() {
    assert_eq!(first_broken_rule(&good_settings()), None);
    let mut zero_damage = good_settings();
    zero_damage.attack_damage_min = 0;
    zero_damage.attack_damage_max = 0;
    assert_eq!(first_broken_rule(&zero_damage), None);
}

#[test]
fn each_actor_rule_is_reported() {
    let mut s = good_settings();
    s.radius_positive = false;
    assert_eq!(first_broken_rule(&s), Some(ActorRule::Radius));

    let mut s = good_settings();
    s.max_hp = 0;
    assert_eq!(first_broken_rule(&s), Some(ActorRule::MaxHp));
    s.max_hp = -4;
    assert_eq!(first_broken_rule(&s), Some(ActorRule::MaxHp));

    let mut s = good_settings();
    s.movement_speed_positive = false;
    assert_eq!(first_broken_rule(&s), Some(ActorRule::MovementSpeed));

    let mut s = good_settings();
    s.attack_damage_min = -1;
    assert_eq!(first_broken_rule(&s), Some(ActorRule::AttackDamage));
    let mut s = good_settings();
    s.attack_damage_min = 6;
    s.attack_damage_max = 5;
    assert_eq!(first_broken_rule(&s), Some(ActorRule::AttackDamage));

    let mut s = good_settings();
    s.attack_range_positive = false;
    assert_eq!(first_broken_rule(&s), Some(ActorRule::AttackRange));

    let mut s = good_settings();
    s.attack_cooldown_not_negative = false;
    assert_eq!(first_broken_rule(&s), Some(ActorRule::AttackCooldown));

    let mut s = good_settings();
    s.animation_seconds_positive = false;
    assert_eq!(first_broken_rule(&s), Some(ActorRule::AnimationSeconds));

    let mut s = good_settings();
    s.impact_within_animation = false;
    assert_eq!(first_broken_rule(&s), Some(ActorRule::ImpactSeconds));
}

#[test]
fn first_broken_actor_rule_wins() {
    let mut s = good_settings();
    s.max_hp = 0;
    s.movement_speed_positive = false;
    s.impact_within_animation = false;
    assert_eq!(first_broken_rule(&s), Some(ActorRule::MaxHp));
    s.radius_positive = false;
    assert_eq!(first_broken_rule(&s), Some(ActorRule::Radius));
}

#[test]
fn damage_rolls_stay_in_range() {
    let mut rng = SeededRng::new(7);
    let mut seen_low = false;
    let mut seen_high = false;
    for _ in 0..500 {
        let d = roll_damage(&mut rng, 2, 5);
        assert!((2..=5).contains(&d));
        seen_low |= d == 2;
        seen_high |= d == 5;
    }
    assert!(seen_low && seen_high);
    assert_eq!(roll_damage(&mut rng, 4, 4), 4);
    assert_eq!(roll_damage(&mut rng, -3, -3), -3);
}

#[test]
fn simulation_stream_is_seeded_one_past_the_floor() {
    let mut a = simulation_rng(41);
    let mut b = SeededRng::new(42);
    for _ in 0..20 {
        assert_eq!(roll_damage(&mut a, 0, 1000), roll_damage(&mut b, 0, 1000));
    }
    let mut wrapped = simulation_rng(u64::MAX);
    let mut zero = SeededRng::new(0);
    for _ in 0..20 {
        assert_eq!(roll_damage(&mut wrapped, 0, 1000), roll_damage(&mut zero, 0, 1000));
    }
}

#[test]
fn seeded_draws_are_the_chacha_stream() {
    let mut model = SeededRng::new(42);
    let mut raw = ChaCha8Rng::seed_from_u64(42);
    for _ in 0..50 {
        assert_eq!(roll_damage(&mut model, -5, 1000), raw.gen_range(-5..=1000));
    }
    let mut again = SeededRng::new(42);
    let mut raw = ChaCha8Rng::seed_from_u64(42);
    let firsts: Vec<i32> = (0..10).map(|_| roll_damage(&mut again, 1, 2)).collect();
    let expected: Vec<i32> = (0..10).map(|_| raw.gen_range(1..=2)).collect();
    assert_eq!(firsts, expected);
}
