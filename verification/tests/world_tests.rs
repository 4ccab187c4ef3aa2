use ht_dungeon_core::entity::{EntityKind, RatState};
use ht_dungeon_core::inventory::{Inventory, ItemKind};
use ht_dungeon_core::inspect::{hero_inspect, item_inspect, rat_inspect, tile_inspect};
use ht_dungeon_core::dungeon::TileKind;
use ht_dungeon_core::snapshot::GameState;
use ht_dungeon_core::world::{
    check_game_state, damage_outcome, next_rat_state, rats_for_coin, rats_for_room, set_paused,
    should_tick,
    state_after_attack, toggle_pause, rat_orders, in_attack_range, drops_rat_tail, take_id,
};
use ht_dungeon_core::random::SeededRng;

#[test]
fn pause_toggles() {
    assert_eq!(toggle_pause(GameState::Running), GameState::Paused);
    assert_eq!(toggle_pause(GameState::Paused), GameState::Running);
    assert_eq!(toggle_pause(toggle_pause(GameState::Running)), GameState::Running);
    assert_eq!(toggle_pause(GameState::GameOver), GameState::GameOver);
    assert_eq!(toggle_pause(GameState::Victory), GameState::Victory);
    assert_eq!(toggle_pause(GameState::Loading), GameState::Loading);
}

#[test]
fn set_paused_applies_to_running_games_only() {
    assert_eq!(set_paused(GameState::Running, true), GameState::Paused);
    assert_eq!(set_paused(GameState::Paused, false), GameState::Running);
    assert_eq!(set_paused(GameState::Running, false), GameState::Running);
    assert_eq!(set_paused(GameState::GameOver, false), GameState::GameOver);
    assert_eq!(set_paused(GameState::Victory, true), GameState::Victory);
}

#[test]
fn only_a_running_game_ticks() {
    assert!(should_tick(GameState::Running));
    assert!(!should_tick(GameState::Paused));
    assert!(!should_tick(GameState::GameOver));
    assert!(!should_tick(GameState::Victory));
    assert!(!should_tick(GameState::Loading));
}

#[test]
fn victory_when_all_rats_dead() {
    assert_eq!(check_game_state(GameState::Running, &vec![false, false]), GameState::Victory);
    assert_eq!(check_game_state(GameState::Running, &vec![false, true]), GameState::Running);
    assert_eq!(check_game_state(GameState::GameOver, &vec![false]), GameState::GameOver);
    assert_eq!(check_game_state(GameState::Running, &vec![]), GameState::Victory);
}

#[test]
fn hero_death_ends_the_game() {
    assert_eq!(state_after_attack(GameState::Running, true, false), GameState::GameOver);
    assert_eq!(state_after_attack(GameState::Running, true, true), GameState::Running);
    assert_eq!(state_after_attack(GameState::Running, false, false), GameState::Running);
}

#[test]
fn damage_clamps_at_zero() {
    assert_eq!(damage_outcome(10, 2), (8, false));
    assert_eq!(damage_outcome(1, 1), (0, true));
    assert_eq!(damage_outcome(1, 2), (0, true));
    assert_eq!(damage_outcome(5, 0), (5, false));
}

#[test]
fn rat_behaviour_transitions() {
    assert_eq!(next_rat_state(RatState::Idle, true, false, false, false), RatState::ChasingHero);
    assert_eq!(next_rat_state(RatState::Idle, false, true, false, true), RatState::Idle);
    assert_eq!(next_rat_state(RatState::ChasingHero, false, true, false, false), RatState::AttackingHero);
    assert_eq!(next_rat_state(RatState::ChasingHero, false, false, false, true), RatState::ChasingHero);
    assert_eq!(next_rat_state(RatState::ChasingHero, false, false, false, false), RatState::Idle);
    assert_eq!(next_rat_state(RatState::AttackingHero, true, false, true, true), RatState::ChasingHero);
    assert_eq!(next_rat_state(RatState::AttackingHero, false, false, false, false), RatState::AttackingHero);
    assert_eq!(next_rat_state(RatState::Dead, true, true, true, true), RatState::Dead);
}

#[test]
fn rat_counts_per_room() {
    let mut rng = SeededRng::new(3);
    let mut total = 0;
    for i in 0..10usize {
        let n = rats_for_room(i, &mut rng);
        if i < 2 {
            assert_eq!(n, 1);
        } else {
            assert!(n == 1 || n == 2);
        }
        total += n;
    }
    assert!((10..=18).contains(&total));
    // Over many draws both counts come up for the later rooms.
    let mut ones = 0;
    let mut twos = 0;
    for _ in 0..100 {
        match rats_for_room(5, &mut rng) {
            1 => ones += 1,
            2 => twos += 1,
            n => panic!("unexpected count {n}"),
        }
    }
    assert!(ones > 0 && twos > 0);
}

#[test]
fn rat_tails_stack() {
    let mut inv = Inventory::new();
    assert_eq!(inv.count(ItemKind::RatTail), 0);
    inv.add(ItemKind::RatTail, 1);
    inv.add(ItemKind::RatTail, 2);
    assert_eq!(inv.count(ItemKind::RatTail), 3);
    let empty = Inventory::default();
    assert_eq!(empty.count(ItemKind::RatTail), 0);
}

#[test]
fn inspect_texts() {
    let h = hero_inspect(7, 10, 3);
    assert_eq!(h.title, "Hero");
    assert_eq!(h.lines, vec!["HP: 7 / 10", "Weapon: Dagger", "Rat Tails: 3"]);
    let r = rat_inspect(false, 0, 1);
    assert_eq!(r.title, "Dead Rat");
    assert_eq!(r.lines, vec!["HP: 0 / 1", "Attack: 1", "Hostile.", "Drops: Rat Tail"]);
    assert_eq!(rat_inspect(true, 1, 1).title, "Rat");
    let i = item_inspect(12);
    assert_eq!(i.title, "Rat Tail");
    assert_eq!(i.lines, vec!["A severed rat tail.", "Count: 12"]);
    let w = tile_inspect(TileKind::Wall);
    assert_eq!(w.title, "Wall");
    assert_eq!(w.lines, vec!["A rough dungeon wall.", "HP: 10"]);
    let f = tile_inspect(TileKind::Floor);
    assert_eq!(f.title, "Floor");
    assert_eq!(f.lines, vec!["Worn stone floor."]);
    assert_eq!(hero_inspect(-5, 100, 0).lines[0], "HP: -5 / 100");
    assert_eq!(hero_inspect(i32::MIN, i32::MAX, u32::MAX).lines[0], "HP: -2147483648 / 2147483647");
}

#[test]
fn rat_counts_per_coin() {
    assert_eq!(rats_for_coin(0, true), 1);
    assert_eq!(rats_for_coin(1, true), 1);
    assert_eq!(rats_for_coin(0, false), 1);
    assert_eq!(rats_for_coin(2, true), 2);
    assert_eq!(rats_for_coin(9, true), 2);
    assert_eq!(rats_for_coin(2, false), 1);
    assert_eq!(rats_for_coin(9, false), 1);
}

#[test]
fn rat_orders_per_behaviour() {
    let chase = rat_orders(RatState::ChasingHero, true, false);
    assert!(chase.seek_path && !chase.clear_path && chase.target_hero);
    let near = rat_orders(RatState::ChasingHero, false, false);
    assert!(!near.seek_path && !near.clear_path && near.target_hero);
    let following = rat_orders(RatState::ChasingHero, true, true);
    assert!(!following.seek_path && following.target_hero);
    let attack = rat_orders(RatState::AttackingHero, true, false);
    assert!(!attack.seek_path && attack.clear_path && attack.target_hero);
    for st in [RatState::Idle, RatState::Dead] {
        let o = rat_orders(st, true, false);
        assert!(!o.seek_path && o.clear_path && !o.target_hero);
    }
}

#[test]
fn attack_range_has_hysteresis() {
    assert!(in_attack_range(false, true, false));
    assert!(!in_attack_range(false, false, false));
    assert!(!in_attack_range(false, false, true));
    assert!(in_attack_range(true, false, false));
    assert!(in_attack_range(true, true, false));
    assert!(!in_attack_range(true, false, true));
}

#[test]
fn only_dead_rats_drop_tails() {
    assert!(drops_rat_tail(EntityKind::Rat, false));
    assert!(!drops_rat_tail(EntityKind::Rat, true));
    assert!(!drops_rat_tail(EntityKind::Hero, false));
    assert!(!drops_rat_tail(EntityKind::Hero, true));
}

#[test]
fn ids_are_handed_out_in_turn() {
    let mut next: u32 = 0;
    assert_eq!(take_id(&mut next), 0);
    assert_eq!(take_id(&mut next), 1);
    assert_eq!(next, 2);
    let mut high: u32 = u32::MAX - 1;
    assert_eq!(take_id(&mut high), u32::MAX - 1);
    assert_eq!(high, u32::MAX);
}
