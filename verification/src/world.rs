//! The decisions the simulation takes on each command and tick: pausing,
//! whether time advances, how damage lands, how a rat's behaviour changes, how
//! many rats a room gets, and when the game is won or lost.

use vstd::prelude::*;

use crate::entity::{EntityKind, RatState};
use crate::random::{
    after_range, after_ratio, chacha_range_draw, chacha_ratio_draw, random_ratio, random_through, RngCall,
    SeededRng,
};
use crate::snapshot::GameState;

verus! {

/// The game has ended, in defeat or in victory.
pub open spec fn is_final(state: GameState) -> bool {
    state == GameState::GameOver || state == GameState::Victory
}

pub open spec fn toggle_pause_spec(state: GameState) -> GameState {
    match state {
        GameState::Running => GameState::Paused,
        GameState::Paused => GameState::Running,
        other => other,
    }
}

/// The pause key: a running game pauses, a paused one runs; any other state stays.
pub fn toggle_pause(state: GameState) -> (r: GameState)
    ensures
        r == toggle_pause_spec(state),
{
    match state {
        GameState::Running => GameState::Paused,
        GameState::Paused => GameState::Running,
        other => other,
    }
}

pub open spec fn set_paused_spec(state: GameState, paused: bool) -> GameState {
    if state == GameState::Running || state == GameState::Paused {
        if paused {
            GameState::Paused
        } else {
            GameState::Running
        }
    } else {
        state
    }
}

/// An explicit pause or resume: it applies to a running or paused game only.
pub fn set_paused(state: GameState, paused: bool) -> (r: GameState)
    ensures
        r == set_paused_spec(state, paused),
{
    match state {
        GameState::Running | GameState::Paused => {
            if paused {
                GameState::Paused
            } else {
                GameState::Running
            }
        },
        other => other,
    }
}

/// Whether simulated time advances on this frame: only while the game runs,
/// so a pause stops movement, behaviour, combat, cooldowns and pickups.
pub fn should_tick(state: GameState) -> (r: bool)
    ensures
        r == (state == GameState::Running),
{
    let paused = match state {
        GameState::Paused => true,
        _ => false,
    };
    let active = match state {
        GameState::Running | GameState::Paused => true,
        _ => false,
    };
    let ended = match state {
        GameState::GameOver | GameState::Victory => true,
        _ => false,
    };
    !paused && active && !ended
}

pub open spec fn check_game_state_spec(state: GameState, rats_alive: Seq<bool>) -> GameState {
    if is_final(state) {
        state
    } else if forall|i: int| 0 <= i < rats_alive.len() ==> !#[trigger] rats_alive[i] {
        GameState::Victory
    } else {
        state
    }
}

/// The end-of-tick check: a game that has not ended is won once no rat is
/// alive (`rats_alive` holds one flag per rat).
pub fn check_game_state(state: GameState, rats_alive: &Vec<bool>) -> (r: GameState)
    ensures
        r == check_game_state_spec(state, rats_alive@),
{
    match state {
        GameState::GameOver | GameState::Victory => {
            return state;
        },
        _ => {},
    }
    let mut i: usize = 0;
    while i < rats_alive.len()
        invariant
            i <= rats_alive@.len(),
            forall|j: int| 0 <= j < i ==> !#[trigger] rats_alive@[j],
        decreases rats_alive@.len() - i,
    {
        if rats_alive[i] {
            return state;
        }
        i = i + 1;
    }
    GameState::Victory
}

/// The state after an attack: the hero's death ends the game in defeat.
pub fn state_after_attack(state: GameState, target_is_hero: bool, target_alive: bool) -> (r: GameState)
    ensures
        r == if target_is_hero && !target_alive {
            GameState::GameOver
        } else {
            state
        },
{
    if target_is_hero && !target_alive {
        GameState::GameOver
    } else {
        state
    }
}

/// What `amount` damage does to an actor with `hp` hit points: the new hit
/// points, never below zero, and whether the actor died (hit points fell to
/// zero or below).
pub fn damage_outcome(hp: i32, amount: i32) -> (r: (i32, bool))
    requires
        i32::MIN <= hp - amount <= i32::MAX,
    ensures
        r.1 == (hp - amount <= 0),
        r.0 == if r.1 {
            0
        } else {
            hp - amount
        },
{
    let left = hp - amount;
    if left <= 0 {
        (0, true)
    } else {
        (left, false)
    }
}

pub open spec fn next_rat_state_spec(
    state: RatState,
    can_see: bool,
    within_stop: bool,
    beyond_exit: bool,
    chase_time_left: bool,
) -> RatState {
    match state {
        RatState::Idle => if can_see {
            RatState::ChasingHero
        } else {
            RatState::Idle
        },
        RatState::ChasingHero => if within_stop {
            RatState::AttackingHero
        } else if can_see {
            RatState::ChasingHero
        } else if chase_time_left {
            RatState::ChasingHero
        } else {
            RatState::Idle
        },
        RatState::AttackingHero => if beyond_exit {
            RatState::ChasingHero
        } else {
            RatState::AttackingHero
        },
        RatState::Dead => RatState::Dead,
    }
}

/// A rat's next behaviour. `can_see`: the hero is within sight range with a
/// clear line; `within_stop`: the hero is within the rat's stopping distance;
/// `beyond_exit`: the hero has moved past the range at which an attack breaks
/// off; `chase_time_left`: the rat still remembers where it lost sight.
pub fn next_rat_state(
    state: RatState,
    can_see: bool,
    within_stop: bool,
    beyond_exit: bool,
    chase_time_left: bool,
) -> (r: RatState)
    ensures
        r == next_rat_state_spec(state, can_see, within_stop, beyond_exit, chase_time_left),
{
    match state {
        RatState::Idle => {
            if can_see {
                RatState::ChasingHero
            } else {
                RatState::Idle
            }
        },
        RatState::ChasingHero => {
            if within_stop {
                RatState::AttackingHero
            } else if can_see {
                RatState::ChasingHero
            } else if chase_time_left {
                RatState::ChasingHero
            } else {
                RatState::Idle
            }
        },
        RatState::AttackingHero => {
            if beyond_exit {
                RatState::ChasingHero
            } else {
                RatState::AttackingHero
            }
        },
        RatState::Dead => RatState::Dead,
    }
}

/// The generator the simulation draws from (rats per room, spawn points,
/// damage), seeded one past the floor's seed, wrapping at `u64::MAX`, so that
/// its stream is not the one that laid out the floor.
pub fn simulation_rng(seed: u64) -> (r: SeededRng)
    ensures
        r@ == (if seed == u64::MAX {
            0u64
        } else {
            (seed + 1) as u64
        }, Seq::<RngCall>::empty()),
{
    SeededRng::new(seed.wrapping_add(1))
}

/// The damage of one attack: a draw from the attacker's `min..=max`. An empty
/// range is left out (the settings check keeps `min <= max`).
pub fn roll_damage(rng: &mut SeededRng, min: i32, max: i32) -> (r: i32)
    requires
        min <= max,
    ensures
        min <= r <= max,
        r == chacha_range_draw(old(rng)@, min, max),
        final(rng)@ == after_range(old(rng)@, min, max),
{
    random_through(rng, min, max)
}

/// What a rat does about the hero in its current behaviour.
#[derive(Clone, Copy, Debug, PartialEq, Eq, Structural)]
pub struct RatOrders {
    /// Look for a path to the hero and follow it.
    pub seek_path: bool,
    /// Drop the path it follows.
    pub clear_path: bool,
    /// Aim its attacks at the hero (otherwise at nothing).
    pub target_hero: bool,
}

pub open spec fn rat_orders_spec(state: RatState, beyond_stop: bool, already_after_hero: bool) -> RatOrders {
    RatOrders {
        seek_path: state == RatState::ChasingHero && beyond_stop && !already_after_hero,
        clear_path: state != RatState::ChasingHero,
        target_hero: state == RatState::ChasingHero || state == RatState::AttackingHero,
    }
}

/// A rat's orders in behaviour `state`: a chasing rat farther than its
/// stopping distance (`beyond_stop`) looks for a path to the hero unless it
/// already follows one (`already_after_hero`); an attacking rat stands; an idle
/// or dead rat stands and targets nothing. Chasing and attacking rats aim at
/// the hero.
pub fn rat_orders(state: RatState, beyond_stop: bool, already_after_hero: bool) -> (r: RatOrders)
    ensures
        r == rat_orders_spec(state, beyond_stop, already_after_hero),
{
    match state {
        RatState::ChasingHero => RatOrders {
            seek_path: beyond_stop && !already_after_hero,
            clear_path: false,
            target_hero: true,
        },
        RatState::AttackingHero => RatOrders { seek_path: false, clear_path: true, target_hero: true },
        RatState::Idle | RatState::Dead => RatOrders { seek_path: false, clear_path: true, target_hero: false },
    }
}

pub open spec fn in_attack_range_spec(was_in_range: bool, within_stop: bool, beyond_exit: bool) -> bool {
    if was_in_range {
        !beyond_exit
    } else {
        within_stop
    }
}

/// Whether an actor closing in on its attack target counts as in attack range
/// this frame (and so stands still): it enters the range at its stopping
/// distance (`within_stop`) and leaves it only past the farther exit range
/// (`beyond_exit`), so that it does not flicker at the edge.
pub fn in_attack_range(was_in_range: bool, within_stop: bool, beyond_exit: bool) -> (r: bool)
    ensures
        r == in_attack_range_spec(was_in_range, within_stop, beyond_exit),
{
    if was_in_range {
        !beyond_exit
    } else {
        within_stop
    }
}

/// The attack range holds on: an actor in range stays in range until it is
/// past the exit range, and one out of range stays out until it is within its
/// stopping distance.
pub proof fn law_attack_range_hysteresis(was_in_range: bool, within_stop: bool, beyond_exit: bool)
    ensures
        was_in_range && !beyond_exit ==> in_attack_range_spec(was_in_range, within_stop, beyond_exit),
        was_in_range && beyond_exit ==> !in_attack_range_spec(was_in_range, within_stop, beyond_exit),
        !was_in_range ==> (in_attack_range_spec(was_in_range, within_stop, beyond_exit) == within_stop),
{
}

/// An actor that an attack left dead drops a rat tail when it is a rat.
pub fn drops_rat_tail(kind: EntityKind, alive: bool) -> (r: bool)
    ensures
        r == (!alive && kind == EntityKind::Rat),
{
    !alive && match kind {
        EntityKind::Rat => true,
        EntityKind::Hero => false,
    }
}

/// Hands out the next identifier of a counter: the counter's value, which
/// then moves on by one, so no identifier is handed out twice. The counter
/// running past `u32::MAX` is left out.
pub fn take_id(next: &mut u32) -> (r: u32)
    requires
        *old(next) < u32::MAX,
    ensures
        r == *old(next),
        *final(next) == *old(next) + 1,
{
    let id = *next;
    *next = *next + 1;
    id
}

/// The number of rats room `index` gets: one in each of the first two rooms,
/// one or two (a fair draw) in every other room.
pub open spec fn rats_for_room_ok(index: int, count: int) -> bool {
    if index < 2 {
        count == 1
    } else {
        1 <= count <= 2
    }
}

/// The number of rats room `index` gets when the room's coin came up `two`:
/// one in each of the first two rooms, otherwise two on `two` and one on not.
pub open spec fn rats_for_coin_spec(index: int, two: bool) -> int {
    if index < 2 {
        1
    } else if two {
        2
    } else {
        1
    }
}

/// How many rats room `index` gets once its coin has been tossed (the first
/// two rooms ignore the coin).
pub fn rats_for_coin(index: usize, two: bool) -> (r: u32)
    ensures
        r == rats_for_coin_spec(index as int, two),
{
    if index < 2 {
        1
    } else if two {
        2
    } else {
        1
    }
}

/// How many rats to spawn in room `index`; only rooms after the first two
/// toss a coin from `rng`, and the count is what `rats_for_coin` gives for it.
pub fn rats_for_room(index: usize, rng: &mut SeededRng) -> (r: u32)
    ensures
        rats_for_room_ok(index as int, r as int),
        index < 2 ==> r == 1 && final(rng)@ == old(rng)@,
        index >= 2 ==> r == rats_for_coin_spec(index as int, chacha_ratio_draw(old(rng)@, 1, 2))
            && final(rng)@ == after_ratio(old(rng)@, 1, 2),
{
    // A fair coin: rand draws `gen_ratio(1, 2)` exactly as `gen_bool(0.5)`.
    let two = if index < 2 {
        false
    } else {
        random_ratio(rng, 1, 2)
    };
    rats_for_coin(index, two)
}

pub open spec fn total(counts: Seq<u32>) -> int
    decreases counts.len(),
{
    if counts.len() == 0 {
        0
    } else {
        total(counts.drop_last()) + counts.last()
    }
}

proof fn lemma_total_bounds(counts: Seq<u32>)
    requires
        forall|i: int| 0 <= i < counts.len() ==> rats_for_room_ok(i, #[trigger] counts[i] as int),
    ensures
        counts.len() >= 2 ==> counts.len() <= total(counts) <= 2 * counts.len() - 2,
        counts.len() < 2 ==> total(counts) == counts.len(),
    decreases counts.len(),
{
    if counts.len() > 0 {
        let pre = counts.drop_last();
        assert forall|i: int| 0 <= i < pre.len() implies rats_for_room_ok(i, #[trigger] pre[i] as int) by {
            assert(pre[i] == counts[i]);
        }
        lemma_total_bounds(pre);
        assert(rats_for_room_ok(counts.len() - 1, counts[counts.len() - 1] as int));
    }
}

/// Whatever the draws, a floor of ten rooms plans between 10 and 18 rats.
pub proof fn law_rat_total(counts: Seq<u32>)
    requires
        counts.len() == 10,
        forall|i: int| 0 <= i < counts.len() ==> rats_for_room_ok(i, #[trigger] counts[i] as int),
    ensures
        10 <= total(counts) <= 18,
{
    lemma_total_bounds(counts);
}

/// Toggling the pause twice gives back the state toggled from.
pub proof fn law_toggle_pause_twice(state: GameState)
    ensures
        toggle_pause_spec(toggle_pause_spec(state)) == state,
{
}

/// An ended game stays ended: no pause command and no end-of-tick check
/// changes it.
pub proof fn law_final_states_stay(state: GameState, paused: bool, rats_alive: Seq<bool>)
    requires
        is_final(state),
    ensures
        toggle_pause_spec(state) == state,
        set_paused_spec(state, paused) == state,
        check_game_state_spec(state, rats_alive) == state,
{
}

/// A running game is won exactly when no rat is left alive.
pub proof fn law_victory_iff_rats_dead(rats_alive: Seq<bool>)
    ensures
        (check_game_state_spec(GameState::Running, rats_alive) == GameState::Victory) == (forall|i: int|
            0 <= i < rats_alive.len() ==> !#[trigger] rats_alive[i]),
{
}

/// A dead rat stays dead whatever it perceives, and an idle rat never goes
/// straight to attacking.
pub proof fn law_rat_behaviour(can_see: bool, within_stop: bool, beyond_exit: bool, chase_time_left: bool)
    ensures
        next_rat_state_spec(RatState::Dead, can_see, within_stop, beyond_exit, chase_time_left)
            == RatState::Dead,
        next_rat_state_spec(RatState::Idle, can_see, within_stop, beyond_exit, chase_time_left)
            != RatState::AttackingHero,
{
}

/// How a chasing rat moves on: within its stopping distance it attacks,
/// whatever it sees; farther off it keeps chasing while it sees the hero or
/// still remembers where it lost sight, and gives up to idle only when neither
/// holds.
pub proof fn law_chasing_rat(can_see: bool, within_stop: bool, beyond_exit: bool, chase_time_left: bool)
    ensures
        within_stop ==> next_rat_state_spec(RatState::ChasingHero, can_see, within_stop, beyond_exit, chase_time_left)
            == RatState::AttackingHero,
        !within_stop && (can_see || chase_time_left) ==> next_rat_state_spec(
            RatState::ChasingHero,
            can_see,
            within_stop,
            beyond_exit,
            chase_time_left,
        ) == RatState::ChasingHero,
        !within_stop && !can_see && !chase_time_left ==> next_rat_state_spec(
            RatState::ChasingHero,
            can_see,
            within_stop,
            beyond_exit,
            chase_time_left,
        ) == RatState::Idle,
{
}

/// How idle and attacking rats move on: an idle rat starts chasing exactly
/// when it sees the hero; an attacking rat goes back to chasing exactly when
/// the hero is past its exit range, and otherwise keeps attacking.
pub proof fn law_idle_and_attacking_rat(can_see: bool, within_stop: bool, beyond_exit: bool, chase_time_left: bool)
    ensures
        (next_rat_state_spec(RatState::Idle, can_see, within_stop, beyond_exit, chase_time_left)
            == RatState::ChasingHero) == can_see,
        (next_rat_state_spec(RatState::Idle, can_see, within_stop, beyond_exit, chase_time_left)
            == RatState::Idle) == !can_see,
        (next_rat_state_spec(RatState::AttackingHero, can_see, within_stop, beyond_exit, chase_time_left)
            == RatState::ChasingHero) == beyond_exit,
        (next_rat_state_spec(RatState::AttackingHero, can_see, within_stop, beyond_exit, chase_time_left)
            == RatState::AttackingHero) == !beyond_exit,
{
}

/// An explicit pause or resume of a running or paused game leaves it in the
/// state asked for (paused on a pause, running on a resume), whatever it was
/// in; a game in any other state is left as it is. Asking twice is the same as
/// asking once.
pub proof fn law_set_paused(state: GameState, paused: bool)
    ensures
        (state == GameState::Running || state == GameState::Paused) ==> set_paused_spec(state, paused) == if paused {
            GameState::Paused
        } else {
            GameState::Running
        },
        !(state == GameState::Running || state == GameState::Paused) ==> set_paused_spec(state, paused) == state,
        set_paused_spec(set_paused_spec(state, paused), paused) == set_paused_spec(state, paused),
        set_paused_spec(GameState::Paused, true) == GameState::Paused,
        set_paused_spec(GameState::Running, false) == GameState::Running,
{
}

/// The pause key pauses a running game and resumes a paused one; a game that
/// is loading or has ended does not change.
pub proof fn law_toggle_pause(state: GameState)
    ensures
        toggle_pause_spec(GameState::Running) == GameState::Paused,
        toggle_pause_spec(GameState::Paused) == GameState::Running,
        !(state == GameState::Running || state == GameState::Paused) ==> toggle_pause_spec(state) == state,
        (state == GameState::Running || state == GameState::Paused) ==> toggle_pause_spec(state) != state,
{
}

/// A rat aims at the hero exactly while chasing or attacking it, keeps its
/// path exactly while chasing, and looks for a new path only while chasing a
/// hero beyond its stopping distance that it does not already follow.
pub proof fn law_rat_orders(state: RatState, beyond_stop: bool, already_after_hero: bool)
    ensures
        rat_orders_spec(state, beyond_stop, already_after_hero).target_hero <==> (state == RatState::ChasingHero
            || state == RatState::AttackingHero),
        !rat_orders_spec(state, beyond_stop, already_after_hero).clear_path <==> state == RatState::ChasingHero,
        rat_orders_spec(state, beyond_stop, already_after_hero).seek_path ==> state == RatState::ChasingHero
            && beyond_stop && !already_after_hero,
        state == RatState::ChasingHero && beyond_stop && !already_after_hero ==> rat_orders_spec(
            state,
            beyond_stop,
            already_after_hero,
        ).seek_path,
        rat_orders_spec(state, beyond_stop, already_after_hero).seek_path ==> !rat_orders_spec(
            state,
            beyond_stop,
            already_after_hero,
        ).clear_path,
{
}

/// The first two rooms get one rat whatever the coin; every later room gets
/// two rats on heads and one on tails.
pub proof fn law_rats_for_coin(index: int, two: bool)
    ensures
        index < 2 ==> rats_for_coin_spec(index, two) == 1,
        index >= 2 && two ==> rats_for_coin_spec(index, two) == 2,
        index >= 2 && !two ==> rats_for_coin_spec(index, two) == 1,
        rats_for_room_ok(index, rats_for_coin_spec(index, two)),
{
}

} // verus!
