use tank_trouble::round::{round_end_step, fresh_round_due};
use tank_trouble::tanks::{
    reset_for_round, return_bullet, shoot_bullet, tank_command, Drive, Tank, TankColor, TankCommand, Turn,
    TANK_BULLET_COUNT,
};

#[test]
fn new_tank_has_a_full_load() {
    let t = Tank::new(2);
    assert_eq!(t, Tank { tank_id: 2, bullets_remaining: 5 });
    assert_eq!(TANK_BULLET_COUNT, 5);
}

#[test]
fn shooting_uses_a_bullet() {
    let mut t = Tank { tank_id: 1, bullets_remaining: 2 };
    assert!(shoot_bullet(&mut t));
    assert_eq!(t.bullets_remaining, 1);
    assert!(shoot_bullet(&mut t));
    assert_eq!(t.bullets_remaining, 0);
    assert!(!shoot_bullet(&mut t));
    assert_eq!(t, Tank { tank_id: 1, bullets_remaining: 0 });
}

#[test]
fn expired_bullet_goes_back_to_its_owner() {
    let mut tanks = vec![Tank { tank_id: 1, bullets_remaining: 3 }, Tank { tank_id: 2, bullets_remaining: 0 }];
    return_bullet(&mut tanks, 2);
    assert_eq!(tanks, vec![Tank { tank_id: 1, bullets_remaining: 3 }, Tank { tank_id: 2, bullets_remaining: 1 }]);
    return_bullet(&mut tanks, 7);
    assert_eq!(tanks, vec![Tank { tank_id: 1, bullets_remaining: 3 }, Tank { tank_id: 2, bullets_remaining: 1 }]);
}

#[test]
fn shot_then_expiry_restores_the_tank() {
    let start = Tank { tank_id: 1, bullets_remaining: 5 };
    let mut tanks = vec![start];
    assert!(shoot_bullet(&mut tanks[0]));
    return_bullet(&mut tanks, 1);
    assert_eq!(tanks, vec![start]);
}

#[test]
fn ammo_and_bullets_in_flight_add_up() {
    let mut t = Tank::new(1);
    let mut in_flight = 0;
    for step in 0..20 {
        if step % 3 == 2 && in_flight > 0 {
            let mut tanks = vec![t];
            return_bullet(&mut tanks, 1);
            t = tanks[0];
            in_flight -= 1;
        } else if shoot_bullet(&mut t) {
            in_flight += 1;
        }
        assert_eq!(t.bullets_remaining + in_flight, TANK_BULLET_COUNT);
    }
}

#[test]
fn fresh_round_refills_and_colours() {
    let mut t1 = Tank { tank_id: 1, bullets_remaining: 0 };
    let mut t2 = Tank { tank_id: 2, bullets_remaining: 3 };
    assert_eq!(reset_for_round(&mut t1), TankColor::Player1);
    assert_eq!(reset_for_round(&mut t2), TankColor::Player2);
    assert_eq!(t1.bullets_remaining, TANK_BULLET_COUNT);
    assert_eq!(t2.bullets_remaining, TANK_BULLET_COUNT);
}

#[test]
fn keys_give_commands() {
    assert_eq!(
        tank_command(true, false, true, false),
        TankCommand { turn: Turn::Clockwise, drive: Drive::Forward }
    );
    assert_eq!(
        tank_command(false, true, false, true),
        TankCommand { turn: Turn::CounterClockwise, drive: Drive::Backward }
    );
    assert_eq!(
        tank_command(true, true, true, true),
        TankCommand { turn: Turn::Straight, drive: Drive::Stop }
    );
    assert_eq!(
        tank_command(false, false, false, false),
        TankCommand { turn: Turn::Straight, drive: Drive::Stop }
    );
}

#[test]
fn a_hit_ends_the_round() {
    let outcome = round_end_step(false, false, &vec![false, true]);
    assert!(outcome.restart);
    assert!(outcome.restart_timer);
    assert_eq!(outcome.dead, vec![false, true]);
}

#[test]
fn no_hit_keeps_playing() {
    let outcome = round_end_step(false, false, &vec![false, false]);
    assert!(!outcome.restart);
    assert!(!outcome.restart_timer);
    assert_eq!(outcome.dead, vec![false, false]);
}

#[test]
fn waiting_for_restart_ignores_hits() {
    let outcome = round_end_step(true, false, &vec![true, true]);
    assert!(outcome.restart);
    assert!(!outcome.restart_timer);
    assert_eq!(outcome.dead, vec![false, false]);
}

#[test]
fn fresh_round_clears_the_restart_mark() {
    let outcome = round_end_step(true, true, &vec![false, false]);
    assert!(!outcome.restart);
    let outcome = round_end_step(true, true, &vec![true, false]);
    assert!(outcome.restart);
    assert_eq!(outcome.dead, vec![true, false]);
}

#[test]
fn fresh_round_waits_for_the_clock() {
    assert!(fresh_round_due(true, true));
    assert!(!fresh_round_due(true, false));
    assert!(!fresh_round_due(false, true));
}
