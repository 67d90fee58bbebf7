use stealth_ai::boss::{Boss, BossState, Target, ATTACK_DURATION, ATTACK_IMPACT_FRAME, DEATH_TICKS};
use stealth_ai::enemy::{Enemy, EnemyState, PatrolRoll, ALERT_TICKS, GRACE_TICKS, SHOOT_COOLDOWN};
use stealth_ai::level::{grid_from_rows, load_level_1};
use stealth_ai::population::{
    level_progress, LevelAction, alert_all, alert_nearby, boss_spawn_points, is_open_path, place_enemies, snowmen_left, spawn_candidates,
};
use stealth_ai::tile::Grid;

fn open_grid() -> Grid {
    let mut rows = vec!["####################"];
    for _ in 0..18 {
        rows.push("#..................#");
    }
    rows.push("####################");
    grid_from_rows(&rows)
}

fn roll(hx: i64, hy: i64, ticks: u32) -> PatrolRoll {
    PatrolRoll { heading_x: hx, heading_y: hy, ticks }
}

const FAR: i64 = -100_000_000;

#[test]
fn idle_enemy_without_stimulus_stays_idle() {
    let g = open_grid();
    let mut e = Enemy::new(6400, 6400, roll(1, 0, 100));
    let headings = [(1, 0), (0, 1), (-1, 0), (0, -1), (3, 4)];
    for t in 0..600 {
        let (hx, hy) = headings[t % headings.len()];
        let fired = e.update(FAR, FAR, &g, roll(hx, hy, 60 + (t as u32 % 120)));
        assert!(!fired);
        assert_eq!(e.state, EnemyState::Idle);
        assert_eq!(e.alerted_timer, 0);
        assert!(e.alive);
        assert_eq!(e.hitbox.x, e.x);
        assert_eq!(e.hitbox.y, e.y);
    }
}

#[test]
fn patrol_moves_and_hits_walls() {
    let g = open_grid();
    let mut e = Enemy::new(3200, 6400, roll(-1, 0, 100));
    // Heading left from column 1: the wall at column 0 blocks, forcing a new heading.
    let mut rerolled = false;
    for _ in 0..2000 {
        e.update(FAR, FAR, &g, roll(0, 1, 90));
        if e.patrol_x == 0 && e.patrol_y == 1 {
            rerolled = true;
            break;
        }
    }
    assert!(rerolled);
    assert_eq!(e.facing_x, 0);
    assert_eq!(e.facing_y, 1);
    assert_eq!(e.patrol_timer, 90);
    assert!(e.x + 1600 >= 3200);
}

#[test]
fn patrol_step_is_point_six_pixels() {
    let g = open_grid();
    let mut e = Enemy::new(16000, 16000, roll(1, 0, 100));
    e.update(FAR, FAR, &g, roll(1, 0, 100));
    assert_eq!(e.x, 16060);
    assert_eq!(e.y, 16000);
    assert_eq!(e.patrol_timer, 99);
}

#[test]
fn idle_enemy_that_sees_target_starts_chasing_without_moving() {
    let g = open_grid();
    let mut e = Enemy::new(6400, 16000, roll(1, 0, 100));
    let fired = e.update(6400 + 10000, 16000, &g, roll(1, 0, 100));
    assert!(!fired);
    assert_eq!(e.state, EnemyState::Chasing);
    assert!(e.saw_target);
    assert_eq!((e.x, e.y), (6400, 16000));
}

#[test]
fn chasing_enemy_fires_when_target_in_front_and_close() {
    let g = open_grid();
    let mut e = Enemy::new(6400, 16000, roll(1, 0, 100));
    e.update(6400 + 10000, 16000, &g, roll(1, 0, 100));
    let fired = e.update(6400 + 10000, 16000, &g, roll(1, 0, 100));
    assert!(fired);
    assert_eq!(e.shoot_cooldown, SHOOT_COOLDOWN);
    assert_eq!(e.state, EnemyState::Chasing);
    let again = e.update(6400 + 10000, 16000, &g, roll(1, 0, 100));
    assert!(!again);
    assert_eq!(e.shoot_cooldown, SHOOT_COOLDOWN - 1);
}

#[test]
fn chasing_enemy_walks_towards_target() {
    let g = open_grid();
    let mut e = Enemy::new(6400, 16000, roll(1, 0, 100));
    e.update(6400 + 14000, 16000, &g, roll(1, 0, 100));
    let x0 = e.x;
    for _ in 0..60 {
        e.update(6400 + 14000, 16000, &g, roll(1, 0, 100));
    }
    assert!(e.x > x0);
    assert!(!e.path.is_empty());
    // The last search, 30 ticks ago, started from the tile the enemy stood on.
    assert_eq!(e.path[0], (3, 5));
    assert_eq!(*e.path.last().unwrap(), (6, 5));
    assert_eq!(e.path.len(), 4);
}

#[test]
fn chasing_enemy_loses_target_after_grace() {
    let g = open_grid();
    let mut e = Enemy::new(6400, 16000, roll(1, 0, 100));
    e.update(6400 + 10000, 16000, &g, roll(1, 0, 100));
    assert_eq!(e.state, EnemyState::Chasing);
    // The target leaps far away: out of the radius, so even the grace period does not help.
    e.update(FAR, FAR, &g, roll(1, 0, 100));
    assert_eq!(e.state, EnemyState::Idle);
    assert_eq!(e.see_through_walls_timer, GRACE_TICKS);
}

fn grid_with_wall_between() -> Grid {
    let mut rows = vec!["####################"];
    for y in 1..19 {
        rows.push(if y == 5 { "#...#..............#" } else { "#..................#" });
    }
    rows.push("####################");
    grid_from_rows(&rows)
}

#[test]
fn grace_expired_target_behind_wall_turns_idle() {
    let g = grid_with_wall_between();
    let mut e = Enemy::new(6400, 16000, roll(1, 0, 100));
    e.state = EnemyState::Chasing;
    e.see_through_walls_timer = 1;
    let (tx, ty) = (6400 + 12800, 16000);
    assert!(!e.can_see_player_strict(tx, ty, &g));
    assert!(e.can_see_player_ignore_walls(tx, ty));
    let fired = e.update(tx, ty, &g, roll(1, 0, 100));
    assert!(!fired);
    assert_eq!(e.state, EnemyState::Idle);
    assert_eq!(e.see_through_walls_timer, 0);
}

#[test]
fn grace_arms_once_when_sight_is_lost() {
    let g = grid_with_wall_between();
    let mut e = Enemy::new(6400, 16000, roll(1, 0, 100));
    e.state = EnemyState::Chasing;
    e.saw_target = true;
    let (tx, ty) = (6400 + 12800, 16000);
    e.update(tx, ty, &g, roll(1, 0, 100));
    assert_eq!(e.state, EnemyState::Chasing);
    assert_eq!(e.see_through_walls_timer, GRACE_TICKS);
    assert!(!e.saw_target);
    // Sight stays lost: the grace runs down and is not armed again.
    e.update(tx, ty, &g, roll(1, 0, 100));
    assert!(e.see_through_walls_timer < GRACE_TICKS);
}

#[test]
fn diagonal_patrol_moves_at_most_point_six_pixels() {
    let g = open_grid();
    let mut e = Enemy::new(16000, 16000, roll(1, 1, 100));
    e.update(FAR, FAR, &g, roll(1, 1, 100));
    let (dx, dy) = (e.x - 16000, e.y - 16000);
    assert_eq!((dx, dy), (30, 30));
    assert!(dx * dx + dy * dy <= 60 * 60);
}

#[test]
fn alert_reaches_nearby_live_enemies() {
    let g = open_grid();
    let mut enemies = vec![
        Enemy::new(6400, 6400, roll(1, 0, 100)),
        Enemy::new(6400 + 10000, 6400, roll(1, 0, 100)),
        Enemy::new(6400, 6400 + 15000, roll(-1, 0, 100)),
        Enemy::new(6400 + 40000, 6400 + 40000, roll(1, 0, 100)),
    ];
    enemies[0].state = EnemyState::Chasing;
    enemies[0].alive = false;
    let (x, y) = (enemies[0].x, enemies[0].y);
    alert_nearby(&mut enemies, x, y);
    assert!(!enemies[0].alive);
    assert_eq!(enemies[0].alerted_timer, 0);
    for e in &enemies[1..3] {
        assert_eq!(e.state, EnemyState::Chasing);
        assert_eq!(e.alerted_timer, ALERT_TICKS);
        assert_eq!(e.see_through_walls_timer, GRACE_TICKS);
    }
    assert_eq!(enemies[1].facing_x, -10000);
    assert_eq!(enemies[1].facing_y, 0);
    assert_eq!(enemies[3].state, EnemyState::Idle);
    assert_eq!(enemies[3].alerted_timer, 0);
    // Without any sight of the target, the alert keeps them chasing.
    for _ in 0..100 {
        enemies[1].update(FAR, FAR, &g, roll(1, 0, 100));
        assert_eq!(enemies[1].state, EnemyState::Chasing);
    }
    assert_eq!(enemies[1].alerted_timer, ALERT_TICKS - 100);
    assert_eq!(snowmen_left(&enemies), 3);
}

#[test]
fn alert_all_skips_the_dead() {
    let mut enemies = vec![Enemy::new(6400, 6400, roll(1, 0, 100)), Enemy::new(60000, 60000, roll(1, 0, 100))];
    enemies[0].alive = false;
    alert_all(&mut enemies, 6400, 6400);
    assert_eq!(enemies[0].state, EnemyState::Idle);
    assert_eq!(enemies[1].state, EnemyState::Chasing);
    assert_eq!(enemies[1].alerted_timer, ALERT_TICKS);
}

#[test]
fn alert_at_own_position_faces_right() {
    let mut e = Enemy::new(6400, 6400, roll(0, 1, 100));
    e.alert(6400, 6400);
    assert_eq!((e.facing_x, e.facing_y), (1, 0));
}

#[test]
fn dead_enemy_does_nothing() {
    let g = open_grid();
    let mut e = Enemy::new(6400, 16000, roll(1, 0, 100));
    e.alive = false;
    assert!(!e.update(6400 + 10000, 16000, &g, roll(1, 0, 100)));
    e.alert(0, 0);
    assert_eq!(e.state, EnemyState::Idle);
    assert_eq!((e.x, e.y), (6400, 16000));
}

fn fresh_target(b: &Boss) -> Target {
    Target { x: b.x + 1600, y: b.y + 1600, health: 3 }
}

#[test]
fn boss_commits_to_one_blow() {
    let g = open_grid();
    let mut b = Boss::new(6400, 6400);
    let mut t = fresh_target(&b);
    b.update(&mut t, &g);
    assert_eq!(b.state, BossState::Attacking);
    assert_eq!(b.attack_timer, ATTACK_DURATION);
    assert!(!b.can_take_damage);
    assert_eq!(b.attack_cooldown, 45);
    let mut hits = 0;
    for _ in 0..ATTACK_DURATION {
        let before = t.health;
        b.take_damage(50);
        assert_eq!(b.health, 120);
        b.update(&mut t, &g);
        if t.health != before {
            hits += 1;
            assert_eq!(t.health, before - 1);
            assert_eq!(b.attack_timer, ATTACK_IMPACT_FRAME);
        }
    }
    assert_eq!(hits, 1);
    assert_eq!(t.health, 2);
    assert_eq!(b.state, BossState::Chasing);
    assert!(b.can_take_damage);
    assert_eq!(b.attack_timer, 0);
}

#[test]
fn boss_blow_misses_a_target_out_of_reach() {
    let g = open_grid();
    let mut b = Boss::new(6400, 6400);
    let mut t = fresh_target(&b);
    b.update(&mut t, &g);
    assert_eq!(b.state, BossState::Attacking);
    t.x = 50000;
    t.y = 50000;
    for _ in 0..ATTACK_DURATION {
        b.update(&mut t, &g);
    }
    assert_eq!(t.health, 3);
}

#[test]
fn boss_far_from_target_chases() {
    let g = open_grid();
    let mut b = Boss::new(6400, 6400);
    let mut t = Target { x: 40000, y: 40000, health: 3 };
    b.update(&mut t, &g);
    assert_eq!(b.state, BossState::Chasing);
    assert!(b.x > 6400 && b.y > 6400);
    assert_eq!(b.hitbox.x, b.x + 1800);
}

#[test]
fn boss_enraged_attacks_more_often() {
    let g = open_grid();
    let mut b = Boss::new(6400, 6400);
    b.health = 50;
    let mut t = fresh_target(&b);
    b.update(&mut t, &g);
    assert_eq!(b.state, BossState::Attacking);
    assert_eq!(b.attack_cooldown, 30);
}

#[test]
fn boss_hurt_is_cosmetic() {
    let g = open_grid();
    let mut b = Boss::new(6400, 6400);
    b.take_damage(10);
    assert_eq!(b.health, 110);
    assert_eq!(b.state, BossState::Hurt);
    assert_eq!(b.hurt_timer, 10);
    let mut t = fresh_target(&b);
    b.update(&mut t, &g);
    assert_eq!(b.state, BossState::Chasing);
    assert_eq!(t.health, 3);
}

#[test]
fn boss_death_countdown() {
    let g = open_grid();
    let mut b = Boss::new(6400, 6400);
    b.take_damage(120);
    assert_eq!(b.health, 0);
    assert_eq!(b.state, BossState::Dead);
    assert!(!b.is_death_animation_finished());
    let mut t = fresh_target(&b);
    for _ in 0..DEATH_TICKS - 1 {
        b.update(&mut t, &g);
        assert!(!b.is_death_animation_finished());
    }
    b.update(&mut t, &g);
    assert!(b.is_death_animation_finished());
    for _ in 0..10 {
        b.update(&mut t, &g);
        b.take_damage(5);
        assert!(b.is_death_animation_finished());
        assert_eq!(b.state, BossState::Dead);
    }
    assert_eq!(t.health, 3);
}

#[test]
fn boss_overkill_clamps_health() {
    let mut b = Boss::new(6400, 6400);
    b.take_damage(500);
    assert_eq!(b.health, 0);
    assert_eq!(b.death_timer, DEATH_TICKS);
}

#[test]
fn spawn_candidates_skip_islands() {
    let g = grid_from_rows(&vec!["#######", "#..#..#", "#######"]);
    assert_eq!(spawn_candidates(&g, (1, 1)), vec![(1, 1), (2, 1)]);
}

#[test]
fn enemies_placed_on_fitting_tiles() {
    let (g, s) = load_level_1();
    let order = spawn_candidates(&g, s.player_spawn);
    assert!(order.len() > 5);
    let rolls: Vec<PatrolRoll> = (0..5).map(|k| roll(1, k, 60)).collect();
    let es = place_enemies(&g, &order, &rolls);
    assert_eq!(es.len(), 5);
    assert_eq!((es[0].x, es[0].y), (3200, 3200));
    assert_eq!((es[1].x, es[1].y), (6400, 3200));
    assert_eq!(es[4].patrol_y, 4);
    let few = place_enemies(&g, &vec![(0, 0), (1, 1)], &rolls);
    assert_eq!(few.len(), 1);
    assert_eq!((few[0].x, few[0].y), (3200, 3200));
}

#[test]
fn boss_spawn_points_on_level_one() {
    let (g, _) = load_level_1();
    let pts = boss_spawn_points(&g);
    assert_eq!(pts[0], (1, 1));
    assert!(!pts.contains(&(10, 1)));
}

#[test]
fn open_path_needs_four_floor_neighbours() {
    let g = grid_from_rows(&vec!["#####", "#...#", "#...#", "#...#", "#####"]);
    assert!(is_open_path(&g, 2, 2));
    assert!(!is_open_path(&g, 1, 1));
    assert!(!is_open_path(&g, 0, 2));
}

#[test]
fn gift_tiles_are_open_floor() {
    let g = grid_from_rows(&vec!["#####", "#...#", "#...#", "#...#", "#####"]);
    assert_eq!(stealth_ai::population::gift_tiles(&g), vec![(2, 2)]);
}

#[test]
fn alerts_drained_after_the_tick() {
    let mut enemies = vec![
        Enemy::new(6400, 6400, roll(1, 0, 100)),
        Enemy::new(6400 + 20000, 6400, roll(1, 0, 100)),
        Enemy::new(90000, 90000, roll(1, 0, 100)),
        Enemy::new(90000 + 30000, 90000, roll(1, 0, 100)),
    ];
    enemies[1].alive = false;
    stealth_ai::population::drain_alerts(
        &mut enemies,
        &vec![(6400 + 20000, 6400), (90000 + 30000, 90000), (6400, 6400 + 5000)],
    );
    assert_eq!(enemies[0].state, EnemyState::Chasing);
    assert_eq!(enemies[0].alerted_timer, ALERT_TICKS);
    assert_eq!(enemies[0].see_through_walls_timer, GRACE_TICKS);
    // Facing turns towards the last alert point near it.
    assert_eq!((enemies[0].facing_x, enemies[0].facing_y), (0, 5000));
    assert!(!enemies[1].alive);
    assert_eq!(enemies[1].state, EnemyState::Idle);
    assert_eq!(enemies[2].state, EnemyState::Idle);
    assert_eq!(enemies[3].state, EnemyState::Chasing);
}

#[test]
fn level_progress_follows_boss_and_enemies() {
    let mut enemies = vec![Enemy::new(6400, 6400, roll(1, 0, 100))];
    assert_eq!(level_progress(1, &None, &enemies), LevelAction::Continue);
    enemies[0].alive = false;
    assert_eq!(level_progress(1, &None, &enemies), LevelAction::Advance);
    assert_eq!(level_progress(2, &None, &enemies), LevelAction::SpawnBoss);
    let mut b = Boss::new(6400, 6400);
    assert_eq!(level_progress(2, &Some(Boss::new(6400, 6400)), &enemies), LevelAction::Continue);
    b.take_damage(200);
    b.death_timer = 0;
    assert_eq!(level_progress(2, &Some(b), &enemies), LevelAction::Advance);
}
