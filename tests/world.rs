use ligma::aliens::{nearest, Alien, AlienDirection, Aliens, AliensRow};
use ligma::asset::AssetError;
use ligma::bunker::Bunker;
use ligma::geometry::Coord;
use ligma::player::{Laser, RgbColor};
use ligma::state::{Assets, Cell, State};

fn c(x: u16, y: u16, ch: char) -> Coord {
    Coord { x, y, ch }
}

fn assets() -> Assets {
    Assets {
        player: "1 0 ^\n0 1 /\n1 1 #\n2 1 \\\n".to_string(),
        laser: "0 0 |\n0 1 |\n".to_string(),
        squid: "0 0 S\n1 0 S\n".to_string(),
        crab: "0 0 C\n1 0 C\n".to_string(),
        octopus: "0 0 O\n1 0 O\n".to_string(),
        bunker: "0 0 #\n1 0 #\n2 0 #\n0 1 #\n1 1 #\n2 1 #\n".to_string(),
    }
}

fn world() -> State {
    State::new(&assets(), 0).unwrap()
}

fn cells(v: &[Coord]) -> Vec<(u16, u16)> {
    v.iter().map(|p| (p.x, p.y)).collect()
}

fn formation_of(counts: &[usize]) -> Aliens {
    Aliens {
        aliens_rows: counts
            .iter()
            .map(|&n| AliensRow {
                aliens: (0..n)
                    .map(|i| Alien { position: vec![c(i as u16, 1, 'A')] })
                    .collect(),
                last_update: 0,
            })
            .collect(),
        lasers: vec![],
        times_slower_than_cycle: 100,
        direction: AlienDirection::Right,
        last_shot: 0,
    }
}

#[test]
fn new_world_layout() {
    let s = world();
    assert_eq!(s.player.health, 3);
    assert_eq!(cells(&s.player.position), vec![(2, 70), (1, 71), (2, 71), (3, 71)]);
    assert!(s.player.laser.is_none());
    assert_eq!(s.get_aliens_count(), 20);
    assert_eq!(s.aliens.aliens_rows.len(), 5);
    let waits: Vec<u64> = s.aliens.aliens_rows.iter().map(|r| r.last_update).collect();
    assert_eq!(waits, vec![80, 60, 40, 20, 0]);
    assert_eq!(cells(&s.aliens.aliens_rows[0].aliens[1].position), vec![(15, 1), (16, 1)]);
    assert_eq!(s.aliens.aliens_rows[0].aliens[1].position[0].ch, 'S');
    assert_eq!(s.aliens.aliens_rows[2].aliens[0].position[0].ch, 'C');
    assert_eq!(cells(&s.aliens.aliens_rows[4].aliens[3].position), vec![(43, 21), (44, 21)]);
    assert_eq!(s.aliens.aliens_rows[4].aliens[3].position[0].ch, 'O');
    assert_eq!(s.aliens.times_slower_than_cycle, 100);
    assert_eq!(s.aliens.direction, AlienDirection::Right);
    assert_eq!(s.bunkers.positions.len(), 4);
    assert_eq!(cells(&s.bunkers.positions[1].position)[0], (44, 55));
    assert_eq!(s.bunkers.positions[3].position.len(), 6);
    assert_eq!(*s.get_player_color(), RgbColor { r: 32, g: 255, b: 32 });
}

#[test]
fn new_rejects_bad_templates() {
    let mut a = assets();
    a.laser = "0 0 |\n".to_string();
    assert_eq!(State::new(&a, 0).err(), Some(AssetError::TooFewCells));
    let mut a = assets();
    a.player = String::new();
    assert_eq!(State::new(&a, 0).err(), Some(AssetError::TooFewCells));
    let mut a = assets();
    a.crab = "0 x C".to_string();
    assert_eq!(State::new(&a, 0).err(), Some(AssetError::InvalidNumber));
    let mut a = assets();
    a.bunker = String::new();
    assert!(State::new(&a, 0).is_ok());
}

#[test]
fn player_at_left_bound_cannot_go_left() {
    let mut s = world();
    s.player.position = vec![c(1, 70, '^'), c(2, 70, '#')];
    s.player_go_left();
    assert_eq!(cells(&s.player.position), vec![(1, 70), (2, 70)]);
}

#[test]
fn player_move_is_rejected_in_full_not_clamped() {
    let mut s = world();
    s.player.position = vec![c(2, 70, '^'), c(3, 70, '#')];
    s.player_go_left();
    assert_eq!(cells(&s.player.position), vec![(2, 70), (3, 70)]);
    s.player.position = vec![c(3, 70, '^'), c(4, 70, '#')];
    s.player_go_left();
    assert_eq!(cells(&s.player.position), vec![(1, 70), (2, 70)]);
    s.player.position = vec![c(198, 70, '^'), c(199, 70, '#')];
    s.player_go_right();
    assert_eq!(cells(&s.player.position), vec![(198, 70), (199, 70)]);
    s.player.position = vec![c(197, 70, '^'), c(198, 70, '#')];
    s.player_go_right();
    assert_eq!(cells(&s.player.position), vec![(199, 70), (200, 70)]);
}

#[test]
fn player_moves_two_columns() {
    let mut s = world();
    s.player_go_right();
    assert_eq!(cells(&s.player.position), vec![(4, 70), (3, 71), (4, 71), (5, 71)]);
    s.player_go_left();
    assert_eq!(cells(&s.player.position), vec![(2, 70), (1, 71), (2, 71), (3, 71)]);
}

#[test]
fn firing_while_a_laser_flies_does_nothing() {
    let mut s = world();
    s.player_shoot(5);
    let l = s.player.laser.as_ref().unwrap();
    assert_eq!(cells(&l.position), vec![(2, 68), (2, 69)]);
    assert_eq!(l.last_update, 5);
    assert_eq!(l.times_slower_than_cycle, 1);
    s.player_go_right();
    s.player_shoot(9);
    let l = s.player.laser.as_ref().unwrap();
    assert_eq!(cells(&l.position), vec![(2, 68), (2, 69)]);
    assert_eq!(l.last_update, 5);
}

#[test]
fn player_laser_climbs_on_its_cadence_and_leaves_at_the_top() {
    let mut s = world();
    s.player_shoot(5);
    s.update_player_laser(5);
    assert_eq!(cells(&s.player.laser.as_ref().unwrap().position), vec![(2, 68), (2, 69)]);
    s.update_player_laser(6);
    let l = s.player.laser.as_ref().unwrap();
    assert_eq!(cells(&l.position), vec![(2, 67), (2, 68)]);
    assert_eq!(l.last_update, 6);
    s.player.laser.as_mut().unwrap().position = vec![c(2, 2, '|'), c(2, 3, '|')];
    s.update_player_laser(7);
    assert_eq!(cells(&s.player.laser.as_ref().unwrap().position), vec![(2, 1), (2, 2)]);
    s.update_player_laser(8);
    assert!(s.player.laser.is_none());
}

#[test]
fn cadence_follows_the_breakpoint_table() {
    let expected = [
        (60, 100),
        (50, 100),
        (49, 80),
        (45, 80),
        (40, 80),
        (39, 50),
        (30, 50),
        (29, 20),
        (20, 20),
        (19, 5),
        (10, 5),
        (9, 3),
        (5, 3),
        (4, 2),
        (2, 2),
        (1, 1),
        (0, 1),
    ];
    for (count, cadence) in expected {
        let mut a = formation_of(&[count / 2, count - count / 2]);
        assert_eq!(a.get_aliens_count(), count);
        a.set_speed();
        assert_eq!(a.times_slower_than_cycle, cadence, "count {count}");
    }
}

#[test]
fn bunker_hit_removes_three_wide_neighbourhood_only() {
    let mut b = Bunker {
        position: vec![
            c(3, 10, '#'),
            c(4, 10, '#'),
            c(5, 10, '#'),
            c(6, 10, '#'),
            c(7, 10, '#'),
            c(5, 11, '#'),
            c(4, 9, '#'),
        ],
    };
    let laser = vec![c(5, 10, '|'), c(5, 9, '|')];
    assert!(b.remove_shot_positions(&laser));
    assert_eq!(cells(&b.position), vec![(3, 10), (7, 10), (5, 11), (4, 9)]);
    let miss = vec![c(50, 50, '|'), c(50, 51, '|')];
    assert!(!b.remove_shot_positions(&miss));
    assert_eq!(b.position.len(), 4);
}

#[test]
fn bunker_hit_at_column_zero() {
    let mut b = Bunker { position: vec![c(0, 3, '#'), c(1, 3, '#'), c(2, 3, '#'), c(65535, 3, '#')] };
    assert!(b.remove_shot_positions(&vec![c(0, 3, '|'), c(0, 4, '|')]));
    assert_eq!(cells(&b.position), vec![(2, 3), (65535, 3)]);
}

#[test]
fn player_laser_kill_recomputes_cadence() {
    let mut s = world();
    s.player.laser = Some(Laser { position: vec![c(15, 21, '|'), c(15, 22, '|')], last_update: 0, times_slower_than_cycle: 1 });
    s.apply_collisions();
    assert!(s.player.laser.is_none());
    assert_eq!(s.get_aliens_count(), 19);
    assert_eq!(s.aliens.aliens_rows[4].aliens.len(), 3);
    assert_eq!(cells(&s.aliens.aliens_rows[4].aliens[1].position)[0], (29, 21));
    assert_eq!(s.aliens.times_slower_than_cycle, 5);
}

#[test]
fn player_laser_hits_rear_row_first() {
    let mut s = world();
    s.aliens.aliens_rows[1].aliens[0].position = vec![c(60, 40, 'C')];
    s.aliens.aliens_rows[3].aliens[2].position = vec![c(60, 41, 'O')];
    s.player.laser = Some(Laser { position: vec![c(60, 40, '|'), c(60, 41, '|')], last_update: 0, times_slower_than_cycle: 1 });
    s.apply_collisions();
    assert_eq!(s.aliens.aliens_rows[3].aliens.len(), 3);
    assert_eq!(s.aliens.aliens_rows[1].aliens.len(), 4);
}

#[test]
fn bunker_is_tested_before_aliens() {
    let mut s = world();
    s.aliens.aliens_rows[0].aliens[0].position = vec![c(5, 55, 'S')];
    s.player.laser = Some(Laser { position: vec![c(5, 55, '|'), c(5, 54, '|')], last_update: 0, times_slower_than_cycle: 1 });
    s.apply_collisions();
    assert!(s.player.laser.is_none());
    assert_eq!(s.get_aliens_count(), 20);
    assert_eq!(cells(&s.aliens.aliens_rows[0].aliens[0].position), vec![(5, 55)]);
    assert_eq!(cells(&s.bunkers.positions[0].position), vec![(4, 56), (5, 56), (6, 56)]);
}

#[test]
fn player_laser_that_hits_nothing_flies_on() {
    let mut s = world();
    s.player.laser = Some(Laser { position: vec![c(100, 30, '|'), c(100, 31, '|')], last_update: 4, times_slower_than_cycle: 1 });
    s.apply_collisions();
    assert_eq!(cells(&s.player.laser.as_ref().unwrap().position), vec![(100, 30), (100, 31)]);
    assert_eq!(s.get_aliens_count(), 20);
}

#[test]
fn enemy_lasers_hit_bunkers_then_the_ship() {
    let mut s = world();
    s.aliens.lasers = vec![
        Laser { position: vec![c(5, 54, '|'), c(5, 55, '|')], last_update: 0, times_slower_than_cycle: 25 },
        Laser { position: vec![c(2, 69, '|'), c(2, 70, '|')], last_update: 0, times_slower_than_cycle: 25 },
        Laser { position: vec![c(100, 40, '|'), c(100, 41, '|')], last_update: 0, times_slower_than_cycle: 25 },
        Laser { position: vec![c(4, 70, '|'), c(4, 71, '|')], last_update: 0, times_slower_than_cycle: 25 },
    ];
    s.apply_collisions();
    assert_eq!(s.player.health, 2);
    assert_eq!(s.aliens.lasers.len(), 2);
    assert_eq!(cells(&s.aliens.lasers[0].position), vec![(100, 40), (100, 41)]);
    assert_eq!(cells(&s.bunkers.positions[0].position), vec![(4, 56), (5, 56), (6, 56)]);
    assert_eq!(cells(&s.aliens.lasers[1].position), vec![(4, 70), (4, 71)]);
}

#[test]
fn each_enemy_laser_costs_one_health() {
    let mut s = world();
    s.aliens.lasers = vec![
        Laser { position: vec![c(2, 69, '|'), c(2, 70, '|')], last_update: 0, times_slower_than_cycle: 25 },
        Laser { position: vec![c(1, 71, '|'), c(1, 72, '|')], last_update: 0, times_slower_than_cycle: 25 },
    ];
    s.apply_collisions();
    assert_eq!(s.player.health, 1);
    assert!(s.aliens.lasers.is_empty());
    s.player.health = 0;
    s.aliens.lasers = vec![Laser { position: vec![c(2, 69, '|'), c(2, 70, '|')], last_update: 0, times_slower_than_cycle: 25 }];
    s.apply_collisions();
    assert_eq!(s.player.health, 0);
    assert!(s.aliens.lasers.is_empty());
}

#[test]
fn enemy_laser_past_the_bottom_is_removed() {
    let mut s = world();
    s.aliens.lasers = vec![
        Laser { position: vec![c(10, 70, '|'), c(10, 71, '|')], last_update: 0, times_slower_than_cycle: 25 },
        Laser { position: vec![c(20, 69, '|'), c(20, 70, '|')], last_update: 0, times_slower_than_cycle: 25 },
        Laser { position: vec![c(30, 71, '|'), c(30, 72, '|')], last_update: 10, times_slower_than_cycle: 25 },
    ];
    s.aliens.update_existing_aliens_lasers(25);
    assert_eq!(s.aliens.lasers.len(), 2);
    assert_eq!(cells(&s.aliens.lasers[0].position), vec![(20, 71), (20, 72)]);
    assert_eq!(s.aliens.lasers[0].last_update, 25);
    assert_eq!(cells(&s.aliens.lasers[1].position), vec![(30, 71), (30, 72)]);
    s.aliens.update_existing_aliens_lasers(35);
    assert_eq!(s.aliens.lasers.len(), 1);
    assert_eq!(cells(&s.aliens.lasers[0].position), vec![(20, 71), (20, 72)]);
    s.aliens.update_existing_aliens_lasers(50);
    assert!(s.aliens.lasers.is_empty());
}

#[test]
fn formation_marches_rows_on_their_own_schedule() {
    let mut s = world();
    s.update_aliens(99);
    assert_eq!(cells(&s.aliens.aliens_rows[4].aliens[0].position), vec![(1, 21), (2, 21)]);
    s.update_aliens(100);
    assert_eq!(cells(&s.aliens.aliens_rows[4].aliens[0].position), vec![(2, 21), (3, 21)]);
    assert_eq!(s.aliens.aliens_rows[4].last_update, 100);
    assert_eq!(cells(&s.aliens.aliens_rows[3].aliens[0].position), vec![(1, 16), (2, 16)]);
    s.update_aliens(120);
    assert_eq!(cells(&s.aliens.aliens_rows[3].aliens[0].position), vec![(2, 16), (3, 16)]);
    assert_eq!(cells(&s.aliens.aliens_rows[4].aliens[0].position), vec![(2, 21), (3, 21)]);
}

#[test]
fn last_alien_at_right_edge_turns_and_everyone_descends() {
    let mut a = Aliens {
        aliens_rows: vec![
            AliensRow { aliens: vec![Alien { position: vec![c(100, 5, 'S')] }], last_update: 1000 },
            AliensRow { aliens: vec![], last_update: 0 },
            AliensRow { aliens: vec![Alien { position: vec![c(200, 10, 'O')] }], last_update: 0 },
        ],
        lasers: vec![],
        times_slower_than_cycle: 1,
        direction: AlienDirection::Right,
        last_shot: 0,
    };
    a.update(10);
    assert_eq!(a.direction, AlienDirection::Left);
    assert_eq!(a.aliens_rows.len(), 2);
    assert_eq!(cells(&a.aliens_rows[0].aliens[0].position), vec![(100, 7)]);
    assert_eq!(cells(&a.aliens_rows[1].aliens[0].position), vec![(200, 12)]);
    assert_eq!(a.aliens_rows[0].last_update, 30);
    assert_eq!(a.aliens_rows[1].last_update, 10);
    a.update(11);
    assert_eq!(cells(&a.aliens_rows[1].aliens[0].position), vec![(199, 12)]);
    assert_eq!(a.direction, AlienDirection::Left);
}

#[test]
fn formation_turns_at_left_edge() {
    let mut a = Aliens {
        aliens_rows: vec![AliensRow {
            aliens: vec![Alien { position: vec![c(2, 5, 'S')] }, Alien { position: vec![c(6, 5, 'S')] }],
            last_update: 0,
        }],
        lasers: vec![],
        times_slower_than_cycle: 3,
        direction: AlienDirection::Left,
        last_shot: 0,
    };
    a.update(2);
    assert_eq!(cells(&a.aliens_rows[0].aliens[0].position), vec![(2, 5)]);
    a.update(3);
    assert_eq!(a.direction, AlienDirection::Left);
    assert_eq!(cells(&a.aliens_rows[0].aliens[0].position), vec![(1, 5)]);
    a.update(6);
    assert_eq!(a.direction, AlienDirection::Right);
    assert_eq!(cells(&a.aliens_rows[0].aliens[0].position), vec![(1, 7)]);
    assert_eq!(cells(&a.aliens_rows[0].aliens[1].position), vec![(5, 7)]);
}

#[test]
fn nearest_orders_by_distance_then_list_order() {
    assert_eq!(nearest(&vec![5, 1, 5, 0, 1], 3), vec![3, 1, 4]);
    assert_eq!(nearest(&vec![5, 1, 5, 0, 1], 10), vec![3, 1, 4, 0, 2]);
    assert_eq!(nearest(&vec![], 3), Vec::<usize>::new());
    assert_eq!(nearest(&vec![7, 7], 0), Vec::<usize>::new());
}

#[test]
fn shot_comes_from_first_candidate_whose_roll_is_one() {
    let mut s = world();
    let player = s.player.position.clone();
    let laser = vec![c(0, 0, '|'), c(0, 1, '|')];
    s.aliens.shoot_with(200, &player, &laser, &vec![1, 1, 1]);
    assert!(s.aliens.lasers.is_empty());
    s.aliens.shoot_with(201, &player, &laser, &vec![0, 0, 0]);
    assert!(s.aliens.lasers.is_empty());
    assert_eq!(s.aliens.last_shot, 0);
    s.aliens.shoot_with(201, &player, &laser, &vec![0, 1, 1]);
    assert_eq!(s.aliens.lasers.len(), 1);
    assert_eq!(cells(&s.aliens.lasers[0].position), vec![(15, 23), (15, 24)]);
    assert_eq!(s.aliens.lasers[0].last_update, 201);
    assert_eq!(s.aliens.lasers[0].times_slower_than_cycle, 25);
    assert_eq!(s.aliens.last_shot, 201);
    s.aliens.shoot_with(401, &player, &laser, &vec![1, 1, 1]);
    assert_eq!(s.aliens.lasers.len(), 1);
    s.aliens.shoot_with(402, &player, &laser, &vec![0, 0, 1]);
    assert_eq!(cells(&s.aliens.lasers[1].position), vec![(1, 18), (1, 19)]);
    s.aliens.shoot_with(603, &player, &laser, &vec![1, 0, 0]);
    assert_eq!(cells(&s.aliens.lasers[2].position), vec![(1, 23), (1, 24)]);
    s.aliens.shoot_with(804, &player, &laser, &vec![1, 1, 1]);
    assert_eq!(s.aliens.lasers.len(), 3);
    assert_eq!(s.aliens.last_shot, 603);
}

#[test]
fn random_shots_eventually_fire_from_a_nearest_candidate() {
    let mut s = world();
    let player = s.player.position.clone();
    let laser = vec![c(0, 0, '|'), c(0, 1, '|')];
    let mut fired = 0;
    for round in 0..300u64 {
        s.aliens.lasers.clear();
        s.aliens.last_shot = 0;
        s.aliens.shoot(1000 + round, &player, &laser);
        if let Some(l) = s.aliens.lasers.first() {
            fired += 1;
            let origin = (l.position[0].x, l.position[0].y);
            assert!(origin == (1, 23) || origin == (15, 23) || origin == (1, 18), "{origin:?}");
        }
    }
    assert!(fired > 0);
}

#[test]
fn frame_lists_ship_laser_aliens_lasers_and_bunkers_in_order() {
    let mut s = world();
    s.player_shoot(1);
    s.aliens.lasers = vec![Laser { position: vec![c(9, 9, '!'), c(9, 10, '!')], last_update: 0, times_slower_than_cycle: 25 }];
    let frame = s.frame_cells();
    let green = Some(RgbColor { r: 32, g: 255, b: 32 });
    assert_eq!(frame.len(), 4 + 2 + 40 + 2 + 24);
    assert_eq!(frame[0], Cell { coord: c(2, 70, '^'), color: green });
    assert_eq!(frame[4], Cell { coord: c(2, 68, '|'), color: green });
    assert_eq!(frame[6], Cell { coord: c(1, 1, 'S'), color: None });
    assert_eq!(frame[45], Cell { coord: c(44, 21, 'O'), color: None });
    assert_eq!(frame[46], Cell { coord: c(9, 9, '!'), color: None });
    assert_eq!(frame[48], Cell { coord: c(4, 55, '#'), color: green });
    assert_eq!(frame[71], Cell { coord: c(126, 56, '#'), color: green });
}

#[test]
fn invasion_is_an_alien_on_the_ship_rows() {
    let mut s = world();
    assert!(!s.aliens_invaded());
    s.aliens.aliens_rows[2].aliens[1].position = vec![c(150, 69, 'C'), c(151, 70, 'C')];
    assert!(s.aliens_invaded());
}

#[test]
fn row_turns_only_when_its_leading_alien_would_cross() {
    let row = |xs: &[u16]| AliensRow {
        aliens: xs.iter().map(|&x| Alien { position: vec![c(x, 5, 'A'), c(x + 1, 6, 'A')] }).collect(),
        last_update: 0,
    };
    assert!(row(&[1, 50]).need_to_change_direction(AlienDirection::Left));
    assert!(!row(&[2, 50]).need_to_change_direction(AlienDirection::Left));
    assert!(!row(&[1, 50]).need_to_change_direction(AlienDirection::Right));
    assert!(row(&[1, 199]).need_to_change_direction(AlienDirection::Right));
    assert!(!row(&[1, 198]).need_to_change_direction(AlienDirection::Right));
    assert!(!row(&[]).need_to_change_direction(AlienDirection::Left));
    assert!(!row(&[]).need_to_change_direction(AlienDirection::Right));
}

#[test]
fn turning_drops_empty_rows_and_staggers_the_rest() {
    let mut a = formation_of(&[2, 0, 3]);
    a.change_direction(100);
    assert_eq!(a.direction, AlienDirection::Left);
    assert_eq!(a.aliens_rows.len(), 2);
    assert_eq!(a.aliens_rows[0].last_update, 120);
    assert_eq!(a.aliens_rows[1].last_update, 100);
    assert_eq!(cells(&a.aliens_rows[1].aliens[2].position), vec![(2, 3)]);
    assert_eq!(a.get_aliens_count(), 5);
    a.change_direction(u64::MAX - 5);
    assert_eq!(a.direction, AlienDirection::Right);
    assert_eq!(a.aliens_rows[0].last_update, u64::MAX);
    assert_eq!(a.aliens_rows[1].last_update, u64::MAX - 5);
}

#[test]
fn ship_is_shot_where_a_laser_cell_meets_it() {
    let mut s = world();
    assert!(s.player.is_shot(&vec![c(3, 71, '|'), c(3, 72, '|')]));
    assert_eq!(s.player.health, 2);
    assert!(!s.player.is_shot(&vec![c(3, 70, '|'), c(4, 71, '|')]));
    assert_eq!(s.player.health, 2);
}

#[test]
fn only_the_first_bunker_struck_erodes() {
    let mut s = world();
    s.bunkers.positions[2].position.push(c(5, 55, '#'));
    assert!(s.bunkers.absorb(&vec![c(5, 55, '|'), c(5, 54, '|')]));
    assert_eq!(s.bunkers.positions[0].position.len(), 3);
    assert_eq!(s.bunkers.positions[2].position.len(), 7);
    assert!(!s.bunkers.absorb(&vec![c(199, 1, '|'), c(199, 2, '|')]));
}

#[test]
fn no_row_marches_in_the_tick_of_a_turn() {
    let mut a = Aliens {
        aliens_rows: vec![
            AliensRow { aliens: vec![Alien { position: vec![c(100, 5, 'S')] }], last_update: 0 },
            AliensRow { aliens: vec![Alien { position: vec![c(200, 10, 'O')] }], last_update: 0 },
        ],
        lasers: vec![],
        times_slower_than_cycle: 1,
        direction: AlienDirection::Right,
        last_shot: 0,
    };
    a.update(10);
    assert_eq!(a.direction, AlienDirection::Left);
    assert_eq!(cells(&a.aliens_rows[0].aliens[0].position), vec![(100, 7)]);
    assert_eq!(cells(&a.aliens_rows[1].aliens[0].position), vec![(200, 12)]);
}

#[test]
fn enemy_laser_stepping_past_the_coordinate_range_is_removed() {
    let mut s = world();
    s.aliens.lasers = vec![
        Laser { position: vec![c(10, 65534, '|'), c(10, 65535, '|')], last_update: 0, times_slower_than_cycle: 25 },
        Laser { position: vec![c(20, 69, '|'), c(20, 65535, '|')], last_update: 0, times_slower_than_cycle: 25 },
    ];
    s.aliens.update_existing_aliens_lasers(25);
    assert_eq!(s.aliens.lasers.len(), 1);
    assert_eq!(s.aliens.lasers[0].position[0], c(20, 71, '|'));
}
