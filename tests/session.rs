use ligma::aliens::{Alien, AliensRow};
use ligma::asset::AssetError;
use ligma::game::{Frame, GameState, InputResult, KeySymbol, LigmaInvaders};
use ligma::geometry::Coord;
use ligma::player::Laser;
use ligma::state::Assets;

fn c(x: u16, y: u16, ch: char) -> Coord {
    Coord { x, y, ch }
}

fn assets() -> Assets {
    Assets {
        player: "1 0 ^\n0 1 /\n1 1 #\n2 1 \\\n".to_string(),
        laser: "0 0 |\n0 1 |\n".to_string(),
        squid: "0 0 S\n1 0 S\n".to_string(),
        crab: "0 0 C\n1 0 C\n".to_string(),
        octopus: "0 0 O\n1 0 O\n".to_string(),
        bunker: "0 0 #\n1 0 #\n2 0 #\n0 1 #\n1 1 #\n2 1 #\n".to_string(),
    }
}

fn playing() -> LigmaInvaders {
    let mut g = LigmaInvaders::new(assets(), 0).unwrap();
    assert_eq!(g.screen, GameState::NewGame);
    assert_eq!(g.handle_screen_key(KeySymbol::Enter), Ok(Some(InputResult::Continue)));
    assert_eq!(g.screen, GameState::Playing);
    g.set_last_update(0);
    g
}

#[test]
fn new_session_reports_asset_errors() {
    let mut a = assets();
    a.octopus = "1".to_string();
    assert_eq!(LigmaInvaders::new(a, 0).err(), Some(AssetError::MissingField));
}

#[test]
fn screen_keys_quit_start_or_wait() {
    let mut g = LigmaInvaders::new(assets(), 0).unwrap();
    assert_eq!(g.handle_screen_key(KeySymbol::Char('x')), Ok(None));
    assert_eq!(g.handle_screen_key(KeySymbol::Left), Ok(None));
    assert_eq!(g.screen, GameState::NewGame);
    assert_eq!(g.handle_screen_key(KeySymbol::Char('q')), Ok(Some(InputResult::Quit)));
    assert_eq!(g.handle_screen_key(KeySymbol::Enter), Ok(Some(InputResult::Continue)));
    assert_eq!(g.screen, GameState::Playing);
}

#[test]
fn playing_keys_move_fire_and_quit() {
    let mut g = playing();
    assert_eq!(g.handle_user_input(KeySymbol::Right), InputResult::Continue);
    assert_eq!(g.state.player.position[0], c(4, 70, '^'));
    assert_eq!(g.handle_user_input(KeySymbol::Left), InputResult::Continue);
    assert_eq!(g.state.player.position[0], c(2, 70, '^'));
    assert_eq!(g.handle_user_input(KeySymbol::Up), InputResult::Continue);
    assert_eq!(g.handle_user_input(KeySymbol::Other), InputResult::Continue);
    assert!(g.state.player.laser.is_none());
    assert_eq!(g.handle_user_input(KeySymbol::Space), InputResult::Continue);
    assert_eq!(g.state.player.laser.as_ref().unwrap().position[0], c(2, 68, '|'));
    assert_eq!(g.handle_user_input(KeySymbol::Char('q')), InputResult::Quit);
}

#[test]
fn whole_ticks_of_elapsed_time_run_and_render_once() {
    let mut g = playing();
    assert_eq!(g.get_elapsed(35), 35);
    assert_eq!(g.update_and_render(35), Frame::Render);
    assert_eq!(g.ticks, 3);
    assert_eq!(g.last_update, 35);
    assert_eq!(g.update_and_render(39), Frame::Idle);
    assert_eq!(g.ticks, 3);
    assert_eq!(g.last_update, 35);
    assert_eq!(g.get_elapsed(20), 0);
    assert_eq!(g.update_and_render(20), Frame::Idle);
}

#[test]
fn ticks_drive_the_player_laser() {
    let mut g = playing();
    g.handle_user_input(KeySymbol::Space);
    g.tick();
    assert_eq!(g.ticks, 1);
    assert_eq!(g.state.player.laser.as_ref().unwrap().position[0], c(2, 67, '|'));
    g.tick();
    assert_eq!(g.state.player.laser.as_ref().unwrap().position[0], c(2, 66, '|'));
}

#[test]
fn last_health_point_lost_ends_the_game() {
    let mut g = playing();
    g.state.player.health = 1;
    g.state.aliens.lasers = vec![Laser {
        position: vec![c(2, 69, '|'), c(2, 70, '|')],
        last_update: 0,
        times_slower_than_cycle: 25,
    }];
    g.state.apply_collisions();
    assert_eq!(g.state.player.health, 0);
    assert!(g.state.aliens.lasers.is_empty());
    assert_eq!(g.update_and_render(10), Frame::Screen(GameState::Lost));
    assert_eq!(g.screen, GameState::Lost);
    assert_eq!(g.ticks, 0);
    assert_eq!(g.handle_screen_key(KeySymbol::Enter), Ok(Some(InputResult::Continue)));
    assert_eq!(g.state.player.health, 3);
    assert_eq!(g.screen, GameState::Playing);
}

#[test]
fn invasion_ends_the_game() {
    let mut g = playing();
    g.state.aliens.aliens_rows[0].aliens[0].position = vec![c(100, 71, 'S')];
    assert_eq!(g.update_and_render(10), Frame::Screen(GameState::Lost));
}

#[test]
fn empty_formation_wins() {
    let mut g = playing();
    g.state.aliens.aliens_rows.clear();
    assert_eq!(g.update_and_render(10), Frame::Screen(GameState::Won));
    assert_eq!(g.screen, GameState::Won);
}

#[test]
fn laser_and_alien_meeting_in_one_tick_collide() {
    let mut g = playing();
    g.state.aliens.aliens_rows = vec![AliensRow {
        aliens: vec![Alien { position: vec![c(50, 30, 'S')] }],
        last_update: 0,
    }];
    g.state.aliens.times_slower_than_cycle = 1;
    g.state.player.laser = Some(Laser {
        position: vec![c(51, 31, '|'), c(51, 32, '|')],
        last_update: 0,
        times_slower_than_cycle: 1,
    });
    g.tick();
    assert_eq!(g.ticks, 1);
    assert!(g.state.player.laser.is_none());
    assert_eq!(g.state.get_aliens_count(), 0);
    assert_eq!(g.update_and_render(10), Frame::Screen(GameState::Won));
}
