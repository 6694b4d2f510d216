//! The session: the screens around a game, the keys, and the fixed-timestep
//! loop that turns elapsed time into simulation ticks.
use crate::asset::AssetError;
use crate::bunker::{bunker_cells, total_cells};
use crate::geometry::shifted_all;
use crate::player::{blocked_left, blocked_right, Player};
use crate::state::{
    aliens_updated, collisions_applied, enemy_fire_decided, fired_laser, invaded, laser_view_of,
    player_laser_updated, tick_step, Assets, State,
};
use crate::aliens::formation;
use vstd::prelude::*;

verus! {

/// Milliseconds of wall-clock time per simulation tick.
pub const MS_PER_UPDATE: u64 = 10;

/// Whether the session goes on after an input.
#[derive(Debug, Clone, Copy, PartialEq, Eq, Structural)]
pub enum InputResult {
    Continue,
    Quit,
}

/// The screens of a session.
#[derive(Debug, Clone, Copy, PartialEq, Eq, Structural)]
pub enum GameState {
    NewGame,
    Playing,
    Won,
    Lost,
}

/// The keys the game tells apart.
#[derive(Debug, Clone, Copy, PartialEq, Eq, Structural)]
pub enum KeySymbol {
    Left,
    Right,
    Up,
    Space,
    Char(char),
    Enter,
    Other,
}

/// What the loop has to do after a call of `update_and_render`.
#[derive(Debug, Clone, Copy, PartialEq, Eq, Structural)]
pub enum Frame {
    /// No tick was due: nothing to draw.
    Idle,
    /// Ticks ran: draw the world.
    Render,
    /// The game is over: show this screen and wait for a key.
    Screen(GameState),
}

/// A session: the templates, the world of the current life, the screen shown,
/// the loop's clock (milliseconds of its last tick) and the ticks run so far.
pub struct LigmaInvaders {
    pub last_update: u64,
    pub ticks: u64,
    pub screen: GameState,
    pub state: State,
    pub assets: Assets,
}

/// The tick count `j` ticks after `ticks`, held at the largest tick.
pub open spec fn ticks_after(ticks: u64, j: int) -> u64 {
    if ticks + j > u64::MAX {
        u64::MAX
    } else {
        (ticks + j) as u64
    }
}

impl LigmaInvaders {
    /// A session at the start screen, at loop time `now_ms`.
    pub fn new(assets: Assets, now_ms: u64) -> (r: Result<LigmaInvaders, AssetError>)
        ensures
            match r {
                Err(e) => crate::state::assets_error(assets) == Some(e),
                Ok(g) => {
                    &&& g.state.wf()
                    &&& g.state.is_initial(assets, 0)
                    &&& g.screen == GameState::NewGame
                    &&& g.last_update == now_ms
                    &&& g.ticks == 0
                },
            },
    {
        match State::new(&assets, 0) {
            Err(e) => Err(e),
            Ok(state) => Ok(
                LigmaInvaders { last_update: now_ms, ticks: 0, screen: GameState::NewGame, state, assets },
            ),
        }
    }

    /// Marks `now_ms` as the time of the last tick.
    pub fn set_last_update(&mut self, now_ms: u64)
        ensures
            final(self).last_update == now_ms,
            final(self).ticks == old(self).ticks,
            final(self).screen == old(self).screen,
            final(self).state == old(self).state,
            final(self).assets == old(self).assets,
    {
        self.last_update = now_ms;
    }

    /// Runs one tick of the simulation, in the fixed order: the player's
    /// laser, the formation, the enemy lasers, then the collisions.
    pub fn tick(&mut self)
        requires
            old(self).state.wf(),
        ensures
            final(self).state.wf(),
            final(self).ticks == ticks_after(old(self).ticks, 1),
            tick_step(old(self).state, final(self).state, final(self).ticks),
            final(self).state.aliens.count() <= old(self).state.aliens.count(),
            total_cells(bunker_cells(final(self).state.bunkers.positions@)) <= total_cells(
                bunker_cells(old(self).state.bunkers.positions@),
            ),
            final(self).state.player.health <= old(self).state.player.health,
            final(self).screen == old(self).screen,
            final(self).last_update == old(self).last_update,
            final(self).assets == old(self).assets,
    {
        if self.ticks < u64::MAX {
            self.ticks = self.ticks + 1;
        }
        let now = self.ticks;
        let ghost s0 = self.state;
        self.state.update_player_laser(now);
        let ghost s1 = self.state;
        self.state.update_aliens(now);
        let ghost s2 = self.state;
        self.state.update_aliens_lasers(now);
        let ghost s3 = self.state;
        self.state.apply_collisions();
        assert(player_laser_updated(s0, s1, now));
        assert(aliens_updated(s1, s2, now));
        assert(enemy_fire_decided(s2, s3, now));
        assert(collisions_applied(s3, self.state));
    }

    /// One pass of the loop at time `now_ms`. A lost game (no health left, or
    /// an alien in the ship's rows) or a won one (no alien left) ends on its
    /// screen. Otherwise each whole tick of elapsed time runs one tick; the
    /// world is drawn once, after the last of them.
    pub fn update_and_render(&mut self, now_ms: u64) -> (r: Frame)
        requires
            old(self).state.wf(),
        ensures
            final(self).state.wf(),
            final(self).assets == old(self).assets,
            ({
                let lost = old(self).state.player.health == 0 || invaded(
                    formation(old(self).state.aliens.aliens_rows@),
                    old(self).state.player.position@,
                );
                let won = old(self).state.aliens.count() == 0;
                let n = old(self).get_elapsed_spec(now_ms) / MS_PER_UPDATE as int;
                if lost {
                    &&& r == Frame::Screen(GameState::Lost)
                    &&& final(self).screen == GameState::Lost
                    &&& final(self).state == old(self).state
                    &&& final(self).ticks == old(self).ticks
                    &&& final(self).last_update == old(self).last_update
                } else if won {
                    &&& r == Frame::Screen(GameState::Won)
                    &&& final(self).screen == GameState::Won
                    &&& final(self).state == old(self).state
                    &&& final(self).ticks == old(self).ticks
                    &&& final(self).last_update == old(self).last_update
                } else {
                    &&& r == if n > 0 {
                        Frame::Render
                    } else {
                        Frame::Idle
                    }
                    &&& final(self).screen == old(self).screen
                    &&& final(self).ticks == ticks_after(old(self).ticks, n)
                    &&& exists|trace: Seq<State>|
                        {
                            &&& trace.len() == n + 1
                            &&& trace[0] == old(self).state
                            &&& #[trigger] trace[n] == final(self).state
                            &&& forall|i: int|
                                0 <= i < n ==> tick_step(
                                    #[trigger] trace[i],
                                    trace[i + 1],
                                    ticks_after(old(self).ticks, i + 1),
                                )
                        }
                    &&& final(self).last_update == if n > 0 {
                        now_ms
                    } else {
                        old(self).last_update
                    }
                    &&& final(self).state.aliens.count() <= old(self).state.aliens.count()
                    &&& total_cells(bunker_cells(final(self).state.bunkers.positions@))
                        <= total_cells(bunker_cells(old(self).state.bunkers.positions@))
                    &&& final(self).state.player.health <= old(self).state.player.health
                }
            }),
    {
        if self.state.player.health == 0 || self.state.aliens_invaded() {
            self.screen = GameState::Lost;
            return Frame::Screen(GameState::Lost);
        }
        if self.state.get_aliens_count() == 0 {
            self.screen = GameState::Won;
            return Frame::Screen(GameState::Won);
        }
        let elapsed = self.get_elapsed(now_ms);
        let mut lag = elapsed;
        let mut ran = false;
        let ghost mut k: int = 0;
        let ghost mut trace: Seq<State> = seq![self.state];
        while lag >= MS_PER_UPDATE
            invariant
                lag + MS_PER_UPDATE * k == elapsed,
                k >= 0,
                elapsed == old(self).get_elapsed_spec(now_ms),
                self.state.wf(),
                self.ticks == ticks_after(old(self).ticks, k),
                trace.len() == k + 1,
                trace[0] == old(self).state,
                trace[k] == self.state,
                forall|i: int|
                    0 <= i < k ==> tick_step(
                        #[trigger] trace[i],
                        trace[i + 1],
                        ticks_after(old(self).ticks, i + 1),
                    ),
                ran == (k > 0),
                ran ==> self.last_update == now_ms,
                !ran ==> self.last_update == old(self).last_update,
                self.screen == old(self).screen,
                self.assets == old(self).assets,
                self.state.aliens.count() <= old(self).state.aliens.count(),
                total_cells(bunker_cells(self.state.bunkers.positions@)) <= total_cells(
                    bunker_cells(old(self).state.bunkers.positions@),
                ),
                self.state.player.health <= old(self).state.player.health,
            decreases lag,
        {
            self.set_last_update(now_ms);
            lag = lag - MS_PER_UPDATE;
            self.tick();
            ran = true;
            proof {
                let before = trace;
                trace = trace.push(self.state);
                assert forall|i: int| 0 <= i < k + 1 implies tick_step(
                    #[trigger] trace[i],
                    trace[i + 1],
                    ticks_after(old(self).ticks, i + 1),
                ) by {
                    if i < k {
                        assert(trace[i] == before[i]);
                        assert(trace[i + 1] == before[i + 1]);
                    }
                }
                k = k + 1;
            }
        }
        assert(k == elapsed as int / MS_PER_UPDATE as int) by (nonlinear_arith)
            requires
                lag + MS_PER_UPDATE * k == elapsed,
                0 <= lag < MS_PER_UPDATE,
                k >= 0,
        ;
        assert(trace[k] == self.state);
        if ran {
            Frame::Render
        } else {
            Frame::Idle
        }
    }

    /// Milliseconds since the last tick; none where the clock went back.
    pub open spec fn get_elapsed_spec(&self, now_ms: u64) -> int {
        if now_ms >= self.last_update {
            now_ms - self.last_update
        } else {
            0
        }
    }

    /// Applies one key while playing: arrows move the ship, space fires, `q`
    /// quits; other keys do nothing.
    pub fn handle_user_input(&mut self, key: KeySymbol) -> (r: InputResult)
        requires
            old(self).state.wf(),
        ensures
            final(self).state.wf(),
            r == if key == KeySymbol::Char('q') {
                InputResult::Quit
            } else {
                InputResult::Continue
            },
            key == KeySymbol::Left ==> {
                &&& final(self).state.player.position@ == if blocked_left(
                    old(self).state.player.position@,
                ) {
                    old(self).state.player.position@
                } else {
                    shifted_all(old(self).state.player.position@, -Player::SPEED as int, 0)
                }
                &&& final(self).state.player.laser == old(self).state.player.laser
            },
            key == KeySymbol::Right ==> {
                &&& final(self).state.player.position@ == if blocked_right(
                    old(self).state.player.position@,
                ) {
                    old(self).state.player.position@
                } else {
                    shifted_all(old(self).state.player.position@, Player::SPEED as int, 0)
                }
                &&& final(self).state.player.laser == old(self).state.player.laser
            },
            (key == KeySymbol::Space || key == KeySymbol::Char(' ')) ==> {
                &&& final(self).state.player.position == old(self).state.player.position
                &&& old(self).state.player.laser is Some ==> final(self).state
                    == old(self).state
                &&& old(self).state.player.laser is None ==> laser_view_of(
                    final(self).state.player.laser,
                ) == Some(fired_laser(old(self).state, old(self).ticks))
            },
            !(key == KeySymbol::Left || key == KeySymbol::Right || key == KeySymbol::Space || key
                == KeySymbol::Char(' ')) ==> final(self).state == old(self).state,
            final(self).state.prototypes == old(self).state.prototypes,
            final(self).state.player_color == old(self).state.player_color,
            final(self).state.aliens == old(self).state.aliens,
            final(self).state.bunkers == old(self).state.bunkers,
            final(self).state.player.health == old(self).state.player.health,
            final(self).ticks == old(self).ticks,
            final(self).screen == old(self).screen,
            final(self).last_update == old(self).last_update,
            final(self).assets == old(self).assets,
    {
        match key {
            KeySymbol::Left => {
                self.state.player_go_left();
                InputResult::Continue
            },
            KeySymbol::Right => {
                self.state.player_go_right();
                InputResult::Continue
            },
            KeySymbol::Space | KeySymbol::Char(' ') => {
                self.state.player_shoot(self.ticks);
                InputResult::Continue
            },
            KeySymbol::Char('q') => InputResult::Quit,
            _ => InputResult::Continue,
        }
    }

    /// Applies one key on a start or end screen: `q` quits; enter starts a
    /// new life with a fresh world; other keys are ignored (`None`).
    pub fn handle_screen_key(&mut self, key: KeySymbol) -> (r: Result<
        Option<InputResult>,
        AssetError,
    >)
        ensures
            key == KeySymbol::Char('q') ==> r == Ok::<Option<InputResult>, AssetError>(
                Some(InputResult::Quit),
            ) && final(self).state == old(self).state && final(self).screen == old(self).screen,
            key == KeySymbol::Enter ==> match r {
                Ok(o) => {
                    &&& crate::state::assets_error(old(self).assets) is None
                    &&& o == Some(InputResult::Continue)
                    &&& final(self).screen == GameState::Playing
                    &&& final(self).state.wf()
                    &&& final(self).state.is_initial(old(self).assets, old(self).ticks)
                },
                Err(e) => {
                    &&& crate::state::assets_error(old(self).assets) == Some(e)
                    &&& final(self).state == old(self).state
                },
            },
            key != KeySymbol::Char('q') && key != KeySymbol::Enter ==> {
                &&& r == Ok::<Option<InputResult>, AssetError>(None)
                &&& final(self).state == old(self).state
                &&& final(self).screen == old(self).screen
            },
            old(self).state.wf() ==> final(self).state.wf(),
            final(self).ticks == old(self).ticks,
            final(self).last_update == old(self).last_update,
            final(self).assets == old(self).assets,
    {
        match key {
            KeySymbol::Char('q') => Ok(Some(InputResult::Quit)),
            KeySymbol::Enter => match State::new(&self.assets, self.ticks) {
                Err(e) => Err(e),
                Ok(s) => {
                    self.state = s;
                    self.screen = GameState::Playing;
                    Ok(Some(InputResult::Continue))
                },
            },
            _ => Ok(None),
        }
    }

    /// Milliseconds since the last tick; none where the clock went back.
    pub fn get_elapsed(&self, now_ms: u64) -> (r: u64)
        ensures
            r == self.get_elapsed_spec(now_ms),
    {
        if now_ms >= self.last_update {
            now_ms - self.last_update
        } else {
            0
        }
    }
}

} // verus!
