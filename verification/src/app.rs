//! The game session of the terminal front end: the state, the view, the
//! frame counter, the modal dialog and the language, and how a key or a
//! tick of the clock changes them.
use vstd::prelude::*;
use crate::consts::MAX_PLAYER;
use crate::event::{confirms, key_result, map_key, Key, Modal};
use crate::i18n::Lang;
use crate::state::{applied, stepped, Action, State};
use crate::types::{spec_slowdown, Speed};
use crate::ui::{adjust_cursor, adjusted, start_cursor, ui_init, UiState};

verus! {

/// A running game in the terminal.
pub struct App {
    pub state: State,
    pub ui: UiState,
    /// Frame counter.
    pub k: u32,
    pub modal: Modal,
    pub lang: Lang,
}

impl App {
    /// The session is consistent: a consistent state and a cursor on the
    /// map's range of coordinates.
    pub open spec fn wf(&self) -> bool {
        &&& self.state.wf()
        &&& 0 <= self.ui.cursor.i <= 40
        &&& 0 <= self.ui.cursor.j <= 29
    }

    /// `App::new`: a session on `state`, with the view set up by `ui_init`,
    /// frame 0, no dialog.
    pub fn new(state: State, lang: Lang) -> (r: App)
        requires
            state.wf(),
        ensures
            r.wf(),
            r.state == state,
            r.ui.cursor == start_cursor(state.grid, state.controlled.0 as int),
            r.k == 0,
            r.modal == Modal::Closed,
            r.lang == lang,
    {
        let mut ui = UiState::new();
        ui_init(&state.grid, state.controlled, &mut ui);
        proof { lemma_start_cursor_range(state.grid, state.controlled.0 as int); }
        App { state, ui, k: 0, modal: Modal::Closed, lang }
    }

    /// `process_key`: handles one key (see `key_result`). A key that opens
    /// or closes the quit dialog only changes the dialog; confirming in the
    /// dialog returns true (quit). Otherwise the cursor moves as
    /// `adjust_cursor` says, or the state carries out the action.
    pub fn process_key(&mut self, key: Key) -> (quit: bool)
        requires
            old(self).wf(),
            old(self).state.grid.width >= 1,
            old(self).state.grid.height >= 1,
        ensures
            final(self).wf(),
            final(self).k == old(self).k,
            final(self).lang == old(self).lang,
            ({
                let res = key_result(
                    key,
                    old(self).ui.cursor,
                    old(self).modal,
                    old(self).state.grid.width as int,
                    old(self).state.grid.height as int,
                );
                match res.1 {
                    Some(m) => {
                        &&& quit == (m == Modal::QuitConfirm && old(self).modal == Modal::QuitConfirm && confirms(key))
                        &&& final(self).modal == if quit { old(self).modal } else { m }
                        &&& final(self).state == old(self).state
                        &&& final(self).ui == old(self).ui
                    },
                    None => {
                        &&& !quit
                        &&& final(self).modal == old(self).modal
                        &&& res.0.len() == 1
                        &&& match res.0[0] {
                            Action::MoveCursor(ni, nj) => {
                                &&& final(self).state == old(self).state
                                &&& final(self).ui.cursor == adjusted(old(self).state.grid, old(self).ui.cursor, ni as int, nj as int)
                                &&& final(self).ui.xskip == old(self).ui.xskip
                                &&& final(self).ui.xlength == old(self).ui.xlength
                            },
                            a => final(self).ui == old(self).ui && applied(old(self).state, a, final(self).state),
                        }
                    },
                }
            }),
    {
        let (actions, modal) = map_key(key, self.ui.cursor, self.modal, self.state.grid.width, self.state.grid.height);
        if let Some(m) = modal {
            let conf = match key {
                Key::Char('y') | Key::Char('Y') | Key::Char('q') | Key::Char('Q') => true,
                _ => false,
            };
            if m == Modal::QuitConfirm && self.modal == Modal::QuitConfirm && conf {
                return true;
            }
            self.modal = m;
            return false;
        }
        let a = actions[0];
        match a {
            Action::MoveCursor(ni, nj) => {
                adjust_cursor(&self.state.grid, &mut self.ui, ni, nj);
                proof { lemma_adjusted_range(self.state.grid, old(self).ui.cursor, ni as int, nj as int); }
            },
            _ => {
                self.state.apply(a);
            },
        }
        false
    }

    /// `tick`: advances the frame counter (wrapping); when no dialog is
    /// open, the game is not paused and the counter is a multiple of the
    /// speed's slowdown, the state takes one step.
    pub fn tick(&mut self)
        requires
            old(self).wf(),
            forall|p: int| 0 <= p < MAX_PLAYER ==> #[trigger] old(self).state.gold[p] <= i64::MAX - 2000,
            old(self).state.timeline.mark < i32::MAX,
        ensures
            final(self).wf(),
            final(self).k == (if old(self).k == u32::MAX { 0 } else { old(self).k + 1 }),
            final(self).ui == old(self).ui,
            final(self).modal == old(self).modal,
            final(self).lang == old(self).lang,
            if old(self).modal == Modal::Closed && final(self).k % spec_slowdown(old(self).state.speed) == 0
                && old(self).state.speed != Speed::Pause {
                stepped(old(self).state, final(self).state)
            } else {
                final(self).state == old(self).state
            },
    {
        self.k = self.k.wrapping_add(1);
        if self.modal == Modal::Closed {
            let slowdown = self.state.speed.slowdown();
            if self.k % slowdown == 0 && self.state.speed != Speed::Pause {
                self.state.step();
            }
        }
    }
}

/// The starting cursor lies within the map's range of coordinates.
proof fn lemma_start_cursor_range(g: crate::grid::Grid, c: int)
    requires
        g.wf(),
        0 <= c < MAX_PLAYER,
    ensures
        0 <= start_cursor(g, c).i <= 40,
        0 <= start_cursor(g, c).j <= 29,
{
    let b = crate::ui::most_pop_from(g, c, 0, -1, 0);
    lemma_most_pop_range(g, c, 0, -1, 0);
    if b >= 0 {
        assert(g.height > 0) by (nonlinear_arith)
            requires 0 <= b < g.tiles@.len(), g.tiles@.len() == g.width * g.height;
        crate::grid::lemma_idx_inv(g.width as int, g.height as int, b);
    }
}

proof fn lemma_most_pop_range(g: crate::grid::Grid, c: int, q: int, best: int, pop: int)
    requires
        -1 <= best < g.tiles@.len(),
        best < q || best == -1,
    ensures
        -1 <= crate::ui::most_pop_from(g, c, q, best, pop) < g.tiles@.len(),
    decreases g.tiles@.len() - q,
{
    if 0 <= q < g.tiles@.len() {
        if g.tiles@[q].pop[c] > pop {
            lemma_most_pop_range(g, c, q + 1, q, g.tiles@[q].pop[c] as int);
        } else {
            lemma_most_pop_range(g, c, q + 1, best, pop);
        }
    }
}

/// A cursor within the map's range stays within it.
proof fn lemma_adjusted_range(g: crate::grid::Grid, c: crate::types::Loc, ci: int, cj: int)
    requires
        g.wf(),
        0 <= c.i <= 40,
        0 <= c.j <= 29,
    ensures
        0 <= adjusted(g, c, ci, cj).i <= 40,
        0 <= adjusted(g, c, ci, cj).j <= 29,
{
    let f = crate::ui::first_visible_from(g, 0);
    lemma_first_visible_range(g, 0);
    if f >= 0 {
        assert(g.height > 0) by (nonlinear_arith)
            requires 0 <= f < g.tiles@.len(), g.tiles@.len() == g.width * g.height;
        crate::grid::lemma_idx_inv(g.width as int, g.height as int, f);
    }
}

proof fn lemma_first_visible_range(g: crate::grid::Grid, q: int)
    requires
        q >= 0,
    ensures
        -1 <= crate::ui::first_visible_from(g, q) < g.tiles@.len(),
    decreases g.tiles@.len() - q,
{
    if q < g.tiles@.len() && !crate::types::spec_is_visible(g.tiles@[q].cl) {
        lemma_first_visible_range(g, q + 1);
    }
}

} // verus!
