//! Keystrokes and what they mean: the quit-confirmation modal and the
//! actions each key gives.
use vstd::prelude::*;
use crate::state::Action;
use crate::types::Loc;

verus! {

/// A key as the game sees it.
#[derive(Clone, Copy, PartialEq, Eq, Structural, Debug)]
pub enum Key {
    Char(char),
    Left,
    Right,
    Up,
    Down,
    Esc,
    /// Any other key.
    Other,
}

/// Whether a modal dialog holds the game: `QuitConfirm` freezes the
/// simulation until the player confirms or cancels quitting.
#[derive(Clone, Copy, PartialEq, Eq, Structural, Debug)]
pub enum Modal {
    Closed,
    QuitConfirm,
}

/// `k` is the character `c`.
pub open spec fn is_char(k: Key, c: char) -> bool {
    k == Key::Char(c)
}

/// `k` confirms quitting: `y`, `Y`, `q` or `Q`.
pub open spec fn confirms(k: Key) -> bool {
    is_char(k, 'y') || is_char(k, 'Y') || is_char(k, 'q') || is_char(k, 'Q')
}

/// `x` is even (for any sign).
pub open spec fn even(x: int) -> bool {
    (if x < 0 { -x } else { x }) % 2 == 0
}

/// The result of `map_key`: the actions and the new modal state (none
/// when it stays).
pub open spec fn key_result(k: Key, cursor: Loc, modal: Modal, max_w: int, max_h: int) -> (Seq<Action>, Option<Modal>) {
    let i = cursor.i as int;
    let j = cursor.j as int;
    if modal == Modal::QuitConfirm {
        if confirms(k) {
            (seq![], Some(Modal::QuitConfirm))
        } else if is_char(k, 'n') || is_char(k, 'N') || k == Key::Esc {
            (seq![], Some(Modal::Closed))
        } else {
            (seq![], Some(Modal::QuitConfirm))
        }
    } else if is_char(k, 'q') || is_char(k, 'Q') {
        (seq![], Some(Modal::QuitConfirm))
    } else if is_char(k, 'h') || k == Key::Left {
        (seq![Action::MoveCursor((if i - 1 < 0 { 0 } else { i - 1 }) as i16, cursor.j)], None)
    } else if is_char(k, 'l') || k == Key::Right {
        (seq![Action::MoveCursor((if i + 1 > max_w - 1 { max_w - 1 } else { i + 1 }) as i16, cursor.j)], None)
    } else if is_char(k, 'k') || k == Key::Up {
        let nj = if j - 1 < 0 { 0 } else { j - 1 };
        let ni = if nj % 2 == 1 { if i + 1 > max_w - 1 { max_w - 1 } else { i + 1 } } else { i };
        (seq![Action::MoveCursor(ni as i16, nj as i16)], None)
    } else if is_char(k, 'j') || k == Key::Down {
        let nj = if j + 1 > max_h - 1 { max_h - 1 } else { j + 1 };
        let ni = if even(nj) { if i - 1 < 0 { 0 } else { i - 1 } } else { i };
        (seq![Action::MoveCursor(ni as i16, nj as i16)], None)
    } else if is_char(k, ' ') {
        (seq![Action::ToggleFlagAtCursor(cursor)], None)
    } else if is_char(k, 'x') {
        (seq![Action::ClearAllFlags], None)
    } else if is_char(k, 'c') {
        (seq![Action::ClearHalfFlags], None)
    } else if is_char(k, 'r') || is_char(k, 'v') {
        (seq![Action::BuildAtCursor(cursor)], None)
    } else if is_char(k, 'f') {
        (seq![Action::SpeedUp], None)
    } else if is_char(k, 's') {
        (seq![Action::SlowDown], None)
    } else if is_char(k, 'p') {
        (seq![Action::TogglePause], None)
    } else {
        (seq![Action::Noop], None)
    }
}

/// `map_key`: the actions a key gives and the modal state it leads to
/// (see `key_result`). In the quit dialog, `y`/`Y`/`q`/`Q` confirm, `n`/`N`
/// and Escape cancel, other keys do nothing; outside it `q`/`Q` opens it,
/// `h`/`l`/`k`/`j` and the arrows move the cursor (up and down follow the
/// hex rows), space toggles a flag, `x` and `c` clear all or half of the
/// flags, `r` or `v` builds, `f`/`s`/`p` change the speed. The limits
/// `max_w` and `max_h` are taken as `i16` (wrapping), as the cursor is.
pub fn map_key(key: Key, cursor: Loc, modal: Modal, max_w: usize, max_h: usize) -> (r: (Vec<Action>, Option<Modal>))
    requires
        i16::MIN < max_w as i16,
        i16::MIN < max_h as i16,
        i16::MIN < cursor.i < i16::MAX,
        i16::MIN < cursor.j < i16::MAX,
    ensures
        (r.0@, r.1) == key_result(key, cursor, modal, (max_w as i16) as int, (max_h as i16) as int),
{
    if modal == Modal::QuitConfirm {
        match key {
            Key::Char('y') | Key::Char('Y') | Key::Char('q') | Key::Char('Q') => {
                return (Vec::new(), Some(Modal::QuitConfirm));
            },
            Key::Char('n') | Key::Char('N') | Key::Esc => {
                return (Vec::new(), Some(Modal::Closed));
            },
            _ => {
                return (Vec::new(), Some(Modal::QuitConfirm));
            },
        }
    }
    let wi: i16 = max_w as i16 - 1;
    let hj: i16 = max_h as i16 - 1;
    match key {
        Key::Char('q') | Key::Char('Q') => (Vec::new(), Some(Modal::QuitConfirm)),
        Key::Char('h') | Key::Left => {
            let ni: i16 = if cursor.i - 1 < 0 { 0 } else { cursor.i - 1 };
            (vec![Action::MoveCursor(ni, cursor.j)], None)
        },
        Key::Char('l') | Key::Right => {
            let ni: i16 = if cursor.i + 1 > wi { wi } else { cursor.i + 1 };
            (vec![Action::MoveCursor(ni, cursor.j)], None)
        },
        Key::Char('k') | Key::Up => {
            let nj: i16 = if cursor.j - 1 < 0 { 0 } else { cursor.j - 1 };
            let ni: i16 = if nj % 2 == 1 {
                if cursor.i + 1 > wi { wi } else { cursor.i + 1 }
            } else {
                cursor.i
            };
            (vec![Action::MoveCursor(ni, nj)], None)
        },
        Key::Char('j') | Key::Down => {
            let nj: i16 = if cursor.j + 1 > hj { hj } else { cursor.j + 1 };
            let ev: bool = if nj < 0 { (-(nj as i32)) % 2 == 0 } else { nj % 2 == 0 };
            let ni: i16 = if ev {
                if cursor.i - 1 < 0 { 0 } else { cursor.i - 1 }
            } else {
                cursor.i
            };
            (vec![Action::MoveCursor(ni, nj)], None)
        },
        Key::Char(' ') => (vec![Action::ToggleFlagAtCursor(cursor)], None),
        Key::Char('x') => (vec![Action::ClearAllFlags], None),
        Key::Char('c') => (vec![Action::ClearHalfFlags], None),
        Key::Char('r') | Key::Char('v') => (vec![Action::BuildAtCursor(cursor)], None),
        Key::Char('f') => (vec![Action::SpeedUp], None),
        Key::Char('s') => (vec![Action::SlowDown], None),
        Key::Char('p') => (vec![Action::TogglePause], None),
        _ => (vec![Action::Noop], None),
    }
}

} // verus!
