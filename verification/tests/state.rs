use cow_core::action::Action;
use cow_core::consts::{MAX_PLAYER, MAX_TIMELINE_MARK};
use cow_core::grid::Grid;
use cow_core::state::{GameOptions, State};
use cow_core::types::{Loc, Speed};

fn rank_in_order(_g: &Grid, chosen: &Vec<Loc>, _inequality: i32) -> Option<Vec<usize>> {
    Some((0..chosen.len()).collect())
}

fn default_options(seed: u32) -> GameOptions {
    GameOptions { map_seed: seed, ..Default::default() }
}

fn total_pop(s: &State) -> [i64; MAX_PLAYER] {
    let mut out = [0i64; MAX_PLAYER];
    for t in s.grid.tiles.iter() {
        if t.cl.is_inhabitable() {
            for p in 0..MAX_PLAYER {
                out[p] += t.pop[p] as i64;
            }
        }
    }
    out
}

#[test]
fn state_new_does_not_panic() {
    let _ = State::new(&default_options(7), &rank_in_order, 0);
}

#[test]
fn state_new_is_reproducible() {
    let a = State::new(&default_options(123), &rank_in_order, 0);
    let b = State::new(&default_options(123), &rank_in_order, 0);
    let pop_a = total_pop(&a);
    let pop_b = total_pop(&b);
    assert_eq!(pop_a, pop_b);
}

#[test]
fn state_step_does_not_panic() {
    let mut s = State::new(&default_options(7), &rank_in_order, 0);
    for _ in 0..50 {
        s.step();
    }
    for (idx, t) in s.grid.tiles.iter().enumerate() {
        for p in 0..MAX_PLAYER {
            if !(0..=499).contains(&t.pop[p]) {
                panic!("pop[{}]={} at tile {} ({:?})", p, t.pop[p], idx, t.cl);
            }
        }
    }
}

#[test]
fn step_swallows_speed_changes() {
    let mut s = State::new(&default_options(11), &rank_in_order, 0);
    s.apply(Action::SpeedUp);
    assert_ne!(s.speed, Speed::Normal);
    s.apply(Action::TogglePause);
    assert_eq!(s.speed, Speed::Pause);
    s.apply(Action::TogglePause);
    assert_eq!(s.speed, s.prev_speed);
}

#[test]
fn long_simulation_stays_bounded() {
    let mut s = State::new(&default_options(99), &rank_in_order, 0);
    for _ in 0..2000 {
        s.step();
    }
    for t in s.grid.tiles.iter() {
        for &p in t.pop.iter() {
            assert!((0..=499).contains(&p));
        }
    }
    for &g in s.gold.iter() {
        assert!(g >= 0);
    }
}

#[test]
fn timeline_ring_buffer_does_not_overflow() {
    let mut s = State::new(&GameOptions { map_seed: 5, timeline: true, ..Default::default() }, &rank_in_order, 0);
    for _ in 0..(MAX_TIMELINE_MARK * 30) {
        s.step();
    }
    assert!((s.timeline.mark as usize) < MAX_TIMELINE_MARK);
}

#[test]
fn clear_half_flags_actually_removes_some() {
    let mut s = State::new(&default_options(1), &rank_in_order, 0);
    let mut planted = None;
    for i in 0..s.grid.width {
        for j in 0..s.grid.height {
            let l = Loc::new(i as i16, j as i16);
            if let Some(t) = s.grid.get(l) {
                if t.cl.is_inhabitable() {
                    s.apply(Action::ToggleFlagAtCursor(l));
                    planted = Some(l);
                    break;
                }
            }
        }
        if planted.is_some() {
            break;
        }
    }
    let before = s.flags[s.controlled.index()].flag.iter().filter(|&&b| b).count();
    assert!(before >= 1, "expected at least one flag after planting");
    s.apply(Action::ClearHalfFlags);
    let after = s.flags[s.controlled.index()].flag.iter().filter(|&&b| b).count();
    assert!(after <= before, "after {} should be <= before {}", after, before);
}

#[test]
fn new_state_starts_with_six_kings_and_no_gold() {
    let s = State::new(&default_options(3), &rank_in_order, 0);
    assert_eq!(s.kings.len(), 6);
    for (q, k) in s.kings.iter().enumerate() {
        assert_eq!(k.pl.0 as usize, q + 2);
    }
    assert!(s.gold.iter().all(|&g| g == 0));
    assert_eq!(s.timeline.mark, -1);
    assert!(s.time >= 1850 * 360 && s.time < 1950 * 360);
    assert_eq!(s.grid.width, 21);
    assert_eq!(s.controlled.0, 1);
}

#[test]
fn toggle_pause_twice_restores_the_speed() {
    let mut s = State::new(&default_options(4), &rank_in_order, 0);
    s.apply(Action::SlowDown);
    let running = s.speed;
    s.apply(Action::TogglePause);
    assert_eq!(s.speed, Speed::Pause);
    s.apply(Action::TogglePause);
    assert_eq!(s.speed, running);
}

#[test]
fn toggle_flag_twice_restores_the_overlay() {
    let mut s = State::new(&default_options(2), &rank_in_order, 0);
    let c = s.controlled.index();
    let mut target = None;
    for k in 0..s.grid.tiles.len() {
        if s.grid.tiles[k].cl.is_inhabitable() {
            target = Some(Loc::new((k / s.grid.height) as i16, (k % s.grid.height) as i16));
            break;
        }
    }
    let l = target.unwrap();
    let flag0 = s.flags[c].flag.clone();
    let call0 = s.flags[c].call.clone();
    s.apply(Action::ToggleFlagAtCursor(l));
    assert!(s.flags[c].flag_at(l));
    s.apply(Action::ToggleFlagAtCursor(l));
    assert_eq!(s.flags[c].flag, flag0);
    assert_eq!(s.flags[c].call, call0);
}

#[test]
fn clear_all_flags_removes_every_flag() {
    let mut s = State::new(&default_options(8), &rank_in_order, 0);
    let c = s.controlled.index();
    for k in 0..s.grid.tiles.len() {
        if s.grid.tiles[k].cl.is_inhabitable() {
            let l = Loc::new((k / s.grid.height) as i16, (k % s.grid.height) as i16);
            s.apply(Action::ToggleFlagAtCursor(l));
        }
    }
    s.apply(Action::ClearAllFlags);
    assert!(s.flags[c].flag.iter().all(|&b| !b));
    assert!(s.flags[c].call.iter().all(|&x| x == 0));
}

#[test]
fn timeline_records_every_tenth_step() {
    let mut s = State::new(&GameOptions { map_seed: 6, timeline: true, ..Default::default() }, &rank_in_order, 0);
    let mut records = 0;
    for _ in 0..100 {
        let before = s.timeline.mark;
        s.step();
        if s.timeline.mark != before {
            records += 1;
            assert_eq!(s.time % 10, 0);
            assert_eq!(s.timeline.time[s.timeline.mark as usize], s.time);
        }
    }
    assert_eq!(records, 10);
}

#[test]
fn faster_then_slower_comes_back() {
    let all = [
        Speed::Pause,
        Speed::Slowest,
        Speed::Slower,
        Speed::Slow,
        Speed::Normal,
        Speed::Fast,
        Speed::Faster,
    ];
    for s in all {
        assert_eq!(s.faster().slower(), s);
    }
    // At the top speed speeding up changes nothing, so slowing down does not come back.
    assert_eq!(Speed::Fastest.faster(), Speed::Fastest);
    assert_eq!(Speed::Fastest.faster().slower(), Speed::Faster);
}

#[test]
fn slower_then_faster_comes_back() {
    let all = [
        Speed::Slowest,
        Speed::Slower,
        Speed::Slow,
        Speed::Normal,
        Speed::Fast,
        Speed::Faster,
        Speed::Fastest,
    ];
    for s in all {
        assert_eq!(s.slower().faster(), s);
    }
    assert_eq!(Speed::Pause.slower().faster(), Speed::Slowest);
}

#[test]
fn tiles_that_hold_nobody_never_gain_people() {
    let mut s = State::new(&default_options(42), &rank_in_order, 0);
    for _ in 0..300 {
        let before: Vec<[i32; MAX_PLAYER]> = s.grid.tiles.iter().map(|t| t.pop).collect();
        s.step();
        for (k, t) in s.grid.tiles.iter().enumerate() {
            if !t.cl.is_inhabitable() {
                for p in 0..MAX_PLAYER {
                    assert!(t.pop[p] <= before[k][p]);
                }
            }
        }
    }
}

#[test]
fn clock_seed_fixes_the_start_date() {
    let a = State::new(&default_options(5), &rank_in_order, 77);
    let b = State::new(&default_options(5), &rank_in_order, 77);
    assert_eq!(a.time, b.time);
    assert!(1850 * 360 <= a.time && a.time < 1950 * 360);
    for k in 0..MAX_TIMELINE_MARK {
        assert_eq!(a.timeline.time[k], a.time);
    }
}
