use cow_core::flags::{add_flag, even, remove_flag, remove_flags_with_prob, spread, FlagGrid};
use cow_core::grid::Grid;
use cow_core::rng::CowRng;
use cow_core::types::{Loc, TileClass};

fn make_grid_with_grass(w: usize, h: usize) -> Grid {
    let mut g = Grid::empty(w, h);
    for i in 0..w {
        for j in 0..h {
            if let Some(t) = g.get_mut(Loc::new(i as i16, j as i16)) {
                t.cl = TileClass::Grassland;
            }
        }
    }
    g
}

#[test]
fn add_then_remove_restores_call_zero() {
    let g = make_grid_with_grass(7, 7);
    let mut fg = FlagGrid::new(7, 7);
    let l = Loc::new(3, 3);
    add_flag(&g, &mut fg, l, 8);
    let mut sum: i32 = fg.call.iter().sum();
    assert!(sum > 0, "expected positive call sum after add, got {}", sum);
    remove_flag(&g, &mut fg, l, 8);
    sum = fg.call.iter().sum();
    assert_eq!(sum, 0, "call field should be exactly 0 after add+remove, got {}", sum);
}

#[test]
fn add_then_remove_specific_tile_call_returns_to_zero() {
    let g = make_grid_with_grass(7, 7);
    let mut fg = FlagGrid::new(7, 7);
    let l = Loc::new(3, 3);
    add_flag(&g, &mut fg, l, 8);
    remove_flag(&g, &mut fg, l, 8);
    assert_eq!(fg.call_at(l), 0);
    assert!(!fg.flag_at(l));
}

#[test]
fn remove_flags_with_prob_one_removes_all() {
    let g = make_grid_with_grass(5, 5);
    let mut rng = CowRng::from_seed(1);
    let mut fg = FlagGrid::new(5, 5);
    for i in 0..5 {
        for j in 0..5 {
            add_flag(&g, &mut fg, Loc::new(i as i16, j as i16), 8);
        }
    }
    let mut sum: i32 = fg.flag.iter().map(|&b| if b { 1 } else { 0 }).sum();
    assert_eq!(sum, 25);
    remove_flags_with_prob(&mut rng, &g, &mut fg, 1, 1);
    sum = fg.flag.iter().map(|&b| if b { 1 } else { 0 }).sum();
    assert_eq!(sum, 0);
    let call_sum: i32 = fg.call.iter().sum();
    assert_eq!(call_sum, 0);
}

#[test]
fn add_flag_on_uninhabitable_tile_does_nothing() {
    let g = Grid::empty(5, 5);
    let mut fg = FlagGrid::new(5, 5);
    add_flag(&g, &mut fg, Loc::new(2, 2), 8);
    assert!(!fg.flag_at(Loc::new(2, 2)));
    assert_eq!(fg.call_at(Loc::new(2, 2)), 0);
}

#[test]
fn double_add_only_registers_once() {
    let g = make_grid_with_grass(5, 5);
    let mut fg = FlagGrid::new(5, 5);
    let l = Loc::new(2, 2);
    add_flag(&g, &mut fg, l, 8);
    let sum_after_first: i32 = fg.call.iter().sum();
    add_flag(&g, &mut fg, l, 8);
    let sum_after_second: i32 = fg.call.iter().sum();
    assert_eq!(sum_after_first, sum_after_second);
}

#[test]
fn remove_flags_with_prob_zero_keeps_all() {
    let g = make_grid_with_grass(5, 5);
    let mut rng = CowRng::from_seed(9);
    let mut fg = FlagGrid::new(5, 5);
    add_flag(&g, &mut fg, Loc::new(1, 1), 8);
    add_flag(&g, &mut fg, Loc::new(3, 3), 8);
    let before = fg.call.clone();
    remove_flags_with_prob(&mut rng, &g, &mut fg, 0, 2);
    assert!(fg.flag_at(Loc::new(1, 1)) && fg.flag_at(Loc::new(3, 3)));
    assert_eq!(fg.call, before);
}

#[test]
fn flag_credit_halves_with_distance() {
    let g = make_grid_with_grass(7, 7);
    let mut fg = FlagGrid::new(7, 7);
    add_flag(&g, &mut fg, Loc::new(3, 3), 8);
    assert_eq!(fg.call_at(Loc::new(3, 3)), 8);
    assert_eq!(fg.call_at(Loc::new(2, 3)), 4);
    assert_eq!(fg.call_at(Loc::new(1, 3)), 2);
    assert_eq!(fg.call_at(Loc::new(0, 3)), 1);
}

#[test]
fn spread_then_even_resets_the_scratch() {
    let g = make_grid_with_grass(5, 5);
    let mut u = vec![0i32; 25];
    let mut v = vec![0i32; 25];
    spread(&g, &mut u, &mut v, Loc::new(2, 2), 4, 1);
    assert_eq!(v[2 * 5 + 2], 4);
    assert_eq!(u[2 * 5 + 2], 4);
    even(&g, &mut u, Loc::new(2, 2), 0);
    assert!(u.iter().all(|&x| x == 0));
    assert_eq!(v[2 * 5 + 2], 4);
}

#[test]
fn spread_removal_can_go_negative() {
    let mut g = Grid::empty(1, 1);
    g.tiles[0].cl = TileClass::Grassland;
    let mut u = vec![0];
    let mut v = vec![0];
    spread(&g, &mut u, &mut v, Loc::new(0, 0), 8, -1);
    assert_eq!(u, vec![8]);
    assert_eq!(v, vec![-8]);
}

#[test]
fn even_resets_the_whole_component() {
    let mut g = Grid::empty(3, 1);
    for t in g.tiles.iter_mut() {
        t.cl = TileClass::Grassland;
    }
    let mut v = vec![5, 0, 5];
    even(&g, &mut v, Loc::new(0, 0), 0);
    assert_eq!(v, vec![0, 0, 0]);
}
