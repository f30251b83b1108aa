use cow_core::ai::Difficulty;
use cow_core::consts::{MAX_PLAYER, MAX_POP};
use cow_core::flags::FlagGrid;
use cow_core::grid::Grid;
use cow_core::rng::CowRng;
use cow_core::sim::{growth, player_total, pop_to_symbol, simulate_one_step, time_to_ymd, win_or_lose};
use cow_core::types::{Loc, Outcome, PlayerId, TileClass};

fn make_grid_with_two_players() -> (Grid, [i64; MAX_PLAYER]) {
    let mut g = Grid::empty(5, 5);
    let gold = [0i64; MAX_PLAYER];
    for i in 0..5 {
        for j in 0..5 {
            if let Some(t) = g.get_mut(Loc::new(i as i16, j as i16)) {
                t.cl = TileClass::Grassland;
            }
        }
    }
    (g, gold)
}

fn no_flags(w: usize, h: usize) -> [FlagGrid; MAX_PLAYER] {
    std::array::from_fn(|_| FlagGrid::new(w, h))
}

#[test]
fn growth_factor_correct() {
    // The library gives the factors in tenths.
    let factor = |cl: TileClass| growth(cl) as f32 / 10.0;
    assert!((factor(TileClass::Village) - 1.10).abs() < 1e-6);
    assert!((factor(TileClass::Town) - 1.20).abs() < 1e-6);
    assert!((factor(TileClass::Castle) - 1.30).abs() < 1e-6);
    assert_eq!(factor(TileClass::Abyss), 0.0);
}

#[test]
fn pop_to_symbol_matches_table() {
    assert_eq!(pop_to_symbol(0), -1);
    assert_eq!(pop_to_symbol(1), 0);
    assert_eq!(pop_to_symbol(4), 1);
    assert_eq!(pop_to_symbol(7), 2);
    assert_eq!(pop_to_symbol(13), 3);
    assert_eq!(pop_to_symbol(26), 4);
    assert_eq!(pop_to_symbol(51), 5);
    assert_eq!(pop_to_symbol(101), 6);
    assert_eq!(pop_to_symbol(201), 7);
    assert_eq!(pop_to_symbol(401), 8);
}

#[test]
fn time_to_ymd_basic() {
    let (mut y, mut m, mut d) = (0u64, 0u32, 0u32);
    time_to_ymd(360, &mut y, &mut m, &mut d);
    assert_eq!(y, 1);
    assert_eq!(m, 1);
    assert_eq!(d, 1);
}

#[test]
fn win_or_lose_defeat_when_zero_pop() {
    let (g, _) = make_grid_with_two_players();
    let outcome = win_or_lose(&g, PlayerId(1));
    assert_eq!(outcome, Outcome::Defeat);
}

#[test]
fn simulate_does_not_panic_on_empty_map() {
    let mut g = Grid::empty(5, 5);
    let mut gold = [0i64; MAX_PLAYER];
    let flags = no_flags(5, 5);
    let mut rng = CowRng::from_seed(1);
    simulate_one_step(&mut g, &mut gold, &flags, PlayerId(1), Difficulty::Normal, &mut rng);
}

#[test]
fn simulate_grows_village_population() {
    let mut g = Grid::empty(5, 5);
    let idx = 2 * g.height + 2;
    g.tiles[idx].cl = TileClass::Village;
    g.tiles[idx].pl = PlayerId(1);
    g.tiles[idx].pop[1] = 100;
    let mut gold = [0i64; MAX_PLAYER];
    let flags = no_flags(5, 5);
    let mut rng = CowRng::from_seed(0);
    simulate_one_step(&mut g, &mut gold, &flags, PlayerId(1), Difficulty::Normal, &mut rng);
    let pop_after = g.tiles[idx].pop[1];
    assert!(pop_after >= 109 && pop_after <= 111, "got {}", pop_after);
}

#[test]
fn simulate_population_capped_at_max_pop() {
    let mut g = Grid::empty(5, 5);
    let idx = 2 * g.height + 2;
    g.tiles[idx].cl = TileClass::Castle;
    g.tiles[idx].pl = PlayerId(1);
    g.tiles[idx].pop[1] = 499;
    let mut gold = [0i64; MAX_PLAYER];
    let flags = no_flags(5, 5);
    let mut rng = CowRng::from_seed(0);
    for _ in 0..5 {
        simulate_one_step(&mut g, &mut gold, &flags, PlayerId(1), Difficulty::Normal, &mut rng);
    }
    assert!(g.tiles[idx].pop[1] <= MAX_POP);
}

#[test]
fn win_or_lose_victory_and_undecided() {
    let (mut g, _) = make_grid_with_two_players();
    g.tiles[0].pop[1] = 5;
    assert_eq!(win_or_lose(&g, PlayerId(1)), Outcome::Victory);
    g.tiles[1].pop[3] = 1;
    assert_eq!(win_or_lose(&g, PlayerId(1)), Outcome::Undecided);
}

#[test]
fn migration_keeps_each_players_total() {
    let (mut g, mut gold) = make_grid_with_two_players();
    g.tiles[12].pop[1] = 200;
    g.tiles[12].pl = PlayerId(1);
    g.tiles[3].pop[2] = 100;
    g.tiles[3].pl = PlayerId(2);
    let flags = no_flags(5, 5);
    let mut rng = CowRng::from_seed(11);
    let before1: i32 = g.tiles.iter().map(|t| t.pop[1]).sum();
    let before2: i32 = g.tiles.iter().map(|t| t.pop[2]).sum();
    simulate_one_step(&mut g, &mut gold, &flags, PlayerId(1), Difficulty::Normal, &mut rng);
    // Grassland does not grow and nobody meets, so only migration moves
    // people: the totals stay.
    let after1: i32 = g.tiles.iter().map(|t| t.pop[1]).sum();
    let after2: i32 = g.tiles.iter().map(|t| t.pop[2]).sum();
    assert_eq!(before1, after1);
    assert_eq!(before2, after2);
}

#[test]
fn hard_difficulty_pays_computer_players() {
    let mut g = Grid::empty(5, 5);
    let mut gold = [5i64; MAX_PLAYER];
    let flags = no_flags(5, 5);
    let mut rng = CowRng::from_seed(2);
    simulate_one_step(&mut g, &mut gold, &flags, PlayerId(1), Difficulty::Hard, &mut rng);
    assert_eq!(gold[0], 5);
    assert_eq!(gold[1], 5);
    assert_eq!(gold[2], 6);
    assert_eq!(gold[7], 6);
}

#[test]
fn player_total_counts_every_tile() {
    let (mut g, _) = make_grid_with_two_players();
    g.tiles[0].pop[1] = 7;
    g.tiles[24].pop[1] = 5;
    g.tiles[24].pop[3] = 9;
    assert_eq!(player_total(&g, 1), 12);
    assert_eq!(player_total(&g, 3), 9);
    assert_eq!(player_total(&g, 2), 0);
}
