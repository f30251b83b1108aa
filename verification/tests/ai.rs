use cow_core::ai::{build, builder_default, default_strategy, degrade, insert_locval, Difficulty, King, Strategy};
use cow_core::consts::{MAX_PLAYER, PRICE_TOWN, PRICE_VILLAGE};
use cow_core::flags::FlagGrid;
use cow_core::grid::Grid;
use cow_core::rng::CowRng;
use cow_core::types::{Loc, PlayerId, TileClass};

fn small_owned_grassland(w: usize, h: usize, pl: PlayerId) -> (Grid, [i64; MAX_PLAYER]) {
    let mut g = Grid::empty(w, h);
    for i in 0..w {
        for j in 0..h {
            if let Some(t) = g.get_mut(Loc::new(i as i16, j as i16)) {
                t.cl = TileClass::Grassland;
                t.pl = pl;
            }
        }
    }
    (g, [0; MAX_PLAYER])
}

#[test]
fn default_strategy_matches_state_c() {
    assert_eq!(default_strategy(PlayerId(2)), Some(Strategy::Opportunist));
    assert_eq!(default_strategy(PlayerId(3)), Some(Strategy::OneGreedy));
    assert_eq!(default_strategy(PlayerId(4)), Some(Strategy::Idle));
    assert_eq!(default_strategy(PlayerId(5)), Some(Strategy::AggrGreedy));
    assert_eq!(default_strategy(PlayerId(6)), Some(Strategy::Noble));
    assert_eq!(default_strategy(PlayerId(7)), Some(Strategy::PersistentGreedy));
    assert_eq!(default_strategy(PlayerId(1)), None);
}

#[test]
fn build_spends_gold_and_upgrades_tile() {
    let (mut g, mut gold) = small_owned_grassland(5, 5, PlayerId(1));
    gold[1] = 1000;
    let l = Loc::new(2, 2);
    assert!(build(&mut g, &mut gold, PlayerId(1), l));
    assert_eq!(g.get(l).unwrap().cl, TileClass::Village);
    assert_eq!(gold[1], 1000 - PRICE_VILLAGE);
    assert!(build(&mut g, &mut gold, PlayerId(1), l));
    assert_eq!(g.get(l).unwrap().cl, TileClass::Town);
    assert_eq!(gold[1], 1000 - PRICE_VILLAGE - PRICE_TOWN);
    assert!(build(&mut g, &mut gold, PlayerId(1), l));
    assert_eq!(g.get(l).unwrap().cl, TileClass::Castle);
}

#[test]
fn build_fails_when_not_owner() {
    let mut g = Grid::empty(5, 5);
    let mut gold = [0; MAX_PLAYER];
    gold[1] = 1000;
    let l = Loc::new(2, 2);
    if let Some(t) = g.get_mut(l) {
        t.cl = TileClass::Grassland;
        t.pl = PlayerId(0);
    }
    assert!(!build(&mut g, &mut gold, PlayerId(1), l));
}

#[test]
fn build_fails_on_insufficient_gold() {
    let (mut g, mut gold) = small_owned_grassland(5, 5, PlayerId(1));
    gold[1] = 10;
    let l = Loc::new(2, 2);
    assert!(!build(&mut g, &mut gold, PlayerId(1), l));
}

#[test]
fn degrade_steps_down() {
    let (mut g, _) = small_owned_grassland(5, 5, PlayerId(1));
    let l = Loc::new(2, 2);
    if let Some(t) = g.get_mut(l) {
        t.cl = TileClass::Castle;
    }
    assert!(degrade(&mut g, l));
    assert_eq!(g.get(l).unwrap().cl, TileClass::Town);
    assert!(degrade(&mut g, l));
    assert_eq!(g.get(l).unwrap().cl, TileClass::Village);
    assert!(degrade(&mut g, l));
    assert_eq!(g.get(l).unwrap().cl, TileClass::Grassland);
    assert!(!degrade(&mut g, l));
}

#[test]
fn difficulty_gold_bonus_matches_state_c() {
    assert_eq!(Difficulty::Normal.ai_gold_bonus(), 0);
    assert_eq!(Difficulty::Hard.ai_gold_bonus(), 1);
    assert_eq!(Difficulty::Hardest.ai_gold_bonus(), 2);
}

#[test]
fn builder_default_returns_false_when_army_too_small() {
    let (mut g, mut gold) = small_owned_grassland(5, 5, PlayerId(1));
    gold[1] = 10_000;
    for i in 0..5 {
        for j in 0..5 {
            let idx = i * g.height + j;
            g.tiles[idx].pop[1] = 10;
        }
    }
    let king = King::new_clamped(PlayerId(1), Strategy::Idle, 5, 5);
    assert!(!builder_default(&king, &mut g, &mut gold));
}

#[test]
fn evaluate_map_populates_value_field() {
    let mut g = Grid::empty(5, 5);
    let idx = 2 * g.height + 2;
    g.tiles[idx].cl = TileClass::Castle;
    g.tiles[idx].pl = PlayerId(1);
    g.tiles[idx].pop[1] = 10;
    let mut king = King::new_clamped(PlayerId(1), Strategy::Idle, 5, 5);
    let mut rng = CowRng::from_seed(0);
    king.evaluate_map(&g, Difficulty::Normal, &mut rng);
    assert!(king.value.iter().any(|&v| v > 0));
}

#[test]
fn place_flags_does_nothing_for_midas() {
    let (g, _gold) = small_owned_grassland(5, 5, PlayerId(1));
    let mut fg = FlagGrid::new(5, 5);
    let king = King::new_clamped(PlayerId(1), Strategy::Midas, 5, 5);
    king.place_flags(&g, &mut fg);
    assert!(!fg.flag.iter().any(|&b| b));
}

#[test]
fn builder_builds_on_the_best_surrounded_tile() {
    let (mut g, mut gold) = small_owned_grassland(5, 5, PlayerId(1));
    gold[1] = 1000;
    for idx in 0..25 {
        g.tiles[idx].pop[1] = 100;
    }
    // The centre tile is surrounded by owned tiles and has the least army,
    // so it scores best.
    g.tiles[2 * 5 + 2].pop[1] = 60;
    let king = King::new_clamped(PlayerId(1), Strategy::Idle, 5, 5);
    assert!(builder_default(&king, &mut g, &mut gold));
    assert_eq!(g.get(Loc::new(2, 2)).unwrap().cl, TileClass::Village);
    assert_eq!(gold[1], 1000 - PRICE_VILLAGE);
}

#[test]
fn evaluate_map_exact_around_a_castle() {
    let (mut g, _) = small_owned_grassland(5, 5, PlayerId(1));
    let idx = 2 * 5 + 2;
    g.tiles[idx].cl = TileClass::Castle;
    let mut king = King::new_clamped(PlayerId(1), Strategy::Idle, 5, 5);
    let mut rng = CowRng::from_seed(3);
    king.evaluate_map(&g, Difficulty::Normal, &mut rng);
    // Base 1, plus 16 at the castle, 8 next to it, 4 two steps away.
    assert_eq!(king.value[idx], 17);
    assert_eq!(king.value[1 * 5 + 2], 9);
    assert_eq!(king.value[0 * 5 + 2], 5);
}

#[test]
fn evaluate_map_easiest_adds_bounded_noise() {
    let (mut g, _) = small_owned_grassland(5, 5, PlayerId(1));
    let idx = 2 * 5 + 2;
    g.tiles[idx].cl = TileClass::Castle;
    let mut king = King::new_clamped(PlayerId(1), Strategy::Idle, 5, 5);
    let mut rng = CowRng::from_seed(5);
    king.evaluate_map(&g, Difficulty::Easiest, &mut rng);
    // 17 / 4 = 4, plus a draw in -3..=3.
    assert!(king.value[idx] >= 1 && king.value[idx] <= 7);
    for &v in king.value.iter() {
        assert!(v >= 0);
    }
}

#[test]
fn insert_locval_keeps_descending_order() {
    let mut locs = vec![Loc::new(-1, -1); 32];
    let mut vals = vec![-1; 32];
    insert_locval(&mut locs, &mut vals, 5, Loc::new(1, 1), 10);
    insert_locval(&mut locs, &mut vals, 5, Loc::new(2, 2), 30);
    insert_locval(&mut locs, &mut vals, 5, Loc::new(3, 3), 20);
    assert_eq!(&vals[0..5], &[30, 20, 10, -1, -1]);
    assert_eq!(locs[0], Loc::new(2, 2));
    assert_eq!(locs[1], Loc::new(3, 3));
    assert_eq!(locs[2], Loc::new(1, 1));
    // Entries past the table's length stay.
    assert_eq!(vals[5], -1);
}

#[test]
fn insert_locval_drops_the_lowest_when_full() {
    let mut locs = vec![Loc::new(0, 0); 3];
    let mut vals = vec![9, 7, 5];
    insert_locval(&mut locs, &mut vals, 3, Loc::new(4, 4), 8);
    assert_eq!(vals, vec![9, 8, 7]);
    insert_locval(&mut locs, &mut vals, 3, Loc::new(4, 4), 1);
    assert_eq!(vals, vec![9, 8, 7]);
}

fn contested(strategy: Strategy, army: i32, enemy: i32, value: i32) -> (Grid, King) {
    let (mut g, _) = small_owned_grassland(5, 5, PlayerId(2));
    let idx = 2 * 5 + 2;
    g.tiles[idx].pop[2] = army;
    g.tiles[idx].pop[3] = enemy;
    let mut king = King::new_clamped(PlayerId(2), strategy, 5, 5);
    king.value[idx] = value;
    (g, king)
}

#[test]
fn aggressive_greedy_flags_a_contested_tile() {
    // 10 * (2 * 300 - 100) * sqrt(100) = 50000 > 5000.
    let (g, king) = contested(Strategy::AggrGreedy, 100, 300, 10);
    let mut fg = FlagGrid::new(5, 5);
    king.place_flags(&g, &mut fg);
    assert!(fg.flag_at(Loc::new(2, 2)));
    assert_eq!(fg.flag.iter().filter(|&&b| b).count(), 1);
}

#[test]
fn aggressive_greedy_threshold_is_exact() {
    // 1 * (2 * 3 - 1) * sqrt(1) = 5, far below 5000: no flag.
    let (g, king) = contested(Strategy::AggrGreedy, 1, 3, 1);
    let mut fg = FlagGrid::new(5, 5);
    king.place_flags(&g, &mut fg);
    assert!(!fg.flag_at(Loc::new(2, 2)));
    // 50 * (2 * 51 - 1) * sqrt(1) = 5050 > 5000: a flag.
    let (g, king) = contested(Strategy::AggrGreedy, 1, 51, 50);
    let mut fg = FlagGrid::new(5, 5);
    king.place_flags(&g, &mut fg);
    assert!(fg.flag_at(Loc::new(2, 2)));
}

#[test]
fn one_greedy_flags_a_single_tile() {
    let (mut g, mut king) = contested(Strategy::OneGreedy, 100, 300, 10);
    let other = 1 * 5 + 1;
    g.tiles[other].pop[2] = 100;
    g.tiles[other].pop[3] = 300;
    king.value[other] = 20;
    let mut fg = FlagGrid::new(5, 5);
    king.place_flags(&g, &mut fg);
    assert!(fg.flag_at(Loc::new(1, 1)));
    assert!(!fg.flag_at(Loc::new(2, 2)));
    assert_eq!(fg.flag.iter().filter(|&&b| b).count(), 1);
}

#[test]
fn opportunist_needs_the_enemy_to_outnumber() {
    // 20 * (499 - 200) * sqrt(100) = 59800 > 7000 with the enemy ahead.
    let (g, king) = contested(Strategy::Opportunist, 100, 300, 20);
    let mut fg = FlagGrid::new(5, 5);
    king.place_flags(&g, &mut fg);
    assert!(fg.flag_at(Loc::new(2, 2)));
    let (g, king) = contested(Strategy::Opportunist, 300, 100, 20);
    let mut fg = FlagGrid::new(5, 5);
    king.place_flags(&g, &mut fg);
    assert!(!fg.flag_at(Loc::new(2, 2)));
}

#[test]
fn noble_flags_its_priorities() {
    let (g, king) = contested(Strategy::Noble, 100, 300, 20);
    let mut fg = FlagGrid::new(5, 5);
    king.place_flags(&g, &mut fg);
    assert!(fg.flag_at(Loc::new(2, 2)));
}

#[test]
fn persistent_greedy_adds_and_keeps_flags() {
    // 10 * (2.5 * 300 - 100) * 100^0.7 = 6500 * 25.1 > 9000: flagged.
    let (g, king) = contested(Strategy::PersistentGreedy, 100, 300, 10);
    let mut fg = FlagGrid::new(5, 5);
    king.place_flags(&g, &mut fg);
    assert!(fg.flag_at(Loc::new(2, 2)));
    // Still above 1000 on the next sweep: the flag stays.
    king.place_flags(&g, &mut fg);
    assert!(fg.flag_at(Loc::new(2, 2)));
}

#[test]
fn persistent_greedy_drops_a_weak_flag() {
    let (g, king) = contested(Strategy::PersistentGreedy, 100, 300, 10);
    let mut fg = FlagGrid::new(5, 5);
    king.place_flags(&g, &mut fg);
    assert!(fg.flag_at(Loc::new(2, 2)));
    // With no enemy left the score is 10 * (-100) * ... < 1000: removed.
    let (g2, king2) = contested(Strategy::PersistentGreedy, 100, 0, 10);
    king2.place_flags(&g2, &mut fg);
    assert!(!fg.flag_at(Loc::new(2, 2)));
}

#[test]
fn degrade_undoes_build() {
    let (mut g, mut gold) = small_owned_grassland(5, 5, PlayerId(1));
    gold[1] = 1000;
    let l = Loc::new(2, 2);
    assert!(build(&mut g, &mut gold, PlayerId(1), l));
    assert!(degrade(&mut g, l));
    assert_eq!(g.get(l).unwrap().cl, TileClass::Grassland);
    assert!(build(&mut g, &mut gold, PlayerId(1), l));
    assert!(build(&mut g, &mut gold, PlayerId(1), l));
    assert!(degrade(&mut g, l));
    assert_eq!(g.get(l).unwrap().cl, TileClass::Village);
}

#[test]
fn builder_builds_the_best_city_it_can_afford() {
    let (mut g, mut gold) = small_owned_grassland(5, 5, PlayerId(1));
    let best = Loc::new(2, 2);
    let cheap = Loc::new(1, 1);
    if let Some(t) = g.get_mut(best) {
        t.cl = TileClass::Village;
        t.pop[1] = 100;
    }
    if let Some(t) = g.get_mut(cheap) {
        t.pop[1] = 100;
    }
    // Enough for a village, not for a town.
    gold[1] = PRICE_VILLAGE + 40;
    let king = King::new(PlayerId(1), Strategy::Opportunist, 5, 5);
    assert!(builder_default(&king, &mut g, &mut gold));
    assert_eq!(g.get(cheap).unwrap().cl, TileClass::Village);
    assert_eq!(g.get(best).unwrap().cl, TileClass::Village);
    assert_eq!(gold[1], 40);
}

#[test]
fn evaluate_map_keeps_the_generator_on_normal() {
    let (g, _) = small_owned_grassland(5, 5, PlayerId(1));
    let mut k = King::new(PlayerId(2), Strategy::Opportunist, 5, 5);
    let mut a = CowRng::from_seed(3);
    let mut b = CowRng::from_seed(3);
    k.evaluate_map(&g, Difficulty::Normal, &mut a);
    assert_eq!(a.below(1000), b.below(1000));
    assert!(k.value.iter().all(|&v| v >= 1));
}

#[test]
fn evaluate_map_values_only_land_on_normal() {
    let mut g = Grid::empty(5, 5);
    for i in 0..5 {
        if let Some(t) = g.get_mut(Loc::new(i as i16, 2)) {
            t.cl = TileClass::Grassland;
        }
    }
    if let Some(t) = g.get_mut(Loc::new(2, 2)) {
        t.cl = TileClass::Castle;
        t.pl = PlayerId(1);
    }
    if let Some(t) = g.get_mut(Loc::new(1, 1)) {
        t.cl = TileClass::Mountain;
    }
    let mut k = King::new(PlayerId(7), Strategy::PersistentGreedy, 5, 5);
    let mut rng = CowRng::from_seed(9);
    k.evaluate_map(&g, Difficulty::Hard, &mut rng);
    for i in 0..5usize {
        for j in 0..5usize {
            let v = k.value[i * 5 + j];
            if j == 2 {
                assert!(v >= 2);
            } else {
                assert_eq!(v, 0);
            }
        }
    }
    assert!(k.value[2 * 5 + 2] > 2);
}
