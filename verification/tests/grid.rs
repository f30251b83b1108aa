use cow_core::consts::{MAX_POP, RANDOM_INEQUALITY};
use cow_core::grid::{mine_claims, ConflictConfig, Grid};
use cow_core::rng::CowRng;
use cow_core::types::{Loc, PlayerId, Shape, TileClass};

fn fresh() -> Grid {
    Grid::empty(21, 21)
}

fn rank_in_order(_g: &Grid, chosen: &Vec<Loc>, _inequality: i32) -> Option<Vec<usize>> {
    Some((0..chosen.len()).collect())
}

#[test]
fn empty_grid_is_all_abyss() {
    let g = fresh();
    assert_eq!(g.width, 21);
    assert_eq!(g.height, 21);
    for (_, t) in g.iter() {
        assert_eq!(t.cl, TileClass::Abyss);
    }
}

#[test]
fn generate_random_terrain_respects_population_cap() {
    let mut g = fresh();
    let mut rng = CowRng::from_seed(42);
    g.generate_random_terrain(&mut rng);
    for (_, t) in g.iter() {
        for &p in &t.pop {
            assert!((0..=MAX_POP).contains(&p));
        }
    }
}

#[test]
fn apply_stencil_rect_carves_corners() {
    let mut g = fresh();
    g.apply_stencil(Shape::Rect);
    assert_eq!(g.get(Loc::new(0, 0)).unwrap().cl, TileClass::Abyss);
    assert_eq!(g.get(Loc::new((g.width - 1) as i16, 0)).unwrap().cl, TileClass::Abyss);
}

#[test]
fn apply_stencil_hex_returns_six_locs() {
    let mut g = fresh();
    let locs = g.apply_stencil(Shape::Hex);
    assert_eq!(locs.len(), 6);
}

#[test]
fn conflict_produces_connected_grid_for_first_seed() {
    let mut g = fresh();
    let mut rng = CowRng::from_seed(0);
    for _attempt in 0..50 {
        g.generate_random_terrain(&mut rng);
        let locs = g.apply_stencil(Shape::Rect);
        let ui = [PlayerId(1)];
        let comp = [PlayerId(2), PlayerId(3), PlayerId(4), PlayerId(5), PlayerId(6), PlayerId(7)];
        let cfg = ConflictConfig {
            loc_arr: &locs,
            comp_players: &comp,
            ui_players: &ui,
            loc_num: 4,
            conditions: 0,
            inequality: RANDOM_INEQUALITY,
        };
        if g.apply_conflict(&mut rng, &cfg, &rank_in_order).is_ok() {
            assert!(g.is_connected());
            return;
        }
    }
    panic!("conflict never succeeded in 50 attempts");
}

#[test]
fn rhombus_stencil_keeps_every_tile() {
    let mut g = fresh();
    let mut rng = CowRng::from_seed(4);
    g.generate_random_terrain(&mut rng);
    let before = g.tiles.clone();
    let locs = g.apply_stencil(Shape::Rhombus);
    assert_eq!(locs, vec![Loc::new(2, 2), Loc::new(18, 18), Loc::new(2, 18), Loc::new(18, 2)]);
    for (a, b) in before.iter().zip(g.tiles.iter()) {
        assert_eq!(a.cl, b.cl);
    }
}

#[test]
fn conflict_rejects_too_few_players() {
    let mut g = fresh();
    let mut rng = CowRng::from_seed(1);
    g.generate_random_terrain(&mut rng);
    let locs = g.apply_stencil(Shape::Hex);
    let ui = [PlayerId(1)];
    let comp = [PlayerId(2)];
    let cfg = ConflictConfig::new(&locs, &comp, &ui, 6, 0, RANDOM_INEQUALITY);
    assert!(g.apply_conflict(&mut rng, &cfg, &rank_in_order).is_err());
}

#[test]
fn connected_single_owner() {
    let mut g = Grid::empty(5, 5);
    for t in g.tiles.iter_mut() {
        t.cl = TileClass::Grassland;
    }
    g.tiles[0].pl = PlayerId(1);
    g.tiles[24].pl = PlayerId(2);
    assert!(g.is_connected());
    // Cut the map with a column of mountains.
    for j in 0..5 {
        g.tiles[2 * 5 + j].cl = TileClass::Mountain;
    }
    assert!(!g.is_connected());
}

fn grass_with_mine() -> Grid {
    let mut g = Grid::empty(5, 5);
    for t in g.tiles.iter_mut() {
        t.cl = TileClass::Grassland;
    }
    g.tiles[2 * 5 + 2].cl = TileClass::Mine;
    g
}

#[test]
fn mine_claims_single_start_claims_mine() {
    let g = grass_with_mine();
    let chosen = vec![Loc::new(0, 0)];
    let claims = mine_claims(&g, &chosen, 1);
    assert_eq!(claims.len(), 25);
    // Neighbours of the mine lie 3 to 5 steps from the start.
    assert_eq!(claims[2 * 5 + 2], Some((0, 5, 3)));
    assert_eq!(claims[0], None);
}

#[test]
fn mine_claims_two_starts_contest_mine() {
    let g = grass_with_mine();
    let chosen = vec![Loc::new(0, 0), Loc::new(4, 4)];
    let claims = mine_claims(&g, &chosen, 2);
    assert_eq!(claims[2 * 5 + 2], None);
    // Only the first start counts when `len` is 1.
    let claims = mine_claims(&g, &chosen, 1);
    assert_eq!(claims[2 * 5 + 2], Some((0, 5, 3)));
}

fn refuse_all(_g: &Grid, _chosen: &Vec<Loc>, _inequality: i32) -> Option<Vec<usize>> {
    None
}

fn not_an_order(_g: &Grid, chosen: &Vec<Loc>, _inequality: i32) -> Option<Vec<usize>> {
    Some(vec![0; chosen.len()])
}

#[test]
fn conflict_fails_when_the_ranking_refuses() {
    let mut g = fresh();
    let mut rng = CowRng::from_seed(2);
    g.generate_random_terrain(&mut rng);
    let locs = g.apply_stencil(Shape::Rect);
    let ui = [PlayerId(1)];
    let comp = [PlayerId(2), PlayerId(3), PlayerId(4), PlayerId(5), PlayerId(6), PlayerId(7)];
    let cfg = ConflictConfig::new(&locs, &comp, &ui, 4, 0, RANDOM_INEQUALITY);
    assert!(g.apply_conflict(&mut rng, &cfg, &refuse_all).is_err());
    // The first step still ran: no tile has an owner or inhabitants.
    for t in g.tiles.iter() {
        assert_eq!(t.pl, PlayerId(0));
        assert!(t.pop.iter().all(|&x| x == 0));
    }
    assert!(g.apply_conflict(&mut rng, &cfg, &not_an_order).is_err());
}

#[test]
fn best_quality_puts_the_human_on_the_strongest_location() {
    let seen: std::cell::RefCell<Vec<Loc>> = std::cell::RefCell::new(Vec::new());
    // Ranks the chosen locations in the order given: the last is the strongest.
    let rank = |_g: &Grid, chosen: &Vec<Loc>, _q: i32| -> Option<Vec<usize>> {
        *seen.borrow_mut() = chosen.clone();
        Some((0..chosen.len()).collect())
    };
    let mut g = fresh();
    let mut rng = CowRng::from_seed(5);
    g.generate_random_terrain(&mut rng);
    let locs = g.apply_stencil(Shape::Rect);
    let ui = [PlayerId(1)];
    let comp = [PlayerId(2), PlayerId(3), PlayerId(4), PlayerId(5), PlayerId(6), PlayerId(7)];
    let cfg = ConflictConfig::new(&locs, &comp, &ui, 4, 1, RANDOM_INEQUALITY);
    assert!(g.apply_conflict(&mut rng, &cfg, &rank).is_ok());
    let chosen = seen.borrow().clone();
    let strongest = chosen[chosen.len() - 1];
    assert_eq!(g.get(strongest).unwrap().pl, PlayerId(1));
}

#[test]
fn conflict_rejects_too_few_players_without_a_human() {
    let mut g = fresh();
    let mut rng = CowRng::from_seed(3);
    g.generate_random_terrain(&mut rng);
    let locs = g.apply_stencil(Shape::Hex);
    let ui: [PlayerId; 0] = [];
    let comp = [PlayerId(2)];
    let cfg = ConflictConfig::new(&locs, &comp, &ui, 4, 0, RANDOM_INEQUALITY);
    assert!(g.apply_conflict(&mut rng, &cfg, &rank_in_order).is_err());
    for (_, t) in g.iter() {
        assert_eq!(t.pl, PlayerId(0));
    }
}
