use cow_core::grid::Grid;
use cow_core::types::{Loc, PlayerId, TileClass};
use cow_core::ui::{adjust_cursor, ui_init, UiState};

#[test]
fn ui_init_picks_top_pop_tile_as_cursor() {
    let mut g = Grid::empty(5, 5);
    let idx = 1 * g.height + 1;
    g.tiles[idx].cl = TileClass::Grassland;
    g.tiles[idx].pl = PlayerId(1);
    g.tiles[idx].pop[1] = 50;
    let mut ui = UiState::new();
    ui_init(&g, PlayerId(1), &mut ui);
    assert_eq!(ui.cursor, Loc::new(1, 1));
}

#[test]
fn adjust_cursor_clamps_to_visible_tile() {
    let mut g = Grid::empty(5, 5);
    let idx = 3 * g.height + 3;
    g.tiles[idx].cl = TileClass::Grassland;
    let mut ui = UiState::new();
    ui_init(&g, PlayerId(1), &mut ui);
    adjust_cursor(&g, &mut ui, 0, 0);
    assert!(g.get(ui.cursor).unwrap().cl.is_visible());
}

#[test]
fn adjust_cursor_moves_when_target_visible() {
    let mut g = Grid::empty(5, 5);
    for i in 0..5 {
        for j in 0..5 {
            if let Some(t) = g.get_mut(Loc::new(i as i16, j as i16)) {
                t.cl = TileClass::Grassland;
            }
        }
    }
    let mut ui = UiState::new();
    ui_init(&g, PlayerId(1), &mut ui);
    adjust_cursor(&g, &mut ui, 4, 4);
    assert_eq!(ui.cursor, Loc::new(4, 4));
}

#[test]
fn ui_init_scrolls_to_the_visible_columns() {
    let mut g = Grid::empty(5, 5);
    // Visible tiles at columns 2i + j = 3 and 9.
    g.tiles[1 * 5 + 1].cl = TileClass::Mountain;
    g.tiles[3 * 5 + 3].cl = TileClass::Mountain;
    let mut ui = UiState::new();
    ui_init(&g, PlayerId(1), &mut ui);
    assert_eq!(ui.xskip, 1);
    assert_eq!(ui.xlength, 5 - 1);
    assert_eq!(ui.cursor, Loc::new(0, 0));
}

#[test]
fn adjust_cursor_clamps_far_targets() {
    let mut g = Grid::empty(5, 5);
    for t in g.tiles.iter_mut() {
        t.cl = TileClass::Grassland;
    }
    let mut ui = UiState::new();
    adjust_cursor(&g, &mut ui, 100, -7);
    assert_eq!(ui.cursor, Loc::new(4, 0));
}

#[test]
fn adjust_cursor_stays_on_an_empty_map() {
    let g = Grid::empty(5, 5);
    let mut ui = UiState::new();
    ui.cursor = Loc::new(2, 2);
    adjust_cursor(&g, &mut ui, 1, 1);
    assert_eq!(ui.cursor, Loc::new(2, 2));
}
