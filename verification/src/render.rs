//! What the map drawing needs to know: where a tile goes on the screen,
//! its glyphs, and the key-binding table of the help block.
use vstd::prelude::*;
use crate::i18n::{Lang, TextKey};
use crate::types::TileClass;
use crate::ui::UiState;

verus! {

/// Glyph of a mountain.
pub const MOUNTAIN_GLYPH: &'static str = " /\\^ ";

/// Glyph of a mine.
pub const MINE_GLYPH: &'static str = " /$\\ ";

/// Glyph of grassland.
pub const GRASSLAND_GLYPH: &'static str = "  -  ";

/// Glyph of a village.
pub const VILLAGE_GLYPH: &'static str = "  n  ";

/// Glyph of a town.
pub const TOWN_GLYPH: &'static str = " i=i ";

/// Glyph of a castle.
pub const CASTLE_GLYPH: &'static str = " W#W ";

/// `x` fits in 16 signed bits.
pub open spec fn fits16(x: int) -> bool {
    i16::MIN <= x <= i16::MAX
}

/// `posy`: the screen row of row `j` of the map, `j + 1`.
pub fn posy(j: i16) -> (r: i16)
    requires
        j < i16::MAX,
    ensures
        r == j + 1,
{
    j + 1
}

/// `posx`: the screen column of tile `(i, j)`, `4i + 2j + 1 - 4 * xskip`
/// with `xskip` taken as a 16-bit number; every step must fit in 16 bits.
pub fn posx(i: i16, j: i16, xskip: i32) -> (r: i16)
    requires
        fits16(4 * i),
        fits16(2 * j),
        fits16(4 * i + 2 * j),
        fits16(4 * i + 2 * j + 1),
        fits16(4 * (xskip as i16)),
        fits16(4 * i + 2 * j + 1 - 4 * (xskip as i16)),
    ensures
        r == 4 * i + 2 * j + 1 - 4 * (xskip as i16),
{
    4 * i + 2 * j + 1 - 4 * (xskip as i16)
}

/// The density glyph of a population: `:::` above 400, `.::` above 200,
/// ` ::` above 100, `.:.` above 50, `.: ` above 25, ` : ` above 12, `...`
/// above 6, `.. ` above 3, ` . ` above 0, nothing otherwise.
pub open spec fn spec_pop_glyph(num: int) -> Seq<char> {
    if num > 400 { ":::"@ }
    else if num > 200 { ".::"@ }
    else if num > 100 { " ::"@ }
    else if num > 50 { ".:."@ }
    else if num > 25 { ".: "@ }
    else if num > 12 { " : "@ }
    else if num > 6 { "..."@ }
    else if num > 3 { ".. "@ }
    else if num > 0 { " . "@ }
    else { ""@ }
}

/// `pop_glyph`: see `spec_pop_glyph`.
pub fn pop_glyph(num: i32) -> (r: &'static str)
    ensures
        r@ == spec_pop_glyph(num as int),
{
    if num > 400 {
        ":::"
    } else if num > 200 {
        ".::"
    } else if num > 100 {
        " ::"
    } else if num > 50 {
        ".:."
    } else if num > 25 {
        ".: "
    } else if num > 12 {
        " : "
    } else if num > 6 {
        "..."
    } else if num > 3 {
        ".. "
    } else if num > 0 {
        " . "
    } else {
        ""
    }
}

/// The glyph of a terrain class (nothing for the abyss).
pub open spec fn spec_terrain_glyph(cl: TileClass) -> Seq<char> {
    match cl {
        TileClass::Mountain => MOUNTAIN_GLYPH@,
        TileClass::Mine => MINE_GLYPH@,
        TileClass::Grassland => GRASSLAND_GLYPH@,
        TileClass::Village => VILLAGE_GLYPH@,
        TileClass::Town => TOWN_GLYPH@,
        TileClass::Castle => CASTLE_GLYPH@,
        TileClass::Abyss => ""@,
    }
}

/// `terrain_glyph`: see `spec_terrain_glyph`.
pub fn terrain_glyph(cl: TileClass) -> (r: &'static str)
    ensures
        r@ == spec_terrain_glyph(cl),
{
    match cl {
        TileClass::Mountain => MOUNTAIN_GLYPH,
        TileClass::Mine => MINE_GLYPH,
        TileClass::Grassland => GRASSLAND_GLYPH,
        TileClass::Village => VILLAGE_GLYPH,
        TileClass::Town => TOWN_GLYPH,
        TileClass::Castle => CASTLE_GLYPH,
        TileClass::Abyss => "",
    }
}

/// The 3 by 3 key-binding table of the help block, row by row: each cell
/// a key label and its description; `Noop` leaves a cell blank.
pub open spec fn spec_key_table() -> [[(TextKey, TextKey); 3]; 3] {
    [
        [
            (TextKey::HelpFlagKey, TextKey::HelpAddRemoveFlag),
            (TextKey::HelpClearAllKey, TextKey::HelpClearAllFlags),
            (TextKey::HelpSpeedUpKey, TextKey::HelpSpeedUp),
        ],
        [
            (TextKey::HelpBuildKey, TextKey::HelpBuild),
            (TextKey::HelpClearHalfKey, TextKey::HelpClearHalfFlags),
            (TextKey::HelpSlowDownKey, TextKey::HelpSlowDown),
        ],
        [
            (TextKey::HelpQuitKey, TextKey::HelpQuit),
            (TextKey::Noop, TextKey::Noop),
            (TextKey::HelpPauseKey, TextKey::HelpPause),
        ],
    ]
}

/// `key_table_rows`: see `spec_key_table`.
pub fn key_table_rows() -> (r: [[(TextKey, TextKey); 3]; 3])
    ensures
        r == spec_key_table(),
{
    [
        [
            (TextKey::HelpFlagKey, TextKey::HelpAddRemoveFlag),
            (TextKey::HelpClearAllKey, TextKey::HelpClearAllFlags),
            (TextKey::HelpSpeedUpKey, TextKey::HelpSpeedUp),
        ],
        [
            (TextKey::HelpBuildKey, TextKey::HelpBuild),
            (TextKey::HelpClearHalfKey, TextKey::HelpClearHalfFlags),
            (TextKey::HelpSlowDownKey, TextKey::HelpSlowDown),
        ],
        [
            (TextKey::HelpQuitKey, TextKey::HelpQuit),
            (TextKey::Noop, TextKey::Noop),
            (TextKey::HelpPauseKey, TextKey::HelpPause),
        ],
    ]
}

/// What every renderer gets: the language, the view state and the
/// animation counter.
#[derive(Clone, Copy)]
pub struct FrameCtx<'a> {
    pub lang: &'a Lang,
    pub ui: &'a UiState,
    pub k: u32,
}

impl<'a> FrameCtx<'a> {
    /// Bundles the frame context.
    pub fn new(lang: &'a Lang, ui: &'a UiState, k: u32) -> (r: Self)
        ensures
            *r.lang == *lang,
            *r.ui == *ui,
            r.k == k,
    {
        FrameCtx { lang, ui, k }
    }
}

} // verus!
