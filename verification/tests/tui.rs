use cow_core::action::Action;
use cow_core::ai::Difficulty;
use cow_core::app::App;
use cow_core::cli::{
    cli_options, decide, game_options, lang_arg, parse_bounded_usize, parse_lang, CliOutcome, RawArgs,
};
use cow_core::event::{map_key, Key, Modal};
use cow_core::grid::Grid;
use cow_core::i18n::{Lang, SpeedKind, TextKey};
use cow_core::render::{key_table_rows, pop_glyph, posx, posy, terrain_glyph};
use cow_core::state::{GameOptions, State};
use cow_core::types::{Loc, Shape, Speed, TileClass};

fn rank_in_order(_g: &Grid, chosen: &Vec<Loc>, _inequality: i32) -> Option<Vec<usize>> {
    Some((0..chosen.len()).collect())
}

fn dummy_state() -> State {
    State::new(
        &GameOptions { map_seed: 1, dif: Difficulty::Normal, shape: Shape::Rect, ..Default::default() },
        &rank_in_order,
        0,
    )
}

fn no_args() -> RawArgs {
    RawArgs {
        version: false,
        help: false,
        free: 0,
        random: false,
        timeline: false,
        headless: false,
        headless_steps: None,
        width: None,
        height: None,
        inequality: None,
        locations: None,
        quality: None,
        seed: None,
        difficulty: None,
        speed: None,
        shape: None,
        server_clients: None,
        server_port: None,
        server_ip: None,
        client_port: None,
    }
}

#[test]
fn app_new_has_initialised_ui() {
    let app = App::new(dummy_state(), Lang::Zh);
    assert!(app.ui.cursor.i >= 0);
    assert_eq!(app.modal, Modal::Closed);
}

#[test]
fn tick_advances_k_counter() {
    let mut app = App::new(dummy_state(), Lang::Zh);
    let k0 = app.k;
    app.tick();
    assert_eq!(app.k, k0 + 1);
}

#[test]
fn parse_lang_handles_invalid() {
    assert_eq!(parse_lang("zh_CN"), Some(Lang::Zh));
    assert_eq!(parse_lang("en_US.UTF-8"), Some(Lang::En));
    assert_eq!(parse_lang("fr"), None);
}

#[test]
fn detect_zh_default() {
    assert_eq!(Lang::from_code("zh"), Some(Lang::Zh));
    assert_eq!(Lang::from_code("en_US.UTF-8"), Some(Lang::En));
    assert_eq!(Lang::from_code("fr"), None);
}

#[test]
fn status_labels_translate() {
    assert_eq!(Lang::Zh.t(TextKey::LabelGold), "金币:");
    assert_eq!(Lang::En.t(TextKey::LabelGold), "Gold:");
}

#[test]
fn speed_name_chinese() {
    let s = Lang::Zh.t(TextKey::SpeedName(SpeedKind::Normal));
    assert_eq!(s, "正常");
}

#[test]
fn help_block_chinese_contains_key_brackets() {
    let key = Lang::Zh.t(TextKey::HelpFlagKey);
    assert!(key.starts_with('['));
}

#[test]
fn outcome_translates() {
    assert_eq!(Lang::Zh.t(TextKey::YouWon), "你胜利了！");
    assert_eq!(Lang::En.t(TextKey::YouWon), "You are victorious!");
}

#[test]
fn quit_prompt_translates() {
    assert!(Lang::Zh.t(TextKey::QuitPrompt).contains("退出"));
    assert!(Lang::En.t(TextKey::QuitPrompt).contains("Quit"));
}

#[test]
fn seed_text_is_decimal() {
    assert_eq!(Lang::En.t(TextKey::RandomSeedWas(4_000_000_000)), "Random seed was 4000000000");
    assert_eq!(Lang::Zh.t(TextKey::RandomSeedWas(0)), "随机种子为 0");
    assert_eq!(Lang::En.t(TextKey::Version("0.1.0")), "curseofwar 0.1.0");
    assert_eq!(Lang::En.t(TextKey::Noop), "");
}

#[test]
fn speed_kind_follows_speed() {
    assert_eq!(SpeedKind::from(Speed::Fastest), SpeedKind::Fastest);
    assert_eq!(SpeedKind::from(Speed::Pause), SpeedKind::Pause);
}

#[test]
fn detect_prefers_the_command_line() {
    assert_eq!(Lang::detect_from(Some(Lang::En), Some("zh"), None, None), Lang::En);
    assert_eq!(Lang::detect_from(None, Some("xx"), Some("EN_gb"), Some("zh")), Lang::En);
    assert_eq!(Lang::detect_from(None, None, None, None), Lang::Zh);
}

#[test]
fn bounded_usize_clamps_and_rejects() {
    assert_eq!(parse_bounded_usize(Some("100".to_string()), 14, 40), Some(40));
    assert_eq!(parse_bounded_usize(Some("+3".to_string()), 14, 40), Some(14));
    assert_eq!(parse_bounded_usize(Some("20".to_string()), 14, 40), Some(20));
    assert_eq!(parse_bounded_usize(Some("-3".to_string()), 14, 40), None);
    assert_eq!(parse_bounded_usize(Some("2x".to_string()), 14, 40), None);
    assert_eq!(parse_bounded_usize(Some("".to_string()), 14, 40), None);
    assert_eq!(parse_bounded_usize(None, 14, 40), None);
    assert_eq!(parse_bounded_usize(Some("99999999999999999999999".to_string()), 14, 40), None);
}

#[test]
fn lang_argument_forms() {
    let args: Vec<String> = ["curseofwar", "--lang", "en", "-h"].iter().map(|s| s.to_string()).collect();
    assert_eq!(lang_arg(&args), Some(Lang::En));
    let args: Vec<String> = ["curseofwar", "--lang=zh_CN"].iter().map(|s| s.to_string()).collect();
    assert_eq!(lang_arg(&args), Some(Lang::Zh));
    let args: Vec<String> = ["curseofwar", "--lang"].iter().map(|s| s.to_string()).collect();
    assert_eq!(lang_arg(&args), None);
}

#[test]
fn decisions_of_the_command_line() {
    let mut raw = no_args();
    raw.version = true;
    let out = cli_options(raw);
    assert_eq!(decide(true, false, 0, &out), CliOutcome::ShowVersion);
    let mut raw = no_args();
    raw.locations = Some("9".to_string());
    let out = cli_options(raw);
    assert_eq!(decide(false, false, 0, &out), CliOutcome::ShowHelp);
    let mut raw = no_args();
    raw.server_clients = Some("2".to_string());
    let out = cli_options(raw);
    assert_eq!(decide(false, false, 0, &out), CliOutcome::MultiplayerNotice);
    let mut raw = no_args();
    raw.difficulty = Some("hh".to_string());
    raw.shape = Some("hex".to_string());
    raw.locations = Some("6".to_string());
    raw.width = Some("8".to_string());
    raw.seed = Some("-5".to_string());
    let out = cli_options(raw);
    assert_eq!(decide(false, false, 0, &out), CliOutcome::Run);
    assert_eq!(out.map_seed, Some(5));
    let op = game_options(&out, 5, false);
    assert_eq!(op.dif, Difficulty::Hardest);
    assert_eq!(op.shape, Shape::Hex);
    assert_eq!(op.loc_num, 6);
    assert_eq!(op.w, 14);
    assert_eq!(op.h, 21);
    assert_eq!(op.inequality, -1);
}

#[test]
fn keys_map_to_actions() {
    let c = Loc::new(3, 2);
    let (a, m) = map_key(Key::Char('q'), c, Modal::Closed, 10, 10);
    assert!(a.is_empty());
    assert_eq!(m, Some(Modal::QuitConfirm));
    let (a, m) = map_key(Key::Char('n'), c, Modal::QuitConfirm, 10, 10);
    assert!(a.is_empty());
    assert_eq!(m, Some(Modal::Closed));
    let (a, _) = map_key(Key::Up, c, Modal::Closed, 10, 10);
    assert_eq!(a, vec![Action::MoveCursor(4, 1)]);
    let (a, _) = map_key(Key::Down, c, Modal::Closed, 10, 10);
    assert_eq!(a, vec![Action::MoveCursor(3, 3)]);
    let (a, _) = map_key(Key::Char('h'), Loc::new(0, 0), Modal::Closed, 10, 10);
    assert_eq!(a, vec![Action::MoveCursor(0, 0)]);
    let (a, _) = map_key(Key::Char(' '), c, Modal::Closed, 10, 10);
    assert_eq!(a, vec![Action::ToggleFlagAtCursor(c)]);
    let (a, _) = map_key(Key::Esc, c, Modal::Closed, 10, 10);
    assert_eq!(a, vec![Action::Noop]);
}

#[test]
fn quit_needs_confirmation() {
    let mut app = App::new(dummy_state(), Lang::En);
    assert!(!app.process_key(Key::Char('q')));
    assert_eq!(app.modal, Modal::QuitConfirm);
    assert!(!app.process_key(Key::Char('n')));
    assert_eq!(app.modal, Modal::Closed);
    assert!(!app.process_key(Key::Char('q')));
    assert!(app.process_key(Key::Char('y')));
}

#[test]
fn screen_positions_and_glyphs() {
    assert_eq!(posy(3), 4);
    assert_eq!(posx(2, 3, 1), 4 * 2 + 2 * 3 + 1 - 4);
    assert_eq!(pop_glyph(401), ":::");
    assert_eq!(pop_glyph(0), "");
    assert_eq!(pop_glyph(5), ".. ");
    assert_eq!(terrain_glyph(TileClass::Castle), " W#W ");
    assert_eq!(terrain_glyph(TileClass::Abyss), "");
    let rows = key_table_rows();
    assert!(matches!(rows[2][1].0, TextKey::Noop));
    assert!(matches!(rows[0][0].0, TextKey::HelpFlagKey));
}
