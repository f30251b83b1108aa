use cow_core::args::run_decision;
use cow_core::cli::CliOutcome;

fn args(a: &[&str]) -> Vec<String> {
    a.iter().map(|s| s.to_string()).collect()
}

#[test]
fn version_flag_decides_to_show_the_version() {
    let d = run_decision(&args(&["curseofwar", "-v"])).unwrap();
    assert_eq!(d.outcome, CliOutcome::ShowVersion);
}

#[test]
fn help_flag_decides_to_show_the_help() {
    let d = run_decision(&args(&["curseofwar", "-h"])).unwrap();
    assert_eq!(d.outcome, CliOutcome::ShowHelp);
    let d = run_decision(&args(&["curseofwar", "--lang", "en", "-h"])).unwrap();
    assert_eq!(d.outcome, CliOutcome::ShowHelp);
}

#[test]
fn too_many_locations_shows_the_help() {
    let d = run_decision(&args(&["curseofwar", "-l", "9"])).unwrap();
    assert_eq!(d.outcome, CliOutcome::ShowHelp);
}

#[test]
fn multiplayer_option_gets_the_notice() {
    let d = run_decision(&args(&["curseofwar", "-E", "2"])).unwrap();
    assert_eq!(d.outcome, CliOutcome::MultiplayerNotice);
}

#[test]
fn unknown_option_is_refused() {
    assert!(run_decision(&args(&["curseofwar", "-Z"])).is_err());
}

#[test]
fn options_are_read() {
    let d = run_decision(&args(&["curseofwar", "-W", "30", "-R", "7", "--headless", "--headless-steps", "50"])).unwrap();
    assert_eq!(d.outcome, CliOutcome::Run);
    assert_eq!(d.options.w, Some(30));
    assert_eq!(d.options.map_seed, Some(7));
    assert!(d.headless);
    assert_eq!(d.steps, 50);
}
