use fmc::chat::{chat_history_path, chat_line, chat_text_color, is_chat_input, joined_line, left_line};
use fmc::noise::{hash2d, hash3d, HASH_MULTIPLIER};
use fmc::particle_effects::ParticleEffects;
use fmc::terminal::{is_stop, is_stop_command, Cli};

#[test]
fn chat_lines() {
    assert_eq!(chat_line("ann", "hi all"), "[ann] hi all");
    assert_eq!(joined_line("ann"), "ann joined the game");
    assert_eq!(left_line("bo"), "bo left the game");
    assert!(is_chat_input("chat/input"));
    assert!(!is_chat_input("chat/history"));
    assert_eq!(chat_history_path(), "chat/history");
    assert_eq!(chat_text_color(), "#ffffff");
}

#[test]
fn cli_world_path_and_extraction() {
    let args: Vec<String> = vec!["my_world".into(), "--extract-assets".into()];
    let cli = Cli::parse(&args);
    assert_eq!(cli.world_path().map(|s| s.as_str()), Some("my_world"));
    assert!(cli.extract_assets());

    let args: Vec<String> = vec!["--extract-assets".into(), "other".into()];
    let cli = Cli::parse(&args);
    assert_eq!(cli.world_path(), None);
    assert!(cli.extract_assets());

    let cli = Cli::parse(&vec![]);
    assert_eq!(cli.world_path(), None);
    assert!(!cli.extract_assets());

    let args: Vec<String> = vec!["-v".into(), "world".into()];
    let cli = Cli::parse(&args);
    assert_eq!(cli.world_path(), None);
    assert!(!cli.extract_assets());
}

#[test]
fn stop_command() {
    assert!(is_stop_command("stop\n"));
    assert!(is_stop_command("  stop "));
    assert!(!is_stop_command("stopp"));
    assert!(!is_stop_command("st op"));
    assert!(is_stop_command("\u{3000}\tstop\u{85}\u{2029}"));
    assert!(!is_stop_command("\u{200b}stop"));
    assert!(is_stop("stop"));
    assert!(!is_stop(" stop"));
}

#[test]
fn particle_effect_ids() {
    let effects = ParticleEffects::from_names(vec!["smoke".into(), "spark".into(), "smoke".into()]);
    assert_eq!(effects.get_id("spark"), Some(1));
    assert_eq!(effects.get_id("smoke"), Some(2));
    assert_eq!(effects.get_id("fire"), None);
    assert_eq!(effects.ids().len(), 3);
    assert_eq!(ParticleEffects::default().get_id("smoke"), None);
}

fn mix(h: i32) -> i32 {
    let m = h.wrapping_mul(HASH_MULTIPLIER);
    (m >> 15) ^ m
}

#[test]
fn lattice_hashes() {
    assert_eq!(HASH_MULTIPLIER, 0x27d4eb2d);
    let r = hash2d(&[0, 1], &[0, 2], &[0, 3]);
    assert_eq!(r, vec![0, mix(1 ^ 2 ^ 3)]);
    assert_eq!(hash2d(&[1], &[0], &[0]), vec![(0x27d4eb2d >> 15) ^ 0x27d4eb2d]);
    let r = hash3d(&[5, -7], &[1, 2], &[3, 4], &[6, 8]);
    assert_eq!(r, vec![mix(5 ^ 1 ^ 3 ^ 6), mix(-7 ^ 2 ^ 4 ^ 8)]);
    assert_ne!(hash3d(&[1], &[2], &[3], &[4]), hash3d(&[1], &[2], &[3], &[5]));
}

#[test]
fn player_has_a_name() {
    let player = fmc::players::Player::new("ann".to_owned());
    assert_eq!(player.username, "ann");
    assert_eq!(fmc::players::Player::default().username, "");
}
