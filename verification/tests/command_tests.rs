use broadcast_discovery::command::{kill_player, open_player, Command, CommandResult};
use broadcast_discovery::strutil::{i64_to_dec_string, u128_to_dec_string};

#[test]
fn kill_player_spells_pkill() {
    let command = kill_player();
    assert_eq!(command.command, "pkill");
    assert_eq!(command.args, vec!["-f".to_string(), "player".to_string()]);
    assert!(!command.id.is_empty());
    assert!(command.id.chars().all(|c| c.is_ascii_digit()));
}

#[test]
fn open_player_spells_player() {
    let command = open_player();
    assert_eq!(command.command, "player");
    assert!(command.args.is_empty());
}

#[test]
fn command_result_keeps_fields() {
    let result = CommandResult::new("17".to_string(), "exit status: 0".to_string());
    assert_eq!(result.id, "17");
    assert_eq!(result.status, "exit status: 0");
}

#[test]
fn kill_command_names_the_process() {
    let command = Command::kill_command("mpv");
    assert_eq!(command.command, "pkill");
    assert_eq!(command.args, vec!["-f".to_string(), "mpv".to_string()]);
}

#[test]
fn decimal_strings_render_exactly() {
    assert_eq!(u128_to_dec_string(0), "0");
    assert_eq!(u128_to_dec_string(12345), "12345");
    assert_eq!(u128_to_dec_string(340282366920938463463374607431768211455u128),
        "340282366920938463463374607431768211455");
    assert_eq!(i64_to_dec_string(-42), "-42");
    assert_eq!(i64_to_dec_string(i64::MIN), "-9223372036854775808");
    assert_eq!(i64_to_dec_string(7), "7");
}
