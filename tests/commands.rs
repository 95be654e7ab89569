use akaza::commands::{command_of, ibus_akaza_commands_map, Command, InputMode};

#[test]
fn commands_by_name() {
    assert_eq!(ibus_akaza_commands_map().len(), 33);
    assert_eq!(command_of("escape"), Some(Command::Escape));
    assert_eq!(command_of("press_number_0"), Some(Command::PressNumber(0)));
    assert_eq!(
        command_of("set_input_mode_katakana"),
        Some(Command::SetInputMode(InputMode::Katakana))
    );
    assert_eq!(command_of("no_such_command"), None);
}
