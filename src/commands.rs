//! The commands that a shortcut key can be bound to, by name.
use vstd::prelude::*;

verus! {

/// The input modes a command can switch to.
#[derive(Clone, Copy, Debug, PartialEq, Eq, Structural)]
pub enum InputMode {
    Hiragana,
    Alnum,
    FullwidthAlnum,
    Katakana,
    HalfwidthKatakana,
}

/// An action of the input method engine that a key can trigger.
#[derive(Clone, Copy, Debug, PartialEq, Eq, Structural)]
pub enum Command {
    CommitCandidate,
    /// Commits the reading as it stands, in hiragana.
    CommitPreedit,
    Escape,
    PageUp,
    PageDown,
    SetInputMode(InputMode),
    UpdateCandidates,
    EraseCharacterBeforeCursor,
    CursorUp,
    CursorDown,
    CursorRight,
    CursorLeft,
    ExtendClauseRight,
    ExtendClauseLeft,
    ConvertToFullHiragana,
    ConvertToFullKatakana,
    ConvertToHalfKatakana,
    ConvertToFullRomaji,
    ConvertToHalfRomaji,
    /// Picks the candidate with this number key.
    PressNumber(u8),
}

/// Each command name with the command it stands for, in registration order.
pub open spec fn command_table() -> Seq<(Seq<char>, Command)> {
    seq![
        ("commit_candidate"@, Command::CommitCandidate),
        ("commit_preedit"@, Command::CommitPreedit),
        ("escape"@, Command::Escape),
        ("page_up"@, Command::PageUp),
        ("page_down"@, Command::PageDown),
        ("set_input_mode_hiragana"@, Command::SetInputMode(InputMode::Hiragana)),
        ("set_input_mode_alnum"@, Command::SetInputMode(InputMode::Alnum)),
        ("set_input_mode_fullwidth_alnum"@, Command::SetInputMode(InputMode::FullwidthAlnum)),
        ("set_input_mode_katakana"@, Command::SetInputMode(InputMode::Katakana)),
        ("set_input_mode_halfwidth_katakana"@, Command::SetInputMode(InputMode::HalfwidthKatakana)),
        ("update_candidates"@, Command::UpdateCandidates),
        ("erase_character_before_cursor"@, Command::EraseCharacterBeforeCursor),
        ("cursor_up"@, Command::CursorUp),
        ("cursor_down"@, Command::CursorDown),
        ("cursor_right"@, Command::CursorRight),
        ("cursor_left"@, Command::CursorLeft),
        ("extend_clause_right"@, Command::ExtendClauseRight),
        ("extend_clause_left"@, Command::ExtendClauseLeft),
        ("convert_to_full_hiragana"@, Command::ConvertToFullHiragana),
        ("convert_to_full_katakana"@, Command::ConvertToFullKatakana),
        ("convert_to_half_katakana"@, Command::ConvertToHalfKatakana),
        ("convert_to_full_romaji"@, Command::ConvertToFullRomaji),
        ("convert_to_half_romaji"@, Command::ConvertToHalfRomaji),
        ("press_number_1"@, Command::PressNumber(1)),
        ("press_number_2"@, Command::PressNumber(2)),
        ("press_number_3"@, Command::PressNumber(3)),
        ("press_number_4"@, Command::PressNumber(4)),
        ("press_number_5"@, Command::PressNumber(5)),
        ("press_number_6"@, Command::PressNumber(6)),
        ("press_number_7"@, Command::PressNumber(7)),
        ("press_number_8"@, Command::PressNumber(8)),
        ("press_number_9"@, Command::PressNumber(9)),
        ("press_number_0"@, Command::PressNumber(0)),
    ]
}

/// The command registered under `name` in `table`: the first with that name.
pub open spec fn find_command(table: Seq<(Seq<char>, Command)>, name: Seq<char>) -> Option<Command>
    decreases table.len(),
{
    if table.len() == 0 {
        None
    } else if table[0].0 == name {
        Some(table[0].1)
    } else {
        find_command(table.drop_first(), name)
    }
}

/// The names that can be bound to keys, with their commands.
#[verifier::rlimit(50)]
pub fn ibus_akaza_commands_map() -> (r: Vec<(&'static str, Command)>)
    ensures
        r@.len() == command_table().len(),
        forall|i: int|
            0 <= i < r@.len() ==> (#[trigger] r@[i]).0@ == command_table()[i].0 && r@[i].1 == command_table()[i].1,
{
    let mut function_map: Vec<(&'static str, Command)> = Vec::new();
    function_map.push(("commit_candidate", Command::CommitCandidate));
    function_map.push(("commit_preedit", Command::CommitPreedit));
    function_map.push(("escape", Command::Escape));
    function_map.push(("page_up", Command::PageUp));
    function_map.push(("page_down", Command::PageDown));
    function_map.push(("set_input_mode_hiragana", Command::SetInputMode(InputMode::Hiragana)));
    function_map.push(("set_input_mode_alnum", Command::SetInputMode(InputMode::Alnum)));
    function_map.push(("set_input_mode_fullwidth_alnum", Command::SetInputMode(InputMode::FullwidthAlnum)));
    function_map.push(("set_input_mode_katakana", Command::SetInputMode(InputMode::Katakana)));
    function_map.push(("set_input_mode_halfwidth_katakana", Command::SetInputMode(InputMode::HalfwidthKatakana)));
    function_map.push(("update_candidates", Command::UpdateCandidates));
    function_map.push(("erase_character_before_cursor", Command::EraseCharacterBeforeCursor));
    function_map.push(("cursor_up", Command::CursorUp));
    function_map.push(("cursor_down", Command::CursorDown));
    function_map.push(("cursor_right", Command::CursorRight));
    function_map.push(("cursor_left", Command::CursorLeft));
    function_map.push(("extend_clause_right", Command::ExtendClauseRight));
    function_map.push(("extend_clause_left", Command::ExtendClauseLeft));
    function_map.push(("convert_to_full_hiragana", Command::ConvertToFullHiragana));
    function_map.push(("convert_to_full_katakana", Command::ConvertToFullKatakana));
    function_map.push(("convert_to_half_katakana", Command::ConvertToHalfKatakana));
    function_map.push(("convert_to_full_romaji", Command::ConvertToFullRomaji));
    function_map.push(("convert_to_half_romaji", Command::ConvertToHalfRomaji));
    function_map.push(("press_number_1", Command::PressNumber(1)));
    function_map.push(("press_number_2", Command::PressNumber(2)));
    function_map.push(("press_number_3", Command::PressNumber(3)));
    function_map.push(("press_number_4", Command::PressNumber(4)));
    function_map.push(("press_number_5", Command::PressNumber(5)));
    function_map.push(("press_number_6", Command::PressNumber(6)));
    function_map.push(("press_number_7", Command::PressNumber(7)));
    function_map.push(("press_number_8", Command::PressNumber(8)));
    function_map.push(("press_number_9", Command::PressNumber(9)));
    function_map.push(("press_number_0", Command::PressNumber(0)));
    function_map
}

/// The command bound to `name`, if any.
pub fn command_of(name: &str) -> (r: Option<Command>)
    ensures
        r == find_command(command_table(), name@),
{
    let table = ibus_akaza_commands_map();
    let wanted = name.to_owned();
    let mut i: usize = 0;
    assert(command_table().skip(0) =~= command_table());
    while i < table.len()
        invariant
            wanted@ == name@,
            table@.len() == command_table().len(),
            forall|j: int|
                0 <= j < table@.len() ==> (#[trigger] table@[j]).0@ == command_table()[j].0 && table@[j].1
                    == command_table()[j].1,
            0 <= i <= table@.len(),
            find_command(command_table(), name@) == find_command(command_table().skip(i as int), name@),
        decreases table@.len() - i,
    {
        let (n, c) = table[i];
        if n.to_owned() == wanted {
            return Some(c);
        }
        assert(command_table().skip(i as int).drop_first() =~= command_table().skip(i + 1));
        i = i + 1;
    }
    assert(command_table().skip(i as int).len() == 0);
    None
}

} // verus!
