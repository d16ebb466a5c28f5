use taskim::commands::{
    get_command_registry, interpret_command, parse_date_command, CommandAction, CommandOutcome,
    CommandState,
};
use taskim::date::Date;
use taskim::text::{calculate_wrapped_text_height, parse_bool, scramble_text};

fn d(year: i32, month: u32, day: u32) -> Date {
    Date { year, month, day }
}

#[test]
fn registry_lists_the_known_commands() {
    let reg = get_command_registry();
    assert_eq!(reg.len(), 17);
    assert_eq!(reg[0].name, "q");
    assert_eq!(reg[0].action, CommandAction::Quit);
    assert_eq!(reg[4].name, "seekeys");
    assert_eq!(reg[4].action, CommandAction::ShowKeybinds);
    assert_eq!(reg[8].name, "wrap");
    assert_eq!(reg[8].action, CommandAction::EnableWrap);
    assert_eq!(reg[16].name, "today");
    assert_eq!(reg[16].action, CommandAction::GoToToday);
    assert!(reg.iter().all(|c| !c.description.is_empty()));
}

#[test]
fn command_state_edits_around_the_cursor() {
    let mut s = CommandState::new();
    for ch in "wq".chars() {
        s.add_char(ch);
    }
    assert_eq!(s.input_string(), "wq");
    assert_eq!(s.cursor_position, 2);
    s.move_cursor_left();
    s.add_char('x');
    assert_eq!(s.input_string(), "wxq");
    s.remove_char();
    assert_eq!(s.input_string(), "wq");
    assert_eq!(s.cursor_position, 1);
    s.move_cursor_right();
    s.move_cursor_right();
    assert_eq!(s.cursor_position, 2);
    s.move_cursor_left();
    s.move_cursor_left();
    s.remove_char();
    assert_eq!(s.input_string(), "wq");
    assert_eq!(s.cursor_position, 0);
}

#[test]
fn year_directive_keeps_month_and_clamps_day() {
    // anchored in March, cursor on the 31st: jumping to a year keeps
    // March and the day
    let r = parse_date_command("2025", d(2024, 3, 1), d(2024, 3, 31));
    assert_eq!(r, Some(d(2025, 3, 31)));
    // jumping into a February clamps
    let r = parse_date_command("2023", d(2024, 2, 1), d(2024, 2, 29));
    assert_eq!(r, Some(d(2023, 2, 28)));
    // out of the documented range the year form is refused
    assert_eq!(parse_date_command("1899", d(2024, 3, 1), d(2024, 3, 5)), None);
    assert_eq!(parse_date_command("2051", d(2024, 3, 1), d(2024, 3, 5)), None);
}

#[test]
fn month_day_year_directive_names_the_day() {
    let cur = d(2024, 3, 1);
    let sel = d(2024, 3, 5);
    assert_eq!(parse_date_command("06/15/2025", cur, sel), Some(d(2025, 6, 15)));
    assert_eq!(parse_date_command("02/29/2024", cur, sel), Some(d(2024, 2, 29)));
    assert_eq!(parse_date_command("02/29/2023", cur, sel), None);
    assert_eq!(parse_date_command("13/01/2024", cur, sel), None);
    assert_eq!(parse_date_command("a/b/c", cur, sel), None);
    assert_eq!(parse_date_command("1/2/3/4", cur, sel), None);
}

#[test]
fn day_directive_stays_in_the_month() {
    let cur = d(2024, 2, 1);
    let sel = d(2024, 2, 5);
    assert_eq!(parse_date_command("15", cur, sel), Some(d(2024, 2, 15)));
    assert_eq!(parse_date_command("29", cur, sel), Some(d(2024, 2, 29)));
    assert_eq!(parse_date_command("30", cur, sel), None);
    assert_eq!(parse_date_command("0", cur, sel), None);
    assert_eq!(parse_date_command("32", cur, sel), None);
    assert_eq!(parse_date_command("nonsense", cur, sel), None);
}

#[test]
fn interpret_recognises_commands() {
    let cur = d(2024, 3, 1);
    let sel = d(2024, 3, 5);
    assert_eq!(interpret_command("q", cur, sel), CommandOutcome::Quit { save: false });
    assert_eq!(interpret_command("quit!", cur, sel), CommandOutcome::Quit { save: false });
    assert_eq!(interpret_command(" wq ", cur, sel), CommandOutcome::Quit { save: true });
    assert_eq!(interpret_command("x", cur, sel), CommandOutcome::Quit { save: true });
    assert_eq!(interpret_command("help", cur, sel), CommandOutcome::Help);
    assert_eq!(interpret_command("set wrap", cur, sel), CommandOutcome::SetWrap(true));
    assert_eq!(interpret_command("nowrap", cur, sel), CommandOutcome::SetWrap(false));
    assert_eq!(
        interpret_command("seekeys", cur, sel),
        CommandOutcome::SetKeybindsVisible(true)
    );
    assert_eq!(
        interpret_command(":set nokeys", cur, sel),
        CommandOutcome::SetKeybindsVisible(false)
    );
    assert_eq!(interpret_command("", cur, sel), CommandOutcome::Nothing);
    assert_eq!(interpret_command("   ", cur, sel), CommandOutcome::Nothing);
    assert_eq!(interpret_command("15", cur, sel), CommandOutcome::Navigate(d(2024, 3, 15)));
    assert_eq!(interpret_command("frobnicate", cur, sel), CommandOutcome::Unknown);
}

#[test]
fn parse_bool_is_strict() {
    assert_eq!(parse_bool(Some(&"true".to_string()), false), true);
    assert_eq!(parse_bool(Some(&"false".to_string()), true), false);
    assert_eq!(parse_bool(Some(&"yes".to_string()), true), true);
    assert_eq!(parse_bool(Some(&"yes".to_string()), false), false);
    assert_eq!(parse_bool(None, true), true);
    assert_eq!(parse_bool(None, false), false);
}

#[test]
fn scramble_preserves_shape() {
    let original = "buy milk today";
    let scrambled = scramble_text(original, true);
    assert_eq!(scrambled.chars().count(), original.chars().count());
    // spaces stay, letters become digits
    for (a, b) in original.chars().zip(scrambled.chars()) {
        if a.is_whitespace() {
            assert_eq!(a, b);
        } else {
            assert!(b.is_ascii_digit());
        }
    }
    // deterministic, and off-mode is the identity
    assert_eq!(scramble_text(original, true), scrambled);
    assert_eq!(scramble_text(original, false), original);
    assert_ne!(scrambled, original);
}

#[test]
fn wrapped_height_counts_rows() {
    assert_eq!(calculate_wrapped_text_height("hello", 2), 3);
    assert_eq!(calculate_wrapped_text_height("hello", 5), 1);
    assert_eq!(calculate_wrapped_text_height("a\n\nbb", 1), 4);
    assert_eq!(calculate_wrapped_text_height("", 4), 1);
    assert_eq!(calculate_wrapped_text_height("anything", 0), 1);
    assert_eq!(calculate_wrapped_text_height("ab\r\ncd", 10), 2);
    assert_eq!(calculate_wrapped_text_height("tail\n", 10), 1);
    // a lone trailing carriage return belongs to the final line, as in
    // str::lines
    assert_eq!(calculate_wrapped_text_height("ab\r", 1), 3);
    assert_eq!("ab\r".lines().map(|l| l.len().max(1)).sum::<usize>(), 3);
}
